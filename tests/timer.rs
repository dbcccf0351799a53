use cg4rs::args::CGArgs;
use cg4rs::timer::{Timer, TimerData};

fn data(t: &Timer, name: &str) -> Option<TimerData> {
    t.timers.iter().find(|e| e.name == name).map(|e| e.data)
}

#[test]
fn start_stop_accumulates() {
    let mut t = Timer::new();
    t.start("build", 100);
    t.start("build", 150);
    t.stop("build", 400);
    t.start("build", 1000);
    t.stop("build", 1100);
    assert_eq!(data(&t, "build"), Some(TimerData { start_time: None, elapsed: 400, count: 2 }));
}

#[test]
fn stop_without_start_changes_nothing() {
    let mut t = Timer::new();
    t.stop("none", 5);
    assert_eq!(data(&t, "none"), None);
    t.record("x", 7);
    t.stop("x", 9);
    assert_eq!(data(&t, "x"), Some(TimerData { start_time: None, elapsed: 7, count: 1 }));
}

#[test]
fn record_and_reset() {
    let mut t = Timer::new();
    t.record("a", 10);
    t.record("a", 5);
    t.record("b", 1);
    assert_eq!(data(&t, "a"), Some(TimerData { start_time: None, elapsed: 15, count: 2 }));
    t.reset("a");
    assert_eq!(data(&t, "a"), None);
    assert_eq!(data(&t, "b").unwrap().count, 1);
    t.reset_all();
    assert!(t.timers.is_empty());
}

#[test]
fn init_picks_the_report_file() {
    let mut t = Timer::new();
    t.init(&CGArgs::default());
    assert_eq!(t.output_file.as_deref(), Some("./target/cg_timing.txt"));
    t.init(&CGArgs { output_dir: Some("out".to_string()), ..CGArgs::default() });
    assert_eq!(t.output_file.as_deref(), Some("out/cg_timing.txt"));
    t.init(&CGArgs { timer_output: Some("t.txt".to_string()), output_dir: Some("out".to_string()), ..CGArgs::default() });
    assert_eq!(t.output_file.as_deref(), Some("t.txt"));
    t.init(&CGArgs { output_dir: Some("out/".to_string()), ..CGArgs::default() });
    assert_eq!(t.output_file.as_deref(), Some("out/cg_timing.txt"));
    t.init(&CGArgs { output_dir: Some(String::new()), ..CGArgs::default() });
    assert_eq!(t.output_file.as_deref(), Some("cg_timing.txt"));
    t.set_output_file("x.txt");
    assert_eq!(t.output_file.as_deref(), Some("x.txt"));
}

#[test]
fn duplicate_names_are_not_well_formed() {
    let mut t = Timer::new();
    t.record("a", 1);
    t.record("b", 1);
    assert!(t.is_wf());
    t.timers.push(cg4rs::timer::TimerEntry { name: "a".to_string(), data: TimerData::new() });
    assert!(!t.is_wf());
}
