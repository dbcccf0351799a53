use cg4rs::graph::{CallGraph, CallSite};
use cg4rs::instance::{DefId, FunctionInstance};
use cg4rs::args::CGArgs;
use cg4rs::names::{check_query_modes, contains_bytes, path_matches, process_path, FunctionName, QueryError};
use cg4rs::query::PathInfo;
use cg4rs::report::{bytes_less, crate_version, group_call_graph, path_info_less, sort_callers};

fn f(i: u32) -> FunctionInstance {
    FunctionInstance::new_instance(DefId::new(0, i), vec![])
}

fn name(x: FunctionInstance, full: &str, base: &str) -> FunctionName {
    let hash = format!("h-{}", full);
    FunctionName {
        instance: x,
        full: full.as_bytes().to_vec(),
        base: base.as_bytes().to_vec(),
        hash: hash.into_bytes(),
        version: b"0.1.0".to_vec(),
    }
}

#[test]
fn strips_generic_segments() {
    assert_eq!(process_path(b"core::mem::swap::<i32>"), b"core::mem::swap".to_vec());
    assert_eq!(process_path(b"a::<Vec<u8>>::b::<T>::c"), b"a::b::c".to_vec());
    assert_eq!(process_path(b"<T as Tr>::m"), b"<T as Tr>::m".to_vec());
    assert_eq!(process_path(b""), Vec::<u8>::new());
}

#[test]
fn substring_search() {
    assert!(contains_bytes(b"crate::util::identity", b"util::id"));
    assert!(contains_bytes(b"abc", b""));
    assert!(!contains_bytes(b"abc", b"abcd"));
    assert!(!contains_bytes(b"abc", b"ac"));
}

#[test]
fn generic_arguments_in_target_match_as_written() {
    assert!(path_matches(b"m::identity::<i32>", b"m::identity", b"identity::<i32>"));
    assert!(!path_matches(b"m::identity::<i32>", b"m::identity", b"identity::<u8>"));
}

#[test]
fn base_name_matches_every_instantiation() {
    assert!(path_matches(b"m::identity::<i32>", b"m::identity", b"identity"));
    assert!(path_matches(b"m::identity::<String>", b"m::identity::<String>", b"m::identity"));
    assert!(!path_matches(b"m::other::<i32>", b"m::other", b"identity"));
}

#[test]
fn callers_by_path() {
    let id_i32 = FunctionInstance::new_instance(DefId::new(0, 5), vec![1]);
    let id_str = FunctionInstance::new_instance(DefId::new(0, 5), vec![2]);
    let mut g = CallGraph::new(vec![], false);
    g.call_sites.push(CallSite::new(f(1), id_i32.clone(), 1));
    g.call_sites.push(CallSite::new(f(2), id_str.clone(), 0));
    g.call_sites.push(CallSite::new(f(3), f(1), 2));
    let names = vec![
        name(id_i32, "m::identity::<i32>", "m::identity"),
        name(id_str, "m::identity::<String>", "m::identity"),
        name(f(1), "m::a", "m::a"),
    ];
    let all = g.find_callers_by_path(&names, "identity").unwrap();
    assert_eq!(all.len(), 3);
    let only = g.find_callers_by_path(&names, "identity::<String>").unwrap();
    assert_eq!(only.len(), 1);
    assert_eq!(only[0].caller, f(2));
    assert!(g.find_callers_by_path(&names, "missing").is_none());
}

#[test]
fn callers_sorted_by_depth_then_name() {
    let names = vec![name(f(1), "b", "b"), name(f(2), "a", "a"), name(f(3), "c", "c")];
    let res = vec![
        PathInfo { caller: f(3), constraints: 0, package_num: 0 },
        PathInfo { caller: f(1), constraints: 2, package_num: 0 },
        PathInfo { caller: f(2), constraints: 2, package_num: 1 },
    ];
    let sorted = sort_callers(res, &names, false);
    let order: Vec<FunctionInstance> = sorted.iter().map(|p| p.caller.clone()).collect();
    assert_eq!(order, vec![f(3), f(2), f(1)]);
}

#[test]
fn byte_order() {
    assert!(bytes_less(b"ab", b"b"));
    assert!(bytes_less(b"a", b"ab"));
    assert!(!bytes_less(b"ab", b"ab"));
    assert!(!bytes_less(b"b", b"ab"));
}

#[test]
fn callers_by_hash_and_conflicting_modes() {
    let mut g = CallGraph::new(vec![], false);
    g.call_sites.push(CallSite::new(f(1), f(5), 1));
    g.call_sites.push(CallSite::new(f(2), f(6), 0));
    let names = vec![name(f(5), "m::five", "m::five"), name(f(6), "m::six", "m::six")];
    let r = g.find_callers_by_hash(&names, "h-m::six").unwrap();
    assert_eq!(r.len(), 1);
    assert_eq!(r[0].caller, f(2));
    assert!(g.find_callers_by_hash(&names, "h-m::si").is_none());
    assert_eq!(g.find_callers_of(&names, Some("five"), Some("h-m::six")).unwrap_err(), QueryError::ConflictingTargets);
    assert!(g.find_callers_of(&names, None, None).unwrap().is_none());
    let by_path = g.find_callers_of(&names, Some("five"), None).unwrap().unwrap();
    assert_eq!(by_path[0].caller, f(1));
}

#[test]
fn crate_versions() {
    assert_eq!(crate_version(b"serde-1.0.200", b"abcdef0123456789", None), b"1.0.200".to_vec());
    assert_eq!(crate_version(b"my-crate", b"abcdef0123456789", None), b"0.0.0-abcdef01".to_vec());
    assert_eq!(crate_version(b"core", b"abc", None), b"0.0.0-abc".to_vec());
    assert_eq!(crate_version(b"serde-1.0.200", b"abcdef0123456789", Some(b"2.3.4")), b"2.3.4".to_vec());
    assert_eq!(crate_version(b"trailing-", b"12345678", None), b"0.0.0-12345678".to_vec());
}

#[test]
fn callers_sorted_by_shown_path() {
    let x = FunctionInstance::new_instance(DefId::new(0, 1), vec![3]);
    let y = FunctionInstance::new_instance(DefId::new(0, 2), vec![4]);
    let names = vec![name(x.clone(), "a::<z>", "z"), name(y.clone(), "b::<a>", "y")];
    let res = || {
        vec![
            PathInfo { caller: x.clone(), constraints: 1, package_num: 0 },
            PathInfo { caller: y.clone(), constraints: 1, package_num: 0 },
        ]
    };
    let full: Vec<FunctionInstance> = sort_callers(res(), &names, false).iter().map(|p| p.caller.clone()).collect();
    assert_eq!(full, vec![x.clone(), y.clone()]);
    let short: Vec<FunctionInstance> = sort_callers(res(), &names, true).iter().map(|p| p.caller.clone()).collect();
    assert_eq!(short, vec![y, x]);
}

#[test]
fn call_graph_grouped_by_caller() {
    let mut g = CallGraph::new(vec![], false);
    g.call_sites.push(CallSite::new(f(2), f(5), 3));
    g.call_sites.push(CallSite::new(f(1), f(6), 0));
    g.call_sites.push(CallSite::new(f(2), f(4), 1));
    g.call_sites.push(CallSite::new(f(2), f(5), 2));
    let names = vec![
        name(f(1), "m::b", "m::b"),
        name(f(2), "m::a", "m::a"),
        name(f(4), "m::z", "m::z"),
        name(f(5), "m::y", "m::y"),
        name(f(6), "m::x", "m::x"),
    ];
    let groups = group_call_graph(&g, &names);
    assert_eq!(groups.len(), 2);
    assert_eq!(groups[0].caller, f(2));
    assert_eq!(groups[1].caller, f(1));
    let calls: Vec<(FunctionInstance, usize)> = groups[0].calls.iter().map(|c| (c.callee(), c.constraint_count())).collect();
    assert_eq!(calls, vec![(f(5), 2), (f(5), 3), (f(4), 1)]);
    assert_eq!(groups[0].max_depth, 3);
    assert_eq!(groups[1].max_depth, 0);
    assert_eq!(groups[1].calls.len(), 1);
}

#[test]
fn both_query_modes_are_refused() {
    let both = CGArgs { find_callers: vec!["a".to_string()], find_callers_hash: vec!["h".to_string()], ..CGArgs::default() };
    assert_eq!(check_query_modes(&both), Err(QueryError::ConflictingTargets));
    let path = CGArgs { find_callers: vec!["a".to_string()], ..CGArgs::default() };
    assert_eq!(check_query_modes(&path), Ok(()));
    let hash = CGArgs { find_callers_hash: vec!["h".to_string()], ..CGArgs::default() };
    assert_eq!(check_query_modes(&hash), Ok(()));
    assert_eq!(check_query_modes(&CGArgs::default()), Ok(()));
}

#[test]
fn path_info_order_is_name_depth_crossings() {
    let names = vec![name(f(1), "m::a", "m::a"), name(f(2), "m::b", "m::b")];
    let p = |x: u32, c: usize, k: usize| PathInfo { caller: f(x), constraints: c, package_num: k };
    assert!(path_info_less(&names, false, &p(1, 9, 9), &p(2, 0, 0)));
    assert!(!path_info_less(&names, false, &p(2, 0, 0), &p(1, 9, 9)));
    assert!(path_info_less(&names, false, &p(1, 1, 5), &p(1, 2, 0)));
    assert!(path_info_less(&names, false, &p(1, 2, 0), &p(1, 2, 1)));
    assert!(!path_info_less(&names, false, &p(1, 2, 1), &p(1, 2, 1)));
}
