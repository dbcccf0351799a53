use cg4rs::graph::{CallGraph, CallSite};
use cg4rs::instance::{DefId, FunctionInstance};
use cg4rs::query::{aggregate, sat_add, PathInfo};

fn f(i: u32) -> FunctionInstance {
    FunctionInstance::new_instance(DefId::new(0, i), vec![])
}

fn graph(e: Vec<(u32, u32, usize)>) -> CallGraph {
    let mut g = CallGraph::new(vec![], false);
    for (a, b, d) in e {
        g.call_sites.push(CallSite::new(f(a), f(b), d));
    }
    g
}

fn depth_of(r: &Vec<PathInfo>, x: u32) -> Option<usize> {
    r.iter().find(|p| p.caller == f(x)).map(|p| p.constraints)
}

#[test]
fn callers_of_g_with_accumulated_depths() {
    // a -> b -> g, c -> g ; a=1, b=2, c=3, g=9
    let g = graph(vec![(1, 2, 2), (2, 9, 1), (3, 9, 4)]);
    let r = g.find_callers(&vec![f(9)]).unwrap();
    assert_eq!(r.len(), 3);
    assert_eq!(depth_of(&r, 2), Some(1));
    assert_eq!(depth_of(&r, 3), Some(4));
    assert_eq!(depth_of(&r, 1), Some(3));
    assert_eq!(depth_of(&r, 9), None);
}

#[test]
fn callers_take_the_least_constrained_path() {
    // a -> b (5), b -> g (0), a -> c (1), c -> g (1)
    let g = graph(vec![(1, 2, 5), (2, 9, 0), (1, 3, 1), (3, 9, 1)]);
    let r = g.find_callers(&vec![f(9)]).unwrap();
    assert_eq!(depth_of(&r, 1), Some(2));
    assert_eq!(depth_of(&r, 2), Some(0));
    assert_eq!(depth_of(&r, 3), Some(1));
}

#[test]
fn repeated_edges_of_one_pair_are_summed() {
    let g = graph(vec![(1, 9, 2), (1, 9, 3)]);
    let r = g.find_callers(&vec![f(9)]).unwrap();
    assert_eq!(depth_of(&r, 1), Some(5));
    let agg = aggregate(&g.call_sites);
    assert_eq!(agg.len(), 1);
    assert_eq!(agg[0].constraints, 5);
    assert_eq!(agg[0].package_num, 0);
}

#[test]
fn cycles_terminate_in_queries() {
    let g = graph(vec![(1, 2, 1), (2, 1, 1), (2, 9, 0)]);
    let r = g.find_callers(&vec![f(9)]).unwrap();
    assert_eq!(depth_of(&r, 2), Some(0));
    assert_eq!(depth_of(&r, 1), Some(1));
}

#[test]
fn recursive_target_reports_itself() {
    let g = graph(vec![(9, 9, 2)]);
    let r = g.find_callers(&vec![f(9)]).unwrap();
    assert_eq!(depth_of(&r, 9), Some(2));
}

#[test]
fn no_targets_or_no_callers_give_none() {
    let g = graph(vec![(1, 2, 0)]);
    assert!(g.find_callers(&vec![]).is_none());
    assert!(g.find_callers(&vec![f(1)]).is_none());
}

#[test]
fn crossings_count_edges_between_units() {
    let other = FunctionInstance::new_instance(DefId::new(4, 0), vec![]);
    let mut g = CallGraph::new(vec![], false);
    g.call_sites.push(CallSite::new(f(1), f(2), 0));
    g.call_sites.push(CallSite::new(f(2), other.clone(), 0));
    let r = g.find_callers(&vec![other]).unwrap();
    let a = r.iter().find(|p| p.caller == f(1)).unwrap();
    let b = r.iter().find(|p| p.caller == f(2)).unwrap();
    assert_eq!(b.package_num, 1);
    assert_eq!(a.package_num, 1);
    let mut h = CallGraph::new(vec![], false);
    let g2 = FunctionInstance::new_instance(DefId::new(7, 0), vec![]);
    h.call_sites.push(CallSite::new(f(1), g2.clone(), 0));
    h.call_sites.push(CallSite::new(f(2), f(1), 0));
    let r = h.find_callers(&vec![g2]).unwrap();
    assert_eq!(r.iter().find(|p| p.caller == f(1)).unwrap().package_num, 1);
    assert_eq!(r.iter().find(|p| p.caller == f(2)).unwrap().package_num, 1);
}

#[test]
fn capped_addition() {
    assert_eq!(sat_add(2, 3), 5);
    assert_eq!(sat_add(usize::MAX, 1), usize::MAX);
}
