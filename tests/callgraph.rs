use cg4rs::args::CGArgs;
use cg4rs::body::{BasicBlockData, Body, Operand, Terminator, TerminatorKind, Ty, TyArg};
use cg4rs::builder::{collect_callsites, perform_mono_analysis};
use cg4rs::constraint::{compute_shortest_paths, ConstraintKind};
use cg4rs::graph::{CallGraph, CallSite};
use cg4rs::instance::{DefId, FunctionInstance};
use cg4rs::model::{DefKind, Definition, InstanceBody, ProgramModel, Resolution, ResolveOutcome};
use cg4rs::resolver::{candidates_for_fnptr_sig, monomorphize, resolve_call};

fn def(i: u32) -> DefId {
    DefId::new(0, i)
}

fn inst(i: u32, args: Vec<u64>) -> FunctionInstance {
    FunctionInstance::new_instance(def(i), args)
}

fn block(kind: TerminatorKind, successors: Vec<usize>) -> BasicBlockData {
    BasicBlockData { terminator: Some(Terminator { kind, successors, source_info: 0 }) }
}

fn ret() -> BasicBlockData {
    block(TerminatorKind::Return, vec![])
}

fn call(callee: u32, args: Vec<TyArg>, next: usize) -> BasicBlockData {
    block(TerminatorKind::Call(Operand::Constant(Ty::FnDef { def: def(callee), args })), vec![next])
}

fn leaf_body() -> Body {
    Body { basic_blocks: vec![ret()] }
}

fn function(i: u32) -> Definition {
    Definition {
        def: def(i),
        kind: DefKind::Fn,
        identity_args: vec![],
        inputs: vec![],
        output: 0,
        has_body: true,
    }
}

fn model(roots: Vec<FunctionInstance>, bodies: Vec<(FunctionInstance, Body)>, defs: Vec<Definition>) -> ProgramModel {
    ProgramModel {
        roots,
        bodies: bodies.into_iter().map(|(instance, body)| InstanceBody { instance, body }).collect(),
        definitions: defs,
        resolutions: vec![],
    }
}

fn no_dedup() -> CGArgs {
    CGArgs { no_dedup: true, ..CGArgs::default() }
}

fn edges(g: &CallGraph) -> Vec<(FunctionInstance, FunctionInstance, usize)> {
    g.call_sites.iter().map(|c| (c.caller(), c.callee(), c.constraint_count())).collect()
}

#[test]
fn generic_identity_two_instances() {
    // main calls identity::<i32> (type 1) and identity::<String> (type 2), no branch in between.
    let main_body = Body {
        basic_blocks: vec![call(1, vec![TyArg::Known(1)], 1), call(1, vec![TyArg::Known(2)], 2), ret()],
    };
    let m = model(
        vec![inst(0, vec![])],
        vec![(inst(0, vec![]), main_body), (inst(1, vec![1]), leaf_body()), (inst(1, vec![2]), leaf_body())],
        vec![function(0), function(1)],
    );
    let g = perform_mono_analysis(&m, vec![inst(0, vec![])], &CGArgs::default());
    let e = edges(&g);
    assert_eq!(e.len(), 2);
    assert_eq!(e[0], (inst(0, vec![]), inst(1, vec![1]), 0));
    assert_eq!(e[1], (inst(0, vec![]), inst(1, vec![2]), 0));
    let identities: Vec<&FunctionInstance> = g.visited.iter().filter(|x| x.def_id() == def(1)).collect();
    assert_eq!(identities.len(), 2);
    assert!(identities.iter().all(|x| x.is_instance()));
    assert_ne!(identities[0], identities[1]);
}

#[test]
fn branch_gives_depth_one() {
    // f: if cond { g() } else { h() }
    let f_body = Body {
        basic_blocks: vec![
            block(TerminatorKind::SwitchInt, vec![1, 2]),
            call(1, vec![], 3),
            call(2, vec![], 3),
            ret(),
        ],
    };
    let m = model(
        vec![inst(0, vec![])],
        vec![(inst(0, vec![]), f_body), (inst(1, vec![]), leaf_body()), (inst(2, vec![]), leaf_body())],
        vec![function(0), function(1), function(2)],
    );
    let g = perform_mono_analysis(&m, vec![inst(0, vec![])], &CGArgs::default());
    let e = edges(&g);
    assert_eq!(e.len(), 2);
    assert!(e.contains(&(inst(0, vec![]), inst(1, vec![]), 1)));
    assert!(e.contains(&(inst(0, vec![]), inst(2, vec![]), 1)));
}

#[test]
fn mutual_recursion_terminates() {
    let p_body = Body { basic_blocks: vec![call(1, vec![], 1), ret()] };
    let q_body = Body { basic_blocks: vec![call(0, vec![], 1), ret()] };
    let m = model(
        vec![inst(0, vec![])],
        vec![(inst(0, vec![]), p_body), (inst(1, vec![]), q_body)],
        vec![function(0), function(1)],
    );
    let g = perform_mono_analysis(&m, vec![inst(0, vec![])], &no_dedup());
    assert_eq!(g.visited.len(), 2);
    assert_eq!(g.call_sites.len(), 2);
    assert!(g.instances.is_empty());
    let e = edges(&g);
    assert!(e.contains(&(inst(0, vec![]), inst(1, vec![]), 0)));
    assert!(e.contains(&(inst(1, vec![]), inst(0, vec![]), 0)));
}

#[test]
fn self_recursion_terminates() {
    let body = Body { basic_blocks: vec![block(TerminatorKind::SwitchInt, vec![1, 2]), call(0, vec![], 2), ret()] };
    let m = model(vec![inst(0, vec![])], vec![(inst(0, vec![]), body)], vec![function(0)]);
    let g = perform_mono_analysis(&m, vec![inst(0, vec![])], &no_dedup());
    assert_eq!(g.visited.len(), 1);
    assert_eq!(edges(&g), vec![(inst(0, vec![]), inst(0, vec![]), 1)]);
}

#[test]
fn dedup_keeps_least_constrained() {
    let mut g = CallGraph::new(vec![], false);
    g.call_sites.push(CallSite::new(inst(0, vec![]), inst(1, vec![]), 3));
    g.call_sites.push(CallSite::new(inst(0, vec![]), inst(1, vec![]), 1));
    g.deduplicate_call_sites();
    assert_eq!(edges(&g), vec![(inst(0, vec![]), inst(1, vec![]), 1)]);
}

#[test]
fn dedup_ties_keep_first_and_is_idempotent() {
    let mut g = CallGraph::new(vec![], false);
    g.call_sites.push(CallSite::new(inst(0, vec![]), inst(1, vec![]), 2));
    g.call_sites.push(CallSite::new(inst(0, vec![]), inst(2, vec![]), 5));
    g.call_sites.push(CallSite::new(FunctionInstance::new_non_instance(def(0)), inst(1, vec![]), 0));
    g.call_sites.push(CallSite::new(inst(0, vec![]), inst(1, vec![]), 2));
    g.call_sites.push(CallSite::new(inst(0, vec![]), inst(2, vec![]), 4));
    g.deduplicate_call_sites();
    let once = edges(&g);
    assert_eq!(
        once,
        vec![
            (inst(0, vec![]), inst(1, vec![]), 2),
            (FunctionInstance::new_non_instance(def(0)), inst(1, vec![]), 0),
            (inst(0, vec![]), inst(2, vec![]), 4),
        ]
    );
    g.deduplicate_call_sites();
    assert_eq!(edges(&g), once);
}

#[test]
fn dedup_on_in_builder() {
    // f calls g once behind one branch and once with none.
    let f_body = Body {
        basic_blocks: vec![
            call(1, vec![], 1),
            block(TerminatorKind::SwitchInt, vec![2, 3]),
            call(1, vec![], 3),
            ret(),
        ],
    };
    let m = model(
        vec![inst(0, vec![])],
        vec![(inst(0, vec![]), f_body), (inst(1, vec![]), leaf_body())],
        vec![function(0), function(1)],
    );
    let all = perform_mono_analysis(&m, vec![inst(0, vec![])], &no_dedup());
    assert_eq!(all.call_sites.len(), 2);
    let g = perform_mono_analysis(&m, vec![inst(0, vec![])], &CGArgs::default());
    assert_eq!(edges(&g), vec![(inst(0, vec![]), inst(1, vec![]), 0)]);
}

#[test]
fn two_runs_give_the_same_edges() {
    let f_body = Body {
        basic_blocks: vec![block(TerminatorKind::SwitchInt, vec![1, 2]), call(1, vec![], 3), call(2, vec![], 3), ret()],
    };
    let m = model(
        vec![inst(0, vec![])],
        vec![(inst(0, vec![]), f_body), (inst(1, vec![]), leaf_body())],
        vec![function(0), function(1), function(2)],
    );
    let a = perform_mono_analysis(&m, vec![inst(0, vec![])], &no_dedup());
    let b = perform_mono_analysis(&m, vec![inst(0, vec![])], &no_dedup());
    assert_eq!(edges(&a), edges(&b));
}

#[test]
fn entry_depth_is_zero_and_branches_count() {
    // 0 -switch-> 1, 2 ; 1 -goto-> 3 ; 2 -switch-> 3, 4 ; 5 unreachable
    let body = Body {
        basic_blocks: vec![
            block(TerminatorKind::SwitchInt, vec![1, 2]),
            block(TerminatorKind::Goto, vec![3]),
            block(TerminatorKind::SwitchInt, vec![3, 4]),
            ret(),
            ret(),
            ret(),
        ],
    };
    let paths = compute_shortest_paths(&body);
    assert_eq!(paths.len(), 6);
    let p0 = paths[0].as_ref().unwrap();
    assert_eq!((p0.blocks.clone(), p0.length, p0.constraints), (vec![0], 0, 0));
    assert_eq!(paths[1].as_ref().unwrap().constraints, 1);
    assert_eq!(paths[2].as_ref().unwrap().constraints, 1);
    let p3 = paths[3].as_ref().unwrap();
    assert_eq!((p3.blocks.clone(), p3.length, p3.constraints), (vec![0, 1, 3], 2, 1));
    let p4 = paths[4].as_ref().unwrap();
    assert_eq!((p4.length, p4.constraints), (2, 2));
    assert_eq!(p4.constraint_details.len(), 2);
    assert_eq!(p4.constraint_details[1].block, 2);
    assert!(matches!(p4.constraint_details[1].kind, ConstraintKind::SwitchInt));
    assert!(paths[5].is_none());
}

#[test]
fn unwind_edge_adds_no_constraint() {
    let body = Body { basic_blocks: vec![block(TerminatorKind::Other, vec![1, 2]), ret(), ret()] };
    let paths = compute_shortest_paths(&body);
    assert_eq!(paths[1].as_ref().unwrap().constraints, 0);
    assert_eq!(paths[2].as_ref().unwrap().length, 1);
}

fn fn_ptr_def(i: u32, inputs: Vec<u64>, output: u64, has_body: bool) -> Definition {
    Definition { def: def(i), kind: DefKind::Fn, identity_args: vec![], inputs, output, has_body }
}

#[test]
fn fn_pointer_call_fans_out_to_every_match() {
    let defs = vec![
        fn_ptr_def(0, vec![], 0, true),
        fn_ptr_def(1, vec![7], 8, true),
        fn_ptr_def(2, vec![7], 8, true),
        fn_ptr_def(3, vec![7, 7], 8, true),
        fn_ptr_def(4, vec![7], 9, true),
        fn_ptr_def(5, vec![7], 8, false),
        fn_ptr_def(6, vec![7], 8, true),
        Definition { kind: DefKind::Other, ..fn_ptr_def(8, vec![7], 8, true) },
        Definition { kind: DefKind::AssocFn, ..fn_ptr_def(9, vec![7], 8, true) },
    ];
    let main_body = Body {
        basic_blocks: vec![
            block(
                TerminatorKind::Call(Operand::Move(Ty::FnPtr { inputs: vec![TyArg::Known(7)], output: TyArg::Known(8) })),
                vec![1],
            ),
            ret(),
        ],
    };
    let m = ProgramModel {
        roots: vec![inst(0, vec![])],
        bodies: vec![InstanceBody { instance: inst(0, vec![]), body: main_body }],
        definitions: defs,
        resolutions: vec![],
    };
    let c = candidates_for_fnptr_sig(&m, &vec![7], 8);
    assert_eq!(c, vec![inst(1, vec![]), inst(2, vec![]), inst(6, vec![]), inst(9, vec![])]);
    let sites = collect_callsites(&m, &inst(0, vec![]));
    assert_eq!(sites.len(), 4);
    assert!(sites.iter().all(|s| s.caller() == inst(0, vec![])));
}

#[test]
fn substitution_uses_caller_arguments() {
    let t = Ty::FnDef { def: def(3), args: vec![TyArg::Param(1), TyArg::Known(4)] };
    match monomorphize(&vec![10, 20], &t) {
        Ok(cg4rs::model::MonoTy::FnDef { def: d, args }) => {
            assert_eq!(d, def(3));
            assert_eq!(args, vec![20, 4]);
        },
        _ => panic!("substitution should succeed"),
    }
    assert!(monomorphize(&vec![10], &t).is_err());
}

#[test]
fn failed_substitution_of_named_callee_is_unresolved() {
    let m = model(vec![], vec![], vec![function(3)]);
    let op = Operand::Constant(Ty::FnDef { def: def(3), args: vec![TyArg::Param(2)] });
    assert_eq!(resolve_call(&m, &vec![1], &op), vec![FunctionInstance::new_non_instance(def(3))]);
    let ptr = Operand::Copy(Ty::FnPtr { inputs: vec![TyArg::Param(2)], output: TyArg::Known(0) });
    assert!(resolve_call(&m, &vec![1], &ptr).is_empty());
}

#[test]
fn resolution_outcomes() {
    let mut trait_method = function(5);
    trait_method.kind = DefKind::AssocFn;
    trait_method.identity_args = vec![99];
    let mut m = model(vec![], vec![], vec![trait_method, function(6), Definition { kind: DefKind::Other, ..function(7) }]);
    m.resolutions = vec![
        Resolution { def: def(5), args: vec![1], outcome: ResolveOutcome::Found(inst(6, vec![1])) },
        Resolution { def: def(5), args: vec![2], outcome: ResolveOutcome::NoUnique },
        Resolution { def: def(5), args: vec![3], outcome: ResolveOutcome::Error },
        Resolution { def: def(5), args: vec![99], outcome: ResolveOutcome::Found(inst(5, vec![99])) },
    ];
    let direct = |a: u64| Operand::Constant(Ty::FnDef { def: def(5), args: vec![TyArg::Known(a)] });
    assert_eq!(resolve_call(&m, &vec![], &direct(1)), vec![inst(6, vec![1])]);
    assert_eq!(resolve_call(&m, &vec![], &direct(2)), vec![inst(5, vec![99])]);
    assert!(resolve_call(&m, &vec![], &direct(3)).is_empty());
    assert_eq!(resolve_call(&m, &vec![], &direct(4)), vec![inst(5, vec![4])]);
    let other = Operand::Constant(Ty::FnDef { def: def(7), args: vec![] });
    assert!(resolve_call(&m, &vec![], &other).is_empty());
    m.resolutions[3].outcome = ResolveOutcome::Error;
    assert_eq!(resolve_call(&m, &vec![], &direct(2)), vec![FunctionInstance::new_non_instance(def(5))]);
}

#[test]
fn unresolved_and_bodiless_instances_have_no_callees() {
    let m = model(vec![], vec![], vec![function(0)]);
    assert!(collect_callsites(&m, &FunctionInstance::new_non_instance(def(0))).is_empty());
    assert!(collect_callsites(&m, &inst(0, vec![])).is_empty());
}

#[test]
fn package_num_compares_units() {
    let same = CallSite::new(inst(0, vec![]), inst(1, vec![]), 0);
    let other = CallSite::new(inst(0, vec![]), FunctionInstance::new_instance(DefId::new(3, 1), vec![]), 0);
    assert_eq!(same.package_num(), 1);
    assert_eq!(other.package_num(), 0);
    assert_eq!(same.crossing_num(), 0);
    assert_eq!(other.crossing_num(), 1);
}

#[test]
fn analysis_callback_builds_from_roots() {
    let f_body = Body { basic_blocks: vec![call(1, vec![], 1), ret()] };
    let m = model(
        vec![inst(0, vec![])],
        vec![(inst(0, vec![]), f_body), (inst(1, vec![]), leaf_body())],
        vec![function(0), function(1)],
    );
    assert!(m.is_wf());
    let callbacks = cg4rs::driver::CGCallbacks::new(CGArgs::default());
    let g = callbacks.after_analysis(&m);
    assert_eq!(edges(&g), vec![(inst(0, vec![]), inst(1, vec![]), 0)]);
    assert_eq!(g.visited, vec![inst(0, vec![]), inst(1, vec![])]);
    let bad = Body { basic_blocks: vec![block(TerminatorKind::Goto, vec![4])] };
    assert!(!bad.is_wf());
    assert!(!Body { basic_blocks: vec![] }.is_wf());
}

#[test]
fn unresolved_dispatch_target_makes_model_malformed() {
    let mut m = model(vec![], vec![], vec![function(0)]);
    assert!(m.is_wf());
    m.resolutions.push(Resolution {
        def: def(0),
        args: vec![],
        outcome: ResolveOutcome::Found(FunctionInstance::new_non_instance(def(1))),
    });
    assert!(!m.is_wf());
}

#[test]
fn equal_length_walks_take_the_first_discovered() {
    // 0 -switch-> 1, 2 ; 1 -goto-> 3 ; 2 -switch-> 3 : block 3 is reached through 1.
    let body = Body {
        basic_blocks: vec![
            block(TerminatorKind::SwitchInt, vec![1, 2]),
            block(TerminatorKind::Goto, vec![3]),
            block(TerminatorKind::SwitchInt, vec![3]),
            ret(),
        ],
    };
    let paths = compute_shortest_paths(&body);
    let p3 = paths[3].as_ref().unwrap();
    assert_eq!(p3.blocks, vec![0, 1, 3]);
    assert_eq!(p3.constraints, 1);
}
