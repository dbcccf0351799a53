use vstd::prelude::*;

use crate::body::{Operand, Ty};
use crate::instance::{views, DefId, FunctionInstance, InstanceView};
use crate::model::{
    mono_arguments, mono_argument, mono_of, mono_ok, subst_arg, subst_args, DefKind, Definition,
    MonoTy, OutcomeView, ProgramModel, ResolveOutcome,
};

verus! {

/// Why substitution failed: a generic parameter the caller does not supply.
#[derive(Clone, Copy, Debug, PartialEq, Eq, Structural)]
pub struct NormalizationError;

/// Applies the caller's concrete type arguments to a (possibly generic) type.
pub fn monomorphize(caller: &Vec<u64>, t: &Ty) -> (r: Result<MonoTy, NormalizationError>)
    ensures
        r is Ok <==> mono_ok(caller@, *t),
        r is Ok ==> mono_of(caller@, *t, r->Ok_0),
{
    match t {
        Ty::FnDef { def, args } => match mono_arguments(caller, args) {
            Some(a) => Ok(MonoTy::FnDef { def: *def, args: a }),
            None => Err(NormalizationError),
        },
        Ty::FnPtr { inputs, output } => match mono_arguments(caller, inputs) {
            Some(ins) => match mono_argument(caller, *output) {
                Some(o) => Ok(MonoTy::FnPtr { inputs: ins, output: o }),
                None => Err(NormalizationError),
            },
            None => Err(NormalizationError),
        },
        Ty::Other(a) => match mono_argument(caller, *a) {
            Some(o) => Ok(MonoTy::Other(o)),
            None => Err(NormalizationError),
        },
    }
}

/// The callee of a direct call of `d` with concrete `args`: the resolved instance;
/// when no unique implementation exists, the trivial resolution of `d`, else `d`
/// unresolved; nothing when resolution fails or `d` is not a function.
pub open spec fn direct_spec(m: ProgramModel, d: DefId, args: Seq<u64>) -> Option<InstanceView> {
    match m.def_index(d) {
        Some(i) => if m.definitions@[i].kind is Fn || m.definitions@[i].kind is AssocFn {
            match m.resolve_spec(d, args) {
                OutcomeView::Found(v) => Some(v),
                OutcomeView::NoUnique => match m.trivial_spec(d) {
                    Some(v) => Some(v),
                    None => Some(InstanceView::Unresolved(d)),
                },
                OutcomeView::Error => None,
            }
        } else {
            None
        },
        None => None,
    }
}

/// Resolves a direct call after substitution.
pub fn handle_monoed_direct_callee(m: &ProgramModel, d: DefId, args: &Vec<u64>) -> (r: Option<
    FunctionInstance,
>)
    ensures
        r is Some <==> direct_spec(*m, d, args@) is Some,
        r is Some ==> r.unwrap()@ == direct_spec(*m, d, args@).unwrap(),
{
    match m.find_definition(d) {
        Some(i) => {
            let kind = m.definitions[i].kind;
            match kind {
                DefKind::Fn | DefKind::AssocFn => match m.resolve(d, args) {
                    ResolveOutcome::Found(x) => Some(x),
                    ResolveOutcome::NoUnique => match m.trivial_resolve(d) {
                        Some(x) => Some(x),
                        None => Some(FunctionInstance::new_non_instance(d)),
                    },
                    ResolveOutcome::Error => None,
                },
                DefKind::Other => None,
            }
        },
        None => None,
    }
}

/// `d` is a function or method with a body, and its signature is the given one.
pub open spec fn sig_matches(d: Definition, inputs: Seq<u64>, output: u64) -> bool {
    (d.kind is Fn || d.kind is AssocFn) && d.has_body && d.inputs@ == inputs && d.output == output
}

/// The instance that stands for `d` as a function-pointer target.
pub open spec fn candidate_spec(m: ProgramModel, d: DefId) -> InstanceView {
    match m.trivial_spec(d) {
        Some(v) => v,
        None => InstanceView::Unresolved(d),
    }
}

/// One target for each definition of `defs` whose signature matches, in order.
pub open spec fn fnptr_candidates(
    m: ProgramModel,
    defs: Seq<Definition>,
    inputs: Seq<u64>,
    output: u64,
) -> Seq<InstanceView>
    decreases defs.len(),
{
    if defs.len() == 0 {
        Seq::empty()
    } else {
        let prev = fnptr_candidates(m, defs.drop_last(), inputs, output);
        if sig_matches(defs.last(), inputs, output) {
            prev.push(candidate_spec(m, defs.last().def))
        } else {
            prev
        }
    }
}

/// Number of definitions of `defs` whose signature matches.
pub open spec fn count_matching(defs: Seq<Definition>, inputs: Seq<u64>, output: u64) -> nat
    decreases defs.len(),
{
    if defs.len() == 0 {
        0
    } else {
        count_matching(defs.drop_last(), inputs, output) + if sig_matches(
            defs.last(),
            inputs,
            output,
        ) {
            1nat
        } else {
            0nat
        }
    }
}

/// A function-pointer call whose signature matches exactly N definitions has
/// exactly N possible targets.
pub proof fn lemma_fnptr_fan_out(m: ProgramModel, defs: Seq<Definition>, inputs: Seq<u64>, output: u64)
    ensures
        fnptr_candidates(m, defs, inputs, output).len() == count_matching(defs, inputs, output),
    decreases defs.len(),
{
    if defs.len() > 0 {
        lemma_fnptr_fan_out(m, defs.drop_last(), inputs, output);
    }
}

/// Every function or method with a body whose signature is `inputs -> output`, each as
/// its trivial resolution, else unresolved.
#[verifier::rlimit(40)]
pub fn candidates_for_fnptr_sig(m: &ProgramModel, inputs: &Vec<u64>, output: u64) -> (r: Vec<
    FunctionInstance,
>)
    ensures
        views(r@) == fnptr_candidates(*m, m.definitions@, inputs@, output),
        r@.len() == count_matching(m.definitions@, inputs@, output),
{
    let mut r: Vec<FunctionInstance> = Vec::new();
    let mut i: usize = 0;
    while i < m.definitions.len()
        invariant
            i <= m.definitions@.len(),
            views(r@) == fnptr_candidates(*m, m.definitions@.subrange(0, i as int), inputs@, output),
        decreases m.definitions@.len() - i,
    {
        let d = &m.definitions[i];
        let ghost defs = m.definitions@.subrange(0, i + 1);
        assert(defs.drop_last() =~= m.definitions@.subrange(0, i as int));
        if (d.kind == DefKind::Fn || d.kind == DefKind::AssocFn) && d.has_body && d.output == output
            && crate::instance::same_args(&d.inputs, inputs) {
            let c = match m.trivial_resolve(d.def) {
                Some(x) => x,
                None => FunctionInstance::new_non_instance(d.def),
            };
            r.push(c);
            assert(views(r@) =~= fnptr_candidates(*m, defs, inputs@, output));
        }
        i += 1;
    }
    assert(m.definitions@.subrange(0, i as int) =~= m.definitions@);
    proof {
        lemma_fnptr_fan_out(*m, m.definitions@, inputs@, output);
    }
    r
}

/// The possible callees of a call with operand `op` inside an instance whose
/// type arguments are `caller`.
#[verifier::opaque]
pub open spec fn call_targets(m: ProgramModel, caller: Seq<u64>, op: Operand) -> Seq<InstanceView> {
    match op {
        Operand::Constant(t) => if mono_ok(caller, t) {
            match t {
                Ty::FnDef { def, args } => match direct_spec(m, def, subst_args(caller, args@)) {
                    Some(v) => seq![v],
                    None => Seq::empty(),
                },
                _ => Seq::empty(),
            }
        } else {
            match t {
                Ty::FnDef { def, .. } => seq![InstanceView::Unresolved(def)],
                _ => Seq::empty(),
            }
        },
        Operand::Move(t) | Operand::Copy(t) => if mono_ok(caller, t) {
            match t {
                Ty::FnPtr { inputs, output } => fnptr_candidates(
                    m,
                    m.definitions@,
                    subst_args(caller, inputs@),
                    subst_arg(caller, output).unwrap(),
                ),
                _ => Seq::empty(),
            }
        } else {
            Seq::empty()
        },
    }
}

/// Resolves the callee operand of one call instruction to its possible callees.
pub fn resolve_call(m: &ProgramModel, caller: &Vec<u64>, op: &Operand) -> (r: Vec<FunctionInstance>)
    ensures
        views(r@) == call_targets(*m, caller@, *op),
{
    reveal(call_targets);
    let mut r: Vec<FunctionInstance> = Vec::new();
    match op {
        Operand::Constant(t) => match monomorphize(caller, t) {
            Ok(MonoTy::FnDef { def, args }) => {
                match handle_monoed_direct_callee(m, def, &args) {
                    Some(x) => {
                        r.push(x);
                    },
                    None => {},
                }
                assert(views(r@) =~= call_targets(*m, caller@, *op));
            },
            Ok(_) => {
                assert(views(r@) =~= call_targets(*m, caller@, *op));
            },
            Err(_) => {
                match t {
                    Ty::FnDef { def, .. } => {
                        r.push(FunctionInstance::new_non_instance(*def));
                    },
                    _ => {},
                }
                assert(views(r@) =~= call_targets(*m, caller@, *op));
            },
        },
        Operand::Move(t) | Operand::Copy(t) => match monomorphize(caller, t) {
            Ok(MonoTy::FnPtr { inputs, output }) => {
                r = candidates_for_fnptr_sig(m, &inputs, output);
            },
            Ok(_) => {
                assert(views(r@) =~= call_targets(*m, caller@, *op));
            },
            Err(_) => {
                assert(views(r@) =~= call_targets(*m, caller@, *op));
            },
        },
    }
    r
}

} // verus!
