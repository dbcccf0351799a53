use vstd::prelude::*;

use crate::body::{Body, TyArg};
use crate::instance::{copy_args, same_args, DefId, FunctionInstance, InstanceView};

verus! {

/// What kind of item a definition is.
#[derive(Clone, Copy, Debug, PartialEq, Eq, Hash, Structural)]
pub enum DefKind {
    Fn,
    AssocFn,
    Other,
}

/// A definition known to the program model.
#[derive(Debug)]
pub struct Definition {
    pub def: DefId,
    pub kind: DefKind,
    /// The definition's own generic arguments, as its declared type names them.
    pub identity_args: Vec<u64>,
    /// Parameter types of its signature, regions erased.
    pub inputs: Vec<u64>,
    /// Return type of its signature, regions erased.
    pub output: u64,
    /// Whether it owns a body (and so may be the target of a function pointer).
    pub has_body: bool,
}

/// What resolving a call to a definition with concrete arguments gives.
#[derive(Debug)]
pub enum ResolveOutcome {
    /// The concrete implementing instance.
    Found(FunctionInstance),
    /// No unique implementation (still abstract).
    NoUnique,
    /// The resolution is inconsistent.
    Error,
}

/// Mathematical value of a `ResolveOutcome`.
pub enum OutcomeView {
    Found(InstanceView),
    NoUnique,
    Error,
}

impl ResolveOutcome {
    pub open spec fn view(self) -> OutcomeView {
        match self {
            ResolveOutcome::Found(i) => OutcomeView::Found(i@),
            ResolveOutcome::NoUnique => OutcomeView::NoUnique,
            ResolveOutcome::Error => OutcomeView::Error,
        }
    }
}

/// One entry of the dispatch table: calling `def` with `args` resolves to `outcome`.
#[derive(Debug)]
pub struct Resolution {
    pub def: DefId,
    pub args: Vec<u64>,
    pub outcome: ResolveOutcome,
}

/// The body of one function instance.
#[derive(Debug)]
pub struct InstanceBody {
    pub instance: FunctionInstance,
    pub body: Body,
}

/// The program under analysis, as plain data: its entry instances, the body of
/// each instance that has one, its definitions, and its dispatch table. A call
/// whose (definition, arguments) pair has no entry in the dispatch table
/// resolves to the concrete instance of that definition with those arguments.
#[derive(Debug)]
pub struct ProgramModel {
    pub roots: Vec<FunctionInstance>,
    pub bodies: Vec<InstanceBody>,
    pub definitions: Vec<Definition>,
    pub resolutions: Vec<Resolution>,
}

impl ProgramModel {
    /// Every body is a well-formed control-flow graph, and every instance the
    /// dispatch table resolves to is concrete.
    pub open spec fn wf(self) -> bool {
        &&& forall|i: int| 0 <= i < self.bodies@.len() ==> (#[trigger] self.bodies@[i]).body.wf()
        &&& self.dispatch_concrete()
    }

    /// Every instance the dispatch table resolves to is concrete.
    #[verifier::opaque]
    pub open spec fn dispatch_concrete(self) -> bool {
        forall|i: int|
            0 <= i < self.resolutions@.len() && (#[trigger] self.resolutions@[i]).outcome is Found
                ==> self.resolutions@[i].outcome->Found_0@ is Concrete
    }

    /// Index of the first body of instance `x`.
    pub open spec fn body_index(self, x: InstanceView) -> Option<int> {
        if exists|i: int| 0 <= i < self.bodies@.len() && self.bodies@[i].instance@ == x {
            Some(
                choose|i: int|
                    0 <= i < self.bodies@.len() && self.bodies@[i].instance@ == x && forall|j: int|
                        0 <= j < i ==> self.bodies@[j].instance@ != x,
            )
        } else {
            None
        }
    }

    /// Index of the first definition entry of `d`.
    pub open spec fn def_index(self, d: DefId) -> Option<int> {
        if exists|i: int| 0 <= i < self.definitions@.len() && self.definitions@[i].def == d {
            Some(
                choose|i: int|
                    0 <= i < self.definitions@.len() && self.definitions@[i].def == d && forall|
                        j: int,
                    | 0 <= j < i ==> self.definitions@[j].def != d,
            )
        } else {
            None
        }
    }

    /// Index of the first dispatch entry for `d` called with `args`.
    pub open spec fn resolution_index(self, d: DefId, args: Seq<u64>) -> Option<int> {
        if exists|i: int|
            0 <= i < self.resolutions@.len() && self.resolutions@[i].def == d
                && self.resolutions@[i].args@ == args {
            Some(
                choose|i: int|
                    0 <= i < self.resolutions@.len() && self.resolutions@[i].def == d
                        && self.resolutions@[i].args@ == args && forall|j: int|
                        0 <= j < i ==> !(self.resolutions@[j].def == d
                            && self.resolutions@[j].args@ == args),
            )
        } else {
            None
        }
    }

    /// What resolving `d` with concrete `args` gives.
    pub open spec fn resolve_spec(self, d: DefId, args: Seq<u64>) -> OutcomeView {
        match self.resolution_index(d, args) {
            Some(i) => self.resolutions@[i].outcome.view(),
            None => OutcomeView::Found(InstanceView::Concrete(d, args)),
        }
    }

    /// Resolution of `d` under its own declared arguments, when that finds an instance.
    pub open spec fn trivial_spec(self, d: DefId) -> Option<InstanceView> {
        match self.def_index(d) {
            Some(i) => match self.resolve_spec(d, self.definitions@[i].identity_args@) {
                OutcomeView::Found(v) => Some(v),
                _ => None,
            },
            None => None,
        }
    }

    /// Whether every body is a well-formed control-flow graph.
    pub fn is_wf(&self) -> (r: bool)
        ensures
            r == self.wf(),
    {
        let mut i: usize = 0;
        while i < self.bodies.len()
            invariant
                i <= self.bodies@.len(),
                forall|j: int| 0 <= j < i ==> (#[trigger] self.bodies@[j]).body.wf(),
            decreases self.bodies@.len() - i,
        {
            if !self.bodies[i].body.is_wf() {
                return false;
            }
            i += 1;
        }
        let mut k: usize = 0;
        while k < self.resolutions.len()
            invariant
                k <= self.resolutions@.len(),
                forall|j: int| 0 <= j < self.bodies@.len() ==> (#[trigger] self.bodies@[j]).body.wf(),
                forall|j: int|
                    0 <= j < k && (#[trigger] self.resolutions@[j]).outcome is Found
                        ==> self.resolutions@[j].outcome->Found_0@ is Concrete,
            decreases self.resolutions@.len() - k,
        {
            match &self.resolutions[k].outcome {
                ResolveOutcome::Found(x) => {
                    if !x.is_instance() {
                        proof {
                            reveal(ProgramModel::dispatch_concrete);
                            assert(!(self.resolutions@[k as int].outcome->Found_0@ is Concrete));
                        }
                        return false;
                    }
                },
                _ => {},
            }
            k += 1;
        }
        proof {
            reveal(ProgramModel::dispatch_concrete);
        }
        true
    }

    /// A successful resolution of a well-formed model is a concrete instance.
    proof fn lemma_resolve_concrete(self, d: DefId, args: Seq<u64>)
        requires
            self.dispatch_concrete(),
        ensures
            self.resolve_spec(d, args) is Found ==> self.resolve_spec(d, args)->Found_0 is Concrete,
    {
        if exists|k: int|
            0 <= k < self.resolutions@.len() && self.resolutions@[k].def == d
                && self.resolutions@[k].args@ == args {
            let k = choose|k: int|
                0 <= k < self.resolutions@.len() && self.resolutions@[k].def == d
                    && self.resolutions@[k].args@ == args;
            self.lemma_first_resolution(d, args, k);
        }
        reveal(ProgramModel::dispatch_concrete);
        if let Some(i) = self.resolution_index(d, args) {
            assert(0 <= i < self.resolutions@.len());
            let o = self.resolutions@[i].outcome;
            if o is Found {
                assert(o->Found_0@ is Concrete);
            }
        }
    }

    proof fn lemma_first_resolution(self, d: DefId, args: Seq<u64>, k: int)
        requires
            0 <= k < self.resolutions@.len(),
            self.resolutions@[k].def == d && self.resolutions@[k].args@ == args,
        ensures
            exists|i: int|
                0 <= i < self.resolutions@.len() && self.resolutions@[i].def == d
                    && self.resolutions@[i].args@ == args && forall|j: int|
                    0 <= j < i ==> !(self.resolutions@[j].def == d && self.resolutions@[j].args@ == args),
        decreases k,
    {
        if exists|j: int| 0 <= j < k && self.resolutions@[j].def == d && self.resolutions@[j].args@ == args {
            let j = choose|j: int| 0 <= j < k && self.resolutions@[j].def == d && self.resolutions@[j].args@ == args;
            self.lemma_first_resolution(d, args, j);
        }
    }

    /// In a well-formed model, trivial resolution never yields an unresolved
    /// instance: what `trivial_resolve` returns is concrete.
    pub proof fn lemma_trivial_concrete(self, d: DefId)
        requires
            self.wf(),
        ensures
            self.trivial_spec(d) is Some ==> self.trivial_spec(d).unwrap() is Concrete,
    {
        match self.def_index(d) {
            Some(i) => self.lemma_resolve_concrete(d, self.definitions@[i].identity_args@),
            None => {},
        }
    }

    /// Index of the first body of `x`.
    pub fn body_of(&self, x: &FunctionInstance) -> (r: Option<usize>)
        ensures
            r is Some <==> self.body_index(x@) is Some,
            r is Some ==> r.unwrap() as int == self.body_index(x@).unwrap(),
            r is Some ==> r.unwrap() < self.bodies@.len() && self.bodies@[r.unwrap() as int].instance@
                == x@,
    {
        let mut i: usize = 0;
        while i < self.bodies.len()
            invariant
                i <= self.bodies@.len(),
                forall|j: int| 0 <= j < i ==> self.bodies@[j].instance@ != x@,
            decreases self.bodies@.len() - i,
        {
            if self.bodies[i].instance.same(x) {
                proof {
                    let c = choose|k: int|
                        0 <= k < self.bodies@.len() && self.bodies@[k].instance@ == x@ && forall|
                            j: int,
                        | 0 <= j < k ==> self.bodies@[j].instance@ != x@;
                    if c < i {
                    } else if c > i {
                        assert(self.bodies@[i as int].instance@ == x@);
                    }
                }
                return Some(i);
            }
            i += 1;
        }
        None
    }

    /// Index of the first definition entry of `d`.
    pub fn find_definition(&self, d: DefId) -> (r: Option<usize>)
        ensures
            r is Some <==> self.def_index(d) is Some,
            r is Some ==> r.unwrap() as int == self.def_index(d).unwrap(),
            r is Some ==> r.unwrap() < self.definitions@.len(),
    {
        let mut i: usize = 0;
        while i < self.definitions.len()
            invariant
                i <= self.definitions@.len(),
                forall|j: int| 0 <= j < i ==> self.definitions@[j].def != d,
            decreases self.definitions@.len() - i,
        {
            if self.definitions[i].def == d {
                proof {
                    let c = choose|k: int|
                        0 <= k < self.definitions@.len() && self.definitions@[k].def == d
                            && forall|j: int| 0 <= j < k ==> self.definitions@[j].def != d;
                    if c > i {
                        assert(self.definitions@[i as int].def == d);
                    }
                }
                return Some(i);
            }
            i += 1;
        }
        None
    }

    /// Resolves a call of `d` with concrete `args` through the dispatch table.
    pub fn resolve(&self, d: DefId, args: &Vec<u64>) -> (r: ResolveOutcome)
        ensures
            r.view() == self.resolve_spec(d, args@),
    {
        let mut i: usize = 0;
        while i < self.resolutions.len()
            invariant
                i <= self.resolutions@.len(),
                forall|j: int|
                    0 <= j < i ==> !(self.resolutions@[j].def == d && self.resolutions@[j].args@
                        == args@),
            decreases self.resolutions@.len() - i,
        {
            if self.resolutions[i].def == d && same_args(&self.resolutions[i].args, args) {
                proof {
                    let c = choose|k: int|
                        0 <= k < self.resolutions@.len() && self.resolutions@[k].def == d
                            && self.resolutions@[k].args@ == args@ && forall|j: int|
                            0 <= j < k ==> !(self.resolutions@[j].def == d
                                && self.resolutions@[j].args@ == args@);
                    if c > i {
                        assert(self.resolutions@[i as int].def == d);
                    }
                    assert(c == i);
                }
                return match &self.resolutions[i].outcome {
                    ResolveOutcome::Found(x) => ResolveOutcome::Found(x.copy()),
                    ResolveOutcome::NoUnique => ResolveOutcome::NoUnique,
                    ResolveOutcome::Error => ResolveOutcome::Error,
                };
            }
            i += 1;
        }
        ResolveOutcome::Found(FunctionInstance::new_instance(d, copy_args(args)))
    }

    /// Resolves `d` under its own declared arguments, without a caller's substitution.
    pub fn trivial_resolve(&self, d: DefId) -> (r: Option<FunctionInstance>)
        ensures
            r is Some <==> self.trivial_spec(d) is Some,
            r is Some ==> r.unwrap()@ == self.trivial_spec(d).unwrap(),
    {

        match self.find_definition(d) {
            Some(i) => match self.resolve(d, &self.definitions[i].identity_args) {
                ResolveOutcome::Found(x) => Some(x),
                _ => None,
            },
            None => None,
        }
    }
}

/// The concrete type that substitution of the caller's arguments gives.
#[derive(Debug)]
pub enum MonoTy {
    FnDef { def: DefId, args: Vec<u64> },
    FnPtr { inputs: Vec<u64>, output: u64 },
    Other(u64),
}

/// `a` under the caller's arguments; `None` when it names a parameter the caller lacks.
pub open spec fn subst_arg(caller: Seq<u64>, a: TyArg) -> Option<u64> {
    match a {
        TyArg::Param(i) => if (i as int) < caller.len() {
            Some(caller[i as int])
        } else {
            None
        },
        TyArg::Known(t) => Some(t),
    }
}

/// Every element of `s` has a value under the caller's arguments.
pub open spec fn substitutable(caller: Seq<u64>, s: Seq<TyArg>) -> bool {
    forall|k: int| 0 <= k < s.len() ==> (#[trigger] subst_arg(caller, s[k])) is Some
}

/// `s` under the caller's arguments, element by element.
pub open spec fn subst_args(caller: Seq<u64>, s: Seq<TyArg>) -> Seq<u64> {
    Seq::new(s.len(), |k: int| subst_arg(caller, s[k]).unwrap())
}

/// Substitutes one type argument.
pub fn mono_argument(caller: &Vec<u64>, a: TyArg) -> (r: Option<u64>)
    ensures
        r == subst_arg(caller@, a),
{
    match a {
        TyArg::Param(i) => {
            let k = i as usize;
            if k < caller.len() {
                Some(caller[k])
            } else {
                None
            }
        },
        TyArg::Known(t) => Some(t),
    }
}

/// Substitutes a list of type arguments; `None` when one of them cannot be.
pub fn mono_arguments(caller: &Vec<u64>, s: &Vec<TyArg>) -> (r: Option<Vec<u64>>)
    ensures
        r is Some <==> substitutable(caller@, s@),
        r is Some ==> r.unwrap()@ == subst_args(caller@, s@),
{
    let mut out: Vec<u64> = Vec::new();
    let mut i: usize = 0;
    while i < s.len()
        invariant
            i <= s@.len(),
            out@.len() == i,
            forall|k: int| 0 <= k < i ==> subst_arg(caller@, s@[k]) == Some(out@[k]),
        decreases s@.len() - i,
    {
        match mono_argument(caller, s[i]) {
            Some(t) => out.push(t),
            None => {
                assert(subst_arg(caller@, s@[i as int]) is None);
                return None;
            },
        }
        i += 1;
    }
    assert(out@ =~= subst_args(caller@, s@));
    Some(out)
}

/// Whether `ty` is the substitution of `t` under the caller's arguments.
pub open spec fn mono_of(caller: Seq<u64>, t: crate::body::Ty, ty: MonoTy) -> bool {
    match t {
        crate::body::Ty::FnDef { def, args } => substitutable(caller, args@) && ty is FnDef
            && ty->FnDef_def == def && ty->FnDef_args@ == subst_args(caller, args@),
        crate::body::Ty::FnPtr { inputs, output } => substitutable(caller, inputs@) && subst_arg(
            caller,
            output,
        ) is Some && ty is FnPtr && ty->FnPtr_inputs@ == subst_args(caller, inputs@)
            && ty->FnPtr_output == subst_arg(caller, output).unwrap(),
        crate::body::Ty::Other(a) => subst_arg(caller, a) is Some && ty is Other && ty->Other_0
            == subst_arg(caller, a).unwrap(),
    }
}

/// Whether `t` can be substituted under the caller's arguments.
pub open spec fn mono_ok(caller: Seq<u64>, t: crate::body::Ty) -> bool {
    match t {
        crate::body::Ty::FnDef { args, .. } => substitutable(caller, args@),
        crate::body::Ty::FnPtr { inputs, output } => substitutable(caller, inputs@) && subst_arg(
            caller,
            output,
        ) is Some,
        crate::body::Ty::Other(a) => subst_arg(caller, a) is Some,
    }
}

} // verus!
