use vstd::prelude::*;

verus! {

/// Identifier of a definition: the compilation unit it belongs to and its index there.
#[derive(Clone, Copy, Debug, PartialEq, Eq, Hash, Structural)]
pub struct DefId {
    pub krate: u32,
    pub index: u32,
}

impl DefId {
    pub fn new(krate: u32, index: u32) -> (r: DefId)
        ensures
            r.krate == krate,
            r.index == index,
    {
        DefId { krate, index }
    }
}

/// Mathematical value of a `FunctionInstance`.
pub enum InstanceView {
    Concrete(DefId, Seq<u64>),
    Unresolved(DefId),
}

impl InstanceView {
    pub open spec fn def(self) -> DefId {
        match self {
            InstanceView::Concrete(d, _) => d,
            InstanceView::Unresolved(d) => d,
        }
    }
}

/// The identity of a callable: a fully concrete (monomorphized) instance, or a
/// definition alone when no concrete instance could be formed.
/// Type arguments are interned type identifiers handed out by the program model.
#[derive(Debug)]
pub enum FunctionInstance {
    Concrete { def: DefId, args: Vec<u64> },
    Unresolved { def: DefId },
}

impl View for FunctionInstance {
    type V = InstanceView;

    open spec fn view(&self) -> InstanceView {
        match self {
            FunctionInstance::Concrete { def, args } => InstanceView::Concrete(*def, args@),
            FunctionInstance::Unresolved { def } => InstanceView::Unresolved(*def),
        }
    }
}

/// Copies a list of type arguments element by element.
pub fn copy_args(a: &Vec<u64>) -> (r: Vec<u64>)
    ensures
        r@ == a@,
{
    let mut r: Vec<u64> = Vec::new();
    let mut i: usize = 0;
    while i < a.len()
        invariant
            i <= a.len(),
            r@ == a@.subrange(0, i as int),
        decreases a.len() - i,
    {
        r.push(a[i]);
        i += 1;
        assert(r@ =~= a@.subrange(0, i as int));
    }
    assert(r@ =~= a@);
    r
}

/// Whether two lists of type arguments are equal.
pub fn same_args(a: &Vec<u64>, b: &Vec<u64>) -> (r: bool)
    ensures
        r == (a@ == b@),
{
    if a.len() != b.len() {
        return false;
    }
    let mut i: usize = 0;
    while i < a.len()
        invariant
            i <= a.len(),
            a.len() == b.len(),
            a@.subrange(0, i as int) == b@.subrange(0, i as int),
        decreases a.len() - i,
    {
        if a[i] != b[i] {
            assert(a@[i as int] != b@[i as int]);
            return false;
        }
        assert(a@.subrange(0, i + 1) =~= a@.subrange(0, i as int).push(a@[i as int]));
        assert(b@.subrange(0, i + 1) =~= b@.subrange(0, i as int).push(b@[i as int]));
        i += 1;
    }
    assert(a@ =~= a@.subrange(0, i as int));
    assert(b@ =~= b@.subrange(0, i as int));
    true
}

impl FunctionInstance {
    pub fn new_instance(def: DefId, args: Vec<u64>) -> (r: FunctionInstance)
        ensures
            r@ == InstanceView::Concrete(def, args@),
    {
        FunctionInstance::Concrete { def, args }
    }

    pub fn new_non_instance(def: DefId) -> (r: FunctionInstance)
        ensures
            r@ == InstanceView::Unresolved(def),
    {
        FunctionInstance::Unresolved { def }
    }

    /// The definition this instance belongs to.
    pub fn def_id(&self) -> (r: DefId)
        ensures
            r == self@.def(),
    {
        match self {
            FunctionInstance::Concrete { def, .. } => *def,
            FunctionInstance::Unresolved { def } => *def,
        }
    }

    pub fn is_instance(&self) -> (r: bool)
        ensures
            r == self@ is Concrete,
    {
        match self {
            FunctionInstance::Concrete { .. } => true,
            FunctionInstance::Unresolved { .. } => false,
        }
    }

    pub fn is_non_instance(&self) -> (r: bool)
        ensures
            r == self@ is Unresolved,
    {
        !self.is_instance()
    }

    /// The type arguments of a concrete instance.
    pub fn instance_args(&self) -> (r: Option<&Vec<u64>>)
        ensures
            self@ is Concrete <==> r is Some,
            r is Some ==> self@ == InstanceView::Concrete(self@.def(), r.unwrap()@),
    {
        match self {
            FunctionInstance::Concrete { args, .. } => Some(args),
            FunctionInstance::Unresolved { .. } => None,
        }
    }

    /// An equal instance held separately.
    pub fn copy(&self) -> (r: FunctionInstance)
        ensures
            r@ == self@,
    {
        match self {
            FunctionInstance::Concrete { def, args } => FunctionInstance::Concrete {
                def: *def,
                args: copy_args(args),
            },
            FunctionInstance::Unresolved { def } => FunctionInstance::Unresolved { def: *def },
        }
    }

    /// Structural equality: same variant, same definition, same type arguments.
    pub fn same(&self, other: &FunctionInstance) -> (r: bool)
        ensures
            r == (self@ == other@),
    {
        match (self, other) {
            (
                FunctionInstance::Concrete { def: d1, args: a1 },
                FunctionInstance::Concrete { def: d2, args: a2 },
            ) => *d1 == *d2 && same_args(a1, a2),
            (FunctionInstance::Unresolved { def: d1 }, FunctionInstance::Unresolved { def: d2 }) => {
                *d1 == *d2
            },
            _ => false,
        }
    }
}

impl Clone for FunctionInstance {
    fn clone(&self) -> (r: FunctionInstance)
        ensures
            r@ == self@,
    {
        self.copy()
    }
}

impl PartialEq for FunctionInstance {
    fn eq(&self, other: &FunctionInstance) -> (r: bool) {
        self.same(other)
    }
}

impl vstd::std_specs::cmp::PartialEqSpecImpl for FunctionInstance {
    open spec fn obeys_eq_spec() -> bool {
        true
    }

    open spec fn eq_spec(&self, other: &FunctionInstance) -> bool {
        self@ == other@
    }
}

impl Eq for FunctionInstance {}

/// The values of a sequence of instances.
pub open spec fn views(s: Seq<FunctionInstance>) -> Seq<InstanceView> {
    s.map_values(|x: FunctionInstance| x@)
}

/// Index of the first element of `s` equal to `x`, if any.
pub fn position_of(s: &Vec<FunctionInstance>, x: &FunctionInstance) -> (r: Option<usize>)
    ensures
        r is None ==> forall|i: int| 0 <= i < s@.len() ==> s@[i]@ != x@,
        r is Some ==> r.unwrap() < s@.len() && s@[r.unwrap() as int]@ == x@ && forall|i: int|
            0 <= i < r.unwrap() ==> s@[i]@ != x@,
{
    let mut i: usize = 0;
    while i < s.len()
        invariant
            i <= s.len(),
            forall|j: int| 0 <= j < i ==> s@[j]@ != x@,
        decreases s.len() - i,
    {
        if s[i].same(x) {
            return Some(i);
        }
        i += 1;
    }
    None
}

} // verus!
