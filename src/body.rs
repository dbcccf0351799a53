use vstd::prelude::*;

use crate::instance::DefId;

verus! {

/// A type argument before substitution: one of the caller's own generic
/// parameters, or an already concrete (interned) type.
#[derive(Clone, Copy, Debug, PartialEq, Eq, Hash, Structural)]
pub enum TyArg {
    Param(u32),
    Known(u64),
}

/// The type of a callee operand before substitution.
#[derive(Debug)]
pub enum Ty {
    /// A statically named function or method, with its (possibly generic) arguments.
    FnDef { def: DefId, args: Vec<TyArg> },
    /// A function pointer with the given signature, regions erased.
    FnPtr { inputs: Vec<TyArg>, output: TyArg },
    /// Any other type.
    Other(TyArg),
}

/// The callee operand of a call instruction.
#[derive(Debug)]
pub enum Operand {
    /// A constant: a statically named callee.
    Constant(Ty),
    /// A value moved out of a place.
    Move(Ty),
    /// A value copied out of a place.
    Copy(Ty),
}

/// What ends a basic block.
#[derive(Debug)]
pub enum TerminatorKind {
    Goto,
    /// A conditional branch on an integer value (`if`, `match`).
    SwitchInt,
    /// A call of the given callee.
    Call(Operand),
    Return,
    /// Any other terminator, e.g. a drop or an assertion with an unwind edge.
    Other,
}

#[derive(Debug)]
pub struct Terminator {
    pub kind: TerminatorKind,
    pub successors: Vec<usize>,
    /// Source location of the terminator.
    pub source_info: u32,
}

#[derive(Debug)]
pub struct BasicBlockData {
    pub terminator: Option<Terminator>,
}

/// The control-flow graph of a function body; block 0 is the entry.
#[derive(Debug)]
pub struct Body {
    pub basic_blocks: Vec<BasicBlockData>,
}

impl Body {
    pub open spec fn num_blocks(self) -> nat {
        self.basic_blocks@.len()
    }

    /// Successors of block `b`.
    pub open spec fn succs(self, b: int) -> Seq<usize> {
        match self.basic_blocks@[b].terminator {
            Some(t) => t.successors@,
            None => Seq::empty(),
        }
    }

    /// Whether block `b` ends in a conditional branch.
    pub open spec fn is_conditional(self, b: int) -> bool {
        match self.basic_blocks@[b].terminator {
            Some(t) => t.kind is SwitchInt,
            None => false,
        }
    }

    /// The entry block exists and every successor names a block of the body.
    pub open spec fn wf(self) -> bool {
        &&& self.num_blocks() >= 1
        &&& forall|b: int, k: int|
            0 <= b < self.num_blocks() && 0 <= k < self.succs(b).len() ==> self.succs(b)[k]
                < self.num_blocks()
    }

    /// Whether `c` is a successor of `b`.
    pub open spec fn edge(self, b: int, c: int) -> bool {
        exists|k: int| 0 <= k < self.succs(b).len() && self.succs(b)[k] == c
    }

    /// `p` is a walk along control-flow edges that starts at the entry block.
    pub open spec fn is_entry_path(self, p: Seq<usize>) -> bool {
        &&& p.len() >= 1
        &&& p[0] == 0
        &&& forall|i: int| 0 <= i < p.len() - 1 ==> #[trigger] self.edge(p[i] as int, p[i + 1] as int)
    }

    /// Number of conditional-branch blocks in `p`.
    pub open spec fn cond_count(self, p: Seq<usize>) -> nat
        decreases p.len(),
    {
        if p.len() == 0 {
            0
        } else {
            self.cond_count(p.drop_last()) + if self.is_conditional(p.last() as int) {
                1nat
            } else {
                0nat
            }
        }
    }

    /// Number of conditional branches traversed along the walk `p`: every block
    /// but the last is left through its terminator.
    pub open spec fn path_constraints(self, p: Seq<usize>) -> nat {
        if p.len() == 0 {
            0
        } else {
            self.cond_count(p.drop_last())
        }
    }

    /// `b` can be reached from the entry block.
    pub open spec fn reachable(self, b: int) -> bool {
        exists|p: Seq<usize>| self.is_entry_path(p) && p.last() == b
    }
}

impl Body {
    /// Whether the entry block exists and every successor names a block.
    pub fn is_wf(&self) -> (r: bool)
        ensures
            r == self.wf(),
    {
        let n = self.basic_blocks.len();
        if n == 0 {
            return false;
        }
        let mut b: usize = 0;
        while b < n
            invariant
                n == self.num_blocks(),
                b <= n,
                forall|x: int, k: int| 0 <= x < b && 0 <= k < self.succs(x).len() ==> self.succs(x)[k] < n,
            decreases n - b,
        {
            match &self.basic_blocks[b].terminator {
                Some(t) => {
                    let mut k: usize = 0;
                    while k < t.successors.len()
                        invariant
                            n == self.num_blocks(),
                            b < n,
                            t.successors@ == self.succs(b as int),
                            k <= t.successors@.len(),
                            forall|j: int| 0 <= j < k ==> t.successors@[j] < n,
                        decreases t.successors@.len() - k,
                    {
                        if t.successors[k] >= n {
                            assert(self.succs(b as int)[k as int] >= n);
                            return false;
                        }
                        k += 1;
                    }
                },
                None => {},
            }
            b += 1;
        }
        true
    }
}

} // verus!
