use vstd::prelude::*;

use crate::body::{Body, TerminatorKind};

verus! {

/// Kinds of conditional constraints.
#[derive(Debug)]
pub enum ConstraintKind {
    /// A switch on an integer value (`if`, `match`).
    SwitchInt,
    /// Any other kind of constraint.
    Other(String),
}

/// A conditional branch met along a path.
#[derive(Debug)]
pub struct ConstraintInfo {
    /// The block whose terminator branches.
    pub block: usize,
    pub kind: ConstraintKind,
    /// Source location of the branch, if known.
    pub source_info: Option<u32>,
}

impl ConstraintInfo {
    pub fn copy(&self) -> (r: ConstraintInfo)
        ensures
            r == *self,
    {
        let kind = match &self.kind {
            ConstraintKind::SwitchInt => ConstraintKind::SwitchInt,
            ConstraintKind::Other(s) => ConstraintKind::Other(s.clone()),
        };
        ConstraintInfo { block: self.block, kind, source_info: self.source_info }
    }
}

/// A walk from the entry block, with the conditional branches it traverses.
#[derive(Debug)]
pub struct BlockPath {
    /// The blocks of the walk, entry first.
    pub blocks: Vec<usize>,
    /// Number of edges of the walk.
    pub length: usize,
    /// Number of conditional branches traversed.
    pub constraints: usize,
    /// One record for each conditional branch traversed, in order.
    pub constraint_details: Vec<ConstraintInfo>,
}

impl BlockPath {
    /// This path is a walk of `body` from the entry to block `b`, and its
    /// counters describe that walk.
    pub open spec fn valid_for(self, body: Body, b: int) -> bool {
        &&& body.is_entry_path(self.blocks@)
        &&& self.blocks@.last() == b
        &&& self.length == self.blocks@.len() - 1
        &&& self.constraints == body.path_constraints(self.blocks@)
        &&& self.constraint_details@.len() == self.constraints
    }

    /// A path made of a single block.
    fn new(block: usize) -> (r: BlockPath)
        ensures
            r.blocks@ == seq![block],
            r.length == 0,
            r.constraints == 0,
            r.constraint_details@ == Seq::<ConstraintInfo>::empty(),
    {
        let mut blocks: Vec<usize> = Vec::new();
        blocks.push(block);
        BlockPath { blocks, length: 0, constraints: 0, constraint_details: Vec::new() }
    }

    /// This path followed by one more block; `kind` records the branch taken, if
    /// the step leaves a conditional block.
    fn extend(&self, block: usize, kind: Option<ConstraintInfo>) -> (r: BlockPath)
        requires
            self.length < usize::MAX,
            self.constraints < usize::MAX,
        ensures
            r.blocks@ == self.blocks@.push(block),
            r.length == self.length + 1,
            r.constraints == self.constraints + if kind is Some {
                1int
            } else {
                0int
            },
            r.constraint_details@ == match kind {
                Some(info) => self.constraint_details@.push(info),
                None => self.constraint_details@,
            },
    {
        let mut blocks: Vec<usize> = Vec::new();
        let mut i: usize = 0;
        while i < self.blocks.len()
            invariant
                i <= self.blocks@.len(),
                blocks@ == self.blocks@.subrange(0, i as int),
            decreases self.blocks@.len() - i,
        {
            blocks.push(self.blocks[i]);
            i += 1;
            assert(blocks@ =~= self.blocks@.subrange(0, i as int));
        }
        assert(blocks@ =~= self.blocks@);
        blocks.push(block);
        let mut details: Vec<ConstraintInfo> = Vec::new();
        let mut k: usize = 0;
        while k < self.constraint_details.len()
            invariant
                k <= self.constraint_details@.len(),
                details@ == self.constraint_details@.subrange(0, k as int),
            decreases self.constraint_details@.len() - k,
        {
            details.push(self.constraint_details[k].copy());
            k += 1;
            assert(details@ =~= self.constraint_details@.subrange(0, k as int));
        }
        assert(details@ =~= self.constraint_details@);
        let mut constraints = self.constraints;
        match kind {
            Some(info) => {
                constraints = constraints + 1;
                details.push(info);
            },
            None => {},
        }
        BlockPath { blocks, length: self.length + 1, constraints, constraint_details: details }
    }
}

/// Number of absent entries of `s`.
pub open spec fn count_none<T>(s: Seq<Option<T>>) -> nat
    decreases s.len(),
{
    if s.len() == 0 {
        0
    } else {
        count_none(s.drop_last()) + if s.last() is None {
            1nat
        } else {
            0nat
        }
    }
}

pub proof fn lemma_count_none_le<T>(s: Seq<Option<T>>)
    ensures
        count_none(s) <= s.len(),
    decreases s.len(),
{
    if s.len() > 0 {
        lemma_count_none_le(s.drop_last());
    }
}

pub proof fn lemma_count_none_fill<T>(s: Seq<Option<T>>, i: int, v: Option<T>)
    requires
        0 <= i < s.len(),
        s[i] is None,
        v is Some,
    ensures
        count_none(s.update(i, v)) + 1 == count_none(s),
    decreases s.len(),
{
    let u = s.update(i, v);
    if i == s.len() - 1 {
        assert(u.drop_last() =~= s.drop_last());
    } else {
        assert(u.drop_last() =~= s.drop_last().update(i, v));
        lemma_count_none_fill(s.drop_last(), i, v);
    }
}

proof fn lemma_path_constraints_push(body: Body, p: Seq<usize>, t: usize)
    requires
        p.len() >= 1,
    ensures
        body.path_constraints(p.push(t)) == body.path_constraints(p) + if body.is_conditional(
            p.last() as int,
        ) {
            1int
        } else {
            0int
        },
{
    assert(p.push(t).drop_last() =~= p);
}

proof fn lemma_cond_count_le(body: Body, p: Seq<usize>)
    ensures
        body.cond_count(p) <= p.len(),
    decreases p.len(),
{
    if p.len() > 0 {
        lemma_cond_count_le(body, p.drop_last());
    }
}

/// Whether a terminator is a conditional branch, and of which kind.
fn is_constraint_terminator(kind: &TerminatorKind) -> (r: Option<ConstraintKind>)
    ensures
        r is Some <==> kind is SwitchInt,
        r is Some ==> r.unwrap() is SwitchInt,
{
    match kind {
        TerminatorKind::SwitchInt => Some(ConstraintKind::SwitchInt),
        _ => None,
    }
}

/// Length of the walk recorded for block `b`.
pub open spec fn len_of(r: Seq<Option<BlockPath>>, b: int) -> int {
    r[b].unwrap().length as int
}

/// `r` maps each block of `body` to a walk from the entry that reaches it: the
/// entry maps to itself with no constraint, every block found has a valid walk,
/// the blocks found are closed under successors, and a successor's walk is at
/// most one step longer.
pub open spec fn is_path_analysis(body: Body, r: Seq<Option<BlockPath>>) -> bool {
    &&& r.len() == body.num_blocks()
    &&& r[0] is Some
    &&& r[0].unwrap().blocks@ == seq![0usize]
    &&& r[0].unwrap().constraints == 0
    &&& forall|b: int| 0 <= b < r.len() && r[b] is Some ==> (#[trigger] r[b]).unwrap().valid_for(body, b)
    &&& forall|b: int, c: int|
        0 <= b < r.len() && r[b] is Some && #[trigger] body.edge(b, c) ==> r[c] is Some && len_of(r, c)
            <= len_of(r, b) + 1
}

/// The last block of a walk from the entry is found, by a walk no longer.
pub proof fn lemma_walk_found(body: Body, r: Seq<Option<BlockPath>>, p: Seq<usize>)
    requires
        body.wf(),
        is_path_analysis(body, r),
        body.is_entry_path(p),
    ensures
        r[p.last() as int] is Some,
        len_of(r, p.last() as int) <= p.len() - 1,
    decreases p.len(),
{
    if p.len() == 1 {
        assert(r[0].unwrap().valid_for(body, 0));
    }
    if p.len() > 1 {
        let q = p.drop_last();
        assert forall|i: int| 0 <= i < q.len() - 1 implies #[trigger] body.edge(q[i] as int, q[i + 1] as int) by {
            assert(body.edge(p[i] as int, p[i + 1] as int));
        }
        lemma_walk_found(body, r, q);
        lemma_walk_in_range(body, q);
        let j = p.len() - 2;
        assert(body.edge(p[j] as int, p[j + 1] as int));
    }
}

proof fn lemma_walk_in_range(body: Body, p: Seq<usize>)
    requires
        body.wf(),
        body.is_entry_path(p),
    ensures
        (p.last() as int) < body.num_blocks(),
    decreases p.len(),
{
    if p.len() > 1 {
        let q = p.drop_last();
        assert forall|i: int| 0 <= i < q.len() - 1 implies #[trigger] body.edge(q[i] as int, q[i + 1] as int) by {
            assert(body.edge(p[i] as int, p[i + 1] as int));
        }
        lemma_walk_in_range(body, q);
        let j = p.len() - 2;
        assert(body.edge(p[j] as int, p[j + 1] as int));
        let k = choose|k: int| 0 <= k < body.succs(p[j] as int).len() && body.succs(p[j] as int)[k] == p[j + 1];
    }
}

/// `p` is a walk from the entry to `b` and no such walk is shorter.
pub open spec fn is_shortest_walk(body: Body, p: Seq<usize>, b: int) -> bool {
    &&& body.is_entry_path(p)
    &&& p.last() == b
    &&& forall|q: Seq<usize>| body.is_entry_path(q) && q.last() == b ==> p.len() <= #[trigger] q.len()
}

/// Every block found gets a shortest walk from the entry.
pub proof fn lemma_found_shortest(body: Body, r: Seq<Option<BlockPath>>, b: int)
    requires
        body.wf(),
        is_path_analysis(body, r),
        0 <= b < r.len(),
        r[b] is Some,
    ensures
        is_shortest_walk(body, r[b].unwrap().blocks@, b),
{
    assert(r[b].unwrap().valid_for(body, b));
    assert forall|q: Seq<usize>| body.is_entry_path(q) && q.last() == b implies r[b].unwrap().blocks@.len()
        <= #[trigger] q.len() by {
        lemma_walk_found(body, r, q);
    }
}

/// Where every shortest walk from the entry to `b` traverses exactly `k`
/// conditional branches, the analysis assigns `k` to `b`; the entry block
/// always gets 0.
pub proof fn lemma_constraint_depth_exact(body: Body, r: Seq<Option<BlockPath>>, b: int, k: nat)
    requires
        body.wf(),
        is_path_analysis(body, r),
        0 <= b < body.num_blocks(),
        body.reachable(b),
        forall|p: Seq<usize>| #[trigger] is_shortest_walk(body, p, b) ==> body.path_constraints(p) == k,
    ensures
        r[b] is Some,
        r[b].unwrap().constraints == k,
        r[0].unwrap().constraints == 0,
{
    let p = choose|p: Seq<usize>| body.is_entry_path(p) && p.last() == b;
    lemma_walk_found(body, r, p);
    lemma_found_shortest(body, r, b);
    assert(r[b].unwrap().valid_for(body, b));
}

/// The walks recorded in `r`.
pub open spec fn blocks_view(r: Seq<Option<BlockPath>>) -> Seq<Option<Seq<usize>>> {
    r.map_values(
        |o: Option<BlockPath>|
            match o {
                Some(p) => Some(p.blocks@),
                None => None,
            },
    )
}

/// Breadth-first search before any block is dequeued: the entry block is found
/// by the walk made of itself, and it is the only block queued.
pub open spec fn bfs_init(body: Body) -> (Seq<Option<Seq<usize>>>, Seq<usize>) {
    (Seq::new(body.num_blocks(), |i: int| if i == 0 { Some(seq![0usize]) } else { None }), seq![0usize])
}

/// The search state after block `u` has looked at its successors `succ[0..j]`:
/// each successor not yet found gets `u`'s walk extended by it, and is queued.
pub open spec fn bfs_visit(
    st: (Seq<Option<Seq<usize>>>, Seq<usize>),
    u: usize,
    succ: Seq<usize>,
    j: int,
) -> (Seq<Option<Seq<usize>>>, Seq<usize>)
    decreases j,
{
    if j <= 0 {
        st
    } else {
        let s1 = bfs_visit(st, u, succ, j - 1);
        let t = succ[j - 1];
        if s1.0[t as int] is None {
            (s1.0.update(t as int, Some(s1.0[u as int].unwrap().push(t))), s1.1.push(t))
        } else {
            s1
        }
    }
}

/// The search state after `k` blocks have been dequeued, in queue order.
pub open spec fn bfs_steps(body: Body, k: nat) -> (Seq<Option<Seq<usize>>>, Seq<usize>)
    decreases k,
{
    if k == 0 {
        bfs_init(body)
    } else {
        let st = bfs_steps(body, (k - 1) as nat);
        if k - 1 < st.1.len() {
            let u = st.1[k - 1];
            bfs_visit(st, u, body.succs(u as int), body.succs(u as int).len() as int)
        } else {
            st
        }
    }
}

/// `v` holds the walks breadth-first search records: its state once every
/// queued block has been dequeued.
pub open spec fn is_bfs_result(body: Body, v: Seq<Option<Seq<usize>>>) -> bool {
    exists|k: nat| bfs_steps(body, k).1.len() == k && v == #[trigger] bfs_steps(body, k).0
}

proof fn lemma_bfs_done_stable(body: Body, k: nat, k2: nat)
    requires
        k <= k2,
        bfs_steps(body, k).1.len() == k,
    ensures
        bfs_steps(body, k2) == bfs_steps(body, k),
    decreases k2 - k,
{
    if k2 > k {
        lemma_bfs_done_stable(body, k, (k2 - 1) as nat);
    }
}

/// Breadth-first search has one result: the walk of every block, and so its
/// constraint count, is the same on every run.
pub proof fn lemma_bfs_deterministic(body: Body, v1: Seq<Option<Seq<usize>>>, v2: Seq<Option<Seq<usize>>>)
    requires
        is_bfs_result(body, v1),
        is_bfs_result(body, v2),
    ensures
        v1 == v2,
{
    let k1 = choose|k: nat| bfs_steps(body, k).1.len() == k && v1 == #[trigger] bfs_steps(body, k).0;
    let k2 = choose|k: nat| bfs_steps(body, k).1.len() == k && v2 == #[trigger] bfs_steps(body, k).0;
    if k1 <= k2 {
        lemma_bfs_done_stable(body, k1, k2);
    } else {
        lemma_bfs_done_stable(body, k2, k1);
    }
}

/// Breadth-first search from the entry block. Each reached block gets the walk
/// by which it was first discovered, with the number of conditional branches
/// traversed along that walk. Unreachable blocks stay `None`.
pub fn compute_shortest_paths(body: &Body) -> (r: Vec<Option<BlockPath>>)
    requires
        body.wf(),
    ensures
        is_path_analysis(*body, r@),
        is_bfs_result(*body, blocks_view(r@)),
{
    let n = body.basic_blocks.len();
    let mut result: Vec<Option<BlockPath>> = Vec::new();
    let mut i: usize = 0;
    while i < n
        invariant
            i <= n,
            result@.len() == i,
            forall|b: int| 0 <= b < i ==> result@[b] is None,
        decreases n - i,
    {
        result.push(None);
        i += 1;
    }
    let entry: usize = 0;
    let ghost before = result@;
    let first = BlockPath::new(entry);
    proof {
        lemma_count_none_fill(before, 0, Some(first));
    }
    result.set(entry, Some(first));
    proof {
        assert(result@ == before.update(0, Some(first)));
        lemma_count_none_le(before);
        let p = result@[0].unwrap().blocks@;
        assert(p.drop_last() =~= Seq::<usize>::empty());
        assert(body.path_constraints(p) == 0);
    }
    let mut queue: Vec<usize> = Vec::new();
    queue.push(entry);
    proof {
        assert(blocks_view(result@) =~= bfs_init(*body).0);
        assert(queue@ =~= bfs_init(*body).1);
        assert forall|b: int| 0 <= b < n && result@[b] is Some implies queue@.contains(
            b as usize,
        ) by {
            if b != 0 {
                assert(before[b] is None);
            }
            assert(queue@[0] == 0);
        }
    }
    let mut head: usize = 0;
    while head < queue.len()
        invariant
            body.wf(),
            n == body.num_blocks(),
            result@.len() == n,
            head <= queue@.len(),
            blocks_view(result@) == bfs_steps(*body, head as nat).0,
            queue@ == bfs_steps(*body, head as nat).1,
            count_none(result@) <= n,
            result@[0] is Some,
            result@[0].unwrap().blocks@ == seq![0usize],
            result@[0].unwrap().constraints == 0,
            forall|b: int|
                0 <= b < n && result@[b] is Some ==> result@[b].unwrap().valid_for(*body, b)
                    && result@[b].unwrap().length < n - count_none(result@),
            forall|k: int| 0 <= k < queue@.len() ==> queue@[k] < n && result@[queue@[k] as int] is Some,
            forall|b: int| 0 <= b < n && result@[b] is Some ==> queue@.contains(b as usize),
            forall|k1: int, k2: int|
                0 <= k1 < k2 < queue@.len() ==> len_of(result@, queue@[k1] as int) <= len_of(
                    result@,
                    queue@[k2] as int,
                ),
            head < queue@.len() ==> forall|k: int|
                head <= k < queue@.len() ==> len_of(result@, queue@[k] as int) <= len_of(
                    result@,
                    queue@[head as int] as int,
                ) + 1,
            forall|k: int, c: int|
                0 <= k < head && body.edge(queue@[k] as int, c) ==> result@[c] is Some && len_of(
                    result@,
                    c,
                ) <= len_of(result@, queue@[k] as int) + 1,
        decreases count_none(result@), queue@.len() - head,
    {
        let block = queue[head];
        let ghost cn0 = count_none(result@);
        let ghost q0 = queue@.len();
        let ghost start = result@;
        let ghost lu = len_of(result@, block as int);
        let ghost s0 = bfs_steps(*body, head as nat);
        match &body.basic_blocks[block].terminator {
            Some(t) => {
                let constraint_kind = is_constraint_terminator(&t.kind);
                assert(t.successors@ == body.succs(block as int));
                let mut j: usize = 0;
                while j < t.successors.len()
                    invariant
                        body.wf(),
                        n == body.num_blocks(),
                        block < n,
                        t.successors@ == body.succs(block as int),
                        constraint_kind is Some <==> body.is_conditional(block as int),
                        result@.len() == n,
                        head < queue@.len(),
                        queue@[head as int] == block,
                        j <= t.successors@.len(),
                        q0 <= queue@.len(),
                        count_none(result@) + (queue@.len() - q0) == cn0,
                        count_none(result@) <= n,
                        result@[0] is Some,
                        result@[0].unwrap().blocks@ == seq![0usize],
                        result@[0].unwrap().constraints == 0,
                        start[block as int] is Some,
                        lu == len_of(start, block as int),
                        s0 == bfs_steps(*body, head as nat),
                        blocks_view(result@) == bfs_visit(s0, block, t.successors@, j as int).0,
                        queue@ == bfs_visit(s0, block, t.successors@, j as int).1,
                        forall|b: int| 0 <= b < n && start[b] is Some ==> result@[b] == start[b],
                        forall|b: int|
                            0 <= b < n && result@[b] is Some ==> result@[b].unwrap().valid_for(
                                *body,
                                b,
                            ) && result@[b].unwrap().length < n - count_none(result@),
                        forall|k: int|
                            0 <= k < queue@.len() ==> queue@[k] < n && result@[queue@[k] as int] is Some,
                        forall|b: int| 0 <= b < n && result@[b] is Some ==> queue@.contains(b as usize),
                        forall|k1: int, k2: int|
                            0 <= k1 < k2 < queue@.len() ==> len_of(result@, queue@[k1] as int) <= len_of(
                                result@,
                                queue@[k2] as int,
                            ),
                        forall|k: int|
                            head <= k < queue@.len() ==> len_of(result@, queue@[k] as int) <= lu + 1,
                        forall|k: int, c: int|
                            0 <= k < head && body.edge(queue@[k] as int, c) ==> result@[c] is Some
                                && len_of(result@, c) <= len_of(result@, queue@[k] as int) + 1,
                        forall|k: int|
                            0 <= k < j ==> result@[t.successors@[k] as int] is Some && len_of(
                                result@,
                                t.successors@[k] as int,
                            ) <= lu + 1,
                    decreases t.successors@.len() - j,
                {
                    let target = t.successors[j];
                    let ghost pre_bv = blocks_view(result@);
                    let ghost pre_q = queue@;
                    proof {
                        assert(pre_bv[target as int] is None <==> result@[target as int] is None);
                        assert(pre_bv[block as int] == Some(result@[block as int].unwrap().blocks@));
                    }
                    if result[target].is_none() {
                        let info = match constraint_kind {
                            Some(_) => Some(
                                ConstraintInfo {
                                    block,
                                    kind: ConstraintKind::SwitchInt,
                                    source_info: Some(t.source_info),
                                },
                            ),
                            None => None,
                        };
                        let ghost old_result = result@;
                        let ghost old_queue = queue@;
                        let parent = result[block].as_ref().unwrap();
                        proof {
                            lemma_cond_count_le(*body, parent.blocks@.drop_last());
                        }
                        let np = parent.extend(target, info);
                        proof {
                            let p = parent.blocks@;
                            lemma_path_constraints_push(*body, p, target);
                            assert(body.edge(block as int, target as int));
                            let q = p.push(target);
                            assert forall|x: int| 0 <= x < q.len() - 1 implies #[trigger] body.edge(
                                q[x] as int,
                                q[x + 1] as int,
                            ) by {
                                if x < p.len() - 1 {
                                    assert(q[x] == p[x] && q[x + 1] == p[x + 1]);
                                }
                            }
                            assert(np.blocks@ == q);
                            lemma_count_none_fill(old_result, target as int, Some(np));
                        }
                        result.set(target, Some(np));
                        queue.push(target);
                        proof {
                            assert(blocks_view(result@) =~= pre_bv.update(
                                target as int,
                                Some(pre_bv[block as int].unwrap().push(target)),
                            ));
                            assert(result@ == old_result.update(target as int, Some(np)));
                            assert(len_of(result@, target as int) == lu + 1);
                            assert forall|b: int| 0 <= b < n && result@[b] is Some implies queue@.contains(
                                b as usize,
                            ) by {
                                if b == target {
                                    assert(queue@[queue@.len() - 1] == target);
                                } else {
                                    assert(old_result[b] is Some);
                                    let w = choose|w: int|
                                        0 <= w < old_queue.len() && old_queue[w] == b as usize;
                                    assert(queue@[w] == b as usize);
                                }
                            }
                            assert forall|k: int| 0 <= k < queue@.len() implies queue@[k] < n
                                && result@[queue@[k] as int] is Some by {
                                if k < old_queue.len() {
                                    assert(queue@[k] == old_queue[k]);
                                }
                            }
                            assert forall|k: int| 0 <= k < old_queue.len() implies len_of(result@, queue@[k] as int)
                                == len_of(old_result, old_queue[k] as int) by {
                                assert(queue@[k] == old_queue[k]);
                                assert(old_queue[k] != target);
                            }
                            assert forall|k1: int, k2: int|
                                0 <= k1 < k2 < queue@.len() implies len_of(result@, queue@[k1] as int) <= len_of(
                                result@,
                                queue@[k2] as int,
                            ) by {
                                if k2 == old_queue.len() {
                                    if k1 < head {
                                        assert(len_of(old_result, old_queue[k1] as int) <= len_of(
                                            old_result,
                                            old_queue[head as int] as int,
                                        ));
                                    }
                                }
                            }
                            assert forall|k: int, c: int|
                                0 <= k < head && body.edge(queue@[k] as int, c) implies result@[c] is Some
                                && len_of(result@, c) <= len_of(result@, queue@[k] as int) + 1 by {
                                assert(queue@[k] == old_queue[k]);
                                assert(old_result[c] is Some);
                            }
                            assert forall|k: int| 0 <= k < j + 1 implies result@[t.successors@[k] as int] is Some
                                && len_of(result@, t.successors@[k] as int) <= lu + 1 by {
                                if k < j {
                                    assert(old_result[t.successors@[k] as int] is Some);
                                }
                            }
                        }
                    } else {
                        proof {
                            assert(result@[target as int] is Some);
                            let w = choose|w: int| 0 <= w < queue@.len() && queue@[w] == target;
                            if w < head {
                                assert(len_of(result@, queue@[w] as int) <= len_of(result@, queue@[head as int] as int));
                            }
                            assert(len_of(result@, queue@[w] as int) <= lu + 1);
                        }
                    }
                    proof {
                        let nx = bfs_visit(s0, block, t.successors@, j + 1);
                        assert(nx.0 == blocks_view(result@) && nx.1 == queue@);
                    }
                    j += 1;
                }
                proof {
                    assert forall|c: int| body.edge(block as int, c) implies result@[c] is Some && len_of(result@, c)
                        <= len_of(result@, block as int) + 1 by {
                        let k = choose|k: int|
                            0 <= k < body.succs(block as int).len() && body.succs(block as int)[k]
                                == c;
                        assert(result@[t.successors@[k] as int] is Some);
                    }
                }
            },
            None => {
                proof {
                    assert forall|c: int| body.edge(block as int, c) implies result@[c] is Some by {
                        assert(body.succs(block as int).len() == 0);
                    }
                }
            },
        }
        proof {
            if head + 1 < queue@.len() {
                assert forall|k: int| #![trigger queue@[k]] head + 1 <= k < queue@.len() implies len_of(result@, queue@[k] as int)
                    <= len_of(result@, queue@[head + 1] as int) + 1 by {
                    assert(len_of(result@, queue@[head as int] as int) <= len_of(result@, queue@[head + 1] as int));
                }
            }
        }
        proof {
            assert(s0.1[head as int] == block);
            if body.basic_blocks@[block as int].terminator is None {
                assert(body.succs(block as int) =~= Seq::<usize>::empty());
            }
        }
        head += 1;
    }
    proof {
        assert(bfs_steps(*body, head as nat).1.len() == head);
        assert(blocks_view(result@) == bfs_steps(*body, head as nat).0);
        assert forall|b: int, c: int|
            0 <= b < result@.len() && result@[b] is Some && #[trigger] body.edge(b, c) implies result@[c] is Some
            && len_of(result@, c) <= len_of(result@, b) + 1 by {
            let w = choose|w: int| 0 <= w < queue@.len() && queue@[w] == b as usize;
            assert(body.edge(queue@[w] as int, c));
        }
    }
    result
}

} // verus!
