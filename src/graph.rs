use vstd::prelude::*;

use crate::instance::{FunctionInstance, InstanceView};

verus! {

/// Value of an edge: caller, callee, constraint depth.
pub type EdgeView = (InstanceView, InstanceView, nat);

/// One call edge `caller -> callee`, with the number of conditional branches on
/// the shortest control-flow path from the caller's entry to the call.
#[derive(Debug)]
pub struct CallSite {
    caller: FunctionInstance,
    callee: FunctionInstance,
    constraint_cnt: usize,
}

impl View for CallSite {
    type V = EdgeView;

    closed spec fn view(&self) -> EdgeView {
        (self.caller@, self.callee@, self.constraint_cnt as nat)
    }
}

impl CallSite {
    pub fn new(caller: FunctionInstance, callee: FunctionInstance, constraint_count: usize) -> (r:
        CallSite)
        ensures
            r@ == (caller@, callee@, constraint_count as nat),
    {
        CallSite { caller, callee, constraint_cnt: constraint_count }
    }

    pub fn caller(&self) -> (r: FunctionInstance)
        ensures
            r@ == self@.0,
    {
        self.caller.copy()
    }

    pub fn callee(&self) -> (r: FunctionInstance)
        ensures
            r@ == self@.1,
    {
        self.callee.copy()
    }

    pub fn caller_ref(&self) -> (r: &FunctionInstance)
        ensures
            r@ == self@.0,
    {
        &self.caller
    }

    pub fn callee_ref(&self) -> (r: &FunctionInstance)
        ensures
            r@ == self@.1,
    {
        &self.callee
    }

    pub fn constraint_count(&self) -> (r: usize)
        ensures
            r == self@.2,
    {
        self.constraint_cnt
    }

    /// 1 when caller and callee belong to the same compilation unit, else 0.
    pub fn package_num(&self) -> (r: usize)
        ensures
            r == same_unit(self@.0, self@.1),
    {
        if self.caller.def_id().krate == self.callee.def_id().krate {
            1
        } else {
            0
        }
    }

    /// 1 when the edge crosses from one compilation unit into another, else 0.
    pub fn crossing_num(&self) -> (r: usize)
        ensures
            r == crossing(self@.0, self@.1),
    {
        1 - self.package_num()
    }

    pub fn copy(&self) -> (r: CallSite)
        ensures
            r@ == self@,
    {
        CallSite {
            caller: self.caller.copy(),
            callee: self.callee.copy(),
            constraint_cnt: self.constraint_cnt,
        }
    }
}

/// 1 when both instances belong to the same compilation unit, else 0.
pub open spec fn same_unit(a: InstanceView, b: InstanceView) -> nat {
    if a.def().krate == b.def().krate {
        1
    } else {
        0
    }
}

/// 1 when the instances belong to different compilation units, else 0: the
/// edge between them crosses a unit boundary.
pub open spec fn crossing(a: InstanceView, b: InstanceView) -> nat {
    if a.def().krate == b.def().krate {
        0
    } else {
        1
    }
}

/// The values of a sequence of edges.
pub open spec fn edge_views(s: Seq<CallSite>) -> Seq<EdgeView> {
    s.map_values(|c: CallSite| c@)
}

pub open spec fn same_pair(a: EdgeView, b: EdgeView) -> bool {
    a.0 == b.0 && a.1 == b.1
}

/// Edge `i` is the first edge of minimum depth among the edges with its pair.
pub open spec fn kept(s: Seq<EdgeView>, i: int) -> bool {
    forall|j: int|
        0 <= j < s.len() && #[trigger] same_pair(s[j], s[i]) ==> (j < i ==> s[j].2 > s[i].2) && (j
            > i ==> s[j].2 >= s[i].2)
}

/// The edges of `s[0..n]` that are kept, in order.
pub open spec fn dedup_prefix(s: Seq<EdgeView>, n: int) -> Seq<EdgeView>
    decreases n,
{
    if n <= 0 {
        Seq::empty()
    } else {
        let prev = dedup_prefix(s, n - 1);
        if kept(s, n - 1) {
            prev.push(s[n - 1])
        } else {
            prev
        }
    }
}

/// For each (caller, callee) pair, the first edge of minimum depth, in the order of `s`.
pub open spec fn dedup_spec(s: Seq<EdgeView>) -> Seq<EdgeView> {
    dedup_prefix(s, s.len() as int)
}

/// No two edges of `s` share a (caller, callee) pair.
pub open spec fn unique_pairs(s: Seq<EdgeView>) -> bool {
    forall|a: int, b: int|
        0 <= a < s.len() && 0 <= b < s.len() && a != b ==> !#[trigger] same_pair(s[a], s[b])
}

/// `x` is a kept edge of `s[0..n]`.
pub open spec fn kept_before(s: Seq<EdgeView>, n: int, x: EdgeView) -> bool {
    exists|i: int| 0 <= i < n && kept(s, i) && s[i] == x
}

proof fn lemma_dedup_prefix_members(s: Seq<EdgeView>, n: int)
    requires
        0 <= n <= s.len(),
    ensures
        forall|k: int|
            0 <= k < dedup_prefix(s, n).len() ==> kept_before(s, n, #[trigger] dedup_prefix(s, n)[k]),
        unique_pairs(dedup_prefix(s, n)),
    decreases n,
{
    if n > 0 {
        lemma_dedup_prefix_members(s, n - 1);
        let prev = dedup_prefix(s, n - 1);
        let cur = dedup_prefix(s, n);
        assert forall|k: int| 0 <= k < prev.len() implies kept_before(s, n, #[trigger] prev[k]) by {
            assert(kept_before(s, n - 1, prev[k]));
            let i = choose|i: int| 0 <= i < n - 1 && kept(s, i) && s[i] == prev[k];
            assert(0 <= i < n && kept(s, i) && s[i] == prev[k]);
        }
        if kept(s, n - 1) {
            assert forall|k: int| 0 <= k < cur.len() implies kept_before(s, n, #[trigger] cur[k]) by {
                if k < prev.len() {
                    assert(cur[k] == prev[k]);
                } else {
                    assert(cur[k] == s[n - 1]);
                    assert(0 <= n - 1 < n && kept(s, n - 1) && s[n - 1] == cur[k]);
                }
            }
            assert forall|a: int, b: int|
                0 <= a < cur.len() && 0 <= b < cur.len() && a != b implies !#[trigger] same_pair(
                cur[a],
                cur[b],
            ) by {
                if a < prev.len() && b < prev.len() {
                    assert(cur[a] == prev[a] && cur[b] == prev[b]);
                } else if a < prev.len() {
                    assert(cur[a] == prev[a]);
                    assert(kept_before(s, n - 1, prev[a]));
                    let i = choose|i: int| 0 <= i < n - 1 && kept(s, i) && s[i] == prev[a];
                    if same_pair(cur[a], cur[b]) {
                        assert(same_pair(s[i], s[n - 1]));
                        assert(same_pair(s[n - 1], s[i]));
                    }
                } else {
                    assert(cur[b] == prev[b]);
                    assert(kept_before(s, n - 1, prev[b]));
                    let i = choose|i: int| 0 <= i < n - 1 && kept(s, i) && s[i] == prev[b];
                    if same_pair(cur[a], cur[b]) {
                        assert(same_pair(s[i], s[n - 1]));
                        assert(same_pair(s[n - 1], s[i]));
                    }
                }
            }
        } else {
            assert(cur == prev);
        }
    }
}

proof fn lemma_dedup_prefix_all_kept(s: Seq<EdgeView>, n: int)
    requires
        0 <= n <= s.len(),
        forall|i: int| 0 <= i < s.len() ==> kept(s, i),
    ensures
        dedup_prefix(s, n) == s.subrange(0, n),
    decreases n,
{
    if n > 0 {
        lemma_dedup_prefix_all_kept(s, n - 1);
        assert(s.subrange(0, n) =~= s.subrange(0, n - 1).push(s[n - 1]));
    } else {
        assert(s.subrange(0, n) =~= Seq::<EdgeView>::empty());
    }
}

/// Every edge is matched by a kept edge of the same pair.
proof fn lemma_kept_exists(s: Seq<EdgeView>, j: int)
    requires
        0 <= j < s.len(),
    ensures
        exists|i: int| 0 <= i < s.len() && kept(s, i) && same_pair(s[i], s[j]),
    decreases s[j].2, j,
{
    if !kept(s, j) {
        let k = choose|k: int|
            0 <= k < s.len() && #[trigger] same_pair(s[k], s[j]) && !((k < j ==> s[k].2 > s[j].2)
                && (k > j ==> s[k].2 >= s[j].2));
        lemma_kept_exists(s, k);
        let i = choose|i: int| 0 <= i < s.len() && kept(s, i) && same_pair(s[i], s[k]);
        assert(same_pair(s[i], s[j]));
    } else {
        assert(same_pair(s[j], s[j]));
    }
}

proof fn lemma_dedup_prefix_contains(s: Seq<EdgeView>, n: int, i: int)
    requires
        0 <= i < n <= s.len(),
        kept(s, i),
    ensures
        dedup_prefix(s, n).contains(s[i]),
    decreases n,
{
    if n - 1 == i {
        assert(dedup_prefix(s, n).last() == s[i]);
    } else {
        lemma_dedup_prefix_contains(s, n - 1, i);
        let prev = dedup_prefix(s, n - 1);
        let k = choose|k: int| 0 <= k < prev.len() && prev[k] == s[i];
        if kept(s, n - 1) {
            assert(dedup_prefix(s, n)[k] == s[i]);
        }
    }
}

/// Deduplicating keeps exactly one edge for each (caller, callee) pair, one of
/// minimum depth among the edges with that pair; deduplicating again changes nothing.
pub proof fn lemma_dedup_laws(s: Seq<EdgeView>)
    ensures
        unique_pairs(dedup_spec(s)),
        forall|k: int, j: int|
            0 <= k < dedup_spec(s).len() && 0 <= j < s.len() && same_pair(
                #[trigger] dedup_spec(s)[k],
                #[trigger] s[j],
            ) ==> dedup_spec(s)[k].2 <= s[j].2,
        forall|j: int|
            0 <= j < s.len() ==> exists|k: int|
                0 <= k < dedup_spec(s).len() && same_pair(dedup_spec(s)[k], #[trigger] s[j]),
        forall|k: int| 0 <= k < dedup_spec(s).len() ==> s.contains(#[trigger] dedup_spec(s)[k]),
        dedup_spec(dedup_spec(s)) == dedup_spec(s),
{
    let t = dedup_spec(s);
    lemma_dedup_prefix_members(s, s.len() as int);
    assert forall|k: int, j: int|
        0 <= k < t.len() && 0 <= j < s.len() && same_pair(#[trigger] t[k], #[trigger] s[j]) implies t[k].2
        <= s[j].2 by {
        assert(kept_before(s, s.len() as int, t[k]));
        let i = choose|i: int| 0 <= i < s.len() && kept(s, i) && s[i] == t[k];
        assert(same_pair(s[j], s[i]));
    }
    assert forall|j: int| 0 <= j < s.len() implies exists|k: int|
        0 <= k < t.len() && same_pair(t[k], #[trigger] s[j]) by {
        lemma_kept_exists(s, j);
        let i = choose|i: int| 0 <= i < s.len() && kept(s, i) && same_pair(s[i], s[j]);
        lemma_dedup_prefix_contains(s, s.len() as int, i);
        let k = choose|k: int| 0 <= k < t.len() && t[k] == s[i];
        assert(same_pair(t[k], s[j]));
    }
    assert forall|k: int| 0 <= k < t.len() implies s.contains(#[trigger] t[k]) by {
        assert(kept_before(s, s.len() as int, t[k]));
        let i = choose|i: int| 0 <= i < s.len() && kept(s, i) && s[i] == t[k];
    }
    assert forall|i: int| 0 <= i < t.len() implies kept(t, i) by {
        assert forall|j: int| 0 <= j < t.len() && #[trigger] same_pair(t[j], t[i]) implies (j < i
            ==> t[j].2 > t[i].2) && (j > i ==> t[j].2 >= t[i].2) by {
            if j != i {
                assert(!same_pair(t[j], t[i]));
            }
        }
    }
    lemma_dedup_prefix_all_kept(t, t.len() as int);
    assert(t.subrange(0, t.len() as int) =~= t);
}

/// Whether edge `i` of `s` is kept by deduplication.
fn is_kept(s: &Vec<CallSite>, i: usize) -> (r: bool)
    requires
        i < s@.len(),
    ensures
        r == kept(edge_views(s@), i as int),
{
    let ghost v = edge_views(s@);
    let mut j: usize = 0;
    while j < s.len()
        invariant
            i < s@.len(),
            v == edge_views(s@),
            j <= s@.len(),
            forall|k: int|
                0 <= k < j && #[trigger] same_pair(v[k], v[i as int]) ==> (k < i ==> v[k].2 > v[i as int].2)
                    && (k > i ==> v[k].2 >= v[i as int].2),
        decreases s@.len() - j,
    {
        if j != i && s[j].caller_ref().same(s[i].caller_ref()) && s[j].callee_ref().same(
            s[i].callee_ref(),
        ) {
            assert(same_pair(v[j as int], v[i as int]));
            if j < i && s[j].constraint_count() <= s[i].constraint_count() {
                return false;
            }
            if j > i && s[j].constraint_count() < s[i].constraint_count() {
                return false;
            }
        }
        j += 1;
    }
    true
}

/// The first edge of minimum depth for each (caller, callee) pair, in order.
pub fn deduplicate(s: &Vec<CallSite>) -> (r: Vec<CallSite>)
    ensures
        edge_views(r@) == dedup_spec(edge_views(s@)),
{
    let ghost v = edge_views(s@);
    let mut r: Vec<CallSite> = Vec::new();
    let mut i: usize = 0;
    while i < s.len()
        invariant
            v == edge_views(s@),
            i <= s@.len(),
            edge_views(r@) == dedup_prefix(v, i as int),
        decreases s@.len() - i,
    {
        if is_kept(s, i) {
            r.push(s[i].copy());
        }
        assert(edge_views(r@) =~= dedup_prefix(v, i + 1));
        i += 1;
    }
    r
}

/// The call graph: the discovery queue, the instances visited so far, and the
/// edges found.
pub struct CallGraph {
    pub instances: Vec<FunctionInstance>,
    pub visited: Vec<FunctionInstance>,
    pub call_sites: Vec<CallSite>,
    /// Whether reports leave generic arguments out of function paths.
    pub without_args: bool,
}

impl CallGraph {
    pub fn new(instances: Vec<FunctionInstance>, without_args: bool) -> (r: CallGraph)
        ensures
            r.instances@ == instances@,
            r.visited@.len() == 0,
            r.call_sites@.len() == 0,
            r.without_args == without_args,
    {
        CallGraph { instances, visited: Vec::new(), call_sites: Vec::new(), without_args }
    }

    /// Keeps, for each (caller, callee) pair, only the first edge of minimum depth.
    pub fn deduplicate_call_sites(&mut self)
        ensures
            edge_views(final(self).call_sites@) == dedup_spec(edge_views(old(self).call_sites@)),
            final(self).instances@ == old(self).instances@,
            final(self).visited@ == old(self).visited@,
            final(self).without_args == old(self).without_args,
    {
        let r = deduplicate(&self.call_sites);
        self.call_sites = r;
    }
}

} // verus!
