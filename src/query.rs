use vstd::prelude::*;

use crate::constraint::{count_none, lemma_count_none_fill};
use crate::graph::{crossing, edge_views, CallGraph, CallSite, EdgeView};
use crate::instance::{position_of, views, FunctionInstance, InstanceView};

verus! {

/// `x` capped at `usize::MAX`.
pub open spec fn sat(x: int) -> nat {
    if x > usize::MAX {
        usize::MAX as nat
    } else if x < 0 {
        0
    } else {
        x as nat
    }
}

/// Adds two counters, capping the sum at `usize::MAX`.
pub fn sat_add(a: usize, b: usize) -> (r: usize)
    ensures
        r == sat(a + b),
{
    if a > usize::MAX - b {
        usize::MAX
    } else {
        a + b
    }
}

/// Sum of the depths of the edges `a -> c` of `s`.
pub open spec fn pair_sum(s: Seq<EdgeView>, a: InstanceView, c: InstanceView) -> nat
    decreases s.len(),
{
    if s.len() == 0 {
        0
    } else {
        pair_sum(s.drop_last(), a, c) + if s.last().0 == a && s.last().1 == c {
            s.last().2
        } else {
            0nat
        }
    }
}

/// Number of edges `a -> c` of `s` that cross from one compilation unit into another.
pub open spec fn pair_crossings(s: Seq<EdgeView>, a: InstanceView, c: InstanceView) -> nat
    decreases s.len(),
{
    if s.len() == 0 {
        0
    } else {
        pair_crossings(s.drop_last(), a, c) + if s.last().0 == a && s.last().1 == c {
            crossing(a, c)
        } else {
            0nat
        }
    }
}

/// All the edges `caller -> callee` of a graph taken together.
pub struct Contribution {
    pub caller: FunctionInstance,
    pub callee: FunctionInstance,
    /// Summed constraint depth, capped.
    pub constraints: usize,
    /// Summed unit-crossing count, capped.
    pub package_num: usize,
}

/// No two contributions share a (caller, callee) pair.
pub open spec fn agg_unique(r: Seq<Contribution>) -> bool {
    forall|i: int, j: int|
        0 <= i < j < r.len() ==> !(r[i].caller@ == r[j].caller@ && r[i].callee@ == r[j].callee@)
}

/// Each contribution holds the capped sums of the edges of its pair.
pub open spec fn agg_sums(edges: Seq<EdgeView>, r: Seq<Contribution>) -> bool {
    forall|k: int|
        0 <= k < r.len() ==> (#[trigger] r[k]).constraints == sat(
            pair_sum(edges, r[k].caller@, r[k].callee@) as int,
        ) && r[k].package_num == sat(pair_crossings(edges, r[k].caller@, r[k].callee@) as int)
}

/// Every edge's pair has a contribution.
pub open spec fn agg_complete(edges: Seq<EdgeView>, r: Seq<Contribution>) -> bool {
    forall|i: int|
        0 <= i < edges.len() ==> exists|k: int|
            0 <= k < r.len() && r[k].caller@ == (#[trigger] edges[i]).0 && r[k].callee@ == edges[i].1
}

/// Every contribution's pair has an edge.
pub open spec fn agg_sound(edges: Seq<EdgeView>, r: Seq<Contribution>) -> bool {
    forall|k: int|
        0 <= k < r.len() ==> exists|i: int|
            0 <= i < edges.len() && (#[trigger] r[k]).caller@ == edges[i].0 && r[k].callee@ == edges[i].1
}

/// Aggregates `edges` by (caller, callee): the summed depth and unit-crossing count.
pub open spec fn aggregates(edges: Seq<EdgeView>, r: Seq<Contribution>) -> bool {
    &&& agg_unique(r)
    &&& agg_sums(edges, r)
    &&& agg_complete(edges, r)
    &&& agg_sound(edges, r)
}

proof fn lemma_pair_sum_push(s: Seq<EdgeView>, e: EdgeView, a: InstanceView, c: InstanceView)
    ensures
        pair_sum(s.push(e), a, c) == pair_sum(s, a, c) + if e.0 == a && e.1 == c {
            e.2
        } else {
            0nat
        },
        pair_crossings(s.push(e), a, c) == pair_crossings(s, a, c) + if e.0 == a && e.1 == c {
            crossing(a, c)
        } else {
            0nat
        },
{
    assert(s.push(e).drop_last() =~= s);
}

fn find_contribution(r: &Vec<Contribution>, a: &FunctionInstance, c: &FunctionInstance) -> (p:
    Option<usize>)
    ensures
        p is Some ==> p.unwrap() < r@.len() && r@[p.unwrap() as int].caller@ == a@
            && r@[p.unwrap() as int].callee@ == c@,
        p is None ==> forall|k: int|
            0 <= k < r@.len() ==> !(r@[k].caller@ == a@ && r@[k].callee@ == c@),
{
    let mut k: usize = 0;
    while k < r.len()
        invariant
            k <= r@.len(),
            forall|j: int| 0 <= j < k ==> !(r@[j].caller@ == a@ && r@[j].callee@ == c@),
        decreases r@.len() - k,
    {
        if r[k].caller.same(a) && r[k].callee.same(c) {
            return Some(k);
        }
        k += 1;
    }
    None
}

/// Aggregates the edges of `s` by (caller, callee) pair, summing their depths
/// and unit-crossing counts.
pub fn aggregate(s: &Vec<CallSite>) -> (r: Vec<Contribution>)
    ensures
        aggregates(edge_views(s@), r@),
{
    let ghost ev = edge_views(s@);
    let mut r: Vec<Contribution> = Vec::new();
    let mut i: usize = 0;
    while i < s.len()
        invariant
            i <= s@.len(),
            ev == edge_views(s@),
            aggregates(ev.subrange(0, i as int), r@),
        decreases s@.len() - i,
    {
        let ghost pre = ev.subrange(0, i as int);
        let ghost post = ev.subrange(0, i + 1);
        let ghost e = ev[i as int];
        assert(post =~= pre.push(e));
        let ghost old_r = r@;
        let a = s[i].caller_ref();
        let c = s[i].callee_ref();
        let w = s[i].constraint_count();
        let u = s[i].crossing_num();
        assert(e == (a@, c@, w as nat));
        match find_contribution(&r, a, c) {
            Some(p) => {
                let nw = sat_add(r[p].constraints, w);
                let nu = sat_add(r[p].package_num, u);
                let entry = Contribution { caller: a.copy(), callee: c.copy(), constraints: nw, package_num: nu };
                r.set(p, entry);
                proof {
                    lemma_aggregate_update(pre, e, old_r, r@, p as int);
                }
            },
            None => {
                let entry = Contribution { caller: a.copy(), callee: c.copy(), constraints: w, package_num: u };
                r.push(entry);
                proof {
                    lemma_aggregate_push(pre, e, old_r, r@);
                }
            },
        }
        i += 1;
    }
    assert(ev.subrange(0, i as int) =~= ev);
    r
}

proof fn lemma_aggregate_update(
    pre: Seq<EdgeView>,
    e: EdgeView,
    old_r: Seq<Contribution>,
    r: Seq<Contribution>,
    p: int,
)
    requires
        aggregates(pre, old_r),
        0 <= p < old_r.len(),
        r.len() == old_r.len(),
        forall|k: int| 0 <= k < r.len() && k != p ==> r[k] == old_r[k],
        r[p].caller@ == e.0 && r[p].callee@ == e.1,
        old_r[p].caller@ == e.0 && old_r[p].callee@ == e.1,
        r[p].constraints == sat(old_r[p].constraints + e.2),
        r[p].package_num == sat(old_r[p].package_num + crossing(e.0, e.1)),
    ensures
        aggregates(pre.push(e), r),
{
    let post = pre.push(e);
    assert forall|k: int| 0 <= k < r.len() implies (#[trigger] r[k]).constraints == sat(
        pair_sum(post, r[k].caller@, r[k].callee@) as int,
    ) && r[k].package_num == sat(pair_crossings(post, r[k].caller@, r[k].callee@) as int) by {
        lemma_pair_sum_push(pre, e, r[k].caller@, r[k].callee@);
        if k != p {
            assert(old_r[k] == r[k]);
            assert(!(old_r[k].caller@ == old_r[p].caller@ && old_r[k].callee@ == old_r[p].callee@));
        } else {
            assert(old_r[p] == old_r[p]);
        }
    }
    assert forall|ii: int, j: int| 0 <= ii < j < r.len() implies !(r[ii].caller@ == r[j].caller@
        && r[ii].callee@ == r[j].callee@) by {
        assert(!(old_r[ii].caller@ == old_r[j].caller@ && old_r[ii].callee@ == old_r[j].callee@));
    }
    assert forall|x: int| 0 <= x < post.len() implies exists|k: int|
        0 <= k < r.len() && r[k].caller@ == (#[trigger] post[x]).0 && r[k].callee@ == post[x].1 by {
        if x < pre.len() {
            assert(post[x] == pre[x]);
            let k = choose|k: int| 0 <= k < old_r.len() && old_r[k].caller@ == (#[trigger] pre[x]).0 && old_r[k].callee@ == pre[x].1;
            assert(r[k].caller@ == old_r[k].caller@ && r[k].callee@ == old_r[k].callee@);
        } else {
            assert(post[x] == e);
            assert(r[p].caller@ == e.0);
        }
    }
    assert forall|k: int| 0 <= k < r.len() implies exists|x: int|
        0 <= x < post.len() && (#[trigger] r[k]).caller@ == post[x].0 && r[k].callee@ == post[x].1 by {
        if k == p {
            assert(post[pre.len() as int] == e);
        } else {
            assert(r[k] == old_r[k]);
            let x = choose|x: int| 0 <= x < pre.len() && (#[trigger] old_r[k]).caller@ == pre[x].0 && old_r[k].callee@ == pre[x].1;
            assert(post[x] == pre[x]);
        }
    }
}

proof fn lemma_aggregate_push(pre: Seq<EdgeView>, e: EdgeView, old_r: Seq<Contribution>, r: Seq<Contribution>)
    requires
        aggregates(pre, old_r),
        forall|k: int| 0 <= k < old_r.len() ==> !(old_r[k].caller@ == e.0 && old_r[k].callee@ == e.1),
        r.len() == old_r.len() + 1,
        forall|k: int| 0 <= k < old_r.len() ==> r[k] == old_r[k],
        r[old_r.len() as int].caller@ == e.0 && r[old_r.len() as int].callee@ == e.1,
        r[old_r.len() as int].constraints == e.2,
        r[old_r.len() as int].package_num == crossing(e.0, e.1),
        e.2 <= usize::MAX,
    ensures
        aggregates(pre.push(e), r),
{
    lemma_push_absent(pre, e, old_r);
    lemma_push_sums(pre, e, old_r, r);
    lemma_push_complete(pre, e, old_r, r);
    lemma_push_sound(pre, e, old_r, r);
    lemma_push_unique(e, old_r, r);
}

proof fn lemma_push_absent(pre: Seq<EdgeView>, e: EdgeView, old_r: Seq<Contribution>)
    requires
        agg_complete(pre, old_r),
        forall|k: int| 0 <= k < old_r.len() ==> !(old_r[k].caller@ == e.0 && old_r[k].callee@ == e.1),
    ensures
        pair_sum(pre, e.0, e.1) == 0,
        pair_crossings(pre, e.0, e.1) == 0,
{
    assert forall|x: int| 0 <= x < pre.len() implies !(pre[x].0 == e.0 && pre[x].1 == e.1) by {
        let k = choose|k: int| 0 <= k < old_r.len() && old_r[k].caller@ == (#[trigger] pre[x]).0 && old_r[k].callee@ == pre[x].1;
    }
    lemma_pair_sum_absent(pre, e.0, e.1);
}

proof fn lemma_push_sums(pre: Seq<EdgeView>, e: EdgeView, old_r: Seq<Contribution>, r: Seq<Contribution>)
    requires
        agg_sums(pre, old_r),
        pair_sum(pre, e.0, e.1) == 0,
        pair_crossings(pre, e.0, e.1) == 0,
        r.len() == old_r.len() + 1,
        forall|k: int| 0 <= k < old_r.len() ==> r[k] == old_r[k],
        forall|k: int| 0 <= k < old_r.len() ==> !(old_r[k].caller@ == e.0 && old_r[k].callee@ == e.1),
        r[old_r.len() as int].caller@ == e.0 && r[old_r.len() as int].callee@ == e.1,
        r[old_r.len() as int].constraints == e.2,
        r[old_r.len() as int].package_num == crossing(e.0, e.1),
        e.2 <= usize::MAX,
    ensures
        agg_sums(pre.push(e), r),
{
    let post = pre.push(e);
    assert forall|k: int| 0 <= k < r.len() implies (#[trigger] r[k]).constraints == sat(
        pair_sum(post, r[k].caller@, r[k].callee@) as int,
    ) && r[k].package_num == sat(pair_crossings(post, r[k].caller@, r[k].callee@) as int) by {
        lemma_pair_sum_push(pre, e, r[k].caller@, r[k].callee@);
        if k < old_r.len() {
            assert(r[k] == old_r[k]);
        }
    }
}

proof fn lemma_push_complete(pre: Seq<EdgeView>, e: EdgeView, old_r: Seq<Contribution>, r: Seq<Contribution>)
    requires
        agg_complete(pre, old_r),
        r.len() == old_r.len() + 1,
        forall|k: int| 0 <= k < old_r.len() ==> r[k] == old_r[k],
        r[old_r.len() as int].caller@ == e.0 && r[old_r.len() as int].callee@ == e.1,
    ensures
        agg_complete(pre.push(e), r),
{
    let post = pre.push(e);
    assert forall|x: int| 0 <= x < post.len() implies exists|k: int|
        0 <= k < r.len() && r[k].caller@ == (#[trigger] post[x]).0 && r[k].callee@ == post[x].1 by {
        if x < pre.len() {
            assert(post[x] == pre[x]);
            let k = choose|k: int| 0 <= k < old_r.len() && old_r[k].caller@ == (#[trigger] pre[x]).0 && old_r[k].callee@ == pre[x].1;
            assert(r[k] == old_r[k]);
        } else {
            assert(post[x] == e);
            assert(r[old_r.len() as int].caller@ == e.0);
        }
    }
}

proof fn lemma_push_sound(pre: Seq<EdgeView>, e: EdgeView, old_r: Seq<Contribution>, r: Seq<Contribution>)
    requires
        agg_sound(pre, old_r),
        r.len() == old_r.len() + 1,
        forall|k: int| 0 <= k < old_r.len() ==> r[k] == old_r[k],
        r[old_r.len() as int].caller@ == e.0 && r[old_r.len() as int].callee@ == e.1,
    ensures
        agg_sound(pre.push(e), r),
{
    let post = pre.push(e);
    assert forall|k: int| 0 <= k < r.len() implies exists|x: int|
        0 <= x < post.len() && (#[trigger] r[k]).caller@ == post[x].0 && r[k].callee@ == post[x].1 by {
        if k == old_r.len() {
            assert(post[pre.len() as int] == e);
        } else {
            assert(r[k] == old_r[k]);
            let x = choose|x: int| 0 <= x < pre.len() && (#[trigger] old_r[k]).caller@ == pre[x].0 && old_r[k].callee@ == pre[x].1;
            assert(post[x] == pre[x]);
        }
    }
}

proof fn lemma_push_unique(e: EdgeView, old_r: Seq<Contribution>, r: Seq<Contribution>)
    requires
        agg_unique(old_r),
        forall|k: int| 0 <= k < old_r.len() ==> !(old_r[k].caller@ == e.0 && old_r[k].callee@ == e.1),
        r.len() == old_r.len() + 1,
        forall|k: int| 0 <= k < old_r.len() ==> r[k] == old_r[k],
        r[old_r.len() as int].caller@ == e.0 && r[old_r.len() as int].callee@ == e.1,
    ensures
        agg_unique(r),
{
    assert forall|ii: int, j: int| 0 <= ii < j < r.len() implies !(r[ii].caller@ == r[j].caller@
        && r[ii].callee@ == r[j].callee@) by {
        assert(r[ii] == old_r[ii]);
        if j < old_r.len() {
            assert(r[j] == old_r[j]);
        }
    }
}

/// A pair with no edge in `s` has a zero sum.
proof fn lemma_pair_sum_absent(s: Seq<EdgeView>, a: InstanceView, c: InstanceView)
    requires
        forall|x: int| 0 <= x < s.len() ==> !(s[x].0 == a && s[x].1 == c),
    ensures
        pair_sum(s, a, c) == 0,
        pair_crossings(s, a, c) == 0,
    decreases s.len(),
{
    if s.len() > 0 {
        let t = s.drop_last();
        assert forall|x: int| 0 <= x < t.len() implies !(t[x].0 == a && t[x].1 == c) by {
            assert(t[x] == s[x]);
        }
        lemma_pair_sum_absent(t, a, c);
    }
}

/// Distance recorded for `c`, when `c` is one of `nodes` and has one.
pub open spec fn node_dist(nodes: Seq<InstanceView>, dist: Seq<Option<usize>>, c: InstanceView) -> Option<nat> {
    if exists|i: int| 0 <= i < nodes.len() && nodes[i] == c {
        let i = choose|i: int| 0 <= i < nodes.len() && nodes[i] == c;
        match dist[i] {
            Some(d) => Some(d as nat),
            None => None,
        }
    } else {
        None
    }
}

/// Distance from which a caller of `c` is relaxed: 0 for a target.
pub open spec fn source(
    targets: Seq<InstanceView>,
    nodes: Seq<InstanceView>,
    dist: Seq<Option<usize>>,
    c: InstanceView,
) -> Option<nat> {
    if targets.contains(c) {
        Some(0)
    } else {
        node_dist(nodes, dist, c)
    }
}

/// Unit-crossing count that goes with `source`: 0 for a target.
pub open spec fn source_crossings(
    targets: Seq<InstanceView>,
    nodes: Seq<InstanceView>,
    units: Seq<usize>,
    c: InstanceView,
) -> nat {
    if targets.contains(c) {
        0
    } else {
        units[choose|i: int| 0 <= i < nodes.len() && nodes[i] == c] as nat
    }
}

/// The caller of `a` has a distance no greater than its callee's plus the weight of `a`.
pub open spec fn relaxed(
    targets: Seq<InstanceView>,
    nodes: Seq<InstanceView>,
    dist: Seq<Option<usize>>,
    a: Contribution,
) -> bool {
    match source(targets, nodes, dist, a.callee@) {
        Some(s) => node_dist(nodes, dist, a.caller@) is Some && node_dist(nodes, dist, a.caller@).unwrap()
            <= sat(s + a.constraints),
        None => true,
    }
}

/// Node `i`'s distance, if any, is at least that reached through some contribution.
pub open spec fn supported(
    targets: Seq<InstanceView>,
    nodes: Seq<InstanceView>,
    dist: Seq<Option<usize>>,
    agg: Seq<Contribution>,
    i: int,
) -> bool {
    dist[i] is Some ==> exists|k: int|
        0 <= k < agg.len() && agg[k].caller@ == nodes[i] && (#[trigger] source(targets, nodes, dist, agg[k].callee@)) is Some
            && dist[i].unwrap() >= sat(source(targets, nodes, dist, agg[k].callee@).unwrap() + agg[k].constraints)
}

/// Sum of the recorded distances.
pub open spec fn sum_some(s: Seq<Option<usize>>) -> nat
    decreases s.len(),
{
    if s.len() == 0 {
        0
    } else {
        sum_some(s.drop_last()) + match s.last() {
            Some(d) => d as nat,
            None => 0nat,
        }
    }
}

proof fn lemma_sum_some_lower(s: Seq<Option<usize>>, i: int, v: usize)
    requires
        0 <= i < s.len(),
        s[i] is Some,
        v < s[i].unwrap(),
    ensures
        sum_some(s.update(i, Some(v))) < sum_some(s),
        count_none(s.update(i, Some(v))) == count_none(s),
    decreases s.len(),
{
    let u = s.update(i, Some(v));
    if i == s.len() - 1 {
        assert(u.drop_last() =~= s.drop_last());
    } else {
        assert(u.drop_last() =~= s.drop_last().update(i, Some(v)));
        lemma_sum_some_lower(s.drop_last(), i, v);
    }
}

proof fn lemma_node_dist_at(nodes: Seq<InstanceView>, dist: Seq<Option<usize>>, i: int)
    requires
        crate::builder::distinct(nodes),
        dist.len() == nodes.len(),
        0 <= i < nodes.len(),
    ensures
        node_dist(nodes, dist, nodes[i]) == match dist[i] {
            Some(d) => Some(d as nat),
            None => None::<nat>,
        },
{
    let j = choose|j: int| 0 <= j < nodes.len() && nodes[j] == nodes[i];
    if j != i {
        if j < i {
            assert(nodes[j] != nodes[i]);
        } else {
            assert(nodes[i] != nodes[j]);
        }
    }
}

/// Lowering node `i`'s distance lowers or keeps every source, and adds none.
proof fn lemma_lower_sources(
    targets: Seq<InstanceView>,
    nodes: Seq<InstanceView>,
    dist: Seq<Option<usize>>,
    i: int,
    v: usize,
    c: InstanceView,
)
    requires
        crate::builder::distinct(nodes),
        dist.len() == nodes.len(),
        0 <= i < nodes.len(),
        dist[i] is None || v < dist[i].unwrap(),
    ensures
        source(targets, nodes, dist, c) is Some ==> source(targets, nodes, dist.update(i, Some(v)), c) is Some
            && source(targets, nodes, dist.update(i, Some(v)), c).unwrap() <= source(targets, nodes, dist, c).unwrap(),
        c != nodes[i] ==> node_dist(nodes, dist.update(i, Some(v)), c) == node_dist(nodes, dist, c),
        node_dist(nodes, dist.update(i, Some(v)), nodes[i]) == Some(v as nat),
{
    let u = dist.update(i, Some(v));
    lemma_node_dist_at(nodes, u, i);
    lemma_node_dist_at(nodes, dist, i);
    if exists|j: int| 0 <= j < nodes.len() && nodes[j] == c {
        let j = choose|j: int| 0 <= j < nodes.len() && nodes[j] == c;
        lemma_node_dist_at(nodes, u, j);
        lemma_node_dist_at(nodes, dist, j);
    }
}

/// `(a, b)` comes strictly before `(c, d)` lexicographically.
pub open spec fn lex_lt(a: nat, b: nat, c: nat, d: nat) -> bool {
    a < c || (a == c && b < d)
}

/// Every contribution's caller is one of `nodes`.
pub open spec fn callers_in(agg: Seq<Contribution>, nodes: Seq<InstanceView>) -> bool {
    forall|k: int| 0 <= k < agg.len() ==> nodes.contains(#[trigger] agg[k].caller@)
}

/// The distinct callers of `agg`, in order of first appearance.
fn collect_nodes(agg: &Vec<Contribution>) -> (r: Vec<FunctionInstance>)
    ensures
        crate::builder::distinct(views(r@)),
        callers_in(agg@, views(r@)),
{
    let mut r: Vec<FunctionInstance> = Vec::new();
    let mut k: usize = 0;
    while k < agg.len()
        invariant
            k <= agg@.len(),
            crate::builder::distinct(views(r@)),
            forall|j: int| 0 <= j < k ==> views(r@).contains(#[trigger] agg@[j].caller@),
        decreases agg@.len() - k,
    {
        let ghost old_r = views(r@);
        match position_of(&r, &agg[k].caller) {
            Some(p) => {
                assert(views(r@)[p as int] == agg@[k as int].caller@);
            },
            None => {
                r.push(agg[k].caller.copy());
                proof {
                    let nr = views(r@);
                    assert(nr =~= old_r.push(agg@[k as int].caller@));
                    assert forall|j: int| 0 <= j <= k implies nr.contains(#[trigger] agg@[j].caller@) by {
                        if j < k {
                            let w = choose|w: int| 0 <= w < old_r.len() && old_r[w] == agg@[j].caller@;
                            assert(nr[w] == old_r[w]);
                        } else {
                            assert(nr[old_r.len() as int] == agg@[j].caller@);
                        }
                    }
                    assert forall|a: int, b: int| 0 <= a < b < nr.len() implies nr[a] != nr[b] by {
                        if b == old_r.len() {
                            assert(nr[a] == old_r[a]);
                        }
                    }
                }
            },
        }
        k += 1;
    }
    r
}

/// Whether `x` is one of `s`.
fn contains_instance(s: &Vec<FunctionInstance>, x: &FunctionInstance) -> (r: bool)
    ensures
        r == views(s@).contains(x@),
{
    match position_of(s, x) {
        Some(p) => {
            assert(views(s@)[p as int] == x@);
            true
        },
        None => {
            assert(!views(s@).contains(x@)) by {
                if views(s@).contains(x@) {
                    let w = choose|w: int| 0 <= w < views(s@).len() && views(s@)[w] == x@;
                    assert(s@[w]@ == x@);
                }
            }
            false
        },
    }
}

/// The distance from which callers of `c` are relaxed, and its unit-crossing count.
fn source_of(
    targets: &Vec<FunctionInstance>,
    nodes: &Vec<FunctionInstance>,
    dist: &Vec<Option<usize>>,
    units: &Vec<usize>,
    c: &FunctionInstance,
) -> (r: Option<(usize, usize)>)
    requires
        crate::builder::distinct(views(nodes@)),
        dist@.len() == nodes@.len(),
        units@.len() == nodes@.len(),
    ensures
        r is Some <==> source(views(targets@), views(nodes@), dist@, c@) is Some,
        r is Some ==> r.unwrap().0 == source(views(targets@), views(nodes@), dist@, c@).unwrap(),
        r is Some ==> r.unwrap().1 == source_crossings(views(targets@), views(nodes@), units@, c@),
{
    if contains_instance(targets, c) {
        Some((0, 0))
    } else {
        match position_of(nodes, c) {
            Some(ci) => {
                proof {
                    assert(views(nodes@)[ci as int] == c@);
                    lemma_node_dist_at(views(nodes@), dist@, ci as int);
                    let nv = views(nodes@);
                    let w = choose|i: int| 0 <= i < nv.len() && nv[i] == c@;
                    if w != ci {
                        if w < ci {
                            assert(nv[w] != nv[ci as int]);
                        } else {
                            assert(nv[ci as int] != nv[w]);
                        }
                    }
                }
                match dist[ci] {
                    Some(d) => Some((d, units[ci])),
                    None => None,
                }
            },
            None => {
                assert(node_dist(views(nodes@), dist@, c@) is None) by {
                    if exists|i: int| 0 <= i < views(nodes@).len() && views(nodes@)[i] == c@ {
                        let i = choose|i: int| 0 <= i < views(nodes@).len() && views(nodes@)[i] == c@;
                        assert(nodes@[i]@ == c@);
                    }
                }
                None
            },
        }
    }
}

/// Lowering one distance keeps every node supported.
proof fn lemma_lower_keeps_support(
    targets: Seq<InstanceView>,
    nodes: Seq<InstanceView>,
    dist: Seq<Option<usize>>,
    agg: Seq<Contribution>,
    ai: int,
    v: usize,
    k: int,
)
    requires
        crate::builder::distinct(nodes),
        dist.len() == nodes.len(),
        0 <= ai < nodes.len(),
        dist[ai] is None || v < dist[ai].unwrap(),
        0 <= k < agg.len(),
        agg[k].caller@ == nodes[ai],
        source(targets, nodes, dist, agg[k].callee@) is Some,
        v == sat(source(targets, nodes, dist, agg[k].callee@).unwrap() + agg[k].constraints),
        forall|i: int| 0 <= i < nodes.len() ==> supported(targets, nodes, dist, agg, i),
    ensures
        forall|i: int| 0 <= i < nodes.len() ==> supported(targets, nodes, dist.update(ai, Some(v)), agg, i),
{
    let u = dist.update(ai, Some(v));
    assert forall|i: int| 0 <= i < nodes.len() implies supported(targets, nodes, u, agg, i) by {
        if i == ai {
            lemma_lower_sources(targets, nodes, dist, ai, v, agg[k].callee@);
            assert(source(targets, nodes, u, agg[k].callee@) is Some);
        } else if dist[i] is Some {
            assert(supported(targets, nodes, dist, agg, i));
            let k2 = choose|k2: int|
                0 <= k2 < agg.len() && agg[k2].caller@ == nodes[i] && (#[trigger] source(targets, nodes, dist, agg[k2].callee@)) is Some
                    && dist[i].unwrap() >= sat(source(targets, nodes, dist, agg[k2].callee@).unwrap() + agg[k2].constraints);
            lemma_lower_sources(targets, nodes, dist, ai, v, agg[k2].callee@);
            assert(u[i] == dist[i]);
            assert(source(targets, nodes, u, agg[k2].callee@) is Some);
        }
    }
}

/// Weight of the edge path `p` from position `i` on: the summed depths of the
/// pairs of its edges, added with a cap.
pub open spec fn agg_weight(edges: Seq<EdgeView>, p: Seq<int>, i: int) -> nat
    decreases p.len() - i,
{
    if i < 0 || i >= p.len() {
        0
    } else {
        sat(sat(pair_sum(edges, edges[p[i]].0, edges[p[i]].1) as int) + agg_weight(edges, p, i + 1) as int)
    }
}

/// Unit-crossing count of the edge path `p` from position `i` on: the summed
/// unit-crossing counts of the pairs of its edges, added with a cap.
pub open spec fn crossing_weight(edges: Seq<EdgeView>, p: Seq<int>, i: int) -> nat
    decreases p.len() - i,
{
    if i < 0 || i >= p.len() {
        0
    } else {
        sat(sat(pair_crossings(edges, edges[p[i]].0, edges[p[i]].1) as int) + crossing_weight(edges, p, i + 1) as int)
    }
}

/// Some path of edges leads from `x` into a target, with weight `d` and
/// unit-crossing count `u`.
pub open spec fn reaches_with(edges: Seq<EdgeView>, targets: Seq<InstanceView>, x: InstanceView, d: nat, u: nat) -> bool {
    exists|p: Seq<int>|
        crate::query::is_edge_path(edges, p) && edges[p[0]].0 == x && targets.contains(edges[p.last()].1)
            && #[trigger] agg_weight(edges, p, 0) == d && crossing_weight(edges, p, 0) == u
}

/// Every recorded distance is the weight of a path into a target.
pub open spec fn reach_ok(
    edges: Seq<EdgeView>,
    targets: Seq<InstanceView>,
    nodes: Seq<InstanceView>,
    dist: Seq<Option<usize>>,
    units: Seq<usize>,
) -> bool {
    forall|i: int|
        0 <= i < nodes.len() && dist[i] is Some ==> reaches_with(
            edges,
            targets,
            #[trigger] nodes[i],
            dist[i].unwrap() as nat,
            units[i] as nat,
        )
}

proof fn lemma_agg_weight_shift(edges: Seq<EdgeView>, e: int, p: Seq<int>, i: int)
    requires
        0 <= i <= p.len(),
    ensures
        agg_weight(edges, seq![e] + p, i + 1) == agg_weight(edges, p, i),
        crossing_weight(edges, seq![e] + p, i + 1) == crossing_weight(edges, p, i),
    decreases p.len() - i,
{
    let q = seq![e] + p;
    if i < p.len() {
        assert(q[i + 1] == p[i]);
        lemma_agg_weight_shift(edges, e, p, i + 1);
    }
}

proof fn lemma_reach_single(edges: Seq<EdgeView>, targets: Seq<InstanceView>, e: int)
    requires
        0 <= e < edges.len(),
        targets.contains(edges[e].1),
    ensures
        reaches_with(
            edges,
            targets,
            edges[e].0,
            sat(sat(pair_sum(edges, edges[e].0, edges[e].1) as int) + 0int),
            sat(sat(pair_crossings(edges, edges[e].0, edges[e].1) as int) + 0int),
        ),
{
    let p = seq![e];
    assert(agg_weight(edges, p, 1) == 0);
    assert(crossing_weight(edges, p, 1) == 0);
    assert(p.last() == e);
    assert(crate::query::is_edge_path(edges, p));
    assert(agg_weight(edges, p, 0) == sat(sat(pair_sum(edges, edges[e].0, edges[e].1) as int) + 0int));
}

proof fn lemma_reach_prepend(edges: Seq<EdgeView>, targets: Seq<InstanceView>, e: int, c: InstanceView, s: nat, su: nat)
    requires
        0 <= e < edges.len(),
        edges[e].1 == c,
        reaches_with(edges, targets, c, s, su),
    ensures
        reaches_with(
            edges,
            targets,
            edges[e].0,
            sat(sat(pair_sum(edges, edges[e].0, edges[e].1) as int) + s as int),
            sat(sat(pair_crossings(edges, edges[e].0, edges[e].1) as int) + su as int),
        ),
{
    let p = choose|p: Seq<int>|
        crate::query::is_edge_path(edges, p) && edges[p[0]].0 == c && targets.contains(edges[p.last()].1)
            && #[trigger] agg_weight(edges, p, 0) == s && crossing_weight(edges, p, 0) == su;
    let q = seq![e] + p;
    lemma_agg_weight_shift(edges, e, p, 0);
    assert(q[0] == e);
    assert(q.last() == p.last());
    assert forall|i: int| 0 <= i < q.len() implies 0 <= #[trigger] q[i] < edges.len() by {
        if i > 0 {
            assert(q[i] == p[i - 1]);
        }
    }
    assert forall|i: int| 0 <= i < q.len() - 1 implies edges[#[trigger] q[i]].1 == edges[q[i + 1]].0 by {
        if i > 0 {
            assert(q[i] == p[i - 1] && q[i + 1] == p[i]);
        } else {
            assert(q[1] == p[0]);
        }
    }
    assert(agg_weight(edges, q, 0) == sat(sat(pair_sum(edges, edges[e].0, edges[e].1) as int) + s as int));
    assert(crossing_weight(edges, q, 0) == sat(sat(pair_crossings(edges, edges[e].0, edges[e].1) as int) + su as int));
}

/// Lowering one distance through contribution `k` keeps every distance the
/// weight of a path into a target.
proof fn lemma_lower_keeps_reach(
    edges: Seq<EdgeView>,
    targets: Seq<InstanceView>,
    nodes: Seq<InstanceView>,
    dist: Seq<Option<usize>>,
    units: Seq<usize>,
    agg: Seq<Contribution>,
    ai: int,
    v: usize,
    cu: usize,
    k: int,
)
    requires
        agg_sound(edges, agg),
        agg_sums(edges, agg),
        units.len() == nodes.len(),
        cu == sat(source_crossings(targets, nodes, units, agg[k].callee@) + agg[k].package_num),
        crate::builder::distinct(nodes),
        dist.len() == nodes.len(),
        0 <= ai < nodes.len(),
        0 <= k < agg.len(),
        agg[k].caller@ == nodes[ai],
        source(targets, nodes, dist, agg[k].callee@) is Some,
        v == sat(source(targets, nodes, dist, agg[k].callee@).unwrap() + agg[k].constraints),
        reach_ok(edges, targets, nodes, dist, units),
    ensures
        reach_ok(edges, targets, nodes, dist.update(ai, Some(v)), units.update(ai, cu)),
{
    let u = dist.update(ai, Some(v));
    let uu = units.update(ai, cu);
    let c = agg[k].callee@;
    let e = choose|e: int| 0 <= e < edges.len() && (#[trigger] agg[k]).caller@ == edges[e].0 && agg[k].callee@ == edges[e].1;
    assert(agg[k].constraints == sat(pair_sum(edges, agg[k].caller@, agg[k].callee@) as int));
    assert(agg[k].package_num == sat(pair_crossings(edges, agg[k].caller@, agg[k].callee@) as int));
    if targets.contains(c) {
        lemma_reach_single(edges, targets, e);
    } else {
        let s = source(targets, nodes, dist, c).unwrap();
        let ci = choose|i: int| 0 <= i < nodes.len() && nodes[i] == c;
        lemma_node_dist_at(nodes, dist, ci);
        assert(reaches_with(edges, targets, nodes[ci], dist[ci].unwrap() as nat, units[ci] as nat));
        lemma_reach_prepend(edges, targets, e, c, s, units[ci] as nat);
    }
    assert forall|i: int| 0 <= i < nodes.len() && u[i] is Some implies reaches_with(
        edges,
        targets,
        #[trigger] nodes[i],
        u[i].unwrap() as nat,
        uu[i] as nat,
    ) by {
        if i != ai {
            assert(u[i] == dist[i]);
            assert(uu[i] == units[i]);
        }
    }
}

/// One pass of relaxation over every contribution. Reports whether a distance
/// was set or lowered; when none was, every contribution is relaxed.
fn relax_pass(
    edges: Ghost<Seq<EdgeView>>,
    agg: &Vec<Contribution>,
    targets: &Vec<FunctionInstance>,
    nodes: &Vec<FunctionInstance>,
    dist: &mut Vec<Option<usize>>,
    units: &mut Vec<usize>,
) -> (changed: bool)
    requires
        agg_sound(edges@, agg@),
        agg_sums(edges@, agg@),
        reach_ok(edges@, views(targets@), views(nodes@), old(dist)@, old(units)@),
        crate::builder::distinct(views(nodes@)),
        callers_in(agg@, views(nodes@)),
        old(dist)@.len() == nodes@.len(),
        old(units)@.len() == nodes@.len(),
        forall|i: int| 0 <= i < nodes@.len() ==> supported(views(targets@), views(nodes@), old(dist)@, agg@, i),
    ensures
        final(dist)@.len() == nodes@.len(),
        final(units)@.len() == nodes@.len(),
        reach_ok(edges@, views(targets@), views(nodes@), final(dist)@, final(units)@),
        forall|i: int| 0 <= i < nodes@.len() ==> supported(views(targets@), views(nodes@), final(dist)@, agg@, i),
        !changed ==> final(dist)@ == old(dist)@,
        !changed ==> forall|k: int| 0 <= k < agg@.len() ==> relaxed(views(targets@), views(nodes@), final(dist)@, #[trigger] agg@[k]),
        changed ==> lex_lt(count_none(final(dist)@), sum_some(final(dist)@), count_none(old(dist)@), sum_some(old(dist)@)),
{
    let ghost tv = views(targets@);
    let ghost nv = views(nodes@);
    let ghost start = dist@;
    let mut changed = false;
    let mut k: usize = 0;
    while k < agg.len()
        invariant
            tv == views(targets@),
            nv == views(nodes@),
            agg_sound(edges@, agg@),
            agg_sums(edges@, agg@),
            reach_ok(edges@, tv, nv, dist@, units@),
            crate::builder::distinct(nv),
            callers_in(agg@, nv),
            dist@.len() == nodes@.len(),
            units@.len() == nodes@.len(),
            k <= agg@.len(),
            forall|i: int| 0 <= i < nodes@.len() ==> supported(tv, nv, dist@, agg@, i),
            !changed ==> dist@ == start,
            !changed ==> forall|j: int| 0 <= j < k ==> relaxed(tv, nv, dist@, #[trigger] agg@[j]),
            changed ==> lex_lt(count_none(dist@), sum_some(dist@), count_none(start), sum_some(start)),
        decreases agg@.len() - k,
    {
        let a = &agg[k];
        match source_of(targets, nodes, dist, units, &a.callee) {
            Some((s, su)) => {
                let cand = sat_add(s, a.constraints);
                let cu = sat_add(su, a.package_num);
                assert(nv.contains(agg@[k as int].caller@));
                match position_of(nodes, &a.caller) {
                    Some(ai) => {
                        proof {
                            lemma_node_dist_at(nv, dist@, ai as int);
                        }
                        let lower = match dist[ai] {
                            Some(d) => cand < d,
                            None => true,
                        };
                        if lower {
                            let ghost before = dist@;
                            proof {
                                lemma_lower_keeps_support(tv, nv, before, agg@, ai as int, cand, k as int);
                                lemma_lower_keeps_reach(edges@, tv, nv, before, units@, agg@, ai as int, cand, cu, k as int);
                                match before[ai as int] {
                                    Some(d) => {
                                        lemma_sum_some_lower(before, ai as int, cand);
                                    },
                                    None => {
                                        lemma_count_none_fill(before, ai as int, Some(cand));
                                    },
                                }
                            }
                            dist.set(ai, Some(cand));
                            units.set(ai, cu);
                            changed = true;
                        }
                    },
                    None => {
                        proof {
                            let w = choose|w: int| 0 <= w < nv.len() && nv[w] == agg@[k as int].caller@;
                            assert(nodes@[w]@ == a.caller@);
                        }
                    },
                }
            },
            None => {},
        }
        k += 1;
    }
    changed
}

/// `p` is node `x` of `nv[0..n]`, with its distance and unit-crossing count.
pub open spec fn from_node(nv: Seq<InstanceView>, dist: Seq<Option<usize>>, units: Seq<usize>, n: int, p: PathInfo) -> bool {
    exists|x: int| 0 <= x < n && nv[x] == p.caller@ && dist[x] == Some(p.constraints) && units[x] == p.package_num
}

/// Some entry of `res` reports `v` with distance `d`.
pub open spec fn in_res(res: Seq<PathInfo>, v: InstanceView, d: Option<usize>) -> bool {
    exists|j: int| 0 <= j < res.len() && res[j].caller@ == v && d == Some(res[j].constraints)
}

/// The facts that tie the reported callers to the distances of `nv[0..n]`.
pub open spec fn reported_upto(nv: Seq<InstanceView>, dist: Seq<Option<usize>>, units: Seq<usize>, res: Seq<PathInfo>, n: int) -> bool {
    &&& forall|j: int| 0 <= j < res.len() ==> from_node(nv, dist, units, n, #[trigger] res[j])
    &&& forall|x: int| 0 <= x < n && dist[x] is Some ==> in_res(res, #[trigger] nv[x], dist[x])
    &&& distinct_callers(res)
}

/// The facts that tie the reported callers to the node distances.
pub open spec fn reported(nv: Seq<InstanceView>, dist: Seq<Option<usize>>, units: Seq<usize>, res: Seq<PathInfo>) -> bool {
    reported_upto(nv, dist, units, res, nv.len() as int)
}

proof fn lemma_reported_skip(nv: Seq<InstanceView>, dist: Seq<Option<usize>>, units: Seq<usize>, res: Seq<PathInfo>, i: int)
    requires
        reported_upto(nv, dist, units, res, i),
        0 <= i < nv.len(),
        i < dist.len(),
        dist[i] is None,
    ensures
        reported_upto(nv, dist, units, res, i + 1),
{
    assert forall|j: int| 0 <= j < res.len() implies from_node(nv, dist, units, i + 1, #[trigger] res[j]) by {
        assert(from_node(nv, dist, units, i, res[j]));
        let x = choose|x: int| 0 <= x < i && nv[x] == res[j].caller@ && dist[x] == Some(res[j].constraints) && units[x] == res[j].package_num;
    }
}

proof fn lemma_reported_push(
    nv: Seq<InstanceView>,
    dist: Seq<Option<usize>>,
    units: Seq<usize>,
    old_res: Seq<PathInfo>,
    res: Seq<PathInfo>,
    i: int,
)
    requires
        reported_upto(nv, dist, units, old_res, i),
        crate::builder::distinct(nv),
        0 <= i < nv.len(),
        i < dist.len(),
        dist[i] is Some,
        res.len() == old_res.len() + 1,
        forall|j: int| 0 <= j < old_res.len() ==> res[j] == old_res[j],
        res[old_res.len() as int].caller@ == nv[i],
        dist[i] == Some(res[old_res.len() as int].constraints),
        units[i] == res[old_res.len() as int].package_num,
    ensures
        reported_upto(nv, dist, units, res, i + 1),
{
    let n = old_res.len() as int;
    assert forall|j: int| 0 <= j < res.len() implies from_node(nv, dist, units, i + 1, #[trigger] res[j]) by {
        if j < n {
            assert(res[j] == old_res[j]);
            assert(from_node(nv, dist, units, i, old_res[j]));
            let x = choose|x: int| 0 <= x < i && nv[x] == old_res[j].caller@ && dist[x] == Some(old_res[j].constraints) && units[x] == old_res[j].package_num;
        } else {
            assert(nv[i] == res[j].caller@);
        }
    }
    assert forall|x: int| 0 <= x < i + 1 && dist[x] is Some implies in_res(res, #[trigger] nv[x], dist[x]) by {
        if x < i {
            assert(in_res(old_res, nv[x], dist[x]));
            let j = choose|j: int| 0 <= j < old_res.len() && old_res[j].caller@ == nv[x] && dist[x] == Some(old_res[j].constraints);
            assert(res[j] == old_res[j]);
        } else {
            assert(res[n].caller@ == nv[x]);
        }
    }
    assert forall|a: int, b: int| 0 <= a < b < res.len() implies res[a].caller@ != res[b].caller@ by {
        assert(res[a] == old_res[a]);
        if b < n {
            assert(res[b] == old_res[b]);
        } else {
            assert(from_node(nv, dist, units, i, old_res[a]));
            let x = choose|x: int| 0 <= x < i && nv[x] == old_res[a].caller@ && dist[x] == Some(old_res[a].constraints) && units[x] == old_res[a].package_num;
            assert(nv[x] != nv[i]);
        }
    }
}

proof fn lemma_reported_node(nv: Seq<InstanceView>, dist: Seq<Option<usize>>, units: Seq<usize>, res: Seq<PathInfo>, a: InstanceView)
    requires
        reported(nv, dist, units, res),
        dist.len() == nv.len(),
        crate::builder::distinct(nv),
        node_dist(nv, dist, a) is Some,
    ensures
        exists|j: int| 0 <= j < res.len() && res[j].caller@ == a && res[j].constraints == node_dist(nv, dist, a).unwrap(),
{
    let i = choose|i: int| 0 <= i < nv.len() && nv[i] == a;
    lemma_node_dist_at(nv, dist, i);
    assert(dist[i] is Some);
    assert(in_res(res, nv[i], dist[i]));
    let j = choose|j: int| 0 <= j < res.len() && res[j].caller@ == nv[i] && dist[i] == Some(res[j].constraints);
}

proof fn lemma_reported_res(nv: Seq<InstanceView>, dist: Seq<Option<usize>>, units: Seq<usize>, res: Seq<PathInfo>, j: int)
    requires
        reported(nv, dist, units, res),
        crate::builder::distinct(nv),
        dist.len() == nv.len(),
        0 <= j < res.len(),
    ensures
        node_dist(nv, dist, res[j].caller@) == Some(res[j].constraints as nat),
{
    assert(from_node(nv, dist, units, nv.len() as int, res[j]));
    let x = choose|x: int| 0 <= x < nv.len() && nv[x] == res[j].caller@ && dist[x] == Some(res[j].constraints) && units[x] == res[j].package_num;
    lemma_node_dist_at(nv, dist, x);
}

proof fn lemma_translate_closed(
    ev: Seq<EdgeView>,
    tv: Seq<InstanceView>,
    agg: Seq<Contribution>,
    nv: Seq<InstanceView>,
    dist: Seq<Option<usize>>,
    units: Seq<usize>,
    res: Seq<PathInfo>,
)
    requires
        aggregates(ev, agg),
        crate::builder::distinct(nv),
        dist.len() == nv.len(),
        forall|k: int| 0 <= k < agg.len() ==> relaxed(tv, nv, dist, #[trigger] agg[k]),
        reported(nv, dist, units, res),
    ensures
        reverse_closed(ev, tv, res),
{
    assert forall|e: int| 0 <= e < ev.len() && tv.contains(#[trigger] ev[e].1) implies exists|j: int|
        0 <= j < res.len() && res[j].caller@ == ev[e].0 && res[j].constraints <= sat(
            pair_sum(ev, ev[e].0, ev[e].1) as int,
        ) by {
        let k = choose|k: int| 0 <= k < agg.len() && agg[k].caller@ == (#[trigger] ev[e]).0 && agg[k].callee@ == ev[e].1;
        assert(relaxed(tv, nv, dist, agg[k]));
        assert(agg[k].constraints == sat(pair_sum(ev, agg[k].caller@, agg[k].callee@) as int));
        lemma_reported_node(nv, dist, units, res, ev[e].0);
    }
    assert forall|e: int, j: int|
        0 <= e < ev.len() && 0 <= j < res.len() && #[trigger] res[j].caller@ == #[trigger] ev[e].1
        implies exists|j2: int|
        0 <= j2 < res.len() && res[j2].caller@ == ev[e].0 && res[j2].constraints <= sat(
            res[j].constraints + sat(pair_sum(ev, ev[e].0, ev[e].1) as int),
        ) by {
        let k = choose|k: int| 0 <= k < agg.len() && agg[k].caller@ == (#[trigger] ev[e]).0 && agg[k].callee@ == ev[e].1;
        assert(relaxed(tv, nv, dist, agg[k]));
        assert(agg[k].constraints == sat(pair_sum(ev, agg[k].caller@, agg[k].callee@) as int));
        lemma_reported_res(nv, dist, units, res, j);
        lemma_reported_node(nv, dist, units, res, ev[e].0);
    }
}

proof fn lemma_translate_supported(
    ev: Seq<EdgeView>,
    tv: Seq<InstanceView>,
    agg: Seq<Contribution>,
    nv: Seq<InstanceView>,
    dist: Seq<Option<usize>>,
    units: Seq<usize>,
    res: Seq<PathInfo>,
)
    requires
        aggregates(ev, agg),
        crate::builder::distinct(nv),
        dist.len() == nv.len(),
        forall|i: int| 0 <= i < nv.len() ==> supported(tv, nv, dist, agg, i),
        reported(nv, dist, units, res),
    ensures
        reverse_supported(ev, tv, res),
{
    assert forall|j: int| 0 <= j < res.len() implies exists|e: int|
        0 <= e < ev.len() && ev[e].0 == (#[trigger] res[j]).caller@ && ((tv.contains(ev[e].1)
            && res[j].constraints >= sat(pair_sum(ev, ev[e].0, ev[e].1) as int)) || exists|j2: int|
            0 <= j2 < res.len() && res[j2].caller@ == ev[e].1 && res[j].constraints >= sat(
                res[j2].constraints + sat(pair_sum(ev, ev[e].0, ev[e].1) as int),
            )) by {
        assert(from_node(nv, dist, units, nv.len() as int, res[j]));
        let x = choose|x: int| 0 <= x < nv.len() && nv[x] == res[j].caller@ && dist[x] == Some(res[j].constraints) && units[x] == res[j].package_num;
        assert(supported(tv, nv, dist, agg, x));
        let k = choose|k: int|
            0 <= k < agg.len() && agg[k].caller@ == nv[x] && (#[trigger] source(tv, nv, dist, agg[k].callee@)) is Some
                && dist[x].unwrap() >= sat(source(tv, nv, dist, agg[k].callee@).unwrap() + agg[k].constraints);
        let e = choose|e: int| 0 <= e < ev.len() && (#[trigger] agg[k]).caller@ == ev[e].0 && agg[k].callee@ == ev[e].1;
        assert(agg[k].constraints == sat(pair_sum(ev, agg[k].caller@, agg[k].callee@) as int));
        if !tv.contains(ev[e].1) {
            lemma_reported_node(nv, dist, units, res, ev[e].1);
        }
    }
}

/// Every caller reported is reported with the weight and the unit-crossing count
/// of one path of edges from it into a target.
pub open spec fn reverse_reaching(edges: Seq<EdgeView>, targets: Seq<InstanceView>, res: Seq<PathInfo>) -> bool {
    forall|j: int|
        0 <= j < res.len() ==> reaches_with(
            edges,
            targets,
            (#[trigger] res[j]).caller@,
            res[j].constraints as nat,
            res[j].package_num as nat,
        )
}

proof fn lemma_translate_reach(
    ev: Seq<EdgeView>,
    tv: Seq<InstanceView>,
    nv: Seq<InstanceView>,
    dist: Seq<Option<usize>>,
    units: Seq<usize>,
    res: Seq<PathInfo>,
)
    requires
        dist.len() == nv.len(),
        reach_ok(ev, tv, nv, dist, units),
        reported(nv, dist, units, res),
    ensures
        reverse_reaching(ev, tv, res),
{
    assert forall|j: int| 0 <= j < res.len() implies reaches_with(
        ev,
        tv,
        (#[trigger] res[j]).caller@,
        res[j].constraints as nat,
        res[j].package_num as nat,
    ) by {
        assert(from_node(nv, dist, units, nv.len() as int, res[j]));
        let x = choose|x: int| 0 <= x < nv.len() && nv[x] == res[j].caller@ && dist[x] == Some(res[j].constraints) && units[x] == res[j].package_num;
        assert(reaches_with(ev, tv, nv[x], dist[x].unwrap() as nat, units[x] as nat));
    }
}

/// A transitive caller found by a reverse-reachability query.
#[derive(Debug)]
pub struct PathInfo {
    pub caller: FunctionInstance,
    /// Accumulated constraint depth on the least constrained path found.
    pub constraints: usize,
    /// Number of edges along that path whose caller and callee lie in
    /// different compilation units.
    pub package_num: usize,
}

/// Every edge into a target, or into a caller found, makes its caller found,
/// with an accumulated depth no greater than through that edge.
pub open spec fn reverse_closed(edges: Seq<EdgeView>, targets: Seq<InstanceView>, res: Seq<PathInfo>) -> bool {
    &&& forall|e: int|
        0 <= e < edges.len() && targets.contains(#[trigger] edges[e].1) ==> exists|j: int|
            0 <= j < res.len() && res[j].caller@ == edges[e].0 && res[j].constraints <= sat(
                pair_sum(edges, edges[e].0, edges[e].1) as int,
            )
    &&& forall|e: int, j: int|
        0 <= e < edges.len() && 0 <= j < res.len() && #[trigger] res[j].caller@ == #[trigger] edges[e].1
            ==> exists|j2: int|
            0 <= j2 < res.len() && res[j2].caller@ == edges[e].0 && res[j2].constraints <= sat(
                res[j].constraints + sat(pair_sum(edges, edges[e].0, edges[e].1) as int),
            )
}

/// Every caller found is found through one of its edges: into a target, or into
/// another caller found, with an accumulated depth at least through that edge.
pub open spec fn reverse_supported(edges: Seq<EdgeView>, targets: Seq<InstanceView>, res: Seq<PathInfo>) -> bool {
    forall|j: int|
        0 <= j < res.len() ==> exists|e: int|
            0 <= e < edges.len() && edges[e].0 == (#[trigger] res[j]).caller@ && ((targets.contains(
                edges[e].1,
            ) && res[j].constraints >= sat(pair_sum(edges, edges[e].0, edges[e].1) as int))
                || exists|j2: int|
                0 <= j2 < res.len() && res[j2].caller@ == edges[e].1 && res[j].constraints >= sat(
                    res[j2].constraints + sat(pair_sum(edges, edges[e].0, edges[e].1) as int),
                ))
}

/// No caller occurs twice.
pub open spec fn distinct_callers(res: Seq<PathInfo>) -> bool {
    forall|a: int, b: int| 0 <= a < b < res.len() ==> res[a].caller@ != res[b].caller@
}

impl CallGraph {
    /// All instances that call one of `targets`, directly or transitively, each
    /// with the least accumulated constraint depth over the paths found (edges
    /// of one caller-callee pair weigh the sum of their depths). `None` when
    /// there are no targets or no callers.
    pub fn find_callers(&self, targets: &Vec<FunctionInstance>) -> (r: Option<Vec<PathInfo>>)
        ensures
            r is Some ==> r.unwrap()@.len() > 0 && distinct_callers(r.unwrap()@)
                && reverse_closed(edge_views(self.call_sites@), views(targets@), r.unwrap()@)
                && reverse_supported(edge_views(self.call_sites@), views(targets@), r.unwrap()@)
                && reverse_reaching(edge_views(self.call_sites@), views(targets@), r.unwrap()@),
            r is None ==> targets@.len() == 0 || reverse_closed(
                edge_views(self.call_sites@),
                views(targets@),
                Seq::empty(),
            ),
    {
        if targets.len() == 0 {
            return None;
        }
        let ghost ev = edge_views(self.call_sites@);
        let ghost tv = views(targets@);
        let agg = aggregate(&self.call_sites);
        let nodes = collect_nodes(&agg);
        let ghost nv = views(nodes@);
        let mut dist: Vec<Option<usize>> = Vec::new();
        let mut units: Vec<usize> = Vec::new();
        let mut i: usize = 0;
        while i < nodes.len()
            invariant
                i <= nodes@.len(),
                dist@.len() == i,
                units@.len() == i,
                forall|j: int| 0 <= j < i ==> dist@[j] is None,
            decreases nodes@.len() - i,
        {
            dist.push(None);
            units.push(0);
            i += 1;
        }
        loop
            invariant
                nv == views(nodes@),
                tv == views(targets@),
                crate::builder::distinct(nv),
                callers_in(agg@, nv),
                dist@.len() == nodes@.len(),
                units@.len() == nodes@.len(),
                aggregates(ev, agg@),
                reach_ok(ev, tv, nv, dist@, units@),
                forall|i: int| 0 <= i < nodes@.len() ==> supported(tv, nv, dist@, agg@, i),
            ensures
                dist@.len() == nodes@.len(),
                units@.len() == nodes@.len(),
                reach_ok(ev, tv, nv, dist@, units@),
                forall|i: int| 0 <= i < nodes@.len() ==> supported(tv, nv, dist@, agg@, i),
                forall|k: int| 0 <= k < agg@.len() ==> relaxed(tv, nv, dist@, #[trigger] agg@[k]),
            decreases count_none(dist@), sum_some(dist@),
        {
            let changed = relax_pass(Ghost(ev), &agg, targets, &nodes, &mut dist, &mut units);
            if !changed {
                break;
            }
        }
        let mut res: Vec<PathInfo> = Vec::new();
        let mut i: usize = 0;
        while i < nodes.len()
            invariant
                nv == views(nodes@),
                crate::builder::distinct(nv),
                dist@.len() == nodes@.len(),
                units@.len() == nodes@.len(),
                i <= nodes@.len(),
                reported_upto(nv, dist@, units@, res@, i as int),
            decreases nodes@.len() - i,
        {
            match dist[i] {
                Some(d) => {
                    let ghost old_res = res@;
                    res.push(PathInfo { caller: nodes[i].copy(), constraints: d, package_num: units[i] });
                    proof {
                        lemma_reported_push(nv, dist@, units@, old_res, res@, i as int);
                    }
                },
                None => {
                    proof {
                        lemma_reported_skip(nv, dist@, units@, res@, i as int);
                    }
                },
            }
            i += 1;
        }
        proof {
            lemma_translate_reach(ev, tv, nv, dist@, units@, res@);
            lemma_translate_closed(ev, tv, agg@, nv, dist@, units@, res@);
            lemma_translate_supported(ev, tv, agg@, nv, dist@, units@, res@);
            assert(reported(nv, dist@, units@, res@));
        }
        if res.len() == 0 {
            None
        } else {
            Some(res)
        }
    }
}

/// Sum of the depths of the edges that `path` names, from position `i` on.
pub open spec fn path_depth(edges: Seq<EdgeView>, path: Seq<int>, i: int) -> nat
    decreases path.len() - i,
{
    if i < 0 || i >= path.len() {
        0
    } else {
        edges[path[i]].2 + path_depth(edges, path, i + 1)
    }
}

/// `path` names edges of `edges`, each one's callee the next one's caller.
pub open spec fn is_edge_path(edges: Seq<EdgeView>, path: Seq<int>) -> bool {
    &&& path.len() >= 1
    &&& forall|i: int| 0 <= i < path.len() ==> 0 <= #[trigger] path[i] < edges.len()
    &&& forall|i: int| 0 <= i < path.len() - 1 ==> edges[#[trigger] path[i]].1 == edges[path[i + 1]].0
}

proof fn lemma_pair_sum_unique(edges: Seq<EdgeView>, e: int)
    requires
        crate::graph::unique_pairs(edges),
        0 <= e < edges.len(),
    ensures
        pair_sum(edges, edges[e].0, edges[e].1) == edges[e].2,
    decreases edges.len(),
{
    let t = edges.drop_last();
    let last = edges.len() - 1;
    if e == last {
        assert forall|x: int| 0 <= x < t.len() implies !(t[x].0 == edges[e].0 && t[x].1 == edges[e].1) by {
            assert(t[x] == edges[x]);
            assert(!crate::graph::same_pair(edges[x], edges[e]));
        }
        lemma_pair_sum_absent(t, edges[e].0, edges[e].1);
    } else {
        assert forall|a: int, b: int| 0 <= a < t.len() && 0 <= b < t.len() && a != b implies !#[trigger] crate::graph::same_pair(t[a], t[b]) by {
            assert(t[a] == edges[a] && t[b] == edges[b]);
            assert(!crate::graph::same_pair(edges[a], edges[b]));
        }
        assert(t[e] == edges[e]);
        lemma_pair_sum_unique(t, e);
        assert(!crate::graph::same_pair(edges[last], edges[e]));
    }
}

proof fn lemma_reverse_suffix(edges: Seq<EdgeView>, targets: Seq<InstanceView>, res: Seq<PathInfo>, path: Seq<int>, i: int)
    requires
        crate::graph::unique_pairs(edges),
        reverse_closed(edges, targets, res),
        is_edge_path(edges, path),
        targets.contains(edges[path.last()].1),
        0 <= i < path.len(),
    ensures
        exists|j: int|
            0 <= j < res.len() && res[j].caller@ == edges[path[i]].0 && res[j].constraints <= path_depth(edges, path, i),
    decreases path.len() - i,
{
    let e = path[i];
    assert(0 <= e < edges.len());
    lemma_pair_sum_unique(edges, e);
    if i == path.len() - 1 {
        assert(targets.contains(edges[e].1));
        let j = choose|j: int|
            0 <= j < res.len() && res[j].caller@ == edges[e].0 && res[j].constraints <= sat(
                pair_sum(edges, edges[e].0, edges[e].1) as int,
            );
        assert(path_depth(edges, path, i + 1) == 0);
    } else {
        lemma_reverse_suffix(edges, targets, res, path, i + 1);
        let j = choose|j: int|
            0 <= j < res.len() && res[j].caller@ == edges[path[i + 1]].0 && res[j].constraints <= path_depth(edges, path, i + 1);
        assert(edges[path[i]].1 == edges[path[i + 1]].0);
        assert(res[j].caller@ == edges[e].1);
        let j2 = choose|j2: int|
            0 <= j2 < res.len() && res[j2].caller@ == edges[e].0 && res[j2].constraints <= sat(
                res[j].constraints + sat(pair_sum(edges, edges[e].0, edges[e].1) as int),
            );
        assert(res[j2].constraints <= path_depth(edges, path, i));
    }
}

/// Reverse-reachability soundness: when a path of edges leads from `A` into a
/// target, and no two edges share a caller-callee pair, `A` is among the callers
/// found, with an accumulated depth at most the sum of the depths along the path.
pub proof fn lemma_reverse_reachability(
    edges: Seq<EdgeView>,
    targets: Seq<InstanceView>,
    res: Seq<PathInfo>,
    path: Seq<int>,
)
    requires
        crate::graph::unique_pairs(edges),
        reverse_closed(edges, targets, res),
        is_edge_path(edges, path),
        targets.contains(edges[path.last()].1),
    ensures
        exists|j: int|
            0 <= j < res.len() && res[j].caller@ == edges[path[0]].0 && res[j].constraints <= path_depth(edges, path, 0),
{
    lemma_reverse_suffix(edges, targets, res, path, 0);
}

proof fn lemma_reverse_bound_suffix(edges: Seq<EdgeView>, targets: Seq<InstanceView>, res: Seq<PathInfo>, path: Seq<int>, i: int)
    requires
        reverse_closed(edges, targets, res),
        is_edge_path(edges, path),
        targets.contains(edges[path.last()].1),
        0 <= i < path.len(),
    ensures
        exists|j: int|
            0 <= j < res.len() && res[j].caller@ == edges[path[i]].0 && res[j].constraints <= agg_weight(edges, path, i),
    decreases path.len() - i,
{
    let e = path[i];
    assert(0 <= e < edges.len());
    if i == path.len() - 1 {
        assert(targets.contains(edges[e].1));
        assert(agg_weight(edges, path, i + 1) == 0);
        let j = choose|j: int|
            0 <= j < res.len() && res[j].caller@ == edges[e].0 && res[j].constraints <= sat(
                pair_sum(edges, edges[e].0, edges[e].1) as int,
            );
        assert(res[j].constraints <= agg_weight(edges, path, i));
    } else {
        lemma_reverse_bound_suffix(edges, targets, res, path, i + 1);
        let j = choose|j: int|
            0 <= j < res.len() && res[j].caller@ == edges[path[i + 1]].0 && res[j].constraints <= agg_weight(edges, path, i + 1);
        assert(edges[path[i]].1 == edges[path[i + 1]].0);
        assert(res[j].caller@ == edges[e].1);
        let j2 = choose|j2: int|
            0 <= j2 < res.len() && res[j2].caller@ == edges[e].0 && res[j2].constraints <= sat(
                res[j].constraints + sat(pair_sum(edges, edges[e].0, edges[e].1) as int),
            );
        assert(res[j2].constraints <= agg_weight(edges, path, i));
    }
}

/// The depth reported for a caller is the least weight of a path of edges from
/// it into a target: no path weighs less (edges of one pair weigh their sum),
/// and the reported depth is the weight of one such path.
pub proof fn lemma_reported_depth_is_minimum(
    edges: Seq<EdgeView>,
    targets: Seq<InstanceView>,
    res: Seq<PathInfo>,
    path: Seq<int>,
    j: int,
)
    requires
        distinct_callers(res),
        reverse_closed(edges, targets, res),
        reverse_reaching(edges, targets, res),
        is_edge_path(edges, path),
        targets.contains(edges[path.last()].1),
        0 <= j < res.len(),
        res[j].caller@ == edges[path[0]].0,
    ensures
        res[j].constraints <= agg_weight(edges, path, 0),
        reaches_with(edges, targets, res[j].caller@, res[j].constraints as nat, res[j].package_num as nat),
{
    lemma_reverse_bound_suffix(edges, targets, res, path, 0);
    let j2 = choose|j2: int|
        0 <= j2 < res.len() && res[j2].caller@ == edges[path[0]].0 && res[j2].constraints <= agg_weight(edges, path, 0);
    if j2 != j {
        if j2 < j {
            assert(res[j2].caller@ != res[j].caller@);
        } else {
            assert(res[j].caller@ != res[j2].caller@);
        }
    }
    assert(reaches_with(edges, targets, (res[j]).caller@, res[j].constraints as nat, res[j].package_num as nat));
}

} // verus!
