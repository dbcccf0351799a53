use vstd::prelude::*;

use crate::body::{Body, Operand, TerminatorKind};
use crate::constraint::{
    blocks_view, compute_shortest_paths, is_bfs_result, is_path_analysis, is_shortest_walk,
    lemma_bfs_deterministic, lemma_found_shortest, lemma_walk_found,
    BlockPath,
};
use crate::args::CGArgs;
use crate::graph::{
    dedup_spec, edge_views, lemma_dedup_laws, same_pair, unique_pairs, CallGraph, CallSite,
    EdgeView,
};
use crate::instance::{position_of, views, FunctionInstance, InstanceView};
use crate::model::ProgramModel;
use crate::resolver::{call_targets, resolve_call};

verus! {

/// The callee operand of block `b`'s terminator, when that terminator is a call.
pub open spec fn call_op(body: Body, b: int) -> Option<Operand> {
    match body.basic_blocks@[b].terminator {
        Some(t) => match t.kind {
            TerminatorKind::Call(op) => Some(op),
            _ => None,
        },
        None => None,
    }
}

/// The edges of the call ending block `b`, tagged with the depth the analysis gave `b`.
pub open spec fn block_edges(
    m: ProgramModel,
    x: InstanceView,
    args: Seq<u64>,
    body: Body,
    paths: Seq<Option<BlockPath>>,
    b: int,
) -> Seq<EdgeView> {
    match call_op(body, b) {
        Some(op) => match paths[b] {
            Some(p) => call_targets(m, args, op).map_values(
                |t: InstanceView| (x, t, p.constraints as nat),
            ),
            None => Seq::empty(),
        },
        None => Seq::empty(),
    }
}

/// The edges of the calls ending blocks `0..n`, block by block.
pub open spec fn body_edges(
    m: ProgramModel,
    x: InstanceView,
    args: Seq<u64>,
    body: Body,
    paths: Seq<Option<BlockPath>>,
    n: int,
) -> Seq<EdgeView>
    decreases n,
{
    if n <= 0 {
        Seq::empty()
    } else {
        body_edges(m, x, args, body, paths, n - 1) + block_edges(m, x, args, body, paths, n - 1)
    }
}

proof fn lemma_body_edges_sound(
    m: ProgramModel,
    x: InstanceView,
    args: Seq<u64>,
    body: Body,
    paths: Seq<Option<BlockPath>>,
    n: int,
    k: int,
)
    requires
        0 <= n <= body.num_blocks(),
        paths.len() == body.num_blocks(),
        0 <= k < body_edges(m, x, args, body, paths, n).len(),
    ensures
        ({
            let e = body_edges(m, x, args, body, paths, n)[k];
            exists|b: int|
                0 <= b < n && call_op(body, b) is Some && paths[b] is Some && e.0 == x
                    && call_targets(m, args, call_op(body, b).unwrap()).contains(e.1) && e.2
                    == paths[b].unwrap().constraints
        }),
    decreases n,
{
    let prev = body_edges(m, x, args, body, paths, n - 1);
    let cur = block_edges(m, x, args, body, paths, n - 1);
    let e = body_edges(m, x, args, body, paths, n)[k];
    if k < prev.len() {
        lemma_body_edges_sound(m, x, args, body, paths, n - 1, k);
        assert(e == prev[k]);
    } else {
        let j = k - prev.len();
        assert(e == cur[j]);
        let op = call_op(body, n - 1).unwrap();
        let ts = call_targets(m, args, op);
        assert(ts[j] == e.1);
        assert(0 <= n - 1 < n && call_op(body, n - 1) is Some && paths[n - 1] is Some && e.0 == x
            && ts.contains(e.1) && e.2 == paths[n - 1].unwrap().constraints);
    }
}

proof fn lemma_body_edges_complete(
    m: ProgramModel,
    x: InstanceView,
    args: Seq<u64>,
    body: Body,
    paths: Seq<Option<BlockPath>>,
    n: int,
    b: int,
    t: InstanceView,
)
    requires
        0 <= b < n <= body.num_blocks(),
        paths.len() == body.num_blocks(),
        call_op(body, b) is Some,
        paths[b] is Some,
        call_targets(m, args, call_op(body, b).unwrap()).contains(t),
    ensures
        body_edges(m, x, args, body, paths, n).contains((x, t, paths[b].unwrap().constraints as nat)),
    decreases n,
{
    let prev = body_edges(m, x, args, body, paths, n - 1);
    let cur = block_edges(m, x, args, body, paths, n - 1);
    let all = body_edges(m, x, args, body, paths, n);
    if b < n - 1 {
        lemma_body_edges_complete(m, x, args, body, paths, n - 1, b, t);
        let k = choose|k: int| 0 <= k < prev.len() && prev[k] == (x, t, paths[b].unwrap().constraints as nat);
        assert(all[k] == prev[k]);
    } else {
        let ts = call_targets(m, args, call_op(body, b).unwrap());
        let j = choose|j: int| 0 <= j < ts.len() && ts[j] == t;
        assert(all[prev.len() + j] == cur[j]);
    }
}

/// Every call edge of `x`'s body: for each block whose terminator is a call and
/// that the analysis reached, one edge to each possible callee, tagged with the
/// block's constraint depth.
pub fn extract_function_call(
    m: &ProgramModel,
    x: &FunctionInstance,
    args: &Vec<u64>,
    body: &Body,
    paths: &Vec<Option<BlockPath>>,
) -> (r: Vec<CallSite>)
    requires
        paths@.len() == body.num_blocks(),
    ensures
        edge_views(r@) == body_edges(*m, x@, args@, *body, paths@, body.num_blocks() as int),
{
    let mut r: Vec<CallSite> = Vec::new();
    let mut b: usize = 0;
    while b < body.basic_blocks.len()
        invariant
            paths@.len() == body.num_blocks(),
            b <= body.num_blocks(),
            edge_views(r@) == body_edges(*m, x@, args@, *body, paths@, b as int),
        decreases body.num_blocks() - b,
    {
        let ghost before = edge_views(r@);
        let ghost cur = block_edges(*m, x@, args@, *body, paths@, b as int);
        match &body.basic_blocks[b].terminator {
            Some(t) => match &t.kind {
                TerminatorKind::Call(op) => match &paths[b] {
                    Some(p) => {
                        let targets = resolve_call(m, args, op);
                        assert(call_op(*body, b as int) == Some(*op));
                        let mut j: usize = 0;
                        while j < targets.len()
                            invariant
                                j <= targets@.len(),
                                views(targets@) == call_targets(*m, args@, *op),
                                paths@[b as int] == Some(*p),
                                call_op(*body, b as int) == Some(*op),
                                b < paths@.len(),
                                cur == block_edges(*m, x@, args@, *body, paths@, b as int),
                                edge_views(r@) == before + cur.subrange(0, j as int),
                            decreases targets@.len() - j,
                        {
                            let site = CallSite::new(x.copy(), targets[j].copy(), p.constraints);
                            assert(views(targets@)[j as int] == targets@[j as int]@);
                            assert(cur[j as int] == site@);
                            let ghost old_r = r@;
                            r.push(site);
                            assert(edge_views(r@) =~= edge_views(old_r).push(site@));
                            assert(edge_views(r@) =~= before + cur.subrange(0, j + 1));
                            j += 1;
                        }
                        assert(cur.subrange(0, j as int) =~= cur);
                    },
                    None => {
                        assert(cur =~= Seq::<EdgeView>::empty());
                    },
                },
                _ => {
                    assert(cur =~= Seq::<EdgeView>::empty());
                },
            },
            None => {
                assert(cur =~= Seq::<EdgeView>::empty());
            },
        }
        assert(edge_views(r@) =~= body_edges(*m, x@, args@, *body, paths@, b + 1));
        b += 1;
    }
    r
}

/// The type arguments of a concrete instance; empty for an unresolved one.
pub open spec fn x_args(x: InstanceView) -> Seq<u64> {
    match x {
        InstanceView::Concrete(_, a) => a,
        InstanceView::Unresolved(_) => Seq::empty(),
    }
}

/// The body the model holds for `x` (meaningful when `body_index(x)` is `Some`).
pub open spec fn body_spec(m: ProgramModel, x: InstanceView) -> Body {
    m.bodies@[m.body_index(x).unwrap()].body
}

/// `b` is a block of `x`'s body that ends in a call, one of whose possible
/// callees is `t`.
pub open spec fn calls_at(m: ProgramModel, x: InstanceView, b: int, t: InstanceView) -> bool {
    &&& 0 <= b < body_spec(m, x).num_blocks()
    &&& call_op(body_spec(m, x), b) is Some
    &&& call_targets(m, x_args(x), call_op(body_spec(m, x), b).unwrap()).contains(t)
}

/// `e` is an edge of a call in its caller's body, and its depth is the number of
/// conditional branches along a shortest walk from the entry to that call.
pub open spec fn sound_edge(m: ProgramModel, e: EdgeView) -> bool {
    &&& e.0 is Concrete
    &&& m.body_index(e.0) is Some
    &&& exists|b: int|
        #[trigger] calls_at(m, e.0, b, e.1) && exists|p: Seq<usize>|
            is_shortest_walk(body_spec(m, e.0), p, b) && body_spec(m, e.0).path_constraints(p) == e.2
}

/// `edges` holds an edge `x -> t` for every possible callee `t` of every
/// reachable call in `x`'s body.
pub open spec fn covers(m: ProgramModel, edges: Seq<EdgeView>, x: InstanceView) -> bool {
    (x is Concrete && m.body_index(x) is Some) ==> forall|b: int, t: InstanceView|
        #[trigger] calls_at(m, x, b, t) && body_spec(m, x).reachable(b) ==> exists|k: int|
            0 <= k < edges.len() && (#[trigger] edges[k]).0 == x && edges[k].1 == t
}

/// `ev` lists, block by block, the edges of the calls of `x`'s body, each
/// tagged with the depth that breadth-first search gives its block; it is
/// empty when `x` is unresolved or has no body.
pub open spec fn callsites_of(m: ProgramModel, x: InstanceView, ev: Seq<EdgeView>) -> bool {
    if x is Concrete && m.body_index(x) is Some {
        exists|paths: Seq<Option<BlockPath>>|
            is_path_analysis(body_spec(m, x), paths) && is_bfs_result(body_spec(m, x), blocks_view(paths))
                && ev == #[trigger] body_edges(
                m,
                x,
                x_args(x),
                body_spec(m, x),
                paths,
                body_spec(m, x).num_blocks() as int,
            )
    } else {
        ev.len() == 0
    }
}

/// The call edges of instance `x`: none when `x` is unresolved or has no body.
pub fn collect_callsites(m: &ProgramModel, x: &FunctionInstance) -> (r: Vec<CallSite>)
    requires
        m.wf(),
    ensures
        callsites_of(*m, x@, edge_views(r@)),
        (x@ is Unresolved || m.body_index(x@) is None) ==> r@.len() == 0,
        forall|k: int| 0 <= k < r@.len() ==> (#[trigger] edge_views(r@)[k]).0 == x@,
        forall|k: int| 0 <= k < r@.len() ==> sound_edge(*m, #[trigger] edge_views(r@)[k]),
        covers(*m, edge_views(r@), x@),
{
    match x.instance_args() {
        None => Vec::new(),
        Some(args) => match m.body_of(x) {
            None => Vec::new(),
            Some(bi) => {
                let body = &m.bodies[bi].body;
                assert(m.bodies@[bi as int].body.wf());
                let paths = compute_shortest_paths(body);
                let r = extract_function_call(m, x, args, body, &paths);
                proof {
                    let n = body.num_blocks() as int;
                    let ev = edge_views(r@);
                    assert(body_spec(*m, x@) == *body);
                    assert(x_args(x@) == args@);
                    assert(is_path_analysis(body_spec(*m, x@), paths@) && is_bfs_result(body_spec(*m, x@), blocks_view(paths@)) && ev == body_edges(
                        *m,
                        x@,
                        x_args(x@),
                        body_spec(*m, x@),
                        paths@,
                        body_spec(*m, x@).num_blocks() as int,
                    ));
                    assert forall|k: int| 0 <= k < r@.len() implies (#[trigger] edge_views(r@)[k]).0
                        == x@ && sound_edge(*m, edge_views(r@)[k]) by {
                        lemma_body_edges_sound(*m, x@, args@, *body, paths@, n, k);
                        let e = ev[k];
                        let b = choose|b: int|
                            0 <= b < n && call_op(*body, b) is Some && paths@[b] is Some && e.0
                                == x@ && call_targets(*m, args@, call_op(*body, b).unwrap()).contains(
                                e.1,
                            ) && e.2 == paths@[b].unwrap().constraints;
                        let p = paths@[b].unwrap();
                        assert(p.valid_for(*body, b));
                        lemma_found_shortest(*body, paths@, b);
                        assert(calls_at(*m, e.0, b, e.1));
                    }
                    assert forall|b: int, t: InstanceView|
                        #[trigger] calls_at(*m, x@, b, t) && body_spec(*m, x@).reachable(b) implies exists|k: int|
                        0 <= k < ev.len() && (#[trigger] ev[k]).0 == x@ && ev[k].1 == t by {
                        let p = choose|p: Seq<usize>| body.is_entry_path(p) && p.last() == b;
                        lemma_walk_found(*body, paths@, p);
                        lemma_body_edges_complete(*m, x@, args@, *body, paths@, n, b, t);
                        let k = choose|k: int|
                            0 <= k < ev.len() && ev[k] == (x@, t, paths@[b].unwrap().constraints as nat);
                        assert(ev[k].0 == x@ && ev[k].1 == t);
                    }
                }
                r
            },
        },
    }
}

/// Number of `false` entries of `s`.
pub open spec fn count_false(s: Seq<bool>) -> nat
    decreases s.len(),
{
    if s.len() == 0 {
        0
    } else {
        count_false(s.drop_last()) + if s.last() {
            0nat
        } else {
            1nat
        }
    }
}

proof fn lemma_count_false_set(s: Seq<bool>, i: int)
    requires
        0 <= i < s.len(),
        !s[i],
    ensures
        count_false(s.update(i, true)) + 1 == count_false(s),
    decreases s.len(),
{
    let u = s.update(i, true);
    if i == s.len() - 1 {
        assert(u.drop_last() =~= s.drop_last());
    } else {
        assert(u.drop_last() =~= s.drop_last().update(i, true));
        lemma_count_false_set(s.drop_last(), i);
    }
}

proof fn lemma_covers_prefix(m: ProgramModel, e1: Seq<EdgeView>, e2: Seq<EdgeView>, x: InstanceView)
    requires
        covers(m, e1, x),
        e1.len() <= e2.len(),
        forall|k: int| 0 <= k < e1.len() ==> e2[k] == e1[k],
    ensures
        covers(m, e2, x),
{
    if x is Concrete && m.body_index(x) is Some {
        assert forall|b: int, t: InstanceView|
            #[trigger] calls_at(m, x, b, t) && body_spec(m, x).reachable(b) implies exists|k: int|
            0 <= k < e2.len() && (#[trigger] e2[k]).0 == x && e2[k].1 == t by {
            let k = choose|k: int| 0 <= k < e1.len() && (#[trigger] e1[k]).0 == x && e1[k].1 == t;
            assert(e2[k] == e1[k]);
        }
    }
}

proof fn lemma_covers_suffix(m: ProgramModel, e1: Seq<EdgeView>, e2: Seq<EdgeView>, x: InstanceView)
    requires
        covers(m, e2, x),
    ensures
        covers(m, e1 + e2, x),
{
    if x is Concrete && m.body_index(x) is Some {
        let e = e1 + e2;
        assert forall|b: int, t: InstanceView|
            #[trigger] calls_at(m, x, b, t) && body_spec(m, x).reachable(b) implies exists|k: int|
            0 <= k < e.len() && (#[trigger] e[k]).0 == x && e[k].1 == t by {
            let k = choose|k: int| 0 <= k < e2.len() && (#[trigger] e2[k]).0 == x && e2[k].1 == t;
            assert(e[e1.len() + k] == e2[k]);
        }
    }
}

/// No instance occurs twice in `s`.
pub open spec fn distinct(s: Seq<InstanceView>) -> bool {
    forall|i: int, j: int| 0 <= i < j < s.len() ==> s[i] != s[j]
}

/// What the builder guarantees of the graph it returns for `roots`: every
/// instance is visited at most once, every root and every endpoint of an edge is
/// visited, every edge is an edge of a call in its caller's body, the edges
/// cover every possible callee of every reachable call of every visited
/// instance, and every visited instance is a root or a callee.
pub open spec fn is_call_graph(
    m: ProgramModel,
    roots: Seq<InstanceView>,
    visited: Seq<InstanceView>,
    edges: Seq<EdgeView>,
) -> bool {
    &&& distinct(visited)
    &&& forall|i: int| 0 <= i < roots.len() ==> visited.contains(#[trigger] roots[i])
    &&& forall|k: int|
        0 <= k < edges.len() ==> visited.contains((#[trigger] edges[k]).0) && visited.contains(
            edges[k].1,
        ) && sound_edge(m, edges[k])
    &&& forall|i: int| 0 <= i < visited.len() ==> covers(m, edges, #[trigger] visited[i])
    &&& forall|i: int| 0 <= i < visited.len() ==> discovered(roots, edges, #[trigger] visited[i])
}

/// `edges` is, visited instance by visited instance in order, the list of the
/// edges of that instance's calls.
pub open spec fn edges_by_instance(m: ProgramModel, visited: Seq<InstanceView>, edges: Seq<EdgeView>) -> bool {
    exists|parts: Seq<Seq<EdgeView>>|
        parts.len() == visited.len() && (forall|v: int| 0 <= v < visited.len() ==> callsites_of(m, visited[v], #[trigger] parts[v]))
            && edges == #[trigger] parts.flatten()
}

/// `x` is a root or the callee of some edge.
pub open spec fn discovered(roots: Seq<InstanceView>, edges: Seq<EdgeView>, x: InstanceView) -> bool {
    roots.contains(x) || exists|k: int| 0 <= k < edges.len() && edges[k].1 == x
}

/// The callees of the edges `e`, in order.
pub open spec fn callees_of(e: Seq<EdgeView>) -> Seq<InstanceView> {
    e.map_values(|x: EdgeView| x.1)
}

/// The call edges of `x` (see `callsites_of`, which determines them).
pub open spec fn callsites_spec(m: ProgramModel, x: InstanceView) -> Seq<EdgeView> {
    choose|e: Seq<EdgeView>| callsites_of(m, x, e)
}

/// The worklist after `k` dequeues from `roots`: the queue, the instances
/// visited in order, and the edges found. Dequeuing an instance not yet
/// visited visits it, appends its call edges, and queues their callees.
pub open spec fn worklist_steps(m: ProgramModel, roots: Seq<InstanceView>, k: nat) -> (
    Seq<InstanceView>,
    Seq<InstanceView>,
    Seq<EdgeView>,
)
    decreases k,
{
    if k == 0 {
        (roots, Seq::empty(), Seq::empty())
    } else {
        let st = worklist_steps(m, roots, (k - 1) as nat);
        if k - 1 < st.0.len() {
            let x = st.0[k - 1];
            if st.1.contains(x) {
                st
            } else {
                let e = callsites_spec(m, x);
                (st.0 + callees_of(e), st.1.push(x), st.2 + e)
            }
        } else {
            st
        }
    }
}

/// `visited` and `edges` are what the worklist holds once its queue is exhausted.
pub open spec fn is_worklist_result(
    m: ProgramModel,
    roots: Seq<InstanceView>,
    visited: Seq<InstanceView>,
    edges: Seq<EdgeView>,
) -> bool {
    exists|k: nat|
        (#[trigger] worklist_steps(m, roots, k)).0.len() == k && visited == worklist_steps(m, roots, k).1
            && edges == worklist_steps(m, roots, k).2
}

proof fn lemma_worklist_done_stable(m: ProgramModel, roots: Seq<InstanceView>, k: nat, k2: nat)
    requires
        k <= k2,
        worklist_steps(m, roots, k).0.len() == k,
    ensures
        worklist_steps(m, roots, k2) == worklist_steps(m, roots, k),
    decreases k2 - k,
{
    if k2 > k {
        lemma_worklist_done_stable(m, roots, k, (k2 - 1) as nat);
    }
}

/// The worklist has one result: the same roots give the same visit order and
/// the same edge list on every run.
pub proof fn lemma_worklist_deterministic(
    m: ProgramModel,
    roots: Seq<InstanceView>,
    v1: Seq<InstanceView>,
    e1: Seq<EdgeView>,
    v2: Seq<InstanceView>,
    e2: Seq<EdgeView>,
)
    requires
        is_worklist_result(m, roots, v1, e1),
        is_worklist_result(m, roots, v2, e2),
    ensures
        v1 == v2,
        e1 == e2,
{
    let k1 = choose|k: nat|
        (#[trigger] worklist_steps(m, roots, k)).0.len() == k && v1 == worklist_steps(m, roots, k).1
            && e1 == worklist_steps(m, roots, k).2;
    let k2 = choose|k: nat|
        (#[trigger] worklist_steps(m, roots, k)).0.len() == k && v2 == worklist_steps(m, roots, k).1
            && e2 == worklist_steps(m, roots, k).2;
    if k1 <= k2 {
        lemma_worklist_done_stable(m, roots, k1, k2);
    } else {
        lemma_worklist_done_stable(m, roots, k2, k1);
    }
}

/// Builds the call graph of the instances reachable from `instances`: a FIFO
/// worklist that expands each instance once, then keeps the least constrained
/// edge of each caller-callee pair unless `args.no_dedup` is set.
pub fn perform_mono_analysis(m: &ProgramModel, instances: Vec<FunctionInstance>, args: &CGArgs) -> (g:
    CallGraph)
    requires
        m.wf(),
    ensures
        g.instances@.len() == 0,
        g.without_args == args.without_args,
        is_call_graph(*m, views(instances@), views(g.visited@), edge_views(g.call_sites@)),
        args.no_dedup ==> edges_by_instance(*m, views(g.visited@), edge_views(g.call_sites@)),
        args.no_dedup ==> is_worklist_result(*m, views(instances@), views(g.visited@), edge_views(g.call_sites@)),
        !args.no_dedup ==> unique_pairs(edge_views(g.call_sites@)) && exists|raw: Seq<EdgeView>|
            edges_by_instance(*m, views(g.visited@), raw) && is_worklist_result(*m, views(instances@), views(g.visited@), raw)
                && edge_views(g.call_sites@) == #[trigger] dedup_spec(raw),
{
    let ghost roots = views(instances@);
    let mut queue = instances;
    let ghost mut parts: Seq<Seq<EdgeView>> = Seq::empty();
    proof {
        assert forall|q: int| 0 <= q < queue@.len() implies discovered(roots, Seq::<EdgeView>::empty(), #[trigger] queue@[q]@) by {
            assert(roots[q] == queue@[q]@);
        }
    }
    let mut head: usize = 0;
    let mut visited: Vec<FunctionInstance> = Vec::new();
    let mut call_sites: Vec<CallSite> = Vec::new();
    let mut expanded: Vec<bool> = Vec::new();
    let mut i: usize = 0;
    while i < m.bodies.len()
        invariant
            i <= m.bodies@.len(),
            expanded@.len() == i,
            forall|j: int| 0 <= j < i ==> !expanded@[j],
        decreases m.bodies@.len() - i,
    {
        expanded.push(false);
        i += 1;
    }
    while head < queue.len()
        invariant
            m.wf(),
            expanded@.len() == m.bodies@.len(),
            head <= queue@.len(),
            roots.len() <= queue@.len(),
            forall|r: int| 0 <= r < roots.len() ==> queue@[r]@ == roots[r],
            distinct(views(visited@)),
            forall|j: int|
                0 <= j < expanded@.len() && #[trigger] expanded@[j] ==> views(visited@).contains(
                    m.bodies@[j].instance@,
                ),
            forall|q: int| 0 <= q < head ==> views(visited@).contains(#[trigger] queue@[q]@),
            forall|k: int|
                0 <= k < call_sites@.len() ==> views(visited@).contains(
                    (#[trigger] edge_views(call_sites@)[k]).0,
                ) && views(queue@).contains(edge_views(call_sites@)[k].1) && sound_edge(
                    *m,
                    edge_views(call_sites@)[k],
                ),
            forall|v: int|
                0 <= v < visited@.len() ==> covers(*m, edge_views(call_sites@), #[trigger] views(visited@)[v]),
            forall|q: int| 0 <= q < queue@.len() ==> discovered(roots, edge_views(call_sites@), #[trigger] queue@[q]@),
            forall|v: int| 0 <= v < visited@.len() ==> discovered(roots, edge_views(call_sites@), #[trigger] views(visited@)[v]),
            parts.len() == visited@.len(),
            forall|v: int| 0 <= v < visited@.len() ==> callsites_of(*m, views(visited@)[v], #[trigger] parts[v]),
            edge_views(call_sites@) == parts.flatten(),
            views(queue@) == worklist_steps(*m, roots, head as nat).0,
            views(visited@) == worklist_steps(*m, roots, head as nat).1,
            edge_views(call_sites@) == worklist_steps(*m, roots, head as nat).2,
        decreases count_false(expanded@), queue@.len() - head,
    {
        let x = queue[head].copy();
        let ghost q_before = queue@;
        let ghost e_before = edge_views(call_sites@);
        let ghost vis_before = views(visited@);
        let ghost exp_before = expanded@;
        match position_of(&visited, &x) {
            Some(pos) => {
                proof {
                    assert(views(visited@)[pos as int] == x@);
                    assert(views(queue@)[head as int] == x@);
                    assert(views(visited@).contains(x@));
                }
                head += 1;
            },
            None => {
                visited.push(x.copy());
                proof {
                    assert(views(visited@) =~= vis_before.push(x@));
                    assert forall|v: int| 0 <= v < vis_before.len() implies views(visited@).contains(#[trigger] vis_before[v]) by {
                        assert(views(visited@)[v] == vis_before[v]);
                    }
                    assert(views(visited@)[vis_before.len() as int] == x@);
                }
                let bi = if x.is_instance() {
                    m.body_of(&x)
                } else {
                    None
                };
                match bi {
                    Some(b) => {
                        proof {
                            if exp_before[b as int] {
                                assert(vis_before.contains(m.bodies@[b as int].instance@));
                            }
                            lemma_count_false_set(exp_before, b as int);
                        }
                        expanded.set(b, true);
                    },
                    None => {},
                }
                let sites = collect_callsites(m, &x);
                let ghost sv = edge_views(sites@);
                let mut j: usize = 0;
                while j < sites.len()
                    invariant
                        j <= sites@.len(),
                        sv == edge_views(sites@),
                        forall|k: int| 0 <= k < sites@.len() ==> (#[trigger] sv[k]).0 == x@,
                        forall|k: int| 0 <= k < sites@.len() ==> sound_edge(*m, #[trigger] sv[k]),
                        edge_views(call_sites@) == e_before + sv.subrange(0, j as int),
                        queue@.len() == q_before.len() + j,
                        forall|q: int| 0 <= q < q_before.len() ==> queue@[q] == q_before[q],
                        forall|k: int| 0 <= k < j ==> views(queue@).contains(#[trigger] sv[k].1),
                        forall|k: int|
                            0 <= k < e_before.len() ==> views(q_before).contains((#[trigger] e_before[k]).1),
                        forall|q: int| 0 <= q < q_before.len() ==> discovered(roots, e_before, #[trigger] q_before[q]@),
                        forall|q: int| q_before.len() <= q < queue@.len() ==> queue@[q]@ == sv[q - q_before.len()].1,
                    decreases sites@.len() - j,
                {
                    let ghost qb = queue@;
                    let ghost cb = call_sites@;
                    call_sites.push(sites[j].copy());
                    queue.push(sites[j].callee());
                    proof {
                        assert forall|q: int| q_before.len() <= q < queue@.len() implies queue@[q]@ == sv[q - q_before.len()].1 by {
                            if q < qb.len() {
                                assert(queue@[q] == qb[q]);
                            }
                        }
                        assert(edge_views(call_sites@) =~= edge_views(cb).push(sv[j as int]));
                        assert(edge_views(call_sites@) =~= e_before + sv.subrange(0, j + 1));
                        assert forall|k: int| 0 <= k <= j implies views(queue@).contains(#[trigger] sv[k].1) by {
                            if k < j {
                                let w = choose|w: int| 0 <= w < qb.len() && views(qb)[w] == sv[k].1;
                                assert(views(queue@)[w] == views(qb)[w]);
                            } else {
                                assert(views(queue@)[qb.len() as int] == sv[k].1);
                            }
                        }
                    }
                    j += 1;
                }
                proof {
                    let ev = edge_views(call_sites@);
                    assert(sv.subrange(0, j as int) =~= sv);
                    assert forall|k: int| 0 <= k < ev.len() implies views(visited@).contains(
                        (#[trigger] ev[k]).0,
                    ) && views(queue@).contains(ev[k].1) && sound_edge(*m, ev[k]) by {
                        if k < e_before.len() {
                            assert(ev[k] == e_before[k]);
                            assert(vis_before.contains(e_before[k].0));
                            let w = choose|w: int| 0 <= w < vis_before.len() && vis_before[w] == e_before[k].0;
                            assert(views(visited@)[w] == vis_before[w]);
                            let w2 = choose|w2: int| 0 <= w2 < q_before.len() && views(q_before)[w2] == e_before[k].1;
                            assert(views(queue@)[w2] == views(q_before)[w2]);
                        } else {
                            assert(ev[k] == sv[k - e_before.len()]);
                        }
                    }
                    lemma_covers_suffix(*m, e_before, sv, x@);
                    let old_parts = parts;
                    parts = parts.push(sv);
                    old_parts.lemma_flatten_push(sv);
                    assert forall|v: int| 0 <= v < visited@.len() implies callsites_of(*m, views(visited@)[v], #[trigger] parts[v]) by {
                        if v < vis_before.len() {
                            assert(views(visited@)[v] == vis_before[v]);
                            assert(parts[v] == old_parts[v]);
                        } else {
                            assert(views(visited@)[v] == x@);
                        }
                    }
                    assert forall|q: int| 0 <= q < queue@.len() implies discovered(roots, ev, #[trigger] queue@[q]@) by {
                        if q < q_before.len() {
                            assert(queue@[q] == q_before[q]);
                            assert(discovered(roots, e_before, q_before[q]@));
                            if !roots.contains(q_before[q]@) {
                                let k = choose|k: int| 0 <= k < e_before.len() && e_before[k].1 == q_before[q]@;
                                assert(ev[k] == e_before[k]);
                            }
                        } else {
                            let k = q - q_before.len();
                            assert(ev[e_before.len() + k] == sv[k]);
                        }
                    }
                    assert forall|v: int| 0 <= v < visited@.len() implies discovered(roots, ev, #[trigger] views(visited@)[v]) by {
                        if v < vis_before.len() {
                            assert(views(visited@)[v] == vis_before[v]);
                            assert(discovered(roots, e_before, vis_before[v]));
                            if !roots.contains(vis_before[v]) {
                                let k = choose|k: int| 0 <= k < e_before.len() && e_before[k].1 == vis_before[v];
                                assert(ev[k] == e_before[k]);
                            }
                        } else {
                            assert(views(visited@)[v] == x@);
                            assert(x@ == q_before[head as int]@);
                            assert(discovered(roots, e_before, q_before[head as int]@));
                            if !roots.contains(x@) {
                                let k = choose|k: int| 0 <= k < e_before.len() && e_before[k].1 == x@;
                                assert(ev[k] == e_before[k]);
                            }
                        }
                    }
                    assert forall|v: int| 0 <= v < visited@.len() implies covers(*m, ev, #[trigger] views(visited@)[v]) by {
                        if v < vis_before.len() {
                            assert(views(visited@)[v] == vis_before[v]);
                            lemma_covers_prefix(*m, e_before, ev, vis_before[v]);
                        }
                    }
                    assert forall|q: int| 0 <= q < head + 1 implies views(visited@).contains(#[trigger] queue@[q]@) by {
                        assert(queue@[q] == q_before[q]);
                        if q < head {
                            assert(vis_before.contains(q_before[q]@));
                            let w = choose|w: int| 0 <= w < vis_before.len() && vis_before[w] == q_before[q]@;
                            assert(views(visited@)[w] == vis_before[w]);
                        }
                    }
                    assert forall|jj: int|
                        0 <= jj < expanded@.len() && #[trigger] expanded@[jj] implies views(visited@).contains(
                        m.bodies@[jj].instance@) by {
                        if exp_before[jj] {
                            let w = choose|w: int| 0 <= w < vis_before.len() && vis_before[w] == m.bodies@[jj].instance@;
                            assert(views(visited@)[w] == vis_before[w]);
                        }
                    }
                    assert forall|a: int, c: int| 0 <= a < c < views(visited@).len() implies views(visited@)[a] != views(visited@)[c] by {
                        if c == vis_before.len() {
                            assert(views(visited@)[a] == vis_before[a]);
                        }
                    }
                    assert forall|r: int| 0 <= r < roots.len() implies queue@[r]@ == roots[r] by {
                        assert(queue@[r] == q_before[r]);
                    }
                    if bi is None {
                        assert(sites@.len() == 0);
                        assert(expanded@ == exp_before);
                    }
                    let st = worklist_steps(*m, roots, head as nat);
                    assert(views(q_before)[head as int] == x@);
                    assert(!st.1.contains(x@)) by {
                        if st.1.contains(x@) {
                            let w = choose|w: int| 0 <= w < vis_before.len() && vis_before[w] == x@;
                            assert(visited@[w]@ == x@);
                        }
                    }
                    assert(callsites_of(*m, x@, sv));
                    lemma_callsites_deterministic(*m, x@, sv, callsites_spec(*m, x@));
                    assert(views(queue@) =~= views(q_before) + callees_of(sv));
                    assert(edge_views(call_sites@) =~= e_before + sv);
                }
                head += 1;
            },
        }
    }
    let mut graph = CallGraph { instances: Vec::new(), visited, call_sites, without_args: args.without_args };
    proof {
        assert(edges_by_instance(*m, views(graph.visited@), edge_views(graph.call_sites@)));
        assert(worklist_steps(*m, roots, head as nat).0.len() == head);
        assert(is_worklist_result(*m, roots, views(graph.visited@), edge_views(graph.call_sites@)));
        let ev = edge_views(graph.call_sites@);
        let vis = views(graph.visited@);
        assert forall|r: int| 0 <= r < roots.len() implies vis.contains(#[trigger] roots[r]) by {
            assert(queue@[r]@ == roots[r]);
        }
        assert forall|k: int| 0 <= k < ev.len() implies vis.contains((#[trigger] ev[k]).1) by {
            let w = choose|w: int| 0 <= w < queue@.len() && views(queue@)[w] == ev[k].1;
            assert(queue@[w]@ == ev[k].1);
        }
    }
    if !args.no_dedup {
        let ghost raw = edge_views(graph.call_sites@);
        graph.deduplicate_call_sites();
        proof {
            lemma_dedup_laws(raw);
            assert(edges_by_instance(*m, views(graph.visited@), raw));
            assert(is_worklist_result(*m, roots, views(graph.visited@), raw));
            let d = edge_views(graph.call_sites@);
            let vis = views(graph.visited@);
            assert forall|k: int| 0 <= k < d.len() implies vis.contains((#[trigger] d[k]).0) && vis.contains(
                d[k].1,
            ) && sound_edge(*m, d[k]) by {
                assert(raw.contains(d[k]));
            }
            assert forall|v: int| 0 <= v < vis.len() implies discovered(roots, d, #[trigger] vis[v]) by {
                assert(discovered(roots, raw, vis[v]));
                if !roots.contains(vis[v]) {
                    let k = choose|k: int| 0 <= k < raw.len() && raw[k].1 == vis[v];
                    assert(raw[k] == raw[k]);
                    let k2 = choose|k2: int| 0 <= k2 < d.len() && same_pair(d[k2], raw[k]);
                    assert(d[k2].1 == vis[v]);
                }
            }
            assert forall|v: int| 0 <= v < vis.len() implies covers(*m, d, #[trigger] vis[v]) by {
                let x = vis[v];
                if x is Concrete && m.body_index(x) is Some {
                    assert forall|b: int, t: InstanceView|
                        #[trigger] calls_at(*m, x, b, t) && body_spec(*m, x).reachable(b) implies exists|k: int|
                        0 <= k < d.len() && (#[trigger] d[k]).0 == x && d[k].1 == t by {
                        assert(covers(*m, raw, x));
                        let k = choose|k: int| 0 <= k < raw.len() && (#[trigger] raw[k]).0 == x && raw[k].1 == t;
                        let k2 = choose|k2: int| 0 <= k2 < d.len() && same_pair(d[k2], raw[k]);
                        assert(d[k2].0 == x && d[k2].1 == t);
                    }
                }
            }
        }
    }
    graph
}

proof fn lemma_body_edges_same(
    m: ProgramModel,
    x: InstanceView,
    args: Seq<u64>,
    body: Body,
    p1: Seq<Option<BlockPath>>,
    p2: Seq<Option<BlockPath>>,
    n: int,
)
    requires
        body.wf(),
        is_path_analysis(body, p1),
        is_path_analysis(body, p2),
        blocks_view(p1) == blocks_view(p2),
        0 <= n <= body.num_blocks(),
    ensures
        body_edges(m, x, args, body, p1, n) == body_edges(m, x, args, body, p2, n),
    decreases n,
{
    if n > 0 {
        lemma_body_edges_same(m, x, args, body, p1, p2, n - 1);
        let b = n - 1;
        assert(blocks_view(p1)[b] == blocks_view(p2)[b]);
        if p1[b] is Some {
            assert(p1[b].unwrap().valid_for(body, b));
            assert(p2[b].unwrap().valid_for(body, b));
        }
        assert(block_edges(m, x, args, body, p1, b) == block_edges(m, x, args, body, p2, b));
    }
}

/// The call edges of an instance are determined: two lists that both are its
/// call edges are equal.
pub proof fn lemma_callsites_deterministic(m: ProgramModel, x: InstanceView, e1: Seq<EdgeView>, e2: Seq<EdgeView>)
    requires
        m.wf(),
        callsites_of(m, x, e1),
        callsites_of(m, x, e2),
    ensures
        e1 == e2,
{
    if x is Concrete && m.body_index(x) is Some {
        let body = body_spec(m, x);
        let n = body.num_blocks() as int;
        let p1 = choose|paths: Seq<Option<BlockPath>>|
            is_path_analysis(body, paths) && is_bfs_result(body, blocks_view(paths)) && e1 == #[trigger] body_edges(
                m, x, x_args(x), body, paths, n);
        let p2 = choose|paths: Seq<Option<BlockPath>>|
            is_path_analysis(body, paths) && is_bfs_result(body, blocks_view(paths)) && e2 == #[trigger] body_edges(
                m, x, x_args(x), body, paths, n);
        let i = m.body_index(x).unwrap();
        assert(0 <= i < m.bodies@.len()) by {
            lemma_body_index_range(m, x);
        }
        assert(m.bodies@[i].body.wf());
        lemma_bfs_deterministic(body, blocks_view(p1), blocks_view(p2));
        lemma_body_edges_same(m, x, x_args(x), body, p1, p2, n);
    }
}

proof fn lemma_body_index_range(m: ProgramModel, x: InstanceView)
    requires
        m.body_index(x) is Some,
    ensures
        0 <= m.body_index(x).unwrap() < m.bodies@.len(),
{
    let k = choose|k: int| 0 <= k < m.bodies@.len() && m.bodies@[k].instance@ == x;
    lemma_first_body(m, x, k);
}

proof fn lemma_first_body(m: ProgramModel, x: InstanceView, k: int)
    requires
        0 <= k < m.bodies@.len(),
        m.bodies@[k].instance@ == x,
    ensures
        exists|i: int|
            0 <= i < m.bodies@.len() && m.bodies@[i].instance@ == x && forall|j: int|
                0 <= j < i ==> m.bodies@[j].instance@ != x,
    decreases k,
{
    if exists|j: int| 0 <= j < k && m.bodies@[j].instance@ == x {
        let j = choose|j: int| 0 <= j < k && m.bodies@[j].instance@ == x;
        lemma_first_body(m, x, j);
    }
}

/// Call-edge lists gathered instance by instance over the same visit order are
/// equal.
pub proof fn lemma_edges_by_instance_deterministic(
    m: ProgramModel,
    visited: Seq<InstanceView>,
    e1: Seq<EdgeView>,
    e2: Seq<EdgeView>,
)
    requires
        m.wf(),
        edges_by_instance(m, visited, e1),
        edges_by_instance(m, visited, e2),
    ensures
        e1 == e2,
{
    let q1 = choose|parts: Seq<Seq<EdgeView>>|
        parts.len() == visited.len() && (forall|v: int| 0 <= v < visited.len() ==> callsites_of(m, visited[v], #[trigger] parts[v]))
            && e1 == #[trigger] parts.flatten();
    let q2 = choose|parts: Seq<Seq<EdgeView>>|
        parts.len() == visited.len() && (forall|v: int| 0 <= v < visited.len() ==> callsites_of(m, visited[v], #[trigger] parts[v]))
            && e2 == #[trigger] parts.flatten();
    assert forall|v: int| 0 <= v < visited.len() implies q1[v] == q2[v] by {
        lemma_callsites_deterministic(m, visited[v], q1[v], q2[v]);
    }
    assert(q1 =~= q2);
}

} // verus!
