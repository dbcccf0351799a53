use vstd::multiset::Multiset;
use vstd::prelude::*;

use crate::instance::{FunctionInstance, InstanceView};
use crate::names::FunctionName;
use crate::graph::{edge_views, CallGraph, CallSite, EdgeView};
use crate::query::PathInfo;

verus! {

broadcast use vstd::seq_lib::group_to_multiset_ensures, vstd::seq_lib::to_multiset_insert,
    vstd::multiset::group_multiset_axioms;

/// `a` comes strictly before `b` in lexicographic byte order.
pub open spec fn bytes_lt(a: Seq<u8>, b: Seq<u8>) -> bool
    decreases a.len(),
{
    if b.len() == 0 {
        false
    } else if a.len() == 0 {
        true
    } else if a[0] < b[0] {
        true
    } else if a[0] > b[0] {
        false
    } else {
        bytes_lt(a.drop_first(), b.drop_first())
    }
}

proof fn lemma_bytes_lt_irreflexive(a: Seq<u8>)
    ensures
        !bytes_lt(a, a),
    decreases a.len(),
{
    if a.len() > 0 {
        lemma_bytes_lt_irreflexive(a.drop_first());
    }
}

proof fn lemma_bytes_lt_transitive(a: Seq<u8>, b: Seq<u8>, c: Seq<u8>)
    requires
        bytes_lt(a, b),
        bytes_lt(b, c),
    ensures
        bytes_lt(a, c),
    decreases a.len(),
{
    if a.len() > 0 && b.len() > 0 && c.len() > 0 && a[0] == b[0] && b[0] == c[0] {
        lemma_bytes_lt_transitive(a.drop_first(), b.drop_first(), c.drop_first());
    }
}

proof fn lemma_bytes_lt_suffix(a: Seq<u8>, b: Seq<u8>, k: int)
    requires
        0 <= k <= a.len(),
        k <= b.len(),
        a.subrange(0, k) == b.subrange(0, k),
    ensures
        bytes_lt(a, b) == bytes_lt(a.subrange(k, a.len() as int), b.subrange(k, b.len() as int)),
    decreases k,
{
    if k > 0 {
        assert(a[0] == a.subrange(0, k)[0]);
        assert(b[0] == b.subrange(0, k)[0]);
        assert(a.drop_first().subrange(0, k - 1) =~= a.subrange(1, k));
        assert(b.drop_first().subrange(0, k - 1) =~= b.subrange(1, k));
        assert(a.subrange(1, k) =~= a.subrange(0, k).drop_first());
        assert(b.subrange(1, k) =~= b.subrange(0, k).drop_first());
        lemma_bytes_lt_suffix(a.drop_first(), b.drop_first(), k - 1);
        assert(a.drop_first().subrange(k - 1, a.len() - 1) =~= a.subrange(k, a.len() as int));
        assert(b.drop_first().subrange(k - 1, b.len() - 1) =~= b.subrange(k, b.len() as int));
    } else {
        assert(a.subrange(0, a.len() as int) =~= a);
        assert(b.subrange(0, b.len() as int) =~= b);
    }
}

/// Whether `a` comes strictly before `b` in lexicographic byte order.
pub fn bytes_less(a: &[u8], b: &[u8]) -> (r: bool)
    ensures
        r == bytes_lt(a@, b@),
{
    let mut k: usize = 0;
    while k < a.len() && k < b.len()
        invariant
            k <= a@.len(),
            k <= b@.len(),
            a@.subrange(0, k as int) == b@.subrange(0, k as int),
        decreases a@.len() - k,
    {
        if a[k] != b[k] {
            proof {
                lemma_bytes_lt_suffix(a@, b@, k as int);
                let sa = a@.subrange(k as int, a@.len() as int);
                let sb = b@.subrange(k as int, b@.len() as int);
                assert(sa[0] == a@[k as int] && sb[0] == b@[k as int]);
            }
            return a[k] < b[k];
        }
        assert(a@.subrange(0, k + 1) =~= a@.subrange(0, k as int).push(a@[k as int]));
        assert(b@.subrange(0, k + 1) =~= b@.subrange(0, k as int).push(b@[k as int]));
        k += 1;
    }
    proof {
        lemma_bytes_lt_suffix(a@, b@, k as int);
    }
    k < b.len()
}

/// The path shown for entry `n`: its base path when generic arguments are left
/// out (`short`) or the instance is unresolved, else its full path.
pub open spec fn shown(n: FunctionName, short: bool) -> Seq<u8> {
    if short || n.instance@ is Unresolved {
        n.base@
    } else {
        n.full@
    }
}

/// The path shown for `x`: that of the first entry of `names` for it, else empty.
pub open spec fn display_of(names: Seq<FunctionName>, x: InstanceView, short: bool) -> Seq<u8>
    decreases names.len(),
{
    if names.len() == 0 {
        Seq::empty()
    } else if names[0].instance@ == x {
        shown(names[0], short)
    } else {
        display_of(names.drop_first(), x, short)
    }
}

/// The path shown for `x`, as a slice of `names` or of `empty`.
pub fn display_path<'a>(names: &'a Vec<FunctionName>, x: &FunctionInstance, short: bool, empty: &'a Vec<u8>) -> (r: &'a [u8])
    requires
        empty@.len() == 0,
    ensures
        r@ == display_of(names@, x@, short),
{
    match display_index(names, x, short) {
        Some(k) => {
            if short || !names[k].instance.is_instance() {
                names[k].base.as_slice()
            } else {
                names[k].full.as_slice()
            }
        },
        None => empty.as_slice(),
    }
}

/// Index of the first entry of `names` for `x`.
fn display_index(names: &Vec<FunctionName>, x: &FunctionInstance, short: bool) -> (r: Option<usize>)
    ensures
        r is Some ==> r.unwrap() < names@.len() && shown(names@[r.unwrap() as int], short) == display_of(names@, x@, short),
        r is None ==> display_of(names@, x@, short) == Seq::<u8>::empty(),
{
    let mut k: usize = 0;
    assert(names@.subrange(0, names@.len() as int) =~= names@);
    while k < names.len()
        invariant
            k <= names@.len(),
            display_of(names@, x@, short) == display_of(names@.subrange(k as int, names@.len() as int), x@, short),
        decreases names@.len() - k,
    {
        let ghost rest = names@.subrange(k as int, names@.len() as int);
        assert(rest.drop_first() =~= names@.subrange(k + 1, names@.len() as int));
        if names[k].instance.same(x) {
            return Some(k);
        }
        k += 1;
    }
    None
}

/// The sort key of a reported caller: accumulated depth, then display path.
pub open spec fn key_lt(names: Seq<FunctionName>, short: bool, a: PathInfo, b: PathInfo) -> bool {
    a.constraints < b.constraints || (a.constraints == b.constraints && bytes_lt(
        display_of(names, a.caller@, short),
        display_of(names, b.caller@, short),
    ))
}

/// `s` is ordered by depth, then by display path.
pub open spec fn sorted_by_key(names: Seq<FunctionName>, short: bool, s: Seq<PathInfo>) -> bool {
    forall|i: int, j: int| 0 <= i < j < s.len() ==> !key_lt(names, short, #[trigger] s[j], #[trigger] s[i])
}

proof fn lemma_key_lt_transitive(names: Seq<FunctionName>, short: bool, a: PathInfo, b: PathInfo, c: PathInfo)
    requires
        key_lt(names, short, a, b),
        key_lt(names, short, b, c),
    ensures
        key_lt(names, short, a, c),
{
    if a.constraints == b.constraints && b.constraints == c.constraints {
        lemma_bytes_lt_transitive(
            display_of(names, a.caller@, short),
            display_of(names, b.caller@, short),
            display_of(names, c.caller@, short),
        );
    }
}

proof fn lemma_key_lt_irreflexive(names: Seq<FunctionName>, short: bool, a: PathInfo)
    ensures
        !key_lt(names, short, a, a),
{
    lemma_bytes_lt_irreflexive(display_of(names, a.caller@, short));
}

fn key_less(names: &Vec<FunctionName>, short: bool, a: &PathInfo, b: &PathInfo) -> (r: bool)
    ensures
        r == key_lt(names@, short, *a, *b),
{
    if a.constraints != b.constraints {
        return a.constraints < b.constraints;
    }
    let empty: Vec<u8> = Vec::new();
    let na = display_path(names, &a.caller, short, &empty);
    let nb = display_path(names, &b.caller, short, &empty);
    bytes_less(na, nb)
}

/// `a` comes strictly before `b` in the order of reported callers: by the path
/// shown for the caller, then by accumulated depth, then by crossing count.
pub open spec fn info_lt(names: Seq<FunctionName>, short: bool, a: PathInfo, b: PathInfo) -> bool {
    let (na, nb) = (display_of(names, a.caller@, short), display_of(names, b.caller@, short));
    bytes_lt(na, nb) || (na == nb && (a.constraints < b.constraints || (a.constraints == b.constraints
        && a.package_num < b.package_num)))
}

/// Whether `a` comes strictly before `b` by (shown path, depth, crossing count).
pub fn path_info_less(names: &Vec<FunctionName>, short: bool, a: &PathInfo, b: &PathInfo) -> (r: bool)
    ensures
        r == info_lt(names@, short, *a, *b),
{
    let empty: Vec<u8> = Vec::new();
    let na = display_path(names, &a.caller, short, &empty);
    let nb = display_path(names, &b.caller, short, &empty);
    if bytes_less(na, nb) {
        return true;
    }
    if bytes_less(nb, na) {
        return false;
    }
    proof {
        lemma_bytes_lt_total(na@, nb@);
    }
    a.constraints < b.constraints || (a.constraints == b.constraints && a.package_num < b.package_num)
}

/// Orders reported callers by accumulated depth, then by the path shown for
/// them (the base path when `short`).
pub fn sort_callers(res: Vec<PathInfo>, names: &Vec<FunctionName>, short: bool) -> (r: Vec<PathInfo>)
    ensures
        sorted_by_key(names@, short, r@),
        r@.to_multiset() == res@.to_multiset(),
{
    let mut rest = res;
    let mut out: Vec<PathInfo> = Vec::new();
    proof {
        assert forall|a: PathInfo| out@.to_multiset().count(a) == 0 by {
            assert(!out@.contains(a));
        }
        assert(out@.to_multiset() =~= Multiset::empty());
        assert(out@.to_multiset().add(rest@.to_multiset()) =~= rest@.to_multiset());
    }
    while rest.len() > 0
        invariant
            sorted_by_key(names@, short, out@),
            out@.to_multiset().add(rest@.to_multiset()) == res@.to_multiset(),
        decreases rest@.len(),
    {
        let ghost before = rest@;
        let x = rest.pop().unwrap();
        assert(before == rest@.push(x));
        let mut p: usize = 0;
        while p < out.len() && !key_less(names, short, &x, &out[p])
            invariant
                p <= out@.len(),
                forall|i: int| 0 <= i < p ==> !key_lt(names@, short, x, #[trigger] out@[i]),
            decreases out@.len() - p,
        {
            p += 1;
        }
        let ghost old_out = out@;
        out.insert(p, x);
        proof {
            assert(out@ == old_out.insert(p as int, x));
            assert forall|i: int, j: int| 0 <= i < j < out@.len() implies !key_lt(names@, short, #[trigger] out@[j], #[trigger] out@[i]) by {
                if j < p {
                    assert(out@[i] == old_out[i] && out@[j] == old_out[j]);
                } else if j == p {
                    assert(out@[i] == old_out[i]);
                } else if i == p {
                    assert(out@[j] == old_out[j - 1]);
                    assert(p < old_out.len());
                    assert(key_lt(names@, short, x, old_out[p as int]));
                    if key_lt(names@, short, old_out[j - 1], x) {
                        lemma_key_lt_transitive(names@, short, old_out[j - 1], x, old_out[p as int]);
                        if j - 1 == p {
                            lemma_key_lt_irreflexive(names@, short, old_out[p as int]);
                        }
                    }
                } else if i < p {
                    assert(out@[i] == old_out[i] && out@[j] == old_out[j - 1]);
                } else {
                    assert(out@[i] == old_out[i - 1] && out@[j] == old_out[j - 1]);
                }
            }
            assert(out@.to_multiset() == old_out.to_multiset().insert(x));
            assert(before.to_multiset() == rest@.to_multiset().insert(x));
            assert(out@.to_multiset().add(rest@.to_multiset()) =~= old_out.to_multiset().add(before.to_multiset()));
        }
    }
    assert forall|a: PathInfo| rest@.to_multiset().count(a) == 0 by {
        assert(!rest@.contains(a));
    }
    assert(rest@.to_multiset() =~= Multiset::empty());
    assert(out@.to_multiset().add(Multiset::empty()) =~= out@.to_multiset());
    out
}

/// Index of the last `c` in `s`, or -1.
pub open spec fn rfind(s: Seq<u8>, c: u8) -> int
    decreases s.len(),
{
    if s.len() == 0 {
        -1
    } else if s.last() == c {
        s.len() - 1
    } else {
        rfind(s.drop_last(), c)
    }
}

/// The version reported for a crate: the local crate's own version when
/// known; else the part of its name after the last `-`, when that part starts
/// with a digit; else `0.0.0-` followed by the first 8 bytes of its hash.
pub open spec fn version_spec(name: Seq<u8>, hash: Seq<u8>, local: Option<Seq<u8>>) -> Seq<u8> {
    match local {
        Some(v) => v,
        None => {
            let i = rfind(name, 45u8);
            if i >= 0 && i + 1 < name.len() && 48u8 <= name[i + 1] <= 57u8 {
                name.subrange(i + 1, name.len() as int)
            } else {
                seq![48u8, 46u8, 48u8, 46u8, 48u8, 45u8] + hash.take(if hash.len() < 8 { hash.len() as int } else { 8 })
            }
        },
    }
}

/// The version reported for a crate named `name` with hash `hash`; `local` is
/// the version of the crate under analysis, given only for that crate.
pub fn crate_version(name: &[u8], hash: &[u8], local: Option<&[u8]>) -> (r: Vec<u8>)
    ensures
        r@ == version_spec(name@, hash@, match local {
            Some(v) => Some(v@),
            None => None,
        }),
{
    let mut r: Vec<u8> = Vec::new();
    match local {
        Some(v) => {
            let mut k: usize = 0;
            while k < v.len()
                invariant
                    k <= v@.len(),
                    r@ == v@.subrange(0, k as int),
                decreases v@.len() - k,
            {
                r.push(v[k]);
                k += 1;
                assert(r@ =~= v@.subrange(0, k as int));
            }
            assert(r@ =~= v@);
            return r;
        },
        None => {},
    }
    let n = name.len();
    let mut i: usize = n;
    assert(name@.subrange(0, n as int) =~= name@);
    while i > 0 && name[i - 1] != 45u8
        invariant
            i <= n,
            n == name@.len(),
            rfind(name@, 45u8) == rfind(name@.subrange(0, i as int), 45u8),
        decreases i,
    {
        assert(name@.subrange(0, i - 1) =~= name@.subrange(0, i as int).drop_last());
        i -= 1;
    }
    proof {
        if i > 0 {
            assert(name@.subrange(0, i as int).last() == 45u8);
        } else {
            assert(name@.subrange(0, 0) =~= Seq::<u8>::empty());
        }
    }
    if i > 0 && i < n && 48u8 <= name[i] && name[i] <= 57u8 {
        let mut k: usize = i;
        while k < n
            invariant
                i <= k <= n,
                n == name@.len(),
                r@ == name@.subrange(i as int, k as int),
            decreases n - k,
        {
            r.push(name[k]);
            k += 1;
            assert(r@ =~= name@.subrange(i as int, k as int));
        }
        return r;
    }
    r.push(48u8);
    r.push(46u8);
    r.push(48u8);
    r.push(46u8);
    r.push(48u8);
    r.push(45u8);
    let m = if hash.len() < 8 {
        hash.len()
    } else {
        8
    };
    let mut k: usize = 0;
    while k < m
        invariant
            k <= m,
            m <= hash@.len(),
            r@ == seq![48u8, 46u8, 48u8, 46u8, 48u8, 45u8] + hash@.take(k as int),
        decreases m - k,
    {
        r.push(hash[k]);
        k += 1;
        assert(r@ =~= seq![48u8, 46u8, 48u8, 46u8, 48u8, 45u8] + hash@.take(k as int));
    }
    r
}

/// The edges of `s` whose caller is `c`, in order.
pub open spec fn edges_from(s: Seq<EdgeView>, c: InstanceView) -> Seq<EdgeView>
    decreases s.len(),
{
    if s.len() == 0 {
        Seq::empty()
    } else if s.last().0 == c {
        edges_from(s.drop_last(), c).push(s.last())
    } else {
        edges_from(s.drop_last(), c)
    }
}

/// Edge `a` comes strictly before edge `b` in a caller's listing: by the path
/// shown for the callee, then by depth.
pub open spec fn call_lt(names: Seq<FunctionName>, short: bool, a: EdgeView, b: EdgeView) -> bool {
    bytes_lt(display_of(names, a.1, short), display_of(names, b.1, short)) || (display_of(names, a.1, short)
        == display_of(names, b.1, short) && a.2 < b.2)
}

proof fn lemma_call_lt_transitive(names: Seq<FunctionName>, short: bool, a: EdgeView, b: EdgeView, c: EdgeView)
    requires
        call_lt(names, short, a, b),
        call_lt(names, short, b, c),
    ensures
        call_lt(names, short, a, c),
{
    let (da, db, dc) = (display_of(names, a.1, short), display_of(names, b.1, short), display_of(names, c.1, short));
    if bytes_lt(da, db) && bytes_lt(db, dc) {
        lemma_bytes_lt_transitive(da, db, dc);
    }
}

proof fn lemma_call_lt_irreflexive(names: Seq<FunctionName>, short: bool, a: EdgeView)
    ensures
        !call_lt(names, short, a, a),
{
    lemma_bytes_lt_irreflexive(display_of(names, a.1, short));
}

fn call_less(names: &Vec<FunctionName>, short: bool, a: &CallSite, b: &CallSite) -> (r: bool)
    ensures
        r == call_lt(names@, short, a@, b@),
{
    let empty: Vec<u8> = Vec::new();
    let na = display_path(names, a.callee_ref(), short, &empty);
    let nb = display_path(names, b.callee_ref(), short, &empty);
    if bytes_less(na, nb) {
        return true;
    }
    if bytes_less(nb, na) {
        return false;
    }
    proof {
        lemma_bytes_lt_total(na@, nb@);
    }
    a.constraint_count() < b.constraint_count()
}

proof fn lemma_bytes_lt_total(a: Seq<u8>, b: Seq<u8>)
    requires
        !bytes_lt(a, b),
        !bytes_lt(b, a),
    ensures
        a == b,
    decreases a.len(),
{
    if a.len() > 0 && b.len() > 0 {
        lemma_bytes_lt_total(a.drop_first(), b.drop_first());
        assert(a =~= seq![a[0]] + a.drop_first());
        assert(b =~= seq![b[0]] + b.drop_first());
    } else if a.len() == 0 && b.len() == 0 {
        assert(a =~= b);
    }
}

/// `s` lists edges in order of `call_lt`.
pub open spec fn calls_sorted(names: Seq<FunctionName>, short: bool, s: Seq<EdgeView>) -> bool {
    forall|i: int, j: int| 0 <= i < j < s.len() ==> !call_lt(names, short, #[trigger] s[j], #[trigger] s[i])
}

/// Orders edges by the path shown for the callee, then by depth.
fn sort_calls(v: Vec<CallSite>, names: &Vec<FunctionName>, short: bool) -> (r: Vec<CallSite>)
    ensures
        calls_sorted(names@, short, edge_views(r@)),
        edge_views(r@).to_multiset() == edge_views(v@).to_multiset(),
{
    let ghost orig = edge_views(v@);
    let mut rest = v;
    let mut out: Vec<CallSite> = Vec::new();
    proof {
        assert forall|a: EdgeView| edge_views(out@).to_multiset().count(a) == 0 by {
            assert(!edge_views(out@).contains(a));
        }
        assert(edge_views(out@).to_multiset() =~= Multiset::empty());
        assert(edge_views(out@).to_multiset().add(edge_views(rest@).to_multiset()) =~= orig.to_multiset());
    }
    while rest.len() > 0
        invariant
            calls_sorted(names@, short, edge_views(out@)),
            edge_views(out@).to_multiset().add(edge_views(rest@).to_multiset()) == orig.to_multiset(),
        decreases rest@.len(),
    {
        let ghost before = edge_views(rest@);
        let x = rest.pop().unwrap();
        assert(before =~= edge_views(rest@).push(x@));
        let mut p: usize = 0;
        while p < out.len() && !call_less(names, short, &x, &out[p])
            invariant
                p <= out@.len(),
                forall|i: int| 0 <= i < p ==> !call_lt(names@, short, x@, #[trigger] edge_views(out@)[i]),
            decreases out@.len() - p,
        {
            p += 1;
        }
        let ghost old_out = edge_views(out@);
        out.insert(p, x);
        proof {
            let o = edge_views(out@);
            assert(o =~= old_out.insert(p as int, x@));
            assert forall|i: int, j: int| 0 <= i < j < o.len() implies !call_lt(names@, short, #[trigger] o[j], #[trigger] o[i]) by {
                if j < p {
                    assert(o[i] == old_out[i] && o[j] == old_out[j]);
                } else if j == p {
                    assert(o[i] == old_out[i]);
                } else if i == p {
                    assert(o[j] == old_out[j - 1]);
                    assert(call_lt(names@, short, x@, old_out[p as int]));
                    if call_lt(names@, short, old_out[j - 1], x@) {
                        lemma_call_lt_transitive(names@, short, old_out[j - 1], x@, old_out[p as int]);
                        if j - 1 == p {
                            lemma_call_lt_irreflexive(names@, short, old_out[p as int]);
                        }
                    }
                } else if i < p {
                    assert(o[i] == old_out[i] && o[j] == old_out[j - 1]);
                } else {
                    assert(o[i] == old_out[i - 1] && o[j] == old_out[j - 1]);
                }
            }
            assert(o.to_multiset() == old_out.to_multiset().insert(x@));
            assert(before.to_multiset() == edge_views(rest@).to_multiset().insert(x@));
            assert(o.to_multiset().add(edge_views(rest@).to_multiset()) =~= old_out.to_multiset().add(before.to_multiset()));
        }
    }
    proof {
        assert forall|a: EdgeView| edge_views(rest@).to_multiset().count(a) == 0 by {
            assert(!edge_views(rest@).contains(a));
        }
        assert(edge_views(rest@).to_multiset() =~= Multiset::empty());
        assert(edge_views(out@).to_multiset().add(Multiset::empty()) =~= edge_views(out@).to_multiset());
    }
    out
}

/// The edges of one caller, for a listing of the call graph.
#[derive(Debug)]
pub struct CallerGroup {
    pub caller: FunctionInstance,
    /// The caller's edges, by the path shown for the callee, then by depth.
    pub calls: Vec<CallSite>,
    /// The largest depth among the caller's edges.
    pub max_depth: usize,
}

/// `grp` lists exactly the edges of `edges` from its caller, in order of
/// `call_lt`, with their largest depth.
pub open spec fn group_ok(edges: Seq<EdgeView>, names: Seq<FunctionName>, short: bool, grp: CallerGroup) -> bool {
    &&& edge_views(grp.calls@).to_multiset() == edges_from(edges, grp.caller@).to_multiset()
    &&& calls_sorted(names, short, edge_views(grp.calls@))
    &&& forall|k: int| 0 <= k < grp.calls@.len() ==> (#[trigger] edge_views(grp.calls@)[k]).2 <= grp.max_depth
    &&& grp.calls@.len() > 0 ==> exists|k: int|
        0 <= k < grp.calls@.len() && (#[trigger] edge_views(grp.calls@)[k]).2 == grp.max_depth
}

/// The edges of `s` whose caller is `c`, in order.
fn calls_from(s: &Vec<CallSite>, c: &FunctionInstance) -> (r: Vec<CallSite>)
    ensures
        edge_views(r@) == edges_from(edge_views(s@), c@),
{
    let ghost ev = edge_views(s@);
    let mut r: Vec<CallSite> = Vec::new();
    let mut i: usize = 0;
    while i < s.len()
        invariant
            ev == edge_views(s@),
            i <= s@.len(),
            edge_views(r@) == edges_from(ev.subrange(0, i as int), c@),
        decreases s@.len() - i,
    {
        let ghost pre = ev.subrange(0, i as int);
        assert(ev.subrange(0, i + 1).drop_last() =~= pre);
        assert(ev.subrange(0, i + 1).last() == ev[i as int]);
        if s[i].caller_ref().same(c) {
            let ghost old_r = edge_views(r@);
            r.push(s[i].copy());
            assert(edge_views(r@) =~= old_r.push(ev[i as int]));
        }
        i += 1;
    }
    assert(ev.subrange(0, i as int) =~= ev);
    r
}

/// The largest depth of `s`, 0 when empty.
fn max_depth_of(s: &Vec<CallSite>) -> (r: usize)
    ensures
        forall|k: int| 0 <= k < s@.len() ==> (#[trigger] edge_views(s@)[k]).2 <= r,
        s@.len() > 0 ==> exists|k: int| 0 <= k < s@.len() && (#[trigger] edge_views(s@)[k]).2 == r,
{
    let mut m: usize = 0;
    let mut i: usize = 0;
    while i < s.len()
        invariant
            i <= s@.len(),
            forall|k: int| 0 <= k < i ==> (#[trigger] edge_views(s@)[k]).2 <= m,
            i > 0 ==> exists|k: int| 0 <= k < i && (#[trigger] edge_views(s@)[k]).2 == m,
            i == 0 ==> m == 0,
        decreases s@.len() - i,
    {
        let d = s[i].constraint_count();
        assert(edge_views(s@)[i as int].2 == d);
        if i == 0 || d > m {
            m = d;
        }
        i += 1;
    }
    m
}

/// The distinct callers of `s`, in order of first appearance, each with the
/// index of an edge it calls from.
fn distinct_callers(s: &Vec<CallSite>) -> (r: (Vec<FunctionInstance>, Ghost<Seq<int>>))
    ensures
        crate::builder::distinct(crate::instance::views(r.0@)),
        forall|e: int| 0 <= e < s@.len() ==> crate::instance::views(r.0@).contains(#[trigger] edge_views(s@)[e].0),
        r.1@.len() == r.0@.len(),
        forall|k: int| 0 <= k < r.0@.len() ==> 0 <= #[trigger] r.1@[k] < s@.len() && edge_views(s@)[r.1@[k]].0 == r.0@[k]@,
{
    let ghost ev = edge_views(s@);
    let mut callers: Vec<FunctionInstance> = Vec::new();
    let ghost mut wit: Seq<int> = Seq::empty();
    let mut i: usize = 0;
    while i < s.len()
        invariant
            ev == edge_views(s@),
            i <= s@.len(),
            crate::builder::distinct(crate::instance::views(callers@)),
            forall|e: int| 0 <= e < i ==> crate::instance::views(callers@).contains(#[trigger] ev[e].0),
            wit.len() == callers@.len(),
            forall|k: int| 0 <= k < callers@.len() ==> 0 <= #[trigger] wit[k] < i && ev[wit[k]].0 == callers@[k]@,
        decreases s@.len() - i,
    {
        let c = s[i].caller_ref();
        let ghost old_c = crate::instance::views(callers@);
        match crate::instance::position_of(&callers, c) {
            Some(p) => {
                assert(crate::instance::views(callers@)[p as int] == ev[i as int].0);
            },
            None => {
                callers.push(c.copy());
                proof {
                    wit = wit.push(i as int);
                    let nc = crate::instance::views(callers@);
                    assert(nc =~= old_c.push(c@));
                    assert forall|e: int| 0 <= e < i + 1 implies nc.contains(#[trigger] ev[e].0) by {
                        if e < i {
                            let w = choose|w: int| 0 <= w < old_c.len() && old_c[w] == ev[e].0;
                            assert(nc[w] == old_c[w]);
                        } else {
                            assert(nc[old_c.len() as int] == ev[e].0);
                        }
                    }
                    assert forall|a: int, b: int| 0 <= a < b < nc.len() implies nc[a] != nc[b] by {
                        if b == old_c.len() {
                            assert(nc[a] == old_c[a]);
                        }
                    }
                }
            },
        }
        i += 1;
    }
    (callers, Ghost(wit))
}

/// The group of caller `c`.
fn make_group(s: &Vec<CallSite>, c: FunctionInstance, names: &Vec<FunctionName>, short: bool) -> (r: CallerGroup)
    ensures
        group_ok(edge_views(s@), names@, short, r),
        r.caller@ == c@,
{
    let calls = sort_calls(calls_from(s, &c), names, short);
    let max_depth = max_depth_of(&calls);
    CallerGroup { caller: c, calls, max_depth }
}

/// Groups in order of the path shown for their callers.
pub open spec fn groups_sorted(names: Seq<FunctionName>, short: bool, s: Seq<CallerGroup>) -> bool {
    forall|a: int, b: int|
        0 <= a < b < s.len() ==> !bytes_lt(
            display_of(names, (#[trigger] s[b]).caller@, short),
            display_of(names, (#[trigger] s[a]).caller@, short),
        )
}

/// Inserts `grp` after every group whose caller's path does not come after its own.
fn insert_group(out: &mut Vec<CallerGroup>, grp: CallerGroup, names: &Vec<FunctionName>, short: bool) -> (p: usize)
    requires
        groups_sorted(names@, short, old(out)@),
    ensures
        p <= old(out)@.len(),
        final(out)@ == old(out)@.insert(p as int, grp),
        groups_sorted(names@, short, final(out)@),
{
    let empty: Vec<u8> = Vec::new();
    let mut p: usize = 0;
    while p < out.len() && !bytes_less(
        display_path(names, &grp.caller, short, &empty),
        display_path(names, &out[p].caller, short, &empty),
    )
        invariant
            p <= out@.len(),
            empty@.len() == 0,
            forall|x: int|
                0 <= x < p ==> !bytes_lt(
                    display_of(names@, grp.caller@, short),
                    display_of(names@, (#[trigger] out@[x]).caller@, short),
                ),
        decreases out@.len() - p,
    {
        p += 1;
    }
    let ghost old_out = out@;
    let ghost gv = grp;
    out.insert(p, grp);
    proof {
        let o = out@;
        assert forall|a: int, b: int| 0 <= a < b < o.len() implies !bytes_lt(
            display_of(names@, (#[trigger] o[b]).caller@, short),
            display_of(names@, (#[trigger] o[a]).caller@, short),
        ) by {
            let da = display_of(names@, o[a].caller@, short);
            let db = display_of(names@, o[b].caller@, short);
            if b < p {
                assert(o[a] == old_out[a] && o[b] == old_out[b]);
            } else if b == p {
                assert(o[a] == old_out[a]);
            } else if a == p {
                assert(o[b] == old_out[b - 1]);
                let dp = display_of(names@, old_out[p as int].caller@, short);
                assert(bytes_lt(display_of(names@, gv.caller@, short), dp));
                if bytes_lt(db, da) {
                    lemma_bytes_lt_transitive(db, da, dp);
                    if b - 1 == p {
                        lemma_bytes_lt_irreflexive(dp);
                    }
                }
            } else if a < p {
                assert(o[a] == old_out[a] && o[b] == old_out[b - 1]);
            } else {
                assert(o[a] == old_out[a - 1] && o[b] == old_out[b - 1]);
            }
        }
    }
    p
}

/// Groups whose callers are `dv[pos[k]]`, for distinct positions below `d`.
pub open spec fn groups_track(out: Seq<CallerGroup>, dv: Seq<InstanceView>, pos: Seq<int>, d: int) -> bool {
    &&& pos.len() == out.len()
    &&& forall|k: int| 0 <= k < out.len() ==> 0 <= #[trigger] pos[k] < d && out[k].caller@ == dv[pos[k]]
    &&& forall|a: int, b: int| 0 <= a < b < pos.len() ==> #[trigger] pos[a] != #[trigger] pos[b]
    &&& forall|x: int| 0 <= x < d ==> #[trigger] pos.contains(x)
}

proof fn lemma_track_insert(
    out: Seq<CallerGroup>,
    dv: Seq<InstanceView>,
    pos: Seq<int>,
    d: int,
    p: int,
    g: CallerGroup,
)
    requires
        groups_track(out, dv, pos, d),
        0 <= p <= out.len(),
        0 <= d < dv.len(),
        g.caller@ == dv[d],
    ensures
        groups_track(out.insert(p, g), dv, pos.insert(p, d), d + 1),
{
    let o = out.insert(p, g);
    let q = pos.insert(p, d);
    assert(pos.len() == out.len());
    assert(q.len() == pos.len() + 1);
    assert forall|k: int| 0 <= k < o.len() implies 0 <= #[trigger] q[k] < d + 1 && o[k].caller@ == dv[q[k]] by {
        if k < p {
            assert(o[k] == out[k] && q[k] == pos[k]);
        } else if k > p {
            assert(o[k] == out[k - 1] && q[k] == pos[k - 1]);
        }
    }
    assert forall|a: int, b: int| 0 <= a < b < q.len() implies #[trigger] q[a] != #[trigger] q[b] by {
        if a != p && b != p {
            let a0 = if a < p { a } else { a - 1 };
            let b0 = if b < p { b } else { b - 1 };
            assert(q[a] == pos[a0] && q[b] == pos[b0]);
        } else if a == p {
            assert(q[b] == pos[b - 1]);
        } else {
            let a0 = if a < p { a } else { a - 1 };
            assert(q[a] == pos[a0]);
        }
    }
    assert forall|x: int| 0 <= x < d + 1 implies #[trigger] q.contains(x) by {
        if x < d {
            assert(pos.contains(x));
            let w = choose|w: int| 0 <= w < pos.len() && pos[w] == x;
            if w < p {
                assert(q[w] == pos[w]);
            } else {
                assert(q[w + 1] == pos[w]);
            }
        } else {
            assert(q[p] == d);
        }
    }
}

proof fn lemma_ok_insert(edges: Seq<EdgeView>, names: Seq<FunctionName>, short: bool, out: Seq<CallerGroup>, p: int, g: CallerGroup)
    requires
        forall|k: int| 0 <= k < out.len() ==> group_ok(edges, names, short, #[trigger] out[k]),
        group_ok(edges, names, short, g),
        0 <= p <= out.len(),
    ensures
        forall|k: int| 0 <= k < out.len() + 1 ==> group_ok(edges, names, short, #[trigger] out.insert(p, g)[k]),
{
    let o = out.insert(p, g);
    assert forall|k: int| 0 <= k < out.len() + 1 implies group_ok(edges, names, short, #[trigger] o[k]) by {
        if k < p {
            assert(o[k] == out[k]);
        } else if k > p {
            assert(o[k] == out[k - 1]);
        }
    }
}

/// Some group of `r` is that of caller `c`.
pub open spec fn has_group(r: Seq<CallerGroup>, c: InstanceView) -> bool {
    exists|k: int| 0 <= k < r.len() && r[k].caller@ == c
}

/// Some edge of `edges` has caller `c`.
pub open spec fn has_edge_from(edges: Seq<EdgeView>, c: InstanceView) -> bool {
    exists|e: int| 0 <= e < edges.len() && edges[e].0 == c
}

/// The edges of `g` grouped by caller: each caller of an edge exactly once,
/// groups ordered by the path shown for the caller (the base path when `g`
/// leaves generic arguments out), each group as `group_ok` says.
pub fn group_call_graph(g: &CallGraph, names: &Vec<FunctionName>) -> (r: Vec<CallerGroup>)
    ensures
        forall|k: int| 0 <= k < r@.len() ==> group_ok(edge_views(g.call_sites@), names@, g.without_args, #[trigger] r@[k]),
        groups_sorted(names@, g.without_args, r@),
        forall|i: int, j: int| 0 <= i < j < r@.len() ==> (#[trigger] r@[i]).caller@ != (#[trigger] r@[j]).caller@,
        forall|e: int| 0 <= e < g.call_sites@.len() ==> has_group(r@, (#[trigger] edge_views(g.call_sites@)[e]).0),
        forall|k: int| 0 <= k < r@.len() ==> has_edge_from(edge_views(g.call_sites@), (#[trigger] r@[k]).caller@),
{
    let ghost ev = edge_views(g.call_sites@);
    let short = g.without_args;
    let pair = distinct_callers(&g.call_sites);
    let callers = pair.0;
    let ghost wit = pair.1@;
    let ghost dv = crate::instance::views(callers@);
    assert(forall|e: int| 0 <= e < g.call_sites@.len() ==> dv.contains(#[trigger] ev[e].0));
    assert(forall|k: int| 0 <= k < callers@.len() ==> 0 <= #[trigger] wit[k] < g.call_sites@.len() && ev[wit[k]].0 == callers@[k]@);
    let mut out: Vec<CallerGroup> = Vec::new();
    let ghost mut pos: Seq<int> = Seq::empty();
    let mut d: usize = 0;
    while d < callers.len()
        invariant
            ev == edge_views(g.call_sites@),
            short == g.without_args,
            dv == crate::instance::views(callers@),
            d <= callers@.len(),
            forall|e: int| 0 <= e < g.call_sites@.len() ==> dv.contains(#[trigger] ev[e].0),
            forall|k: int| 0 <= k < callers@.len() ==> 0 <= #[trigger] wit[k] < g.call_sites@.len() && ev[wit[k]].0 == callers@[k]@,
            forall|k: int| 0 <= k < out@.len() ==> group_ok(ev, names@, short, #[trigger] out@[k]),
            groups_sorted(names@, short, out@),
            groups_track(out@, dv, pos, d as int),
        decreases callers@.len() - d,
    {
        let grp = make_group(&g.call_sites, callers[d].copy(), names, short);
        let ghost gv = grp;
        let ghost old_out = out@;
        let p = insert_group(&mut out, grp, names, short);
        proof {
            assert(gv.caller@ == dv[d as int]);
            lemma_track_insert(old_out, dv, pos, d as int, p as int, gv);
            lemma_ok_insert(ev, names@, short, old_out, p as int, gv);
            pos = pos.insert(p as int, d as int);
        }
        d += 1;
    }
    proof {
        assert forall|i: int, j: int| 0 <= i < j < out@.len() implies (#[trigger] out@[i]).caller@ != (#[trigger] out@[j]).caller@ by {
            assert(pos[i] != pos[j]);
            assert(dv[pos[i]] != dv[pos[j]]) by {
                if pos[i] < pos[j] {
                } else {
                }
            }
        }
        assert forall|e: int| 0 <= e < g.call_sites@.len() implies has_group(out@, (#[trigger] ev[e]).0) by {
            let w = choose|w: int| 0 <= w < dv.len() && dv[w] == ev[e].0;
            assert(pos.contains(w));
            let k = choose|k: int| 0 <= k < pos.len() && pos[k] == w;
            assert(out@[k].caller@ == dv[w]);
        }
        assert forall|k: int| 0 <= k < out@.len() implies has_edge_from(ev, (#[trigger] out@[k]).caller@) by {
            let x = pos[k];
            assert(callers@[x]@ == dv[x]);
            let e = wit[x];
            assert(0 <= e < g.call_sites@.len());
            assert(ev[e].0 == callers@[x]@);
        }
    }
    out
}

} // verus!
