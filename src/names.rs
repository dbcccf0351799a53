use vstd::prelude::*;
use vstd::string::StringSliceAdditionalSpecFns;

use crate::graph::{edge_views, CallGraph, EdgeView};
use crate::instance::{views, FunctionInstance, InstanceView};
use crate::query::{
    distinct_callers, is_edge_path, lemma_reverse_reachability, path_depth, reverse_closed,
    reverse_reaching, reverse_supported, PathInfo,
};

verus! {

/// `s` with every generic-argument segment `::<...>` removed, read from a point
/// `depth` angle brackets deep inside such a segment.
pub open spec fn strip_generics(s: Seq<u8>, depth: nat) -> Seq<u8>
    decreases s.len(),
{
    if s.len() == 0 {
        Seq::empty()
    } else if depth == 0 {
        if s.len() >= 3 && s[0] == 58u8 && s[1] == 58u8 && s[2] == 60u8 {
            strip_generics(s.subrange(3, s.len() as int), 1)
        } else {
            seq![s[0]] + strip_generics(s.drop_first(), 0)
        }
    } else if s[0] == 60u8 {
        strip_generics(s.drop_first(), depth + 1)
    } else if s[0] == 62u8 {
        strip_generics(s.drop_first(), (depth - 1) as nat)
    } else {
        strip_generics(s.drop_first(), depth)
    }
}

/// Removes every generic-argument segment `::<...>` from a path.
pub fn process_path(path: &[u8]) -> (r: Vec<u8>)
    ensures
        r@ == strip_generics(path@, 0),
{
    let mut r: Vec<u8> = Vec::new();
    let mut depth: usize = 0;
    let mut i: usize = 0;
    let n = path.len();
    assert(path@.subrange(0, n as int) =~= path@);
    assert(r@ + strip_generics(path@, 0) =~= strip_generics(path@, 0));
    while i < n
        invariant
            n == path@.len(),
            i <= n,
            depth <= i,
            r@ + strip_generics(path@.subrange(i as int, n as int), depth as nat) == strip_generics(path@, 0),
        decreases n - i,
    {
        let ghost rest = path@.subrange(i as int, n as int);
        let c = path[i];
        if depth == 0 {
            if n - i >= 3 && c == 58u8 && path[i + 1] == 58u8 && path[i + 2] == 60u8 {
                assert(rest.subrange(3, rest.len() as int) =~= path@.subrange(i + 3, n as int));
                depth = 1;
                i = i + 3;
            } else {
                assert(rest.drop_first() =~= path@.subrange(i + 1, n as int));
                let ghost old_r = r@;
                r.push(c);
                assert(r@ + strip_generics(path@.subrange(i + 1, n as int), 0) =~= old_r + (seq![c]
                    + strip_generics(rest.drop_first(), 0)));
                i = i + 1;
            }
        } else {
            assert(rest.drop_first() =~= path@.subrange(i + 1, n as int));
            if c == 60u8 {
                depth = depth + 1;
            } else if c == 62u8 {
                depth = depth - 1;
            }
            i = i + 1;
        }
    }
    assert(path@.subrange(n as int, n as int) =~= Seq::<u8>::empty());
    assert(r@ + Seq::<u8>::empty() =~= r@);
    r
}

/// `needle` occurs in `hay` at position `i`.
pub open spec fn occurs_at(hay: Seq<u8>, needle: Seq<u8>, i: int) -> bool {
    0 <= i && i + needle.len() <= hay.len() && hay.subrange(i, i + needle.len()) == needle
}

/// `needle` occurs somewhere in `hay`.
pub open spec fn has_substring(hay: Seq<u8>, needle: Seq<u8>) -> bool {
    exists|i: int| occurs_at(hay, needle, i)
}

/// Whether `needle` occurs in `hay` at position `i`.
fn matches_at(hay: &[u8], needle: &[u8], i: usize) -> (r: bool)
    requires
        i + needle@.len() <= hay@.len(),
    ensures
        r == occurs_at(hay@, needle@, i as int),
{
    let hl = hay.len();
    let mut k: usize = 0;
    while k < needle.len()
        invariant
            hl == hay@.len(),
            i + needle@.len() <= hay@.len(),
            k <= needle@.len(),
            forall|j: int| 0 <= j < k ==> hay@[i + j] == needle@[j],
        decreases needle@.len() - k,
    {
        if hay[i + k] != needle[k] {
            assert(hay@.subrange(i as int, i + needle@.len())[k as int] != needle@[k as int]);
            return false;
        }
        k += 1;
    }
    assert(hay@.subrange(i as int, i + needle@.len()) =~= needle@);
    true
}

/// Whether `needle` occurs in `hay`.
pub fn contains_bytes(hay: &[u8], needle: &[u8]) -> (r: bool)
    ensures
        r == has_substring(hay@, needle@),
{
    if needle.len() > hay.len() {
        return false;
    }
    let last = hay.len() - needle.len();
    let mut i: usize = 0;
    loop
        invariant
            last + needle@.len() == hay@.len(),
            i <= last,
            forall|j: int| 0 <= j < i ==> !occurs_at(hay@, needle@, j),
        decreases last - i,
    {
        if matches_at(hay, needle, i) {
            return true;
        }
        if i == last {
            assert forall|j: int| !occurs_at(hay@, needle@, j) by {
                if 0 <= j < i {
                } else if j != i {
                }
            }
            return false;
        }
        i += 1;
    }
}

/// Whether a function whose path is `full` with generic arguments and `base`
/// without them matches the searched path `target`: when `target` names
/// generic arguments (holds `<`), by substring of either path as it is;
/// otherwise by substring of either path with its generic segments removed.
pub open spec fn path_matches_spec(full: Seq<u8>, base: Seq<u8>, target: Seq<u8>) -> bool {
    if target.contains(60u8) {
        has_substring(base, target) || has_substring(full, target)
    } else {
        has_substring(strip_generics(base, 0), target) || has_substring(strip_generics(full, 0), target)
    }
}

/// Whether the function paths `full` and `base` match the searched path `target`.
pub fn path_matches(full: &[u8], base: &[u8], target: &[u8]) -> (r: bool)
    ensures
        r == path_matches_spec(full@, base@, target@),
{
    let mut has_angle = false;
    let mut i: usize = 0;
    while i < target.len()
        invariant
            i <= target@.len(),
            has_angle == exists|j: int| 0 <= j < i && target@[j] == 60u8,
        decreases target@.len() - i,
    {
        if target[i] == 60u8 {
            has_angle = true;
        }
        i += 1;
    }
    if has_angle {
        contains_bytes(base, target) || contains_bytes(full, target)
    } else {
        let clean_base = process_path(base);
        let clean_full = process_path(full);
        contains_bytes(clean_base.as_slice(), target) || contains_bytes(clean_full.as_slice(), target)
    }
}

/// The identifiers of one instance: its display paths, with and without
/// generic arguments, and its stable hash.
#[derive(Debug)]
pub struct FunctionName {
    pub instance: FunctionInstance,
    /// Path with generic arguments, as UTF-8.
    pub full: Vec<u8>,
    /// Path without generic arguments, as UTF-8.
    pub base: Vec<u8>,
    /// Stable structural hash, as UTF-8.
    pub hash: Vec<u8>,
    /// Version of the crate that defines it (see `report::crate_version`), as UTF-8.
    pub version: Vec<u8>,
}

/// How a query names its target functions.
#[derive(Clone, Copy, Debug, PartialEq, Eq, Structural)]
pub enum TargetMode {
    /// By (a part of) the function path.
    Path,
    /// By the exact stable hash.
    Hash,
}

/// Entry `n` names a function that `target` designates in `mode`.
pub open spec fn entry_matches(n: FunctionName, target: Seq<u8>, mode: TargetMode) -> bool {
    match mode {
        TargetMode::Path => path_matches_spec(n.full@, n.base@, target),
        TargetMode::Hash => n.hash@ == target,
    }
}

/// `names` designates `x` by `target` in `mode`.
pub open spec fn name_matches(names: Seq<FunctionName>, x: InstanceView, target: Seq<u8>, mode: TargetMode) -> bool {
    exists|k: int| 0 <= k < names.len() && names[k].instance@ == x && entry_matches(names[k], target, mode)
}

/// `x` is a callee of some edge of `edges` that `target` designates in `mode`.
pub open spec fn matching_callee(
    edges: Seq<EdgeView>,
    names: Seq<FunctionName>,
    target: Seq<u8>,
    mode: TargetMode,
    x: InstanceView,
) -> bool {
    (exists|e: int| 0 <= e < edges.len() && edges[e].1 == x) && name_matches(names, x, target, mode)
}

fn bytes_equal(a: &[u8], b: &[u8]) -> (r: bool)
    ensures
        r == (a@ == b@),
{
    if a.len() != b.len() {
        return false;
    }
    let mut i: usize = 0;
    while i < a.len()
        invariant
            a@.len() == b@.len(),
            i <= a@.len(),
            forall|j: int| 0 <= j < i ==> a@[j] == b@[j],
        decreases a@.len() - i,
    {
        if a[i] != b[i] {
            return false;
        }
        i += 1;
    }
    assert(a@ =~= b@);
    true
}

fn entry_match(n: &FunctionName, target: &[u8], mode: TargetMode) -> (r: bool)
    ensures
        r == entry_matches(*n, target@, mode),
{
    match mode {
        TargetMode::Path => path_matches(n.full.as_slice(), n.base.as_slice(), target),
        TargetMode::Hash => bytes_equal(n.hash.as_slice(), target),
    }
}

fn name_match(names: &Vec<FunctionName>, x: &FunctionInstance, target: &[u8], mode: TargetMode) -> (r: bool)
    ensures
        r == name_matches(names@, x@, target@, mode),
{
    let mut k: usize = 0;
    while k < names.len()
        invariant
            k <= names@.len(),
            forall|j: int| 0 <= j < k ==> !(names@[j].instance@ == x@ && entry_matches(names@[j], target@, mode)),
        decreases names@.len() - k,
    {
        if names[k].instance.same(x) && entry_match(&names[k], target, mode) {
            return true;
        }
        k += 1;
    }
    false
}

impl CallGraph {
    /// The callees of the graph that `target` designates in `mode`, in edge order.
    pub fn matching_callees(&self, names: &Vec<FunctionName>, target: &[u8], mode: TargetMode) -> (r: Vec<FunctionInstance>)
        ensures
            forall|x: InstanceView| views(r@).contains(x) <==> matching_callee(
                edge_views(self.call_sites@),
                names@,
                target@,
                mode,
                x,
            ),
    {
        let ghost ev = edge_views(self.call_sites@);
        let mut r: Vec<FunctionInstance> = Vec::new();
        let mut i: usize = 0;
        while i < self.call_sites.len()
            invariant
                ev == edge_views(self.call_sites@),
                i <= self.call_sites@.len(),
                forall|x: InstanceView| views(r@).contains(x) <==> ((exists|e: int| 0 <= e < i && ev[e].1 == x)
                    && name_matches(names@, x, target@, mode)),
            decreases self.call_sites@.len() - i,
        {
            let c = self.call_sites[i].callee_ref();
            let ghost old_r = views(r@);
            let ok = name_match(names, c, target, mode);
            if ok {
                r.push(c.copy());
            }
            proof {
                let nr = views(r@);
                assert forall|x: InstanceView| nr.contains(x) <==> ((exists|e: int| 0 <= e < i + 1 && ev[e].1 == x)
                    && name_matches(names@, x, target@, mode)) by {
                    if nr.contains(x) {
                        let w = choose|w: int| 0 <= w < nr.len() && nr[w] == x;
                        if w < old_r.len() {
                            assert(old_r[w] == x);
                            assert(old_r.contains(x));
                            let e = choose|e: int| 0 <= e < i && ev[e].1 == x;
                            assert(0 <= e < i + 1 && ev[e].1 == x);
                        } else {
                            assert(x == c@);
                            assert(ev[i as int].1 == x);
                        }
                    }
                    if (exists|e: int| 0 <= e < i + 1 && ev[e].1 == x) && name_matches(names@, x, target@, mode) {
                        let e = choose|e: int| 0 <= e < i + 1 && ev[e].1 == x;
                        if e < i {
                            assert(old_r.contains(x));
                            let w = choose|w: int| 0 <= w < old_r.len() && old_r[w] == x;
                            assert(nr[w] == old_r[w]);
                        } else {
                            assert(x == c@);
                            assert(nr[nr.len() - 1] == x);
                        }
                    }
                }
            }
            i += 1;
        }
        r
    }

    /// All direct and transitive callers of the functions that `target`
    /// designates in `mode`; `None` when no callee of the graph is designated,
    /// or when those have no callers.
    pub fn find_callers_by(&self, names: &Vec<FunctionName>, target: &str, mode: TargetMode) -> (r: Option<Vec<PathInfo>>)
        ensures
            query_result(edge_views(self.call_sites@), names@, target.spec_bytes(), mode, r),
    {
        let targets = self.matching_callees(names, target.as_bytes(), mode);
        let r = self.find_callers(&targets);
        let ghost tv = views(targets@);
        assert(tv.len() == targets@.len());
        assert(callers_found(edge_views(self.call_sites@), names@, target.spec_bytes(), mode, tv, r)) by {
            reveal(callers_found);
        }
        r
    }

    /// All direct and transitive callers of the functions whose paths match
    /// `target_path` (see `path_matches_spec`).
    pub fn find_callers_by_path(&self, names: &Vec<FunctionName>, target_path: &str) -> (r: Option<Vec<PathInfo>>)
        ensures
            query_result(edge_views(self.call_sites@), names@, target_path.spec_bytes(), TargetMode::Path, r),
    {
        self.find_callers_by(names, target_path, TargetMode::Path)
    }

    /// All direct and transitive callers of the functions whose stable hash is `hash`.
    pub fn find_callers_by_hash(&self, names: &Vec<FunctionName>, hash: &str) -> (r: Option<Vec<PathInfo>>)
        ensures
            query_result(edge_views(self.call_sites@), names@, hash.spec_bytes(), TargetMode::Hash, r),
    {
        self.find_callers_by(names, hash, TargetMode::Hash)
    }

    /// A caller query by path or by hash; asking for both is refused.
    pub fn find_callers_of(&self, names: &Vec<FunctionName>, path: Option<&str>, hash: Option<&str>) -> (r: Result<
        Option<Vec<PathInfo>>,
        QueryError,
    >)
        ensures
            (path is Some && hash is Some) <==> r == Err::<Option<Vec<PathInfo>>, QueryError>(QueryError::ConflictingTargets),
            (path is None && hash is None) ==> r == Ok::<Option<Vec<PathInfo>>, QueryError>(None),
            (path is Some && hash is None) ==> r is Ok && query_result(edge_views(self.call_sites@), names@, path.unwrap().spec_bytes(), TargetMode::Path, r->Ok_0),
            (path is None && hash is Some) ==> r is Ok && query_result(edge_views(self.call_sites@), names@, hash.unwrap().spec_bytes(), TargetMode::Hash, r->Ok_0),
    {
        match (path, hash) {
            (Some(_), Some(_)) => Err(QueryError::ConflictingTargets),
            (Some(p), None) => {
                let res = self.find_callers_by(names, p, TargetMode::Path);
                Ok(res)
            },
            (None, Some(h)) => {
                let res = self.find_callers_by(names, h, TargetMode::Hash);
                Ok(res)
            },
            (None, None) => Ok(None),
        }
    }
}

/// Refuses options that ask for callers both by path and by stable hash:
/// the two query modes exclude each other.
pub fn check_query_modes(args: &crate::args::CGArgs) -> (r: Result<(), QueryError>)
    ensures
        r is Err <==> (args.find_callers@.len() > 0 && args.find_callers_hash@.len() > 0),
        r is Err ==> r == Err::<(), QueryError>(QueryError::ConflictingTargets),
{
    if args.find_callers.len() > 0 && args.find_callers_hash.len() > 0 {
        Err(QueryError::ConflictingTargets)
    } else {
        Ok(())
    }
}

/// A caller query that cannot be answered.
#[derive(Clone, Copy, Debug, PartialEq, Eq, Structural)]
pub enum QueryError {
    /// Both a path and a hash were given as the target.
    ConflictingTargets,
}

/// `r` is what a search for the callers of the callees that `target`
/// designates in `mode` may report.
pub open spec fn query_result(
    edges: Seq<EdgeView>,
    names: Seq<FunctionName>,
    target: Seq<u8>,
    mode: TargetMode,
    r: Option<Vec<PathInfo>>,
) -> bool {
    exists|tv: Seq<InstanceView>| callers_found(edges, names, target, mode, tv, r)
}

/// `tv` holds exactly the callees that `target` designates in `mode`, and `r`
/// is what a search for the callers of `tv` may report.
#[verifier::opaque]
pub open spec fn callers_found(
    edges: Seq<EdgeView>,
    names: Seq<FunctionName>,
    target: Seq<u8>,
    mode: TargetMode,
    tv: Seq<InstanceView>,
    r: Option<Vec<PathInfo>>,
) -> bool {
    &&& forall|x: InstanceView| tv.contains(x) <==> matching_callee(edges, names, target, mode, x)
    &&& r is Some ==> r.unwrap()@.len() > 0 && distinct_callers(r.unwrap()@) && reverse_closed(edges, tv, r.unwrap()@)
        && reverse_supported(edges, tv, r.unwrap()@) && reverse_reaching(edges, tv, r.unwrap()@)
    &&& r is None ==> tv.len() == 0 || reverse_closed(edges, tv, Seq::empty())
}

proof fn lemma_callers_found_facts(
    edges: Seq<EdgeView>,
    names: Seq<FunctionName>,
    target: Seq<u8>,
    mode: TargetMode,
    tv: Seq<InstanceView>,
    r: Option<Vec<PathInfo>>,
    x: InstanceView,
)
    requires
        callers_found(edges, names, target, mode, tv, r),
    ensures
        tv.contains(x) == matching_callee(edges, names, target, mode, x),
        r is Some ==> reverse_closed(edges, tv, r.unwrap()@),
        r is None ==> tv.len() == 0 || reverse_closed(edges, tv, Seq::empty()),
{
    reveal(callers_found);
}

/// Reverse-reachability soundness for a caller query: when no two edges share
/// a caller-callee pair and a path of edges leads from `A` into a function the
/// query designates, the query reports callers, `A` among them, with an
/// accumulated depth at most the sum of the depths along the path.
#[verifier::spinoff_prover]
pub proof fn lemma_query_reachability(
    edges: Seq<EdgeView>,
    names: Seq<FunctionName>,
    target: Seq<u8>,
    mode: TargetMode,
    r: Option<Vec<PathInfo>>,
    path: Seq<int>,
)
    requires
        query_result(edges, names, target, mode, r),
        crate::graph::unique_pairs(edges),
        is_edge_path(edges, path),
        matching_callee(edges, names, target, mode, edges[path.last()].1),
    ensures
        r is Some,
        exists|j: int|
            0 <= j < r.unwrap()@.len() && r.unwrap()@[j].caller@ == edges[path[0]].0
                && r.unwrap()@[j].constraints <= path_depth(edges, path, 0),
{
    let tv = choose|tv: Seq<InstanceView>| callers_found(edges, names, target, mode, tv, r);
    lemma_callers_found_facts(edges, names, target, mode, tv, r, edges[path.last()].1);
    assert(tv.contains(edges[path.last()].1));
    if r is None {
        assert(tv.len() > 0);
        lemma_reverse_reachability(edges, tv, Seq::<PathInfo>::empty(), path);
    } else {
        lemma_reverse_reachability(edges, tv, r.unwrap()@, path);
    }
}

} // verus!
