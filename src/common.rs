use vstd::prelude::*;
use crate::error::PathError;
use crate::path_model::{
    is_ancestor_or_self, is_normalized, lemma_ancestor_normalized, lemma_path_of_normalized,
    lemma_text_round_trip, path_of, text_of, views, PathParts, PathValue,
};

verus! {

broadcast use vstd::seq_lib::group_to_multiset_ensures;

/// The texts of a slice of string slices.
pub open spec fn str_views(ps: Seq<&str>) -> Seq<Seq<char>> {
    ps.map_values(|p: &str| p@)
}

/// The paths that a slice of string slices denotes.
pub open spec fn paths_of(ps: Seq<&str>) -> Seq<PathValue> {
    ps.map_values(|p: &str| path_of(p@))
}

/// The number of segments of the path that a text denotes.
pub open spec fn depth(s: Seq<char>) -> nat {
    path_of(s).segments.len()
}

/// All paths start at the root, or none does.
pub open spec fn same_origin(ps: Seq<PathValue>) -> bool {
    forall|i: int, j: int|
        0 <= i < ps.len() && 0 <= j < ps.len() ==> #[trigger] ps[i].absolute
            == #[trigger] ps[j].absolute
}

pub open spec fn is_common_ancestor(q: PathValue, ps: Seq<PathValue>) -> bool {
    forall|i: int| 0 <= i < ps.len() ==> is_ancestor_or_self(q, #[trigger] ps[i])
}

/// `q` is a common ancestor (or self) of all of `ps`, and every other one is an ancestor of `q`.
pub open spec fn is_greatest_common_ancestor(q: PathValue, ps: Seq<PathValue>) -> bool {
    &&& is_common_ancestor(q, ps)
    &&& forall|r: PathValue| #[trigger] is_common_ancestor(r, ps) ==> is_ancestor_or_self(r, q)
}

/// The deepest path that is an ancestor of, or equal to, each of `ps`.
pub open spec fn greatest_common_ancestor(ps: Seq<PathValue>) -> PathValue {
    choose|q: PathValue| is_greatest_common_ancestor(q, ps)
}

/// Two greatest common ancestors of the same paths are the same path.
pub proof fn lemma_greatest_common_ancestor_unique(a: PathValue, b: PathValue, ps: Seq<PathValue>)
    requires
        is_greatest_common_ancestor(a, ps),
        is_greatest_common_ancestor(b, ps),
    ensures
        a == b,
{
    assert(is_ancestor_or_self(a, b));
    assert(is_ancestor_or_self(b, a));
    assert(a.segments =~= b.segments);
}

/// Whether `q` is `p` or one of its ancestors.
pub fn is_ancestor_or_self_parts(q: &PathParts, p: &PathParts) -> (r: bool)
    ensures
        r == is_ancestor_or_self(q@, p@),
{
    if q.absolute != p.absolute || q.segments.len() > p.segments.len() {
        return false;
    }
    let n = q.segments.len();
    let mut j: usize = 0;
    while j < n
        invariant
            n == q.segments@.len(),
            n <= p.segments@.len(),
            j <= n,
            forall|k: int| 0 <= k < j ==> q.segments@[k]@ == p.segments@[k]@,
        decreases n - j,
    {
        if q.segments[j] != p.segments[j] {
            proof {
                assert(q@.segments[j as int] != p@.segments.subrange(0, n as int)[j as int]);
            }
            return false;
        }
        j = j + 1;
    }
    proof {
        assert(q@.segments =~= p@.segments.subrange(0, n as int));
    }
    true
}

/// Item `k` of `out` is item `from[k]` of `inp`, and items of as many segments
/// stand in `out` in the order they had in `inp`.
pub open spec fn keeps_order_of_equals(out: Seq<Seq<char>>, inp: Seq<Seq<char>>, from: Seq<int>) -> bool {
    &&& from.len() == out.len()
    &&& forall|k: int|
        0 <= k < out.len() ==> 0 <= #[trigger] from[k] < inp.len() && out[k] == inp[from[k]]
    &&& forall|a: int, b: int|
        0 <= a < b < out.len() && depth(out[a]) == depth(out[b]) ==> #[trigger] from[a]
            < #[trigger] from[b]
}

/// The paths reordered by their number of segments, fewest first; paths with
/// as many segments keep their order.
pub fn get_paths_sorted_by_size_starting_with_shortest(paths: &[&str]) -> (r: Result<
    Vec<String>,
    PathError,
>)
    ensures
        r matches Ok(v) && {
            &&& views(v@).to_multiset() == str_views(paths@).to_multiset()
            &&& forall|a: int, b: int|
                0 <= a < b < v@.len() ==> depth(#[trigger] v@[a]@) <= depth(#[trigger] v@[b]@)
            &&& exists|from: Seq<int>| keeps_order_of_equals(views(v@), str_views(paths@), from)
        },
{
    let mut out: Vec<String> = Vec::new();
    let mut depths: Vec<usize> = Vec::new();
    let ghost mut from: Seq<int> = Seq::empty();
    let mut i: usize = 0;
    proof {
        assert(str_views(paths@).take(0) =~= Seq::<Seq<char>>::empty());
        assert(views(out@) =~= Seq::<Seq<char>>::empty());
    }
    while i < paths.len()
        invariant
            i <= paths@.len(),
            depths@.len() == out@.len(),
            forall|k: int| 0 <= k < out@.len() ==> depths@[k] == depth(#[trigger] out@[k]@),
            forall|a: int, b: int|
                0 <= a < b < out@.len() ==> #[trigger] depths@[a] <= #[trigger] depths@[b],
            views(out@).to_multiset() == str_views(paths@).take(i as int).to_multiset(),
            keeps_order_of_equals(views(out@), str_views(paths@), from),
            forall|k: int| 0 <= k < from.len() ==> #[trigger] from[k] < i,
        decreases paths@.len() - i,
    {
        let text: &str = paths[i];
        let d = PathParts::parse(text).segments.len();
        let mut j = out.len();
        while j > 0 && depths[j - 1] > d
            invariant
                j <= out@.len(),
                depths@.len() == out@.len(),
                forall|k: int| j <= k < out@.len() ==> depths@[k] > d,
                forall|k: int| 0 <= k < out@.len() ==> depths@[k] == depth(#[trigger] out@[k]@),
            decreases j,
        {
            j = j - 1;
        }
        let ghost old_views = views(out@);
        let ghost old_depths = depths@;
        let ghost old_out = out@;
        let ghost old_from = from;
        out.insert(j, String::from_str(text));
        depths.insert(j, d);
        proof {
            from = old_from.insert(j as int, i as int);
            let ov = old_views;
            let nv = views(out@);
            let inp = str_views(paths@);
            assert(nv =~= ov.insert(j as int, text@));
            assert forall|k: int| 0 <= k < nv.len() implies 0 <= #[trigger] from[k] < inp.len()
                && nv[k] == inp[from[k]] by {
                if k < j {
                    assert(from[k] == old_from[k] && nv[k] == ov[k]);
                } else if k > j {
                    assert(from[k] == old_from[k - 1] && nv[k] == ov[k - 1]);
                }
            }
            assert forall|k: int| 0 <= k < from.len() implies #[trigger] from[k] < i + 1 by {
                if k < j {
                    assert(from[k] == old_from[k]);
                } else if k > j {
                    assert(from[k] == old_from[k - 1]);
                }
            }
            assert forall|a: int, b: int|
                0 <= a < b < nv.len() && depth(nv[a]) == depth(nv[b]) implies #[trigger] from[a]
                < #[trigger] from[b] by {
                if a < j && b < j {
                    assert(from[a] == old_from[a] && from[b] == old_from[b]);
                    assert(nv[a] == ov[a] && nv[b] == ov[b]);
                } else if a > j && b > j {
                    assert(from[a] == old_from[a - 1] && from[b] == old_from[b - 1]);
                    assert(nv[a] == ov[a - 1] && nv[b] == ov[b - 1]);
                } else if a < j && b > j {
                    assert(from[a] == old_from[a] && from[b] == old_from[b - 1]);
                    assert(nv[a] == ov[a] && nv[b] == ov[b - 1]);
                } else if a == j {
                    assert(nv[b] == ov[b - 1]);
                    assert(old_depths[b - 1] > d);
                    assert(old_depths[b - 1] == depth(old_out[b - 1]@));
                    assert(ov[b - 1] == old_out[b - 1]@);
                    assert(nv[a] == text@);
                } else {
                    assert(from[a] == old_from[a]);
                }
            }
            assert(keeps_order_of_equals(nv, inp, from));
            assert(views(out@) =~= old_views.insert(j as int, text@));
            assert(str_views(paths@).take(i + 1) =~= str_views(paths@).take(i as int).push(text@));
            assert forall|k: int| 0 <= k < out@.len() implies depths@[k] == depth(
                #[trigger] out@[k]@,
            ) by {
                if k > j {
                    assert(out@[k] == old_out[k - 1]);
                }
            }
            assert forall|a: int, b: int| 0 <= a < b < out@.len() implies #[trigger] depths@[a]
                <= #[trigger] depths@[b] by {
                if a < j && j > 0 {
                    assert(old_depths[a] <= old_depths[j - 1]);
                }
                if a == j && b > j {
                    assert(depths@[b] == old_depths[b - 1]);
                }
                if a < j && b > j {
                    assert(depths@[b] == old_depths[b - 1]);
                }
                if a > j {
                    assert(depths@[b] == old_depths[b - 1]);
                    assert(depths@[a] == old_depths[a - 1]);
                }
            }
        }
        i = i + 1;
    }
    proof {
        assert(str_views(paths@).take(paths@.len() as int) =~= str_views(paths@));
        assert(keeps_order_of_equals(views(out@), str_views(paths@), from));
        assert forall|a: int, b: int| 0 <= a < b < out@.len() implies depth(#[trigger] out@[a]@)
            <= depth(#[trigger] out@[b]@) by {
            assert(depths@[a] <= depths@[b]);
        }
    }
    Ok(out)
}


/// The views of a sequence of held paths.
pub open spec fn parts_views(v: Seq<PathParts>) -> Seq<PathValue> {
    v.map_values(|p: PathParts| p@)
}

/// The ancestor of `p` that keeps its first `k` segments.
pub open spec fn ancestor_at(p: PathValue, k: int) -> PathValue {
    PathValue { absolute: p.absolute, segments: p.segments.take(k) }
}

/// The query `f` has been seen to answer `b` on a text `s`.
pub open spec fn answered<F: Fn(&str) -> bool>(f: F, s: Seq<char>, b: bool) -> bool {
    exists|t: &str| t@ == s && call_ensures(f, (t,), b)
}

/// `r` is what a walk up from `p` to the first path that `f` reports finds:
/// the text of the deepest ancestor (or `p` itself) for which `f` answered yes,
/// every deeper one having been answered no; or nothing, all having been answered no.
pub open spec fn walked_up<F: Fn(&str) -> bool>(p: PathValue, f: F, r: Option<String>) -> bool {
    match r {
        Some(s) => exists|k: int|
            0 <= k <= p.segments.len() && s@ == text_of(ancestor_at(p, k)) && answered(f, s@, true)
                && forall|j: int|
                k < j <= p.segments.len() ==> answered(f, text_of(#[trigger] ancestor_at(p, j)), false),
        None => forall|j: int|
            0 <= j <= p.segments.len() ==> answered(f, text_of(#[trigger] ancestor_at(p, j)), false),
    }
}

/// Walks up from `start`, asking `path_exists` of each path, to the first one it reports.
pub fn walk_up_to_existing<F: Fn(&str) -> bool>(start: &PathParts, path_exists: F) -> (r: Option<String>)
    requires
        forall|t: &str| call_requires(path_exists, (t,)),
    ensures
        walked_up(start@, path_exists, r),
{
    let ghost p = start@;
    let mut c = start.copy();
    proof {
        assert(p.segments.take(p.segments.len() as int) =~= p.segments);
    }
    loop
        invariant
            forall|t: &str| call_requires(path_exists, (t,)),
            p == start@,
            c.segments@.len() <= p.segments.len(),
            c@ == ancestor_at(p, c.segments@.len() as int),
            forall|j: int|
                c.segments@.len() < j <= p.segments.len() ==> answered(
                    path_exists,
                    text_of(#[trigger] ancestor_at(p, j)),
                    false,
                ),
        decreases c.segments@.len(),
    {
        let s = c.render();
        let found = path_exists(s.as_str());
        if found {
            proof {
                let k = c.segments@.len() as int;
                assert(answered(path_exists, s@, true));
                assert(s@ == text_of(ancestor_at(p, k)));
            }
            return Some(s);
        }
        proof {
            assert(answered(path_exists, s@, false));
        }
        if c.segments.len() == 0 {
            proof {
                assert forall|j: int| 0 <= j <= p.segments.len() implies answered(
                    path_exists,
                    text_of(#[trigger] ancestor_at(p, j)),
                    false,
                ) by {
                    if j == 0 {
                        assert(ancestor_at(p, 0) == c@);
                        assert(text_of(ancestor_at(p, 0)) == s@);
                    }
                }
            }
            return None;
        }
        let ghost k = c.segments@.len() as int;
        c.segments.pop();
        proof {
            assert(views(c.segments@) =~= p.segments.take(k - 1));
        }
    }
}


/// Whether `q` is `p` or an ancestor of `p` for every `p` of `ps`.
fn is_common_ancestor_parts(q: &PathParts, ps: &Vec<PathParts>) -> (r: bool)
    ensures
        r == is_common_ancestor(q@, parts_views(ps@)),
{
    let mut i: usize = 0;
    while i < ps.len()
        invariant
            i <= ps@.len(),
            forall|k: int| 0 <= k < i ==> is_ancestor_or_self(q@, #[trigger] ps@[k]@),
        decreases ps@.len() - i,
    {
        if !is_ancestor_or_self_parts(q, &ps[i]) {
            proof {
                assert(parts_views(ps@)[i as int] == ps@[i as int]@);
            }
            return false;
        }
        i = i + 1;
    }
    proof {
        assert forall|k: int| 0 <= k < parts_views(ps@).len() implies is_ancestor_or_self(
            q@,
            #[trigger] parts_views(ps@)[k],
        ) by {
            assert(parts_views(ps@)[k] == ps@[k]@);
        }
    }
    true
}

/// Each text read as a path.
fn parse_all(paths: &[&str]) -> (r: Vec<PathParts>)
    ensures
        parts_views(r@) == paths_of(paths@),
{
    let mut out: Vec<PathParts> = Vec::new();
    let mut i: usize = 0;
    while i < paths.len()
        invariant
            i <= paths@.len(),
            parts_views(out@) == paths_of(paths@).take(i as int),
        decreases paths@.len() - i,
    {
        let parsed = PathParts::parse(paths[i]);
        let ghost prev = out@;
        out.push(parsed);
        proof {
            assert(parts_views(out@) =~= parts_views(prev).push(parsed@));
            assert(paths_of(paths@).take(i + 1) =~= paths_of(paths@).take(i as int).push(
                parsed@,
            ));
        }
        i = i + 1;
    }
    proof {
        assert(paths_of(paths@).take(i as int) =~= paths_of(paths@));
    }
    out
}

/// Paths of one origin share at least the path made of no segment.
pub proof fn lemma_same_origin_has_common_ancestor(ps: Seq<PathValue>)
    requires
        ps.len() > 0,
        same_origin(ps),
    ensures
        is_common_ancestor(PathValue { absolute: ps[0].absolute, segments: Seq::empty() }, ps),
{
    let q = PathValue { absolute: ps[0].absolute, segments: Seq::empty() };
    assert forall|i: int| 0 <= i < ps.len() implies is_ancestor_or_self(q, #[trigger] ps[i]) by {
        assert(ps[i].absolute == ps[0].absolute);
        assert(q.segments =~= ps[i].segments.subrange(0, 0));
    }
}

/// Paths that share an ancestor are of one origin.
pub proof fn lemma_common_ancestor_same_origin(q: PathValue, ps: Seq<PathValue>)
    requires
        is_common_ancestor(q, ps),
    ensures
        same_origin(ps),
{
    assert forall|i: int, j: int| 0 <= i < ps.len() && 0 <= j < ps.len() implies #[trigger] ps[i].absolute
        == #[trigger] ps[j].absolute by {
        assert(is_ancestor_or_self(q, ps[i]));
        assert(is_ancestor_or_self(q, ps[j]));
    }
}

/// The outcome that the common-prefix search owes for `ps`.
pub open spec fn common_prefix_outcome(ps: Seq<PathValue>, r: Result<PathParts, PathError>) -> bool {
    if ps.len() == 0 {
        r == Err::<PathParts, PathError>(PathError::EmptyInput)
    } else if !same_origin(ps) {
        r == Err::<PathParts, PathError>(PathError::NoCommonPrefix)
    } else {
        r matches Ok(c) && is_greatest_common_ancestor(c@, ps)
    }
}

/// Finds the deepest path that is an ancestor of, or equal to, every one of `paths`:
/// starting from a path with the fewest segments, drops its last segment until
/// every path lies under it.
pub fn common_ancestor_parts(paths: &[&str]) -> (r: Result<PathParts, PathError>)
    ensures
        common_prefix_outcome(paths_of(paths@), r),
{
    let ghost ps = paths_of(paths@);
    if paths.len() == 0 {
        return Err(PathError::EmptyInput);
    }
    let parsed = parse_all(paths);
    let sorted = match get_paths_sorted_by_size_starting_with_shortest(paths) {
        Ok(v) => v,
        Err(e) => return Err(e),
    };
    proof {
        assert(views(sorted@).to_multiset().len() == str_views(paths@).to_multiset().len());
        assert(views(sorted@).len() == str_views(paths@).len());
    }
    let mut candidate = PathParts::parse(sorted[0].as_str());
    let ghost k0: int;
    proof {
        let x = sorted@[0]@;
        assert(views(sorted@)[0] == x);
        assert(views(sorted@).contains(x));
        assert(views(sorted@).to_multiset().count(x) > 0);
        assert(str_views(paths@).contains(x));
        k0 = choose|k: int| 0 <= k < str_views(paths@).len() && str_views(paths@)[k] == x;
        assert(paths@[k0]@ == x);
        assert(ps[k0] == candidate@);
        assert(ps[k0].segments.take(ps[k0].segments.len() as int) =~= ps[k0].segments);
    }
    loop
        invariant
            ps == paths_of(paths@),
            parts_views(parsed@) == ps,
            0 <= k0 < ps.len(),
            is_ancestor_or_self(candidate@, ps[k0]),
            forall|q: PathValue| #[trigger]
                is_common_ancestor(q, ps) ==> is_ancestor_or_self(q, candidate@),
        decreases candidate.segments@.len(),
    {
        if is_common_ancestor_parts(&candidate, &parsed) {
            return Ok(candidate);
        }
        if candidate.segments.len() == 0 {
            proof {
                if same_origin(ps) {
                    lemma_same_origin_has_common_ancestor(ps);
                    let q = PathValue { absolute: ps[0].absolute, segments: Seq::empty() };
                    assert(is_ancestor_or_self(q, candidate@));
                    assert(q.segments =~= candidate@.segments);
                    assert(q == candidate@);
                }
            }
            return Err(PathError::NoCommonPrefix);
        }
        let ghost before = candidate@;
        candidate.segments.pop();
        proof {
            assert(candidate@.segments =~= before.segments.drop_last());
            assert(is_ancestor_or_self(candidate@, ps[k0])) by {
                assert(candidate@.segments =~= ps[k0].segments.subrange(
                    0,
                    candidate@.segments.len() as int,
                ));
            }
            assert forall|q: PathValue| #[trigger]
                is_common_ancestor(q, ps) implies is_ancestor_or_self(q, candidate@) by {
                assert(is_ancestor_or_self(q, before));
                if q.segments.len() == before.segments.len() {
                    assert(q.segments =~= before.segments);
                    assert(q == before);
                }
                assert(q.segments =~= candidate@.segments.subrange(0, q.segments.len() as int));
            }
        }
    }
}

/// The deepest path that is an ancestor of, or equal to, every one of `paths`,
/// whether or not it exists; segments are compared whole, never as text.
pub fn get_common_prefix(paths: &[&str]) -> (r: Result<String, PathError>)
    ensures
        paths@.len() == 0 ==> r == Err::<String, PathError>(PathError::EmptyInput),
        paths@.len() > 0 && !same_origin(paths_of(paths@)) ==> r == Err::<String, PathError>(
            PathError::NoCommonPrefix,
        ),
        paths@.len() > 0 && same_origin(paths_of(paths@)) ==> (r matches Ok(s) && s@ == text_of(
            greatest_common_ancestor(paths_of(paths@)),
        ) && path_of(s@) == greatest_common_ancestor(paths_of(paths@))),
{
    match common_ancestor_parts(paths) {
        Ok(c) => {
            proof {
                let ps = paths_of(paths@);
                lemma_greatest_common_ancestor_unique(c@, greatest_common_ancestor(ps), ps);
                lemma_path_of_normalized(paths@[0]@);
                assert(ps[0] == path_of(paths@[0]@));
                lemma_ancestor_normalized(c@, ps[0]);
                lemma_text_round_trip(c@);
            }
            Ok(c.render())
        },
        Err(e) => Err(e),
    }
}


/// Of paths of one origin, the deepest common ancestor exists, provided that
/// no common ancestor is deeper than `m` segments.
proof fn lemma_greatest_common_ancestor_exists_below(ps: Seq<PathValue>, m: int)
    requires
        ps.len() > 0,
        same_origin(ps),
        0 <= m <= ps[0].segments.len(),
        forall|q: PathValue| #[trigger] is_common_ancestor(q, ps) ==> q.segments.len() <= m,
    ensures
        is_greatest_common_ancestor(greatest_common_ancestor(ps), ps),
    decreases m,
{
    let c = ancestor_at(ps[0], m);
    if is_common_ancestor(c, ps) {
        assert forall|q: PathValue| #[trigger] is_common_ancestor(q, ps) implies is_ancestor_or_self(
            q,
            c,
        ) by {
            assert(is_ancestor_or_self(q, ps[0]));
            assert(q.segments =~= c.segments.subrange(0, q.segments.len() as int));
        }
        assert(is_greatest_common_ancestor(c, ps));
    } else {
        if m == 0 {
            lemma_same_origin_has_common_ancestor(ps);
            assert(c.segments =~= Seq::<Seq<char>>::empty());
        }
        assert forall|q: PathValue| #[trigger] is_common_ancestor(q, ps) implies q.segments.len()
            <= m - 1 by {
            assert(is_ancestor_or_self(q, ps[0]));
            if q.segments.len() == m {
                assert(q.segments =~= c.segments);
                assert(q == c);
            }
        }
        lemma_greatest_common_ancestor_exists_below(ps, m - 1);
    }
}

/// A non-empty set of paths of one origin has a deepest common ancestor.
pub proof fn lemma_greatest_common_ancestor_exists(ps: Seq<PathValue>)
    requires
        ps.len() > 0,
        same_origin(ps),
    ensures
        is_greatest_common_ancestor(greatest_common_ancestor(ps), ps),
{
    assert forall|q: PathValue| #[trigger] is_common_ancestor(q, ps) implies q.segments.len()
        <= ps[0].segments.len() by {
        assert(is_ancestor_or_self(q, ps[0]));
    }
    lemma_greatest_common_ancestor_exists_below(ps, ps[0].segments.len() as int);
}

/// The outcome that the search for the deepest existing common ancestor owes:
/// the errors of the common-prefix search, else the walk up from the common
/// prefix to the first path that `f` reports, failing when there is none.
pub open spec fn common_path_outcome<F: Fn(&str) -> bool>(
    ps: Seq<PathValue>,
    f: F,
    r: Result<String, PathError>,
) -> bool {
    if ps.len() == 0 {
        r == Err::<String, PathError>(PathError::EmptyInput)
    } else if !same_origin(ps) {
        r == Err::<String, PathError>(PathError::NoCommonPrefix)
    } else {
        match r {
            Ok(s) => walked_up(greatest_common_ancestor(ps), f, Some(s)),
            Err(e) => e matches PathError::NoExistingAncestor(p) && p@ == text_of(
                greatest_common_ancestor(ps),
            ) && walked_up(greatest_common_ancestor(ps), f, None),
        }
    }
}

/// The deepest path that is an ancestor of, or equal to, every one of `paths`
/// and that `path_exists` reports: the common prefix, walked up until it exists.
pub fn get_common_path<F: Fn(&str) -> bool>(paths: &[&str], path_exists: F) -> (r: Result<
    String,
    PathError,
>)
    requires
        forall|t: &str| call_requires(path_exists, (t,)),
    ensures
        common_path_outcome(paths_of(paths@), path_exists, r),
{
    match common_ancestor_parts(paths) {
        Ok(c) => {
            proof {
                let ps = paths_of(paths@);
                lemma_greatest_common_ancestor_unique(c@, greatest_common_ancestor(ps), ps);
            }
            match walk_up_to_existing(&c, path_exists) {
                Some(s) => Ok(s),
                None => Err(PathError::NoExistingAncestor(c.render())),
            }
        },
        Err(e) => Err(e),
    }
}

/// The path itself if `path_exists` reports it, else its deepest ancestor that it reports.
pub fn get_dir_ancestor_that_exists<F: Fn(&str) -> bool>(path: &str, path_exists: F) -> (r:
    Option<String>)
    requires
        forall|t: &str| call_requires(path_exists, (t,)),
    ensures
        walked_up(path_of(path@), path_exists, r),
{
    let parts = PathParts::parse(path);
    walk_up_to_existing(&parts, path_exists)
}

/// An ancestor of an ancestor of `p` is an ancestor of `p`.
pub proof fn lemma_ancestor_transitive(a: PathValue, b: PathValue, c: PathValue)
    requires
        is_ancestor_or_self(a, b),
        is_ancestor_or_self(b, c),
    ensures
        is_ancestor_or_self(a, c),
{
    assert(a.segments =~= c.segments.subrange(0, a.segments.len() as int));
}

/// Where the existence query answers from one fixed set of existing paths, and
/// some common ancestor of the inputs is in that set, the search succeeds with a
/// path that exists and is an ancestor of, or equal to, every input.
pub proof fn lemma_common_path_exists_and_is_common<F: Fn(&str) -> bool>(
    ps: Seq<PathValue>,
    f: F,
    existing: Set<Seq<char>>,
    a: PathValue,
    r: Result<String, PathError>,
)
    requires
        common_path_outcome(ps, f, r),
        forall|s: Seq<char>, b: bool| #[trigger] answered(f, s, b) ==> b == existing.contains(s),
        ps.len() > 0,
        is_common_ancestor(a, ps),
        existing.contains(text_of(a)),
        forall|i: int| 0 <= i < ps.len() ==> is_normalized(#[trigger] ps[i]),
    ensures
        r matches Ok(s) && existing.contains(s@) && is_common_ancestor(path_of(s@), ps),
{
    lemma_common_ancestor_same_origin(a, ps);
    lemma_greatest_common_ancestor_exists(ps);
    let g = greatest_common_ancestor(ps);
    assert(is_ancestor_or_self(a, g));
    let n = a.segments.len() as int;
    assert(ancestor_at(g, n) == a) by {
        assert(a.segments =~= g.segments.take(n));
    }
    match r {
        Ok(s) => {
            let k = choose|k: int|
                0 <= k <= g.segments.len() && s@ == text_of(ancestor_at(g, k)) && answered(
                    f,
                    s@,
                    true,
                ) && forall|j: int|
                    k < j <= g.segments.len() ==> answered(
                        f,
                        text_of(#[trigger] ancestor_at(g, j)),
                        false,
                    );
            let c = ancestor_at(g, k);
            assert forall|i: int| 0 <= i < ps.len() implies is_ancestor_or_self(
                c,
                #[trigger] ps[i],
            ) by {
                assert(is_ancestor_or_self(g, ps[i]));
                assert(is_ancestor_or_self(c, g)) by {
                    assert(c.segments =~= g.segments.subrange(0, k));
                }
                lemma_ancestor_transitive(c, g, ps[i]);
            }
            assert(is_ancestor_or_self(c, ps[0]));
            lemma_ancestor_normalized(c, ps[0]);
            lemma_text_round_trip(c);
        },
        Err(e) => {
            assert(answered(f, text_of(ancestor_at(g, n)), false));
        },
    }
}


/// The common prefix depends only on which paths are given: any order, any
/// repetition of the same paths gives the same outcome.
pub proof fn lemma_common_prefix_order_free(ps1: Seq<PathValue>, ps2: Seq<PathValue>)
    requires
        ps1.to_set() == ps2.to_set(),
    ensures
        ps1.len() == 0 <==> ps2.len() == 0,
        same_origin(ps1) <==> same_origin(ps2),
        ps1.len() > 0 && same_origin(ps1) ==> greatest_common_ancestor(ps1)
            == greatest_common_ancestor(ps2),
{
    assert forall|x: PathValue| ps1.contains(x) <==> ps2.contains(x) by {
        assert(ps1.to_set().contains(x) == ps1.contains(x));
        assert(ps2.to_set().contains(x) == ps2.contains(x));
        assert(ps1.to_set().contains(x) == ps2.to_set().contains(x));
    }
    if ps1.len() > 0 {
        assert(ps1.contains(ps1[0]));
    }
    if ps2.len() > 0 {
        assert(ps2.contains(ps2[0]));
    }
    assert forall|q: PathValue| is_common_ancestor(q, ps1) <==> is_common_ancestor(q, ps2) by {
        if is_common_ancestor(q, ps1) {
            assert forall|i: int| 0 <= i < ps2.len() implies is_ancestor_or_self(
                q,
                #[trigger] ps2[i],
            ) by {
                assert(ps2.contains(ps2[i]));
                let j = choose|j: int| 0 <= j < ps1.len() && ps1[j] == ps2[i];
            }
        }
        if is_common_ancestor(q, ps2) {
            assert forall|i: int| 0 <= i < ps1.len() implies is_ancestor_or_self(
                q,
                #[trigger] ps1[i],
            ) by {
                assert(ps1.contains(ps1[i]));
                let j = choose|j: int| 0 <= j < ps2.len() && ps2[j] == ps1[i];
            }
        }
    }
    assert(same_origin(ps1) ==> same_origin(ps2)) by {
        if same_origin(ps1) && ps1.len() > 0 {
            lemma_same_origin_has_common_ancestor(ps1);
            let q = PathValue { absolute: ps1[0].absolute, segments: Seq::empty() };
            lemma_common_ancestor_same_origin(q, ps2);
        }
        if ps1.len() == 0 {
            assert(ps2.len() == 0);
        }
    }
    assert(same_origin(ps2) ==> same_origin(ps1)) by {
        if same_origin(ps2) && ps2.len() > 0 {
            lemma_same_origin_has_common_ancestor(ps2);
            let q = PathValue { absolute: ps2[0].absolute, segments: Seq::empty() };
            lemma_common_ancestor_same_origin(q, ps1);
        }
        if ps2.len() == 0 {
            assert(ps1.len() == 0);
        }
    }
    if ps1.len() > 0 && same_origin(ps1) {
        lemma_greatest_common_ancestor_exists(ps1);
        lemma_greatest_common_ancestor_exists(ps2);
        let g1 = greatest_common_ancestor(ps1);
        let g2 = greatest_common_ancestor(ps2);
        assert(is_greatest_common_ancestor(g2, ps1));
        lemma_greatest_common_ancestor_unique(g1, g2, ps1);
    }
}

} // verus!
