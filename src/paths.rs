use vstd::prelude::*;
use crate::common::{ancestor_at, paths_of};
use crate::error::PathError;
use crate::path_model::{
    has_parent_value, is_ancestor_or_self, parent_value, path_of, starts_at_root, text_of, views,
    PathParts, PathValue,
};
use crate::common::is_ancestor_or_self_parts;

verus! {

/// The text held by an optional string.
pub open spec fn opt_view(r: Option<String>) -> Option<Seq<char>> {
    match r {
        Some(s) => Some(s@),
        None => None,
    }
}

/// The last segment of a path, unless there is none or it climbs to the parent.
pub open spec fn base_name(p: PathValue) -> Option<Seq<char>> {
    if p.segments.len() > 0 && p.segments.last() != seq!['.', '.'] {
        Some(p.segments.last())
    } else {
        None
    }
}

/// The position of the last dot of `f`, or -1 when it has none.
pub open spec fn last_dot(f: Seq<char>) -> int
    decreases f.len(),
{
    if f.len() == 0 {
        -1
    } else if f.last() == '.' {
        f.len() - 1
    } else {
        last_dot(f.drop_last())
    }
}

/// What follows the last dot of the base name, where that dot is not its first character.
pub open spec fn extension(p: PathValue) -> Option<Seq<char>> {
    match base_name(p) {
        Some(f) => if last_dot(f) <= 0 {
            None
        } else {
            Some(f.subrange(last_dot(f) + 1, f.len() as int))
        },
        None => None,
    }
}

/// `p` read against `base`: itself when absolute, else below `base`.
pub open spec fn resolved(p: PathValue, base: PathValue) -> PathValue {
    if p.absolute {
        p
    } else {
        PathValue { absolute: base.absolute, segments: base.segments + p.segments }
    }
}

/// The paths put one after another, each read against those before it.
pub open spec fn join_all(ps: Seq<PathValue>) -> PathValue
    decreases ps.len(),
{
    if ps.len() == 0 {
        PathValue { absolute: false, segments: Seq::empty() }
    } else {
        resolved(ps.last(), join_all(ps.drop_last()))
    }
}

/// The components of a path as texts: the root first when it is absolute, then its segments.
pub open spec fn components(p: PathValue) -> Seq<Seq<char>> {
    if p.absolute {
        seq![seq!['/']] + p.segments
    } else {
        p.segments
    }
}

fn is_dot_dot(x: &str) -> (r: bool)
    ensures
        r == (x@ == seq!['.', '.']),
{
    if x.unicode_len() != 2 {
        assert(x@.len() != seq!['.', '.'].len());
        return false;
    }
    let a = x.get_char(0);
    let b = x.get_char(1);
    if a == '.' && b == '.' {
        assert(x@ =~= seq!['.', '.']);
        true
    } else {
        assert(x@[0] != seq!['.', '.'][0] || x@[1] != seq!['.', '.'][1]);
        false
    }
}

/// The last segment of `path`, as `base_name` says.
pub fn get_base_name(path: &str) -> (r: Option<String>)
    ensures
        opt_view(r) == base_name(path_of(path@)),
{
    let parts = PathParts::parse(path);
    let n = parts.segments.len();
    if n == 0 {
        return None;
    }
    let last: &String = &parts.segments[n - 1];
    proof {
        assert(parts@.segments.last() == last@);
    }
    if is_dot_dot(last.as_str()) {
        None
    } else {
        Some(last.clone())
    }
}

/// What follows the last dot of the base name of `path`, as `extension` says.
pub fn get_extension(path: &str) -> (r: Option<String>)
    ensures
        opt_view(r) == extension(path_of(path@)),
{
    let name = match get_base_name(path) {
        Some(f) => f,
        None => return None,
    };
    let f: &str = name.as_str();
    let n = f.unicode_len();
    let mut i = n;
    proof {
        assert(f@.take(n as int) =~= f@);
    }
    while i > 0 && f.get_char(i - 1) != '.'
        invariant
            n == f@.len(),
            i <= n,
            last_dot(f@) == last_dot(f@.take(i as int)),
        decreases i,
    {
        proof {
            assert(f@.take(i as int).drop_last() =~= f@.take(i - 1));
        }
        i = i - 1;
    }
    proof {
        if i == 0 {
            assert(f@.take(0) =~= Seq::<char>::empty());
        } else {
            assert(f@.take(i as int).last() == f@[i - 1]);
        }
        assert(f@.take(n as int) =~= f@);
    }
    if i <= 1 {
        None
    } else {
        Some(String::from_str(f.substring_char(i, n)))
    }
}

/// The parent of `path`, if it has one.
pub fn get_dir_name(path: &str) -> (r: Option<String>)
    ensures
        opt_view(r) == (if has_parent_value(path_of(path@)) {
            Some(text_of(parent_value(path_of(path@))))
        } else {
            None
        }),
{
    let mut parts = PathParts::parse(path);
    if parts.segments.len() == 0 {
        return None;
    }
    let ghost before = parts@;
    parts.segments.pop();
    proof {
        assert(parts@.segments =~= before.segments.drop_last());
    }
    Some(parts.render())
}

/// The ancestor of `path` that is `n` levels up, if there are that many.
pub fn get_dir_ancestor_n_levels_up(path: &str, n: usize) -> (r: Option<String>)
    ensures
        opt_view(r) == (if n <= path_of(path@).segments.len() {
            Some(text_of(ancestor_at(path_of(path@), path_of(path@).segments.len() - n)))
        } else {
            None
        }),
{
    let mut parts = PathParts::parse(path);
    let len = parts.segments.len();
    if n > len {
        return None;
    }
    let ghost before = parts@;
    parts.segments.truncate(len - n);
    proof {
        assert(parts@.segments =~= before.segments.take(len - n));
    }
    Some(parts.render())
}

/// `p` read against `base`.
pub(crate) fn resolve_parts(p: PathParts, base: &PathParts) -> (r: PathParts)
    ensures
        r@ == resolved(p@, base@),
{
    if p.absolute {
        return p;
    }
    let mut joined = base.copy();
    let mut rest = p.segments;
    let ghost a = views(joined.segments@);
    let ghost b = views(rest@);
    joined.segments.append(&mut rest);
    proof {
        assert(views(joined.segments@) =~= a + b);
    }
    joined
}

/// The parts put together into one path, each read against those before it.
pub fn get_path_joined(parts: &[&str]) -> (r: Option<String>)
    ensures
        r matches Some(s) && s@ == text_of(join_all(paths_of(parts@))),
{
    let mut acc = PathParts { absolute: false, segments: Vec::new() };
    let mut i: usize = 0;
    proof {
        assert(paths_of(parts@).take(0) =~= Seq::<PathValue>::empty());
        assert(acc@.segments =~= Seq::<Seq<char>>::empty());
    }
    while i < parts.len()
        invariant
            i <= parts@.len(),
            acc@ == join_all(paths_of(parts@).take(i as int)),
        decreases parts@.len() - i,
    {
        let next = PathParts::parse(parts[i]);
        acc = resolve_parts(next, &acc);
        proof {
            let ps = paths_of(parts@);
            assert(ps.take(i + 1).drop_last() =~= ps.take(i as int));
            assert(ps.take(i + 1).last() == ps[i as int]);
        }
        i = i + 1;
    }
    proof {
        assert(paths_of(parts@).take(i as int) =~= paths_of(parts@));
    }
    Some(acc.render())
}

/// `path` with the leading `prefix` taken off, as a relative path; fails when
/// `prefix` is neither `path` nor one of its ancestors.
pub fn get_relative_path(path: &str, prefix: &str) -> (r: Result<String, PathError>)
    ensures
        is_ancestor_or_self(path_of(prefix@), path_of(path@)) ==> (r matches Ok(s) && s@ == text_of(
            PathValue {
                absolute: false,
                segments: path_of(path@).segments.skip(path_of(prefix@).segments.len() as int),
            },
        )),
        !is_ancestor_or_self(path_of(prefix@), path_of(path@)) ==> (r matches Err(
            PathError::NotUnderPrefix { path: p, prefix: q },
        ) && p@ == path@ && q@ == prefix@),
{
    let p = PathParts::parse(path);
    let q = PathParts::parse(prefix);
    if !is_ancestor_or_self_parts(&q, &p) {
        return Err(
            PathError::NotUnderPrefix { path: String::from_str(path), prefix: String::from_str(prefix) },
        );
    }
    let mut rest: Vec<String> = Vec::new();
    let mut i = q.segments.len();
    let start = i;
    proof {
        assert(views(rest@) =~= views(p.segments@).subrange(start as int, i as int));
    }
    while i < p.segments.len()
        invariant
            start <= i <= p.segments@.len(),
            views(rest@) == views(p.segments@).subrange(start as int, i as int),
        decreases p.segments@.len() - i,
    {
        let ghost before = views(rest@);
        let x = p.segments[i].clone();
        rest.push(x);
        proof {
            assert(x == p.segments@[i as int]);
            assert(views(rest@) =~= before.push(x@));
            assert(views(rest@) =~= views(p.segments@).subrange(start as int, i + 1));
        }
        i = i + 1;
    }
    let relative = PathParts { absolute: false, segments: rest };
    proof {
        assert(relative@.segments =~= p@.segments.skip(start as int));
    }
    Ok(relative.render())
}

/// The components of `path`: the root first when it is absolute, then its segments.
pub fn get_vec_by_splitting_path(path: &str) -> (r: Option<Vec<String>>)
    ensures
        r matches Some(v) && views(v@) == components(path_of(path@)),
{
    let parts = PathParts::parse(path);
    let mut out: Vec<String> = Vec::new();
    if parts.absolute {
        let slash = String::from_str("/");
        proof {
            reveal_strlit("/");
            assert(slash@ =~= seq!['/']);
        }
        out.push(slash);
        proof {
            assert(views(out@) =~= seq![seq!['/']]);
        }
    }
    let ghost lead = views(out@);
    let mut segments = parts.segments;
    let ghost segs = views(segments@);
    out.append(&mut segments);
    proof {
        assert(views(out@) =~= lead + segs);
        if parts.absolute {
            assert(lead =~= seq![seq!['/']]);
        } else {
            assert(lead =~= Seq::<Seq<char>>::empty());
        }
    }
    Some(out)
}

/// Whether `path` has a parent.
pub fn has_parent(path: &str) -> (r: bool)
    ensures
        r == has_parent_value(path_of(path@)),
{
    PathParts::parse(path).segments.len() > 0
}

/// Whether `path` starts at the root.
pub fn is_absolute(path: &str) -> (r: bool)
    ensures
        r == starts_at_root(path@),
{
    path.unicode_len() > 0 && path.get_char(0) == '/'
}

/// Whether `path` is `dir_parent` or lies below it, segment by segment.
pub fn is_path_inside_dir_parent(path: &str, dir_parent: &str) -> (r: bool)
    ensures
        r == is_ancestor_or_self(path_of(dir_parent@), path_of(path@)),
{
    let p = PathParts::parse(path);
    let q = PathParts::parse(dir_parent);
    is_ancestor_or_self_parts(&q, &p)
}

} // verus!
