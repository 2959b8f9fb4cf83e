use vstd::prelude::*;
use crate::common::{answered, get_dir_ancestor_that_exists, is_ancestor_or_self_parts, walked_up};
use crate::error::PathError;
use crate::path_model::{is_ancestor_or_self, path_of, text_of, PathParts};
use crate::paths::{resolve_parts, resolved};

verus! {

/// `path` and `target`, each read against `working_dir`, are the same path.
pub open spec fn same_place(path: Seq<char>, target: Seq<char>, working_dir: Seq<char>) -> bool {
    resolved(path_of(path), path_of(working_dir)) == resolved(path_of(target), path_of(working_dir))
}

/// Whether two held paths are the same path.
fn same_parts(a: &PathParts, b: &PathParts) -> (r: bool)
    ensures
        r == (a@ == b@),
{
    if a.absolute != b.absolute || a.segments.len() != b.segments.len() {
        proof {
            assert(a@.segments.len() == a.segments@.len());
            assert(b@.segments.len() == b.segments@.len());
        }
        return false;
    }
    let n = a.segments.len();
    let mut i: usize = 0;
    while i < n
        invariant
            n == a.segments@.len(),
            n == b.segments@.len(),
            i <= n,
            forall|k: int| 0 <= k < i ==> a.segments@[k]@ == b.segments@[k]@,
        decreases n - i,
    {
        if a.segments[i] != b.segments[i] {
            proof {
                assert(a@.segments[i as int] != b@.segments[i as int]);
            }
            return false;
        }
        i = i + 1;
    }
    proof {
        assert(a@.segments =~= b@.segments);
    }
    true
}

/// Whether `left` and `right` are the same path, a relative one being read
/// against `working_dir`; no file system is consulted.
pub fn are_paths_the_same(left: &str, right: &str, working_dir: &str) -> (r: bool)
    ensures
        r == same_place(left@, right@, working_dir@),
{
    let base = PathParts::parse(working_dir);
    let a = resolve_parts(PathParts::parse(left), &base);
    let b = resolve_parts(PathParts::parse(right), &base);
    same_parts(&a, &b)
}

/// Whether `left` and `right` are the same path, a relative one being read
/// against the project directory `project_root`.
pub fn are_paths_the_same_assume_project_dir(left: &str, right: &str, project_root: &str) -> (r:
    bool)
    ensures
        r == same_place(left@, right@, project_root@),
{
    are_paths_the_same(left, right, project_root)
}

/// Fails when `path` is the project directory itself.
pub fn raise_error_if_path_points_to_project_root(path: &str, project_root: &str) -> (r: Result<
    (),
    PathError,
>)
    ensures
        if path_of(path@) == path_of(project_root@) {
            r matches Err(PathError::ProtectedPath(p)) && p@ == path@
        } else {
            r == Ok::<(), PathError>(())
        },
{
    let a = PathParts::parse(path);
    let b = PathParts::parse(project_root);
    if same_parts(&a, &b) {
        Err(PathError::ProtectedPath(String::from_str(path)))
    } else {
        Ok(())
    }
}

/// Fails when `path`, read against `project_root`, is the project's `src` directory.
pub fn raise_error_if_path_points_to_src(path: &str, project_root: &str) -> (r: Result<
    (),
    PathError,
>)
    ensures
        if same_place(path@, "src"@, project_root@) {
            r matches Err(PathError::ProtectedPath(p)) && p@ == path@
        } else {
            r == Ok::<(), PathError>(())
        },
{
    if are_paths_the_same_assume_project_dir(path, "src", project_root) {
        Err(PathError::ProtectedPath(String::from_str(path)))
    } else {
        Ok(())
    }
}

/// Fails when `path`, read against `project_root`, is the project's manifest `Cargo.toml`.
pub fn raise_error_if_path_points_to_cargo_toml(path: &str, project_root: &str) -> (r: Result<
    (),
    PathError,
>)
    ensures
        if same_place(path@, "Cargo.toml"@, project_root@) {
            r matches Err(PathError::ProtectedPath(p)) && p@ == path@
        } else {
            r == Ok::<(), PathError>(())
        },
{
    if are_paths_the_same_assume_project_dir(path, "Cargo.toml", project_root) {
        Err(PathError::ProtectedPath(String::from_str(path)))
    } else {
        Ok(())
    }
}

/// Fails when `path`, read against `project_root`, is the project's `src/main.rs`.
pub fn raise_error_if_path_points_to_main_rs(path: &str, project_root: &str) -> (r: Result<
    (),
    PathError,
>)
    ensures
        if same_place(path@, "src/main.rs"@, project_root@) {
            r matches Err(PathError::ProtectedPath(p)) && p@ == path@
        } else {
            r == Ok::<(), PathError>(())
        },
{
    if are_paths_the_same_assume_project_dir(path, "src/main.rs", project_root) {
        Err(PathError::ProtectedPath(String::from_str(path)))
    } else {
        Ok(())
    }
}

/// Fails when `path` is outside the project: an absolute path must lie under
/// `project_root`; a relative one, read against it, must be reported by `path_exists`.
pub fn raise_error_if_path_is_not_in_project<F: Fn(&str) -> bool>(
    path: &str,
    project_root: &str,
    path_exists: F,
) -> (r: Result<(), PathError>)
    requires
        forall|t: &str| call_requires(path_exists, (t,)),
    ensures
        path_of(path@).absolute ==> if is_ancestor_or_self(path_of(project_root@), path_of(path@)) {
            r == Ok::<(), PathError>(())
        } else {
            r matches Err(PathError::OutsideProject(p)) && p@ == path@
        },
        !path_of(path@).absolute ==> match r {
            Ok(_) => answered(
                path_exists,
                text_of(resolved(path_of(path@), path_of(project_root@))),
                true,
            ),
            Err(e) => (e matches PathError::OutsideProject(p) && p@ == path@) && answered(
                path_exists,
                text_of(resolved(path_of(path@), path_of(project_root@))),
                false,
            ),
        },
{
    let root = PathParts::parse(project_root);
    let p = PathParts::parse(path);
    if p.absolute {
        if is_ancestor_or_self_parts(&root, &p) {
            Ok(())
        } else {
            Err(PathError::OutsideProject(String::from_str(path)))
        }
    } else {
        let inside = resolve_parts(PathParts::parse(path), &root).render();
        if path_exists(inside.as_str()) {
            Ok(())
        } else {
            Err(PathError::OutsideProject(String::from_str(path)))
        }
    }
}

/// Fails when `path_exists` does not report `path`, naming the deepest
/// ancestor of `path` that it reports, if any.
pub fn raise_error_if_path_does_not_exist<F: Fn(&str) -> bool>(path: &str, path_exists: F) -> (r:
    Result<(), PathError>)
    requires
        forall|t: &str| call_requires(path_exists, (t,)),
    ensures
        match r {
            Ok(_) => answered(path_exists, path@, true),
            Err(e) => answered(path_exists, path@, false) && (e matches PathError::DoesNotExist {
                path: p,
                nearest_existing: a,
            } && p@ == path@ && walked_up(path_of(path@), path_exists, a)),
        },
{
    if path_exists(path) {
        Ok(())
    } else {
        let nearest = get_dir_ancestor_that_exists(path, path_exists);
        Err(PathError::DoesNotExist { path: String::from_str(path), nearest_existing: nearest })
    }
}

} // verus!
