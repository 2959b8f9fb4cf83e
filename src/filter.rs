use vstd::prelude::*;
use crate::common::{answered, str_views};
use crate::error::PathError;
use crate::path_model::views;
use crate::walk::{
    answers_as_tree, get_paths_in_dir_and_sub_dirs, root_unreadable, walk_failed, walk_found, TreeEntry,
    lemma_readable_tree_walk_cannot_fail, lemma_walk_lists_each_entry_once, reads_cleanly,
};

verus! {

/// The items whose flag is set, in order.
pub open spec fn kept(items: Seq<Seq<char>>, flags: Seq<bool>) -> Seq<Seq<char>>
    decreases items.len(),
{
    if items.len() == 0 || flags.len() == 0 {
        Seq::empty()
    } else if flags.last() {
        kept(items.drop_last(), flags.drop_last()).push(items.last())
    } else {
        kept(items.drop_last(), flags.drop_last())
    }
}

/// `r` holds the items of `items` on which `keep` was seen to answer yes, in order.
pub open spec fn selected_by<F: Fn(&str) -> bool>(
    items: Seq<Seq<char>>,
    keep: F,
    r: Seq<Seq<char>>,
) -> bool {
    exists|flags: Seq<bool>|
        flags.len() == items.len() && (forall|i: int|
            0 <= i < items.len() ==> answered(keep, #[trigger] items[i], flags[i])) && r == kept(
            items,
            flags,
        )
}

/// An item is kept exactly where it stands with its flag set.
pub proof fn lemma_kept_contains(items: Seq<Seq<char>>, flags: Seq<bool>, x: Seq<char>)
    requires
        flags.len() == items.len(),
    ensures
        kept(items, flags).contains(x) <==> exists|i: int|
            0 <= i < items.len() && items[i] == x && #[trigger] flags[i],
    decreases items.len(),
{
    if items.len() > 0 {
        let init = items.drop_last();
        let finit = flags.drop_last();
        lemma_kept_contains(init, finit, x);
        let k = kept(items, flags);
        let n = items.len() - 1;
        if k.contains(x) {
            if flags.last() && x == items.last() {
                assert(items[n] == x && flags[n]);
            } else {
                if flags.last() {
                    let j = choose|j: int| 0 <= j < k.len() && k[j] == x;
                    assert(kept(init, finit).contains(x)) by {
                        assert(j < k.len() - 1);
                        assert(kept(init, finit)[j] == x);
                    }
                }
                let i = choose|i: int| 0 <= i < init.len() && init[i] == x && #[trigger] finit[i];
                assert(items[i] == x && flags[i]);
            }
        }
        if exists|i: int| 0 <= i < items.len() && items[i] == x && #[trigger] flags[i] {
            let i = choose|i: int| 0 <= i < items.len() && items[i] == x && #[trigger] flags[i];
            if i == n {
                assert(k[k.len() - 1] == x);
            } else {
                assert(init[i] == x && finit[i]);
                assert(kept(init, finit).contains(x));
                let j = choose|j: int| 0 <= j < kept(init, finit).len() && kept(init, finit)[j] == x;
                assert(k[j] == x);
            }
        }
    }
}

/// The items on which `keep` answers yes, in order.
pub fn select_by<F: Fn(&str) -> bool>(items: &Vec<String>, keep: F) -> (r: Vec<String>)
    requires
        forall|t: &str| call_requires(keep, (t,)),
    ensures
        selected_by(views(items@), keep, views(r@)),
{
    let mut out: Vec<String> = Vec::new();
    let ghost mut flags: Seq<bool> = Seq::empty();
    let mut i: usize = 0;
    while i < items.len()
        invariant
            forall|t: &str| call_requires(keep, (t,)),
            i <= items@.len(),
            flags.len() == i,
            forall|k: int| 0 <= k < i ==> answered(keep, #[trigger] views(items@)[k], flags[k]),
            views(out@) == kept(views(items@).take(i as int), flags),
        decreases items@.len() - i,
    {
        let t: &str = items[i].as_str();
        let b = keep(t);
        let ghost before = views(out@);
        if b {
            out.push(items[i].clone());
        }
        proof {
            let all = views(items@);
            assert(answered(keep, all[i as int], b));
            let f2 = flags.push(b);
            assert(all.take(i + 1).drop_last() =~= all.take(i as int));
            assert(f2.drop_last() =~= flags);
            if b {
                assert(views(out@) =~= before.push(all[i as int]));
            } else {
                assert(views(out@) =~= before);
            }
            flags = f2;
        }
        i = i + 1;
    }
    proof {
        assert(views(items@).take(i as int) =~= views(items@));
    }
    out
}

/// Each string slice as an owned string.
fn to_strings(paths: &[&str]) -> (r: Vec<String>)
    ensures
        views(r@) == str_views(paths@),
{
    let mut out: Vec<String> = Vec::new();
    let mut i: usize = 0;
    while i < paths.len()
        invariant
            i <= paths@.len(),
            views(out@) == str_views(paths@).take(i as int),
        decreases paths@.len() - i,
    {
        let ghost before = views(out@);
        out.push(String::from_str(paths[i]));
        proof {
            assert(views(out@) =~= before.push(paths@[i as int]@));
            assert(str_views(paths@).take(i + 1) =~= str_views(paths@).take(i as int).push(
                paths@[i as int]@,
            ));
        }
        i = i + 1;
    }
    proof {
        assert(str_views(paths@).take(i as int) =~= str_views(paths@));
    }
    out
}

/// The paths that `is_dir` reports as directories, in order.
pub fn get_only_dirs_from_slice<F: Fn(&str) -> bool>(paths: &[&str], is_dir: F) -> (r: Vec<
    String,
>)
    requires
        forall|t: &str| call_requires(is_dir, (t,)),
    ensures
        selected_by(str_views(paths@), is_dir, views(r@)),
{
    let items = to_strings(paths);
    select_by(&items, is_dir)
}

/// The paths that `is_file` reports as files, in order.
pub fn get_only_file_paths_from_slice<F: Fn(&str) -> bool>(paths: &[&str], is_file: F) -> (r: Vec<
    String,
>)
    requires
        forall|t: &str| call_requires(is_file, (t,)),
    ensures
        selected_by(str_views(paths@), is_file, views(r@)),
{
    let items = to_strings(paths);
    select_by(&items, is_file)
}

/// What a walk below `root` filtered by `keep` owes: on success, the entries
/// of a successful walk on which `keep` answered yes, in the walk's order.
pub open spec fn filtered_walk_outcome<L, K, F>(
    root: Seq<char>,
    list_dir: L,
    entry_is_dir: K,
    keep: F,
    r: Result<Vec<String>, PathError>,
) -> bool where
    L: Fn(&str) -> Result<Vec<String>, String>,
    K: Fn(&str) -> Result<bool, String>,
    F: Fn(&str) -> bool,
 {
    &&& match r {
        Ok(v) => exists|all: Seq<Seq<char>>|
            walk_found(root, list_dir, entry_is_dir, all) && selected_by(all, keep, views(v@)),
        Err(e) => walk_failed(root, list_dir, entry_is_dir, e),
    }
    &&& root_unreadable(root, list_dir) ==> (r matches Err(PathError::Io { path, message: _ })
        && path@ == root)
}

/// The directories below `dir`, at any depth: a full walk, then the entries
/// that `is_dir_now` reports as directories when asked after the walk.
pub fn get_paths_to_only_dirs_in_dir_and_sub_dirs<L, K, F>(
    dir: &str,
    list_dir: L,
    entry_is_dir: K,
    is_dir_now: F,
) -> (r: Result<Vec<String>, PathError>) where
    L: Fn(&str) -> Result<Vec<String>, String>,
    K: Fn(&str) -> Result<bool, String>,
    F: Fn(&str) -> bool,

    requires
        forall|t: &str| call_requires(list_dir, (t,)),
        forall|t: &str| call_requires(entry_is_dir, (t,)),
        forall|t: &str| call_requires(is_dir_now, (t,)),
    ensures
        filtered_walk_outcome(dir@, list_dir, entry_is_dir, is_dir_now, r),
{
    match get_paths_in_dir_and_sub_dirs(dir, list_dir, entry_is_dir) {
        Ok(all) => {
            let r = select_by(&all, is_dir_now);
            Ok(r)
        },
        Err(e) => Err(e),
    }
}

/// The files below `dir`, at any depth: a full walk, then the entries that
/// `is_file_now` reports as files when asked after the walk.
pub fn get_paths_to_only_files_in_dir_and_sub_dirs<L, K, F>(
    dir: &str,
    list_dir: L,
    entry_is_dir: K,
    is_file_now: F,
) -> (r: Result<Vec<String>, PathError>) where
    L: Fn(&str) -> Result<Vec<String>, String>,
    K: Fn(&str) -> Result<bool, String>,
    F: Fn(&str) -> bool,

    requires
        forall|t: &str| call_requires(list_dir, (t,)),
        forall|t: &str| call_requires(entry_is_dir, (t,)),
        forall|t: &str| call_requires(is_file_now, (t,)),
    ensures
        filtered_walk_outcome(dir@, list_dir, entry_is_dir, is_file_now, r),
{
    match get_paths_in_dir_and_sub_dirs(dir, list_dir, entry_is_dir) {
        Ok(all) => {
            let r = select_by(&all, is_file_now);
            Ok(r)
        },
        Err(e) => Err(e),
    }
}

/// Directories and files found over one tree together make up every entry of
/// the tree, and none is both.
proof fn lemma_found_dirs_and_files_partition<L, K, D, F>(
    root: Seq<char>,
    list_dir: L,
    entry_is_dir: K,
    is_dir_now: D,
    is_file_now: F,
    tree: Map<Seq<char>, TreeEntry>,
    dirs: Seq<Seq<char>>,
    files: Seq<Seq<char>>,
) where
    L: Fn(&str) -> Result<Vec<String>, String>,
    K: Fn(&str) -> Result<bool, String>,
    D: Fn(&str) -> bool,
    F: Fn(&str) -> bool,

    requires
        answers_as_tree(list_dir, entry_is_dir, root, tree),
        forall|s: Seq<char>, b: bool|
            #[trigger] answered(is_dir_now, s, b) && tree.contains_key(s) ==> b == tree[s].is_dir,
        forall|s: Seq<char>, b: bool|
            #[trigger] answered(is_file_now, s, b) && tree.contains_key(s) ==> b == !tree[s].is_dir,
        exists|all: Seq<Seq<char>>|
            walk_found(root, list_dir, entry_is_dir, all) && selected_by(all, is_dir_now, dirs),
        exists|all: Seq<Seq<char>>|
            walk_found(root, list_dir, entry_is_dir, all) && selected_by(all, is_file_now, files),
    ensures
        dirs.to_set() + files.to_set() == tree.dom(),
        dirs.to_set() * files.to_set() == Set::<Seq<char>>::empty(),
{
    let all_d = choose|all: Seq<Seq<char>>|
        walk_found(root, list_dir, entry_is_dir, all) && selected_by(all, is_dir_now, dirs);
    let all_f = choose|all: Seq<Seq<char>>|
        walk_found(root, list_dir, entry_is_dir, all) && selected_by(all, is_file_now, files);
    lemma_walk_lists_each_entry_once(root, list_dir, entry_is_dir, tree, all_d);
    lemma_walk_lists_each_entry_once(root, list_dir, entry_is_dir, tree, all_f);
    let fd = choose|flags: Seq<bool>|
        flags.len() == all_d.len() && (forall|i: int|
            0 <= i < all_d.len() ==> answered(is_dir_now, #[trigger] all_d[i], flags[i])) && dirs
            == kept(all_d, flags);
    let ff = choose|flags: Seq<bool>|
        flags.len() == all_f.len() && (forall|i: int|
            0 <= i < all_f.len() ==> answered(is_file_now, #[trigger] all_f[i], flags[i])) && files
            == kept(all_f, flags);
    assert forall|x: Seq<char>| #[trigger] dirs.contains(x) <==> tree.contains_key(x)
        && tree[x].is_dir by {
        lemma_kept_contains(all_d, fd, x);
        if dirs.contains(x) {
            let i = choose|i: int| 0 <= i < all_d.len() && all_d[i] == x && #[trigger] fd[i];
            assert(answered(is_dir_now, all_d[i], fd[i]));
            assert(all_d.to_set().contains(x));
        }
        if tree.contains_key(x) && tree[x].is_dir {
            assert(all_d.to_set().contains(x));
            let i = choose|i: int| 0 <= i < all_d.len() && all_d[i] == x;
            assert(answered(is_dir_now, all_d[i], fd[i]));
            assert(fd[i]);
        }
    }
    assert forall|x: Seq<char>| #[trigger] files.contains(x) <==> tree.contains_key(x)
        && !tree[x].is_dir by {
        lemma_kept_contains(all_f, ff, x);
        if files.contains(x) {
            let i = choose|i: int| 0 <= i < all_f.len() && all_f[i] == x && #[trigger] ff[i];
            assert(answered(is_file_now, all_f[i], ff[i]));
            assert(all_f.to_set().contains(x));
        }
        if tree.contains_key(x) && !tree[x].is_dir {
            assert(all_f.to_set().contains(x));
            let i = choose|i: int| 0 <= i < all_f.len() && all_f[i] == x;
            assert(answered(is_file_now, all_f[i], ff[i]));
            assert(ff[i]);
        }
    }
    assert(dirs.to_set() + files.to_set() =~= tree.dom());
    assert(dirs.to_set() * files.to_set() =~= Set::<Seq<char>>::empty());
}

/// Over one unchanged readable tree of files and directories, both filtered
/// walks succeed, and the directories found and the files found together make
/// up every entry of the tree, none being both.
pub proof fn lemma_dirs_and_files_partition<L, K, D, F>(
    root: Seq<char>,
    list_dir: L,
    entry_is_dir: K,
    is_dir_now: D,
    is_file_now: F,
    tree: Map<Seq<char>, TreeEntry>,
    dirs: Result<Vec<String>, PathError>,
    files: Result<Vec<String>, PathError>,
) where
    L: Fn(&str) -> Result<Vec<String>, String>,
    K: Fn(&str) -> Result<bool, String>,
    D: Fn(&str) -> bool,
    F: Fn(&str) -> bool,

    requires
        answers_as_tree(list_dir, entry_is_dir, root, tree),
        reads_cleanly(list_dir, entry_is_dir, root, tree),
        tree.dom().finite(),
        tree.dom().len() < usize::MAX,
        forall|s: Seq<char>, b: bool|
            #[trigger] answered(is_dir_now, s, b) && tree.contains_key(s) ==> b == tree[s].is_dir,
        forall|s: Seq<char>, b: bool|
            #[trigger] answered(is_file_now, s, b) && tree.contains_key(s) ==> b == !tree[s].is_dir,
        filtered_walk_outcome(root, list_dir, entry_is_dir, is_dir_now, dirs),
        filtered_walk_outcome(root, list_dir, entry_is_dir, is_file_now, files),
    ensures
        dirs matches Ok(d) && files matches Ok(f) && {
            &&& views(d@).to_set() + views(f@).to_set() == tree.dom()
            &&& views(d@).to_set() * views(f@).to_set() == Set::<Seq<char>>::empty()
        },
{
    if let Err(e) = dirs {
        lemma_readable_tree_walk_cannot_fail(root, list_dir, entry_is_dir, tree, e);
    }
    if let Err(e) = files {
        lemma_readable_tree_walk_cannot_fail(root, list_dir, entry_is_dir, tree, e);
    }
    if let Ok(d) = dirs {
        if let Ok(f) = files {
            lemma_found_dirs_and_files_partition(
                root,
                list_dir,
                entry_is_dir,
                is_dir_now,
                is_file_now,
                tree,
                views(d@),
                views(f@),
            );
        }
    }
}

} // verus!
