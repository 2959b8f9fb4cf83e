use vstd::prelude::*;
use crate::error::PathError;
use crate::path_model::views;

verus! {

/// Where an entry of a directory tree sits, and whether it is a directory.
pub struct TreeEntry {
    pub parent: Seq<char>,
    pub is_dir: bool,
}

/// The texts that a directory listing returned; nothing for a failed one.
pub open spec fn listing_of(r: Result<Vec<String>, String>) -> Seq<Seq<char>> {
    match r {
        Ok(v) => views(v@),
        Err(_) => Seq::empty(),
    }
}

/// `l` names each entry of `tree` whose parent is `d`, each once, and nothing else.
pub open spec fn lists_children(tree: Map<Seq<char>, TreeEntry>, d: Seq<char>, l: Seq<Seq<char>>) -> bool {
    &&& l.no_duplicates()
    &&& forall|i: int|
        0 <= i < l.len() ==> tree.contains_key(#[trigger] l[i]) && tree[l[i]].parent == d
    &&& forall|y: Seq<char>|
        #[trigger] tree.contains_key(y) && tree[y].parent == d ==> l.contains(y)
}

/// Every entry of `tree` hangs, through directories of the tree, below `root`,
/// and sits under a parent of shorter text.
pub open spec fn is_rooted_tree(root: Seq<char>, tree: Map<Seq<char>, TreeEntry>) -> bool {
    &&& !tree.contains_key(root)
    &&& forall|x: Seq<char>| #[trigger]
        tree.contains_key(x) ==> tree[x].parent.len() < x.len() && (tree[x].parent == root || (
        tree.contains_key(tree[x].parent) && tree[tree[x].parent].is_dir))
}

/// The queries answer as the directory tree `tree` below `root` would: a
/// successful listing of the root or of a directory of the tree names its
/// children, and a successful kind query on an entry says whether it is a directory.
pub open spec fn answers_as_tree<L, K>(
    list_dir: L,
    is_dir: K,
    root: Seq<char>,
    tree: Map<Seq<char>, TreeEntry>,
) -> bool where
    L: Fn(&str) -> Result<Vec<String>, String>,
    K: Fn(&str) -> Result<bool, String>,
 {
    &&& is_rooted_tree(root, tree)
    &&& forall|t: &str, r: Result<Vec<String>, String>|
        #[trigger] call_ensures(list_dir, (t,), r) && r is Ok && (t@ == root || (tree.contains_key(
            t@,
        ) && tree[t@].is_dir)) ==> lists_children(tree, t@, listing_of(r))
    &&& forall|t: &str, r: Result<bool, String>|
        #[trigger] call_ensures(is_dir, (t,), r) && tree.contains_key(t@) ==> (r matches Ok(b)
            ==> b == tree[t@].is_dir)
}

/// `found` is what a walk below `root` owes on success: for any tree that the
/// queries answer as, every entry of the tree once and nothing else.
pub open spec fn walk_found<L, K>(
    root: Seq<char>,
    list_dir: L,
    is_dir: K,
    found: Seq<Seq<char>>,
) -> bool where
    L: Fn(&str) -> Result<Vec<String>, String>,
    K: Fn(&str) -> Result<bool, String>,
 {
    forall|tree: Map<Seq<char>, TreeEntry>| #[trigger]
        answers_as_tree(list_dir, is_dir, root, tree) ==> {
            &&& found.no_duplicates()
            &&& forall|x: Seq<char>| found.contains(x) <==> tree.contains_key(x)
        }
}

/// Every tree that the queries answer as below `root` holds at least as many
/// distinct entries as a vector can.
pub open spec fn too_many_entries<L, K>(root: Seq<char>, list_dir: L, is_dir: K) -> bool where
    L: Fn(&str) -> Result<Vec<String>, String>,
    K: Fn(&str) -> Result<bool, String>,
 {
    forall|tree: Map<Seq<char>, TreeEntry>| #[trigger]
        answers_as_tree(list_dir, is_dir, root, tree) ==> exists|s: Seq<Seq<char>>|
            s.len() == usize::MAX && s.no_duplicates() && forall|i: int|
                0 <= i < s.len() ==> tree.contains_key(#[trigger] s[i])
}

/// `s` is an entry of every tree that the queries answer as.
pub open spec fn met_entry<L, K>(root: Seq<char>, list_dir: L, is_dir: K, s: Seq<char>) -> bool where
    L: Fn(&str) -> Result<Vec<String>, String>,
    K: Fn(&str) -> Result<bool, String>,
 {
    forall|tree: Map<Seq<char>, TreeEntry>| #[trigger]
        answers_as_tree(list_dir, is_dir, root, tree) ==> tree.contains_key(s)
}

/// `s` is the root, or a directory of every tree that the queries answer as.
pub open spec fn met_dir<L, K>(root: Seq<char>, list_dir: L, is_dir: K, s: Seq<char>) -> bool where
    L: Fn(&str) -> Result<Vec<String>, String>,
    K: Fn(&str) -> Result<bool, String>,
 {
    s == root || forall|tree: Map<Seq<char>, TreeEntry>| #[trigger]
        answers_as_tree(list_dir, is_dir, root, tree) ==> tree.contains_key(s) && tree[s].is_dir
}

/// A walk below `root` fails only when the listing of the root or of a
/// directory met fails, or the kind query on an entry met fails, naming that
/// path and passing the query's message on; or when the tree holds more
/// entries than a vector can, naming the root.
pub open spec fn walk_failed<L, K>(root: Seq<char>, list_dir: L, is_dir: K, e: PathError) -> bool where
    L: Fn(&str) -> Result<Vec<String>, String>,
    K: Fn(&str) -> Result<bool, String>,
 {
    match e {
        PathError::TooManyEntries(d) => d@ == root && too_many_entries(root, list_dir, is_dir),
        PathError::Io { path, message } => {
            ||| met_dir(root, list_dir, is_dir, path@) && exists|t: &str|
                t@ == path@ && call_ensures(list_dir, (t,), Err::<Vec<String>, String>(message))
            ||| met_entry(root, list_dir, is_dir, path@) && exists|t: &str|
                t@ == path@ && call_ensures(is_dir, (t,), Err::<bool, String>(message))
        },
        _ => false,
    }
}

/// Every listing of `root` that the query can give fails.
pub open spec fn root_unreadable<L>(root: Seq<char>, list_dir: L) -> bool where
    L: Fn(&str) -> Result<Vec<String>, String>,
 {
    forall|t: &str, r: Result<Vec<String>, String>|
        #[trigger] call_ensures(list_dir, (t,), r) && t@ == root ==> r is Err
}

/// What a walk below `root` owes.
pub open spec fn walk_outcome<L, K>(
    root: Seq<char>,
    list_dir: L,
    is_dir: K,
    r: Result<Vec<String>, PathError>,
) -> bool where
    L: Fn(&str) -> Result<Vec<String>, String>,
    K: Fn(&str) -> Result<bool, String>,
 {
    &&& match r {
        Ok(v) => walk_found(root, list_dir, is_dir, views(v@)),
        Err(e) => walk_failed(root, list_dir, is_dir, e),
    }
    &&& root_unreadable(root, list_dir) ==> (r matches Err(PathError::Io { path, message: _ })
        && path@ == root)
}

/// The state of a walk over `tree`: `out` holds the entries taken, `stack` those
/// still to take; no entry twice; each one sits under the root or under a taken
/// entry; and each child of the root or of a taken directory is held.
pub open spec fn walk_state(
    tree: Map<Seq<char>, TreeEntry>,
    root: Seq<char>,
    out: Seq<Seq<char>>,
    stack: Seq<Seq<char>>,
) -> bool {
    &&& out.no_duplicates()
    &&& stack.no_duplicates()
    &&& out.disjoint(stack)
    &&& forall|i: int|
        0 <= i < out.len() ==> tree.contains_key(#[trigger] out[i]) && (tree[out[i]].parent
            == root || out.contains(tree[out[i]].parent))
    &&& forall|i: int|
        0 <= i < stack.len() ==> tree.contains_key(#[trigger] stack[i]) && (tree[stack[i]].parent
            == root || out.contains(tree[stack[i]].parent))
    &&& forall|x: Seq<char>| #[trigger]
        tree.contains_key(x) && (tree[x].parent == root || (out.contains(tree[x].parent)
            && tree[tree[x].parent].is_dir)) ==> out.contains(x) || stack.contains(x)
}

proof fn lemma_walk_start(tree: Map<Seq<char>, TreeEntry>, root: Seq<char>, l: Seq<Seq<char>>)
    requires
        lists_children(tree, root, l),
    ensures
        walk_state(tree, root, Seq::empty(), l),
{
}

/// Taking the last held entry keeps the walk state; a directory's listing is then held too.
proof fn lemma_walk_take(
    tree: Map<Seq<char>, TreeEntry>,
    root: Seq<char>,
    out: Seq<Seq<char>>,
    stack: Seq<Seq<char>>,
    l: Seq<Seq<char>>,
)
    requires
        is_rooted_tree(root, tree),
        walk_state(tree, root, out, stack),
        stack.len() > 0,
        tree.contains_key(stack.last()),
        tree[stack.last()].is_dir ==> lists_children(tree, stack.last(), l),
        !tree[stack.last()].is_dir ==> l.len() == 0,
    ensures
        walk_state(tree, root, out.push(stack.last()), stack.drop_last() + l),
{
    let x = stack.last();
    let out2 = out.push(x);
    let rest = stack.drop_last();
    let stack2 = rest + l;
    assert(!out.contains(x)) by {
        if out.contains(x) {
            let i = choose|i: int| 0 <= i < out.len() && out[i] == x;
            assert(out[i] != stack[stack.len() - 1]);
        }
    }
    assert(!rest.contains(x)) by {
        if rest.contains(x) {
            let i = choose|i: int| 0 <= i < rest.len() && rest[i] == x;
            assert(stack[i] != stack[stack.len() - 1]);
        }
    }
    assert(out2.no_duplicates()) by {
        assert forall|i: int, j: int|
            0 <= i < out2.len() && 0 <= j < out2.len() && i != j implies out2[i] != out2[j] by {
            if i == out.len() {
                assert(out.contains(out2[j]) ==> out2[j] != x);
                assert(out2[j] == out[j]);
            } else if j == out.len() {
                assert(out2[i] == out[i]);
            }
        }
    }
    // Entries of `l` sit under `x`; entries held before sit under the root or a taken entry.
    assert forall|i: int| 0 <= i < l.len() implies !out2.contains(#[trigger] l[i]) && !rest.contains(
        l[i],
    ) by {
        let y = l[i];
        assert(tree[y].parent == x);
        if out2.contains(y) {
            let k = choose|k: int| 0 <= k < out2.len() && out2[k] == y;
            if k < out.len() {
                assert(out[k] == y);
                assert(tree[out[k]].parent == root || out.contains(tree[out[k]].parent));
            } else {
                assert(y == x);
            }
        }
        if rest.contains(y) {
            let k = choose|k: int| 0 <= k < rest.len() && rest[k] == y;
            assert(stack[k] == y);
            assert(tree[stack[k]].parent == root || out.contains(tree[stack[k]].parent));
        }
    }
    assert(stack2.no_duplicates()) by {
        assert forall|i: int, j: int|
            0 <= i < stack2.len() && 0 <= j < stack2.len() && i != j implies stack2[i]
            != stack2[j] by {
            if i < rest.len() && j < rest.len() {
                assert(stack2[i] == stack[i] && stack2[j] == stack[j]);
            } else if i >= rest.len() && j >= rest.len() {
                assert(stack2[i] == l[i - rest.len()] && stack2[j] == l[j - rest.len()]);
            } else if i < rest.len() {
                assert(stack2[j] == l[j - rest.len()]);
                assert(rest.contains(stack2[i]));
            } else {
                assert(stack2[i] == l[i - rest.len()]);
                assert(rest.contains(stack2[j]));
            }
        }
    }
    assert(out2.disjoint(stack2)) by {
        assert forall|i: int, j: int| 0 <= i < out2.len() && 0 <= j < stack2.len() implies out2[i]
            != stack2[j] by {
            if j < rest.len() {
                assert(stack2[j] == stack[j]);
                if i < out.len() {
                    assert(out2[i] == out[i]);
                } else {
                    assert(rest.contains(stack2[j]));
                }
            } else {
                assert(stack2[j] == l[j - rest.len()]);
                assert(out2.contains(out2[i]));
            }
        }
    }
    assert forall|i: int| 0 <= i < out2.len() implies tree.contains_key(#[trigger] out2[i]) && (
    tree[out2[i]].parent == root || out2.contains(tree[out2[i]].parent)) by {
        if i < out.len() {
            assert(out2[i] == out[i]);
            if out.contains(tree[out[i]].parent) {
                let k = choose|k: int| 0 <= k < out.len() && out[k] == tree[out[i]].parent;
                assert(out2[k] == out[k]);
            }
        } else {
            assert(out2[i] == stack[stack.len() - 1]);
            if out.contains(tree[x].parent) {
                let k = choose|k: int| 0 <= k < out.len() && out[k] == tree[x].parent;
                assert(out2[k] == out[k]);
            }
        }
    }
    assert forall|i: int| 0 <= i < stack2.len() implies tree.contains_key(#[trigger] stack2[i]) && (
    tree[stack2[i]].parent == root || out2.contains(tree[stack2[i]].parent)) by {
        if i < rest.len() {
            assert(stack2[i] == stack[i]);
            if out.contains(tree[stack[i]].parent) {
                let k = choose|k: int| 0 <= k < out.len() && out[k] == tree[stack[i]].parent;
                assert(out2[k] == out[k]);
            }
        } else {
            assert(stack2[i] == l[i - rest.len()]);
            assert(out2[out.len() as int] == x);
        }
    }
    assert forall|y: Seq<char>| #[trigger]
        tree.contains_key(y) && (tree[y].parent == root || (out2.contains(tree[y].parent)
            && tree[tree[y].parent].is_dir)) implies out2.contains(y) || stack2.contains(y) by {
        let p = tree[y].parent;
        if p != root && out2.contains(p) && p != x {
            let k = choose|k: int| 0 <= k < out2.len() && out2[k] == p;
            assert(out[k] == p);
        }
        if p == x && p != root && tree[x].is_dir {
            assert(l.contains(y));
            let k = choose|k: int| 0 <= k < l.len() && l[k] == y;
            assert(stack2[rest.len() + k] == y);
        } else {
            assert(out.contains(y) || stack.contains(y));
            if out.contains(y) {
                let k = choose|k: int| 0 <= k < out.len() && out[k] == y;
                assert(out2[k] == y);
            } else if y == x {
                assert(out2[out.len() as int] == y);
            } else {
                let k = choose|k: int| 0 <= k < stack.len() && stack[k] == y;
                assert(k != stack.len() - 1);
                assert(stack2[k] == y);
            }
        }
    }
}

/// When nothing is left to take, every entry of the tree has been taken.
proof fn lemma_walk_covers(
    tree: Map<Seq<char>, TreeEntry>,
    root: Seq<char>,
    out: Seq<Seq<char>>,
    x: Seq<char>,
)
    requires
        is_rooted_tree(root, tree),
        walk_state(tree, root, out, Seq::empty()),
        tree.contains_key(x),
    ensures
        out.contains(x),
    decreases x.len(),
{
    let p = tree[x].parent;
    if p != root {
        lemma_walk_covers(tree, root, out, p);
    }
    assert(out.contains(x) || Seq::<Seq<char>>::empty().contains(x));
}


/// Every entry below the directory `dir`, at any depth, depth first: lists
/// `dir`, then takes the last entry held, asks whether it is a directory, and if
/// so holds its listing too, until nothing is held. Fails with the first failure
/// of a query, keeping nothing.
pub fn get_paths_in_dir_and_sub_dirs<L, K>(dir: &str, list_dir: L, is_dir: K) -> (r: Result<
    Vec<String>,
    PathError,
>) where
    L: Fn(&str) -> Result<Vec<String>, String>,
    K: Fn(&str) -> Result<bool, String>,

    requires
        forall|t: &str| call_requires(list_dir, (t,)),
        forall|t: &str| call_requires(is_dir, (t,)),
    ensures
        walk_outcome(dir@, list_dir, is_dir, r),
{
    let mut stack = match list_dir(dir) {
        Ok(v) => v,
        Err(message) => return Err(PathError::Io { path: String::from_str(dir), message }),
    };
    let mut out: Vec<String> = Vec::new();
    proof {
        assert(!root_unreadable(dir@, list_dir));
        assert forall|tree: Map<Seq<char>, TreeEntry>| #[trigger]
            answers_as_tree(list_dir, is_dir, dir@, tree) implies walk_state(
            tree,
            dir@,
            views(out@),
            views(stack@),
        ) by {
            assert(lists_children(tree, dir@, views(stack@)));
            assert(views(out@) =~= Seq::<Seq<char>>::empty());
            lemma_walk_start(tree, dir@, views(stack@));
        }
    }
    while stack.len() > 0
        invariant
            forall|t: &str| call_requires(list_dir, (t,)),
            forall|t: &str| call_requires(is_dir, (t,)),
            !root_unreadable(dir@, list_dir),
            forall|tree: Map<Seq<char>, TreeEntry>| #[trigger]
                answers_as_tree(list_dir, is_dir, dir@, tree) ==> walk_state(
                    tree,
                    dir@,
                    views(out@),
                    views(stack@),
                ),
        decreases usize::MAX - out@.len(),
    {
        if out.len() == usize::MAX {
            proof {
                assert forall|tree: Map<Seq<char>, TreeEntry>| #[trigger]
                    answers_as_tree(list_dir, is_dir, dir@, tree) implies exists|s: Seq<Seq<char>>|
                    s.len() == usize::MAX && s.no_duplicates() && forall|i: int|
                        0 <= i < s.len() ==> tree.contains_key(#[trigger] s[i]) by {
                    assert(walk_state(tree, dir@, views(out@), views(stack@)));
                    let s = views(out@);
                    assert(forall|i: int| 0 <= i < s.len() ==> tree.contains_key(#[trigger] s[i]));
                }
            }
            return Err(PathError::TooManyEntries(String::from_str(dir)));
        }
        let ghost before_out = views(out@);
        let ghost before_stack = views(stack@);
        let x = stack.pop().unwrap();
        proof {
            assert(x@ == before_stack.last());
            assert(views(stack@) =~= before_stack.drop_last());
        }
        let t: &str = x.as_str();
        proof {
            assert forall|tree: Map<Seq<char>, TreeEntry>| #[trigger]
                answers_as_tree(list_dir, is_dir, dir@, tree) implies tree.contains_key(t@) by {
                assert(walk_state(tree, dir@, before_out, before_stack));
                assert(before_stack[before_stack.len() - 1] == t@);
            }
        }
        let x_is_dir = match is_dir(t) {
            Ok(b) => b,
            Err(message) => return Err(PathError::Io { path: String::from_str(t), message }),
        };
        let mut children: Vec<String> = if x_is_dir {
            proof {
                assert forall|tree: Map<Seq<char>, TreeEntry>| #[trigger]
                    answers_as_tree(list_dir, is_dir, dir@, tree) implies tree.contains_key(t@)
                    && tree[t@].is_dir by {
                    assert(tree.contains_key(t@));
                }
            }
            match list_dir(t) {
                Ok(v) => v,
                Err(message) => return Err(PathError::Io { path: String::from_str(t), message }),
            }
        } else {
            Vec::new()
        };
        let ghost listed = views(children@);
        let ghost rest = views(stack@);
        stack.append(&mut children);
        out.push(x);
        proof {
            assert(views(out@) =~= before_out.push(before_stack.last()));
            assert(views(stack@) =~= before_stack.drop_last() + listed);
            assert forall|tree: Map<Seq<char>, TreeEntry>| #[trigger]
                answers_as_tree(list_dir, is_dir, dir@, tree) implies walk_state(
                tree,
                dir@,
                views(out@),
                views(stack@),
            ) by {
                let last = before_stack.last();
                assert(before_stack[before_stack.len() - 1] == last);
                assert(tree.contains_key(last));
                assert(x_is_dir == tree[last].is_dir);
                if x_is_dir {
                    assert(lists_children(tree, t@, listed));
                } else {
                    assert(listed =~= Seq::<Seq<char>>::empty());
                }
                lemma_walk_take(tree, dir@, before_out, before_stack, listed);
            }
        }
    }
    proof {
        assert forall|tree: Map<Seq<char>, TreeEntry>| #[trigger]
            answers_as_tree(list_dir, is_dir, dir@, tree) implies {
            &&& views(out@).no_duplicates()
            &&& forall|x: Seq<char>| views(out@).contains(x) <==> tree.contains_key(x)
        } by {
            assert(views(stack@) =~= Seq::<Seq<char>>::empty());
            assert forall|x: Seq<char>| views(out@).contains(x) <==> tree.contains_key(x) by {
                if tree.contains_key(x) {
                    lemma_walk_covers(tree, dir@, views(out@), x);
                }
                if views(out@).contains(x) {
                    let k = choose|k: int| 0 <= k < views(out@).len() && views(out@)[k] == x;
                    assert(tree.contains_key(views(out@)[k]));
                }
            }
        }
    }
    Ok(out)
}


/// Every query that a walk over `tree` may make succeeds: listing the root or
/// a directory of the tree, and asking the kind of an entry.
pub open spec fn reads_cleanly<L, K>(
    list_dir: L,
    is_dir: K,
    root: Seq<char>,
    tree: Map<Seq<char>, TreeEntry>,
) -> bool where
    L: Fn(&str) -> Result<Vec<String>, String>,
    K: Fn(&str) -> Result<bool, String>,
 {
    &&& forall|t: &str, r: Result<Vec<String>, String>|
        #[trigger] call_ensures(list_dir, (t,), r) && (t@ == root || (tree.contains_key(t@)
            && tree[t@].is_dir)) ==> r is Ok
    &&& forall|t: &str, r: Result<bool, String>|
        #[trigger] call_ensures(is_dir, (t,), r) && tree.contains_key(t@) ==> r is Ok
}

/// A readable tree of fewer entries than a vector can hold gives a walk no
/// reason to fail.
pub proof fn lemma_readable_tree_walk_cannot_fail<L, K>(
    root: Seq<char>,
    list_dir: L,
    is_dir: K,
    tree: Map<Seq<char>, TreeEntry>,
    e: PathError,
) where
    L: Fn(&str) -> Result<Vec<String>, String>,
    K: Fn(&str) -> Result<bool, String>,

    requires
        answers_as_tree(list_dir, is_dir, root, tree),
        reads_cleanly(list_dir, is_dir, root, tree),
        tree.dom().finite(),
        tree.dom().len() < usize::MAX,
    ensures
        !walk_failed(root, list_dir, is_dir, e),
{
    match e {
        PathError::TooManyEntries(d) => {
            if d@ == root && too_many_entries(root, list_dir, is_dir) {
                let s = choose|s: Seq<Seq<char>>|
                    s.len() == usize::MAX && s.no_duplicates() && forall|i: int|
                        0 <= i < s.len() ==> tree.contains_key(#[trigger] s[i]);
                s.unique_seq_to_set();
                assert(s.to_set().subset_of(tree.dom()));
                vstd::set_lib::lemma_len_subset(s.to_set(), tree.dom());
            }
        },
        PathError::Io { path, message } => {
            if met_dir(root, list_dir, is_dir, path@) && exists|t: &str|
                t@ == path@ && call_ensures(list_dir, (t,), Err::<Vec<String>, String>(message)) {
                let t = choose|t: &str|
                    t@ == path@ && call_ensures(list_dir, (t,), Err::<Vec<String>, String>(message));
                assert(t@ == root || (tree.contains_key(t@) && tree[t@].is_dir));
            }
            if met_entry(root, list_dir, is_dir, path@) && exists|t: &str|
                t@ == path@ && call_ensures(is_dir, (t,), Err::<bool, String>(message)) {
                let t = choose|t: &str|
                    t@ == path@ && call_ensures(is_dir, (t,), Err::<bool, String>(message));
                assert(tree.contains_key(t@));
            }
        },
        _ => {},
    }
}

/// A walk over a tree of files and directories returns each entry of the tree
/// exactly once: as many entries as the tree holds, none twice, none left out.
pub proof fn lemma_walk_lists_each_entry_once<L, K>(
    root: Seq<char>,
    list_dir: L,
    is_dir: K,
    tree: Map<Seq<char>, TreeEntry>,
    found: Seq<Seq<char>>,
) where
    L: Fn(&str) -> Result<Vec<String>, String>,
    K: Fn(&str) -> Result<bool, String>,

    requires
        answers_as_tree(list_dir, is_dir, root, tree),
        walk_found(root, list_dir, is_dir, found),
    ensures
        found.no_duplicates(),
        found.to_set() == tree.dom(),
        found.len() == tree.dom().len(),
{
    assert(found.to_set() =~= tree.dom());
    found.unique_seq_to_set();
}

} // verus!

verus! {

/// A walk over a readable tree of N files and M directories succeeds with
/// N + M entries: each entry of the tree once, none twice, none left out.
pub proof fn lemma_walk_of_readable_tree<L, K>(
    root: Seq<char>,
    list_dir: L,
    is_dir: K,
    tree: Map<Seq<char>, TreeEntry>,
    r: Result<Vec<String>, PathError>,
) where
    L: Fn(&str) -> Result<Vec<String>, String>,
    K: Fn(&str) -> Result<bool, String>,

    requires
        answers_as_tree(list_dir, is_dir, root, tree),
        reads_cleanly(list_dir, is_dir, root, tree),
        tree.dom().finite(),
        tree.dom().len() < usize::MAX,
        walk_outcome(root, list_dir, is_dir, r),
    ensures
        r matches Ok(v) && {
            &&& views(v@).no_duplicates()
            &&& views(v@).to_set() == tree.dom()
            &&& v@.len() == tree.dom().len()
        },
{
    match r {
        Ok(v) => {
            lemma_walk_lists_each_entry_once(root, list_dir, is_dir, tree, views(v@));
        },
        Err(e) => {
            lemma_readable_tree_walk_cannot_fail(root, list_dir, is_dir, tree, e);
        },
    }
}

/// Walking the same unchanged readable tree twice succeeds both times with the
/// same entries, perhaps in another order.
pub proof fn lemma_walk_of_readable_tree_repeatable<L, K>(
    root: Seq<char>,
    list_dir: L,
    is_dir: K,
    tree: Map<Seq<char>, TreeEntry>,
    first: Result<Vec<String>, PathError>,
    second: Result<Vec<String>, PathError>,
) where
    L: Fn(&str) -> Result<Vec<String>, String>,
    K: Fn(&str) -> Result<bool, String>,

    requires
        answers_as_tree(list_dir, is_dir, root, tree),
        reads_cleanly(list_dir, is_dir, root, tree),
        tree.dom().finite(),
        tree.dom().len() < usize::MAX,
        walk_outcome(root, list_dir, is_dir, first),
        walk_outcome(root, list_dir, is_dir, second),
    ensures
        first matches Ok(v1) && second matches Ok(v2) && views(v1@).to_set() == views(v2@).to_set()
            && v1@.len() == v2@.len(),
{
    lemma_walk_of_readable_tree(root, list_dir, is_dir, tree, first);
    lemma_walk_of_readable_tree(root, list_dir, is_dir, tree, second);
}

} // verus!
