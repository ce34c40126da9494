//! The browsed directory tree. It is built only from supported files, so directories that
//! contain none (anywhere in their subtree) never appear.

use std::path::PathBuf;

use vstd::prelude::*;
use vstd::slice::slice_subrange;
use vstd::utf8::{encode_utf8, encode_utf8_decode_utf8, encode_utf8_valid_utf8};

use crate::index::FileEntry;
use crate::index::{entry_views, EntryView};
use crate::order::{key_before, key_view, key_views, sorted_by, sorting};
use crate::order::{bytes_decided_at, lemma_bytes_decided, lemma_bytes_irreflexive};
use crate::order::{law_stable_order_unique, lemma_key_irreflexive, lemma_key_transitive};
use crate::order::sort_by_keys;
use crate::path::{
    base_len, lemma_present, name_agrees, part_views, path_components, path_names, path_shown, present, text_view,
    text_views, texts, PartView,
};
use crate::path::{components, display, name_texts, relative_names};
use crate::text::{lowercase, to_lowercase};

verus! {

/// A node in the browsed directory tree.
pub struct DirNode {
    pub name: String,
    pub dirs: Vec<DirNode>,
    /// Indices into the list of scanned files, for files directly in this directory.
    pub files: Vec<usize>,
}

/// What a [`DirNode`] holds.
pub struct TreeView {
    pub name: Seq<char>,
    pub dirs: Seq<TreeView>,
    pub files: Seq<usize>,
}

impl DirNode {
    /// What the node and everything below it holds.
    pub open spec fn tree(self) -> TreeView
        decreases self,
    {
        TreeView {
            name: self.name@,
            dirs: Seq::new(
                self.dirs@.len(),
                |i: int|
                    if 0 <= i < self.dirs@.len() {
                        self.dirs@[i].tree()
                    } else {
                        arbitrary()
                    },
            ),
            files: self.files@,
        }
    }

    /// A directory without contents.
    pub fn empty(name: String) -> (node: DirNode)
        ensures
            node.tree() == empty_dir(name@),
    {
        let node = DirNode { name, dirs: Vec::new(), files: Vec::new() };
        assert(node.tree().dirs =~= seq![]);
        node
    }
}

impl Default for DirNode {
    fn default() -> (node: DirNode)
        ensures
            node.tree() == empty_dir(seq![]),
    {
        DirNode::empty(String::new())
    }
}

/// A directory without contents.
pub open spec fn empty_dir(name: Seq<char>) -> TreeView {
    TreeView { name, dirs: seq![], files: seq![] }
}

/// The place of the first directory of a given name; the number of directories if there is
/// none.
pub open spec fn find_dir(dirs: Seq<TreeView>, name: Seq<char>) -> int
    decreases dirs.len(),
{
    if dirs.len() == 0 || dirs[0].name == name {
        0
    } else {
        1 + find_dir(dirs.drop_first(), name)
    }
}

/// A tree with one more file. The names lead to the file: the last one is the file's own, the
/// others are those of the directories, which are added where they are missing.
pub open spec fn inserted(t: TreeView, names: Seq<Seq<char>>, file: usize) -> TreeView
    decreases names.len(),
{
    if names.len() <= 1 {
        TreeView { files: t.files.push(file), ..t }
    } else {
        let p = find_dir(t.dirs, names[0]);
        if p < t.dirs.len() {
            TreeView { dirs: t.dirs.update(p, inserted(t.dirs[p], names.skip(1), file)), ..t }
        } else {
            TreeView {
                dirs: t.dirs.push(inserted(empty_dir(names[0]), names.skip(1), file)),
                ..t
            }
        }
    }
}

/// A directory is found at a place that bears its name, and at none before.
pub proof fn lemma_find_dir(dirs: Seq<TreeView>, name: Seq<char>)
    ensures
        0 <= find_dir(dirs, name) <= dirs.len(),
        find_dir(dirs, name) < dirs.len() ==> dirs[find_dir(dirs, name)].name == name,
        forall|i: int| 0 <= i < find_dir(dirs, name) ==> (#[trigger] dirs[i]).name != name,
    decreases dirs.len(),
{
    if dirs.len() > 0 && dirs[0].name != name {
        lemma_find_dir(dirs.drop_first(), name);
        assert forall|i: int| 0 <= i < find_dir(dirs, name) implies (#[trigger] dirs[i]).name != name by {
            if i > 0 {
                assert(dirs.drop_first()[i - 1] == dirs[i]);
            }
        }
    }
}

/// The first place that bears a name is where the directory is found.
proof fn lemma_found(dirs: Seq<TreeView>, name: Seq<char>, p: int)
    requires
        0 <= p <= dirs.len(),
        p < dirs.len() ==> dirs[p].name == name,
        forall|i: int| 0 <= i < p ==> (#[trigger] dirs[i]).name != name,
    ensures
        find_dir(dirs, name) == p,
{
    lemma_find_dir(dirs, name);
    let q = find_dir(dirs, name);
    if q < p {
        assert(dirs[q].name != name);
    } else if p < q {
        assert(dirs[p].name != name);
    }
}

/// Puts a file into the tree at the place its names lead to.
pub fn insert(node: &mut DirNode, names: &[String], file: usize)
    ensures
        final(node).tree() == inserted(old(node).tree(), texts(names@), file),
    decreases names@.len(),
{
    let ghost before = node.tree();
    let ghost all = texts(names@);
    if names.len() <= 1 {
        node.files.push(file);
        assert(node.tree().dirs =~= before.dirs);
        return;
    }
    let mut p: usize = 0;
    while p < node.dirs.len() && node.dirs[p].name != names[0]
        invariant
            names@.len() > 1,
            before == node.tree(),
            p <= node.dirs@.len(),
            forall|i: int| 0 <= i < p ==> (#[trigger] before.dirs[i]).name != names@[0]@,
        decreases node.dirs@.len() - p,
    {
        assert(before.dirs[p as int] == node.dirs@[p as int].tree());
        p += 1;
    }
    let rest = slice_subrange(names, 1, names.len());
    assert(texts(rest@) =~= all.skip(1));
    proof {
        if p < node.dirs@.len() {
            assert(before.dirs[p as int] == node.dirs@[p as int].tree());
        }
        lemma_found(before.dirs, all[0], p as int);
    }
    if p == node.dirs.len() {
        let mut fresh = DirNode::empty(names[0].clone());
        insert(&mut fresh, rest, file);
        node.dirs.push(fresh);
        assert(node.tree().dirs =~= before.dirs.push(fresh.tree()));
    } else {
        insert(&mut node.dirs[p], rest, file);
        assert(node.tree().dirs =~= before.dirs.update(p as int, node.dirs@[p as int].tree()));
    }
}

/// The key by which a directory is ordered among its siblings: its name in lower case.
pub open spec fn dir_key(d: TreeView) -> Seq<Seq<u8>> {
    seq![encode_utf8(lowercase(d.name))]
}

/// The keys of a list of directories.
pub open spec fn dir_keys(dirs: Seq<TreeView>) -> Seq<Seq<Seq<u8>>> {
    dirs.map_values(|d: TreeView| dir_key(d))
}

/// A tree whose directories are ordered by name at every level.
pub open spec fn sorted_tree(t: TreeView) -> TreeView
    decreases t,
{
    TreeView { dirs: sorted_by(sorted_trees(t.dirs), dir_keys(t.dirs)), ..t }
}

/// Trees whose directories are ordered by name at every level.
pub open spec fn sorted_trees(dirs: Seq<TreeView>) -> Seq<TreeView>
    decreases dirs,
{
    Seq::new(
        dirs.len(),
        |i: int|
            if 0 <= i < dirs.len() {
                sorted_tree(dirs[i])
            } else {
                arbitrary()
            },
    )
}

/// Orders the directories of a tree by name, without regard to case, at every level.
pub fn sort_tree(node: &mut DirNode)
    ensures
        final(node).tree() == sorted_tree(old(node).tree()),
    decreases old(node).tree(),
{
    let ghost before = node.tree();
    let mut dirs: Vec<DirNode> = Vec::new();
    std::mem::swap(&mut dirs, &mut node.dirs);
    let ghost given = dirs@;
    let mut keys: Vec<Vec<Vec<u8>>> = Vec::new();
    let mut i: usize = 0;
    while i < dirs.len()
        invariant
            before == old(node).tree(),
            i <= dirs@.len(),
            dirs@.len() == given.len(),
            before.dirs.len() == given.len(),
            keys@.len() == i,
            forall|j: int| 0 <= j < given.len() ==> before.dirs[j] == (#[trigger] given[j]).tree(),
            forall|j: int| i <= j < dirs@.len() ==> #[trigger] dirs@[j] == given[j],
            forall|j: int| 0 <= j < i ==> (#[trigger] dirs@[j]).tree() == sorted_tree(before.dirs[j]),
            forall|j: int| 0 <= j < i ==> key_view((#[trigger] keys@[j])@) == dir_key(before.dirs[j]),
        decreases dirs@.len() - i,
    {
        assert(given[i as int].tree() == before.dirs[i as int]);
        let lower = to_lowercase(dirs[i].name.as_str());
        let mut key: Vec<Vec<u8>> = Vec::new();
        key.push(lower.as_str().as_bytes_vec());
        assert(key_view(key@) =~= dir_key(before.dirs[i as int]));
        keys.push(key);
        sort_tree(&mut dirs[i]);
        i += 1;
    }
    let ghost done = dirs@;
    assert(key_views(keys@) =~= dir_keys(before.dirs));
    node.dirs = sort_by_keys(dirs, keys);
    proof {
        law_stable_order_unique(dir_keys(before.dirs), seq![]);
        assert(node.tree().dirs =~= sorted_by(
            sorted_trees(before.dirs),
            dir_keys(before.dirs),
        ));
    }
}

/// The unsorted tree of the first `n` files, each given by the names that lead to it.
pub open spec fn filled(root_name: Seq<char>, list: Seq<Seq<Seq<char>>>, n: nat) -> TreeView
    decreases n,
{
    if n == 0 {
        empty_dir(root_name)
    } else {
        inserted(filled(root_name, list, (n - 1) as nat), list[n - 1], (n - 1) as usize)
    }
}

/// The tree of a list of files, each given by the names that lead to it.
pub open spec fn tree_of(root_name: Seq<char>, list: Seq<Seq<Seq<char>>>) -> TreeView {
    sorted_tree(filled(root_name, list, list.len()))
}

/// The contents of a list of lists of texts.
pub open spec fn text_lists(list: Seq<Vec<String>>) -> Seq<Seq<Seq<char>>> {
    list.map_values(|l: Vec<String>| texts(l@))
}

/// Builds the tree of a list of files, each given by the names that lead to it.
pub fn tree_from_names(root_name: String, list: &Vec<Vec<String>>) -> (tree: DirNode)
    ensures
        tree.tree() == tree_of(root_name@, text_lists(list@)),
{
    let ghost ll = text_lists(list@);
    let mut tree = DirNode::empty(root_name);
    let mut i: usize = 0;
    while i < list.len()
        invariant
            ll == text_lists(list@),
            i <= list@.len(),
            tree.tree() == filled(root_name@, ll, i as nat),
        decreases list@.len() - i,
    {
        assert(ll[i as int] == texts(list@[i as int]@));
        insert(&mut tree, list[i].as_slice(), i);
        i += 1;
    }
    sort_tree(&mut tree);
    tree
}

/// The name of the root of the tree: the folder's own name, or the whole path if it has none.
pub open spec fn root_name(root: PathBuf) -> Seq<char> {
    let texts = path_names(root);
    if texts.len() > 0 && texts.last() is Some {
        texts.last()->0
    } else {
        path_shown(root)
    }
}

/// The names that lead from a folder to a file.
pub open spec fn names_behind(root: PathBuf, file: PathBuf) -> Seq<Seq<char>> {
    present(path_names(file).skip(base_len(path_components(file), path_components(root)) as int))
}

/// The names that lead from a folder to each of the given files.
pub open spec fn names_below(root: PathBuf, entries: Seq<EntryView>) -> Seq<Seq<Seq<char>>> {
    entries.map_values(|e: EntryView| names_behind(root, e.path))
}

/// The name of the root of the tree.
fn name_of_root(root: &PathBuf) -> (name: String)
    ensures
        name@ == root_name(*root),
        names_agree(*root),
{
    let mut texts = name_texts(root);
    let ghost all = texts@;
    assert(text_views(all).len() == all.len());
    proof {
        assert forall|i: int| 0 <= i < path_names(*root).len() implies name_agrees(
            path_components(*root)[i],
            #[trigger] path_names(*root)[i],
        ) by {
            assert(path_names(*root)[i] == text_view(all[i]));
        }
    }
    match texts.pop() {
        Some(Some(name)) => {
            assert(text_views(all).last() == text_view(all.last()));
            name
        },
        Some(None) => {
            assert(text_views(all).last() == text_view(all.last()));
            display(root)
        },
        None => display(root),
    }
}

/// Build a directory tree relative to `root` from the scanned entries.
pub fn build_tree(root: &PathBuf, entries: &[FileEntry]) -> (tree: DirNode)
    ensures
        tree.tree() == tree_of(root_name(*root), names_below(*root, entry_views(entries@))),
        // A file stands where the names behind the folder lead, each a level, and nowhere else.
        forall|i: int, names: Seq<Seq<char>>, dir: Seq<Seq<char>>|
            #![trigger name_parts(names), holds(tree.tree(), dir, i as usize)]
            0 <= i < entries@.len() && names.len() > 0 && path_components(entries@[i].path) == path_components(*root)
                + name_parts(names) ==> (holds(tree.tree(), dir, i as usize) <==> dir == names.drop_last()),
        names_agree(*root),
{
    let base = components(root);
    let name = name_of_root(root);
    let mut list: Vec<Vec<String>> = Vec::new();
    let mut i: usize = 0;
    while i < entries.len()
        invariant
            i <= entries@.len(),
            part_views(base@) == path_components(*root),
            list@.len() == i,
            forall|j: int|
                0 <= j < i ==> texts((#[trigger] list@[j])@) == names_behind(*root, entries@[j].path),
            forall|j: int| 0 <= j < i ==> names_agree((#[trigger] entries@[j]).path),
        decreases entries@.len() - i,
    {
        let parts = components(&entries[i].path);
        assert(part_views(parts@).len() == parts@.len());
        let names = name_texts(&entries[i].path);
        proof {
            let path = entries@[i as int].path;
            assert(text_views(names@).len() == names@.len());
            assert forall|k: int| 0 <= k < path_names(path).len() implies name_agrees(
                path_components(path)[k],
                #[trigger] path_names(path)[k],
            ) by {
                assert(path_names(path)[k] == text_view(names@[k]));
            }
        }
        list.push(relative_names(&parts, &base, &names));
        i += 1;
    }
    assert(text_lists(list@) =~= names_below(*root, entry_views(entries@)));
    let tree = tree_from_names(name, &list);
    proof {
        let ll = text_lists(list@);
        assert(ll.len() == i);
        assert forall|k: int, names: Seq<Seq<char>>, dir: Seq<Seq<char>>|
            #![trigger name_parts(names), holds(tree.tree(), dir, k as usize)]
            0 <= k < entries@.len() && names.len() > 0 && path_components(entries@[k].path) == path_components(*root)
                + name_parts(names) implies (holds(tree.tree(), dir, k as usize) <==> dir == names.drop_last()) by {
            assert(names_agree(entries@[k].path));
            lemma_names_behind(*root, entries@[k].path, names);
            assert(ll[k] == names_behind(*root, entries@[k].path));
            lemma_placed(root_name(*root), ll, k, dir);
        }
    }
    tree
}

/// The names of the directories on the way to a file.
pub open spec fn dir_of(path: Seq<Seq<char>>) -> Seq<Seq<char>> {
    if path.len() <= 1 {
        seq![]
    } else {
        path.drop_last()
    }
}

/// The directory that a path of directory names leads to.
pub open spec fn node_at(t: TreeView, dir: Seq<Seq<char>>) -> Option<TreeView>
    decreases dir.len(),
{
    if dir.len() == 0 {
        Some(t)
    } else {
        let p = find_dir(t.dirs, dir[0]);
        if p < t.dirs.len() {
            node_at(t.dirs[p], dir.skip(1))
        } else {
            None
        }
    }
}

/// The files directly in a directory; none if the tree does not have the directory.
pub open spec fn files_at(t: TreeView, dir: Seq<Seq<char>>) -> Seq<usize> {
    match node_at(t, dir) {
        Some(node) => node.files,
        None => seq![],
    }
}

/// Which of the first `n` files lie directly in a directory.
pub open spec fn files_in(list: Seq<Seq<Seq<char>>>, dir: Seq<Seq<char>>, n: nat) -> Seq<usize>
    decreases n,
{
    if n == 0 {
        seq![]
    } else if dir_of(list[n - 1]) == dir {
        files_in(list, dir, (n - 1) as nat).push((n - 1) as usize)
    } else {
        files_in(list, dir, (n - 1) as nat)
    }
}

/// Whether no two directories with one parent have the same name.
pub open spec fn distinct(t: TreeView) -> bool
    decreases t,
{
    &&& forall|i: int, j: int|
        0 <= i < j < t.dirs.len() ==> (#[trigger] t.dirs[i]).name != (#[trigger] t.dirs[j]).name
    &&& forall|i: int| 0 <= i < t.dirs.len() ==> distinct(#[trigger] t.dirs[i])
}

/// Whether a directory holds a file, directly or somewhere below.
pub open spec fn has_file(t: TreeView) -> bool
    decreases t,
{
    ||| t.files.len() > 0
    ||| exists|i: int| 0 <= i < t.dirs.len() && has_file(#[trigger] t.dirs[i])
}

/// Whether every directory below the root holds a file, directly or somewhere below.
pub open spec fn no_empty_dirs(t: TreeView) -> bool
    decreases t,
{
    forall|i: int|
        0 <= i < t.dirs.len() ==> has_file(#[trigger] t.dirs[i]) && no_empty_dirs(t.dirs[i])
}

/// Whether the directories stand in the order of their lower-case names at every level.
pub open spec fn ordered(t: TreeView) -> bool
    decreases t,
{
    &&& forall|i: int, j: int|
        0 <= i < j < t.dirs.len() ==> !key_before(
            dir_key(#[trigger] t.dirs[j]),
            dir_key(#[trigger] t.dirs[i]),
        )
    &&& forall|i: int| 0 <= i < t.dirs.len() ==> ordered(#[trigger] t.dirs[i])
}

/// One more file leaves the name of the root as it is.
proof fn lemma_inserted_name(t: TreeView, path: Seq<Seq<char>>, file: usize)
    ensures
        inserted(t, path, file).name == t.name,
{
}

/// One more file shows in its own directory and in no other.
proof fn lemma_inserted_files(t: TreeView, path: Seq<Seq<char>>, file: usize, dir: Seq<Seq<char>>)
    ensures
        files_at(inserted(t, path, file), dir) == if dir == dir_of(path) {
            files_at(t, dir).push(file)
        } else {
            files_at(t, dir)
        },
    decreases path.len(),
{
    let u = inserted(t, path, file);
    if path.len() <= 1 {
        if dir.len() == 0 {
            assert(dir =~= dir_of(path));
        }
    } else {
        let p = find_dir(t.dirs, path[0]);
        lemma_find_dir(t.dirs, path[0]);
        if dir.len() == 0 {
            assert(dir_of(path).len() > 0);
        } else {
            let q = find_dir(t.dirs, dir[0]);
            lemma_find_dir(t.dirs, dir[0]);
            let rest = path.skip(1);
            let old_node = if p < t.dirs.len() { t.dirs[p] } else { empty_dir(path[0]) };
            lemma_inserted_name(old_node, rest, file);
            assert(u.dirs[p] == inserted(old_node, rest, file));
            assert(forall|i: int| 0 <= i < t.dirs.len() ==> (#[trigger] u.dirs[i]).name == t.dirs[i].name);
            if dir[0] == path[0] {
                lemma_found(u.dirs, dir[0], p);
                lemma_inserted_files(old_node, rest, file, dir.skip(1));
                assert(dir =~= seq![dir[0]] + dir.skip(1));
                assert(dir_of(path) =~= seq![path[0]] + dir_of(rest));
                if dir == dir_of(path) {
                    assert(dir_of(path).skip(1) =~= dir_of(rest));
                }
                if p == t.dirs.len() {
                    lemma_empty_files(path[0], dir.skip(1));
                    assert(files_at(t, dir) =~= seq![]);
                }
            } else {
                assert(dir_of(path)[0] == path[0]);
                if q < t.dirs.len() {
                    lemma_found(u.dirs, dir[0], q);
                } else {
                    lemma_found(u.dirs, dir[0], u.dirs.len() as int);
                }
            }
        }
    }
}

/// An empty directory has no files anywhere.
proof fn lemma_empty_files(name: Seq<char>, dir: Seq<Seq<char>>)
    ensures
        files_at(empty_dir(name), dir) == Seq::<usize>::empty(),
{
    lemma_find_dir(empty_dir(name).dirs, dir[0]);
}

/// One more file keeps sibling names distinct.
proof fn lemma_inserted_distinct(t: TreeView, path: Seq<Seq<char>>, file: usize)
    requires
        distinct(t),
    ensures
        distinct(inserted(t, path, file)),
    decreases path.len(),
{
    let u = inserted(t, path, file);
    if path.len() > 1 {
        let p = find_dir(t.dirs, path[0]);
        lemma_find_dir(t.dirs, path[0]);
        let old_node = if p < t.dirs.len() { t.dirs[p] } else { empty_dir(path[0]) };
        lemma_inserted_name(old_node, path.skip(1), file);
        lemma_inserted_distinct(old_node, path.skip(1), file);
        assert(u.dirs[p] == inserted(old_node, path.skip(1), file));
        assert forall|i: int, j: int| 0 <= i < j < u.dirs.len() implies (#[trigger] u.dirs[i]).name
            != (#[trigger] u.dirs[j]).name by {
            if j < t.dirs.len() {
                assert(t.dirs[i].name != t.dirs[j].name);
            } else {
                assert(t.dirs[i].name != path[0]);
            }
        }
        assert forall|i: int| 0 <= i < u.dirs.len() implies distinct(#[trigger] u.dirs[i]) by {
            if i != p {
                assert(distinct(t.dirs[i]));
            }
        }
    } else {
        assert(u.dirs == t.dirs);
    }
}

/// One more file leaves no directory without one.
proof fn lemma_inserted_no_empty_dirs(t: TreeView, path: Seq<Seq<char>>, file: usize)
    requires
        no_empty_dirs(t),
    ensures
        has_file(inserted(t, path, file)),
        no_empty_dirs(inserted(t, path, file)),
    decreases path.len(),
{
    let u = inserted(t, path, file);
    if path.len() > 1 {
        let p = find_dir(t.dirs, path[0]);
        lemma_find_dir(t.dirs, path[0]);
        let old_node = if p < t.dirs.len() { t.dirs[p] } else { empty_dir(path[0]) };
        lemma_inserted_no_empty_dirs(old_node, path.skip(1), file);
        assert(u.dirs[p] == inserted(old_node, path.skip(1), file));
        assert forall|i: int| 0 <= i < u.dirs.len() implies has_file(#[trigger] u.dirs[i])
            && no_empty_dirs(u.dirs[i]) by {
            if i != p {
                assert(u.dirs[i] == t.dirs[i]);
            }
        }
        assert(has_file(u.dirs[p]));
    } else {
        assert(u.dirs == t.dirs);
    }
}

/// What stands at each place of a sorted tree, and where each directory has gone.
proof fn lemma_sorted_places(t: TreeView) -> (places: Seq<int>)
    ensures
        places == sorting(dir_keys(t.dirs)),
        places.len() == t.dirs.len(),
        sorted_tree(t).dirs.len() == t.dirs.len(),
        forall|k: int| 0 <= k < places.len() ==> 0 <= #[trigger] places[k] < t.dirs.len(),
        forall|k: int|
            0 <= k < places.len() ==> #[trigger] sorted_tree(t).dirs[k] == sorted_tree(t.dirs[places[k]]),
        forall|p: int| 0 <= p < t.dirs.len() ==> #[trigger] places.contains(p),
        forall|i: int, j: int| 0 <= i < j < places.len() ==> places[i] != places[j],
        forall|i: int, j: int|
            0 <= i < j < places.len() ==> !key_before(
                dir_key(t.dirs[#[trigger] places[j]]),
                dir_key(t.dirs[#[trigger] places[i]]),
            ),
{
    let keys = dir_keys(t.dirs);
    law_stable_order_unique(keys, seq![]);
    let places = sorting(keys);
    assert forall|i: int, j: int| 0 <= i < j < places.len() implies places[i] != places[j]
        && !key_before(dir_key(t.dirs[#[trigger] places[j]]), dir_key(t.dirs[#[trigger] places[i]])) by {
        let a = keys[places[i]];
        let b = keys[places[j]];
        assert(crate::order::belongs_before(keys, places[i], places[j]));
        lemma_key_irreflexive(a);
        if key_before(b, a) && key_before(a, b) {
            lemma_key_transitive(a, b, a);
        }
    }
    places
}

/// Sorting moves no file to another directory.
proof fn lemma_sorted_files(t: TreeView, dir: Seq<Seq<char>>)
    requires
        distinct(t),
    ensures
        files_at(sorted_tree(t), dir) == files_at(t, dir),
    decreases dir.len(),
{
    let u = sorted_tree(t);
    if dir.len() > 0 {
        let places = lemma_sorted_places(t);
        let p = find_dir(t.dirs, dir[0]);
        lemma_find_dir(t.dirs, dir[0]);
        if p < t.dirs.len() {
            assert(places.contains(p));
            let k = places.index_of(p);
            assert(u.dirs[k] == sorted_tree(t.dirs[p]));
            assert forall|i: int| 0 <= i < k implies (#[trigger] u.dirs[i]).name != dir[0] by {
                assert(u.dirs[i] == sorted_tree(t.dirs[places[i]]));
                let m = places[i];
                assert(m != p);
                assert(t.dirs[m].name != t.dirs[p].name);
            }
            lemma_found(u.dirs, dir[0], k);
            lemma_sorted_files(t.dirs[p], dir.skip(1));
        } else {
            assert forall|i: int| 0 <= i < u.dirs.len() implies (#[trigger] u.dirs[i]).name != dir[0] by {
                assert(u.dirs[i] == sorted_tree(t.dirs[places[i]]));
            }
            lemma_found(u.dirs, dir[0], u.dirs.len() as int);
        }
    }
}

/// Sorting keeps sibling names distinct and directories filled, and puts them in order.
proof fn lemma_sorted_shape(t: TreeView)
    ensures
        ordered(sorted_tree(t)),
        distinct(t) ==> distinct(sorted_tree(t)),
        has_file(t) ==> has_file(sorted_tree(t)),
        no_empty_dirs(t) ==> no_empty_dirs(sorted_tree(t)),
    decreases t,
{
    let u = sorted_tree(t);
    let places = lemma_sorted_places(t);
    assert forall|i: int| 0 <= i < u.dirs.len() implies {
        &&& ordered(#[trigger] u.dirs[i])
        &&& distinct(t) ==> distinct(u.dirs[i])
        &&& has_file(t.dirs[places[i]]) ==> has_file(u.dirs[i])
        &&& no_empty_dirs(t) ==> no_empty_dirs(u.dirs[i])
    } by {
        assert(u.dirs[i] == sorted_tree(t.dirs[places[i]]));
        lemma_sorted_shape(t.dirs[places[i]]);
    }
    assert forall|i: int, j: int| 0 <= i < j < u.dirs.len() implies !key_before(
        dir_key(#[trigger] u.dirs[j]),
        dir_key(#[trigger] u.dirs[i]),
    ) by {
        assert(u.dirs[i] == sorted_tree(t.dirs[places[i]]));
        assert(u.dirs[j] == sorted_tree(t.dirs[places[j]]));
    }
    if distinct(t) {
        assert forall|i: int, j: int| 0 <= i < j < u.dirs.len() implies (#[trigger] u.dirs[i]).name
            != (#[trigger] u.dirs[j]).name by {
            assert(u.dirs[i] == sorted_tree(t.dirs[places[i]]));
            assert(u.dirs[j] == sorted_tree(t.dirs[places[j]]));
            assert(places[i] != places[j]);
            let a = places[i];
            let b = places[j];
            if a < b {
                assert(t.dirs[a].name != t.dirs[b].name);
            } else {
                assert(t.dirs[b].name != t.dirs[a].name);
            }
        }
    }
    if has_file(t) && t.files.len() == 0 {
        let p = choose|p: int| 0 <= p < t.dirs.len() && has_file(#[trigger] t.dirs[p]);
        assert(places.contains(p));
        let k = places.index_of(p);
        assert(has_file(u.dirs[k]));
    }
}

/// The properties of the tree before it is sorted.
proof fn lemma_filled(root: Seq<char>, list: Seq<Seq<Seq<char>>>, n: nat, dir: Seq<Seq<char>>)
    requires
        n <= list.len(),
    ensures
        distinct(filled(root, list, n)),
        no_empty_dirs(filled(root, list, n)),
        files_at(filled(root, list, n), dir) == files_in(list, dir, n),
    decreases n,
{
    if n == 0 {
        lemma_empty_files(root, dir);
    } else {
        let t = filled(root, list, (n - 1) as nat);
        lemma_filled(root, list, (n - 1) as nat, dir);
        lemma_inserted_distinct(t, list[n - 1], (n - 1) as usize);
        lemma_inserted_no_empty_dirs(t, list[n - 1], (n - 1) as usize);
        lemma_inserted_files(t, list[n - 1], (n - 1) as usize, dir);
    }
}

/// Every file of the list stands in the tree, once, in its own directory: a directory of the
/// tree holds exactly the files that lie directly in it, in the order of the list.
pub proof fn law_tree_files(root: Seq<char>, list: Seq<Seq<Seq<char>>>, dir: Seq<Seq<char>>)
    ensures
        files_at(tree_of(root, list), dir) == files_in(list, dir, list.len()),
{
    lemma_filled(root, list, list.len(), dir);
    lemma_sorted_files(filled(root, list, list.len()), dir);
}

/// Which files lie in a directory depends on the files looked at only.
proof fn lemma_files_in(list: Seq<Seq<Seq<char>>>, path: Seq<Seq<char>>, dir: Seq<Seq<char>>, n: nat)
    requires
        n <= list.len(),
    ensures
        files_in(list.push(path), dir, n) == files_in(list, dir, n),
    decreases n,
{
    if n > 0 {
        lemma_files_in(list, path, dir, (n - 1) as nat);
        assert(list.push(path)[n - 1] == list[n - 1]);
    }
}

/// One more file at the end of the list shows in its own directory, behind the files that are
/// there, and changes no other directory.
pub proof fn law_tree_one_more(root: Seq<char>, list: Seq<Seq<Seq<char>>>, path: Seq<Seq<char>>, dir: Seq<Seq<char>>)
    ensures
        files_at(tree_of(root, list.push(path)), dir) == if dir == dir_of(path) {
            files_at(tree_of(root, list), dir).push(list.len() as usize)
        } else {
            files_at(tree_of(root, list), dir)
        },
{
    law_tree_files(root, list, dir);
    law_tree_files(root, list.push(path), dir);
    lemma_files_in(list, path, dir, list.len());
}

/// A directory that contains no listed file, anywhere in its subtree, never appears.
pub proof fn law_tree_no_empty_dirs(root: Seq<char>, list: Seq<Seq<Seq<char>>>)
    ensures
        no_empty_dirs(tree_of(root, list)),
{
    lemma_filled(root, list, list.len(), seq![]);
    lemma_sorted_shape(filled(root, list, list.len()));
}

/// At every level of the tree the directories have different names and stand in the order of
/// their names in lower case.
pub proof fn law_tree_ordered(root: Seq<char>, list: Seq<Seq<Seq<char>>>)
    ensures
        distinct(tree_of(root, list)),
        ordered(tree_of(root, list)),
{
    lemma_filled(root, list, list.len(), seq![]);
    lemma_sorted_shape(filled(root, list, list.len()));
}

/// Whether a file stands directly in the directory that is reached from the root of a tree by
/// the given names, one level for each name.
pub open spec fn holds(t: TreeView, dir: Seq<Seq<char>>, file: usize) -> bool
    decreases dir.len(),
{
    if dir.len() == 0 {
        t.files.contains(file)
    } else {
        exists|p: int| 0 <= p < t.dirs.len() && (#[trigger] t.dirs[p]).name == dir[0] && holds(t.dirs[p], dir.skip(1), file)
    }
}

/// A file stands where it is found.
proof fn lemma_holds(t: TreeView, dir: Seq<Seq<char>>, file: usize)
    requires
        distinct(t),
    ensures
        holds(t, dir, file) <==> files_at(t, dir).contains(file),
    decreases dir.len(),
{
    if dir.len() > 0 {
        let p = find_dir(t.dirs, dir[0]);
        lemma_find_dir(t.dirs, dir[0]);
        if p < t.dirs.len() {
            lemma_holds(t.dirs[p], dir.skip(1), file);
        }
        if holds(t, dir, file) {
            let q = choose|q: int|
                0 <= q < t.dirs.len() && (#[trigger] t.dirs[q]).name == dir[0] && holds(t.dirs[q], dir.skip(1), file);
            if q < p {
                assert(t.dirs[q].name != dir[0]);
            } else if p < q {
                assert(t.dirs[p].name != t.dirs[q].name);
            }
        }
    }
}

/// A file lies in its own directory and in no other, and files are listed in rising order.
proof fn lemma_files_in_contains(list: Seq<Seq<Seq<char>>>, dir: Seq<Seq<char>>, n: nat)
    requires
        n <= list.len() <= usize::MAX,
    ensures
        forall|i: int|
            0 <= i < n ==> (#[trigger] files_in(list, dir, n).contains(i as usize) <==> dir_of(list[i]) == dir),
        forall|k: int| 0 <= k < files_in(list, dir, n).len() ==> #[trigger] files_in(list, dir, n)[k] < n,
        forall|j: int, k: int|
            0 <= j < k < files_in(list, dir, n).len() ==> files_in(list, dir, n)[j] < files_in(list, dir, n)[k],
    decreases n,
{
    if n > 0 {
        let m = (n - 1) as nat;
        lemma_files_in_contains(list, dir, m);
        let before = files_in(list, dir, m);
        let all = files_in(list, dir, n);
        assert forall|i: int| 0 <= i < n implies (#[trigger] all.contains(i as usize) <==> dir_of(list[i]) == dir) by {
            if i < m {
                assert(before.contains(i as usize) <==> dir_of(list[i]) == dir);
                if before.contains(i as usize) {
                    assert(all[before.index_of(i as usize)] == i as usize);
                }
                if all.contains(i as usize) {
                    let k = all.index_of(i as usize);
                    assert(before[k] == i as usize);
                }
            } else {
                if dir_of(list[i]) == dir {
                    assert(all[all.len() - 1] == i as usize);
                } else if all.contains(i as usize) {
                    let k = all.index_of(i as usize);
                    assert(before[k] < m);
                }
            }
        }
    }
}

/// The components that are the given names.
pub open spec fn name_parts(names: Seq<Seq<char>>) -> Seq<PartView> {
    names.map_values(|n: Seq<char>| PartView::Normal(encode_utf8(n)))
}

/// Whether the texts of the components of a path agree with the components.
pub open spec fn names_agree(path: PathBuf) -> bool {
    &&& path_names(path).len() == path_components(path).len()
    &&& forall|i: int|
        0 <= i < path_names(path).len() ==> name_agrees(path_components(path)[i], #[trigger] path_names(path)[i])
}

/// The names that lead from a folder to a file are those behind the folder's own components.
proof fn lemma_names_behind(root: PathBuf, file: PathBuf, names: Seq<Seq<char>>)
    requires
        names_agree(file),
        path_components(file) == path_components(root) + name_parts(names),
    ensures
        names_behind(root, file) == names,
{
    let p = path_components(file);
    let b = path_components(root);
    let n = b.len() as int;
    assert(p.take(n) =~= b);
    let rest = path_names(file).skip(n);
    let some = names.map_values(|t: Seq<char>| Some(t));
    assert(rest.len() == names.len());
    assert forall|i: int| 0 <= i < rest.len() implies rest[i] == some[i] by {
        assert(name_agrees(p[n + i], path_names(file)[n + i]));
        assert(p[n + i] == PartView::Normal(encode_utf8(names[i])));
        encode_utf8_valid_utf8(names[i]);
        encode_utf8_decode_utf8(names[i]);
    }
    assert(rest =~= some);
    lemma_present(names);
}

/// A file stands in the tree where its names lead, and nowhere else.
proof fn lemma_placed(root: Seq<char>, list: Seq<Seq<Seq<char>>>, i: int, dir: Seq<Seq<char>>)
    requires
        0 <= i < list.len() <= usize::MAX,
        list[i].len() > 0,
    ensures
        holds(tree_of(root, list), dir, i as usize) <==> dir == list[i].drop_last(),
{
    law_tree_files(root, list, dir);
    law_tree_ordered(root, list);
    lemma_files_in_contains(list, dir, list.len());
    lemma_holds(tree_of(root, list), dir, i as usize);
    if list[i].len() == 1 {
        assert(list[i].drop_last() =~= seq![]);
    }
    assert(files_in(list, dir, list.len()).contains(i as usize) <==> dir_of(list[i]) == dir);
}

/// A file whose path is that of the folder and names behind it stands, in the tree of the folder,
/// in the directory that the names before the last one lead to, each a level of its own, and in
/// no other directory.
pub proof fn law_file_in_its_directory(
    root: PathBuf,
    entries: &[FileEntry],
    tree: DirNode,
    i: int,
    names: Seq<Seq<char>>,
    dir: Seq<Seq<char>>,
)
    requires
        call_ensures(build_tree, (&root, entries), tree),
        0 <= i < entries@.len(),
        names.len() > 0,
        path_components(entries@[i].path) == path_components(root) + name_parts(names),
    ensures
        holds(tree.tree(), dir, i as usize) <==> dir == names.drop_last(),
{
    assert(name_parts(names) == name_parts(names));
}

/// The root of the tree is called by the whole name of the folder, or shown as a path if the
/// folder has no name.
pub proof fn law_root_named(root: PathBuf, entries: &[FileEntry], tree: DirNode, name: Seq<char>)
    requires
        call_ensures(build_tree, (&root, entries), tree),
    ensures
        path_components(root).len() > 0 && path_components(root).last() == PartView::Normal(encode_utf8(name))
            ==> tree.name@ == name,
        path_components(root).len() == 0 || !(path_components(root).last() is Normal) ==> tree.name@ == path_shown(root),
{
    encode_utf8_valid_utf8(name);
    encode_utf8_decode_utf8(name);
    let list = names_below(root, entry_views(entries@));
    lemma_filled_name(root_name(root), list, list.len());
    assert(tree.tree().name == root_name(root));
    let last = path_names(root).len() - 1;
    if last >= 0 {
        assert(name_agrees(path_components(root)[last], path_names(root)[last]));
    }
}

/// Every file of the list stands once in the tree, and nothing else does: the files of a
/// directory rise, and each is one of the list.
pub proof fn law_files_once(root_name: String, list: &Vec<Vec<String>>, tree: DirNode, dir: Seq<Seq<char>>)
    requires
        call_ensures(tree_from_names, (root_name, list), tree),
        list@.len() <= usize::MAX,
    ensures
        tree.name@ == root_name@,
        forall|i: int|
            0 <= i < list@.len() && list@[i]@.len() > 0 ==> (#[trigger] holds(tree.tree(), dir, i as usize) <==> dir
                == texts(list@[i]@).drop_last()),
        forall|file: usize| #[trigger] holds(tree.tree(), dir, file) ==> file < list@.len(),
        forall|j: int, k: int|
            0 <= j < k < files_at(tree.tree(), dir).len() ==> files_at(tree.tree(), dir)[j] < files_at(tree.tree(), dir)[k],
{
    let ll = text_lists(list@);
    law_tree_files(root_name@, ll, dir);
    law_tree_ordered(root_name@, ll);
    lemma_files_in_contains(ll, dir, ll.len());
    lemma_filled_name(root_name@, ll, ll.len());
    assert forall|i: int| 0 <= i < list@.len() && list@[i]@.len() > 0 implies (#[trigger] holds(
        tree.tree(),
        dir,
        i as usize,
    ) <==> dir == texts(list@[i]@).drop_last()) by {
        assert(ll[i] == texts(list@[i]@));
        lemma_placed(root_name@, ll, i, dir);
    }
    assert forall|file: usize| #[trigger] holds(tree.tree(), dir, file) implies file < list@.len() by {
        lemma_holds(tree.tree(), dir, file);
        let files = files_in(ll, dir, ll.len());
        let k = files.index_of(file);
        assert(files[k] < ll.len());
    }
}

/// Filling a tree leaves the name of its root as it is.
proof fn lemma_filled_name(root: Seq<char>, list: Seq<Seq<Seq<char>>>, n: nat)
    ensures
        filled(root, list, n).name == root,
    decreases n,
{
    if n > 0 {
        lemma_filled_name(root, list, (n - 1) as nat);
        lemma_inserted_name(filled(root, list, (n - 1) as nat), list[n - 1], (n - 1) as usize);
    }
}

/// Putting a file into a tree changes one directory, the one that its names lead to, and leaves
/// every other file where it stands.
pub proof fn law_insert_adds_one(node: &mut DirNode, names: &[String], file: usize, dir: Seq<Seq<char>>, other: usize)
    requires
        call_ensures(insert, (node, names, file), ()),
        distinct(old(node).tree()),
    ensures
        final(node).name@ == old(node).name@,
        distinct(final(node).tree()),
        holds(final(node).tree(), dir, other) <==> holds(old(node).tree(), dir, other) || (other == file && if names@.len()
            > 0 {
            dir == texts(names@).drop_last()
        } else {
            dir.len() == 0
        }),
{
    let t = old(node).tree();
    let path = texts(names@);
    lemma_inserted_name(t, path, file);
    lemma_inserted_files(t, path, file, dir);
    lemma_inserted_distinct(t, path, file);
    lemma_holds(t, dir, other);
    lemma_holds(final(node).tree(), dir, other);
    assert(path.len() == names@.len());
    let before = files_at(t, dir);
    if dir == dir_of(path) {
        let after = before.push(file);
        if before.contains(other) {
            assert(after[before.index_of(other)] == other);
        }
        if other == file {
            assert(after[after.len() - 1] == other);
        }
        if after.contains(other) {
            let k = after.index_of(other);
            if k < before.len() {
                assert(before[k] == other);
            }
        }
    }
    if path.len() == 1 {
        assert(path.drop_last() =~= seq![]);
    }
    if dir.len() == 0 {
        assert(dir =~= seq![]);
    }
}

/// Whether the directories at every level stand in the order of their names in lower case,
/// compared byte by byte.
pub open spec fn ordered_by_name(t: TreeView) -> bool
    decreases t,
{
    &&& forall|i: int, j: int|
        0 <= i < j < t.dirs.len() ==> !(exists|k: int|
            bytes_decided_at(
                encode_utf8(lowercase((#[trigger] t.dirs[j]).name)),
                encode_utf8(lowercase((#[trigger] t.dirs[i]).name)),
                k,
            ))
    &&& forall|i: int| 0 <= i < t.dirs.len() ==> ordered_by_name(#[trigger] t.dirs[i])
}

/// The order of a tree is that of the names of its directories in lower case.
proof fn lemma_ordered_by_name(t: TreeView)
    requires
        ordered(t),
    ensures
        ordered_by_name(t),
    decreases t,
{
    assert forall|i: int, j: int| 0 <= i < j < t.dirs.len() implies !(exists|k: int|
        bytes_decided_at(
            encode_utf8(lowercase((#[trigger] t.dirs[j]).name)),
            encode_utf8(lowercase((#[trigger] t.dirs[i]).name)),
            k,
        )) by {
        let a = encode_utf8(lowercase(t.dirs[j].name));
        let b = encode_utf8(lowercase(t.dirs[i].name));
        assert(!key_before(dir_key(t.dirs[j]), dir_key(t.dirs[i])));
        assert(dir_key(t.dirs[j])[0] == a && dir_key(t.dirs[i])[0] == b);
        lemma_bytes_decided(a, b);
        lemma_bytes_irreflexive(a);
    }
    assert forall|i: int| 0 <= i < t.dirs.len() implies ordered_by_name(#[trigger] t.dirs[i]) by {
        lemma_ordered_by_name(t.dirs[i]);
    }
}

/// The tree of a folder shows the directories at every level by name, without regard to case,
/// each once, and none without a file in it or below it.
pub proof fn law_tree_shown_in_order(root: PathBuf, entries: &[FileEntry], tree: DirNode)
    requires
        call_ensures(build_tree, (&root, entries), tree),
    ensures
        ordered_by_name(tree.tree()),
        distinct(tree.tree()),
        no_empty_dirs(tree.tree()),
{
    let list = names_below(root, entry_views(entries@));
    law_tree_ordered(root_name(root), list);
    law_tree_no_empty_dirs(root_name(root), list);
    lemma_ordered_by_name(tree.tree());
}

/// Sorting a tree keeps the name of the root, its files, and every directory with the files in
/// it; directories that differ in the case of their names only stay in order.
pub proof fn law_sort_keeps(node: &mut DirNode, dir: Seq<Seq<char>>, file: usize) -> (places: Seq<int>)
    requires
        call_ensures(sort_tree, (node,), ()),
        distinct(old(node).tree()),
    ensures
        final(node).name@ == old(node).name@,
        final(node).files@ == old(node).files@,
        holds(final(node).tree(), dir, file) <==> holds(old(node).tree(), dir, file),
        ordered_by_name(final(node).tree()),
        places.len() == old(node).tree().dirs.len() == final(node).tree().dirs.len(),
        forall|k: int|
            0 <= k < places.len() ==> 0 <= #[trigger] places[k] < places.len() && final(node).tree().dirs[k].name
                == old(node).tree().dirs[places[k]].name,
        forall|i: int, j: int|
            0 <= i < j < places.len() ==> lowercase(old(node).tree().dirs[#[trigger] places[i]].name) != lowercase(
                old(node).tree().dirs[#[trigger] places[j]].name,
            ) || places[i] < places[j],
{
    let t = old(node).tree();
    let u = final(node).tree();
    let places = lemma_sorted_places(t);
    let keys = dir_keys(t.dirs);
    law_stable_order_unique(keys, places);
    lemma_sorted_files(t, dir);
    lemma_sorted_shape(t);
    lemma_holds(t, dir, file);
    lemma_holds(u, dir, file);
    lemma_ordered_by_name(u);
    assert forall|k: int| 0 <= k < places.len() implies 0 <= #[trigger] places[k] < places.len() && u.dirs[k].name
        == t.dirs[places[k]].name by {
        assert(u.dirs[k] == sorted_tree(t.dirs[places[k]]));
    }
    assert forall|i: int, j: int| 0 <= i < j < places.len() implies lowercase(t.dirs[#[trigger] places[i]].name)
        != lowercase(t.dirs[#[trigger] places[j]].name) || places[i] < places[j] by {
        assert(crate::order::belongs_before(keys, places[i], places[j]));
        if lowercase(t.dirs[places[i]].name) == lowercase(t.dirs[places[j]].name) {
            assert(keys[places[i]] == keys[places[j]]);
            lemma_key_irreflexive(keys[places[i]]);
        }
    }
    places
}

} // verus!
