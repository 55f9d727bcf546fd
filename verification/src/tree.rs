//! The directory tree of a commit's changed files, with directories that
//! can be collapsed and expanded, and the list of rows it shows.
use vstd::prelude::*;

use crate::git::{entries_view, EntryModel, FileEntry, FileStatus};
use crate::text::{chars_of, string_of};

verus! {

/// The directory tree of a commit's changed files.
pub struct FileTree {
    pub roots: Vec<TreeNode>,
}

/// A directory or a file of the tree.
pub struct TreeNode {
    pub name: String,
    pub children: Vec<TreeNode>,
    pub expanded: bool,
    pub entry_index: Option<usize>,  // Some = file, None = directory
}

/// A node of the tree as the contracts see it. A node with an entry index
/// is a file (the index of its entry in the list of changed files); one
/// without is a directory.
pub struct NodeModel {
    pub name: Seq<char>,
    pub children: Seq<NodeModel>,
    pub expanded: bool,
    pub entry_index: Option<usize>,
}

impl TreeNode {
    /// The node as the contracts see it.
    pub open spec fn model(self) -> NodeModel
        decreases self,
    {
        NodeModel {
            name: self.name@,
            children: Seq::new(
                self.children@.len(),
                |i: int|
                    {
                        if 0 <= i < self.children@.len() {
                            proof {
                                assert(decreases_to!(self => self.children));
                                assert(decreases_to!(self.children => self.children@));
                                assert(decreases_to!(self.children@ => self.children@[i]));
                            }
                            self.children@[i].model()
                        } else {
                            NodeModel {
                                name: Seq::empty(),
                                children: Seq::empty(),
                                expanded: false,
                                entry_index: None,
                            }
                        }
                    },
            ),
            expanded: self.expanded,
            entry_index: self.entry_index,
        }
    }

    /// A node without an entry index is a directory.
    pub fn is_dir(&self) -> (b: bool)
        ensures
            b == (self.entry_index is None),
    {
        self.entry_index.is_none()
    }
}

/// The models of a sequence of nodes.
pub open spec fn models(nodes: Seq<TreeNode>) -> Seq<NodeModel> {
    Seq::new(nodes.len(), |i: int| nodes[i].model())
}

/// A node's children, seen through its model.
pub proof fn lemma_model_children(n: TreeNode)
    ensures
        n.model().children == models(n.children@),
{
    assert(n.model().children =~= models(n.children@));
}

impl View for FileTree {
    type V = Seq<NodeModel>;

    open spec fn view(&self) -> Seq<NodeModel> {
        models(self.roots@)
    }
}

// ---------------------------------------------------------------------------
// Paths
// ---------------------------------------------------------------------------

/// Scanning a path from the left: the components ended so far by a `/`,
/// and the characters of the component not yet ended.
pub open spec fn path_scan(s: Seq<char>) -> (Seq<Seq<char>>, Seq<char>)
    decreases s.len(),
{
    if s.len() == 0 {
        (Seq::empty(), Seq::empty())
    } else {
        let (done, cur) = path_scan(s.drop_last());
        if s.last() == '/' {
            (done.push(cur), Seq::empty())
        } else {
            (done, cur.push(s.last()))
        }
    }
}

/// The components of a path as `str::split('/')` gives them: always at
/// least one, empty ones kept.
pub open spec fn path_parts(s: Seq<char>) -> Seq<Seq<char>> {
    let (done, cur) = path_scan(s);
    done.push(cur)
}

/// The contents of each string.
pub open spec fn strings_view(v: Seq<String>) -> Seq<Seq<char>> {
    v.map_values(|s: String| s@)
}

/// The components of `path`, split at each `/`.
fn split_path(path: &String) -> (parts: Vec<String>)
    ensures
        strings_view(parts@) == path_parts(path@),
        parts.len() >= 1,
{
    let chars = chars_of(path.as_str());
    let mut parts: Vec<String> = Vec::new();
    let mut start: usize = 0;
    let mut i: usize = 0;
    assert(chars@.take(0) =~= Seq::<char>::empty());
    assert(strings_view(parts@) =~= Seq::<Seq<char>>::empty());
    assert(chars@.subrange(0, 0) =~= Seq::<char>::empty());
    while i < chars.len()
        invariant
            start <= i <= chars.len(),
            chars@ == path@,
            (strings_view(parts@), chars@.subrange(start as int, i as int)) == path_scan(
                chars@.take(i as int),
            ),
        decreases chars.len() - i,
    {
        proof {
            assert(chars@.take(i + 1).drop_last() == chars@.take(i as int));
            assert(chars@.take(i + 1).last() == chars@[i as int]);
        }
        if chars[i] == '/' {
            let part = string_of(&chars, start, i);
            let ghost before = strings_view(parts@);
            parts.push(part);
            assert(strings_view(parts@) =~= before.push(part@));
            start = i + 1;
            assert(chars@.subrange(start as int, i + 1) =~= Seq::<char>::empty());
        } else {
            assert(chars@.subrange(start as int, i + 1) =~= chars@.subrange(
                start as int,
                i as int,
            ).push(chars@[i as int]));
        }
        i += 1;
    }
    assert(chars@.take(chars.len() as int) == chars@);
    let last = string_of(&chars, start, chars.len());
    let ghost before = strings_view(parts@);
    parts.push(last);
    assert(strings_view(parts@) =~= before.push(last@));
    parts
}

// ---------------------------------------------------------------------------
// Building
// ---------------------------------------------------------------------------

/// The first position at or after `i` of a directory named `name` among
/// `nodes`, or the number of nodes when there is none.
pub open spec fn find_dir(nodes: Seq<NodeModel>, name: Seq<char>, i: int) -> int
    decreases nodes.len() - i,
{
    if 0 <= i < nodes.len() && !(nodes[i].entry_index is None && nodes[i].name == name) {
        find_dir(nodes, name, i + 1)
    } else {
        i
    }
}

/// A fresh directory or file node.
pub open spec fn new_node(name: Seq<char>, entry_index: Option<usize>) -> NodeModel {
    NodeModel { name, children: Seq::empty(), expanded: true, entry_index }
}

/// Inserts the file with entry index `idx` whose path components are
/// `parts[p..]`: the last component becomes a file node appended to the
/// nodes; an earlier one descends into the first directory of that name,
/// which is appended (expanded) when there is none yet.
pub open spec fn insert_path(nodes: Seq<NodeModel>, parts: Seq<Seq<char>>, p: int, idx: usize) -> Seq<
    NodeModel,
>
    decreases parts.len() - p, 0int,
{
    if p < 0 || p >= parts.len() {
        nodes
    } else if p + 1 == parts.len() {
        nodes.push(new_node(parts[p], Some(idx)))
    } else {
        let pos = find_dir(nodes, parts[p], 0);
        let dir = if pos < nodes.len() {
            nodes[pos]
        } else {
            new_node(parts[p], None)
        };
        let updated = NodeModel {
            children: insert_path(dir.children, parts, p + 1, idx),
            ..dir
        };
        if pos < nodes.len() {
            nodes.update(pos, updated)
        } else {
            nodes.push(updated)
        }
    }
}

/// The tree of the given file paths, inserted in order; file `i` gets
/// entry index `i`.
pub open spec fn build_tree(paths: Seq<Seq<char>>) -> Seq<NodeModel>
    decreases paths.len(),
{
    if paths.len() == 0 {
        Seq::empty()
    } else {
        insert_path(
            build_tree(paths.drop_last()),
            path_parts(paths.last()),
            0,
            (paths.len() - 1) as usize,
        )
    }
}

/// The paths of the given files.
pub open spec fn paths_of(files: Seq<EntryModel>) -> Seq<Seq<char>> {
    files.map_values(|e: EntryModel| e.path)
}

proof fn lemma_find_dir_bounds(nodes: Seq<NodeModel>, name: Seq<char>, i: int)
    requires
        0 <= i <= nodes.len(),
    ensures
        i <= find_dir(nodes, name, i) <= nodes.len(),
        find_dir(nodes, name, i) < nodes.len() ==> nodes[find_dir(nodes, name, i)].entry_index is None
            && nodes[find_dir(nodes, name, i)].name == name,
    decreases nodes.len() - i,
{
    if i < nodes.len() {
        lemma_find_dir_bounds(nodes, name, i + 1);
    }
}

impl FileTree {
    /// The tree of the files' paths: directories (all expanded) in the order
    /// they first occur, each file under its directories in the order of the
    /// files, with its position in `files` as its entry index.
    pub fn build(files: &[FileEntry]) -> (tree: Self)
        ensures
            tree@ == build_tree(paths_of(entries_view(files@))),
            fits_from(tree@, 0, 0, files@.len()),
            listable_from(tree@, 0, 0, files@.len()),
    {
        let mut roots: Vec<TreeNode> = Vec::new();
        let ghost paths = paths_of(entries_view(files@));
        let mut idx: usize = 0;
        assert(models(roots@) =~= Seq::<NodeModel>::empty());
        assert(paths.take(0) =~= Seq::<Seq<char>>::empty());
        while idx < files.len()
            invariant
                idx <= files.len(),
                paths == paths_of(entries_view(files@)),
                models(roots@) == build_tree(paths.take(idx as int)),
                fits_from(models(roots@), 0, 0, files@.len()),
            decreases files.len() - idx,
        {
            let parts = split_path(&files[idx].path);
            proof {
                assert(paths.take(idx + 1).drop_last() == paths.take(idx as int));
                assert(paths.take(idx + 1).last() == files@[idx as int].path@);
            }
            proof {
                lemma_insert_fits(models(roots@), strings_view(parts@), 0, idx, files@.len());
            }
            Self::insert(&mut roots, &parts, 0, idx);
            idx += 1;
        }
        assert(paths.take(files.len() as int) == paths);
        proof {
            lemma_fits_listable(models(roots@), 0, 0, files@.len());
        }
        FileTree { roots }
    }

    fn insert(nodes: &mut Vec<TreeNode>, parts: &Vec<String>, p: usize, entry_index: usize)
        requires
            p < parts.len(),
        ensures
            models(final(nodes)@) == insert_path(
                models(old(nodes)@),
                strings_view(parts@),
                p as int,
                entry_index,
            ),
        decreases parts.len() - p,
    {
        let ghost before = models(nodes@);
        if p + 1 == parts.len() {
            let node = TreeNode {
                name: parts[p].clone(),
                children: Vec::new(),
                expanded: true,
                entry_index: Some(entry_index),
            };
            nodes.push(node);
            assert(node.model().children =~= Seq::<NodeModel>::empty());
            assert(models(nodes@) =~= before.push(node.model()));
            return;
        }
        let mut pos: usize = 0;
        while pos < nodes.len() && !(nodes[pos].is_dir() && nodes[pos].name == parts[p])
            invariant
                pos <= nodes.len(),
                before == models(nodes@),
                p < parts.len(),
                find_dir(before, strings_view(parts@)[p as int], 0) == find_dir(
                    before,
                    strings_view(parts@)[p as int],
                    pos as int,
                ),
            decreases nodes.len() - pos,
        {
            pos += 1;
        }
        proof {
            lemma_find_dir_bounds(before, strings_view(parts@)[p as int], pos as int);
        }
        if pos == nodes.len() {
            nodes.push(
                TreeNode {
                    name: parts[p].clone(),
                    children: Vec::new(),
                    expanded: true,
                    entry_index: None,
                },
            );
        }
        let ghost mid = nodes@;
        let ghost dir = nodes@[pos as int];
        proof {
            lemma_model_children(dir);
        }
        Self::insert(&mut nodes[pos].children, parts, p + 1, entry_index);
        proof {
            let newdir = nodes@[pos as int];
            lemma_model_children(newdir);
            assert(newdir.name == dir.name);
            assert(newdir.expanded == dir.expanded);
            assert(newdir.entry_index == dir.entry_index);
            let name = strings_view(parts@)[p as int];
            let pos2 = find_dir(before, name, 0);
            assert(pos2 == pos);
            let dm = if pos2 < before.len() { before[pos2] } else { new_node(name, None) };
            assert(dm == dir.model()) by {
                if pos2 >= before.len() {
                    assert(dir.model().children =~= Seq::<NodeModel>::empty());
                    assert(dir.name@ == name);
                }
            }
            assert(newdir.model().children == insert_path(dm.children, strings_view(parts@), p + 1, entry_index));
            assert(newdir.model() == NodeModel { children: insert_path(dm.children, strings_view(parts@), p + 1, entry_index), ..dm });
            assert(nodes@ == mid.update(pos as int, newdir));
            assert(models(nodes@) =~= models(mid).update(pos as int, newdir.model()));
            if pos < before.len() {
                assert(models(mid) == before);
            } else {
                assert(models(mid) =~= before.push(dir.model()));
            }
        }
    }
}

// ---------------------------------------------------------------------------
// Visible rows
// ---------------------------------------------------------------------------

/// What a row of the file list shows.
#[derive(Debug, Clone, Copy, PartialEq, Eq, Structural)]
pub enum VisibleItemKind {
    Directory { expanded: bool },
    File { status: FileStatus, entry_index: usize },
}

/// A row of the file list: its nesting depth, name and kind.
#[derive(Debug, PartialEq)]
pub struct VisibleItem {
    pub depth: usize,
    pub name: String,
    pub kind: VisibleItemKind,
}

/// A row of the file list as the contracts see it.
pub struct ItemModel {
    pub depth: nat,
    pub name: Seq<char>,
    pub kind: VisibleItemKind,
}

impl View for VisibleItem {
    type V = ItemModel;

    open spec fn view(&self) -> ItemModel {
        ItemModel { depth: self.depth as nat, name: self.name@, kind: self.kind }
    }
}

/// The models of a sequence of rows.
pub open spec fn items_view(items: Seq<VisibleItem>) -> Seq<ItemModel> {
    items.map_values(|i: VisibleItem| i@)
}

/// The rows that `nodes[k..]` show at nesting depth `depth`, top to bottom:
/// each directory, followed by its own rows when it is expanded, and each
/// file with the status of its entry in `files`.
pub open spec fn visible_from(nodes: Seq<NodeModel>, k: int, files: Seq<EntryModel>, depth: nat) -> Seq<
    ItemModel,
>
    decreases nodes, nodes.len() - k,
{
    if k < 0 || k >= nodes.len() {
        Seq::empty()
    } else {
        let node = nodes[k];
        let here = match node.entry_index {
            None => seq![
                ItemModel {
                    depth,
                    name: node.name,
                    kind: VisibleItemKind::Directory { expanded: node.expanded },
                },
            ] + if node.expanded {
                proof {
                    assert(decreases_to!(nodes => nodes[k]));
                    assert(decreases_to!(nodes[k] => nodes[k].children));
                }
                visible_from(node.children, 0, files, depth + 1)
            } else {
                Seq::empty()
            },
            Some(e) => seq![
                ItemModel {
                    depth,
                    name: node.name,
                    kind: VisibleItemKind::File { status: files[e as int].status, entry_index: e },
                },
            ],
        };
        here + visible_from(nodes, k + 1, files, depth)
    }
}

/// The rows of `nodes[k..]` can be listed against `n` files at nesting
/// depth `depth`: each file shown has an entry (index below `n`), and each
/// expanded directory's depth can be counted one further in a `usize`.
pub open spec fn listable_from(nodes: Seq<NodeModel>, k: int, depth: nat, n: nat) -> bool
    decreases nodes, nodes.len() - k,
{
    if k < 0 || k >= nodes.len() {
        true
    } else {
        let node = nodes[k];
        let here = match node.entry_index {
            Some(e) => e < n,
            None => node.expanded ==> {
                proof {
                    assert(decreases_to!(nodes => nodes[k]));
                    assert(decreases_to!(nodes[k] => nodes[k].children));
                }
                depth + 1 <= usize::MAX && listable_from(node.children, 0, depth + 1, n)
            },
        };
        here && listable_from(nodes, k + 1, depth, n)
    }
}

impl FileTree {
    /// The rows the tree shows: each directory, then its own rows when it
    /// is expanded, and each file with the status of its entry in `files`.
    pub fn visible_items(&self, files: &[FileEntry]) -> (items: Vec<VisibleItem>)
        requires
            listable_from(self@, 0, 0, files@.len()),
        ensures
            items_view(items@) == visible_from(self@, 0, entries_view(files@), 0),
    {
        let mut items = Vec::new();
        Self::collect_visible(&self.roots, files, 0, &mut items);
        assert(items_view(items@) =~= Seq::<ItemModel>::empty() + visible_from(
            self@,
            0,
            entries_view(files@),
            0,
        ));
        items
    }

    fn collect_visible(
        nodes: &Vec<TreeNode>,
        files: &[FileEntry],
        depth: usize,
        items: &mut Vec<VisibleItem>,
    )
        requires
            listable_from(models(nodes@), 0, depth as nat, files@.len()),
        ensures
            items_view(final(items)@) == items_view(old(items)@) + visible_from(
                models(nodes@),
                0,
                entries_view(files@),
                depth as nat,
            ),
        decreases nodes@,
    {
        let ghost m = models(nodes@);
        let ghost fs = entries_view(files@);
        let ghost start = items_view(items@);
        let mut i: usize = 0;
        assert(start + visible_from(m, 0, fs, depth as nat) == items_view(items@) + visible_from(
            m,
            0,
            fs,
            depth as nat,
        ));
        while i < nodes.len()
            invariant
                i <= nodes.len(),
                m == models(nodes@),
                fs == entries_view(files@),
                listable_from(m, i as int, depth as nat, files@.len()),
                start + visible_from(m, 0, fs, depth as nat) == items_view(items@) + visible_from(
                    m,
                    i as int,
                    fs,
                    depth as nat,
                ),
            decreases nodes.len() - i,
        {
            let node = &nodes[i];
            let ghost node_m = m[i as int];
            let ghost rest = visible_from(m, i + 1, fs, depth as nat);
            let ghost before = items_view(items@);
            proof {
                lemma_model_children(*node);
            }
            if node.is_dir() {
                let item = VisibleItem {
                    depth,
                    name: node.name.clone(),
                    kind: VisibleItemKind::Directory { expanded: node.expanded },
                };
                items.push(item);
                assert(items_view(items@) =~= before.push(item@));
                if node.expanded {
                    proof {
                        assert(decreases_to!(nodes@ => nodes@[i as int]));
                        assert(decreases_to!(nodes@[i as int] => nodes@[i as int].children));
                        assert(decreases_to!(nodes@[i as int].children => nodes@[i as int].children@));
                    }
                    Self::collect_visible(&node.children, files, depth + 1, items);
                }
            } else if let Some(entry_index) = node.entry_index {
                let item = VisibleItem {
                    depth,
                    name: node.name.clone(),
                    kind: VisibleItemKind::File {
                        status: files[entry_index].status,
                        entry_index,
                    },
                };
                items.push(item);
                assert(items_view(items@) =~= before.push(item@));
            }
            i += 1;
        }
        assert(visible_from(m, i as int, fs, depth as nat) =~= Seq::<ItemModel>::empty());
        assert(items_view(items@) + Seq::<ItemModel>::empty() =~= items_view(items@));
    }
}

// ---------------------------------------------------------------------------
// Collapsing and expanding
// ---------------------------------------------------------------------------

/// Where a walk over the visible rows stopped: the nodes afterwards,
/// whether a directory was toggled, whether the walk reached its target row
/// at all, and the number of rows counted.
pub struct Walk {
    pub nodes: Seq<NodeModel>,
    pub found: bool,
    pub done: bool,
    pub counter: nat,
}

/// Walks `nodes[k..]` top to bottom, counting visible rows from `counter`,
/// to toggle the row numbered `target`. At the node where the count
/// reaches `target` the whole walk ends (done): a directory there has its
/// `expanded` flag flipped (found), a file is left alone and nothing is
/// toggled. Before that, every node counts one row and an expanded
/// directory is walked into.
pub open spec fn walk_from(nodes: Seq<NodeModel>, k: int, target: nat, counter: nat) -> Walk
    decreases nodes, nodes.len() - k,
{
    if k < 0 || k >= nodes.len() {
        Walk { nodes, found: false, done: false, counter }
    } else {
        let node = nodes[k];
        if counter == target {
            if node.entry_index is None {
                Walk {
                    nodes: nodes.update(k, NodeModel { expanded: !node.expanded, ..node }),
                    found: true,
                    done: true,
                    counter,
                }
            } else {
                Walk { nodes, found: false, done: true, counter }
            }
        } else if node.entry_index is None && node.expanded {
            let inner = {
                proof {
                    assert(decreases_to!(nodes => nodes[k]));
                    assert(decreases_to!(nodes[k] => nodes[k].children));
                }
                walk_from(node.children, 0, target, counter + 1)
            };
            if inner.done {
                Walk {
                    nodes: nodes.update(k, NodeModel { children: inner.nodes, ..node }),
                    found: inner.found,
                    done: true,
                    counter: inner.counter,
                }
            } else {
                walk_from(nodes, k + 1, target, inner.counter)
            }
        } else {
            walk_from(nodes, k + 1, target, counter + 1)
        }
    }
}

/// A walk that toggles nothing leaves the nodes as they were; one that
/// starts at or below its target never counts past it, and one that
/// toggles has reached its target.
pub proof fn lemma_walk_basics(nodes: Seq<NodeModel>, k: int, target: nat, counter: nat)
    requires
        counter <= target,
    ensures
        !walk_from(nodes, k, target, counter).found ==> walk_from(nodes, k, target, counter).nodes
            == nodes,
        walk_from(nodes, k, target, counter).found ==> walk_from(nodes, k, target, counter).done,
        walk_from(nodes, k, target, counter).done ==> walk_from(nodes, k, target, counter).counter
            == target,
        counter <= walk_from(nodes, k, target, counter).counter <= target,
        walk_from(nodes, k, target, counter).nodes.len() == nodes.len(),
        forall|j: int|
            0 <= j < k && j < nodes.len() ==> #[trigger] walk_from(nodes, k, target, counter).nodes[j]
                == nodes[j],
    decreases nodes, nodes.len() - k,
{
    if 0 <= k < nodes.len() {
        let node = nodes[k];
        if counter == target {
        } else if node.entry_index is None && node.expanded {
            assert(decreases_to!(nodes => nodes[k]));
            lemma_walk_basics(node.children, 0, target, counter + 1);
            let inner = walk_from(node.children, 0, target, counter + 1);
            if inner.done {
                if !inner.found {
                    assert(NodeModel { children: inner.nodes, ..node } == node);
                    assert(nodes.update(k, node) =~= nodes);
                }
            } else {
                lemma_walk_basics(nodes, k + 1, target, inner.counter);
            }
        } else {
            lemma_walk_basics(nodes, k + 1, target, counter + 1);
        }
    }
}

impl FileTree {
    /// Collapses or expands the directory shown on row `visible_index`;
    /// returns whether a directory was toggled. On a file row, or past the
    /// last row, nothing changes and the result is `false`.
    pub fn toggle_at_visible(&mut self, visible_index: usize) -> (toggled: bool)
        ensures
            final(self)@ == walk_from(old(self)@, 0, visible_index as nat, 0).nodes,
            toggled == walk_from(old(self)@, 0, visible_index as nat, 0).found,
            forall|files: Seq<EntryModel>|
                #![trigger visible_from(old(self)@, 0, files, 0)]
                toggled <==> (visible_index < visible_from(old(self)@, 0, files, 0).len()
                    && visible_from(old(self)@, 0, files, 0)[visible_index as int].kind is Directory),
            !toggled ==> final(self)@ == old(self)@,
    {
        let ghost before = self@;
        let mut counter: usize = 0;
        let (found, _done) = Self::toggle_recursive(&mut self.roots, visible_index, &mut counter);
        proof {
            lemma_walk_basics(before, 0, visible_index as nat, 0);
            assert forall|files: Seq<EntryModel>|
                #![trigger visible_from(before, 0, files, 0)]
                found <==> (visible_index < visible_from(before, 0, files, 0).len()
                    && visible_from(before, 0, files, 0)[visible_index as int].kind is Directory) by {
                lemma_toggle_directory_row(before, files, visible_index as nat);
            }
        }
        found
    }

    fn toggle_recursive(nodes: &mut Vec<TreeNode>, target: usize, counter: &mut usize) -> (r: (
        bool,
        bool,
    ))
        requires
            *old(counter) <= target,
        ensures
            ({
                let w = walk_from(models(old(nodes)@), 0, target as nat, *old(counter) as nat);
                &&& models(final(nodes)@) == w.nodes
                &&& r.0 == w.found
                &&& r.1 == w.done
                &&& *final(counter) as nat == w.counter
            }),
        decreases models(old(nodes)@),
    {
        let ghost m = models(nodes@);
        let ghost c0 = *counter as nat;
        let mut k: usize = 0;
        while k < nodes.len()
            invariant
                k <= nodes.len(),
                m == models(nodes@),
                m == models(old(nodes)@),
                c0 == *old(counter) as nat,
                *counter <= target,
                walk_from(m, 0, target as nat, c0) == walk_from(
                    m,
                    k as int,
                    target as nat,
                    *counter as nat,
                ),
            decreases nodes.len() - k,
        {
            let ghost node = nodes@[k as int];
            let ghost c = *counter as nat;
            proof {
                lemma_model_children(node);
            }
            if *counter == target {
                if nodes[k].is_dir() {
                    nodes[k].expanded = !nodes[k].expanded;
                    proof {
                        lemma_model_children(nodes@[k as int]);
                        assert(models(nodes@) =~= m.update(
                            k as int,
                            NodeModel { expanded: !m[k as int].expanded, ..m[k as int] },
                        ));
                        assert(walk_from(m, k as int, target as nat, c) == Walk {
                            nodes: m.update(
                                k as int,
                                NodeModel { expanded: !m[k as int].expanded, ..m[k as int] },
                            ),
                            found: true,
                            done: true,
                            counter: c,
                        });
                    }
                    return (true, true);
                }
                return (false, true);
            }
            *counter += 1;
            if nodes[k].is_dir() && nodes[k].expanded {
                let ghost c1 = *counter as nat;
                proof {
                    lemma_walk_basics(m[k as int].children, 0, target as nat, c1);
                    assert(decreases_to!(m => m[k as int]));
                    assert(decreases_to!(m[k as int] => m[k as int].children));
                    assert(m[k as int].children == models(nodes@[k as int].children@));
                }
                let ghost mid = nodes@;
                let inner = Self::toggle_recursive(&mut nodes[k].children, target, counter);
                proof {
                    let newnode = nodes@[k as int];
                    lemma_model_children(newnode);
                    assert(nodes@ == mid.update(k as int, newnode));
                    assert(models(nodes@) =~= m.update(k as int, newnode.model()));
                    let w = walk_from(m[k as int].children, 0, target as nat, c1);
                    assert(newnode.model() == NodeModel { children: w.nodes, ..m[k as int] });
                    if !w.done {
                        assert(newnode.model() == m[k as int]);
                        assert(models(nodes@) =~= m);
                        assert(walk_from(m, k as int, target as nat, c) == walk_from(
                            m,
                            k + 1,
                            target as nat,
                            w.counter,
                        ));
                    } else {
                        assert(walk_from(m, k as int, target as nat, c) == Walk {
                            nodes: m.update(k as int, NodeModel { children: w.nodes, ..m[k as int] }),
                            found: w.found,
                            done: true,
                            counter: w.counter,
                        });
                    }
                }
                if inner.1 {
                    return inner;
                }
            }
            k += 1;
        }
        (false, false)
    }
}

/// Toggling the same row twice restores the tree: the second walk takes the
/// same path as the first (everything it passes before the toggled
/// directory is unchanged) and flips the same directory back.
pub proof fn lemma_walk_twice(nodes: Seq<NodeModel>, k: int, target: nat, counter: nat)
    requires
        counter <= target,
    ensures
        ({
            let w1 = walk_from(nodes, k, target, counter);
            let w2 = walk_from(w1.nodes, k, target, counter);
            &&& w2.nodes == nodes
            &&& w2.found == w1.found
            &&& w2.done == w1.done
            &&& w2.counter == w1.counter
        }),
    decreases nodes, nodes.len() - k,
{
    let w1 = walk_from(nodes, k, target, counter);
    lemma_walk_basics(nodes, k, target, counter);
    if 0 <= k < nodes.len() {
        let node = nodes[k];
        if counter == target {
            if node.entry_index is None {
                let n1 = w1.nodes;
                assert(n1[k] == NodeModel { expanded: !node.expanded, ..node });
                assert(n1.update(k, NodeModel { expanded: !n1[k].expanded, ..n1[k] }) =~= nodes);
            }
        } else if node.entry_index is None && node.expanded {
            assert(decreases_to!(nodes => nodes[k]));
            let inner = walk_from(node.children, 0, target, counter + 1);
            lemma_walk_basics(node.children, 0, target, counter + 1);
            lemma_walk_twice(node.children, 0, target, counter + 1);
            if inner.done {
                let n1 = w1.nodes;
                let node1 = n1[k];
                assert(node1 == NodeModel { children: inner.nodes, ..node });
                assert(n1.update(k, NodeModel { children: node.children, ..node1 }) =~= nodes);
            } else {
                lemma_walk_twice(nodes, k + 1, target, inner.counter);
                lemma_walk_basics(nodes, k + 1, target, inner.counter);
                assert(w1.nodes[k] == node);
            }
        } else {
            lemma_walk_twice(nodes, k + 1, target, counter + 1);
            lemma_walk_basics(nodes, k + 1, target, counter + 1);
            assert(w1.nodes[k] == node);
        }
    }
}

/// Toggling the same visible row twice leaves the tree as it was, and both
/// toggles report the same outcome.
pub proof fn lemma_toggle_twice_restores(tree: Seq<NodeModel>, visible_index: nat)
    ensures
        walk_from(walk_from(tree, 0, visible_index, 0).nodes, 0, visible_index, 0).nodes == tree,
        walk_from(walk_from(tree, 0, visible_index, 0).nodes, 0, visible_index, 0).found
            == walk_from(tree, 0, visible_index, 0).found,
{
    lemma_walk_twice(tree, 0, visible_index, 0);
}

proof fn lemma_visible_local(
    a: Seq<NodeModel>,
    b: Seq<NodeModel>,
    k: int,
    files: Seq<EntryModel>,
    depth: nat,
)
    requires
        0 <= k,
        a.len() == b.len(),
        forall|j: int| k <= j < a.len() ==> a[j] == b[j],
    ensures
        visible_from(a, k, files, depth) == visible_from(b, k, files, depth),
    decreases a.len() - k,
{
    if k < a.len() {
        lemma_visible_local(a, b, k + 1, files, depth);
    }
}

/// A directory row with its `expanded` flag flipped.
pub open spec fn flipped(item: ItemModel) -> ItemModel {
    match item.kind {
        VisibleItemKind::Directory { expanded } => ItemModel {
            kind: VisibleItemKind::Directory { expanded: !expanded },
            ..item
        },
        _ => item,
    }
}

#[verifier::rlimit(60)]
#[verifier::spinoff_prover]
/// How a walk relates to the rows shown: when row `target - counter` of
/// `nodes[k..]` exists the walk ends there; if it is a directory the walk
/// finds it, flips exactly it and leaves the rows above it alone, if it is
/// a file the walk toggles nothing; when there is no such row, the walk
/// finds nothing and counts all the rows.
pub proof fn lemma_walk_visible(
    nodes: Seq<NodeModel>,
    k: int,
    target: nat,
    counter: nat,
    files: Seq<EntryModel>,
    depth: nat,
)
    requires
        0 <= k,
        counter <= target,
    ensures
        ({
            let v = visible_from(nodes, k, files, depth);
            let w = walk_from(nodes, k, target, counter);
            let i = target - counter;
            let v2 = visible_from(w.nodes, k, files, depth);
            &&& i < v.len() ==> w.done && w.counter == target
            &&& (i < v.len() && v[i].kind is Directory) ==> {
                &&& w.found
                &&& v2.len() > i
                &&& v2.take(i) == v.take(i)
                &&& v2[i] == flipped(v[i])
            }
            &&& (i < v.len() && v[i].kind is File) ==> !w.found
            &&& i >= v.len() ==> !w.done && w.counter == counter + v.len()
        }),
    decreases nodes, nodes.len() - k,
{
    let v = visible_from(nodes, k, files, depth);
    let w = walk_from(nodes, k, target, counter);
    let i = target - counter;
    lemma_walk_basics(nodes, k, target, counter);
    if k < nodes.len() {
        let node = nodes[k];
        let rest = visible_from(nodes, k + 1, files, depth);
        let head = v.take(v.len() - rest.len());
        if counter == target {
            if node.entry_index is None {
                let n1 = w.nodes;
                lemma_visible_local(n1, nodes, k + 1, files, depth);
                let v2 = visible_from(n1, k, files, depth);
                assert(v2[0] == flipped(v[0]));
                assert(v2.take(0) =~= v.take(0));
            }
        } else if node.entry_index is None && node.expanded {
            assert(decreases_to!(nodes => nodes[k]));
            let vc = visible_from(node.children, 0, files, depth + 1);
            let item = ItemModel {
                depth,
                name: node.name,
                kind: VisibleItemKind::Directory { expanded: node.expanded },
            };
            assert(v == seq![item] + vc + rest);
            let inner = walk_from(node.children, 0, target, counter + 1);
            lemma_walk_visible(node.children, 0, target, counter + 1, files, depth + 1);
            lemma_walk_basics(node.children, 0, target, counter + 1);
            if i - 1 < vc.len() {
                if v[i].kind is Directory {
                    assert(v[i] == vc[i - 1]);
                    let n1 = w.nodes;
                    let nk = NodeModel { children: inner.nodes, ..node };
                    assert(n1 == nodes.update(k, nk));
                    lemma_visible_local(n1, nodes, k + 1, files, depth);
                    let vc2 = visible_from(inner.nodes, 0, files, depth + 1);
                    let v2 = visible_from(n1, k, files, depth);
                    assert(v2 == seq![item] + vc2 + rest);
                    assert(v2.take(i) =~= seq![item] + vc2.take(i - 1));
                    assert(v.take(i) =~= seq![item] + vc.take(i - 1));
                    assert(v2[i] == vc2[i - 1]);
                }
            } else {
                assert(!inner.done);
                let c2 = inner.counter;
                assert(c2 == counter + 1 + vc.len());
                lemma_walk_visible(nodes, k + 1, target, c2, files, depth);
                lemma_walk_basics(nodes, k + 1, target, c2);
                let i2 = target - c2;
                assert(i2 == i - 1 - vc.len());
                if i < v.len() && v[i].kind is Directory {
                    assert(v[i] == rest[i2]);
                    let n1 = w.nodes;
                    assert(n1[k] == node);
                    let v2 = visible_from(n1, k, files, depth);
                    let rest2 = visible_from(n1, k + 1, files, depth);
                    assert(v2 == seq![item] + vc + rest2);
                    assert(v2.take(i) =~= seq![item] + vc + rest2.take(i2));
                    assert(v.take(i) =~= seq![item] + vc + rest.take(i2));
                    assert(v2[i] == rest2[i2]);
                }
            }
        } else {
            let item = match node.entry_index {
                None => ItemModel {
                    depth,
                    name: node.name,
                    kind: VisibleItemKind::Directory { expanded: node.expanded },
                },
                Some(e) => ItemModel {
                    depth,
                    name: node.name,
                    kind: VisibleItemKind::File { status: files[e as int].status, entry_index: e },
                },
            };
            assert(v =~= seq![item] + rest);
            lemma_walk_visible(nodes, k + 1, target, counter + 1, files, depth);
            lemma_walk_basics(nodes, k + 1, target, counter + 1);
            let i2 = target - (counter + 1);
            if i < v.len() && v[i].kind is Directory {
                assert(v[i] == rest[i2]);
                let n1 = w.nodes;
                assert(n1[k] == node);
                let v2 = visible_from(n1, k, files, depth);
                let rest2 = visible_from(n1, k + 1, files, depth);
                assert(v2 =~= seq![item] + rest2);
                assert(v2.take(i) =~= seq![item] + rest2.take(i2));
                assert(v.take(i) =~= seq![item] + rest.take(i2));
                assert(v2[i] == rest2[i2]);
            }
        }
    }
}

/// Toggling a visible row toggles something exactly when that row is a
/// directory: it then flips exactly that row's `expanded` flag and leaves
/// every row above it as it was. Toggling a file row, or past the last
/// visible row, changes nothing.
pub proof fn lemma_toggle_directory_row(tree: Seq<NodeModel>, files: Seq<EntryModel>, i: nat)
    ensures
        ({
            let v = visible_from(tree, 0, files, 0);
            let w = walk_from(tree, 0, i, 0);
            let v2 = visible_from(w.nodes, 0, files, 0);
            &&& w.found <==> (i < v.len() && v[i as int].kind is Directory)
            &&& w.found ==> {
                &&& v2.len() > i
                &&& v2.take(i as int) == v.take(i as int)
                &&& v2[i as int] == flipped(v[i as int])
            }
            &&& !w.found ==> w.nodes == tree
        }),
{
    lemma_walk_visible(tree, 0, i, 0, files, 0);
    lemma_walk_basics(tree, 0, i, 0);
}

// ---------------------------------------------------------------------------
// Trees whose rows can always be listed
// ---------------------------------------------------------------------------

/// Each file in `nodes[k..]` (at any depth, shown or not) has an entry
/// below `n`, and each directory's depth (counting from `depth`) can be
/// counted one further in a `usize`.
pub open spec fn fits_from(nodes: Seq<NodeModel>, k: int, depth: nat, n: nat) -> bool
    decreases nodes, nodes.len() - k,
{
    if k < 0 || k >= nodes.len() {
        true
    } else {
        let node = nodes[k];
        let here = match node.entry_index {
            Some(e) => e < n,
            None => depth + 1 <= usize::MAX && {
                proof {
                    assert(decreases_to!(nodes => nodes[k]));
                    assert(decreases_to!(nodes[k] => nodes[k].children));
                }
                fits_from(node.children, 0, depth + 1, n)
            },
        };
        here && fits_from(nodes, k + 1, depth, n)
    }
}

/// `node` and everything below it fit, `node` being at depth `depth`.
pub open spec fn fits_node(node: NodeModel, depth: nat, n: nat) -> bool {
    match node.entry_index {
        Some(e) => e < n,
        None => depth + 1 <= usize::MAX && fits_from(node.children, 0, depth + 1, n),
    }
}

proof fn lemma_fits_forall(nodes: Seq<NodeModel>, k: int, depth: nat, n: nat)
    requires
        0 <= k <= nodes.len(),
    ensures
        fits_from(nodes, k, depth, n) <==> forall|j: int|
            k <= j < nodes.len() ==> #[trigger] fits_node(nodes[j], depth, n),
    decreases nodes.len() - k,
{
    if k < nodes.len() {
        lemma_fits_forall(nodes, k + 1, depth, n);
        assert(fits_from(nodes, k, depth, n) == (fits_node(nodes[k], depth, n) && fits_from(
            nodes,
            k + 1,
            depth,
            n,
        )));
        if forall|j: int| k <= j < nodes.len() ==> #[trigger] fits_node(nodes[j], depth, n) {
            assert(fits_node(nodes[k], depth, n));
        }
    }
}

/// Rows of a fitting tree can be listed, however its directories are
/// expanded.
pub proof fn lemma_fits_listable(nodes: Seq<NodeModel>, k: int, depth: nat, n: nat)
    requires
        fits_from(nodes, k, depth, n),
    ensures
        listable_from(nodes, k, depth, n),
    decreases nodes, nodes.len() - k,
{
    if 0 <= k < nodes.len() {
        let node = nodes[k];
        assert(decreases_to!(nodes => nodes[k]));
        if node.entry_index is None {
            lemma_fits_listable(node.children, 0, depth + 1, n);
        }
        lemma_fits_listable(nodes, k + 1, depth, n);
    }
}

/// Toggling keeps a fitting tree fitting: it only flips `expanded` flags.
pub proof fn lemma_walk_fits(nodes: Seq<NodeModel>, k: int, target: nat, counter: nat, depth: nat, n: nat)
    requires
        0 <= k,
        counter <= target,
        fits_from(nodes, k, depth, n),
    ensures
        fits_from(walk_from(nodes, k, target, counter).nodes, k, depth, n),
    decreases nodes, nodes.len() - k,
{
    lemma_walk_basics(nodes, k, target, counter);
    let w = walk_from(nodes, k, target, counter);
    if k < nodes.len() {
        let node = nodes[k];
        lemma_fits_forall(nodes, k, depth, n);
        lemma_fits_forall(w.nodes, k, depth, n);
        assert(fits_node(node, depth, n));
        if counter == target {
            if node.entry_index is None {
                assert forall|j: int| k <= j < w.nodes.len() implies #[trigger] fits_node(
                    w.nodes[j],
                    depth,
                    n,
                ) by {
                    if j == k {
                        assert(w.nodes[j].children == node.children);
                    } else {
                        assert(w.nodes[j] == nodes[j]);
                    }
                }
            }
        } else if node.entry_index is None && node.expanded {
            assert(decreases_to!(nodes => nodes[k]));
            let inner = walk_from(node.children, 0, target, counter + 1);
            lemma_walk_basics(node.children, 0, target, counter + 1);
            lemma_walk_fits(node.children, 0, target, counter + 1, depth + 1, n);
            if inner.done {
                assert forall|j: int| k <= j < w.nodes.len() implies #[trigger] fits_node(
                    w.nodes[j],
                    depth,
                    n,
                ) by {
                    if j == k {
                        assert(w.nodes[j].children == inner.nodes);
                    } else {
                        assert(w.nodes[j] == nodes[j]);
                    }
                }
            } else {
                lemma_walk_fits(nodes, k + 1, target, inner.counter, depth, n);
                lemma_walk_basics(nodes, k + 1, target, inner.counter);
                lemma_fits_forall(nodes, k + 1, depth, n);
                lemma_fits_forall(w.nodes, k + 1, depth, n);
                assert(w.nodes[k] == node);
            }
        } else {
            lemma_walk_fits(nodes, k + 1, target, counter + 1, depth, n);
            lemma_walk_basics(nodes, k + 1, target, counter + 1);
            lemma_fits_forall(nodes, k + 1, depth, n);
            lemma_fits_forall(w.nodes, k + 1, depth, n);
            assert(w.nodes[k] == node);
        }
    }
}

/// Inserting a path of at most `usize::MAX` components for an entry below
/// `n` keeps a fitting tree fitting.
pub proof fn lemma_insert_fits(nodes: Seq<NodeModel>, parts: Seq<Seq<char>>, p: int, idx: usize, n: nat)
    requires
        0 <= p < parts.len(),
        parts.len() <= usize::MAX,
        idx < n,
        fits_from(nodes, 0, p as nat, n),
    ensures
        fits_from(insert_path(nodes, parts, p, idx), 0, p as nat, n),
    decreases parts.len() - p,
{
    let r = insert_path(nodes, parts, p, idx);
    lemma_fits_forall(nodes, 0, p as nat, n);
    lemma_fits_forall(r, 0, p as nat, n);
    if p + 1 == parts.len() {
        assert forall|j: int| 0 <= j < r.len() implies #[trigger] fits_node(r[j], p as nat, n) by {
            if j < nodes.len() {
                assert(r[j] == nodes[j]);
            }
        }
    } else {
        let pos = find_dir(nodes, parts[p], 0);
        lemma_find_dir_bounds(nodes, parts[p], 0);
        let dir = if pos < nodes.len() {
            nodes[pos]
        } else {
            new_node(parts[p], None)
        };
        assert(fits_from(dir.children, 0, (p + 1) as nat, n)) by {
            if pos < nodes.len() {
                assert(fits_node(nodes[pos], p as nat, n));
            }
        }
        lemma_insert_fits(dir.children, parts, p + 1, idx, n);
        let updated = NodeModel { children: insert_path(dir.children, parts, p + 1, idx), ..dir };
        assert(fits_node(updated, p as nat, n));
        assert forall|j: int| 0 <= j < r.len() implies #[trigger] fits_node(r[j], p as nat, n) by {
            if j != pos {
                assert(r[j] == nodes[j]);
            }
        }
    }
}

// ---------------------------------------------------------------------------
// Every file once
// ---------------------------------------------------------------------------

/// How many file nodes with entry index `e` there are among `nodes[k..]`
/// and inside their directories.
pub open spec fn file_count(nodes: Seq<NodeModel>, k: int, e: usize) -> nat
    decreases nodes, nodes.len() - k,
{
    if k < 0 || k >= nodes.len() {
        0
    } else {
        let node = nodes[k];
        let here: nat = match node.entry_index {
            Some(i) => if i == e {
                1
            } else {
                0
            },
            None => {
                proof {
                    assert(decreases_to!(nodes => nodes[k]));
                    assert(decreases_to!(nodes[k] => nodes[k].children));
                }
                file_count(node.children, 0, e)
            },
        };
        here + file_count(nodes, k + 1, e)
    }
}

/// How many file nodes with entry index `e` a node is or holds.
pub open spec fn node_file_count(node: NodeModel, e: usize) -> nat {
    match node.entry_index {
        Some(i) => if i == e {
            1
        } else {
            0
        },
        None => file_count(node.children, 0, e),
    }
}

proof fn lemma_file_count_step(nodes: Seq<NodeModel>, k: int, e: usize)
    requires
        0 <= k < nodes.len(),
    ensures
        file_count(nodes, k, e) == node_file_count(nodes[k], e) + file_count(nodes, k + 1, e),
{
}

proof fn lemma_file_count_update(nodes: Seq<NodeModel>, i: int, x: NodeModel, k: int, e: usize)
    requires
        0 <= k <= nodes.len(),
        0 <= i < nodes.len(),
    ensures
        k <= i ==> file_count(nodes.update(i, x), k, e) + node_file_count(nodes[i], e)
            == file_count(nodes, k, e) + node_file_count(x, e),
        k > i ==> file_count(nodes.update(i, x), k, e) == file_count(nodes, k, e),
    decreases nodes.len() - k,
{
    if k < nodes.len() {
        lemma_file_count_update(nodes, i, x, k + 1, e);
        lemma_file_count_step(nodes, k, e);
        lemma_file_count_step(nodes.update(i, x), k, e);
    }
}

proof fn lemma_file_count_push(nodes: Seq<NodeModel>, x: NodeModel, k: int, e: usize)
    requires
        0 <= k <= nodes.len(),
    ensures
        file_count(nodes.push(x), k, e) == file_count(nodes, k, e) + node_file_count(x, e),
    decreases nodes.len() - k,
{
    let pushed = nodes.push(x);
    if k < nodes.len() {
        lemma_file_count_push(nodes, x, k + 1, e);
        lemma_file_count_step(nodes, k, e);
        lemma_file_count_step(pushed, k, e);
        assert(pushed[k] == nodes[k]);
    } else {
        lemma_file_count_step(pushed, k, e);
        assert(pushed[k] == x);
        assert(file_count(pushed, k + 1, e) == 0);
        assert(file_count(nodes, k, e) == 0);
    }
}

/// Inserting a file adds exactly one file node with its entry index and
/// leaves the count of every other index alone.
pub proof fn lemma_insert_file_count(
    nodes: Seq<NodeModel>,
    parts: Seq<Seq<char>>,
    p: int,
    idx: usize,
    e: usize,
)
    requires
        0 <= p < parts.len(),
    ensures
        file_count(insert_path(nodes, parts, p, idx), 0, e) == file_count(nodes, 0, e) + (if e
            == idx {
            1nat
        } else {
            0nat
        }),
    decreases parts.len() - p,
{
    if p + 1 == parts.len() {
        lemma_file_count_push(nodes, new_node(parts[p], Some(idx)), 0, e);
    } else {
        let pos = find_dir(nodes, parts[p], 0);
        lemma_find_dir_bounds(nodes, parts[p], 0);
        let dir = if pos < nodes.len() {
            nodes[pos]
        } else {
            new_node(parts[p], None)
        };
        lemma_insert_file_count(dir.children, parts, p + 1, idx, e);
        let updated = NodeModel { children: insert_path(dir.children, parts, p + 1, idx), ..dir };
        if pos < nodes.len() {
            lemma_file_count_update(nodes, pos, updated, 0, e);
        } else {
            lemma_file_count_push(nodes, updated, 0, e);
            assert(file_count(Seq::<NodeModel>::empty(), 0, e) == 0);
        }
    }
}

/// Every changed file appears exactly once in the tree built from the
/// files (at most `usize::MAX` of them, as a list holds), under its own
/// entry index, and no other index appears.
pub proof fn lemma_build_lists_each_file_once(paths: Seq<Seq<char>>, e: usize)
    requires
        paths.len() <= usize::MAX,
    ensures
        file_count(build_tree(paths), 0, e) == (if e < paths.len() {
            1nat
        } else {
            0nat
        }),
    decreases paths.len(),
{
    if paths.len() > 0 {
        lemma_build_lists_each_file_once(paths.drop_last(), e);
        lemma_path_parts_nonempty(paths.last());
        lemma_insert_file_count(
            build_tree(paths.drop_last()),
            path_parts(paths.last()),
            0,
            (paths.len() - 1) as usize,
            e,
        );
    }
}

/// Splitting a path gives at least one component.
pub proof fn lemma_path_parts_nonempty(s: Seq<char>)
    ensures
        path_parts(s).len() >= 1,
{
}

/// Every directory among `nodes[k..]`, at any depth, is expanded.
pub open spec fn all_expanded(nodes: Seq<NodeModel>, k: int) -> bool
    decreases nodes, nodes.len() - k,
{
    if k < 0 || k >= nodes.len() {
        true
    } else {
        let node = nodes[k];
        let here = match node.entry_index {
            Some(_) => true,
            None => node.expanded && {
                proof {
                    assert(decreases_to!(nodes => nodes[k]));
                    assert(decreases_to!(nodes[k] => nodes[k].children));
                }
                all_expanded(node.children, 0)
            },
        };
        here && all_expanded(nodes, k + 1)
    }
}

/// `node`, if a directory, is expanded, and so is every directory in it.
pub open spec fn node_expanded(node: NodeModel) -> bool {
    match node.entry_index {
        Some(_) => true,
        None => node.expanded && all_expanded(node.children, 0),
    }
}

proof fn lemma_all_expanded_forall(nodes: Seq<NodeModel>, k: int)
    requires
        0 <= k <= nodes.len(),
    ensures
        all_expanded(nodes, k) <==> forall|j: int|
            k <= j < nodes.len() ==> #[trigger] node_expanded(nodes[j]),
    decreases nodes.len() - k,
{
    if k < nodes.len() {
        lemma_all_expanded_forall(nodes, k + 1);
        assert(all_expanded(nodes, k) == (node_expanded(nodes[k]) && all_expanded(nodes, k + 1)));
        if forall|j: int| k <= j < nodes.len() ==> #[trigger] node_expanded(nodes[j]) {
            assert(node_expanded(nodes[k]));
        }
    }
}

proof fn lemma_insert_all_expanded(nodes: Seq<NodeModel>, parts: Seq<Seq<char>>, p: int, idx: usize)
    requires
        0 <= p < parts.len(),
        all_expanded(nodes, 0),
    ensures
        all_expanded(insert_path(nodes, parts, p, idx), 0),
    decreases parts.len() - p,
{
    let r = insert_path(nodes, parts, p, idx);
    lemma_all_expanded_forall(nodes, 0);
    lemma_all_expanded_forall(r, 0);
    if p + 1 == parts.len() {
        assert forall|j: int| 0 <= j < r.len() implies #[trigger] node_expanded(r[j]) by {
            if j < nodes.len() {
                assert(r[j] == nodes[j]);
            }
        }
    } else {
        let pos = find_dir(nodes, parts[p], 0);
        lemma_find_dir_bounds(nodes, parts[p], 0);
        let dir = if pos < nodes.len() {
            nodes[pos]
        } else {
            new_node(parts[p], None)
        };
        assert(all_expanded(dir.children, 0) && dir.expanded) by {
            if pos < nodes.len() {
                assert(node_expanded(nodes[pos]));
            }
        }
        lemma_insert_all_expanded(dir.children, parts, p + 1, idx);
        assert forall|j: int| 0 <= j < r.len() implies #[trigger] node_expanded(r[j]) by {
            if j != pos {
                assert(r[j] == nodes[j]);
            }
        }
    }
}

/// Every directory of a freshly built tree starts expanded.
pub proof fn lemma_build_all_expanded(paths: Seq<Seq<char>>)
    ensures
        all_expanded(build_tree(paths), 0),
    decreases paths.len(),
{
    if paths.len() > 0 {
        lemma_build_all_expanded(paths.drop_last());
        lemma_path_parts_nonempty(paths.last());
        lemma_insert_all_expanded(
            build_tree(paths.drop_last()),
            path_parts(paths.last()),
            0,
            (paths.len() - 1) as usize,
        );
    }
}


// ---------------------------------------------------------------------------
// Rows of a built tree
// ---------------------------------------------------------------------------

/// How many nodes `nodes[k..]` hold, counting each node and, for a
/// directory, everything inside it.
pub open spec fn node_total(nodes: Seq<NodeModel>, k: int) -> nat
    decreases nodes, nodes.len() - k,
{
    if k < 0 || k >= nodes.len() {
        0
    } else {
        let node = nodes[k];
        let here: nat = match node.entry_index {
            Some(_) => 1,
            None => {
                proof {
                    assert(decreases_to!(nodes => nodes[k]));
                    assert(decreases_to!(nodes[k] => nodes[k].children));
                }
                1 + node_total(node.children, 0)
            },
        };
        here + node_total(nodes, k + 1)
    }
}

/// How many nodes a node is and holds.
pub open spec fn one_total(node: NodeModel) -> nat {
    match node.entry_index {
        Some(_) => 1,
        None => 1 + node_total(node.children, 0),
    }
}

proof fn lemma_total_step(nodes: Seq<NodeModel>, k: int)
    requires
        0 <= k < nodes.len(),
    ensures
        node_total(nodes, k) == one_total(nodes[k]) + node_total(nodes, k + 1),
{
}

proof fn lemma_total_update(nodes: Seq<NodeModel>, i: int, x: NodeModel, k: int)
    requires
        0 <= k <= nodes.len(),
        0 <= i < nodes.len(),
    ensures
        k <= i ==> node_total(nodes.update(i, x), k) + one_total(nodes[i]) == node_total(nodes, k)
            + one_total(x),
        k > i ==> node_total(nodes.update(i, x), k) == node_total(nodes, k),
    decreases nodes.len() - k,
{
    if k < nodes.len() {
        lemma_total_update(nodes, i, x, k + 1);
        lemma_total_step(nodes, k);
        lemma_total_step(nodes.update(i, x), k);
    }
}

proof fn lemma_total_push(nodes: Seq<NodeModel>, x: NodeModel, k: int)
    requires
        0 <= k <= nodes.len(),
    ensures
        node_total(nodes.push(x), k) == node_total(nodes, k) + one_total(x),
    decreases nodes.len() - k,
{
    let pushed = nodes.push(x);
    if k < nodes.len() {
        lemma_total_push(nodes, x, k + 1);
        lemma_total_step(nodes, k);
        lemma_total_step(pushed, k);
        assert(pushed[k] == nodes[k]);
    } else {
        lemma_total_step(pushed, k);
        assert(pushed[k] == x);
        assert(node_total(pushed, k + 1) == 0);
        assert(node_total(nodes, k) == 0);
    }
}

/// When every directory is expanded, each node shows one row.
proof fn lemma_expanded_rows(nodes: Seq<NodeModel>, k: int, files: Seq<EntryModel>, depth: nat)
    requires
        0 <= k <= nodes.len(),
        all_expanded(nodes, k),
    ensures
        visible_from(nodes, k, files, depth).len() == node_total(nodes, k),
    decreases nodes, nodes.len() - k,
{
    if k < nodes.len() {
        let node = nodes[k];
        lemma_expanded_rows(nodes, k + 1, files, depth);
        if node.entry_index is None {
            assert(decreases_to!(nodes => nodes[k]));
            lemma_expanded_rows(node.children, 0, files, depth + 1);
        }
    }
}

/// How many directories inserting `parts[p..]` adds to `nodes`: none for
/// the last component; for an earlier one, those added below the first
/// directory of that name, or, when there is none, one more and those added
/// below it.
pub open spec fn new_dirs(nodes: Seq<NodeModel>, parts: Seq<Seq<char>>, p: int) -> nat
    decreases parts.len() - p,
{
    if p < 0 || p + 1 >= parts.len() {
        0
    } else {
        let pos = find_dir(nodes, parts[p], 0);
        if 0 <= pos < nodes.len() {
            new_dirs(nodes[pos].children, parts, p + 1)
        } else {
            1 + new_dirs(Seq::empty(), parts, p + 1)
        }
    }
}

proof fn lemma_insert_total(nodes: Seq<NodeModel>, parts: Seq<Seq<char>>, p: int, idx: usize)
    requires
        0 <= p < parts.len(),
    ensures
        node_total(insert_path(nodes, parts, p, idx), 0) == node_total(nodes, 0) + 1 + new_dirs(
            nodes,
            parts,
            p,
        ),
    decreases parts.len() - p,
{
    if p + 1 == parts.len() {
        lemma_total_push(nodes, new_node(parts[p], Some(idx)), 0);
    } else {
        let pos = find_dir(nodes, parts[p], 0);
        lemma_find_dir_bounds(nodes, parts[p], 0);
        let dir = if pos < nodes.len() {
            nodes[pos]
        } else {
            new_node(parts[p], None)
        };
        lemma_insert_total(dir.children, parts, p + 1, idx);
        let updated = NodeModel { children: insert_path(dir.children, parts, p + 1, idx), ..dir };
        if pos < nodes.len() {
            lemma_total_update(nodes, pos, updated, 0);
        } else {
            lemma_total_push(nodes, updated, 0);
            assert(node_total(Seq::<NodeModel>::empty(), 0) == 0);
        }
    }
}


proof fn lemma_find_dir_update(nodes: Seq<NodeModel>, pos: int, x: NodeModel, name: Seq<char>, i: int)
    requires
        0 <= pos < nodes.len(),
        0 <= i <= nodes.len(),
        x.name == nodes[pos].name,
        (x.entry_index is None) == (nodes[pos].entry_index is None),
    ensures
        find_dir(nodes.update(pos, x), name, i) == find_dir(nodes, name, i),
    decreases nodes.len() - i,
{
    if i < nodes.len() {
        lemma_find_dir_update(nodes, pos, x, name, i + 1);
    }
}

proof fn lemma_find_dir_push(nodes: Seq<NodeModel>, x: NodeModel, name: Seq<char>, i: int)
    requires
        0 <= i <= nodes.len(),
    ensures
        find_dir(nodes.push(x), name, i) == (if find_dir(nodes, name, i) < nodes.len() {
            find_dir(nodes, name, i)
        } else if x.entry_index is None && x.name == name {
            nodes.len() as int
        } else {
            nodes.len() + 1int
        }),
    decreases nodes.len() - i,
{
    let pushed = nodes.push(x);
    if i < nodes.len() {
        lemma_find_dir_push(nodes, x, name, i + 1);
        assert(pushed[i] == nodes[i]);
    } else {
        assert(pushed[i] == x);
        if !(x.entry_index is None && x.name == name) {
            assert(find_dir(pushed, name, i + 1) == i + 1);
        }
    }
}

/// The directory reached from `nodes` by following the component names
/// `q`, each time into the first directory of that name, exists.
pub open spec fn has_dir(nodes: Seq<NodeModel>, q: Seq<Seq<char>>) -> bool
    decreases q.len(),
{
    if q.len() == 0 {
        false
    } else {
        let pos = find_dir(nodes, q[0], 0);
        0 <= pos < nodes.len() && (q.len() == 1 || has_dir(nodes[pos].children, q.drop_first()))
    }
}

/// How many of the prefixes `parts[p..j]`, for `j` from `j` up to the last
/// component, do not lead to a directory of `nodes`.
pub open spec fn missing_dirs(nodes: Seq<NodeModel>, parts: Seq<Seq<char>>, p: int, j: int) -> nat
    decreases parts.len() - j,
{
    if j <= p || j >= parts.len() {
        0
    } else {
        (if has_dir(nodes, parts.subrange(p, j)) {
            0nat
        } else {
            1nat
        }) + missing_dirs(nodes, parts, p, j + 1)
    }
}

proof fn lemma_new_dirs_empty(parts: Seq<Seq<char>>, p: int)
    requires
        0 <= p,
    ensures
        new_dirs(Seq::empty(), parts, p) == (if p + 1 < parts.len() {
            (parts.len() - 1 - p) as nat
        } else {
            0nat
        }),
    decreases parts.len() - p,
{
    if p + 1 < parts.len() {
        lemma_new_dirs_empty(parts, p + 1);
        assert(find_dir(Seq::<NodeModel>::empty(), parts[p], 0) == 0);
    }
}

proof fn lemma_missing_none_found(nodes: Seq<NodeModel>, parts: Seq<Seq<char>>, p: int, j: int)
    requires
        0 <= p < j <= parts.len(),
        find_dir(nodes, parts[p], 0) >= nodes.len(),
    ensures
        missing_dirs(nodes, parts, p, j) == parts.len() - j,
    decreases parts.len() - j,
{
    if j < parts.len() {
        lemma_missing_none_found(nodes, parts, p, j + 1);
        assert(parts.subrange(p, j)[0] == parts[p]);
    }
}

proof fn lemma_missing_below(nodes: Seq<NodeModel>, parts: Seq<Seq<char>>, p: int, j: int)
    requires
        0 <= p,
        p + 2 <= j <= parts.len(),
        0 <= find_dir(nodes, parts[p], 0) < nodes.len(),
    ensures
        missing_dirs(nodes, parts, p, j) == missing_dirs(
            nodes[find_dir(nodes, parts[p], 0)].children,
            parts,
            p + 1,
            j,
        ),
    decreases parts.len() - j,
{
    if j < parts.len() {
        lemma_missing_below(nodes, parts, p, j + 1);
        let q = parts.subrange(p, j);
        assert(q[0] == parts[p]);
        assert(q.drop_first() =~= parts.subrange(p + 1, j));
    }
}

/// The directories that inserting `parts[p..]` adds are those of its
/// prefixes that do not lead to a directory yet.
proof fn lemma_new_dirs_missing(nodes: Seq<NodeModel>, parts: Seq<Seq<char>>, p: int)
    requires
        0 <= p < parts.len(),
    ensures
        new_dirs(nodes, parts, p) == missing_dirs(nodes, parts, p, p + 1),
    decreases parts.len() - p,
{
    if p + 1 < parts.len() {
        let pos = find_dir(nodes, parts[p], 0);
        lemma_find_dir_bounds(nodes, parts[p], 0);
        if pos < nodes.len() {
            lemma_new_dirs_missing(nodes[pos].children, parts, p + 1);
            assert(parts.subrange(p, p + 1)[0] == parts[p]);
            assert(has_dir(nodes, parts.subrange(p, p + 1)));
            lemma_missing_below(nodes, parts, p, p + 2);
        } else {
            lemma_new_dirs_empty(parts, p + 1);
            lemma_missing_none_found(nodes, parts, p, p + 1);
        }
    }
}

/// After inserting `parts[p..]`, a directory path leads somewhere exactly
/// when it did before or is one of the insertion's proper prefixes.
proof fn lemma_insert_has_dir(
    nodes: Seq<NodeModel>,
    parts: Seq<Seq<char>>,
    p: int,
    idx: usize,
    q: Seq<Seq<char>>,
)
    requires
        0 <= p < parts.len(),
    ensures
        has_dir(insert_path(nodes, parts, p, idx), q) <==> (has_dir(nodes, q) || exists|k: int|
            p < k < parts.len() && #[trigger] parts.subrange(p, k) == q),
    decreases parts.len() - p,
{
    let r = insert_path(nodes, parts, p, idx);
    if q.len() == 0 {
        assert forall|k: int| p < k < parts.len() implies #[trigger] parts.subrange(p, k) != q by {
            assert(parts.subrange(p, k).len() == k - p);
        }
    } else if p + 1 == parts.len() {
        let x = new_node(parts[p], Some(idx));
        lemma_find_dir_push(nodes, x, q[0], 0);
        lemma_find_dir_bounds(nodes, q[0], 0);
        let pos = find_dir(nodes, q[0], 0);
        if pos < nodes.len() {
            assert(r[pos] == nodes[pos]);
        }
    } else {
        let pos = find_dir(nodes, parts[p], 0);
        lemma_find_dir_bounds(nodes, parts[p], 0);
        let dir = if pos < nodes.len() {
            nodes[pos]
        } else {
            new_node(parts[p], None)
        };
        let updated = NodeModel { children: insert_path(dir.children, parts, p + 1, idx), ..dir };
        if pos < nodes.len() {
            lemma_find_dir_update(nodes, pos, updated, q[0], 0);
        } else {
            lemma_find_dir_push(nodes, updated, q[0], 0);
        }
        let qpos = find_dir(nodes, q[0], 0);
        lemma_find_dir_bounds(nodes, q[0], 0);
        if q[0] != parts[p] {
            if qpos < nodes.len() {
                assert(qpos != pos);
                assert(r[qpos] == nodes[qpos]);
            }
            assert forall|k: int| p < k < parts.len() implies #[trigger] parts.subrange(p, k)
                != q by {
                assert(parts.subrange(p, k)[0] == parts[p]);
            }
        } else {
            assert(find_dir(r, q[0], 0) == pos);
            assert(r[pos] == updated);
            if q.len() == 1 {
                assert(parts.subrange(p, p + 1) =~= q);
            } else {
                let q2 = q.drop_first();
                lemma_insert_has_dir(dir.children, parts, p + 1, idx, q2);
                if pos >= nodes.len() {
                    assert(!has_dir(dir.children, q2));
                }
                if exists|k: int| p + 1 < k < parts.len() && #[trigger] parts.subrange(p + 1, k)
                    == q2 {
                    let k = choose|k: int|
                        p + 1 < k < parts.len() && #[trigger] parts.subrange(p + 1, k) == q2;
                    assert(q.len() == k - p);
                    assert forall|i: int| 0 <= i < q.len() implies #[trigger] parts.subrange(
                        p,
                        k,
                    )[i] == q[i] by {
                        if i > 0 {
                            assert(q[i] == q2[i - 1]);
                        }
                    }
                    assert(parts.subrange(p, k) =~= q);
                }
                if exists|k: int| p < k < parts.len() && #[trigger] parts.subrange(p, k) == q {
                    let k = choose|k: int| p < k < parts.len() && #[trigger] parts.subrange(p, k) == q;
                    assert(parts.subrange(p, k).len() == k - p);
                    assert(parts.subrange(p + 1, k) =~= q2);
                }
            }
        }
    }
}


/// The directories the paths pass through: for each path, every proper
/// prefix of its components (for `a/b/c`, the components of `a` and of
/// `a/b`), each counted once however many paths share it.
pub open spec fn dir_prefixes(paths: Seq<Seq<char>>) -> Set<Seq<Seq<char>>> {
    Set::new(
        |q: Seq<Seq<char>>|
            exists|i: int, k: int|
                0 <= i < paths.len() && 1 <= k < path_parts(paths[i]).len() && #[trigger] path_parts(
                    paths[i],
                ).take(k) == q,
    )
}

/// The prefixes `parts[..k]` for `k` from `j` up to the last component,
/// added to `s`.
pub open spec fn with_prefixes(s: Set<Seq<Seq<char>>>, parts: Seq<Seq<char>>, j: int) -> Set<
    Seq<Seq<char>>,
> {
    s.union(
        Set::new(
            |q: Seq<Seq<char>>|
                exists|k: int| j <= k < parts.len() && #[trigger] parts.subrange(0, k) == q,
        ),
    )
}

proof fn lemma_with_prefixes_len(
    nodes: Seq<NodeModel>,
    s: Set<Seq<Seq<char>>>,
    parts: Seq<Seq<char>>,
    j: int,
)
    requires
        1 <= j,
        s.finite(),
        forall|q: Seq<Seq<char>>| #[trigger] has_dir(nodes, q) <==> s.contains(q),
    ensures
        with_prefixes(s, parts, j).finite(),
        with_prefixes(s, parts, j).len() == s.len() + missing_dirs(nodes, parts, 0, j),
    decreases parts.len() - j,
{
    let v = with_prefixes(s, parts, j);
    if j >= parts.len() {
        assert(v =~= s);
    } else {
        lemma_with_prefixes_len(nodes, s, parts, j + 1);
        let w = with_prefixes(s, parts, j + 1);
        let x = parts.subrange(0, j);
        assert(v =~= w.insert(x)) by {
            assert forall|q: Seq<Seq<char>>| v.contains(q) implies #[trigger] w.insert(x).contains(q) by {
                if !s.contains(q) {
                    let k = choose|k: int| j <= k < parts.len() && #[trigger] parts.subrange(0, k) == q;
                    if k > j {
                        assert(w.contains(q));
                    }
                }
            }
            assert forall|q: Seq<Seq<char>>| w.insert(x).contains(q) implies #[trigger] v.contains(q) by {
                if q == x {
                    assert(parts.subrange(0, j) == q);
                } else if !s.contains(q) {
                    let k = choose|k: int| j + 1 <= k < parts.len() && #[trigger] parts.subrange(0, k) == q;
                    assert(parts.subrange(0, k) == q);
                }
            }
        }
        assert(w.contains(x) <==> s.contains(x)) by {
            if w.contains(x) && !s.contains(x) {
                let k = choose|k: int| j + 1 <= k < parts.len() && #[trigger] parts.subrange(0, k) == x;
                assert(parts.subrange(0, k).len() == k);
            }
        }
        assert(has_dir(nodes, x) <==> s.contains(x));
    }
}

proof fn lemma_build_dirs(paths: Seq<Seq<char>>)
    ensures
        dir_prefixes(paths).finite(),
        forall|q: Seq<Seq<char>>| #[trigger] has_dir(build_tree(paths), q) <==> dir_prefixes(paths).contains(q),
        node_total(build_tree(paths), 0) == paths.len() + dir_prefixes(paths).len(),
    decreases paths.len(),
{
    let d = dir_prefixes(paths);
    if paths.len() == 0 {
        assert(d =~= Set::<Seq<Seq<char>>>::empty());
        assert forall|q: Seq<Seq<char>>| #[trigger] has_dir(build_tree(paths), q) <==> d.contains(q) by {
            if q.len() > 0 {
                assert(find_dir(Seq::<NodeModel>::empty(), q[0], 0) == 0);
            }
        }
    } else {
        let prev = paths.drop_last();
        lemma_build_dirs(prev);
        let t = build_tree(prev);
        let s = dir_prefixes(prev);
        let parts = path_parts(paths.last());
        let n = paths.len() - 1;
        lemma_path_parts_nonempty(paths.last());
        assert(build_tree(paths) == insert_path(t, parts, 0, n as usize));
        assert(paths[n] == paths.last());
        lemma_with_prefixes_len(t, s, parts, 1);
        assert(d =~= with_prefixes(s, parts, 1)) by {
            assert forall|q: Seq<Seq<char>>| d.contains(q) implies #[trigger] with_prefixes(
                s,
                parts,
                1,
            ).contains(q) by {
                let (i, k) = choose|i: int, k: int|
                    0 <= i < paths.len() && 1 <= k < path_parts(paths[i]).len() && #[trigger] path_parts(
                        paths[i],
                    ).take(k) == q;
                if i < n {
                    assert(prev[i] == paths[i]);
                    assert(s.contains(q));
                } else {
                    assert(parts.subrange(0, k) == q);
                }
            }
            assert forall|q: Seq<Seq<char>>| with_prefixes(s, parts, 1).contains(q) implies #[trigger] d.contains(
                q,
            ) by {
                if s.contains(q) {
                    let (i, k) = choose|i: int, k: int|
                        0 <= i < prev.len() && 1 <= k < path_parts(prev[i]).len() && #[trigger] path_parts(
                            prev[i],
                        ).take(k) == q;
                    assert(prev[i] == paths[i]);
                    assert(path_parts(paths[i]).take(k) == q);
                } else {
                    let k = choose|k: int| 1 <= k < parts.len() && #[trigger] parts.subrange(0, k) == q;
                    assert(path_parts(paths[n]).take(k) == q);
                }
            }
        }
        assert forall|q: Seq<Seq<char>>| #[trigger] has_dir(build_tree(paths), q) <==> d.contains(q) by {
            lemma_insert_has_dir(t, parts, 0, n as usize, q);
            if exists|k: int| 0 < k < parts.len() && #[trigger] parts.subrange(0, k) == q {
                let k = choose|k: int| 0 < k < parts.len() && #[trigger] parts.subrange(0, k) == q;
                assert(with_prefixes(s, parts, 1).contains(q));
            }
            if with_prefixes(s, parts, 1).contains(q) && !s.contains(q) {
                let k = choose|k: int| 1 <= k < parts.len() && #[trigger] parts.subrange(0, k) == q;
                assert(parts.subrange(0, k) == q);
            }
        }
        lemma_insert_total(t, parts, 0, n as usize);
        lemma_new_dirs_missing(t, parts, 0);
    }
}

/// A freshly built tree, every directory expanded, shows one row for each
/// file and one for each directory its paths pass through (each distinct
/// proper prefix of a path's components) -- no more.
pub proof fn lemma_built_tree_rows(files: Seq<EntryModel>)
    ensures
        dir_prefixes(paths_of(files)).finite(),
        visible_from(build_tree(paths_of(files)), 0, files, 0).len() == files.len() + dir_prefixes(
            paths_of(files),
        ).len(),
{
    let paths = paths_of(files);
    lemma_build_all_expanded(paths);
    lemma_expanded_rows(build_tree(paths), 0, files, 0);
    lemma_build_dirs(paths);
}


/// How many of the rows show the file with entry index `e`.
pub open spec fn file_rows(items: Seq<ItemModel>, e: usize) -> nat
    decreases items.len(),
{
    if items.len() == 0 {
        0
    } else {
        file_rows(items.drop_last(), e) + match items.last().kind {
            VisibleItemKind::File { entry_index, .. } => if entry_index == e {
                1nat
            } else {
                0nat
            },
            VisibleItemKind::Directory { .. } => 0nat,
        }
    }
}

proof fn lemma_file_rows_concat(a: Seq<ItemModel>, b: Seq<ItemModel>, e: usize)
    ensures
        file_rows(a + b, e) == file_rows(a, e) + file_rows(b, e),
    decreases b.len(),
{
    if b.len() == 0 {
        assert(a + b =~= a);
    } else {
        lemma_file_rows_concat(a, b.drop_last(), e);
        assert((a + b).drop_last() =~= a + b.drop_last());
        assert((a + b).last() == b.last());
    }
}

proof fn lemma_one_file_row(item: ItemModel, e: usize)
    ensures
        file_rows(seq![item], e) == match item.kind {
            VisibleItemKind::File { entry_index, .. } => if entry_index == e {
                1nat
            } else {
                0nat
            },
            VisibleItemKind::Directory { .. } => 0nat,
        },
{
    assert(seq![item].drop_last() =~= Seq::<ItemModel>::empty());
    assert(file_rows(Seq::<ItemModel>::empty(), e) == 0);
}

proof fn lemma_expanded_file_rows(
    nodes: Seq<NodeModel>,
    k: int,
    files: Seq<EntryModel>,
    depth: nat,
    e: usize,
)
    requires
        0 <= k <= nodes.len(),
        all_expanded(nodes, k),
    ensures
        file_rows(visible_from(nodes, k, files, depth), e) == file_count(nodes, k, e),
    decreases nodes, nodes.len() - k,
{
    if k < nodes.len() {
        let node = nodes[k];
        lemma_expanded_file_rows(nodes, k + 1, files, depth, e);
        lemma_file_count_step(nodes, k, e);
        let rest = visible_from(nodes, k + 1, files, depth);
        match node.entry_index {
            None => {
                let item = ItemModel {
                    depth,
                    name: node.name,
                    kind: VisibleItemKind::Directory { expanded: node.expanded },
                };
                assert(decreases_to!(nodes => nodes[k]));
                let inner = visible_from(node.children, 0, files, depth + 1);
                assert(visible_from(nodes, k, files, depth) == (seq![item] + inner) + rest);
                lemma_one_file_row(item, e);
                lemma_expanded_file_rows(node.children, 0, files, depth + 1, e);
                lemma_file_rows_concat(seq![item], inner, e);
                lemma_file_rows_concat(seq![item] + inner, rest, e);
            },
            Some(i) => {
                let item = ItemModel {
                    depth,
                    name: node.name,
                    kind: VisibleItemKind::File { status: files[i as int].status, entry_index: i },
                };
                assert(visible_from(nodes, k, files, depth) == seq![item] + rest);
                lemma_one_file_row(item, e);
                lemma_file_rows_concat(seq![item], rest, e);
            },
        }
    }
}

/// In the rows of a freshly built tree each file shows exactly once, under
/// its own entry index, and no other entry index shows: the entry indices
/// of the file rows are the indices of the files, each once.
pub proof fn lemma_built_tree_file_rows(files: Seq<EntryModel>, e: usize)
    requires
        files.len() <= usize::MAX,
    ensures
        file_rows(visible_from(build_tree(paths_of(files)), 0, files, 0), e) == (if e < files.len() {
            1nat
        } else {
            0nat
        }),
{
    let paths = paths_of(files);
    lemma_build_all_expanded(paths);
    lemma_expanded_file_rows(build_tree(paths), 0, files, 0, e);
    lemma_build_lists_each_file_once(paths, e);
}

} // verus!
