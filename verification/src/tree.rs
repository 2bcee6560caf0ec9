//! The directory tree that a list of file paths folds into.

use crate::order::{
    lemma_listing_unique, lemma_sorted_listing, lists_in_order, sort_unique, sorted_listing,
};
use crate::path::{components, components_behind, path_components, relative_segments};
use vstd::prelude::*;
use vstd::slice::slice_subrange;
use vstd::string::StringExecFns;

verus! {

/// What a tree is, whatever the order in which it was built: a file, or a
/// directory that maps the names of its children to their trees.
pub enum TreeModel {
    File,
    Directory(Map<Seq<char>, TreeModel>),
}

/// A child of a directory, under its name.
pub struct Entry {
    name: String,
    node: TreeNode,
}

/// A node of the project tree: a file, or a directory with its children. The
/// children are kept in the order in which they came; no two of them have the
/// same name.
pub enum TreeNode {
    File,
    Directory(Vec<Entry>),
}

/// The directory without children.
pub open spec fn empty_directory() -> TreeModel {
    TreeModel::Directory(Map::<Seq<char>, TreeModel>::empty())
}

/// The tree with the path `segments` added as a file. Directories on the way
/// are made where they are missing. A file in place of the last segment is
/// kept, a directory there is replaced by the file. Where the way leads
/// through a file, and where `segments` is empty, the tree stays as it is.
pub open spec fn with_path(tree: TreeModel, segments: Seq<Seq<char>>) -> TreeModel
    decreases segments.len(),
{
    if segments.len() == 0 {
        tree
    } else {
        match tree {
            TreeModel::File => tree,
            TreeModel::Directory(children) => {
                let name = segments[0];
                if segments.len() == 1 {
                    TreeModel::Directory(children.insert(name, TreeModel::File))
                } else {
                    let child = if children.dom().contains(name) {
                        children[name]
                    } else {
                        empty_directory()
                    };
                    TreeModel::Directory(
                        children.insert(name, with_path(child, segments.skip(1))),
                    )
                }
            },
        }
    }
}

/// The node that the path `segments` leads to, if it leads to one.
pub open spec fn node_at(tree: TreeModel, segments: Seq<Seq<char>>) -> Option<TreeModel>
    decreases segments.len(),
{
    if segments.len() == 0 {
        Some(tree)
    } else {
        match tree {
            TreeModel::File => None,
            TreeModel::Directory(children) => {
                if children.dom().contains(segments[0]) {
                    node_at(children[segments[0]], segments.skip(1))
                } else {
                    None
                }
            },
        }
    }
}

/// The line that lists one child: the indentation of its level, the connector
/// (one form for the last child of a directory, another for the others), the
/// name, and a line break.
pub open spec fn entry_line(prefix: Seq<char>, name: Seq<char>, last: bool) -> Seq<char> {
    prefix + (if last {
        "└── "@
    } else {
        "├── "@
    }) + name + "\n"@
}

/// The indentation of what lies below a child: that of the child's level,
/// extended by blanks below the last child of a directory, and by a
/// continuing branch below the others.
pub open spec fn deeper(prefix: Seq<char>, last: bool) -> Seq<char> {
    prefix + (if last {
        "    "@
    } else {
        "│   "@
    })
}

/// The lines for the children `names` of a directory, in the order given: for
/// each child its own line, directly followed by the lines of what lies below
/// it. The last of `names` is drawn as the last child.
pub open spec fn entry_lines(
    children: Map<Seq<char>, TreeModel>,
    names: Seq<Seq<char>>,
    prefix: Seq<char>,
) -> Seq<char>
    decreases children, names.len(),
{
    if names.len() == 0 {
        Seq::<char>::empty()
    } else {
        let name = names[0];
        let last = names.len() == 1;
        let below = if children.dom().finite() && children.dom().contains(name) {
            tree_lines(children[name], deeper(prefix, last))
        } else {
            Seq::<char>::empty()
        };
        entry_line(prefix, name, last) + below + entry_lines(children, names.skip(1), prefix)
    }
}

/// The lines below a node: none for a file; for a directory those of its
/// children, sorted by name.
pub open spec fn tree_lines(tree: TreeModel, prefix: Seq<char>) -> Seq<char>
    decreases tree, 0nat,
{
    match tree {
        TreeModel::File => Seq::<char>::empty(),
        TreeModel::Directory(children) => entry_lines(
            children,
            sorted_listing(children.dom()),
            prefix,
        ),
    }
}

/// The diagram of a tree: a line with `.` for the root, then the lines below
/// it.
pub open spec fn tree_text(tree: TreeModel) -> Seq<char> {
    ".\n"@ + tree_lines(tree, Seq::<char>::empty())
}

/// The tree that the files `paths` of the project at `base` fold into, one
/// after the other: each is added under its segments as seen from `base`.
pub open spec fn built_tree(base: Seq<char>, paths: Seq<Seq<char>>) -> TreeModel
    decreases paths.len(),
{
    if paths.len() == 0 {
        empty_directory()
    } else {
        with_path(built_tree(base, paths.drop_last()), relative_segments(base, paths.last()))
    }
}

/// The children of a directory as a map from name to tree.
pub closed spec fn children_model(entries: Seq<Entry>) -> Map<Seq<char>, TreeModel>
    decreases entries,
{
    Map::new(
        |name: Seq<char>| exists|i: int| 0 <= i < entries.len() && entries[i].name@ == name,
        |name: Seq<char>|
            {
                let i = choose|i: int| 0 <= i < entries.len() && entries[i].name@ == name;
                if 0 <= i < entries.len() {
                    entries[i].node.model()
                } else {
                    TreeModel::File
                }
            },
    )
}

impl TreeNode {
    /// No directory of the tree has two children of one name.
    pub open spec fn wf(self) -> bool
        decreases self,
    {
        match self {
            TreeNode::File => true,
            TreeNode::Directory(entries) => sound(entries@),
        }
    }

    /// What the tree is, without the order of its children.
    pub open spec fn model(self) -> TreeModel
        decreases self,
    {
        match self {
            TreeNode::File => TreeModel::File,
            TreeNode::Directory(entries) => TreeModel::Directory(children_model(entries@)),
        }
    }
}

/// The entries of a directory as they must be: no name twice, and every child
/// a tree as it must be.
pub closed spec fn sound(entries: Seq<Entry>) -> bool
    decreases entries,
{
    &&& distinct_names(entries)
    &&& forall|i: int| 0 <= i < entries.len() ==> (#[trigger] entries[i]).node.wf()
}

/// No two of the entries have the same name.
pub closed spec fn distinct_names(entries: Seq<Entry>) -> bool {
    forall|i: int, j: int|
        #![trigger entries[i], entries[j]]
        0 <= i < j < entries.len() ==> entries[i].name@ != entries[j].name@
}

/// Whether one of the entries has the name `name`.
pub closed spec fn has_name(entries: Seq<Entry>, name: Seq<char>) -> bool {
    exists|i: int| 0 <= i < entries.len() && entries[i].name@ == name
}

/// Under distinct names the map of the children holds each entry under its
/// name, and nothing else.
proof fn lemma_children(entries: Seq<Entry>)
    requires
        distinct_names(entries),
    ensures
        forall|name: Seq<char>|
            children_model(entries).dom().contains(name) <==> has_name(entries, name),
        forall|i: int|
            0 <= i < entries.len() ==> children_model(entries).dom().contains(
                (#[trigger] entries[i]).name@,
            ) && children_model(entries)[entries[i].name@] == entries[i].node.model(),
{
    assert forall|i: int| 0 <= i < entries.len() implies children_model(entries).dom().contains(
        (#[trigger] entries[i]).name@,
    ) && children_model(entries)[entries[i].name@] == entries[i].node.model() by {
        let name = entries[i].name@;
        let j = choose|j: int| 0 <= j < entries.len() && entries[j].name@ == name;
        assert(0 <= i < entries.len() && entries[i].name@ == name);
        if j != i {
            if j < i {
                assert(entries[j].name@ != entries[i].name@);
            } else {
                assert(entries[i].name@ != entries[j].name@);
            }
        }
    }
}

/// A new child under a new name extends the map of the children.
proof fn lemma_child_added(entries: Seq<Entry>, entry: Entry)
    requires
        distinct_names(entries),
        !has_name(entries, entry.name@),
    ensures
        distinct_names(entries.push(entry)),
        children_model(entries.push(entry)) == children_model(entries).insert(
            entry.name@,
            entry.node.model(),
        ),
{
    let more = entries.push(entry);
    assert forall|i: int, j: int| 0 <= i < j < more.len() implies more[i].name@
        != more[j].name@ by {
        if j < entries.len() {
            assert(entries[i].name@ != entries[j].name@);
        } else {
            assert(more[i] == entries[i]);
        }
    }
    lemma_children(entries);
    lemma_children(more);
    let a = children_model(more);
    let b = children_model(entries).insert(entry.name@, entry.node.model());
    assert forall|name: Seq<char>| a.dom().contains(name) <==> b.dom().contains(name) by {
        if has_name(more, name) {
            let i = choose|i: int| 0 <= i < more.len() && more[i].name@ == name;
            if i < entries.len() {
                assert(entries[i].name@ == name);
            }
        }
        if has_name(entries, name) {
            let i = choose|i: int| 0 <= i < entries.len() && entries[i].name@ == name;
            assert(more[i].name@ == name);
        }
        if name == entry.name@ {
            assert(more[entries.len() as int].name@ == name);
        }
    }
    assert forall|name: Seq<char>| a.dom().contains(name) implies a[name] == b[name] by {
        let i = choose|i: int| 0 <= i < more.len() && more[i].name@ == name;
        assert(a[more[i].name@] == more[i].node.model());
        if i < entries.len() {
            assert(more[i] == entries[i]);
            assert(children_model(entries)[entries[i].name@] == entries[i].node.model());
        }
    }
    assert(a =~= b);
}

/// A child replaced under its own name updates the map of the children.
proof fn lemma_child_replaced(entries: Seq<Entry>, at: int, entry: Entry)
    requires
        distinct_names(entries),
        0 <= at < entries.len(),
        entries[at].name@ == entry.name@,
    ensures
        distinct_names(entries.update(at, entry)),
        children_model(entries.update(at, entry)) == children_model(entries).insert(
            entry.name@,
            entry.node.model(),
        ),
{
    let changed = entries.update(at, entry);
    assert forall|i: int, j: int| 0 <= i < j < changed.len() implies changed[i].name@
        != changed[j].name@ by {
        assert(entries[i].name@ != entries[j].name@);
    }
    lemma_children(entries);
    lemma_children(changed);
    let a = children_model(changed);
    let b = children_model(entries).insert(entry.name@, entry.node.model());
    assert forall|name: Seq<char>| a.dom().contains(name) <==> b.dom().contains(name) by {
        if has_name(changed, name) {
            let i = choose|i: int| 0 <= i < changed.len() && changed[i].name@ == name;
            assert(entries[i].name@ == name);
        }
        if has_name(entries, name) {
            let i = choose|i: int| 0 <= i < entries.len() && entries[i].name@ == name;
            assert(changed[i].name@ == name);
        }
        if name == entry.name@ {
            assert(changed[at].name@ == name);
        }
    }
    assert forall|name: Seq<char>| a.dom().contains(name) implies a[name] == b[name] by {
        let i = choose|i: int| 0 <= i < changed.len() && changed[i].name@ == name;
        assert(a[changed[i].name@] == changed[i].node.model());
        if i != at {
            assert(changed[i] == entries[i]);
            assert(children_model(entries)[entries[i].name@] == entries[i].node.model());
            if i < at {
                assert(entries[i].name@ != entries[at].name@);
            } else {
                assert(entries[at].name@ != entries[i].name@);
            }
        }
    }
    assert(a =~= b);
}

/// The index of the child with the given name, if there is one.
fn find(entries: &Vec<Entry>, name: &String) -> (found: Option<usize>)
    ensures
        match found {
            Some(i) => i < entries.len() && entries[i as int].name@ == name@,
            None => !has_name(entries@, name@),
        },
{
    let mut i: usize = 0;
    while i < entries.len()
        invariant
            i <= entries.len(),
            forall|j: int| 0 <= j < i ==> entries[j].name@ != name@,
        decreases entries.len() - i,
    {
        if entries[i].name == *name {
            return Some(i);
        }
        i += 1;
    }
    None
}

impl TreeNode {
    /// A directory without children.
    pub fn new() -> (root: TreeNode)
        ensures
            root.wf(),
            root.model() == empty_directory(),
    {
        let root = TreeNode::Directory(Vec::new());
        assert(children_model(Seq::<Entry>::empty()) =~= Map::<Seq<char>, TreeModel>::empty());
        root
    }
}

/// Puts a file under `name`, in place of whatever had that name.
fn put_file(entries: &mut Vec<Entry>, name: &String)
    requires
        sound(old(entries)@),
    ensures
        sound(final(entries)@),
        children_model(final(entries)@) == children_model(old(entries)@).insert(
            name@,
            TreeModel::File,
        ),
{
    let ghost before = entries@;
    let entry = Entry { name: name.clone(), node: TreeNode::File };
    match find(entries, name) {
        Some(i) => {
            proof {
                lemma_child_replaced(before, i as int, entry);
            }
            entries[i] = entry;
            assert forall|j: int| 0 <= j < entries.len() implies (#[trigger] entries[j]).node.wf() by {
                if j != i {
                    assert(entries[j] == before[j]);
                }
            }
        },
        None => {
            proof {
                lemma_child_added(before, entry);
            }
            entries.push(entry);
            assert forall|j: int| 0 <= j < entries.len() implies (#[trigger] entries[j]).node.wf() by {
                if j < before.len() {
                    assert(entries[j] == before[j]);
                }
            }
        },
    }
}

/// The index of the child under `name`, which is made as an empty directory
/// where there is none yet.
fn child_at(entries: &mut Vec<Entry>, name: &String) -> (at: usize)
    requires
        sound(old(entries)@),
    ensures
        sound(final(entries)@),
        at < final(entries).len(),
        final(entries)[at as int].name@ == name@,
        final(entries)[at as int].node.model() == if children_model(
            old(entries)@,
        ).dom().contains(name@) {
            children_model(old(entries)@)[name@]
        } else {
            empty_directory()
        },
        children_model(final(entries)@) == children_model(old(entries)@).insert(
            name@,
            final(entries)[at as int].node.model(),
        ),
{
    let ghost before = entries@;
    proof {
        lemma_children(before);
    }
    match find(entries, name) {
        Some(i) => {
            assert(children_model(before) =~= children_model(before).insert(
                name@,
                before[i as int].node.model(),
            ));
            i
        },
        None => {
            let entry = Entry { name: name.clone(), node: TreeNode::Directory(Vec::new()) };
            proof {
                assert(children_model(Seq::<Entry>::empty()) =~= Map::<
                    Seq<char>,
                    TreeModel,
                >::empty());
                assert(distinct_names(Seq::<Entry>::empty()));
                assert(entry.node.wf());
                lemma_child_added(before, entry);
            }
            entries.push(entry);
            assert forall|j: int| 0 <= j < entries.len() implies (#[trigger] entries[j]).node.wf() by {
                if j < before.len() {
                    assert(entries[j] == before[j]);
                }
            }
            entries.len() - 1
        },
    }
}

/// Adds the file with the path `components` to the tree.
pub fn insert_path(node: &mut TreeNode, components: &[String])
    requires
        old(node).wf(),
    ensures
        final(node).wf(),
        final(node).model() == with_path(old(node).model(), components.deep_view()),
    decreases components@.len(),
{
    if components.len() == 0 {
        return;
    }
    let ghost segments = components.deep_view();
    assert(segments[0] == components[0]@);
    match node {
        TreeNode::File => {},
        TreeNode::Directory(entries) => {
            if components.len() == 1 {
                put_file(entries, &components[0]);
            } else {
                let i = child_at(entries, &components[0]);
                let ghost middle = entries@;
                let rest = slice_subrange(components, 1, components.len());
                assert(rest.deep_view() =~= segments.skip(1));
                insert_path(&mut entries[i].node, rest);
                proof {
                    let entry = entries@[i as int];
                    assert(entries@ =~= middle.update(i as int, entry));
                    lemma_child_replaced(middle, i as int, entry);
                    assert forall|j: int| 0 <= j < entries.len() implies (
                    #[trigger] entries[j]).node.wf() by {
                        if j != i {
                            assert(entries[j] == middle[j]);
                        }
                    }
                    assert(children_model(middle).insert(segments[0], entry.node.model())
                        =~= children_model(old(node)->Directory_0@).insert(
                        segments[0],
                        entry.node.model(),
                    ));
                }
            }
        },
    }
}

/// A directory has finitely many children.
proof fn lemma_children_finite(entries: Seq<Entry>)
    requires
        distinct_names(entries),
    ensures
        children_model(entries).dom().finite(),
    decreases entries.len(),
{
    if entries.len() == 0 {
        assert(children_model(entries) =~= Map::<Seq<char>, TreeModel>::empty());
    } else {
        let front = entries.drop_last();
        let entry = entries.last();
        assert(distinct_names(front)) by {
            assert forall|i: int, j: int| 0 <= i < j < front.len() implies front[i].name@
                != front[j].name@ by {
                assert(entries[i].name@ != entries[j].name@);
            }
        }
        assert(!has_name(front, entry.name@)) by {
            if has_name(front, entry.name@) {
                let i = choose|i: int| 0 <= i < front.len() && front[i].name@ == entry.name@;
                assert(entries[i].name@ != entries[entries.len() - 1].name@);
            }
        }
        lemma_children_finite(front);
        lemma_child_added(front, entry);
        assert(front.push(entry) =~= entries);
    }
}

/// The names of the children, in the order in which they are kept.
fn names_of(entries: &Vec<Entry>) -> (names: Vec<String>)
    ensures
        names.len() == entries.len(),
        forall|i: int| 0 <= i < entries.len() ==> names[i]@ == entries[i].name@,
{
    let mut names: Vec<String> = Vec::new();
    let mut i: usize = 0;
    while i < entries.len()
        invariant
            i <= entries.len(),
            names.len() == i,
            forall|j: int| 0 <= j < i ==> names[j]@ == entries[j].name@,
        decreases entries.len() - i,
    {
        names.push(entries[i].name.clone());
        i += 1;
    }
    names
}

/// The names of the children in the order in which a directory is drawn.
fn names_in_order(entries: &Vec<Entry>) -> (names: Vec<String>)
    requires
        distinct_names(entries@),
    ensures
        names.deep_view() == sorted_listing(children_model(entries@).dom()),
{
    let kept = names_of(entries);
    let ghost listed = kept.deep_view();
    let ghost domain = children_model(entries@).dom();
    let names = sort_unique(kept);
    proof {
        lemma_children(entries@);
        assert forall|name: Seq<char>| listed.to_set().contains(name) <==> domain.contains(
            name,
        ) by {
            if listed.contains(name) {
                let i = choose|i: int| 0 <= i < listed.len() && listed[i] == name;
                assert(entries@[i].name@ == name);
            }
            if has_name(entries@, name) {
                let i = choose|i: int| 0 <= i < entries.len() && entries[i].name@ == name;
                assert(listed[i] == name);
            }
        }
        assert(listed.to_set() =~= domain);
        assert(lists_in_order(names.deep_view(), domain));
        lemma_listing_unique(names.deep_view(), sorted_listing(domain), domain);
    }
    names
}

/// The lines below a node, each behind the indentation `prefix`.
pub fn build_tree_string(node: &TreeNode, prefix: &str) -> (text: String)
    requires
        node.wf(),
    ensures
        text@ == tree_lines(node.model(), prefix@),
    decreases node,
{
    match node {
        TreeNode::File => String::new(),
        TreeNode::Directory(entries) => {
            let names = names_in_order(entries);
            let ghost children = children_model(entries@);
            let ghost listing = names.deep_view();
            proof {
                lemma_children(entries@);
                lemma_children_finite(entries@);
            }
            let mut text = String::new();
            let mut i: usize = 0;
            assert(listing.skip(0) =~= listing);
            while i < names.len()
                invariant
                    i <= names.len(),
                    *node == TreeNode::Directory(*entries),
                    node.wf(),
                    children == children_model(entries@),
                    children.dom().finite(),
                    listing == names.deep_view(),
                    forall|name: Seq<char>| children.dom().contains(name) <==> has_name(entries@, name),
                    forall|k: int|
                        0 <= k < entries.len() ==> children[(#[trigger] entries[k]).name@]
                            == entries[k].node.model(),
                    text@ + entry_lines(children, listing.skip(i as int), prefix@) == entry_lines(
                        children,
                        listing,
                        prefix@,
                    ),
                decreases names.len() - i,
            {
                let last = i + 1 == names.len();
                let ghost name = listing[i as int];
                let ghost so_far = text@;
                let ghost rest = listing.skip(i as int);
                assert(rest[0] == name && rest.len() == names.len() - i);
                assert(rest.skip(1) =~= listing.skip(i + 1));
                assert(name == names[i as int]@);
                text.append(prefix);
                text.append(if last { "└── " } else { "├── " });
                text.append(names[i].as_str());
                text.append("\n");
                assert(text@ =~= so_far + entry_line(prefix@, name, last));
                let ghost below: Seq<char>;
                match find(entries, &names[i]) {
                    Some(k) => {
                        let mut inner = String::from_str(prefix);
                        inner.append(if last { "    " } else { "│   " });
                        assert(inner@ =~= deeper(prefix@, last));
                        let lines = build_tree_string(&entries[k].node, inner.as_str());
                        text.append(lines.as_str());
                        proof {
                            below = lines@;
                            assert(children.dom().contains(name));
                            assert(children[entries[k as int].name@] == entries[k as int].node.model());
                        }
                    },
                    None => {
                        proof {
                            below = Seq::<char>::empty();
                            assert(!children.dom().contains(name));
                        }
                    },
                }
                proof {
                    assert(text@ =~= so_far + entry_line(prefix@, name, last) + below);
                    assert(entry_lines(children, rest, prefix@) == entry_line(prefix@, name, last)
                        + below + entry_lines(children, rest.skip(1), prefix@));
                    assert(text@ + entry_lines(children, listing.skip(i + 1), prefix@) =~= so_far
                        + entry_lines(children, rest, prefix@));
                }
                i += 1;
            }
            assert(listing.skip(names.len() as int) =~= Seq::<Seq<char>>::empty());
            assert(text@ =~= text@ + Seq::<char>::empty());
            text
        },
    }
}

/// Draws the tree.
pub fn render_tree(node: &TreeNode) -> (text: String)
    requires
        node.wf(),
    ensures
        text@ == tree_text(node.model()),
{
    let mut text = String::from_str(".\n");
    let lines = build_tree_string(node, "");
    assert(""@ =~= Seq::<char>::empty()) by {
        reveal_strlit("");
    }
    text.append(lines.as_str());
    text
}

/// Folds the files `paths` of the project at `base_path` into a tree.
pub fn build_tree(base_path: &str, paths: &[String]) -> (root: TreeNode)
    ensures
        root.wf(),
        root.model() == built_tree(base_path@, paths.deep_view()),
{
    let front = path_components(base_path);
    let ghost all = paths.deep_view();
    let mut root = TreeNode::new();
    let mut i: usize = 0;
    assert(all.take(0) =~= Seq::<Seq<char>>::empty());
    while i < paths.len()
        invariant
            i <= paths.len(),
            all == paths.deep_view(),
            front.deep_view() == components(base_path@),
            root.wf(),
            root.model() == built_tree(base_path@, all.take(i as int)),
        decreases paths.len() - i,
    {
        let segments = components_behind(&front, paths[i].as_str());
        proof {
            assert(all.take(i + 1).drop_last() =~= all.take(i as int));
            assert(all.take(i + 1).last() == paths[i as int]@);
        }
        insert_path(&mut root, segments.as_slice());
        i += 1;
    }
    assert(all.take(paths.len() as int) =~= all);
    root
}

/// Draws the tree of the files `paths` of the project at `base_path`.
pub fn generate_project_tree(base_path: &str, paths: &[String]) -> (text: String)
    ensures
        text@ == tree_text(built_tree(base_path@, paths.deep_view())),
{
    let root = build_tree(base_path, paths);
    render_tree(&root)
}

/// Drawing a tree twice gives the same text, and so does drawing two trees
/// that differ only in the order in which their children are kept.
pub proof fn lemma_drawing_repeats(one: TreeNode, other: TreeNode, first: Seq<char>, second: Seq<char>)
    requires
        one.model() == other.model(),
        first == tree_text(one.model()),
        second == tree_text(other.model()),
    ensures
        first == second,
{
}

/// The children of a directory are drawn in increasing order of their names,
/// each once: its lines are those of the sorted listing of the names.
pub proof fn lemma_children_drawn_in_order(children: Map<Seq<char>, TreeModel>, prefix: Seq<char>)
    requires
        children.dom().finite(),
    ensures
        lists_in_order(sorted_listing(children.dom()), children.dom()),
        tree_lines(TreeModel::Directory(children), prefix) == entry_lines(
            children,
            sorted_listing(children.dom()),
            prefix,
        ),
{
    lemma_sorted_listing(children.dom());
}

/// Of the children that a directory lists, the last alone is drawn with the
/// closing connector; below each child stand the lines of its own tree, and
/// then the other children follow.
pub proof fn lemma_last_child_closes(
    children: Map<Seq<char>, TreeModel>,
    names: Seq<Seq<char>>,
    prefix: Seq<char>,
)
    requires
        children.dom().finite(),
        names.len() > 0,
        children.dom().contains(names[0]),
    ensures
        entry_lines(children, names, prefix) == entry_line(prefix, names[0], names.len() == 1)
            + tree_lines(children[names[0]], deeper(prefix, names.len() == 1)) + entry_lines(
            children,
            names.skip(1),
            prefix,
        ),
{
}

} // verus!
