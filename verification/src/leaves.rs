//! How the files of a tree answer to the paths it was built from.

use crate::path::{relative_segments, starts_with};
use crate::tree::{built_tree, empty_directory, node_at, with_path, TreeModel};
use vstd::prelude::*;

verus! {

/// Whether the path `segments` leads to a file of the tree.
pub open spec fn is_file_at(tree: TreeModel, segments: Seq<Seq<char>>) -> bool {
    node_at(tree, segments) == Some(TreeModel::File)
}

/// Whether the path `segments` leads to a directory of the tree.
pub open spec fn is_directory_at(tree: TreeModel, segments: Seq<Seq<char>>) -> bool {
    node_at(tree, segments) matches Some(TreeModel::Directory(_))
}

/// The segments of each of the files `paths` as seen from `base`.
pub open spec fn segments_of(base: Seq<char>, paths: Seq<Seq<char>>) -> Seq<Seq<Seq<char>>> {
    Seq::new(paths.len(), |i: int| relative_segments(base, paths[i]))
}

/// What holds of the files of one directory tree on disk: every file has at
/// least one segment, and no file lies below another file.
pub open spec fn free_of_clashes(lists: Seq<Seq<Seq<char>>>) -> bool {
    &&& forall|i: int| 0 <= i < lists.len() ==> (#[trigger] lists[i]).len() > 0
    &&& forall|i: int, j: int|
        #![trigger lists[i], lists[j]]
        0 <= i < lists.len() && 0 <= j < lists.len() && starts_with(lists[j], lists[i])
            ==> lists[j] == lists[i]
}

/// The tree that grows from the empty directory as the files `lists` are
/// added one after the other.
pub open spec fn grown(lists: Seq<Seq<Seq<char>>>) -> TreeModel
    decreases lists.len(),
{
    if lists.len() == 0 {
        empty_directory()
    } else {
        with_path(grown(lists.drop_last()), lists.last())
    }
}

/// No path but the empty one leads anywhere in the empty directory.
proof fn lemma_nothing_in_empty_directory(segments: Seq<Seq<char>>)
    requires
        segments.len() > 0,
    ensures
        node_at(empty_directory(), segments) is None,
{
}

/// What one added file changes. Where no file stands on the way to it: the
/// file stands at its path, directories stand at the paths above it, nothing
/// stands below it, and every path that leaves its way leads where it led
/// before.
proof fn lemma_with_path(tree: TreeModel, added: Seq<Seq<char>>, asked: Seq<Seq<char>>)
    requires
        tree is Directory,
        added.len() > 0,
        forall|j: int| 0 < j < added.len() ==> !is_file_at(tree, #[trigger] added.take(j)),
    ensures
        with_path(tree, added) is Directory,
        asked == added ==> is_file_at(with_path(tree, added), asked),
        asked.len() < added.len() && starts_with(added, asked) ==> is_directory_at(
            with_path(tree, added),
            asked,
        ),
        asked.len() > added.len() && starts_with(asked, added) ==> node_at(
            with_path(tree, added),
            asked,
        ) is None,
        !starts_with(added, asked) && !starts_with(asked, added) ==> node_at(
            with_path(tree, added),
            asked,
        ) == node_at(tree, asked),
    decreases added.len(),
{
    let children = tree->Directory_0;
    let name = added[0];
    let after = with_path(tree, added);
    if asked.len() == 0 {
        assert(starts_with(added, asked)) by {
            assert(added.take(0) =~= asked);
        }
    } else if asked[0] != name {
        assert(!starts_with(added, asked)) by {
            if starts_with(added, asked) {
                assert(added.take(asked.len() as int)[0] == asked[0]);
            }
        }
        assert(!starts_with(asked, added)) by {
            if starts_with(asked, added) {
                assert(asked.take(added.len() as int)[0] == added[0]);
            }
        }
    } else if added.len() == 1 {
        assert(starts_with(asked, added)) by {
            assert(asked.take(1) =~= added);
        }
        let tail = asked.skip(1);
        assert(node_at(after, asked) == node_at(TreeModel::File, tail));
        if asked.len() == 1 {
            assert(asked =~= added);
            assert(node_at(TreeModel::File, tail) == Some(TreeModel::File));
        } else {
            assert(node_at(TreeModel::File, tail) is None);
        }
    } else {
        let child = if children.dom().contains(name) {
            children[name]
        } else {
            empty_directory()
        };
        let rest = added.skip(1);
        let tail = asked.skip(1);
        assert(child is Directory) by {
            if children.dom().contains(name) {
                assert(added.take(1).skip(1) =~= Seq::<Seq<char>>::empty());
                assert(added.take(1)[0] == name);
                assert(node_at(child, added.take(1).skip(1)) == Some(child));
                assert(node_at(tree, added.take(1)) == Some(child));
                assert(!is_file_at(tree, added.take(1)));
            }
        }
        assert forall|j: int| 0 < j < rest.len() implies !is_file_at(
            child,
            #[trigger] rest.take(j),
        ) by {
            if children.dom().contains(name) {
                assert(added.take(j + 1).skip(1) =~= rest.take(j));
                assert(added.take(j + 1)[0] == name);
                assert(node_at(tree, added.take(j + 1)) == node_at(child, rest.take(j)));
                assert(!is_file_at(tree, added.take(j + 1)));
            } else {
                lemma_nothing_in_empty_directory(rest.take(j));
            }
        }
        lemma_with_path(child, rest, tail);
        assert(node_at(after, asked) == node_at(with_path(child, rest), tail));
        assert((asked == added) <==> (tail == rest)) by {
            if tail == rest {
                assert(asked =~= seq![name] + tail);
                assert(added =~= seq![name] + rest);
            }
        }
        assert(starts_with(added, asked) <==> starts_with(rest, tail)) by {
            if starts_with(added, asked) {
                assert(rest.take(tail.len() as int) =~= added.take(asked.len() as int).skip(1));
            }
            if starts_with(rest, tail) {
                assert(added.take(asked.len() as int) =~= seq![name] + rest.take(
                    tail.len() as int,
                ));
                assert(asked =~= seq![name] + tail);
            }
        }
        assert(starts_with(asked, added) <==> starts_with(tail, rest)) by {
            if starts_with(asked, added) {
                assert(tail.take(rest.len() as int) =~= asked.take(added.len() as int).skip(1));
            }
            if starts_with(tail, rest) {
                assert(asked.take(added.len() as int) =~= seq![name] + tail.take(
                    rest.len() as int,
                ));
                assert(added =~= seq![name] + rest);
            }
        }
        if !starts_with(added, asked) && !starts_with(asked, added) {
            if children.dom().contains(name) {
                assert(node_at(tree, asked) == node_at(child, tail));
            } else {
                assert(tail.len() > 0) by {
                    if tail.len() == 0 {
                        assert(rest.take(0) =~= tail);
                    }
                }
                lemma_nothing_in_empty_directory(tail);
            }
        }
    }
}

/// In the tree grown from files that are free of clashes, the paths that lead
/// to a file are the paths of those files.
pub proof fn lemma_grown_files(lists: Seq<Seq<Seq<char>>>)
    requires
        free_of_clashes(lists),
    ensures
        grown(lists) is Directory,
        forall|asked: Seq<Seq<char>>| is_file_at(grown(lists), asked) <==> lists.contains(asked),
    decreases lists.len(),
{
    if lists.len() == 0 {
        assert forall|asked: Seq<Seq<char>>| !is_file_at(grown(lists), asked) by {
            if asked.len() > 0 {
                lemma_nothing_in_empty_directory(asked);
            }
        }
    } else {
        let front = lists.drop_last();
        let added = lists.last();
        let before = grown(front);
        assert(free_of_clashes(front)) by {
            assert forall|i: int| 0 <= i < front.len() implies (#[trigger] front[i]).len() > 0 by {
                assert(front[i] == lists[i]);
            }
            assert forall|i: int, j: int|
                0 <= i < front.len() && 0 <= j < front.len() && starts_with(
                    #[trigger] front[j],
                    #[trigger] front[i],
                ) implies front[j] == front[i] by {
                assert(front[i] == lists[i] && front[j] == lists[j]);
            }
        }
        lemma_grown_files(front);
        let n = lists.len() - 1;
        assert(lists[n] == added);
        assert forall|j: int| 0 < j < added.len() implies !is_file_at(
            before,
            #[trigger] added.take(j),
        ) by {
            if is_file_at(before, added.take(j)) {
                assert(front.contains(added.take(j)));
                let i = choose|i: int| 0 <= i < front.len() && front[i] == added.take(j);
                assert(lists[i] == added.take(j));
                assert(starts_with(lists[n], lists[i]));
                assert(added.take(j).len() == j);
            }
        }
        assert forall|asked: Seq<Seq<char>>| is_file_at(grown(lists), asked) <==> lists.contains(
            asked,
        ) by {
            lemma_with_path(before, added, asked);
            assert(added.take(added.len() as int) =~= added);
            assert(asked.take(asked.len() as int) =~= asked);
            if front.contains(asked) {
                let i = choose|i: int| 0 <= i < front.len() && front[i] == asked;
                assert(lists[i] == asked);
            }
            if lists.contains(asked) {
                let i = choose|i: int| 0 <= i < lists.len() && lists[i] == asked;
                if i < n {
                    assert(front[i] == asked);
                    if starts_with(added, asked) {
                        assert(starts_with(lists[n], lists[i]));
                    }
                    if starts_with(asked, added) {
                        assert(starts_with(lists[i], lists[n]));
                    }
                }
            }
            if asked == added {
                assert(lists[n] == asked);
            }
        }
        lemma_with_path(before, added, added);
    }
}

/// The tree of a project is the tree grown from the segments of its files.
proof fn lemma_built_is_grown(base: Seq<char>, paths: Seq<Seq<char>>)
    ensures
        built_tree(base, paths) == grown(segments_of(base, paths)),
    decreases paths.len(),
{
    if paths.len() > 0 {
        lemma_built_is_grown(base, paths.drop_last());
        assert(segments_of(base, paths).drop_last() =~= segments_of(base, paths.drop_last()));
    }
}

/// Every file of the list stands in the tree as a file, at the place that its
/// path as seen from the root names, and the tree holds no other file: the
/// files of the tree are the files of the list, one for one. This holds of
/// lists that are free of clashes, as the files of a directory on disk are.
pub proof fn lemma_files_are_the_leaves(base: Seq<char>, paths: Seq<Seq<char>>)
    requires
        free_of_clashes(segments_of(base, paths)),
    ensures
        forall|i: int|
            0 <= i < paths.len() ==> is_file_at(
                built_tree(base, paths),
                #[trigger] relative_segments(base, paths[i]),
            ),
        forall|asked: Seq<Seq<char>>|
            is_file_at(built_tree(base, paths), asked) ==> exists|i: int|
                0 <= i < paths.len() && #[trigger] relative_segments(base, paths[i]) == asked,
{
    let lists = segments_of(base, paths);
    lemma_built_is_grown(base, paths);
    lemma_grown_files(lists);
    assert forall|i: int| 0 <= i < paths.len() implies is_file_at(
        built_tree(base, paths),
        #[trigger] relative_segments(base, paths[i]),
    ) by {
        assert(lists[i] == relative_segments(base, paths[i]));
        assert(lists.contains(lists[i]));
    }
    assert forall|asked: Seq<Seq<char>>| is_file_at(built_tree(base, paths), asked) implies exists|
        i: int,
    |
        0 <= i < paths.len() && #[trigger] relative_segments(base, paths[i]) == asked by {
        assert(lists.contains(asked));
        let i = choose|i: int| 0 <= i < lists.len() && lists[i] == asked;
        assert(relative_segments(base, paths[i]) == asked);
    }
}

} // verus!
