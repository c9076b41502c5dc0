//! Laws of the walk: what holds of every snapshot and of the table after
//! every walk.

use crate::classified::{node_outline, outline, Outline};
use crate::entry::{classify, ItemType, ItemView};
use crate::listing::{FsNode, Listing};
use crate::room::{listed_bytes, node_listed_bytes};
use crate::table::{
    added_all, lemma_added_all_size, lemma_sum_for_concat, lemma_sum_for_push, size_at, sum_for,
    Adds, Sizes,
};
use crate::walk::{
    adds, adds_of, file_bytes, items_of, lemma_file_bytes_concat, lemma_file_bytes_one,
    lemma_walk_concat, snapshot, tree_adds, tree_items,
};
use vstd::prelude::*;

verus! {

/// The record of a listed directory, where it stands and what it says: in
/// the snapshot of a run of classified entries, the record of a directory
/// that was listed comes right after the records of the entries before it,
/// carries the sum of the sizes of the files in the snapshot of its own
/// entries, and is followed by that snapshot and then by the records of the
/// entries after it.
pub proof fn lemma_listed_directory(before: Seq<Outline>, tree: Outline, after: Seq<Outline>)
    requires
        tree.outcome is Ok,
        tree.outcome->Ok_0.f_type == ItemType::DIR,
        tree.below is Some,
    ensures
        snapshot(before.push(tree) + after) == snapshot(before) + (seq![
            ItemView { size: file_bytes(snapshot(tree.below->Some_0)), ..tree.outcome->Ok_0 },
        ] + snapshot(tree.below->Some_0)) + snapshot(after),
{
    lemma_walk_concat(Seq::empty(), before.push(tree), after);
    assert(before.push(tree).drop_last() =~= before);
    assert(before.push(tree).last() == tree);
    assert(snapshot(before.push(tree)) == snapshot(before) + tree_items(tree));
    let below = snapshot(tree.below->Some_0);
    let own = ItemView { size: file_bytes(below), ..tree.outcome->Ok_0 };
    assert(tree_items(tree) == seq![own] + below);
}

/// The same of a listing: the record of a directory that can be classified
/// and listed stands between the records of the entries before it and those
/// of the entries after it, carries the sum of the sizes of all files
/// beneath it, and is followed by the records of everything beneath it.
/// What the listing reports as the directory's own length is not counted.
pub proof fn lemma_directory_record(
    before: Seq<FsNode>,
    node: FsNode,
    after: Seq<FsNode>,
    windows: bool,
)
    requires
        node.entry.is_dir,
        node.listing is Entries,
        classify(node.entry, windows) is Ok,
    ensures
        items_of(before.push(node) + after, windows) == items_of(before, windows) + (seq![
            ItemView {
                size: file_bytes(items_of(node.listing->Entries_0@, windows)),
                ..classify(node.entry, windows)->Ok_0
            },
        ] + items_of(node.listing->Entries_0@, windows)) + items_of(after, windows),
{
    let tree = node_outline(node, windows);
    lemma_outline_concat(before.push(node), after, windows);
    assert(before.push(node).drop_last() =~= before);
    assert(before.push(node).last() == node);
    assert(outline(before.push(node), windows) == outline(before, windows).push(tree));
    lemma_listed_directory(outline(before, windows), tree, outline(after, windows));
}

/// Whether everything in and beneath `nodes` can be read: every entry can
/// be classified and every directory listed.
pub open spec fn all_readable(nodes: Seq<FsNode>, windows: bool) -> bool
    decreases nodes, 0nat,
{
    nodes.len() == 0 || (all_readable(nodes.drop_last(), windows) && node_readable(
        nodes.last(),
        windows,
    ))
}

/// Whether the entry can be classified and, where it is a directory, can
/// be listed and everything beneath it read.
pub open spec fn node_readable(node: FsNode, windows: bool) -> bool
    decreases node, 1nat,
{
    classify(node.entry, windows) is Ok && (node.entry.is_dir ==> match node.listing {
        Listing::Entries(children) => all_readable(children@, windows),
        _ => false,
    })
}

/// In a tree that can be read throughout, the files of the snapshot weigh
/// what the listing reports of its files: the sum of the lengths of all
/// files listed in and beneath the entries. The lengths reported of the
/// directories themselves are not in it.
pub proof fn lemma_readable_tree_bytes(nodes: Seq<FsNode>, windows: bool)
    requires
        all_readable(nodes, windows),
    ensures
        file_bytes(items_of(nodes, windows)) == listed_bytes(nodes),
    decreases nodes, 0nat,
{
    if nodes.len() > 0 {
        let front = nodes.drop_last();
        let node = nodes.last();
        lemma_readable_tree_bytes(front, windows);
        lemma_readable_node_bytes(node, windows);
        assert(outline(nodes, windows).drop_last() =~= outline(front, windows));
        lemma_file_bytes_concat(
            snapshot(outline(front, windows)),
            tree_items(node_outline(node, windows)),
        );
    }
}

proof fn lemma_readable_node_bytes(node: FsNode, windows: bool)
    requires
        node_readable(node, windows),
    ensures
        file_bytes(tree_items(node_outline(node, windows))) == node_listed_bytes(node),
    decreases node, 1nat,
{
    let item = classify(node.entry, windows)->Ok_0;
    if node.entry.is_dir {
        match node.listing {
            Listing::Entries(children) => {
                lemma_readable_tree_bytes(children@, windows);
                let below = snapshot(outline(children@, windows));
                let own = seq![ItemView { size: file_bytes(below), ..item }];
                lemma_file_bytes_concat(own, below);
                lemma_file_bytes_one(own[0]);
            },
            _ => {},
        }
    } else {
        lemma_file_bytes_one(item);
    }
}

/// In a tree that can be read throughout, the record of a directory says
/// the sum of the lengths of all files listed beneath the directory, at
/// whatever depth, and nothing else.
pub proof fn lemma_readable_directory_size(
    before: Seq<FsNode>,
    node: FsNode,
    after: Seq<FsNode>,
    windows: bool,
)
    requires
        node.entry.is_dir,
        node_readable(node, windows),
    ensures
        node.listing is Entries,
        items_of(before.push(node) + after, windows)[items_of(before, windows).len() as int]
            == (ItemView {
            size: listed_bytes(node.listing->Entries_0@),
            ..classify(node.entry, windows)->Ok_0
        }),
{
    lemma_directory_record(before, node, after, windows);
    lemma_readable_tree_bytes(node.listing->Entries_0@, windows);
}

/// Every directory record of a snapshot is sized by records that follow
/// it: right behind the record at `i` stands a run of records whose file
/// sizes add up to its size.
pub proof fn lemma_directory_sizes(trees: Seq<Outline>, i: int)
    requires
        0 <= i < snapshot(trees).len(),
        snapshot(trees)[i].f_type == ItemType::DIR,
    ensures
        exists|end: int|
            i < end <= snapshot(trees).len() && snapshot(trees)[i].size == file_bytes(
                #[trigger] snapshot(trees).subrange(i + 1, end),
            ),
    decreases trees, 0nat,
{
    let items = snapshot(trees);
    let front = trees.drop_last();
    let a = snapshot(front);
    let b = tree_items(trees.last());
    if i < a.len() {
        lemma_directory_sizes(front, i);
        let end = choose|end: int|
            i < end <= a.len() && a[i].size == file_bytes(#[trigger] a.subrange(i + 1, end));
        assert(items.subrange(i + 1, end) =~= a.subrange(i + 1, end));
    } else {
        let j = i - a.len();
        lemma_tree_directory_sizes(trees.last(), j);
        let end = choose|end: int|
            j < end <= b.len() && b[j].size == file_bytes(#[trigger] b.subrange(j + 1, end));
        assert(items.subrange(i + 1, a.len() + end) =~= b.subrange(j + 1, end));
    }
}

proof fn lemma_tree_directory_sizes(tree: Outline, j: int)
    requires
        0 <= j < tree_items(tree).len(),
        tree_items(tree)[j].f_type == ItemType::DIR,
    ensures
        exists|end: int|
            j < end <= tree_items(tree).len() && tree_items(tree)[j].size == file_bytes(
                #[trigger] tree_items(tree).subrange(j + 1, end),
            ),
    decreases tree, 1nat,
{
    let b = tree_items(tree);
    match tree.below {
        Some(children) => {
            let below = snapshot(children);
            if j == 0 {
                assert(b.subrange(1, b.len() as int) =~= below);
            } else {
                lemma_directory_sizes(children, j - 1);
                let end = choose|end: int|
                    j - 1 < end <= below.len() && below[j - 1].size == file_bytes(
                        #[trigger] below.subrange(j, end),
                    );
                assert(b.subrange(j + 1, end + 1) =~= below.subrange(j, end));
            }
        },
        None => {},
    }
}

/// The classified tree of a listing in two parts is that of the first
/// part, then that of the second.
pub proof fn lemma_outline_concat(a: Seq<FsNode>, b: Seq<FsNode>, windows: bool)
    ensures
        outline(a + b, windows) == outline(a, windows) + outline(b, windows),
    decreases b.len(),
{
    if b.len() == 0 {
        assert(a + b =~= a);
        assert(outline(a, windows) + Seq::<Outline>::empty() =~= outline(a, windows));
    } else {
        lemma_outline_concat(a, b.drop_last(), windows);
        assert((a + b).drop_last() =~= a + b.drop_last());
        assert((a + b).last() == b.last());
        assert(outline(a + b, windows) =~= outline(a, windows) + outline(b, windows));
    }
}

proof fn lemma_walk_without(
    dir: Seq<char>,
    before: Seq<FsNode>,
    node: FsNode,
    after: Seq<FsNode>,
    windows: bool,
)
    requires
        tree_items(node_outline(node, windows)) == Seq::<ItemView>::empty(),
        tree_adds(dir, node_outline(node, windows)) == Adds::empty(),
    ensures
        items_of(before.push(node) + after, windows) == items_of(before + after, windows),
        adds_of(dir, before.push(node) + after, windows) == adds_of(dir, before + after, windows),
{
    let first = outline(before, windows);
    let rest = outline(after, windows);
    let mid = outline(before.push(node), windows);
    lemma_outline_concat(before.push(node), after, windows);
    lemma_outline_concat(before, after, windows);
    assert(before.push(node).drop_last() =~= before);
    assert(before.push(node).last() == node);
    assert(mid == first.push(node_outline(node, windows)));
    assert(mid.drop_last() =~= first);
    assert(snapshot(mid) == snapshot(first) + tree_items(node_outline(node, windows)));
    assert(adds(dir, mid) == adds(dir, first) + tree_adds(dir, node_outline(node, windows)));
    lemma_walk_concat(dir, mid, rest);
    lemma_walk_concat(dir, first, rest);
    assert(snapshot(first) + Seq::<ItemView>::empty() =~= snapshot(first));
    assert(adds(dir, first) + Adds::empty() =~= adds(dir, first));
}

/// A directory that cannot be listed contributes nothing, and its siblings
/// give what they give without it: the snapshot and the table are those of
/// the listing with that entry left out.
pub proof fn lemma_unlisted_subtree(
    dir: Seq<char>,
    before: Seq<FsNode>,
    node: FsNode,
    after: Seq<FsNode>,
    windows: bool,
)
    requires
        node.entry.is_dir,
        !(node.listing is Entries),
    ensures
        tree_items(node_outline(node, windows)) == Seq::<ItemView>::empty(),
        tree_adds(dir, node_outline(node, windows)) == Adds::empty(),
        items_of(before.push(node) + after, windows) == items_of(before + after, windows),
        adds_of(dir, before.push(node) + after, windows) == adds_of(dir, before + after, windows),
{
    assert(tree_items(node_outline(node, windows)) =~= Seq::<ItemView>::empty());
    assert(tree_adds(dir, node_outline(node, windows)) =~= Adds::empty());
    lemma_walk_without(dir, before, node, after, windows);
}

/// An entry that cannot be classified is dropped with all that lies beneath
/// it, and the walk goes on with its siblings.
pub proof fn lemma_unclassified_entry(
    dir: Seq<char>,
    before: Seq<FsNode>,
    node: FsNode,
    after: Seq<FsNode>,
    windows: bool,
)
    requires
        classify(node.entry, windows) is Err,
    ensures
        items_of(before.push(node) + after, windows) == items_of(before + after, windows),
        adds_of(dir, before.push(node) + after, windows) == adds_of(dir, before + after, windows),
{
    assert(tree_items(node_outline(node, windows)) =~= Seq::<ItemView>::empty());
    assert(tree_adds(dir, node_outline(node, windows)) =~= Adds::empty());
    lemma_walk_without(dir, before, node, after, windows);
}

/// Sum of the sizes of the directory records among `items` that go by
/// `path`.
pub open spec fn dir_bytes_at(items: Seq<ItemView>, path: Seq<char>) -> nat
    decreases items.len(),
{
    if items.len() == 0 {
        0
    } else {
        dir_bytes_at(items.drop_last(), path) + if items.last().f_type == ItemType::DIR
            && items.last().abs_path == path {
            items.last().size
        } else {
            0
        }
    }
}

proof fn lemma_dir_bytes_concat(a: Seq<ItemView>, b: Seq<ItemView>, path: Seq<char>)
    ensures
        dir_bytes_at(a + b, path) == dir_bytes_at(a, path) + dir_bytes_at(b, path),
    decreases b.len(),
{
    if b.len() == 0 {
        assert(a + b =~= a);
    } else {
        lemma_dir_bytes_concat(a, b.drop_last(), path);
        assert((a + b).drop_last() =~= a + b.drop_last());
    }
}

proof fn lemma_dir_bytes_one(item: ItemView, path: Seq<char>)
    ensures
        dir_bytes_at(seq![item], path) == if item.f_type == ItemType::DIR && item.abs_path == path {
            item.size
        } else {
            0
        },
{
    reveal_with_fuel(dir_bytes_at, 2);
    assert(seq![item].drop_last() =~= Seq::<ItemView>::empty());
}

proof fn lemma_dir_bytes_none(items: Seq<ItemView>, path: Seq<char>)
    requires
        forall|j: int|
            0 <= j < items.len() && (#[trigger] items[j]).f_type == ItemType::DIR
                ==> items[j].abs_path != path,
    ensures
        dir_bytes_at(items, path) == 0,
    decreases items.len(),
{
    if items.len() > 0 {
        let front = items.drop_last();
        assert forall|j: int|
            0 <= j < front.len() && (#[trigger] front[j]).f_type
                == ItemType::DIR implies front[j].abs_path != path by {
            assert(front[j] == items[j]);
        }
        lemma_dir_bytes_none(front, path);
        assert(items[items.len() - 1] == items.last());
    }
}

proof fn lemma_dir_bytes_only(items: Seq<ItemView>, i: int)
    requires
        0 <= i < items.len(),
        items[i].f_type == ItemType::DIR,
        forall|j: int|
            0 <= j < items.len() && j != i && (#[trigger] items[j]).f_type == ItemType::DIR
                ==> items[j].abs_path != items[i].abs_path,
    ensures
        dir_bytes_at(items, items[i].abs_path) == items[i].size,
    decreases items.len(),
{
    let path = items[i].abs_path;
    let front = items.drop_last();
    if i == items.len() - 1 {
        assert forall|j: int|
            0 <= j < front.len() && (#[trigger] front[j]).f_type
                == ItemType::DIR implies front[j].abs_path != path by {
            assert(front[j] == items[j]);
        }
        lemma_dir_bytes_none(front, path);
    } else {
        assert(front[i] == items[i]);
        assert forall|j: int|
            0 <= j < front.len() && j != i && (#[trigger] front[j]).f_type
                == ItemType::DIR implies front[j].abs_path != front[i].abs_path by {
            assert(front[j] == items[j]);
        }
        lemma_dir_bytes_only(front, i);
        assert(items[items.len() - 1] == items.last());
    }
}

/// What a walk adds for a path is what its snapshot says of that path:
/// the sizes of the directory records that go by it, and, where the path
/// is that of the walked directory itself, the sizes of all files.
pub proof fn lemma_adds_match_snapshot(dir: Seq<char>, trees: Seq<Outline>, path: Seq<char>)
    ensures
        sum_for(adds(dir, trees), path) == dir_bytes_at(snapshot(trees), path) + if path == dir {
            file_bytes(snapshot(trees))
        } else {
            0
        },
    decreases trees, 0nat,
{
    if trees.len() > 0 {
        let front = trees.drop_last();
        let tree = trees.last();
        lemma_adds_match_snapshot(dir, front, path);
        lemma_tree_adds_match_snapshot(dir, tree, path);
        lemma_sum_for_concat(adds(dir, front), tree_adds(dir, tree), path);
        lemma_file_bytes_concat(snapshot(front), tree_items(tree));
        lemma_dir_bytes_concat(snapshot(front), tree_items(tree), path);
    }
}

proof fn lemma_tree_adds_match_snapshot(dir: Seq<char>, tree: Outline, path: Seq<char>)
    ensures
        sum_for(tree_adds(dir, tree), path) == dir_bytes_at(tree_items(tree), path) + if path
            == dir {
            file_bytes(tree_items(tree))
        } else {
            0
        },
    decreases tree, 1nat,
{
    match tree.outcome {
        Err(_) => {},
        Ok(item) => {
            if item.f_type == ItemType::DIR {
                match tree.below {
                    Some(children) => {
                        let below = snapshot(children);
                        lemma_adds_match_snapshot(item.abs_path, children, path);
                        lemma_sum_for_push(
                            adds(item.abs_path, children),
                            dir,
                            file_bytes(below),
                            path,
                        );
                        let own = seq![ItemView { size: file_bytes(below), ..item }];
                        lemma_file_bytes_concat(own, below);
                        lemma_file_bytes_one(own[0]);
                        lemma_dir_bytes_concat(own, below, path);
                        lemma_dir_bytes_one(own[0], path);
                    },
                    None => {},
                }
            } else {
                lemma_sum_for_push(Seq::empty(), dir, item.size, path);
                assert(Adds::empty().push((dir, item.size)) =~= seq![
                    (dir, item.size),
                ]);
                lemma_file_bytes_one(item);
                lemma_dir_bytes_one(item, path);
            }
        },
    }
}

/// After a completed walk the table holds for the walked directory what it
/// held before plus the sizes of all files beneath it, provided that no
/// directory beneath it goes by the same path.
pub proof fn lemma_root_size(sizes: Sizes, dir: Seq<char>, trees: Seq<Outline>)
    requires
        forall|j: int|
            0 <= j < snapshot(trees).len() && (#[trigger] snapshot(trees)[j]).f_type
                == ItemType::DIR ==> snapshot(trees)[j].abs_path != dir,
    ensures
        size_at(added_all(sizes, adds(dir, trees)), dir) == size_at(sizes, dir) + file_bytes(
            snapshot(trees),
        ),
{
    lemma_adds_match_snapshot(dir, trees, dir);
    lemma_dir_bytes_none(snapshot(trees), dir);
    lemma_added_all_size(sizes, adds(dir, trees), dir);
}

/// After a completed walk the table holds for a directory of the snapshot
/// what it held before plus the size in the directory's record, provided
/// that no other directory, the walked one included, goes by its path.
pub proof fn lemma_directory_in_table(sizes: Sizes, dir: Seq<char>, trees: Seq<Outline>, i: int)
    requires
        0 <= i < snapshot(trees).len(),
        snapshot(trees)[i].f_type == ItemType::DIR,
        snapshot(trees)[i].abs_path != dir,
        forall|j: int|
            0 <= j < snapshot(trees).len() && j != i && (#[trigger] snapshot(trees)[j]).f_type
                == ItemType::DIR ==> snapshot(trees)[j].abs_path != snapshot(trees)[i].abs_path,
    ensures
        size_at(added_all(sizes, adds(dir, trees)), snapshot(trees)[i].abs_path) == size_at(
            sizes,
            snapshot(trees)[i].abs_path,
        ) + snapshot(trees)[i].size,
{
    let items = snapshot(trees);
    let path = items[i].abs_path;
    lemma_adds_match_snapshot(dir, trees, path);
    lemma_dir_bytes_only(items, i);
    lemma_added_all_size(sizes, adds(dir, trees), path);
}

} // verus!
