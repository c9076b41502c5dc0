//! Room in the table: how much a walk can add at most, and the test that
//! a table can take it.

use crate::classified::{
    lemma_outlines_len, lemma_outlines_step, node_outline, outline, outline_of, outlines_of,
    Classified, Outline,
};
use crate::entry::{classify, ItemType, ItemView, RawEntry};
use crate::listing::{FsNode, Listing};
use crate::paths::formatted;
use crate::table::{
    has_room, lemma_room_above_peak, lemma_sum_for_concat, lemma_sum_for_push, peak_of,
    lemma_weight_concat, sum_for, weight, Adds, AggregationTable, Sizes,
};
use crate::walk::{
    adds, file_bytes, lemma_file_bytes_concat, lemma_file_bytes_one, snapshot, tree_adds,
    tree_items,
};
use vstd::std_specs::vec::axiom_vec_index_decreases;
use vstd::prelude::*;

verus! {

/// The length that a listing reports for an entry, zero where its metadata
/// could not be read.
pub open spec fn listed_len(entry: RawEntry) -> nat {
    match entry.metadata {
        Ok(meta) => meta.len as nat,
        Err(_) => 0,
    }
}

/// Sum of the reported lengths of all files listed in and beneath `nodes`.
pub open spec fn listed_bytes(nodes: Seq<FsNode>) -> nat
    decreases nodes, 0nat,
{
    if nodes.len() == 0 {
        0
    } else {
        listed_bytes(nodes.drop_last()) + node_listed_bytes(nodes.last())
    }
}

/// Sum of the reported lengths of the files listed at and beneath `node`.
pub open spec fn node_listed_bytes(node: FsNode) -> nat
    decreases node, 1nat,
{
    if node.entry.is_dir {
        match node.listing {
            Listing::Entries(children) => listed_bytes(children@),
            _ => 0,
        }
    } else {
        listed_len(node.entry)
    }
}

/// The most that the entries `nodes` of the directory `dir` can add to the
/// table: what they add where every listed entry can be classified.
pub open spec fn listed_adds(dir: Seq<char>, nodes: Seq<FsNode>, windows: bool) -> Adds
    decreases nodes, 0nat,
{
    if nodes.len() == 0 {
        Seq::empty()
    } else {
        listed_adds(dir, nodes.drop_last(), windows) + node_listed_adds(dir, nodes.last(), windows)
    }
}

/// The most that one entry of the directory `dir` can add to the table.
pub open spec fn node_listed_adds(dir: Seq<char>, node: FsNode, windows: bool) -> Adds
    decreases node, 1nat,
{
    if node.entry.is_dir {
        match node.listing {
            Listing::Entries(children) => listed_adds(
                formatted(node.entry.path@, windows),
                children@,
                windows,
            ).push((dir, listed_bytes(children@))),
            _ => Seq::empty(),
        }
    } else {
        seq![(dir, listed_len(node.entry))]
    }
}

/// Sum of everything that the entries `nodes` can add to the table, to
/// whichever path: every listed file counts once for each listed directory
/// it lies in or beneath.
pub open spec fn listed_weight(nodes: Seq<FsNode>) -> nat
    decreases nodes, 0nat,
{
    if nodes.len() == 0 {
        0
    } else {
        listed_weight(nodes.drop_last()) + node_listed_weight(nodes.last())
    }
}

/// Sum of everything that one entry can add to the table.
pub open spec fn node_listed_weight(node: FsNode) -> nat
    decreases node, 1nat,
{
    if node.entry.is_dir {
        match node.listing {
            Listing::Entries(children) => listed_weight(children@) + listed_bytes(children@),
            _ => 0,
        }
    } else {
        listed_len(node.entry)
    }
}

/// Whether the sizes have room for all that a walk of `listing`, listed
/// for the directory `dir`, can add to them. A walk that fails at the root
/// adds nothing.
pub open spec fn room_for_walk(
    sizes: Sizes,
    dir: Seq<char>,
    listing: Listing,
    windows: bool,
) -> bool {
    match listing {
        Listing::Entries(nodes) => has_room(sizes, listed_adds(dir, nodes@, windows)),
        _ => true,
    }
}

/// Whether the largest of the sizes leaves free all that a walk of
/// `listing` can add, to whichever path. A walk that fails at the root adds
/// nothing.
pub open spec fn leaves_free(sizes: Sizes, listing: Listing) -> bool {
    match listing {
        Listing::Entries(nodes) => peak_of(sizes) + listed_weight(nodes@) <= u128::MAX,
        _ => true,
    }
}

/// What a walk adds for a path is within what its listing can add for it,
/// and the files of its snapshot are within the files listed.
pub proof fn lemma_within_listed(dir: Seq<char>, nodes: Seq<FsNode>, windows: bool, k: Seq<char>)
    ensures
        sum_for(adds(dir, outline(nodes, windows)), k) <= sum_for(
            listed_adds(dir, nodes, windows),
            k,
        ),
        file_bytes(snapshot(outline(nodes, windows))) <= listed_bytes(nodes),
    decreases nodes, 0nat,
{
    if nodes.len() > 0 {
        let front = nodes.drop_last();
        let node = nodes.last();
        lemma_within_listed(dir, front, windows, k);
        lemma_node_within_listed(dir, node, windows, k);
        assert(outline(nodes, windows).drop_last() =~= outline(front, windows));
        lemma_sum_for_concat(
            adds(dir, outline(front, windows)),
            tree_adds(dir, node_outline(node, windows)),
            k,
        );
        lemma_sum_for_concat(
            listed_adds(dir, front, windows),
            node_listed_adds(dir, node, windows),
            k,
        );
        lemma_file_bytes_concat(
            snapshot(outline(front, windows)),
            tree_items(node_outline(node, windows)),
        );
    }
}

proof fn lemma_node_within_listed(dir: Seq<char>, node: FsNode, windows: bool, k: Seq<char>)
    ensures
        sum_for(tree_adds(dir, node_outline(node, windows)), k) <= sum_for(
            node_listed_adds(dir, node, windows),
            k,
        ),
        file_bytes(tree_items(node_outline(node, windows))) <= node_listed_bytes(node),
    decreases node, 1nat,
{
    match classify(node.entry, windows) {
        Err(_) => {},
        Ok(item) => {
            if node.entry.is_dir {
                match node.listing {
                    Listing::Entries(children) => {
                        let sub = formatted(node.entry.path@, windows);
                        lemma_within_listed(sub, children@, windows, k);
                        let kids = outline(children@, windows);
                        let below = snapshot(kids);
                        lemma_sum_for_push(
                            listed_adds(sub, children@, windows),
                            dir,
                            listed_bytes(children@),
                            k,
                        );
                        lemma_sum_for_push(adds(sub, kids), dir, file_bytes(below), k);
                        let own = seq![ItemView { size: file_bytes(below), ..item }];
                        lemma_file_bytes_concat(own, below);
                        lemma_file_bytes_one(own[0]);
                    },
                    _ => {},
                }
            } else {
                lemma_sum_for_push(Seq::empty(), dir, item.size, k);
                assert(Adds::empty().push((dir, item.size)) =~= seq![
                    (dir, item.size),
                ]);
                lemma_file_bytes_one(item);
            }
        },
    }
}

/// `listed_weight` is the sum of the contributions `listed_adds`, and the
/// listed bytes are within it.
pub proof fn lemma_listed_weight(dir: Seq<char>, nodes: Seq<FsNode>, windows: bool)
    ensures
        weight(listed_adds(dir, nodes, windows)) == listed_weight(nodes),
        listed_bytes(nodes) <= listed_weight(nodes),
    decreases nodes, 0nat,
{
    if nodes.len() > 0 {
        let front = nodes.drop_last();
        let node = nodes.last();
        lemma_listed_weight(dir, front, windows);
        lemma_node_listed_weight(dir, node, windows);
        lemma_weight_concat(listed_adds(dir, front, windows), node_listed_adds(dir, node, windows));
    }
}

proof fn lemma_node_listed_weight(dir: Seq<char>, node: FsNode, windows: bool)
    ensures
        weight(node_listed_adds(dir, node, windows)) == node_listed_weight(node),
        node_listed_bytes(node) <= node_listed_weight(node),
    decreases node, 1nat,
{
    if node.entry.is_dir {
        match node.listing {
            Listing::Entries(children) => {
                let sub = formatted(node.entry.path@, windows);
                lemma_listed_weight(sub, children@, windows);
                let below = listed_adds(sub, children@, windows);
                assert(below.push((dir, listed_bytes(children@))).drop_last() =~= below);
            },
            _ => {},
        }
    } else {
        reveal_with_fuel(weight, 2);
        assert(seq![(dir, listed_len(node.entry))].drop_last() =~= Adds::empty());
    }
}

proof fn lemma_listed_weight_step(nodes: Seq<FsNode>, i: int)
    requires
        0 <= i < nodes.len(),
    ensures
        listed_weight(nodes.take(i + 1)) == listed_weight(nodes.take(i)) + node_listed_weight(
            nodes[i],
        ),
        listed_bytes(nodes.take(i + 1)) == listed_bytes(nodes.take(i)) + node_listed_bytes(
            nodes[i],
        ),
        listed_weight(nodes.take(i + 1)) <= listed_weight(nodes),
    decreases nodes.len() - i,
{
    assert(nodes.take(i + 1).drop_last() =~= nodes.take(i));
    assert(nodes.take(i + 1).last() == nodes[i]);
    if i + 1 < nodes.len() {
        lemma_listed_weight_step(nodes, i + 1);
    } else {
        assert(nodes.take(i + 1) =~= nodes);
    }
}

/// Measures a listing: the bytes of the files listed in and beneath
/// `nodes` and the sum of all that they can add to the table. `None` where
/// that sum passes the largest 128-bit number.
fn measure(nodes: &Vec<FsNode>) -> (res: Option<(u128, u128)>)
    ensures
        match res {
            Some((bytes, sum)) => {
                &&& bytes as nat == listed_bytes(nodes@)
                &&& sum as nat == listed_weight(nodes@)
            },
            None => listed_weight(nodes@) > u128::MAX,
        },
    decreases nodes,
{
    let mut bytes: u128 = 0;
    let mut sum: u128 = 0;
    let mut i: usize = 0;
    assert(nodes@.take(0) =~= Seq::<FsNode>::empty());
    while i < nodes.len()
        invariant
            i <= nodes.len(),
            bytes as nat == listed_bytes(nodes@.take(i as int)),
            sum as nat == listed_weight(nodes@.take(i as int)),
            bytes <= sum,
        decreases nodes.len() - i,
    {
        let node = &nodes[i];
        proof {
            lemma_listed_weight_step(nodes@, i as int);
        }
        let (more_bytes, more): (u128, u128) = if node.entry.is_dir {
            match &node.listing {
                Listing::Entries(children) => {
                    match measure(children) {
                        Some((below, below_sum)) => {
                            if below_sum > u128::MAX - below {
                                return None;
                            }
                            (below, below_sum + below)
                        },
                        None => {
                            return None;
                        },
                    }
                },
                _ => (0, 0),
            }
        } else {
            match &node.entry.metadata {
                Ok(meta) => (meta.len as u128, meta.len as u128),
                Err(_) => (0, 0),
            }
        };
        if more > u128::MAX - sum {
            return None;
        }
        sum = sum + more;
        bytes = bytes + more_bytes;
        i = i + 1;
    }
    assert(nodes@.take(i as int) =~= nodes@);
    Some((bytes, sum))
}

/// Tests whether a walk of `listing` may start on `dir_sizes`: whether the
/// walk would fail at the root, or the largest size in the table leaves
/// free all that the listing can add. Where that is so, the table has room
/// for the walk, whatever the root is called. A table without entries
/// passes for every listing whose bytes fit; a listing without entries
/// passes on every table.
pub fn has_room_for(dir_sizes: &AggregationTable, listing: &Listing) -> (res: bool)
    ensures
        res == leaves_free(dir_sizes@, *listing),
        res ==> forall|dir: Seq<char>, windows: bool| #[trigger]
            room_for_walk(dir_sizes@, dir, *listing, windows),
{
    match listing {
        Listing::Entries(nodes) => {
            let peak = dir_sizes.largest();
            match measure(nodes) {
                Some((_, sum)) => {
                    if sum > u128::MAX - peak {
                        return false;
                    }
                    proof {
                        assert forall|dir: Seq<char>, windows: bool| #[trigger]
                            room_for_walk(dir_sizes@, dir, *listing, windows) by {
                            lemma_listed_weight(dir, nodes@, windows);
                            lemma_room_above_peak(
                                dir_sizes@,
                                peak as nat,
                                listed_adds(dir, nodes@, windows),
                            );
                        }
                    }
                    true
                },
                None => false,
            }
        },
        _ => true,
    }
}

/// Sum of everything that the walk of the classified entries `trees` adds
/// to the table, to whichever path: every file of the snapshot counts once
/// for each directory of the tree that it lies in or beneath.
pub open spec fn added_weight(trees: Seq<Outline>) -> nat
    decreases trees, 0nat,
{
    if trees.len() == 0 {
        0
    } else {
        added_weight(trees.drop_last()) + tree_added_weight(trees.last())
    }
}

/// Sum of everything that the walk of one classified entry adds to the
/// table.
pub open spec fn tree_added_weight(tree: Outline) -> nat
    decreases tree, 1nat,
{
    match tree.outcome {
        Err(_) => 0,
        Ok(item) => if item.f_type == ItemType::DIR {
            match tree.below {
                Some(children) => added_weight(children) + file_bytes(snapshot(children)),
                None => 0,
            }
        } else {
            item.size
        },
    }
}

/// `added_weight` is the sum of the contributions `adds`, and the files of
/// the snapshot are within it.
pub proof fn lemma_added_weight(dir: Seq<char>, trees: Seq<Outline>)
    ensures
        weight(adds(dir, trees)) == added_weight(trees),
        file_bytes(snapshot(trees)) <= added_weight(trees),
    decreases trees, 0nat,
{
    if trees.len() > 0 {
        let front = trees.drop_last();
        let tree = trees.last();
        lemma_added_weight(dir, front);
        lemma_tree_added_weight(dir, tree);
        lemma_weight_concat(adds(dir, front), tree_adds(dir, tree));
        lemma_file_bytes_concat(snapshot(front), tree_items(tree));
    }
}

proof fn lemma_tree_added_weight(dir: Seq<char>, tree: Outline)
    ensures
        weight(tree_adds(dir, tree)) == tree_added_weight(tree),
        file_bytes(tree_items(tree)) <= tree_added_weight(tree),
    decreases tree, 1nat,
{
    match tree.outcome {
        Err(_) => {},
        Ok(item) => {
            if item.f_type == ItemType::DIR {
                match tree.below {
                    Some(children) => {
                        lemma_added_weight(item.abs_path, children);
                        let below = snapshot(children);
                        let below_adds = adds(item.abs_path, children);
                        assert(below_adds.push((dir, file_bytes(below))).drop_last() =~= below_adds);
                        let own = seq![ItemView { size: file_bytes(below), ..item }];
                        lemma_file_bytes_concat(own, below);
                        lemma_file_bytes_one(own[0]);
                    },
                    None => {},
                }
            } else {
                reveal_with_fuel(weight, 2);
                assert(seq![(dir, item.size)].drop_last() =~= Adds::empty());
                lemma_file_bytes_one(item);
            }
        },
    }
}

proof fn lemma_added_weight_step(trees: Seq<Outline>, i: int)
    requires
        0 <= i < trees.len(),
    ensures
        added_weight(trees.take(i + 1)) == added_weight(trees.take(i)) + tree_added_weight(
            trees[i],
        ),
        snapshot(trees.take(i + 1)) == snapshot(trees.take(i)) + tree_items(trees[i]),
        added_weight(trees.take(i + 1)) <= added_weight(trees),
    decreases trees.len() - i,
{
    assert(trees.take(i + 1).drop_last() =~= trees.take(i));
    assert(trees.take(i + 1).last() == trees[i]);
    if i + 1 < trees.len() {
        lemma_added_weight_step(trees, i + 1);
    } else {
        assert(trees.take(i + 1) =~= trees);
    }
}

/// Weighs a classified tree: the bytes of the files of its snapshot and
/// the sum of all that its walk adds to the table. `None` where that sum
/// passes the largest 128-bit number.
fn weigh(trees: &Vec<Classified>) -> (res: Option<(u128, u128)>)
    ensures
        match res {
            Some((bytes, sum)) => {
                &&& bytes as nat == file_bytes(snapshot(outlines_of(trees@)))
                &&& sum as nat == added_weight(outlines_of(trees@))
            },
            None => added_weight(outlines_of(trees@)) > u128::MAX,
        },
    decreases trees,
{
    let ghost shapes = outlines_of(trees@);
    let mut bytes: u128 = 0;
    let mut sum: u128 = 0;
    let mut i: usize = 0;
    proof {
        assert(shapes.take(0) =~= Seq::<Outline>::empty());
        lemma_outlines_len(trees@);
    }
    while i < trees.len()
        invariant
            i <= trees.len(),
            shapes == outlines_of(trees@),
            shapes.len() == trees@.len(),
            bytes as nat == file_bytes(snapshot(shapes.take(i as int))),
            sum as nat == added_weight(shapes.take(i as int)),
            bytes <= sum,
        decreases trees.len() - i,
    {
        let tree = &trees[i];
        proof {
            lemma_outlines_step(trees@, i as int);
            lemma_added_weight_step(shapes, i as int);
            lemma_file_bytes_concat(snapshot(shapes.take(i as int)), tree_items(shapes[i as int]));
            lemma_tree_added_weight(Seq::empty(), shapes[i as int]);
            axiom_vec_index_decreases(*trees, i as int);
        }
        let (more_bytes, more): (u128, u128) = match &tree.outcome {
            Err(_) => (0, 0),
            Ok(item) => {
                if item.f_type() == ItemType::DIR {
                    match &tree.below {
                        Some(children) => {
                            match weigh(children) {
                                Some((below, below_sum)) => {
                                    if below_sum > u128::MAX - below {
                                        return None;
                                    }
                                    proof {
                                        let kids = outlines_of(children@);
                                        let own = ItemView { size: below as nat, ..item@ };
                                        lemma_file_bytes_concat(seq![own], snapshot(kids));
                                        lemma_file_bytes_one(own);
                                    }
                                    (below, below_sum + below)
                                },
                                None => {
                                    return None;
                                },
                            }
                        },
                        None => (0, 0),
                    }
                } else {
                    proof {
                        lemma_file_bytes_one(item@);
                    }
                    (item.get_size(), item.get_size())
                }
            },
        };
        if more > u128::MAX - sum {
            return None;
        }
        sum = sum + more;
        bytes = bytes + more_bytes;
        i = i + 1;
    }
    assert(shapes.take(i as int) =~= shapes);
    Some((bytes, sum))
}

/// Tests whether the walk of a classified tree may start on `dir_sizes`:
/// whether the largest size in the table leaves free all that the walk
/// adds. Where that is so, the table has room for the walk, whatever the
/// walked directory is called.
pub fn has_room_for_tree(dir_sizes: &AggregationTable, trees: &Vec<Classified>) -> (res: bool)
    ensures
        res == (peak_of(dir_sizes@) + added_weight(outlines_of(trees@)) <= u128::MAX),
        res ==> forall|dir: Seq<char>|
            has_room(dir_sizes@, #[trigger] adds(dir, outlines_of(trees@))),
{
    let peak = dir_sizes.largest();
    match weigh(trees) {
        Some((_, sum)) => {
            if sum > u128::MAX - peak {
                return false;
            }
            proof {
                assert forall|dir: Seq<char>|
                    has_room(dir_sizes@, #[trigger] adds(dir, outlines_of(trees@))) by {
                    lemma_added_weight(dir, outlines_of(trees@));
                    lemma_room_above_peak(dir_sizes@, peak as nat, adds(dir, outlines_of(trees@)));
                }
            }
            true
        },
        None => false,
    }
}

} // verus!
