//! The tree walker: from the listing of a directory tree to a snapshot and
//! to the sizes of its directories.

use crate::classified::{
    classify_tree, lemma_outlines_len, lemma_outlines_step, outline, outline_of, outlines_of,
    Classified, Outline,
};
use crate::entry::{views, ItemFS, ItemType, ItemView};
use crate::listing::{FsNode, Listing};
use crate::paths::{format_path, formatted};
use crate::room::{has_room_for, leaves_free, lemma_within_listed, room_for_walk};
use crate::table::{
    added_all, has_room, lemma_added_all_concat, lemma_added_all_push, lemma_added_all_size,
    lemma_sum_for_concat, lemma_sum_for_push, size_at, sum_for, Adds, AggregationTable, Sizes,
};
use vstd::prelude::*;
use vstd::std_specs::vec::axiom_vec_index_decreases;
use vstd::string::StringExecFns;

verus! {

/// Why a walk produced no snapshot.
#[derive(Debug)]
pub enum WalkError {
    /// The root is missing or is no directory.
    InvalidRoot,
    /// The root could not be opened for listing; the text says why.
    DirectoryUnreadable(String),
    /// The root's own metadata or one of its entries could not be read; the
    /// text says why.
    MetadataError(String),
}

/// Text of the error for a root that is missing or no directory.
pub const INVALID_PATH: &'static str = "Invalid path";

/// What the text of the error for an unreadable root begins with.
pub const UNREADABLE_PREFIX: &'static str = "Failed to read directory: ";

/// The text of a walk error.
pub open spec fn walk_error_text(error: WalkError) -> Seq<char> {
    match error {
        WalkError::InvalidRoot => INVALID_PATH@,
        WalkError::DirectoryUnreadable(why) => UNREADABLE_PREFIX@ + why@,
        WalkError::MetadataError(why) => why@,
    }
}

impl WalkError {
    /// The error as a text for the user.
    pub fn to_string(&self) -> (res: String)
        ensures
            res@ == walk_error_text(*self),
    {
        match self {
            WalkError::InvalidRoot => String::from_str(INVALID_PATH),
            WalkError::DirectoryUnreadable(why) => {
                let mut text = String::from_str(UNREADABLE_PREFIX);
                text.append(why.as_str());
                text
            },
            WalkError::MetadataError(why) => why.clone(),
        }
    }
}

/// Sum of the sizes of the files among `items`; directories do not count.
pub open spec fn file_bytes(items: Seq<ItemView>) -> nat
    decreases items.len(),
{
    if items.len() == 0 {
        0
    } else {
        file_bytes(items.drop_last()) + if items.last().f_type == ItemType::FILE {
            items.last().size
        } else {
            0
        }
    }
}

/// The records that the classified entries `trees` of one directory put
/// into the snapshot, in their order.
pub open spec fn snapshot(trees: Seq<Outline>) -> Seq<ItemView>
    decreases trees, 0nat,
{
    if trees.len() == 0 {
        Seq::empty()
    } else {
        snapshot(trees.drop_last()) + tree_items(trees.last())
    }
}

/// The records that one classified entry puts into the snapshot. A file
/// gives its own record. A directory that was listed gives its record,
/// sized by the files beneath it, and then the records of its entries. An
/// entry that could not be classified and a directory that could not be
/// listed give nothing.
pub open spec fn tree_items(tree: Outline) -> Seq<ItemView>
    decreases tree, 1nat,
{
    match tree.outcome {
        Err(_) => Seq::empty(),
        Ok(item) => if item.f_type == ItemType::DIR {
            match tree.below {
                Some(children) => {
                    let below = snapshot(children);
                    seq![ItemView { size: file_bytes(below), ..item }] + below
                },
                None => Seq::empty(),
            }
        } else {
            seq![item]
        },
    }
}

/// What the classified entries `trees` of the directory `dir` add to the
/// table, in order: every record put into the snapshot adds its size to
/// `dir`, after what the entries beneath it added to their own directories.
pub open spec fn adds(dir: Seq<char>, trees: Seq<Outline>) -> Adds
    decreases trees, 0nat,
{
    if trees.len() == 0 {
        Seq::empty()
    } else {
        adds(dir, trees.drop_last()) + tree_adds(dir, trees.last())
    }
}

/// What one classified entry of the directory `dir` adds to the table.
pub open spec fn tree_adds(dir: Seq<char>, tree: Outline) -> Adds
    decreases tree, 1nat,
{
    match tree.outcome {
        Err(_) => Seq::empty(),
        Ok(item) => if item.f_type == ItemType::DIR {
            match tree.below {
                Some(children) => adds(item.abs_path, children).push(
                    (dir, file_bytes(snapshot(children))),
                ),
                None => Seq::empty(),
            }
        } else {
            seq![(dir, item.size)]
        },
    }
}

/// The snapshot of the listed entries `nodes`: that of their classified
/// tree.
pub open spec fn items_of(nodes: Seq<FsNode>, windows: bool) -> Seq<ItemView> {
    snapshot(outline(nodes, windows))
}

/// What the walk of the listed entries `nodes` of the directory `dir` adds
/// to the table: what their classified tree adds.
pub open spec fn adds_of(dir: Seq<char>, nodes: Seq<FsNode>, windows: bool) -> Adds {
    adds(dir, outline(nodes, windows))
}

/// The file bytes of two runs of records are the sum of both.
pub proof fn lemma_file_bytes_concat(a: Seq<ItemView>, b: Seq<ItemView>)
    ensures
        file_bytes(a + b) == file_bytes(a) + file_bytes(b),
    decreases b.len(),
{
    if b.len() == 0 {
        assert(a + b =~= a);
    } else {
        lemma_file_bytes_concat(a, b.drop_last());
        assert((a + b).drop_last() =~= a + b.drop_last());
    }
}

/// The file bytes of one record: its size where it is a file.
pub proof fn lemma_file_bytes_one(item: ItemView)
    ensures
        file_bytes(seq![item]) == if item.f_type == ItemType::FILE {
            item.size
        } else {
            0
        },
{
    reveal_with_fuel(file_bytes, 2);
    assert(seq![item].drop_last() =~= Seq::<ItemView>::empty());
}

/// The classified entries are handled one after the other: what a run of
/// them in two parts gives is what the first part gives, then the second.
pub proof fn lemma_walk_concat(dir: Seq<char>, a: Seq<Outline>, b: Seq<Outline>)
    ensures
        snapshot(a + b) == snapshot(a) + snapshot(b),
        adds(dir, a + b) == adds(dir, a) + adds(dir, b),
    decreases b.len(),
{
    if b.len() == 0 {
        assert(a + b =~= a);
        assert(snapshot(a) + Seq::<ItemView>::empty() =~= snapshot(a));
        assert(adds(dir, a) + Adds::empty() =~= adds(dir, a));
    } else {
        lemma_walk_concat(dir, a, b.drop_last());
        assert((a + b).drop_last() =~= a + b.drop_last());
        assert((a + b).last() == b.last());
        assert(snapshot(a + b) =~= snapshot(a) + snapshot(b));
        assert(adds(dir, a + b) =~= adds(dir, a) + adds(dir, b));
    }
}

proof fn lemma_walk_step(dir: Seq<char>, trees: Seq<Outline>, i: int)
    requires
        0 <= i < trees.len(),
    ensures
        snapshot(trees.take(i + 1)) == snapshot(trees.take(i)) + tree_items(trees[i]),
        adds(dir, trees.take(i + 1)) == adds(dir, trees.take(i)) + tree_adds(dir, trees[i]),
        forall|k: Seq<char>|
            sum_for(adds(dir, trees.take(i + 1)), k) <= #[trigger] sum_for(adds(dir, trees), k),
{
    assert(trees.take(i + 1).drop_last() =~= trees.take(i));
    assert(trees.take(i + 1).last() == trees[i]);
    assert(trees.take(i + 1) + trees.skip(i + 1) =~= trees);
    lemma_walk_concat(dir, trees.take(i + 1), trees.skip(i + 1));
    assert forall|k: Seq<char>|
        sum_for(adds(dir, trees.take(i + 1)), k) <= #[trigger] sum_for(adds(dir, trees), k) by {
        lemma_sum_for_concat(adds(dir, trees.take(i + 1)), adds(dir, trees.skip(i + 1)), k);
    }
}

/// The files of a listing count, all of them, for the directory that the
/// listing is of.
pub proof fn lemma_bytes_within_adds(dir: Seq<char>, trees: Seq<Outline>)
    ensures
        file_bytes(snapshot(trees)) <= sum_for(adds(dir, trees), dir),
    decreases trees, 0nat,
{
    if trees.len() > 0 {
        let front = trees.drop_last();
        let tree = trees.last();
        lemma_bytes_within_adds(dir, front);
        lemma_tree_bytes_within_adds(dir, tree);
        lemma_sum_for_concat(adds(dir, front), tree_adds(dir, tree), dir);
        lemma_file_bytes_concat(snapshot(front), tree_items(tree));
    }
}

proof fn lemma_tree_bytes_within_adds(dir: Seq<char>, tree: Outline)
    ensures
        file_bytes(tree_items(tree)) <= sum_for(tree_adds(dir, tree), dir),
    decreases tree, 1nat,
{
    match tree.outcome {
        Err(_) => {},
        Ok(item) => {
            if item.f_type == ItemType::DIR {
                match tree.below {
                    Some(children) => {
                        let below = snapshot(children);
                        lemma_sum_for_push(
                            adds(item.abs_path, children),
                            dir,
                            file_bytes(below),
                            dir,
                        );
                        let own = seq![ItemView { size: file_bytes(below), ..item }];
                        lemma_file_bytes_concat(own, below);
                        lemma_file_bytes_one(own[0]);
                    },
                    None => {},
                }
            } else {
                lemma_sum_for_push(Seq::empty(), dir, item.size, dir);
                assert(Adds::empty().push((dir, item.size)) =~= seq![
                    (dir, item.size),
                ]);
                lemma_file_bytes_one(item);
            }
        },
    }
}

/// Walks a classified tree: the entries `trees` of the directory whose
/// formatted path is `dir`. Returns the snapshot, one record for every
/// classified entry, each directory before what lies beneath it and sized
/// by the files beneath it, and with it the sum of the sizes of all its
/// files. Every record adds its size to the table entry of the directory
/// it is listed in. An entry that could not be classified and a directory
/// that could not be listed leave nothing, neither in the snapshot nor in
/// the table.
///
/// The table must have room for what the walk adds.
pub fn walk_tree(dir: &str, trees: Vec<Classified>, dir_sizes: &mut AggregationTable) -> (res: (
    Vec<ItemFS>,
    u128,
))
    requires
        has_room(old(dir_sizes)@, adds(dir@, outlines_of(trees@))),
    ensures
        views(res.0@) == snapshot(outlines_of(trees@)),
        res.0@.len() == snapshot(outlines_of(trees@)).len(),
        res.1 as nat == file_bytes(snapshot(outlines_of(trees@))),
        final(dir_sizes)@ == added_all(old(dir_sizes)@, adds(dir@, outlines_of(trees@))),
    decreases trees,
{
    let ghost all = trees@;
    let ghost shapes = outlines_of(all);
    let ghost before = dir_sizes@;
    let mut out: Vec<ItemFS> = Vec::new();
    let mut total: u128 = 0;
    proof {
        assert(shapes.take(0) =~= Seq::<Outline>::empty());
        assert(views(out@) =~= Seq::<ItemView>::empty());
        lemma_outlines_len(all);
    }
    for tree in it: trees.into_iter()
        invariant
            it.seq() == all,
            all == trees@,
            shapes == outlines_of(all),
            shapes.len() == all.len(),
            has_room(before, adds(dir@, shapes)),
            views(out@) == snapshot(shapes.take(it.index() as int)),
            total as nat == file_bytes(snapshot(shapes.take(it.index() as int))),
            dir_sizes@ == added_all(before, adds(dir@, shapes.take(it.index() as int))),
    {
        let ghost i = it.index() as int;
        let ghost done = shapes.take(i);
        let ghost items_done = snapshot(done);
        let ghost adds_done = adds(dir@, done);
        let ghost shape = shapes[i];
        proof {
            lemma_outlines_step(all, i);
            assert(shape == outline_of(tree));
            lemma_walk_step(dir@, shapes, i);
            lemma_bytes_within_adds(dir@, shapes.take(i + 1));
            assert forall|k: Seq<char>|
                size_at(dir_sizes@, k) == size_at(before, k) + #[trigger] sum_for(adds_done, k) by {
                lemma_added_all_size(before, adds_done, k);
            }
            assert forall|k: Seq<char>|
                size_at(before, k) + #[trigger] sum_for(adds(dir@, shapes.take(i + 1)), k)
                    <= u128::MAX by {
                assert(sum_for(adds(dir@, shapes.take(i + 1)), k) <= sum_for(
                    adds(dir@, shapes),
                    k,
                ));
                assert(size_at(before, k) + sum_for(adds(dir@, shapes), k) <= u128::MAX);
            }
            lemma_file_bytes_concat(items_done, tree_items(shape));
            axiom_vec_index_decreases(trees, i);
        }
        match tree.outcome {
            Err(_) => {
                proof {
                    assert(items_done + Seq::<ItemView>::empty() =~= items_done);
                    assert(adds_done + Adds::empty() =~= adds_done);
                }
            },
            Ok(item) => {
                if item.f_type() == ItemType::DIR {
                    match tree.below {
                        Some(children) => {
                            let ghost sub = item@.abs_path;
                            let ghost kids = outlines_of(children@);
                            let ghost sub_adds = adds(sub, kids);
                            proof {
                                assert forall|k: Seq<char>|
                                    size_at(dir_sizes@, k) + #[trigger] sum_for(sub_adds, k)
                                        <= u128::MAX by {
                                    lemma_sum_for_concat(adds_done, tree_adds(dir@, shape), k);
                                    lemma_sum_for_push(
                                        sub_adds,
                                        dir@,
                                        file_bytes(snapshot(kids)),
                                        k,
                                    );
                                    assert(size_at(before, k) + sum_for(
                                        adds(dir@, shapes.take(i + 1)),
                                        k,
                                    ) <= u128::MAX);
                                }
                            }
                            let (mut below, bytes) = walk_tree(
                                item.abs_path().as_str(),
                                children,
                                dir_sizes,
                            );
                            proof {
                                let k = dir@;
                                lemma_added_all_concat(before, adds_done, sub_adds);
                                lemma_added_all_size(before, adds_done + sub_adds, k);
                                lemma_sum_for_concat(adds_done, sub_adds, k);
                                lemma_sum_for_concat(adds_done, tree_adds(dir@, shape), k);
                                lemma_sum_for_push(sub_adds, dir@, bytes as nat, k);
                                assert(size_at(before, k) + sum_for(
                                    adds(dir@, shapes.take(i + 1)),
                                    k,
                                ) <= u128::MAX);
                                let own = ItemView { size: bytes as nat, ..item@ };
                                lemma_file_bytes_concat(seq![own], snapshot(kids));
                                lemma_file_bytes_one(own);
                                assert(file_bytes(tree_items(shape)) == bytes);
                            }
                            dir_sizes.add(dir, bytes);
                            total = total + bytes;
                            let ghost own = ItemView { size: bytes as nat, ..item@ };
                            out.push(item.with_size(bytes));
                            out.append(&mut below);
                            proof {
                                let below_items = snapshot(kids);
                                assert(views(out@) =~= items_done + (seq![own] + below_items));
                                let added_here = (dir@, bytes as nat);
                                lemma_added_all_push(before, adds_done + sub_adds, dir@, bytes as nat);
                                assert(adds_done + sub_adds.push(added_here) =~= (adds_done
                                    + sub_adds).push(added_here));
                            }
                        },
                        None => {
                            proof {
                                assert(items_done + Seq::<ItemView>::empty() =~= items_done);
                                assert(adds_done + Adds::empty() =~= adds_done);
                            }
                        },
                    }
                } else {
                    let size = item.get_size();
                    proof {
                        let k = dir@;
                        lemma_sum_for_concat(adds_done, tree_adds(dir@, shape), k);
                        lemma_sum_for_push(Seq::empty(), dir@, size as nat, k);
                        assert(Adds::empty().push((dir@, size as nat)) =~= seq![
                            (dir@, size as nat),
                        ]);
                        assert(size_at(before, k) + sum_for(adds(dir@, shapes.take(i + 1)), k)
                            <= u128::MAX);
                        lemma_file_bytes_one(item@);
                    }
                    dir_sizes.add(dir, size);
                    total = total + size;
                    let ghost own = item@;
                    out.push(item);
                    proof {
                        assert(views(out@) =~= items_done + seq![own]);
                        lemma_added_all_push(before, adds_done, dir@, size as nat);
                        assert(adds_done + seq![(dir@, size as nat)] =~= adds_done.push(
                            (dir@, size as nat),
                        ));
                    }
                }
            },
        }
    }
    assert(shapes.take(shapes.len() as int) =~= shapes);
    (out, total)
}

/// Whether `res` and the sizes `after` are what the walk of the tree
/// listed for `path` gives on the sizes `before`: the snapshot and the
/// sizes with all that the walk adds, or the error of the root with the
/// sizes as they were.
pub open spec fn is_walk_outcome(
    res: Result<Vec<ItemFS>, WalkError>,
    path: Seq<char>,
    listing: Listing,
    windows: bool,
    before: Sizes,
    after: Sizes,
) -> bool {
    match res {
        Ok(items) => {
            &&& listing matches Listing::Entries(nodes)
            &&& views(items@) == items_of(nodes@, windows)
            &&& items@.len() == items_of(nodes@, windows).len()
            &&& after == added_all(before, adds_of(formatted(path, windows), nodes@, windows))
        },
        Err(WalkError::InvalidRoot) => {
            &&& listing is Missing || listing is NotDirectory
            &&& after == before
        },
        Err(WalkError::DirectoryUnreadable(why)) => {
            &&& listing matches Listing::Unreadable(text)
            &&& why@ == text@
            &&& after == before
        },
        Err(WalkError::MetadataError(why)) => {
            &&& listing matches Listing::MetadataUnreadable(text)
            &&& why@ == text@
            &&& after == before
        },
    }
}

/// Walks the tree listed for `path` and returns its snapshot: one record
/// for every entry that can be classified, each directory before what lies
/// beneath it, entries in the order of their listing. A directory's record
/// carries the sum of the sizes of all files beneath it. Every record adds
/// its size to the table entry of the directory it is listed in. A
/// directory that cannot be listed and an entry that cannot be classified
/// leave nothing, neither in the snapshot nor in the table.
///
/// The walk fails, and leaves the table as it was, where the root is missing
/// or no directory (`InvalidRoot`), cannot be opened for listing
/// (`DirectoryUnreadable`), or its metadata or one of its entries cannot be
/// read (`MetadataError`). Beneath the root the same failures are absorbed.
///
/// The table must have room for all that the listing can add, so that no
/// accumulator passes the largest 128-bit number; `has_room_for` tests it,
/// and `scan_if_room` walks only where the test passes.
pub fn scan_file_system(
    path: &str,
    listing: &Listing,
    windows: bool,
    dir_sizes: &mut AggregationTable,
) -> (res: Result<Vec<ItemFS>, WalkError>)
    requires
        room_for_walk(old(dir_sizes)@, formatted(path@, windows), *listing, windows),
    ensures
        is_walk_outcome(res, path@, *listing, windows, old(dir_sizes)@, final(dir_sizes)@),
{
    match listing {
        Listing::Missing => Err(WalkError::InvalidRoot),
        Listing::NotDirectory => Err(WalkError::InvalidRoot),
        Listing::Unreadable(text) => Err(WalkError::DirectoryUnreadable(text.clone())),
        Listing::MetadataUnreadable(text) => Err(WalkError::MetadataError(text.clone())),
        Listing::Entries(nodes) => {
            let dir = format_path(path, windows);
            let trees = classify_tree(nodes, windows);
            proof {
                assert forall|k: Seq<char>|
                    size_at(dir_sizes@, k) + #[trigger] sum_for(
                        adds(dir@, outline(nodes@, windows)),
                        k,
                    ) <= u128::MAX by {
                    lemma_within_listed(dir@, nodes@, windows, k);
                    assert(size_at(dir_sizes@, k) + sum_for(
                        crate::room::listed_adds(dir@, nodes@, windows),
                        k,
                    ) <= u128::MAX);
                }
            }
            let (items, _) = walk_tree(dir.as_str(), trees, dir_sizes);
            Ok(items)
        },
    }
}

/// Walks the tree listed for `path` where the table has room for it, and
/// says so where it has not. `None` comes back, and the table stays as it
/// was, exactly where the largest size in the table does not leave free
/// all that the listing can add; else the walk is that of
/// `scan_file_system`. On a table without entries every listing whose
/// bytes fit 128 bits is walked.
pub fn scan_if_room(
    path: &str,
    listing: &Listing,
    windows: bool,
    dir_sizes: &mut AggregationTable,
) -> (res: Option<Result<Vec<ItemFS>, WalkError>>)
    ensures
        res is Some <==> leaves_free(old(dir_sizes)@, *listing),
        match res {
            Some(outcome) => is_walk_outcome(
                outcome,
                path@,
                *listing,
                windows,
                old(dir_sizes)@,
                final(dir_sizes)@,
            ),
            None => final(dir_sizes)@ == old(dir_sizes)@,
        },
{
    if has_room_for(dir_sizes, listing) {
        assert(room_for_walk(dir_sizes@, formatted(path@, windows), *listing, windows));
        Some(scan_file_system(path, listing, windows, dir_sizes))
    } else {
        None
    }
}

} // verus!
