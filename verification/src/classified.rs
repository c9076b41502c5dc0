//! The classified tree: every listed entry turned into its record, or into
//! the reason why it has none, with what lies beneath it.

use crate::entry::{classify, same_outcome, ItemFS, ItemView};
use crate::listing::{FsNode, Listing};
use rayon::iter::{IntoParallelRefIterator, ParallelIterator};
use vstd::prelude::*;

verus! {

/// One entry after classification.
#[derive(Debug)]
pub struct Classified {
    /// The entry's record, or the text of the error that kept it from
    /// being classified.
    pub outcome: Result<ItemFS, String>,
    /// The entries beneath it, where it is a directory that could be
    /// listed; `None` for a file and for a directory that could not.
    pub below: Option<Vec<Classified>>,
}

/// A classified entry as mathematical values.
pub struct Outline {
    pub outcome: Result<ItemView, Seq<char>>,
    pub below: Option<Seq<Outline>>,
}

/// The outcome of a classification as mathematical values.
pub open spec fn outcome_view(outcome: Result<ItemFS, String>) -> Result<ItemView, Seq<char>> {
    match outcome {
        Ok(item) => Ok(item@),
        Err(reason) => Err(reason@),
    }
}

/// The classified entries as mathematical values.
pub open spec fn outlines_of(trees: Seq<Classified>) -> Seq<Outline>
    decreases trees, 0nat,
{
    if trees.len() == 0 {
        Seq::empty()
    } else {
        outlines_of(trees.drop_last()).push(outline_of(trees.last()))
    }
}

/// A classified entry as mathematical values.
pub open spec fn outline_of(tree: Classified) -> Outline
    decreases tree, 1nat,
{
    Outline {
        outcome: outcome_view(tree.outcome),
        below: match tree.below {
            Some(children) => Some(outlines_of(children@)),
            None => None,
        },
    }
}

/// The views of classified entries stand place by place: the view of a
/// run begins with the views of every run it begins with.
pub proof fn lemma_outlines_step(trees: Seq<Classified>, i: int)
    requires
        0 <= i < trees.len(),
    ensures
        outlines_of(trees.take(i + 1)) == outlines_of(trees.take(i)).push(
            outline_of(trees[i]),
        ),
        outlines_of(trees).len() == trees.len(),
        outlines_of(trees)[i] == outline_of(trees[i]),
        outlines_of(trees).take(i) == outlines_of(trees.take(i)),
    decreases trees.len(),
{
    assert(trees.take(i + 1).drop_last() =~= trees.take(i));
    assert(trees.take(i + 1).last() == trees[i]);
    let front = trees.drop_last();
    if i < trees.len() - 1 {
        lemma_outlines_step(front, i);
        assert(front.take(i) =~= trees.take(i));
        assert(front[i] == trees[i]);
        assert(outlines_of(trees).take(i) =~= outlines_of(front).take(i));
    } else {
        assert(front =~= trees.take(i));
        lemma_outlines_len(front);
        assert(outlines_of(trees).take(i) =~= outlines_of(front));
    }
}

/// There are as many views as classified entries.
pub proof fn lemma_outlines_len(trees: Seq<Classified>)
    ensures
        outlines_of(trees).len() == trees.len(),
    decreases trees.len(),
{
    if trees.len() > 0 {
        lemma_outlines_len(trees.drop_last());
    }
}

/// The classified tree of the listed entries `nodes`: each entry with the
/// outcome of its classification. Beneath an entry stands the classified
/// tree of its own entries where it was classified, is a directory and
/// could be listed, and nothing else.
pub open spec fn outline(nodes: Seq<FsNode>, windows: bool) -> Seq<Outline>
    decreases nodes, 0nat,
{
    if nodes.len() == 0 {
        Seq::empty()
    } else {
        outline(nodes.drop_last(), windows).push(node_outline(nodes.last(), windows))
    }
}

/// The classified tree of one listed entry.
pub open spec fn node_outline(node: FsNode, windows: bool) -> Outline
    decreases node, 1nat,
{
    Outline {
        outcome: classify(node.entry, windows),
        below: if classify(node.entry, windows) is Ok && node.entry.is_dir {
            match node.listing {
                Listing::Entries(children) => Some(outline(children@, windows)),
                _ => None,
            }
        } else {
            None
        },
    }
}

/// Calls rayon: `par_iter` over the entries, `map` with the classifier and
/// `collect` into a vector. rayon applies the closure once to every entry,
/// on whichever worker is free, and `collect` keeps the results in the order
/// of the entries. The contract claims that and no more: as many outcomes as
/// entries, the outcome at each place being one that
/// `ItemFS::from_dir_entry` gives for the entry at that place.
#[verifier::external_body]
fn classify_each(nodes: &Vec<FsNode>, windows: bool) -> (res: Vec<Result<ItemFS, String>>)
    ensures
        res@.len() == nodes@.len(),
        forall|i: int|
            0 <= i < nodes@.len() ==> same_outcome(
                #[trigger] res@[i],
                classify(nodes@[i].entry, windows),
            ),
{
    nodes.par_iter().map(|node| ItemFS::from_dir_entry(&node.entry, windows)).collect()
}

/// Classifies a listing: the entries of each directory are classified in
/// parallel, then the directories among them are descended into, one after
/// the other.
pub fn classify_tree(nodes: &Vec<FsNode>, windows: bool) -> (res: Vec<Classified>)
    ensures
        outlines_of(res@) == outline(nodes@, windows),
        res@.len() == nodes@.len(),
    decreases nodes,
{
    let outcomes = classify_each(nodes, windows);
    let ghost all = outcomes@;
    let mut trees: Vec<Classified> = Vec::new();
    let mut i: usize = 0;
    let count: usize = nodes.len();
    assert(nodes@.take(0) =~= Seq::<FsNode>::empty());
    for outcome in it: outcomes.into_iter()
        invariant
            it.seq() == all,
            count == nodes@.len(),
            all.len() == nodes@.len(),
            forall|j: int|
                0 <= j < nodes@.len() ==> same_outcome(
                    #[trigger] all[j],
                    classify(nodes@[j].entry, windows),
                ),
            i == it.index(),
            trees@.len() == i,
            outlines_of(trees@) == outline(nodes@.take(i as int), windows),
    {
        let node = &nodes[i];
        proof {
            assert(nodes@.take(i + 1).drop_last() =~= nodes@.take(i as int));
            assert(nodes@.take(i + 1).last() == nodes@[i as int]);
            assert(same_outcome(all[i as int], classify(nodes@[i as int].entry, windows)));
        }
        let descend = outcome.is_ok() && node.entry.is_dir;
        let below = if descend {
            match &node.listing {
                Listing::Entries(children) => Some(classify_tree(children, windows)),
                _ => None,
            }
        } else {
            None
        };
        let ghost earlier = trees@;
        let tree = Classified { outcome, below };
        proof {
            assert(outline_of(tree) == node_outline(nodes@[i as int], windows));
        }
        trees.push(tree);
        proof {
            assert(trees@.drop_last() =~= earlier);
        }
        i = i + 1;
    }
    assert(nodes@.take(i as int) =~= nodes@);
    trees
}

} // verus!
