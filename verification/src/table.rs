//! The aggregation table: accumulated byte sizes keyed by directory path.

use vstd::hash_map::StringHashMap;
use vstd::prelude::*;
use vstd::seq_lib::{commutative_foldl, lemma_fold_left_permutation};
use vstd::string::StringExecFns;

verus! {

/// Sizes by path, as a mathematical map.
pub type Sizes = Map<Seq<char>, nat>;

/// Contributions to the table in the order of their arrival: each a path and
/// the bytes added for it.
pub type Adds = Seq<(Seq<char>, nat)>;

/// The size accumulated for `path`: zero while the path has no entry.
pub open spec fn size_at(sizes: Sizes, path: Seq<char>) -> nat {
    if sizes.contains_key(path) {
        sizes[path]
    } else {
        0
    }
}

/// The sizes after `delta` bytes are added for `path`; a path without an
/// entry gets one that starts at zero.
pub open spec fn added(sizes: Sizes, path: Seq<char>, delta: nat) -> Sizes {
    sizes.insert(path, size_at(sizes, path) + delta)
}

/// The sizes after every contribution of `adds` is added, first to last.
pub open spec fn added_all(sizes: Sizes, adds: Adds) -> Sizes {
    adds.fold_left(sizes, |acc: Sizes, a: (Seq<char>, nat)| added(acc, a.0, a.1))
}

/// What the contributions `adds` hold for `path` in sum.
pub open spec fn sum_for(adds: Adds, path: Seq<char>) -> nat
    decreases adds.len(),
{
    if adds.len() == 0 {
        0
    } else {
        sum_for(adds.drop_last(), path) + if adds.last().0 == path {
            adds.last().1
        } else {
            0
        }
    }
}

/// Sum of all the contributions `adds`, whatever their paths.
pub open spec fn weight(adds: Adds) -> nat
    decreases adds.len(),
{
    if adds.len() == 0 {
        0
    } else {
        weight(adds.drop_last()) + adds.last().1
    }
}

/// Whether the sizes can take every contribution of `adds` without any
/// accumulator passing the largest 128-bit number.
pub open spec fn has_room(sizes: Sizes, adds: Adds) -> bool {
    forall|k: Seq<char>| size_at(sizes, k) + #[trigger] sum_for(adds, k) <= u128::MAX
}

/// Sum of the numbers of `deltas`.
pub open spec fn total(deltas: Seq<nat>) -> nat
    decreases deltas.len(),
{
    if deltas.len() == 0 {
        0
    } else {
        total(deltas.drop_last()) + deltas.last()
    }
}

/// Whether `peak` is the largest of the sizes: none is larger, and it is
/// one of them or, where it is zero, none is needed.
pub open spec fn is_peak(sizes: Sizes, peak: nat) -> bool {
    &&& forall|k: Seq<char>| #[trigger] size_at(sizes, k) <= peak
    &&& peak == 0 || exists|k: Seq<char>| #[trigger] sizes.contains_key(k) && sizes[k] == peak
}

/// The largest of the sizes, zero where there are none.
pub open spec fn peak_of(sizes: Sizes) -> nat {
    choose|peak: nat| is_peak(sizes, peak)
}

/// The sizes have one largest only.
pub proof fn lemma_peak_unique(sizes: Sizes, peak: nat, other: nat)
    requires
        is_peak(sizes, peak),
        is_peak(sizes, other),
    ensures
        peak == other,
        peak == peak_of(sizes),
{
    if peak > 0 {
        let k = choose|k: Seq<char>| #[trigger] sizes.contains_key(k) && sizes[k] == peak;
        assert(size_at(sizes, k) <= other);
    }
    if other > 0 {
        let k = choose|k: Seq<char>| #[trigger] sizes.contains_key(k) && sizes[k] == other;
        assert(size_at(sizes, k) <= peak);
    }
    let chosen = peak_of(sizes);
    if chosen > 0 {
        let k = choose|k: Seq<char>| #[trigger] sizes.contains_key(k) && sizes[k] == chosen;
        assert(size_at(sizes, k) <= peak);
    }
}

/// Shared accumulator of directory sizes. Every path either has no entry,
/// which counts as zero, or the sum of what was added for it. The table
/// keeps the largest of its sizes at hand.
pub struct AggregationTable {
    sizes: StringHashMap<u128>,
    largest: u128,
}

impl View for AggregationTable {
    type V = Sizes;

    closed spec fn view(&self) -> Sizes {
        Map::new(|k: Seq<char>| self.sizes@.contains_key(k), |k: Seq<char>| self.sizes@[k] as nat)
    }
}

impl AggregationTable {
    #[verifier::type_invariant]
    spec fn keeps_peak(self) -> bool {
        is_peak(self@, self.largest as nat)
    }

    /// A table without entries.
    pub fn new() -> (res: AggregationTable)
        ensures
            res@ == Map::<Seq<char>, nat>::empty(),
    {
        let sizes: StringHashMap<u128> = StringHashMap::new();
        let ghost view = Map::new(
            |k: Seq<char>| sizes@.contains_key(k),
            |k: Seq<char>| sizes@[k] as nat,
        );
        assert(view =~= Map::<Seq<char>, nat>::empty());
        let res = AggregationTable { sizes, largest: 0 };
        assert(res@ =~= Map::<Seq<char>, nat>::empty());
        res
    }

    /// Every accumulated size fits the machine's 128-bit numbers.
    pub proof fn lemma_bounded(&self)
        ensures
            forall|k: Seq<char>| #[trigger] size_at(self@, k) <= u128::MAX,
    {
    }

    /// Adds `delta` bytes to the accumulator of `path`, which starts at zero
    /// where the path had no entry. No other path changes.
    pub fn add(&mut self, path: &str, delta: u128)
        requires
            size_at(old(self)@, path@) + delta <= u128::MAX,
        ensures
            final(self)@ == added(old(self)@, path@, delta as nat),
    {
        proof {
            use_type_invariant(&*self);
        }
        let current: u128 = match self.sizes.get(path) {
            Some(v) => *v,
            None => 0,
        };
        let sum: u128 = current + delta;
        let largest: u128 = if sum > self.largest {
            sum
        } else {
            self.largest
        };
        let ghost before = self@;
        let ghost peak = self.largest;
        // The sizes are taken out, changed and put back with their largest.
        let mut taken = AggregationTable::new();
        std::mem::swap(self, &mut taken);
        let mut sizes = taken.sizes;
        sizes.insert(String::from_str(path), sum);
        let ghost after = Map::new(
            |k: Seq<char>| sizes@.contains_key(k),
            |k: Seq<char>| sizes@[k] as nat,
        );
        proof {
            assert(after =~= added(before, path@, delta as nat));
            assert(after.contains_key(path@) && after[path@] == sum);
            assert forall|k: Seq<char>| #[trigger] size_at(after, k) <= largest by {
                assert(size_at(before, k) <= peak);
            }
            if largest > 0 && largest != sum {
                let k = choose|k: Seq<char>| #[trigger]
                    before.contains_key(k) && before[k] == peak as nat;
                assert(size_at(before, k) == peak);
                if k == path@ {
                    assert(current == peak);
                }
                assert(after.contains_key(k) && after[k] == largest);
            }
            assert(is_peak(after, largest as nat));
        }
        *self = AggregationTable { sizes, largest };
        assert(self@ =~= added(before, path@, delta as nat));
    }

    /// The size accumulated for `path`, zero where it has no entry.
    pub fn get(&self, path: &str) -> (res: u128)
        ensures
            res as nat == size_at(self@, path@),
    {
        match self.sizes.get(path) {
            Some(v) => *v,
            None => 0,
        }
    }

    /// The largest size that the table holds, zero where it has no entry.
    pub fn largest(&self) -> (res: u128)
        ensures
            is_peak(self@, res as nat),
            res as nat == peak_of(self@),
    {
        proof {
            use_type_invariant(self);
            lemma_peak_unique(self@, self.largest as nat, self.largest as nat);
        }
        self.largest
    }

    /// Whether anything was ever added for `path`.
    pub fn contains(&self, path: &str) -> (res: bool)
        ensures
            res == self@.contains_key(path@),
    {
        self.sizes.contains_key(path)
    }

    /// Whether the table has no entry at all.
    pub fn is_empty(&self) -> (res: bool)
        ensures
            res == (self@ == Map::<Seq<char>, nat>::empty()),
    {
        let res = self.sizes.is_empty();
        proof {
            if res {
                assert(self@ =~= Map::<Seq<char>, nat>::empty());
            } else {
                let k = choose|k: Seq<char>| self.sizes@.contains_key(k);
                assert(self@.contains_key(k));
            }
        }
        res
    }
}

/// Two contributions may arrive in either order: the sizes end the same.
pub proof fn lemma_add_commutes(
    sizes: Sizes,
    path: Seq<char>,
    delta: nat,
    other_path: Seq<char>,
    other_delta: nat,
)
    ensures
        added(added(sizes, path, delta), other_path, other_delta) == added(
            added(sizes, other_path, other_delta),
            path,
            delta,
        ),
{
    assert(added(added(sizes, path, delta), other_path, other_delta) =~= added(
        added(sizes, other_path, other_delta),
        path,
        delta,
    ));
}

/// Contributions that differ only in the order of their arrival leave the
/// same sizes behind.
pub proof fn lemma_order_independent(
    sizes: Sizes,
    first: Adds,
    second: Adds,
)
    requires
        first.to_multiset() == second.to_multiset(),
    ensures
        added_all(sizes, first) == added_all(sizes, second),
{
    let f = |acc: Sizes, a: (Seq<char>, nat)| added(acc, a.0, a.1);
    assert(commutative_foldl(f)) by {
        assert forall|x: (Seq<char>, nat), y: (Seq<char>, nat), v: Sizes| #[trigger]
            f(f(v, x), y) == f(f(v, y), x) by {
            lemma_add_commutes(v, x.0, x.1, y.0, y.1);
        }
    }
    lemma_fold_left_permutation(first, second, f, sizes);
}

/// One more contribution at the end is one more `added` on top.
pub proof fn lemma_added_all_push(sizes: Sizes, adds: Adds, path: Seq<char>, delta: nat)
    ensures
        added_all(sizes, adds.push((path, delta))) == added(added_all(sizes, adds), path, delta),
{
    assert(adds.push((path, delta)).drop_last() =~= adds);
}

/// Contributions made in two runs are the contributions of both, in order.
pub proof fn lemma_added_all_concat(
    sizes: Sizes,
    first: Adds,
    second: Adds,
)
    ensures
        added_all(sizes, first + second) == added_all(added_all(sizes, first), second),
    decreases second.len(),
{
    if second.len() == 0 {
        assert(first + second =~= first);
    } else {
        lemma_added_all_concat(sizes, first, second.drop_last());
        assert((first + second).drop_last() =~= first + second.drop_last());
    }
}

/// One more contribution at the end counts for its own path only.
pub proof fn lemma_sum_for_push(adds: Adds, path: Seq<char>, delta: nat, k: Seq<char>)
    ensures
        sum_for(adds.push((path, delta)), k) == sum_for(adds, k) + if path == k {
            delta
        } else {
            0
        },
{
    assert(adds.push((path, delta)).drop_last() =~= adds);
}

/// `sum_for` of two runs is the sum of both.
pub proof fn lemma_sum_for_concat(
    first: Adds,
    second: Adds,
    path: Seq<char>,
)
    ensures
        sum_for(first + second, path) == sum_for(first, path) + sum_for(second, path),
    decreases second.len(),
{
    if second.len() == 0 {
        assert(first + second =~= first);
    } else {
        lemma_sum_for_concat(first, second.drop_last(), path);
        assert((first + second).drop_last() =~= first + second.drop_last());
    }
}

/// `weight` of two runs is the sum of both.
pub proof fn lemma_weight_concat(first: Adds, second: Adds)
    ensures
        weight(first + second) == weight(first) + weight(second),
    decreases second.len(),
{
    if second.len() == 0 {
        assert(first + second =~= first);
    } else {
        lemma_weight_concat(first, second.drop_last());
        assert((first + second).drop_last() =~= first + second.drop_last());
    }
}

/// No path is contributed more than all contributions together.
pub proof fn lemma_sum_for_within_weight(adds: Adds, path: Seq<char>)
    ensures
        sum_for(adds, path) <= weight(adds),
    decreases adds.len(),
{
    if adds.len() > 0 {
        lemma_sum_for_within_weight(adds.drop_last(), path);
    }
}

/// Sizes whose largest leaves the sum of all contributions free have room
/// for them.
pub proof fn lemma_room_above_peak(sizes: Sizes, peak: nat, adds: Adds)
    requires
        is_peak(sizes, peak),
        peak + weight(adds) <= u128::MAX,
    ensures
        has_room(sizes, adds),
{
    assert forall|k: Seq<char>| size_at(sizes, k) + #[trigger] sum_for(adds, k) <= u128::MAX by {
        lemma_sum_for_within_weight(adds, k);
    }
}

/// After all contributions a path holds what it had plus what they held
/// for it, and it has an entry exactly if it had one or was contributed to.
pub proof fn lemma_added_all_size(sizes: Sizes, adds: Adds, path: Seq<char>)
    ensures
        size_at(added_all(sizes, adds), path) == size_at(sizes, path) + sum_for(adds, path),
        added_all(sizes, adds).contains_key(path) <==> sizes.contains_key(path) || exists|i: int|
            0 <= i < adds.len() && (#[trigger] adds[i]).0 == path,
    decreases adds.len(),
{
    if adds.len() > 0 {
        let front = adds.drop_last();
        lemma_added_all_size(sizes, front, path);
        if added_all(sizes, adds).contains_key(path) && !sizes.contains_key(path) {
            if adds.last().0 == path {
                assert(adds[adds.len() - 1].0 == path);
            } else {
                let i = choose|i: int| 0 <= i < front.len() && (#[trigger] front[i]).0 == path;
                assert(adds[i].0 == path);
            }
        }
        if exists|i: int| 0 <= i < adds.len() && (#[trigger] adds[i]).0 == path {
            let i = choose|i: int| 0 <= i < adds.len() && (#[trigger] adds[i]).0 == path;
            if i < adds.len() - 1 {
                assert(front[i].0 == path);
            }
        }
    }
}

/// The contributions of sibling files to their directory.
pub open spec fn sibling_adds(dir: Seq<char>, file_sizes: Seq<nat>) -> Adds {
    file_sizes.map_values(|s: nat| (dir, s))
}

/// Files of known sizes under one directory add up to exactly their sum on
/// top of what the directory had, and no other path changes.
pub proof fn lemma_siblings_sum(sizes: Sizes, dir: Seq<char>, file_sizes: Seq<nat>)
    ensures
        size_at(added_all(sizes, sibling_adds(dir, file_sizes)), dir) == size_at(sizes, dir)
            + total(file_sizes),
        forall|k: Seq<char>|
            k != dir ==> size_at(added_all(sizes, sibling_adds(dir, file_sizes)), k) == size_at(
                sizes,
                k,
            ),
    decreases file_sizes.len(),
{
    let adds = sibling_adds(dir, file_sizes);
    if file_sizes.len() > 0 {
        lemma_siblings_sum(sizes, dir, file_sizes.drop_last());
        assert(adds.drop_last() =~= sibling_adds(dir, file_sizes.drop_last()));
    }
}

/// The race-freedom law: whatever the order in which the sibling files of
/// `dir` complete, the directory ends with its old size plus their sum.
pub proof fn lemma_concurrent_contribution(
    sizes: Sizes,
    dir: Seq<char>,
    file_sizes: Seq<nat>,
    arrival: Adds,
)
    requires
        arrival.to_multiset() == sibling_adds(dir, file_sizes).to_multiset(),
    ensures
        size_at(added_all(sizes, arrival), dir) == size_at(sizes, dir) + total(file_sizes),
{
    lemma_order_independent(sizes, arrival, sibling_adds(dir, file_sizes));
    lemma_siblings_sum(sizes, dir, file_sizes);
}

} // verus!
