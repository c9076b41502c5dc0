//! The reconciler: what has to be written so that a persisted index says
//! what a fresh snapshot says.

use crate::entry::{views, ItemFS, ItemView};
use vstd::hash_map::StringHashMap;
use vstd::prelude::*;

verus! {

/// The record that an index keeps for `path`: of several with that path the
/// one that was stored last; `None` where there is none.
pub open spec fn lookup(records: Seq<ItemView>, path: Seq<char>) -> Option<ItemView>
    decreases records.len(),
{
    if records.len() == 0 {
        None
    } else if records.last().abs_path == path {
        Some(records.last())
    } else {
        lookup(records.drop_last(), path)
    }
}

/// Whether two records agree in the fields that reconciliation tracks:
/// size, modification date and kind.
pub open spec fn same_tracked(a: ItemView, b: ItemView) -> bool {
    a.size == b.size && a.last_edit == b.last_edit && a.f_type == b.f_type
}

/// Whether the index holds the entry's path with the same tracked fields.
pub open spec fn is_unchanged(entry: ItemView, existing: Seq<ItemView>) -> bool {
    match lookup(existing, entry.abs_path) {
        Some(record) => same_tracked(entry, record),
        None => false,
    }
}

/// Whether the index holds the entry's path with another size, date or kind.
pub open spec fn is_changed(entry: ItemView, existing: Seq<ItemView>) -> bool {
    match lookup(existing, entry.abs_path) {
        Some(record) => !same_tracked(entry, record),
        None => false,
    }
}

/// Selects the snapshot entries that have to be written.
pub open spec fn to_write(existing: Seq<ItemView>) -> spec_fn(ItemView) -> bool {
    |entry: ItemView| !is_unchanged(entry, existing)
}

/// Selects the snapshot entries whose stored record is out of date.
pub open spec fn to_replace(existing: Seq<ItemView>) -> spec_fn(ItemView) -> bool {
    |entry: ItemView| is_changed(entry, existing)
}

/// Selects the snapshot entries that need no write.
pub open spec fn to_keep(existing: Seq<ItemView>) -> spec_fn(ItemView) -> bool {
    |entry: ItemView| is_unchanged(entry, existing)
}

/// Selects the stored records whose path the snapshot no longer has.
pub open spec fn is_gone(snapshot: Seq<ItemView>) -> spec_fn(ItemView) -> bool {
    |record: ItemView| lookup(snapshot, record.abs_path) is None
}

/// The paths of `records`, in order.
pub open spec fn paths_of(records: Seq<ItemView>) -> Seq<Seq<char>> {
    records.map_values(|record: ItemView| record.abs_path)
}

/// The entries to insert: every snapshot entry that is new or changed, in
/// snapshot order.
pub open spec fn inserts_of(snapshot: Seq<ItemView>, existing: Seq<ItemView>) -> Seq<ItemView> {
    snapshot.filter(to_write(existing))
}

/// The paths to delete: first those of the changed entries, in snapshot
/// order, then those of the stored records that are gone, in index order.
pub open spec fn deletes_of(snapshot: Seq<ItemView>, existing: Seq<ItemView>) -> Seq<Seq<char>> {
    paths_of(snapshot.filter(to_replace(existing))) + paths_of(existing.filter(is_gone(snapshot)))
}

/// The number of snapshot entries that need no write.
pub open spec fn unchanged_of(snapshot: Seq<ItemView>, existing: Seq<ItemView>) -> nat {
    snapshot.filter(to_keep(existing)).len()
}

/// Whether no two records share a path.
pub open spec fn distinct_paths(records: Seq<ItemView>) -> bool {
    forall|i: int, j: int|
        0 <= i < j < records.len() ==> (#[trigger] records[i]).abs_path != (
        #[trigger] records[j]).abs_path
}

/// The texts as sequences of characters.
pub open spec fn texts(paths: Seq<String>) -> Seq<Seq<char>> {
    paths.map_values(|path: String| path@)
}

/// The writes that bring an index up to date: the entries to insert, the
/// paths to delete, and the count of entries that are left alone. An entry
/// whose record changed is written as a delete and an insert.
pub struct ReconcilePlan {
    pub inserts: Vec<ItemFS>,
    pub deletes: Vec<String>,
    pub unchanged: usize,
}

impl ReconcilePlan {
    /// Whether the plan asks for no write at all.
    pub fn is_empty(&self) -> (res: bool)
        ensures
            res == (self.inserts@.len() == 0 && self.deletes@.len() == 0),
    {
        self.inserts.len() == 0 && self.deletes.len() == 0
    }
}

/// How an index by path stands for the first `n` of `records`: a path has
/// a place exactly if one of them has that path, and the place is that of
/// the record which `lookup` gives.
spec fn indexes(index: Map<Seq<char>, usize>, records: Seq<ItemView>, n: int) -> bool {
    forall|path: Seq<char>|
        match #[trigger] lookup(records.take(n), path) {
            Some(record) => {
                &&& index.contains_key(path)
                &&& 0 <= index[path] < n
                &&& records[index[path] as int] == record
            },
            None => !index.contains_key(path),
        }
}

proof fn lemma_take_next<A>(s: Seq<A>, i: int)
    requires
        0 <= i < s.len(),
    ensures
        s.take(i + 1).drop_last() == s.take(i),
        s.take(i + 1).last() == s[i],
        s.take(i + 1).len() == i + 1,
{
    assert(s.take(i + 1).drop_last() =~= s.take(i));
}

proof fn lemma_filter_next<A>(s: Seq<A>, pred: spec_fn(A) -> bool, i: int)
    requires
        0 <= i < s.len(),
    ensures
        s.take(i + 1).filter(pred) == if pred(s[i]) {
            s.take(i).filter(pred).push(s[i])
        } else {
            s.take(i).filter(pred)
        },
{
    lemma_take_next(s, i);
    reveal(Seq::filter);
}

/// Builds the place of every path among `records`.
fn index_by_path(records: &Vec<ItemFS>) -> (index: StringHashMap<usize>)
    ensures
        indexes(index@, views(records@), records@.len() as int),
{
    let mut index: StringHashMap<usize> = StringHashMap::new();
    let mut i: usize = 0;
    let ghost all = views(records@);
    assert(all.take(0) =~= Seq::<ItemView>::empty());
    while i < records.len()
        invariant
            i <= records.len(),
            all == views(records@),
            indexes(index@, all, i as int),
        decreases records.len() - i,
    {
        let path = records[i].abs_path().clone();
        index.insert(path, i);
        proof {
            lemma_take_next(all, i as int);
            assert forall|p: Seq<char>|
                match #[trigger] lookup(all.take(i + 1), p) {
                    Some(record) => {
                        &&& index@.contains_key(p)
                        &&& 0 <= index@[p] < i + 1
                        &&& all[index@[p] as int] == record
                    },
                    None => !index@.contains_key(p),
                } by {
                if all[i as int].abs_path != p {
                    assert(lookup(all.take(i + 1), p) == lookup(all.take(i as int), p));
                }
            }
        }
        i = i + 1;
    }
    assert(all.take(i as int) =~= all);
    index
}

/// Tests whether no two records share a path, as it is meant to be within
/// a snapshot and within an index.
pub fn has_distinct_paths(records: &Vec<ItemFS>) -> (res: bool)
    ensures
        res == distinct_paths(views(records@)),
{
    let ghost all = views(records@);
    let mut seen: StringHashMap<usize> = StringHashMap::new();
    let mut i: usize = 0;
    while i < records.len()
        invariant
            i <= records.len(),
            all == views(records@),
            forall|a: int, b: int|
                0 <= a < b < i ==> (#[trigger] all[a]).abs_path != (#[trigger] all[b]).abs_path,
            forall|p: Seq<char>|
                seen@.contains_key(p) ==> 0 <= #[trigger] seen@[p] < i && all[seen@[p] as int].abs_path
                    == p,
            forall|a: int| 0 <= a < i ==> seen@.contains_key((#[trigger] all[a]).abs_path),
        decreases records.len() - i,
    {
        let path = records[i].abs_path();
        match seen.get(path.as_str()) {
            Some(place) => {
                proof {
                    let a = *place as int;
                    assert(all[a].abs_path == all[i as int].abs_path);
                }
                return false;
            },
            None => {},
        }
        seen.insert(path.clone(), i);
        i = i + 1;
    }
    true
}

/// Whether two records agree in size, modification date and kind.
fn tracked_fields_agree(a: &ItemFS, b: &ItemFS) -> (res: bool)
    ensures
        res == same_tracked(a@, b@),
{
    a.get_size() == b.get_size() && *a.last_edit() == *b.last_edit() && a.f_type() == b.f_type()
}

/// Compares a fresh snapshot with the records of the persisted index, by
/// path. A snapshot entry whose path the index holds with the same size,
/// date and kind is counted as unchanged; one whose record differs is
/// deleted and inserted anew; one that the index does not hold is inserted.
/// A stored record whose path the snapshot does not have is deleted.
pub fn reconcile(new_snapshot: &Vec<ItemFS>, existing: &Vec<ItemFS>) -> (plan: ReconcilePlan)
    ensures
        views(plan.inserts@) == inserts_of(views(new_snapshot@), views(existing@)),
        texts(plan.deletes@) == deletes_of(views(new_snapshot@), views(existing@)),
        plan.unchanged as nat == unchanged_of(views(new_snapshot@), views(existing@)),
        plan.inserts@.len() == inserts_of(views(new_snapshot@), views(existing@)).len(),
        plan.deletes@.len() == deletes_of(views(new_snapshot@), views(existing@)).len(),
{
    let ghost snap = views(new_snapshot@);
    let ghost old = views(existing@);
    let stored = index_by_path(existing);
    let mut inserts: Vec<ItemFS> = Vec::new();
    let mut deletes: Vec<String> = Vec::new();
    let mut unchanged: usize = 0;
    let mut i: usize = 0;
    proof {
        assert(snap.take(0) =~= Seq::<ItemView>::empty());
        assert(views(inserts@) =~= Seq::<ItemView>::empty());
        assert(texts(deletes@) =~= Seq::<Seq<char>>::empty());
        assert(paths_of(Seq::<ItemView>::empty()) =~= Seq::<Seq<char>>::empty());
        reveal(Seq::filter);
    }
    while i < new_snapshot.len()
        invariant
            i <= new_snapshot.len(),
            snap == views(new_snapshot@),
            old == views(existing@),
            indexes(stored@, old, existing@.len() as int),
            views(inserts@) == snap.take(i as int).filter(to_write(old)),
            texts(deletes@) == paths_of(snap.take(i as int).filter(to_replace(old))),
            unchanged as nat == snap.take(i as int).filter(to_keep(old)).len(),
            unchanged <= i,
        decreases new_snapshot.len() - i,
    {
        let entry = &new_snapshot[i];
        proof {
            lemma_filter_next(snap, to_write(old), i as int);
            lemma_filter_next(snap, to_replace(old), i as int);
            lemma_filter_next(snap, to_keep(old), i as int);
            assert(old.take(existing@.len() as int) =~= old);
            assert(snap[i as int] == entry@);
        }
        let ghost found = lookup(old, entry@.abs_path);
        match stored.get(entry.abs_path().as_str()) {
            None => {
                inserts.push(entry.clone());
                proof {
                    assert(found is None);
                    assert(views(inserts@) =~= snap.take(i as int).filter(to_write(old)).push(
                        entry@,
                    ));
                }
            },
            Some(place) => {
                let record = &existing[*place];
                proof {
                    assert(found == Some(record@));
                }
                if tracked_fields_agree(entry, record) {
                    unchanged = unchanged + 1;
                } else {
                    let ghost earlier = deletes@;
                    let path = entry.abs_path().clone();
                    deletes.push(path);
                    inserts.push(entry.clone());
                    proof {
                        let changed = snap.take(i as int).filter(to_replace(old));
                        assert(views(inserts@) =~= snap.take(i as int).filter(to_write(old)).push(
                            entry@,
                        ));
                        assert(texts(deletes@) =~= texts(earlier).push(entry@.abs_path));
                        assert(paths_of(changed.push(entry@)) =~= paths_of(changed).push(
                            entry@.abs_path,
                        ));
                    }
                }
            },
        }
        i = i + 1;
    }
    assert(snap.take(i as int) =~= snap);
    let fresh = index_by_path(new_snapshot);
    let ghost replaced = texts(deletes@);
    let mut j: usize = 0;
    proof {
        assert(old.take(0) =~= Seq::<ItemView>::empty());
        assert(replaced + paths_of(Seq::<ItemView>::empty()) =~= replaced);
    }
    while j < existing.len()
        invariant
            j <= existing.len(),
            snap == views(new_snapshot@),
            old == views(existing@),
            indexes(fresh@, snap, new_snapshot@.len() as int),
            replaced == paths_of(snap.filter(to_replace(old))),
            texts(deletes@) == replaced + paths_of(old.take(j as int).filter(is_gone(snap))),
            views(inserts@) == snap.filter(to_write(old)),
            unchanged as nat == snap.filter(to_keep(old)).len(),
        decreases existing.len() - j,
    {
        let record = &existing[j];
        proof {
            lemma_filter_next(old, is_gone(snap), j as int);
            assert(snap.take(new_snapshot@.len() as int) =~= snap);
            assert(old[j as int] == record@);
        }
        let ghost found = lookup(snap, record@.abs_path);
        if !fresh.contains_key(record.abs_path().as_str()) {
            let ghost earlier = deletes@;
            let path = record.abs_path().clone();
            deletes.push(path);
            proof {
                let gone = old.take(j as int).filter(is_gone(snap));
                assert(found is None);
                assert(texts(deletes@) =~= texts(earlier).push(record@.abs_path));
                assert(paths_of(gone.push(record@)) =~= paths_of(gone).push(record@.abs_path));
                assert((replaced + paths_of(gone)).push(record@.abs_path) =~= replaced + paths_of(
                    gone,
                ).push(record@.abs_path));
            }
        } else {
            proof {
                assert(found is Some);
            }
        }
        j = j + 1;
    }
    assert(old.take(j as int) =~= old);
    ReconcilePlan { inserts, deletes, unchanged }
}

} // verus!
