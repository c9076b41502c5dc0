//! Laws of reconciliation: what holds of every plan.

use crate::entry::ItemView;
use crate::reconcile::{
    deletes_of, distinct_paths, inserts_of, is_changed, is_gone, is_unchanged, lookup, paths_of,
    same_tracked, to_keep, to_replace, to_write, unchanged_of,
};
use vstd::prelude::*;

verus! {

/// What `lookup` finds is one of the records and has the path asked for;
/// it finds nothing only where no record has that path.
pub proof fn lemma_lookup_found(records: Seq<ItemView>, path: Seq<char>)
    ensures
        match lookup(records, path) {
            Some(record) => record.abs_path == path && exists|j: int|
                0 <= j < records.len() && #[trigger] records[j] == record,
            None => forall|j: int|
                0 <= j < records.len() ==> (#[trigger] records[j]).abs_path != path,
        },
    decreases records.len(),
{
    if records.len() > 0 {
        let front = records.drop_last();
        lemma_lookup_found(front, path);
        if records.last().abs_path == path {
            assert(records[records.len() - 1] == records.last());
        } else {
            match lookup(front, path) {
                Some(record) => {
                    let j = choose|j: int| 0 <= j < front.len() && #[trigger] front[j] == record;
                    assert(records[j] == record);
                },
                None => {
                    assert forall|j: int| 0 <= j < records.len() implies (
                    #[trigger] records[j]).abs_path != path by {
                        if j < front.len() {
                            assert(front[j] == records[j]);
                        }
                    }
                },
            }
        }
    }
}

/// Where no two records share a path, looking up a record's path finds
/// that record.
pub proof fn lemma_lookup_own(records: Seq<ItemView>, i: int)
    requires
        distinct_paths(records),
        0 <= i < records.len(),
    ensures
        lookup(records, records[i].abs_path) == Some(records[i]),
{
    lemma_lookup_found(records, records[i].abs_path);
    match lookup(records, records[i].abs_path) {
        Some(record) => {
            let j = choose|j: int| 0 <= j < records.len() && #[trigger] records[j] == record;
            if j < i {
                assert(records[j].abs_path != records[i].abs_path);
            } else if i < j {
                assert(records[i].abs_path != records[j].abs_path);
            }
        },
        None => {
            assert(records[i].abs_path != records[i].abs_path);
        },
    }
}

proof fn lemma_filter_none<A>(s: Seq<A>, pred: spec_fn(A) -> bool)
    requires
        forall|j: int| 0 <= j < s.len() ==> !pred(#[trigger] s[j]),
    ensures
        s.filter(pred) == Seq::<A>::empty(),
    decreases s.len(),
{
    reveal(Seq::filter);
    if s.len() > 0 {
        let front = s.drop_last();
        assert forall|j: int| 0 <= j < front.len() implies !pred(#[trigger] front[j]) by {
            assert(front[j] == s[j]);
        }
        lemma_filter_none(front, pred);
        assert(!pred(s[s.len() - 1]));
    }
}

proof fn lemma_filter_all<A>(s: Seq<A>, pred: spec_fn(A) -> bool)
    requires
        forall|j: int| 0 <= j < s.len() ==> pred(#[trigger] s[j]),
    ensures
        s.filter(pred) == s,
    decreases s.len(),
{
    reveal(Seq::filter);
    if s.len() > 0 {
        let front = s.drop_last();
        assert forall|j: int| 0 <= j < front.len() implies pred(#[trigger] front[j]) by {
            assert(front[j] == s[j]);
        }
        lemma_filter_all(front, pred);
        assert(pred(s[s.len() - 1]));
        assert(front.push(s.last()) =~= s);
    }
}

proof fn lemma_filter_only<A>(s: Seq<A>, pred: spec_fn(A) -> bool, i: int)
    requires
        0 <= i < s.len(),
        pred(s[i]),
        forall|j: int| 0 <= j < s.len() && j != i ==> !pred(#[trigger] s[j]),
    ensures
        s.filter(pred) == seq![s[i]],
    decreases s.len(),
{
    reveal(Seq::filter);
    let front = s.drop_last();
    if i == s.len() - 1 {
        assert forall|j: int| 0 <= j < front.len() implies !pred(#[trigger] front[j]) by {
            assert(front[j] == s[j]);
        }
        lemma_filter_none(front, pred);
        assert(Seq::<A>::empty().push(s[i]) =~= seq![s[i]]);
    } else {
        assert forall|j: int| 0 <= j < front.len() && j != i implies !pred(#[trigger] front[j]) by {
            assert(front[j] == s[j]);
        }
        assert(front[i] == s[i]);
        lemma_filter_only(front, pred, i);
        assert(!pred(s[s.len() - 1]));
    }
}

proof fn lemma_filter_all_but<A>(s: Seq<A>, pred: spec_fn(A) -> bool, i: int)
    requires
        0 <= i < s.len(),
        !pred(s[i]),
        forall|j: int| 0 <= j < s.len() && j != i ==> pred(#[trigger] s[j]),
    ensures
        s.filter(pred) == s.remove(i),
    decreases s.len(),
{
    reveal(Seq::filter);
    let front = s.drop_last();
    if i == s.len() - 1 {
        assert forall|j: int| 0 <= j < front.len() implies pred(#[trigger] front[j]) by {
            assert(front[j] == s[j]);
        }
        lemma_filter_all(front, pred);
        assert(s.remove(i) =~= front);
    } else {
        assert forall|j: int| 0 <= j < front.len() && j != i implies pred(#[trigger] front[j]) by {
            assert(front[j] == s[j]);
        }
        assert(front[i] == s[i]);
        lemma_filter_all_but(front, pred, i);
        assert(pred(s[s.len() - 1]));
        assert(front.remove(i).push(s.last()) =~= s.remove(i));
    }
}

/// Idempotence: reconciling a snapshot with an index that already holds
/// exactly its records asks for no write and counts every entry as
/// unchanged.
pub proof fn lemma_reconcile_idempotent(records: Seq<ItemView>)
    requires
        distinct_paths(records),
    ensures
        inserts_of(records, records) == Seq::<ItemView>::empty(),
        deletes_of(records, records) == Seq::<Seq<char>>::empty(),
        unchanged_of(records, records) == records.len(),
{
    assert forall|j: int| 0 <= j < records.len() implies is_unchanged(
        #[trigger] records[j],
        records,
    ) by {
        lemma_lookup_own(records, j);
    }
    assert forall|j: int| 0 <= j < records.len() implies !is_changed(
        #[trigger] records[j],
        records,
    ) by {
        lemma_lookup_own(records, j);
    }
    assert forall|j: int| 0 <= j < records.len() implies !is_gone(records)(
        #[trigger] records[j],
    ) by {
        lemma_lookup_own(records, j);
    }
    lemma_filter_none(records, to_write(records));
    lemma_filter_none(records, to_replace(records));
    lemma_filter_none(records, is_gone(records));
    lemma_filter_all(records, to_keep(records));
    assert(deletes_of(records, records) =~= Seq::<Seq<char>>::empty());
}

proof fn lemma_removed_is_gone(records: Seq<ItemView>, i: int)
    requires
        distinct_paths(records),
        0 <= i < records.len(),
    ensures
        lookup(records.remove(i), records[i].abs_path) is None,
{
    let snapshot = records.remove(i);
    lemma_lookup_found(snapshot, records[i].abs_path);
    if let Some(record) = lookup(snapshot, records[i].abs_path) {
        let j = choose|j: int| 0 <= j < snapshot.len() && #[trigger] snapshot[j] == record;
        if j < i {
            assert(snapshot[j] == records[j]);
            assert(records[j].abs_path != records[i].abs_path);
        } else {
            assert(snapshot[j] == records[j + 1]);
            assert(records[i].abs_path != records[j + 1].abs_path);
        }
    }
}

proof fn lemma_kept_is_found(records: Seq<ItemView>, i: int, k: int)
    requires
        0 <= i < records.len(),
        0 <= k < records.len(),
        k != i,
    ensures
        lookup(records.remove(i), records[k].abs_path) is Some,
{
    let snapshot = records.remove(i);
    let j = if k < i {
        k
    } else {
        k - 1
    };
    assert(snapshot[j] == records[k]);
    lemma_lookup_found(snapshot, records[k].abs_path);
}

proof fn lemma_kept_is_unchanged(records: Seq<ItemView>, i: int, j: int)
    requires
        distinct_paths(records),
        0 <= i < records.len(),
        0 <= j < records.len() - 1,
    ensures
        is_unchanged(records.remove(i)[j], records),
        !is_changed(records.remove(i)[j], records),
{
    let k = if j < i {
        j
    } else {
        j + 1
    };
    assert(records.remove(i)[j] == records[k]);
    lemma_lookup_own(records, k);
}

/// A deleted file: where the snapshot is the index without one record,
/// the plan holds exactly one delete, for that record's path, and nothing
/// is written for any other path.
pub proof fn lemma_reconcile_deleted(records: Seq<ItemView>, i: int)
    requires
        distinct_paths(records),
        0 <= i < records.len(),
    ensures
        inserts_of(records.remove(i), records) == Seq::<ItemView>::empty(),
        deletes_of(records.remove(i), records) == seq![records[i].abs_path],
        unchanged_of(records.remove(i), records) == records.len() - 1,
{
    let snapshot = records.remove(i);
    assert(snapshot.filter(to_write(records)) == Seq::<ItemView>::empty()
        && snapshot.filter(to_replace(records)) == Seq::<ItemView>::empty()
        && snapshot.filter(to_keep(records)) == snapshot) by {
        assert forall|j: int| 0 <= j < snapshot.len() implies is_unchanged(
            #[trigger] snapshot[j],
            records,
        ) && !is_changed(snapshot[j], records) by {
            lemma_kept_is_unchanged(records, i, j);
        }
        lemma_filter_none(snapshot, to_write(records));
        lemma_filter_none(snapshot, to_replace(records));
        lemma_filter_all(snapshot, to_keep(records));
    }
    assert(records.filter(is_gone(snapshot)) == seq![records[i]]) by {
        assert forall|k: int| 0 <= k < records.len() && k != i implies !is_gone(snapshot)(
            #[trigger] records[k],
        ) by {
            lemma_kept_is_found(records, i, k);
        }
        lemma_removed_is_gone(records, i);
        lemma_filter_only(records, is_gone(snapshot), i);
    }
    assert(paths_of(Seq::<ItemView>::empty()) + paths_of(seq![records[i]]) =~= seq![
        records[i].abs_path,
    ]);
}

/// A changed file: where the snapshot is the index with one record's size,
/// date or kind changed, the plan replaces that record, one delete of its
/// path and one insert of the new entry, and writes nothing else.
pub proof fn lemma_reconcile_changed(records: Seq<ItemView>, i: int, now: ItemView)
    requires
        distinct_paths(records),
        0 <= i < records.len(),
        now.abs_path == records[i].abs_path,
        !same_tracked(now, records[i]),
    ensures
        inserts_of(records.update(i, now), records) == seq![now],
        deletes_of(records.update(i, now), records) == seq![now.abs_path],
        unchanged_of(records.update(i, now), records) == records.len() - 1,
{
    let snapshot = records.update(i, now);
    lemma_lookup_own(records, i);
    assert forall|j: int| 0 <= j < snapshot.len() && j != i implies is_unchanged(
        #[trigger] snapshot[j],
        records,
    ) && !is_changed(snapshot[j], records) by {
        assert(snapshot[j] == records[j]);
        lemma_lookup_own(records, j);
    }
    assert(snapshot[i] == now);
    assert(is_changed(snapshot[i], records) && !is_unchanged(snapshot[i], records));
    lemma_filter_only(snapshot, to_write(records), i);
    lemma_filter_only(snapshot, to_replace(records), i);
    lemma_filter_all_but(snapshot, to_keep(records), i);
    assert forall|k: int| 0 <= k < records.len() implies !is_gone(snapshot)(
        #[trigger] records[k],
    ) by {
        assert(snapshot[k].abs_path == records[k].abs_path);
        lemma_lookup_found(snapshot, records[k].abs_path);
    }
    lemma_filter_none(records, is_gone(snapshot));
    assert(deletes_of(snapshot, records) =~= seq![now.abs_path]);
}

/// Selects the stored records that a plan leaves in place.
pub open spec fn survives(deletes: Seq<Seq<char>>) -> spec_fn(ItemView) -> bool {
    |record: ItemView| !deletes.contains(record.abs_path)
}

/// The index after the deletes and then the inserts of a plan are carried
/// out: the records whose path is not deleted, followed by the inserted
/// entries.
pub open spec fn applied(
    existing: Seq<ItemView>,
    deletes: Seq<Seq<char>>,
    inserts: Seq<ItemView>,
) -> Seq<ItemView> {
    existing.filter(survives(deletes)) + inserts
}

/// Whether two indexes say the same of `path`: both hold nothing for it, or
/// both hold a record for it with the same size, date and kind.
pub open spec fn agree_at(one: Seq<ItemView>, other: Seq<ItemView>, path: Seq<char>) -> bool {
    match (lookup(one, path), lookup(other, path)) {
        (Some(a), Some(b)) => same_tracked(a, b),
        (None, None) => true,
        _ => false,
    }
}

proof fn lemma_lookup_concat(a: Seq<ItemView>, b: Seq<ItemView>, path: Seq<char>)
    ensures
        lookup(a + b, path) == match lookup(b, path) {
            Some(found) => Some(found),
            None => lookup(a, path),
        },
    decreases b.len(),
{
    if b.len() == 0 {
        assert(a + b =~= a);
    } else {
        lemma_lookup_concat(a, b.drop_last(), path);
        assert((a + b).drop_last() =~= a + b.drop_last());
    }
}

proof fn lemma_lookup_filter_all(
    records: Seq<ItemView>,
    pred: spec_fn(ItemView) -> bool,
    path: Seq<char>,
)
    requires
        forall|j: int|
            0 <= j < records.len() && (#[trigger] records[j]).abs_path == path ==> pred(records[j]),
    ensures
        lookup(records.filter(pred), path) == lookup(records, path),
    decreases records.len(),
{
    reveal(Seq::filter);
    if records.len() > 0 {
        let front = records.drop_last();
        assert forall|j: int|
            0 <= j < front.len() && (#[trigger] front[j]).abs_path == path implies pred(
            front[j],
        ) by {
            assert(front[j] == records[j]);
        }
        lemma_lookup_filter_all(front, pred, path);
        assert(records[records.len() - 1] == records.last());
        if pred(records.last()) {
            assert(front.filter(pred).push(records.last()).drop_last() =~= front.filter(pred));
        }
    }
}

proof fn lemma_lookup_filter_none(
    records: Seq<ItemView>,
    pred: spec_fn(ItemView) -> bool,
    path: Seq<char>,
)
    requires
        forall|j: int|
            0 <= j < records.len() && (#[trigger] records[j]).abs_path == path ==> !pred(
                records[j],
            ),
    ensures
        lookup(records.filter(pred), path) is None,
    decreases records.len(),
{
    reveal(Seq::filter);
    if records.len() > 0 {
        let front = records.drop_last();
        assert forall|j: int|
            0 <= j < front.len() && (#[trigger] front[j]).abs_path == path implies !pred(
            front[j],
        ) by {
            assert(front[j] == records[j]);
        }
        lemma_lookup_filter_none(front, pred, path);
        assert(records[records.len() - 1] == records.last());
        if pred(records.last()) {
            assert(front.filter(pred).push(records.last()).drop_last() =~= front.filter(pred));
        }
    }
}

proof fn lemma_filtered_paths(
    records: Seq<ItemView>,
    pred: spec_fn(ItemView) -> bool,
    path: Seq<char>,
)
    ensures
        paths_of(records.filter(pred)).contains(path) <==> exists|j: int|
            0 <= j < records.len() && (#[trigger] records[j]).abs_path == path && pred(records[j]),
    decreases records.len(),
{
    reveal(Seq::filter);
    let chosen = records.filter(pred);
    if records.len() == 0 {
        assert(paths_of(chosen) =~= Seq::<Seq<char>>::empty());
    } else {
        let front = records.drop_last();
        let last = records.last();
        lemma_filtered_paths(front, pred, path);
        let front_paths = paths_of(front.filter(pred));
        if pred(last) {
            assert(paths_of(chosen) =~= front_paths.push(last.abs_path));
        }
        if paths_of(chosen).contains(path) {
            let k = choose|k: int| 0 <= k < paths_of(chosen).len() && paths_of(chosen)[k] == path;
            if pred(last) && k == front_paths.len() {
                assert(records[records.len() - 1] == last);
            } else {
                assert(front_paths[k] == path);
                let j = choose|j: int|
                    0 <= j < front.len() && (#[trigger] front[j]).abs_path == path && pred(
                        front[j],
                    );
                assert(records[j] == front[j]);
            }
        }
        if exists|j: int|
            0 <= j < records.len() && (#[trigger] records[j]).abs_path == path && pred(records[j]) {
            let j = choose|j: int|
                0 <= j < records.len() && (#[trigger] records[j]).abs_path == path && pred(
                    records[j],
                );
            if j == records.len() - 1 {
                assert(paths_of(chosen)[front_paths.len() as int] == path);
            } else {
                assert(front[j] == records[j]);
                let k = choose|k: int| 0 <= k < front_paths.len() && front_paths[k] == path;
                assert(paths_of(chosen)[k] == path);
            }
        }
    }
}

/// Whether the plan for `snapshot` against `existing` deletes `path`: it
/// does exactly if the index holds the path and the snapshot holds it
/// changed or not at all.
proof fn lemma_deleted_paths(snapshot: Seq<ItemView>, existing: Seq<ItemView>, path: Seq<char>)
    requires
        distinct_paths(snapshot),
    ensures
        deletes_of(snapshot, existing).contains(path) <==> match lookup(existing, path) {
            Some(record) => match lookup(snapshot, path) {
                Some(entry) => !same_tracked(entry, record),
                None => true,
            },
            None => false,
        },
{
    let replaced = paths_of(snapshot.filter(to_replace(existing)));
    let gone = paths_of(existing.filter(is_gone(snapshot)));
    lemma_filtered_paths(snapshot, to_replace(existing), path);
    lemma_filtered_paths(existing, is_gone(snapshot), path);
    lemma_lookup_found(snapshot, path);
    lemma_lookup_found(existing, path);
    let deletes = replaced + gone;
    if deletes.contains(path) {
        let k = choose|k: int| 0 <= k < deletes.len() && deletes[k] == path;
        if k < replaced.len() {
            assert(replaced[k] == path);
            let j = choose|j: int|
                0 <= j < snapshot.len() && (#[trigger] snapshot[j]).abs_path == path && to_replace(
                    existing,
                )(snapshot[j]);
            lemma_lookup_own(snapshot, j);
        } else {
            assert(gone[k - replaced.len()] == path);
        }
    }
    match lookup(existing, path) {
        Some(record) => {
            let r = choose|r: int| 0 <= r < existing.len() && #[trigger] existing[r] == record;
            match lookup(snapshot, path) {
                Some(entry) => {
                    let j = choose|j: int|
                        0 <= j < snapshot.len() && #[trigger] snapshot[j] == entry;
                    if !same_tracked(entry, record) {
                        assert(to_replace(existing)(snapshot[j]));
                        assert(replaced.contains(path));
                        let k = choose|k: int| 0 <= k < replaced.len() && replaced[k] == path;
                        assert(deletes[k] == path);
                    }
                },
                None => {
                    assert(is_gone(snapshot)(existing[r]));
                    assert(gone.contains(path));
                    let k = choose|k: int| 0 <= k < gone.len() && gone[k] == path;
                    assert(deletes[replaced.len() + k] == path);
                },
            }
        },
        None => {},
    }
}

/// The plan is right: once its deletes and inserts are carried out, the
/// index says of every path what the snapshot says of it.
pub proof fn lemma_plan_brings_up_to_date(
    snapshot: Seq<ItemView>,
    existing: Seq<ItemView>,
    path: Seq<char>,
)
    requires
        distinct_paths(snapshot),
    ensures
        agree_at(
            applied(existing, deletes_of(snapshot, existing), inserts_of(snapshot, existing)),
            snapshot,
            path,
        ),
{
    let deletes = deletes_of(snapshot, existing);
    let inserts = inserts_of(snapshot, existing);
    let kept = existing.filter(survives(deletes));
    lemma_lookup_concat(kept, inserts, path);
    lemma_deleted_paths(snapshot, existing, path);
    lemma_lookup_found(snapshot, path);
    lemma_lookup_found(existing, path);
    if deletes.contains(path) {
        lemma_lookup_filter_none(existing, survives(deletes), path);
    } else {
        lemma_lookup_filter_all(existing, survives(deletes), path);
    }
    match lookup(snapshot, path) {
        Some(entry) => {
            let j = choose|j: int| 0 <= j < snapshot.len() && #[trigger] snapshot[j] == entry;
            assert forall|k: int|
                0 <= k < snapshot.len() && (#[trigger] snapshot[k]).abs_path == path implies k
                == j by {
                if k < j {
                    assert(snapshot[k].abs_path != snapshot[j].abs_path);
                } else if j < k {
                    assert(snapshot[j].abs_path != snapshot[k].abs_path);
                }
            }
            if is_unchanged(entry, existing) {
                lemma_lookup_filter_none(snapshot, to_write(existing), path);
            } else {
                lemma_lookup_filter_all(snapshot, to_write(existing), path);
            }
        },
        None => {
            lemma_lookup_filter_none(snapshot, to_write(existing), path);
        },
    }
}

/// Once a plan is carried out, reconciling the same snapshot again asks for
/// no write and counts every entry as unchanged.
pub proof fn lemma_second_pass_is_empty(snapshot: Seq<ItemView>, existing: Seq<ItemView>)
    requires
        distinct_paths(snapshot),
    ensures
        ({
            let index = applied(
                existing,
                deletes_of(snapshot, existing),
                inserts_of(snapshot, existing),
            );
            &&& inserts_of(snapshot, index) == Seq::<ItemView>::empty()
            &&& deletes_of(snapshot, index) == Seq::<Seq<char>>::empty()
            &&& unchanged_of(snapshot, index) == snapshot.len()
        }),
{
    let index = applied(existing, deletes_of(snapshot, existing), inserts_of(snapshot, existing));
    assert forall|j: int| 0 <= j < snapshot.len() implies is_unchanged(
        #[trigger] snapshot[j],
        index,
    ) && !is_changed(snapshot[j], index) by {
        lemma_plan_brings_up_to_date(snapshot, existing, snapshot[j].abs_path);
        lemma_lookup_own(snapshot, j);
    }
    assert forall|k: int| 0 <= k < index.len() implies !is_gone(snapshot)(#[trigger] index[k]) by {
        lemma_plan_brings_up_to_date(snapshot, existing, index[k].abs_path);
        lemma_lookup_found(index, index[k].abs_path);
    }
    lemma_filter_none(snapshot, to_write(index));
    lemma_filter_none(snapshot, to_replace(index));
    lemma_filter_all(snapshot, to_keep(index));
    lemma_filter_none(index, is_gone(snapshot));
    assert(deletes_of(snapshot, index) =~= Seq::<Seq<char>>::empty());
}

/// Every snapshot entry is either inserted or counted as unchanged, never
/// both, and every delete of a changed entry comes with its insert.
pub proof fn lemma_plan_partitions(snapshot: Seq<ItemView>, existing: Seq<ItemView>)
    ensures
        inserts_of(snapshot, existing).len() + unchanged_of(snapshot, existing) == snapshot.len(),
        snapshot.filter(to_replace(existing)).len() <= inserts_of(snapshot, existing).len(),
    decreases snapshot.len(),
{
    reveal(Seq::filter);
    if snapshot.len() > 0 {
        lemma_plan_partitions(snapshot.drop_last(), existing);
    }
}

} // verus!
