//! Facts about batches and keyed tables that every import relies on.

use vstd::prelude::*;
use vstd::seq_lib::lemma_flatten_concat;

verus! {

/// The rows that a batch contributes to a table: the records that pass
/// `keep`, in their order, each turned into a row.
pub open spec fn select<A, B>(
    records: Seq<A>,
    keep: spec_fn(A) -> bool,
    row: spec_fn(A) -> B,
) -> Seq<B> {
    records.filter(keep).map_values(row)
}

/// Reading one more record adds its row, or nothing if the record is skipped.
pub proof fn lemma_select_step<A, B>(
    records: Seq<A>,
    keep: spec_fn(A) -> bool,
    row: spec_fn(A) -> B,
    i: int,
)
    requires
        0 <= i < records.len(),
    ensures
        select(records.take(i + 1), keep, row) == if keep(records[i]) {
            select(records.take(i), keep, row).push(row(records[i]))
        } else {
            select(records.take(i), keep, row)
        },
{
    assert(records.take(i + 1) =~= records.take(i).push(records[i]));
    records.take(i).lemma_filter_push(records[i], keep);
    if keep(records[i]) {
        assert(records.take(i).filter(keep).push(records[i]).map_values(row)
            =~= records.take(i).filter(keep).map_values(row).push(row(records[i])));
    }
}

/// The rows of a batch are the rows of any prefix followed by the rows of
/// the rest.
pub proof fn lemma_select_split<A, B>(
    records: Seq<A>,
    keep: spec_fn(A) -> bool,
    row: spec_fn(A) -> B,
    i: int,
)
    requires
        0 <= i <= records.len(),
    ensures
        select(records, keep, row) == select(records.take(i), keep, row) + select(
            records.skip(i),
            keep,
            row,
        ),
{
    assert(records =~= records.take(i) + records.skip(i));
    Seq::filter_distributes_over_add(records.take(i), records.skip(i), keep);
    assert((records.take(i).filter(keep) + records.skip(i).filter(keep)).map_values(row)
        =~= records.take(i).filter(keep).map_values(row) + records.skip(i).filter(keep).map_values(
        row,
    ));
}

/// Every row of a batch comes from a record that was kept, and every kept
/// record has its row in the batch.
pub proof fn lemma_select_members<A, B>(
    records: Seq<A>,
    keep: spec_fn(A) -> bool,
    row: spec_fn(A) -> B,
)
    ensures
        forall|k: int|
            0 <= k < select(records, keep, row).len() ==> exists|i: int|
                0 <= i < records.len() && keep(records[i]) && #[trigger] select(
                    records,
                    keep,
                    row,
                )[k] == row(#[trigger] records[i]),
        forall|i: int|
            0 <= i < records.len() && keep(#[trigger] records[i]) ==> select(
                records,
                keep,
                row,
            ).contains(row(records[i])),
    decreases records.len(),
{
    reveal(Seq::filter);
    if records.len() > 0 {
        let init = records.drop_last();
        lemma_select_members(init, keep, row);
        assert(records =~= init.push(records.last()));
        assert(init.push(records.last()).drop_last() =~= init);
        let all = select(records, keep, row);
        let before = select(init, keep, row);
        if keep(records.last()) {
            assert(all =~= before.push(row(records.last())));
            assert(all[all.len() - 1] == row(records[records.len() - 1]));
        } else {
            assert(all =~= before);
        }
        assert forall|k: int| 0 <= k < all.len() implies exists|i: int|
            0 <= i < records.len() && keep(records[i]) && #[trigger] all[k] == row(
                #[trigger] records[i],
            ) by {
            if k < before.len() {
                let i = choose|i: int|
                    0 <= i < init.len() && keep(init[i]) && #[trigger] before[k] == row(
                        #[trigger] init[i],
                    );
                assert(records[i] == init[i]);
            } else {
                assert(all[k] == row(records[records.len() - 1]));
            }
        }
        assert forall|i: int| 0 <= i < records.len() && keep(#[trigger] records[i]) implies all.contains(
            row(records[i]),
        ) by {
            if i < init.len() {
                assert(records[i] == init[i]);
                assert(before.contains(row(init[i])));
                let k = choose|k: int| 0 <= k < before.len() && before[k] == row(init[i]);
                assert(all[k] == row(records[i]));
            } else {
                assert(all[all.len() - 1] == row(records[i]));
            }
        }
    }
}

/// The rows that a batch contributes to a table when one record may give
/// several: the rows of the records that pass `keep`, in their order.
pub open spec fn select_many<A, B>(
    records: Seq<A>,
    keep: spec_fn(A) -> bool,
    rows: spec_fn(A) -> Seq<B>,
) -> Seq<B> {
    records.filter(keep).map_values(rows).flatten()
}

/// Reading one more record adds its rows, or nothing if the record is
/// skipped.
pub proof fn lemma_select_many_step<A, B>(
    records: Seq<A>,
    keep: spec_fn(A) -> bool,
    rows: spec_fn(A) -> Seq<B>,
    i: int,
)
    requires
        0 <= i < records.len(),
    ensures
        select_many(records.take(i + 1), keep, rows) == if keep(records[i]) {
            select_many(records.take(i), keep, rows) + rows(records[i])
        } else {
            select_many(records.take(i), keep, rows)
        },
{
    assert(records.take(i + 1) =~= records.take(i).push(records[i]));
    records.take(i).lemma_filter_push(records[i], keep);
    if keep(records[i]) {
        let kept = records.take(i).filter(keep).map_values(rows);
        let last = seq![rows(records[i])];
        assert(records.take(i).filter(keep).push(records[i]).map_values(rows) =~= kept + last);
        lemma_flatten_concat(kept, last);
        last.lemma_flatten_one_element();
    }
}

/// The rows of a batch are the rows of any prefix followed by the rows of
/// the rest.
pub proof fn lemma_select_many_split<A, B>(
    records: Seq<A>,
    keep: spec_fn(A) -> bool,
    rows: spec_fn(A) -> Seq<B>,
    i: int,
)
    requires
        0 <= i <= records.len(),
    ensures
        select_many(records, keep, rows) == select_many(records.take(i), keep, rows) + select_many(
            records.skip(i),
            keep,
            rows,
        ),
{
    assert(records =~= records.take(i) + records.skip(i));
    Seq::filter_distributes_over_add(records.take(i), records.skip(i), keep);
    let a = records.take(i).filter(keep).map_values(rows);
    let b = records.skip(i).filter(keep).map_values(rows);
    assert((records.take(i).filter(keep) + records.skip(i).filter(keep)).map_values(rows) =~= a + b);
    lemma_flatten_concat(a, b);
}

/// Every row of a batch is one of the rows of a record that was kept, and
/// every row of a kept record is in the batch.
pub proof fn lemma_select_many_members<A, B>(
    records: Seq<A>,
    keep: spec_fn(A) -> bool,
    rows: spec_fn(A) -> Seq<B>,
)
    ensures
        forall|b: B| #[trigger]
            select_many(records, keep, rows).contains(b) <==> exists|i: int|
                0 <= i < records.len() && keep(records[i]) && (#[trigger] rows(records[i])).contains(
                    b,
                ),
    decreases records.len(),
{
    let all = select_many(records, keep, rows);
    if records.len() == 0 {
        reveal(Seq::filter);
        assert(records.filter(keep).map_values(rows) =~= Seq::<Seq<B>>::empty());
        assert(all =~= Seq::<B>::empty());
    } else {
        let n = records.len() - 1;
        let init = records.take(n);
        let before = select_many(init, keep, rows);
        lemma_select_many_members(init, keep, rows);
        lemma_select_many_step(records, keep, rows, n);
        assert(records.take(n + 1) =~= records);
        assert forall|b: B| #[trigger] all.contains(b) <==> exists|i: int|
            0 <= i < records.len() && keep(records[i]) && (#[trigger] rows(records[i])).contains(
                b,
            ) by {
            if keep(records[n]) {
                lemma_contains_in_concat(before, rows(records[n]), b);
            }
            if before.contains(b) {
                let i = choose|i: int|
                    0 <= i < init.len() && keep(init[i]) && (#[trigger] rows(init[i])).contains(b);
                assert(records[i] == init[i]);
            }
            if exists|i: int|
                0 <= i < records.len() && keep(records[i]) && (#[trigger] rows(records[i])).contains(
                    b,
                ) {
                let i = choose|i: int|
                    0 <= i < records.len() && keep(records[i]) && (#[trigger] rows(
                        records[i],
                    )).contains(b);
                if i < n {
                    assert(init[i] == records[i]);
                    assert(keep(init[i]) && rows(init[i]).contains(b));
                }
            }
        }
    }
}

/// Two kept records have their rows at two places of the batch, in the order
/// of the records.
pub proof fn lemma_select_two<A, B>(
    records: Seq<A>,
    keep: spec_fn(A) -> bool,
    row: spec_fn(A) -> B,
    i: int,
    j: int,
)
    requires
        0 <= i < j < records.len(),
        keep(records[i]),
        keep(records[j]),
    ensures
        exists|a: int, b: int|
            0 <= a < b < select(records, keep, row).len() && #[trigger] select(
                records,
                keep,
                row,
            )[a] == row(records[i]) && #[trigger] select(records, keep, row)[b] == row(records[j]),
{
    let first = select(records.take(j), keep, row);
    let second = select(records.skip(j), keep, row);
    let all = select(records, keep, row);
    lemma_select_split(records, keep, row, j);
    lemma_select_members(records.take(j), keep, row);
    lemma_select_members(records.skip(j), keep, row);
    assert(records.take(j)[i] == records[i]);
    assert(records.skip(j)[0] == records[j]);
    assert(first.contains(row(records.take(j)[i])));
    assert(second.contains(row(records.skip(j)[0])));
    let a = choose|a: int| 0 <= a < first.len() && first[a] == row(records[i]);
    let b = choose|b: int| 0 <= b < second.len() && second[b] == row(records[j]);
    assert(all[a] == row(records[i]));
    assert(all[first.len() + b] == row(records[j]));
}

/// Rows that already repeat a key still do when more rows follow.
pub proof fn lemma_duplicates_persist<R, K>(part: Seq<R>, rest: Seq<R>, key: spec_fn(R) -> K)
    requires
        !part.map_values(key).no_duplicates(),
    ensures
        !(part + rest).map_values(key).no_duplicates(),
{
    assert((part + rest).map_values(key) =~= part.map_values(key) + rest.map_values(key));
    if (part + rest).map_values(key).no_duplicates() {
        lemma_no_duplicates_prefix(part.map_values(key), rest.map_values(key));
    }
}

/// A row can join a table and the batch staged for it exactly when its key
/// occurs in neither.
pub proof fn lemma_key_is_new<R, K>(table: Seq<R>, batch: Seq<R>, r: R, key: spec_fn(R) -> K)
    ensures
        (table + batch.push(r)).map_values(key).no_duplicates() <==> (table + batch).map_values(
            key,
        ).no_duplicates() && !table.map_values(key).contains(key(r)) && !batch.map_values(
            key,
        ).contains(key(r)),
{
    let t = table.map_values(key);
    let b = batch.map_values(key);
    let all = (table + batch).map_values(key);
    assert(all =~= t + b);
    assert((table + batch.push(r)).map_values(key) =~= all.push(key(r)));
    lemma_no_duplicates_push(all, key(r));
    if t.contains(key(r)) {
        let k = choose|k: int| 0 <= k < t.len() && t[k] == key(r);
        assert(all[k] == key(r));
    }
    if b.contains(key(r)) {
        let k = choose|k: int| 0 <= k < b.len() && b[k] == key(r);
        assert(all[t.len() + k] == key(r));
    }
    if all.contains(key(r)) {
        let k = choose|k: int| 0 <= k < all.len() && all[k] == key(r);
        if k < t.len() {
            assert(t[k] == key(r));
        } else {
            assert(b[k - t.len()] == key(r));
        }
    }
}

/// What either of two sequences holds, their concatenation holds.
pub proof fn lemma_contains_in_concat<K>(a: Seq<K>, b: Seq<K>, k: K)
    ensures
        a.contains(k) ==> (a + b).contains(k),
        b.contains(k) ==> (a + b).contains(k),
        (a + b).contains(k) ==> a.contains(k) || b.contains(k),
{
    if a.contains(k) {
        let i = choose|i: int| 0 <= i < a.len() && a[i] == k;
        assert((a + b)[i] == k);
    }
    if b.contains(k) {
        let i = choose|i: int| 0 <= i < b.len() && b[i] == k;
        assert((a + b)[a.len() + i] == k);
    }
    if (a + b).contains(k) {
        let i = choose|i: int| 0 <= i < (a + b).len() && (a + b)[i] == k;
        if i < a.len() {
            assert(a[i] == k);
        } else {
            assert(b[i - a.len()] == k);
        }
    }
}

/// A table without repeated keys has none in any leading part of it.
pub proof fn lemma_no_duplicates_prefix<K>(a: Seq<K>, b: Seq<K>)
    requires
        (a + b).no_duplicates(),
    ensures
        a.no_duplicates(),
{
    assert forall|i: int, j: int| 0 <= i < a.len() && 0 <= j < a.len() && i != j implies a[i]
        != a[j] by {
        assert((a + b)[i] == a[i]);
        assert((a + b)[j] == a[j]);
    }
}

/// Adding a key keeps a table free of repeats exactly when the key is new.
pub proof fn lemma_no_duplicates_push<K>(a: Seq<K>, k: K)
    ensures
        a.push(k).no_duplicates() <==> a.no_duplicates() && !a.contains(k),
{
    let b = a.push(k);
    if a.no_duplicates() && !a.contains(k) {
        assert forall|i: int, j: int| 0 <= i < b.len() && 0 <= j < b.len() && i != j implies b[i]
            != b[j] by {
            if i < a.len() {
                assert(a.contains(a[i]));
            }
            if j < a.len() {
                assert(a.contains(a[j]));
            }
        }
    }
    if b.no_duplicates() {
        assert forall|i: int, j: int| 0 <= i < a.len() && 0 <= j < a.len() && i != j implies a[i]
            != a[j] by {
            assert(b[i] == a[i]);
            assert(b[j] == a[j]);
        }
        if a.contains(k) {
            let i = choose|i: int| 0 <= i < a.len() && a[i] == k;
            assert(b[i] == k);
            assert(b[a.len() as int] == k);
        }
    }
}

/// Whether `text` is among the first `upto` of `texts`.
pub(crate) fn seen_before(texts: &Vec<String>, upto: usize, text: &String) -> (found: bool)
    requires
        upto <= texts.len(),
    ensures
        found == exists|k: int| 0 <= k < upto && texts[k]@ == text@,
{
    let mut k: usize = 0;
    while k < upto
        invariant
            k <= upto <= texts.len(),
            forall|m: int| 0 <= m < k ==> texts[m]@ != text@,
        decreases upto - k,
    {
        if texts[k] == *text {
            return true;
        }
        k += 1;
    }
    false
}

} // verus!
