//! Pool records, pool and membership rows and the import of a batch of pools.

use vstd::prelude::*;
use crate::relation::{
    lemma_contains_in_concat, lemma_duplicates_persist, lemma_key_is_new,
    lemma_select_many_members, lemma_select_many_step, lemma_select_members, lemma_select_split,
    lemma_select_step, lemma_select_two, select, select_many,
};
use crate::store::{PipelineError, Stage, Store, StoreView};

verus! {

/// One pool as it appears in a source file.
#[derive(Clone, Debug, PartialEq, Eq)]
pub struct Pool {
    pub id: u32,
    pub name: String,
    pub description: String,
    /// The member images, in the pool's order. An image may be listed more
    /// than once.
    pub post_ids: Vec<u32>,
    pub is_active: bool,
    pub is_deleted: bool,
}

/// One row of the pool table.
#[derive(Clone, Debug, PartialEq, Eq)]
pub struct PoolRow {
    pub pool_id: u32,
    pub name: String,
    pub description: String,
    /// Length of the member list as the source gave it, repeats included.
    pub image_count: u64,
}

/// One row of the membership table: `image_id` belongs to `pool_id`.
#[derive(Clone, Copy, Debug, PartialEq, Eq, Structural)]
pub struct PoolImage {
    pub pool_id: u32,
    pub image_id: u32,
}

/// The primary keys of a pool table, in row order.
pub open spec fn pool_ids(rows: Seq<PoolRow>) -> Seq<u32> {
    rows.map_values(|r: PoolRow| r.pool_id)
}

/// A pool is kept if it is active, not deleted, and has at least one member.
pub open spec fn pool_is_kept(r: Pool) -> bool {
    !r.is_deleted && r.is_active && r.post_ids@.len() > 0
}

/// The row stored for a kept pool. Its image count is the length of the
/// member list as given, before repeats are dropped.
pub open spec fn pool_row(r: Pool) -> PoolRow {
    PoolRow {
        pool_id: r.id,
        name: r.name,
        description: r.description,
        image_count: r.post_ids@.len() as u64,
    }
}

/// The ids of `ids` without repeats: each id once, in the order of first
/// occurrence.
pub open spec fn distinct(ids: Seq<u32>) -> Seq<u32>
    decreases ids.len(),
{
    if ids.len() == 0 {
        Seq::empty()
    } else {
        let init = distinct(ids.drop_last());
        if init.contains(ids.last()) {
            init
        } else {
            init.push(ids.last())
        }
    }
}

/// The membership rows stored for a kept pool: one for each distinct member.
pub open spec fn memberships(r: Pool) -> Seq<PoolImage> {
    distinct(r.post_ids@).map_values(|image_id: u32| PoolImage { pool_id: r.id, image_id })
}

/// The pool rows that a batch of pool records contributes.
pub open spec fn pool_rows(records: Seq<Pool>) -> Seq<PoolRow> {
    select(records, |r: Pool| pool_is_kept(r), |r: Pool| pool_row(r))
}

/// The membership rows that a batch of pool records contributes.
pub open spec fn pool_image_rows(records: Seq<Pool>) -> Seq<PoolImage> {
    select_many(records, |r: Pool| pool_is_kept(r), |r: Pool| memberships(r))
}

/// `distinct` drops repeats and nothing else: its result has no repeats and
/// holds exactly the ids of its argument.
pub proof fn lemma_distinct(ids: Seq<u32>)
    ensures
        distinct(ids).no_duplicates(),
        distinct(ids).len() <= ids.len(),
        forall|x: u32| distinct(ids).contains(x) <==> ids.contains(x),
        distinct(ids).to_set() == ids.to_set(),
    decreases ids.len(),
{
    if ids.len() > 0 {
        let init = ids.drop_last();
        let last = ids.last();
        lemma_distinct(init);
        assert(ids =~= init.push(last));
        crate::relation::lemma_no_duplicates_push(distinct(init), last);
        assert forall|x: u32| distinct(ids).contains(x) <==> ids.contains(x) by {
            lemma_contains_in_concat(init, seq![last], x);
            lemma_contains_in_concat(distinct(init), seq![last], x);
            assert(init.push(last) =~= init + seq![last]);
            assert(distinct(init).push(last) =~= distinct(init) + seq![last]);
            assert(seq![last].contains(x) <==> x == last) by {
                if x == last {
                    assert(seq![last][0] == x);
                }
            }
        }
    }
    assert(distinct(ids).to_set() =~= ids.to_set());
}

/// Whether `id` is the key of one of `rows`.
pub fn has_pool_id(rows: &Vec<PoolRow>, id: u32) -> (found: bool)
    ensures
        found == pool_ids(rows@).contains(id),
{
    let mut i: usize = 0;
    while i < rows.len()
        invariant
            i <= rows.len(),
            forall|k: int| 0 <= k < i ==> pool_ids(rows@)[k] != id,
        decreases rows.len() - i,
    {
        if rows[i].pool_id == id {
            assert(pool_ids(rows@)[i as int] == id);
            return true;
        }
        i += 1;
    }
    false
}

fn holds(ids: &Vec<u32>, id: u32) -> (found: bool)
    ensures
        found == ids@.contains(id),
{
    let mut i: usize = 0;
    while i < ids.len()
        invariant
            i <= ids.len(),
            forall|k: int| 0 <= k < i ==> ids[k] != id,
        decreases ids.len() - i,
    {
        if ids[i] == id {
            return true;
        }
        i += 1;
    }
    false
}

/// The ids of `ids` without repeats, in the order of first occurrence.
pub fn dedup(ids: &Vec<u32>) -> (out: Vec<u32>)
    ensures
        out@ == distinct(ids@),
{
    let mut out: Vec<u32> = Vec::new();
    let mut i: usize = 0;
    while i < ids.len()
        invariant
            i <= ids.len(),
            out@ == distinct(ids@.take(i as int)),
        decreases ids.len() - i,
    {
        assert(ids@.take(i + 1).drop_last() =~= ids@.take(i as int));
        if !holds(&out, ids[i]) {
            out.push(ids[i]);
        }
        i += 1;
    }
    assert(ids@.take(i as int) =~= ids@);
    out
}

/// Stages the membership rows of one kept pool behind `batch`.
fn stage_members(r: &Pool, batch: &mut Vec<PoolImage>)
    ensures
        final(batch)@ == old(batch)@ + memberships(*r),
{
    let members = dedup(&r.post_ids);
    let mut j: usize = 0;
    while j < members.len()
        invariant
            j <= members.len(),
            members@ == distinct(r.post_ids@),
            batch@ == old(batch)@ + memberships(*r).take(j as int),
        decreases members.len() - j,
    {
        assert(memberships(*r).take(j + 1) =~= memberships(*r).take(j as int).push(
            PoolImage { pool_id: r.id, image_id: members[j as int] },
        ));
        batch.push(PoolImage { pool_id: r.id, image_id: members[j] });
        j += 1;
    }
    assert(memberships(*r).take(j as int) =~= memberships(*r));
}

/// Every row of `rows` names a pool of `pools`.
spec fn members_owned(rows: Seq<PoolImage>, pools: Seq<PoolRow>) -> bool {
    forall|k: int| 0 <= k < rows.len() ==> pool_ids(pools).contains((#[trigger] rows[k]).pool_id)
}

/// The membership rows of a pool that is new to the table clash with none
/// that are there, nor with each other.
proof fn lemma_memberships_fit(existing: Seq<PoolImage>, r: Pool)
    requires
        existing.no_duplicates(),
        forall|k: int| 0 <= k < existing.len() ==> (#[trigger] existing[k]).pool_id != r.id,
    ensures
        (existing + memberships(r)).no_duplicates(),
{
    lemma_distinct(r.post_ids@);
    let new = memberships(r);
    let all = existing + new;
    assert forall|a: int, b: int| 0 <= a < all.len() && 0 <= b < all.len() && a != b implies all[a]
        != all[b] by {
        if a >= existing.len() && b >= existing.len() {
            assert(new[a - existing.len()].image_id == distinct(r.post_ids@)[a - existing.len()]);
            assert(new[b - existing.len()].image_id == distinct(r.post_ids@)[b - existing.len()]);
        } else if a >= existing.len() {
            assert(all[a].pool_id == r.id);
            assert(all[b] == existing[b]);
        } else if b >= existing.len() {
            assert(all[b].pool_id == r.id);
            assert(all[a] == existing[a]);
        }
    }
}

/// Staged memberships stay owned when a pool joins the batch together with
/// its own memberships.
proof fn lemma_members_stay_owned(before: Seq<PoolImage>, pools: Seq<PoolRow>, r: Pool)
    requires
        members_owned(before, pools),
    ensures
        members_owned(before + memberships(r), pools.push(pool_row(r))),
{
    let after = before + memberships(r);
    let ids = pool_ids(pools.push(pool_row(r)));
    assert(ids =~= pool_ids(pools) + seq![r.id]);
    assert(seq![r.id].contains(r.id)) by {
        assert(seq![r.id][0] == r.id);
    }
    assert forall|k: int| 0 <= k < after.len() implies ids.contains((#[trigger] after[k]).pool_id) by {
        if k < before.len() {
            assert(after[k] == before[k]);
        } else {
            assert(after[k] == memberships(r)[k - before.len()]);
        }
        lemma_contains_in_concat(pool_ids(pools), seq![r.id], after[k].pool_id);
    }
}

/// The images that the membership table lists for pool `pool_id`.
pub open spec fn stored_members(pool_images: Seq<PoolImage>, pool_id: u32) -> Set<u32> {
    Set::new(|image_id: u32| pool_images.contains(PoolImage { pool_id, image_id }))
}

/// What a kept pool record gives: a row whose image count is the length of
/// the member list as given, and membership rows, all of that pool and no
/// two alike, whose images are exactly the ids that the list holds.
pub proof fn lemma_pool_record(r: Pool)
    ensures
        pool_row(r).pool_id == r.id,
        pool_row(r).image_count == r.post_ids@.len(),
        memberships(r).no_duplicates(),
        forall|k: int| 0 <= k < memberships(r).len() ==> (#[trigger] memberships(r)[k]).pool_id == r.id,
        stored_members(memberships(r), r.id) == r.post_ids@.to_set(),
{
    assert(r.post_ids@.len() == r.post_ids.len() <= usize::MAX);
    lemma_memberships_fit(Seq::empty(), r);
    assert(Seq::<PoolImage>::empty() + memberships(r) =~= memberships(r));
    lemma_distinct(r.post_ids@);
    let ids = distinct(r.post_ids@);
    assert forall|image_id: u32|
        memberships(r).contains(PoolImage { pool_id: r.id, image_id }) <==> ids.contains(
            image_id,
        ) by {
        let m = PoolImage { pool_id: r.id, image_id };
        if memberships(r).contains(m) {
            let k = choose|k: int| 0 <= k < memberships(r).len() && memberships(r)[k] == m;
            assert(ids[k] == image_id);
        }
        if ids.contains(image_id) {
            let k = choose|k: int| 0 <= k < ids.len() && ids[k] == image_id;
            assert(memberships(r)[k] == m);
        }
    }
    assert(stored_members(memberships(r), r.id) =~= r.post_ids@.to_set());
}

/// After a batch of pools has been imported, the store holds for each kept
/// record of the batch its pool row, with the length of the member list as
/// given, and as the members of that pool exactly the ids that the list
/// holds, each once.
pub proof fn lemma_pool_import_stores(
    before: StoreView,
    after: StoreView,
    records: Seq<Pool>,
    i: int,
)
    requires
        before.wf(),
        pools_imported(before, records) == Ok::<_, PipelineError>(after),
        0 <= i < records.len(),
        pool_is_kept(records[i]),
    ensures
        after.pools.contains(pool_row(records[i])),
        pool_row(records[i]).image_count == records[i].post_ids@.len(),
        stored_members(after.pool_images, records[i].id) == records[i].post_ids@.to_set(),
{
    let r = records[i];
    let keep = |r: Pool| pool_is_kept(r);
    let row = |r: Pool| pool_row(r);
    let rows = |r: Pool| memberships(r);
    let ids = pool_ids(before.pools + pool_rows(records));
    lemma_pool_record(r);
    lemma_select_members(records, keep, row);
    lemma_select_many_members(records, keep, rows);
    lemma_contains_in_concat(before.pools, pool_rows(records), pool_row(r));
    let at = choose|at: int| 0 <= at < pool_rows(records).len() && pool_rows(records)[at] == pool_row(r);
    assert(ids[before.pools.len() + at] == r.id);
    assert forall|image_id: u32|
        after.pool_images.contains(PoolImage { pool_id: r.id, image_id }) <==> memberships(
            r,
        ).contains(PoolImage { pool_id: r.id, image_id }) by {
        let m = PoolImage { pool_id: r.id, image_id };
        lemma_contains_in_concat(before.pool_images, pool_image_rows(records), m);
        if memberships(r).contains(m) {
            assert(keep(records[i]) && rows(records[i]).contains(m));
        }
        if before.pool_images.contains(m) {
            let k = choose|k: int| 0 <= k < before.pool_images.len() && before.pool_images[k] == m;
            assert(pool_ids(before.pools).contains(before.pool_images[k].pool_id));
            let a = choose|a: int|
                0 <= a < pool_ids(before.pools).len() && pool_ids(before.pools)[a] == r.id;
            assert(ids[a] == r.id);
            assert(false);
        }
        if pool_image_rows(records).contains(m) {
            let j = choose|j: int|
                0 <= j < records.len() && keep(records[j]) && (#[trigger] rows(records[j])).contains(
                    m,
                );
            let k = choose|k: int|
                0 <= k < memberships(records[j]).len() && memberships(records[j])[k] == m;
            assert(records[j].id == r.id);
            if j != i {
                if i < j {
                    lemma_select_two(records, keep, row, i, j);
                } else {
                    lemma_select_two(records, keep, row, j, i);
                }
                let (a, b) = choose|a: int, b: int|
                    0 <= a < b < pool_rows(records).len() && pool_rows(records)[a].pool_id == r.id
                        && pool_rows(records)[b].pool_id == r.id;
                assert(ids[before.pools.len() + a] == r.id);
                assert(ids[before.pools.len() + b] == r.id);
                assert(false);
            }
        }
    }
    assert(stored_members(after.pool_images, r.id) =~= stored_members(memberships(r), r.id));
}

/// What the import of a batch of pools makes of a store: the pool table and
/// the membership table with the rows of the batch behind them. The import
/// is refused unless the store is open to imports, and unless the ids of the
/// resulting pool table are all different.
pub open spec fn pools_imported(s: StoreView, records: Seq<Pool>) -> Result<
    StoreView,
    PipelineError,
> {
    if s.stage != Stage::Importing {
        Err(PipelineError::OutOfOrder)
    } else if !pool_ids(s.pools + pool_rows(records)).no_duplicates() {
        Err(PipelineError::DuplicateKey)
    } else {
        Ok(
            StoreView {
                pools: s.pools + pool_rows(records),
                pool_images: s.pool_images + pool_image_rows(records),
                ..s
            },
        )
    }
}

/// Imports one batch of pool records.
///
/// Pools that are deleted, inactive or empty are skipped. Each of the others
/// gives one pool row, whose image count is the length of the member list as
/// given, and one membership row for each distinct member. The batch is
/// all-or-nothing: if any kept record repeats a pool id, of the table or of
/// the batch itself, nothing is stored.
pub fn import_pool(records: &Vec<Pool>, store: &mut Store) -> (res: Result<(), PipelineError>)
    ensures
        final(store)@.wf(),
        match pools_imported(old(store)@, records@) {
            Ok(after) => res is Ok && final(store)@ == after,
            Err(e) => res == Err::<(), _>(e) && final(store)@ == old(store)@,
        },
{
    proof {
        use_type_invariant(&*store);
    }
    if store.inner.stage != Stage::Importing {
        return Err(PipelineError::OutOfOrder);
    }
    let mut pools: Vec<PoolRow> = Vec::new();
    let mut members: Vec<PoolImage> = Vec::new();
    let ghost table = store@.pool_images;
    let mut i: usize = 0;
    while i < records.len()
        invariant
            i <= records.len(),
            *store == *old(store),
            store@.wf(),
            store@.stage == Stage::Importing,
            table == store@.pool_images,
            pools@ == pool_rows(records@.take(i as int)),
            members@ == pool_image_rows(records@.take(i as int)),
            pool_ids(store@.pools + pools@).no_duplicates(),
            (table + members@).no_duplicates(),
            members_owned(members@, pools@),
        decreases records.len() - i,
    {
        let r = &records[i];
        proof {
            lemma_select_step(records@, |r: Pool| pool_is_kept(r), |r: Pool| pool_row(r), i as int);
            lemma_select_many_step(
                records@,
                |r: Pool| pool_is_kept(r),
                |r: Pool| memberships(r),
                i as int,
            );
        }
        if !r.is_deleted && r.is_active && r.post_ids.len() > 0 {
            let clash = has_pool_id(&store.inner.pools, r.id) || has_pool_id(&pools, r.id);
            proof {
                lemma_key_is_new(store@.pools, pools@, pool_row(*r), |r: PoolRow| r.pool_id);
            }
            if clash {
                proof {
                    lemma_select_split(
                        records@,
                        |r: Pool| pool_is_kept(r),
                        |r: Pool| pool_row(r),
                        i + 1,
                    );
                    lemma_duplicates_persist(
                        store@.pools + pool_rows(records@.take(i + 1)),
                        pool_rows(records@.skip(i + 1)),
                        |r: PoolRow| r.pool_id,
                    );
                    assert(store@.pools + pool_rows(records@) =~= store@.pools + pool_rows(
                        records@.take(i + 1),
                    ) + pool_rows(records@.skip(i + 1)));
                }
                return Err(PipelineError::DuplicateKey);
            }
            proof {
                let before = members@;
                assert forall|k: int| 0 <= k < (table + before).len() implies (#[trigger] (table
                    + before)[k]).pool_id != r.id by {
                    if k < table.len() {
                        assert(store@.pool_images[k] == table[k]);
                    } else {
                        assert(before[k - table.len()] == (table + before)[k]);
                    }
                }
                lemma_memberships_fit(table + before, *r);
                assert(table + (before + memberships(*r)) =~= (table + before) + memberships(*r));
                lemma_members_stay_owned(before, pool_rows(records@.take(i as int)), *r);
            }
            pools.push(
                PoolRow {
                    pool_id: r.id,
                    name: r.name.clone(),
                    description: r.description.clone(),
                    image_count: r.post_ids.len() as u64,
                },
            );
            stage_members(r, &mut members);
        }
        i += 1;
    }
    proof {
        assert(records@.take(i as int) =~= records@);
        let all_pools = store@.pools + pools@;
        assert(pool_ids(all_pools) =~= pool_ids(store@.pools) + pool_ids(pools@));
        assert forall|k: int| 0 <= k < (table + members@).len() implies pool_ids(all_pools).contains(
            (#[trigger] (table + members@)[k]).pool_id,
        ) by {
            let m = (table + members@)[k];
            if k < table.len() {
                assert(store@.pool_images[k] == m);
            } else {
                assert(members@[k - table.len()] == m);
            }
            lemma_contains_in_concat(pool_ids(store@.pools), pool_ids(pools@), m.pool_id);
        }
    }
    let mut tables = store.take();
    tables.pools.append(&mut pools);
    tables.pool_images.append(&mut members);
    store.put(tables);
    Ok(())
}

} // verus!
