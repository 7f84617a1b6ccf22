//! Artist records, artist and alternate-name rows and the import of a batch
//! of artists.

use vstd::prelude::*;
use crate::relation::{
    lemma_contains_in_concat, lemma_duplicates_persist, lemma_key_is_new, lemma_select_many_split,
    lemma_select_many_step, lemma_select_split, lemma_select_step, seen_before, select,
    select_many,
};
use crate::store::{PipelineError, Stage, Store, StoreView};

verus! {

/// One artist as it appears in a source file.
#[derive(Clone, Debug, PartialEq, Eq)]
pub struct Artist {
    pub id: u32,
    pub name: String,
    pub other_names: Vec<String>,
    pub is_banned: Option<bool>,
    pub is_deleted: bool,
}

/// One row of the artist table.
#[derive(Clone, Debug, PartialEq, Eq)]
pub struct ArtistRow {
    pub artist_id: u32,
    pub name: String,
    pub is_banned: Option<bool>,
    pub is_deleted: bool,
    /// Number of images that carry the artist's own tag; zero until
    /// aggregation.
    pub count: u64,
    /// The artist-category tag that bears the artist's name; `None` until
    /// aggregation, and afterwards if there is no such tag.
    pub tag_id: Option<u32>,
}

/// One row of the alternate-name table.
#[derive(Clone, Debug, PartialEq, Eq)]
pub struct ArtistOtherName {
    pub artist_id: u32,
    pub name: String,
}

/// The primary keys of an artist table, in row order.
pub open spec fn artist_ids(rows: Seq<ArtistRow>) -> Seq<u32> {
    rows.map_values(|r: ArtistRow| r.artist_id)
}

/// The primary keys of an alternate-name table, in row order.
pub open spec fn other_name_keys(rows: Seq<ArtistOtherName>) -> Seq<(u32, Seq<char>)> {
    rows.map_values(|r: ArtistOtherName| (r.artist_id, r.name@))
}

/// Every artist record is kept.
pub open spec fn artist_is_kept(r: Artist) -> bool {
    true
}

/// The row stored for an artist. Its count and its tag are derived later.
pub open spec fn artist_row(r: Artist) -> ArtistRow {
    ArtistRow {
        artist_id: r.id,
        name: r.name,
        is_banned: r.is_banned,
        is_deleted: r.is_deleted,
        count: 0,
        tag_id: None,
    }
}

/// The alternate-name rows of artist `artist_id`: one for each name, in
/// order.
pub open spec fn names_of(names: Seq<String>, artist_id: u32) -> Seq<ArtistOtherName> {
    names.map_values(|n: String| ArtistOtherName { artist_id, name: n })
}

/// The alternate-name rows stored for an artist.
pub open spec fn other_names(r: Artist) -> Seq<ArtistOtherName> {
    names_of(r.other_names@, r.id)
}

/// The artist rows that a batch of artist records contributes.
pub open spec fn artist_rows(records: Seq<Artist>) -> Seq<ArtistRow> {
    select(records, |r: Artist| artist_is_kept(r), |r: Artist| artist_row(r))
}

/// The alternate-name rows that a batch of artist records contributes.
pub open spec fn other_name_rows(records: Seq<Artist>) -> Seq<ArtistOtherName> {
    select_many(records, |r: Artist| artist_is_kept(r), |r: Artist| other_names(r))
}

/// Whether `id` is the key of one of `rows`.
pub fn has_artist_id(rows: &Vec<ArtistRow>, id: u32) -> (found: bool)
    ensures
        found == artist_ids(rows@).contains(id),
{
    let mut i: usize = 0;
    while i < rows.len()
        invariant
            i <= rows.len(),
            forall|k: int| 0 <= k < i ==> artist_ids(rows@)[k] != id,
        decreases rows.len() - i,
    {
        if rows[i].artist_id == id {
            assert(artist_ids(rows@)[i as int] == id);
            return true;
        }
        i += 1;
    }
    false
}

/// Stages the alternate names of one artist behind `batch`, unless two of
/// them would share a key. No row of the table or of the batch names the
/// artist yet, so only a name that occurs twice can clash.
fn stage_names(
    names: &Vec<String>,
    artist_id: u32,
    Ghost(table): Ghost<Seq<ArtistOtherName>>,
    batch: &mut Vec<ArtistOtherName>,
) -> (ok: bool)
    requires
        other_name_keys(table + old(batch)@).no_duplicates(),
        forall|k: int|
            0 <= k < (table + old(batch)@).len() ==> (#[trigger] (table + old(
                batch,
            )@)[k]).artist_id != artist_id,
    ensures
        ok ==> final(batch)@ == old(batch)@ + names_of(names@, artist_id),
        ok ==> other_name_keys(table + final(batch)@).no_duplicates(),
        !ok ==> !other_name_keys(table + old(batch)@ + names_of(names@, artist_id)).no_duplicates(),
{
    let ghost rows = names_of(names@, artist_id);
    let ghost key = |r: ArtistOtherName| (r.artist_id, r.name@);
    let mut j: usize = 0;
    while j < names.len()
        invariant
            j <= names.len(),
            rows == names_of(names@, artist_id),
            key == |r: ArtistOtherName| (r.artist_id, r.name@),
            forall|k: int|
                0 <= k < (table + old(batch)@).len() ==> (#[trigger] (table + old(
                    batch,
                )@)[k]).artist_id != artist_id,
            batch@ == old(batch)@ + rows.take(j as int),
            other_name_keys(table + batch@).no_duplicates(),
            forall|a: int, b: int| 0 <= a < b < j ==> names[a]@ != names[b]@,
        decreases names.len() - j,
    {
        let name = &names[j];
        if seen_before(names, j, name) {
            proof {
                let a = choose|a: int| 0 <= a < j && names[a]@ == name@;
                let all = other_name_keys(table + old(batch)@ + rows);
                let base = (table + old(batch)@).len() as int;
                assert(all[base + a] == key(rows[a]));
                assert(all[base + j] == key(rows[j as int]));
                assert(all[base + a] == all[base + j]);
            }
            return false;
        }
        proof {
            let row = rows[j as int];
            lemma_key_is_new(table, batch@, row, key);
            if other_name_keys(table).contains(key(row)) {
                let k = choose|k: int|
                    0 <= k < other_name_keys(table).len() && other_name_keys(table)[k] == key(row);
                assert((table + old(batch)@)[k] == table[k]);
            }
            if other_name_keys(batch@).contains(key(row)) {
                let k = choose|k: int|
                    0 <= k < other_name_keys(batch@).len() && other_name_keys(batch@)[k] == key(
                        row,
                    );
                if k < old(batch)@.len() {
                    assert((table + old(batch)@)[table.len() + k] == batch@[k]);
                } else {
                    assert(batch@[k] == rows[k - old(batch)@.len()]);
                }
            }
            assert(rows.take(j + 1) =~= rows.take(j as int).push(row));
        }
        batch.push(ArtistOtherName { artist_id, name: name.clone() });
        j += 1;
    }
    assert(rows.take(j as int) =~= rows);
    true
}

/// Every row of `rows` names an artist of `artists`.
spec fn names_owned(rows: Seq<ArtistOtherName>, artists: Seq<ArtistRow>) -> bool {
    forall|k: int|
        0 <= k < rows.len() ==> artist_ids(artists).contains((#[trigger] rows[k]).artist_id)
}

/// Staged names stay owned when an artist joins the batch together with its
/// own names.
proof fn lemma_names_stay_owned(before: Seq<ArtistOtherName>, artists: Seq<ArtistRow>, r: Artist)
    requires
        names_owned(before, artists),
    ensures
        names_owned(before + other_names(r), artists.push(artist_row(r))),
{
    let after = before + other_names(r);
    let ids = artist_ids(artists.push(artist_row(r)));
    assert(ids =~= artist_ids(artists) + seq![r.id]);
    assert(seq![r.id].contains(r.id)) by {
        assert(seq![r.id][0] == r.id);
    }
    assert forall|k: int| 0 <= k < after.len() implies ids.contains(
        (#[trigger] after[k]).artist_id,
    ) by {
        if k < before.len() {
            assert(after[k] == before[k]);
        } else {
            assert(after[k] == other_names(r)[k - before.len()]);
        }
        lemma_contains_in_concat(artist_ids(artists), seq![r.id], after[k].artist_id);
    }
}

/// Names of a batch that already clash with the table still do once the
/// whole batch is counted.
proof fn lemma_names_clash_persists(table: Seq<ArtistOtherName>, records: Seq<Artist>, i: int)
    requires
        0 <= i < records.len(),
        !other_name_keys(
            table + other_name_rows(records.take(i)) + other_names(records[i]),
        ).no_duplicates(),
    ensures
        !other_name_keys(table + other_name_rows(records)).no_duplicates(),
{
    lemma_select_many_step(records, |r: Artist| artist_is_kept(r), |r: Artist| other_names(r), i);
    lemma_select_many_split(
        records,
        |r: Artist| artist_is_kept(r),
        |r: Artist| other_names(r),
        i + 1,
    );
    let tail = other_name_rows(records.skip(i + 1));
    assert(table + other_name_rows(records) =~= (table + other_name_rows(records.take(i))
        + other_names(records[i])) + tail);
    lemma_duplicates_persist(
        table + other_name_rows(records.take(i)) + other_names(records[i]),
        tail,
        |r: ArtistOtherName| (r.artist_id, r.name@),
    );
}

/// What the import of a batch of artists makes of a store: the artist table
/// and the alternate-name table with the rows of the batch behind them. The
/// import is refused unless the store is open to imports, and unless the
/// keys of each resulting table are all different.
pub open spec fn artists_imported(s: StoreView, records: Seq<Artist>) -> Result<
    StoreView,
    PipelineError,
> {
    if s.stage != Stage::Importing {
        Err(PipelineError::OutOfOrder)
    } else if !(artist_ids(s.artists + artist_rows(records)).no_duplicates() && other_name_keys(
        s.artist_other_names + other_name_rows(records),
    ).no_duplicates()) {
        Err(PipelineError::DuplicateKey)
    } else {
        Ok(
            StoreView {
                artists: s.artists + artist_rows(records),
                artist_other_names: s.artist_other_names + other_name_rows(records),
                ..s
            },
        )
    }
}

/// Imports one batch of artist records.
///
/// Every record gives one artist row, with a count of zero and no tag, and
/// one alternate-name row for each of its other names. The batch is
/// all-or-nothing: if a record repeats an artist id, of the table or of the
/// batch itself, or lists an alternate name twice, nothing is stored.
pub fn import_artist(records: &Vec<Artist>, store: &mut Store) -> (res: Result<(), PipelineError>)
    ensures
        final(store)@.wf(),
        match artists_imported(old(store)@, records@) {
            Ok(after) => res is Ok && final(store)@ == after,
            Err(e) => res == Err::<(), _>(e) && final(store)@ == old(store)@,
        },
{
    proof {
        use_type_invariant(&*store);
    }
    if store.inner.stage != Stage::Importing {
        return Err(PipelineError::OutOfOrder);
    }
    let mut artists: Vec<ArtistRow> = Vec::new();
    let mut names: Vec<ArtistOtherName> = Vec::new();
    let ghost table = store@.artist_other_names;
    let mut i: usize = 0;
    while i < records.len()
        invariant
            i <= records.len(),
            *store == *old(store),
            store@.wf(),
            store@.stage == Stage::Importing,
            table == store@.artist_other_names,
            artists@ == artist_rows(records@.take(i as int)),
            names@ == other_name_rows(records@.take(i as int)),
            artist_ids(store@.artists + artists@).no_duplicates(),
            other_name_keys(table + names@).no_duplicates(),
            names_owned(names@, artists@),
            forall|k: int| 0 <= k < artists@.len() ==> (#[trigger] artists@[k]).count == 0
                && artists@[k].tag_id is None,
        decreases records.len() - i,
    {
        let r = &records[i];
        proof {
            lemma_select_step(
                records@,
                |r: Artist| artist_is_kept(r),
                |r: Artist| artist_row(r),
                i as int,
            );
            lemma_select_many_step(
                records@,
                |r: Artist| artist_is_kept(r),
                |r: Artist| other_names(r),
                i as int,
            );
        }
        let clash = has_artist_id(&store.inner.artists, r.id) || has_artist_id(&artists, r.id);
        proof {
            lemma_key_is_new(store@.artists, artists@, artist_row(*r), |r: ArtistRow| r.artist_id);
        }
        if clash {
            proof {
                lemma_select_split(
                    records@,
                    |r: Artist| artist_is_kept(r),
                    |r: Artist| artist_row(r),
                    i + 1,
                );
                lemma_duplicates_persist(
                    store@.artists + artist_rows(records@.take(i + 1)),
                    artist_rows(records@.skip(i + 1)),
                    |r: ArtistRow| r.artist_id,
                );
                assert(store@.artists + artist_rows(records@) =~= store@.artists + artist_rows(
                    records@.take(i + 1),
                ) + artist_rows(records@.skip(i + 1)));
            }
            return Err(PipelineError::DuplicateKey);
        }
        let ghost before = names@;
        proof {
            assert forall|k: int| 0 <= k < (table + before).len() implies (#[trigger] (table
                + before)[k]).artist_id != r.id by {
                if k < table.len() {
                    assert(store@.artist_other_names[k] == table[k]);
                } else {
                    assert(before[k - table.len()] == (table + before)[k]);
                }
            }
            lemma_names_stay_owned(before, artist_rows(records@.take(i as int)), *r);
        }
        artists.push(
            ArtistRow {
                artist_id: r.id,
                name: r.name.clone(),
                is_banned: r.is_banned,
                is_deleted: r.is_deleted,
                count: 0,
                tag_id: None,
            },
        );
        if !stage_names(&r.other_names, r.id, Ghost(table), &mut names) {
            proof {
                lemma_names_clash_persists(table, records@, i as int);
            }
            return Err(PipelineError::DuplicateKey);
        }
        i += 1;
    }
    proof {
        assert(records@.take(i as int) =~= records@);
        let all_artists = store@.artists + artists@;
        assert(artist_ids(all_artists) =~= artist_ids(store@.artists) + artist_ids(artists@));
        assert forall|k: int| 0 <= k < (table + names@).len() implies artist_ids(
            all_artists,
        ).contains((#[trigger] (table + names@)[k]).artist_id) by {
            let n = (table + names@)[k];
            if k < table.len() {
                assert(store@.artist_other_names[k] == n);
            } else {
                assert(names@[k - table.len()] == n);
            }
            lemma_contains_in_concat(artist_ids(store@.artists), artist_ids(artists@), n.artist_id);
        }
    }
    let mut tables = store.take();
    tables.artists.append(&mut artists);
    tables.artist_other_names.append(&mut names);
    store.put(tables);
    Ok(())
}

} // verus!
