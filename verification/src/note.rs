//! Note records, note rows and the import of a batch of notes.

use vstd::prelude::*;
use crate::relation::{
    lemma_contains_in_concat, lemma_duplicates_persist, lemma_key_is_new, lemma_select_members,
    lemma_select_split, lemma_select_step, select,
};
use crate::store::{PipelineError, Stage, Store, StoreView};

verus! {

/// One note as it appears in a source file.
#[derive(Clone, Debug, PartialEq, Eq)]
pub struct Note {
    pub id: u32,
    /// The image the note is attached to, if the source names one.
    pub image_id: Option<u32>,
    pub body: String,
    pub x: Option<u32>,
    pub y: Option<u32>,
    pub w: Option<u32>,
    pub h: Option<u32>,
    pub is_active: bool,
}

/// One row of the note table.
#[derive(Clone, Debug, PartialEq, Eq)]
pub struct NoteRow {
    pub note_id: u32,
    pub image_id: Option<u32>,
    pub body: String,
    pub x: Option<u32>,
    pub y: Option<u32>,
    pub w: Option<u32>,
    pub h: Option<u32>,
}

/// The primary keys of a note table, in row order.
pub open spec fn note_ids(rows: Seq<NoteRow>) -> Seq<u32> {
    rows.map_values(|r: NoteRow| r.note_id)
}

/// A note is kept if it is active.
pub open spec fn note_is_kept(r: Note) -> bool {
    r.is_active
}

/// The row stored for a kept note.
pub open spec fn note_row(r: Note) -> NoteRow {
    NoteRow { note_id: r.id, image_id: r.image_id, body: r.body, x: r.x, y: r.y, w: r.w, h: r.h }
}

/// The rows that a batch of note records contributes.
pub open spec fn note_rows(records: Seq<Note>) -> Seq<NoteRow> {
    select(records, |r: Note| note_is_kept(r), |r: Note| note_row(r))
}

/// Whether `id` is the key of one of `rows`.
pub fn has_note_id(rows: &Vec<NoteRow>, id: u32) -> (found: bool)
    ensures
        found == note_ids(rows@).contains(id),
{
    let mut i: usize = 0;
    while i < rows.len()
        invariant
            i <= rows.len(),
            forall|k: int| 0 <= k < i ==> note_ids(rows@)[k] != id,
        decreases rows.len() - i,
    {
        if rows[i].note_id == id {
            assert(note_ids(rows@)[i as int] == id);
            return true;
        }
        i += 1;
    }
    false
}

/// After a batch of notes has been imported, the note table holds the row of
/// every active record of the batch. It holds no row under the id of an
/// inactive record, unless that id was in the table before or an active
/// record of the batch bears it too.
pub proof fn lemma_note_import_stores(
    before: StoreView,
    after: StoreView,
    records: Seq<Note>,
    i: int,
)
    requires
        notes_imported(before, records) == Ok::<_, PipelineError>(after),
        0 <= i < records.len(),
    ensures
        records[i].is_active ==> after.notes.contains(note_row(records[i])),
        !records[i].is_active && !note_ids(before.notes).contains(records[i].id) && (forall|j: int|
            0 <= j < records.len() && (#[trigger] records[j]).id == records[i].id
                ==> !records[j].is_active) ==> !note_ids(after.notes).contains(records[i].id),
{
    let keep = |r: Note| note_is_kept(r);
    let row = |r: Note| note_row(r);
    let id = records[i].id;
    lemma_select_members(records, keep, row);
    if records[i].is_active {
        lemma_contains_in_concat(before.notes, note_rows(records), note_row(records[i]));
    }
    if note_ids(after.notes).contains(id) && !note_ids(before.notes).contains(id) {
        assert(note_ids(after.notes) =~= note_ids(before.notes) + note_ids(note_rows(records)));
        lemma_contains_in_concat(note_ids(before.notes), note_ids(note_rows(records)), id);
        let k = choose|k: int|
            0 <= k < note_ids(note_rows(records)).len() && note_ids(note_rows(records))[k] == id;
        let j = choose|j: int|
            0 <= j < records.len() && keep(records[j]) && #[trigger] note_rows(records)[k] == row(
                #[trigger] records[j],
            );
        assert(records[j].id == id && records[j].is_active);
    }
}

/// The rows that a batch of notes adds are the rows of its active records:
/// each added row is that of an active record, and there are as many rows as
/// active records.
pub proof fn lemma_note_rows_are_active(records: Seq<Note>, k: int)
    requires
        0 <= k < note_rows(records).len(),
    ensures
        exists|i: int|
            0 <= i < records.len() && (#[trigger] records[i]).is_active && note_rows(records)[k]
                == note_row(records[i]),
        note_rows(records).len() == records.filter(|r: Note| note_is_kept(r)).len(),
{
    lemma_select_members(records, |r: Note| note_is_kept(r), |r: Note| note_row(r));
    let i = choose|i: int|
        0 <= i < records.len() && note_is_kept(records[i]) && #[trigger] note_rows(records)[k]
            == note_row(#[trigger] records[i]);
    assert(records[i].is_active);
}

/// What the import of a batch of notes makes of a store: the note table with
/// the rows of the batch behind it. The import is refused unless the store
/// is open to imports, and unless the ids of the resulting table are all
/// different.
pub open spec fn notes_imported(s: StoreView, records: Seq<Note>) -> Result<
    StoreView,
    PipelineError,
> {
    if s.stage != Stage::Importing {
        Err(PipelineError::OutOfOrder)
    } else if !note_ids(s.notes + note_rows(records)).no_duplicates() {
        Err(PipelineError::DuplicateKey)
    } else {
        Ok(StoreView { notes: s.notes + note_rows(records), ..s })
    }
}

/// Imports one batch of note records.
///
/// Inactive notes are skipped. The others are appended to the note table, in
/// order. The batch is all-or-nothing: if any kept record repeats a note id,
/// of the table or of the batch itself, nothing is stored.
pub fn import_note(records: &Vec<Note>, store: &mut Store) -> (res: Result<(), PipelineError>)
    ensures
        final(store)@.wf(),
        match notes_imported(old(store)@, records@) {
            Ok(after) => res is Ok && final(store)@ == after,
            Err(e) => res == Err::<(), _>(e) && final(store)@ == old(store)@,
        },
{
    proof {
        use_type_invariant(&*store);
    }
    if store.inner.stage != Stage::Importing {
        return Err(PipelineError::OutOfOrder);
    }
    let mut batch: Vec<NoteRow> = Vec::new();
    let mut i: usize = 0;
    while i < records.len()
        invariant
            i <= records.len(),
            *store == *old(store),
            store@.wf(),
            store@.stage == Stage::Importing,
            batch@ == note_rows(records@.take(i as int)),
            note_ids(store@.notes + batch@).no_duplicates(),
        decreases records.len() - i,
    {
        let r = &records[i];
        proof {
            lemma_select_step(records@, |r: Note| note_is_kept(r), |r: Note| note_row(r), i as int);
        }
        if r.is_active {
            let clash = has_note_id(&store.inner.notes, r.id) || has_note_id(&batch, r.id);
            proof {
                lemma_key_is_new(store@.notes, batch@, note_row(*r), |r: NoteRow| r.note_id);
            }
            if clash {
                proof {
                    lemma_select_split(
                        records@,
                        |r: Note| note_is_kept(r),
                        |r: Note| note_row(r),
                        i + 1,
                    );
                    lemma_duplicates_persist(
                        store@.notes + note_rows(records@.take(i + 1)),
                        note_rows(records@.skip(i + 1)),
                        |r: NoteRow| r.note_id,
                    );
                    assert(store@.notes + note_rows(records@) =~= store@.notes + note_rows(
                        records@.take(i + 1),
                    ) + note_rows(records@.skip(i + 1)));
                }
                return Err(PipelineError::DuplicateKey);
            }
            batch.push(
                NoteRow {
                    note_id: r.id,
                    image_id: r.image_id,
                    body: r.body.clone(),
                    x: r.x,
                    y: r.y,
                    w: r.w,
                    h: r.h,
                },
            );
        }
        i += 1;
    }
    assert(records@.take(i as int) =~= records@);
    let mut tables = store.take();
    tables.notes.append(&mut batch);
    store.put(tables);
    Ok(())
}

} // verus!
