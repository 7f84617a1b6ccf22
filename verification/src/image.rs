//! Image records, image rows, the pending tag references that an image
//! stages, and the import of a batch of images.

use vstd::prelude::*;
use crate::relation::{
    lemma_contains_in_concat, lemma_duplicates_persist, lemma_key_is_new, lemma_select_many_split,
    lemma_select_many_step, lemma_select_split, lemma_select_step, seen_before, select,
    select_many,
};
use crate::store::{PipelineError, Stage, Store, StoreView};

verus! {

/// The kind of a tag. The set is closed, and each kind has a fixed code by
/// which tag rows name it.
#[derive(Clone, Copy, Debug, PartialEq, Eq, Structural)]
pub enum Category {
    General,
    Artist,
    Copyright,
    Character,
    Meta,
}

impl Category {
    /// The code of the category. The codes are not contiguous.
    pub open spec fn spec_code(self) -> u32 {
        match self {
            Category::General => 0,
            Category::Artist => 1,
            Category::Copyright => 3,
            Category::Character => 4,
            Category::Meta => 5,
        }
    }

    #[verifier::when_used_as_spec(spec_code)]
    pub fn code(self) -> (c: u32)
        ensures
            c == self.spec_code(),
    {
        match self {
            Category::General => 0,
            Category::Artist => 1,
            Category::Copyright => 3,
            Category::Character => 4,
            Category::Meta => 5,
        }
    }
}

/// One image as it appears in a source file.
#[derive(Clone, Debug, PartialEq, Eq)]
pub struct Post {
    /// Absent on placeholder entries, which are skipped.
    pub id: Option<u32>,
    pub rating: String,
    pub source: String,
    pub pixiv_id: Option<u32>,
    pub image_width: i32,
    pub image_height: i32,
    pub created_at: String,
    pub updated_at: String,
    pub uploader_id: u32,
    pub is_banned: bool,
    pub is_deleted: bool,
    pub is_flagged: bool,
    pub file_ext: String,
    pub file_size: u32,
    pub md5: Option<String>,
    pub has_children: bool,
    pub has_visible_children: bool,
    pub has_active_children: bool,
    pub parent_id: Option<u32>,
    pub tag_string_character: Vec<String>,
    pub tag_string_copyright: Vec<String>,
    pub tag_string_meta: Vec<String>,
    pub tag_string_general: Vec<String>,
    pub tag_string_artist: Vec<String>,
}

/// One row of the image table.
#[derive(Clone, Debug, PartialEq, Eq)]
pub struct ImageRow {
    pub image_id: u32,
    pub rating: String,
    pub source: String,
    pub pixiv_id: Option<u32>,
    pub w: i32,
    pub h: i32,
    pub created_at: String,
    pub updated_at: String,
    pub uploader_id: u32,
    pub is_banned: bool,
    pub is_deleted: bool,
    pub is_flagged: bool,
    pub file_ext: String,
    pub file_size: u32,
    pub md5: Option<String>,
    pub has_children: bool,
    pub has_visible_children: bool,
    pub has_active_children: bool,
    pub parent_id: Option<u32>,
}

/// A tag text seen on an image, staged until the tag's id is known.
#[derive(Clone, Debug, PartialEq, Eq)]
pub struct PendingRef {
    pub text: String,
    pub category: Category,
    pub image_id: u32,
}

/// A resolved association: the image carries the tag.
#[derive(Clone, Copy, Debug, PartialEq, Eq, Structural)]
pub struct ImageTag {
    pub image_id: u32,
    pub tag_id: u32,
}

/// The primary keys of an image table, in row order.
pub open spec fn image_ids(rows: Seq<ImageRow>) -> Seq<u32> {
    rows.map_values(|r: ImageRow| r.image_id)
}

/// The primary keys of a staging table, in row order.
pub open spec fn pending_keys(rows: Seq<PendingRef>) -> Seq<(Seq<char>, u32, Category)> {
    rows.map_values(|r: PendingRef| (r.text@, r.image_id, r.category))
}

/// An image record is kept if it has an id.
pub open spec fn post_is_kept(p: Post) -> bool {
    p.id is Some
}

/// The row stored for a kept image record.
pub open spec fn image_row(p: Post) -> ImageRow {
    ImageRow {
        image_id: p.id->0,
        rating: p.rating,
        source: p.source,
        pixiv_id: p.pixiv_id,
        w: p.image_width,
        h: p.image_height,
        created_at: p.created_at,
        updated_at: p.updated_at,
        uploader_id: p.uploader_id,
        is_banned: p.is_banned,
        is_deleted: p.is_deleted,
        is_flagged: p.is_flagged,
        file_ext: p.file_ext,
        file_size: p.file_size,
        md5: p.md5,
        has_children: p.has_children,
        has_visible_children: p.has_visible_children,
        has_active_children: p.has_active_children,
        parent_id: p.parent_id,
    }
}

/// The pending references of one category of one image: one for each text,
/// in order.
pub open spec fn refs_of(texts: Seq<String>, category: Category, image_id: u32) -> Seq<PendingRef> {
    texts.map_values(|t: String| PendingRef { text: t, category, image_id })
}

/// The pending references that a kept image record stages: its character,
/// copyright, meta, general and artist tags, in that order.
pub open spec fn post_refs(p: Post) -> Seq<PendingRef> {
    refs_of(p.tag_string_character@, Category::Character, p.id->0) + refs_of(
        p.tag_string_copyright@,
        Category::Copyright,
        p.id->0,
    ) + refs_of(p.tag_string_meta@, Category::Meta, p.id->0) + refs_of(
        p.tag_string_general@,
        Category::General,
        p.id->0,
    ) + refs_of(p.tag_string_artist@, Category::Artist, p.id->0)
}

/// The image rows that a batch of image records contributes.
pub open spec fn image_rows(records: Seq<Post>) -> Seq<ImageRow> {
    select(records, |p: Post| post_is_kept(p), |p: Post| image_row(p))
}

/// The pending references that a batch of image records stages.
pub open spec fn pending_rows(records: Seq<Post>) -> Seq<PendingRef> {
    select_many(records, |p: Post| post_is_kept(p), |p: Post| post_refs(p))
}

/// Whether `id` is the key of one of `rows`.
pub fn has_image_id(rows: &Vec<ImageRow>, id: u32) -> (found: bool)
    ensures
        found == image_ids(rows@).contains(id),
{
    let mut i: usize = 0;
    while i < rows.len()
        invariant
            i <= rows.len(),
            forall|k: int| 0 <= k < i ==> image_ids(rows@)[k] != id,
        decreases rows.len() - i,
    {
        if rows[i].image_id == id {
            assert(image_ids(rows@)[i as int] == id);
            return true;
        }
        i += 1;
    }
    false
}

fn copy_text(o: &Option<String>) -> (r: Option<String>)
    ensures
        r == *o,
{
    match o {
        Some(s) => Some(s.clone()),
        None => None,
    }
}

fn make_image_row(p: &Post, id: u32) -> (r: ImageRow)
    requires
        p.id == Some(id),
    ensures
        r == image_row(*p),
{
    ImageRow {
        image_id: id,
        rating: p.rating.clone(),
        source: p.source.clone(),
        pixiv_id: p.pixiv_id,
        w: p.image_width,
        h: p.image_height,
        created_at: p.created_at.clone(),
        updated_at: p.updated_at.clone(),
        uploader_id: p.uploader_id,
        is_banned: p.is_banned,
        is_deleted: p.is_deleted,
        is_flagged: p.is_flagged,
        file_ext: p.file_ext.clone(),
        file_size: p.file_size,
        md5: copy_text(&p.md5),
        has_children: p.has_children,
        has_visible_children: p.has_visible_children,
        has_active_children: p.has_active_children,
        parent_id: p.parent_id,
    }
}

/// No row of `rows` belongs to `category` of `image_id`.
spec fn none_of(rows: Seq<PendingRef>, category: Category, image_id: u32) -> bool {
    forall|k: int|
        0 <= k < rows.len() ==> !((#[trigger] rows[k]).image_id == image_id && rows[k].category
            == category)
}

/// Stages the references of one category of one image behind `batch`, unless
/// two of them would share a key. No row of the table or of the batch
/// belongs to that category of that image yet, so only a text that occurs
/// twice can clash.
fn stage_refs(
    texts: &Vec<String>,
    category: Category,
    image_id: u32,
    Ghost(table): Ghost<Seq<PendingRef>>,
    batch: &mut Vec<PendingRef>,
) -> (ok: bool)
    requires
        pending_keys(table + old(batch)@).no_duplicates(),
        none_of(table + old(batch)@, category, image_id),
    ensures
        ok ==> final(batch)@ == old(batch)@ + refs_of(texts@, category, image_id),
        ok ==> pending_keys(table + final(batch)@).no_duplicates(),
        !ok ==> !pending_keys(
            table + old(batch)@ + refs_of(texts@, category, image_id),
        ).no_duplicates(),
{
    let ghost refs = refs_of(texts@, category, image_id);
    let ghost key = |r: PendingRef| (r.text@, r.image_id, r.category);
    let mut j: usize = 0;
    while j < texts.len()
        invariant
            j <= texts.len(),
            refs == refs_of(texts@, category, image_id),
            key == |r: PendingRef| (r.text@, r.image_id, r.category),
            none_of(table + old(batch)@, category, image_id),
            batch@ == old(batch)@ + refs.take(j as int),
            pending_keys(table + batch@).no_duplicates(),
            forall|a: int, b: int| 0 <= a < b < j ==> texts[a]@ != texts[b]@,
        decreases texts.len() - j,
    {
        let text = &texts[j];
        if seen_before(texts, j, text) {
            proof {
                let a = choose|a: int| 0 <= a < j && texts[a]@ == text@;
                let all = pending_keys(table + old(batch)@ + refs);
                let base = (table + old(batch)@).len() as int;
                assert(all[base + a] == key(refs[a]));
                assert(all[base + j] == key(refs[j as int]));
                assert(all[base + a] == all[base + j]);
            }
            return false;
        }
        proof {
            let row = refs[j as int];
            lemma_key_is_new(table, batch@, row, key);
            if pending_keys(table).contains(key(row)) {
                let k = choose|k: int|
                    0 <= k < pending_keys(table).len() && pending_keys(table)[k] == key(row);
                assert((table + old(batch)@)[k] == table[k]);
            }
            if pending_keys(batch@).contains(key(row)) {
                let k = choose|k: int|
                    0 <= k < pending_keys(batch@).len() && pending_keys(batch@)[k] == key(row);
                if k < old(batch)@.len() {
                    assert((table + old(batch)@)[table.len() + k] == batch@[k]);
                } else {
                    assert(batch@[k] == refs[k - old(batch)@.len()]);
                }
            }
            assert(refs.take(j + 1) =~= refs.take(j as int).push(row));
        }
        batch.push(PendingRef { text: text.clone(), category, image_id });
        j += 1;
    }
    assert(refs.take(j as int) =~= refs);
    true
}

/// Stages every reference of one kept image record behind `batch`, unless
/// two of them would share a key. No row of the table or of the batch names
/// the image yet.
fn stage_post_refs(
    p: &Post,
    id: u32,
    Ghost(table): Ghost<Seq<PendingRef>>,
    batch: &mut Vec<PendingRef>,
) -> (ok: bool)
    requires
        p.id == Some(id),
        pending_keys(table + old(batch)@).no_duplicates(),
        forall|k: int|
            0 <= k < (table + old(batch)@).len() ==> (#[trigger] (table + old(batch)@)[k]).image_id
                != id,
    ensures
        ok ==> final(batch)@ == old(batch)@ + post_refs(*p),
        ok ==> pending_keys(table + final(batch)@).no_duplicates(),
        !ok ==> !pending_keys(table + old(batch)@ + post_refs(*p)).no_duplicates(),
{
    let ghost before = batch@;
    let ghost key = |r: PendingRef| (r.text@, r.image_id, r.category);
    let ghost c1 = refs_of(p.tag_string_character@, Category::Character, id);
    let ghost c2 = refs_of(p.tag_string_copyright@, Category::Copyright, id);
    let ghost c3 = refs_of(p.tag_string_meta@, Category::Meta, id);
    let ghost c4 = refs_of(p.tag_string_general@, Category::General, id);
    let ghost c5 = refs_of(p.tag_string_artist@, Category::Artist, id);
    let ghost whole = table + before + post_refs(*p);
    if !stage_refs(&p.tag_string_character, Category::Character, id, Ghost(table), batch) {
        proof {
            assert(whole =~= (table + before + c1) + (c2 + c3 + c4 + c5));
            lemma_duplicates_persist(table + before + c1, c2 + c3 + c4 + c5, key);
        }
        return false;
    }
    assert(none_of(table + batch@, Category::Copyright, id)) by {
        assert(table + batch@ =~= (table + before) + c1);
    }
    if !stage_refs(&p.tag_string_copyright, Category::Copyright, id, Ghost(table), batch) {
        proof {
            assert(whole =~= (table + (before + c1) + c2) + (c3 + c4 + c5));
            lemma_duplicates_persist(table + (before + c1) + c2, c3 + c4 + c5, key);
        }
        return false;
    }
    assert(none_of(table + batch@, Category::Meta, id)) by {
        assert(table + batch@ =~= (table + before) + c1 + c2);
    }
    if !stage_refs(&p.tag_string_meta, Category::Meta, id, Ghost(table), batch) {
        proof {
            assert(whole =~= (table + (before + c1 + c2) + c3) + (c4 + c5));
            lemma_duplicates_persist(table + (before + c1 + c2) + c3, c4 + c5, key);
        }
        return false;
    }
    assert(none_of(table + batch@, Category::General, id)) by {
        assert(table + batch@ =~= (table + before) + c1 + c2 + c3);
    }
    if !stage_refs(&p.tag_string_general, Category::General, id, Ghost(table), batch) {
        proof {
            assert(whole =~= (table + (before + c1 + c2 + c3) + c4) + c5);
            lemma_duplicates_persist(table + (before + c1 + c2 + c3) + c4, c5, key);
        }
        return false;
    }
    assert(none_of(table + batch@, Category::Artist, id)) by {
        assert(table + batch@ =~= (table + before) + c1 + c2 + c3 + c4);
    }
    if !stage_refs(&p.tag_string_artist, Category::Artist, id, Ghost(table), batch) {
        proof {
            assert(whole =~= table + (before + c1 + c2 + c3 + c4) + c5);
        }
        return false;
    }
    assert(batch@ =~= before + post_refs(*p));
    true
}

/// Every row of `rows` names an image of `images`.
spec fn refs_owned(rows: Seq<PendingRef>, images: Seq<ImageRow>) -> bool {
    forall|k: int| 0 <= k < rows.len() ==> image_ids(images).contains((#[trigger] rows[k]).image_id)
}

/// Staged references stay owned when an image joins the batch together with
/// its own references.
proof fn lemma_refs_stay_owned(before: Seq<PendingRef>, images: Seq<ImageRow>, p: Post)
    requires
        post_is_kept(p),
        refs_owned(before, images),
    ensures
        refs_owned(before + post_refs(p), images.push(image_row(p))),
{
    let id = p.id->0;
    let after = before + post_refs(p);
    let ids = image_ids(images.push(image_row(p)));
    assert(ids =~= image_ids(images) + seq![id]);
    assert(seq![id].contains(id)) by {
        assert(seq![id][0] == id);
    }
    assert forall|k: int| 0 <= k < after.len() implies ids.contains((#[trigger] after[k]).image_id) by {
        if k < before.len() {
            assert(after[k] == before[k]);
        } else {
            assert(after[k].image_id == id);
        }
        lemma_contains_in_concat(image_ids(images), seq![id], after[k].image_id);
    }
}

/// Rows of a batch that already clash with the staging table still do once
/// the whole batch is counted.
proof fn lemma_refs_clash_persists(
    table: Seq<PendingRef>,
    records: Seq<Post>,
    i: int,
    part: Seq<PendingRef>,
    rest: Seq<PendingRef>,
)
    requires
        0 <= i < records.len(),
        post_is_kept(records[i]),
        part + rest =~= post_refs(records[i]),
        !pending_keys(table + pending_rows(records.take(i)) + part).no_duplicates(),
    ensures
        !pending_keys(table + pending_rows(records)).no_duplicates(),
{
    lemma_select_many_step(records, |p: Post| post_is_kept(p), |p: Post| post_refs(p), i);
    lemma_select_many_split(records, |p: Post| post_is_kept(p), |p: Post| post_refs(p), i + 1);
    let tail = rest + pending_rows(records.skip(i + 1));
    assert(table + pending_rows(records) =~= (table + pending_rows(records.take(i)) + part) + tail);
    lemma_duplicates_persist(
        table + pending_rows(records.take(i)) + part,
        tail,
        |r: PendingRef| (r.text@, r.image_id, r.category),
    );
}

/// What the import of a batch of images makes of a store: the image table
/// and the staging table with the rows of the batch behind them. The import
/// is refused unless the store is open to imports, and unless the keys of
/// each resulting table are all different.
pub open spec fn images_imported(s: StoreView, records: Seq<Post>) -> Result<
    StoreView,
    PipelineError,
> {
    if s.stage != Stage::Importing {
        Err(PipelineError::OutOfOrder)
    } else if !(image_ids(s.images + image_rows(records)).no_duplicates() && pending_keys(
        s.pending + pending_rows(records),
    ).no_duplicates()) {
        Err(PipelineError::DuplicateKey)
    } else {
        Ok(
            StoreView {
                images: s.images + image_rows(records),
                pending: s.pending + pending_rows(records),
                ..s
            },
        )
    }
}

/// Imports one batch of image records.
///
/// Records without an id are skipped. Each of the others gives one image row
/// and one pending reference for each of its tag texts, labelled with the
/// category it was listed under. The batch is all-or-nothing: if a kept
/// record repeats an image id, of the table or of the batch itself, or lists
/// a text twice in one category, nothing is stored.
pub fn import_image(records: &Vec<Post>, store: &mut Store) -> (res: Result<(), PipelineError>)
    ensures
        final(store)@.wf(),
        match images_imported(old(store)@, records@) {
            Ok(after) => res is Ok && final(store)@ == after,
            Err(e) => res == Err::<(), _>(e) && final(store)@ == old(store)@,
        },
{
    proof {
        use_type_invariant(&*store);
    }
    if store.inner.stage != Stage::Importing {
        return Err(PipelineError::OutOfOrder);
    }
    let mut images: Vec<ImageRow> = Vec::new();
    let mut staged: Vec<PendingRef> = Vec::new();
    let ghost table = store@.pending;
    let mut i: usize = 0;
    while i < records.len()
        invariant
            i <= records.len(),
            *store == *old(store),
            store@.wf(),
            store@.stage == Stage::Importing,
            table == store@.pending,
            images@ == image_rows(records@.take(i as int)),
            staged@ == pending_rows(records@.take(i as int)),
            image_ids(store@.images + images@).no_duplicates(),
            pending_keys(table + staged@).no_duplicates(),
            refs_owned(staged@, images@),
        decreases records.len() - i,
    {
        let p = &records[i];
        proof {
            lemma_select_step(records@, |p: Post| post_is_kept(p), |p: Post| image_row(p), i as int);
            lemma_select_many_step(
                records@,
                |p: Post| post_is_kept(p),
                |p: Post| post_refs(p),
                i as int,
            );
        }
        if let Some(id) = p.id {
            let clash = has_image_id(&store.inner.images, id) || has_image_id(&images, id);
            proof {
                lemma_key_is_new(store@.images, images@, image_row(*p), |r: ImageRow| r.image_id);
            }
            if clash {
                proof {
                    lemma_select_split(
                        records@,
                        |p: Post| post_is_kept(p),
                        |p: Post| image_row(p),
                        i + 1,
                    );
                    lemma_duplicates_persist(
                        store@.images + image_rows(records@.take(i + 1)),
                        image_rows(records@.skip(i + 1)),
                        |r: ImageRow| r.image_id,
                    );
                    assert(store@.images + image_rows(records@) =~= store@.images + image_rows(
                        records@.take(i + 1),
                    ) + image_rows(records@.skip(i + 1)));
                }
                return Err(PipelineError::DuplicateKey);
            }
            let ghost before = staged@;
            proof {
                assert forall|k: int| 0 <= k < (table + before).len() implies (#[trigger] (table
                    + before)[k]).image_id != id by {
                    if k < table.len() {
                        assert(store@.pending[k] == table[k]);
                    } else {
                        assert(before[k - table.len()] == (table + before)[k]);
                    }
                }
            }
            images.push(make_image_row(p, id));
            if !stage_post_refs(p, id, Ghost(table), &mut staged) {
                proof {
                    assert(post_refs(*p) + Seq::<PendingRef>::empty() =~= post_refs(*p));
                    lemma_refs_clash_persists(
                        table,
                        records@,
                        i as int,
                        post_refs(*p),
                        Seq::empty(),
                    );
                }
                return Err(PipelineError::DuplicateKey);
            }
            proof {
                lemma_refs_stay_owned(before, image_rows(records@.take(i as int)), *p);
            }
        }
        i += 1;
    }
    proof {
        assert(records@.take(i as int) =~= records@);
        let all_images = store@.images + images@;
        assert(image_ids(all_images) =~= image_ids(store@.images) + image_ids(images@));
        assert forall|k: int| 0 <= k < (table + staged@).len() implies image_ids(
            all_images,
        ).contains((#[trigger] (table + staged@)[k]).image_id) by {
            let r = (table + staged@)[k];
            if k < table.len() {
                assert(store@.pending[k] == r);
            } else {
                assert(staged@[k - table.len()] == r);
            }
            lemma_contains_in_concat(image_ids(store@.images), image_ids(images@), r.image_id);
        }
    }
    let mut tables = store.take();
    tables.images.append(&mut images);
    tables.pending.append(&mut staged);
    store.put(tables);
    Ok(())
}

/// What the creation of the tables makes of a store: a store open to
/// imports. It is refused on any store but a fresh one.
pub open spec fn tables_created(s: StoreView) -> Result<StoreView, PipelineError> {
    if s.stage != Stage::Fresh {
        Err(PipelineError::OutOfOrder)
    } else {
        Ok(StoreView { stage: Stage::Importing, ..s })
    }
}

/// Creates the tables of the run, all of them empty, and opens the store to
/// imports. This is the first operation on a store and happens once.
pub fn create_image_tables(store: &mut Store) -> (res: Result<(), PipelineError>)
    ensures
        final(store)@.wf(),
        match tables_created(old(store)@) {
            Ok(after) => res is Ok && final(store)@ == after,
            Err(e) => res == Err::<(), _>(e) && final(store)@ == old(store)@,
        },
{
    proof {
        use_type_invariant(&*store);
    }
    if store.inner.stage != Stage::Fresh {
        return Err(PipelineError::OutOfOrder);
    }
    let mut tables = store.take();
    tables.stage = Stage::Importing;
    store.put(tables);
    Ok(())
}

} // verus!
