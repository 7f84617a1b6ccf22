//! Tag records, tag rows and the import of a batch of tags.

use vstd::prelude::*;
use crate::relation::{
    lemma_contains_in_concat, lemma_duplicates_persist, lemma_key_is_new, lemma_select_members,
    lemma_select_split, lemma_select_step, select,
};
use crate::store::{PipelineError, Stage, Store, StoreView};

verus! {

/// One tag as it appears in a source file.
#[derive(Clone, Debug, PartialEq, Eq)]
pub struct Tag {
    pub id: u32,
    pub name: String,
    pub category: u32,
    /// The usage count the source reports. It only decides whether the tag is
    /// kept; the stored count is derived later from the resolved associations.
    pub post_count: u32,
}

/// One row of the tag table.
#[derive(Clone, Debug, PartialEq, Eq)]
pub struct TagRow {
    pub tag_id: u32,
    pub name: String,
    pub category: u32,
    /// Number of images that carry this tag; zero until aggregation.
    pub count: u64,
}

/// The primary keys of a tag table, in row order.
pub open spec fn tag_ids(rows: Seq<TagRow>) -> Seq<u32> {
    rows.map_values(|r: TagRow| r.tag_id)
}

/// Whether a tag row bears `name` in `category`.
pub open spec fn tag_matches(t: TagRow, name: Seq<char>, category: u32) -> bool {
    t.name@ == name && t.category == category
}

/// Whether row `i` is the first of `tags` that bears `name` in `category`.
pub open spec fn is_first_match(tags: Seq<TagRow>, name: Seq<char>, category: u32, i: int) -> bool {
    &&& 0 <= i < tags.len()
    &&& tag_matches(tags[i], name, category)
    &&& forall|j: int| 0 <= j < i ==> !tag_matches(#[trigger] tags[j], name, category)
}

/// The id under which `name` in `category` resolves: that of the first tag
/// row, in table order, that bears the name in the category. `None` if there
/// is no such row.
pub open spec fn lookup_tag(tags: Seq<TagRow>, name: Seq<char>, category: u32) -> Option<u32> {
    if exists|i: int| is_first_match(tags, name, category, i) {
        Some(tags[choose|i: int| is_first_match(tags, name, category, i)].tag_id)
    } else {
        None
    }
}

/// Among the first matches for a name and a category there is at most one.
pub proof fn lemma_first_match_unique(
    tags: Seq<TagRow>,
    name: Seq<char>,
    category: u32,
    i: int,
    j: int,
)
    requires
        is_first_match(tags, name, category, i),
        is_first_match(tags, name, category, j),
    ensures
        i == j,
{
    if i < j {
        assert(!tag_matches(tags[i], name, category));
    }
    if j < i {
        assert(!tag_matches(tags[j], name, category));
    }
}

/// A name resolves exactly when some row bears it in the category, and then
/// to the id of a row that does.
pub proof fn lemma_lookup_tag(tags: Seq<TagRow>, name: Seq<char>, category: u32)
    ensures
        lookup_tag(tags, name, category) is Some <==> exists|i: int|
            0 <= i < tags.len() && tag_matches(#[trigger] tags[i], name, category),
        lookup_tag(tags, name, category) matches Some(id) ==> exists|i: int|
            is_first_match(tags, name, category, i) && tags[i].tag_id == id,
{
    if exists|i: int| 0 <= i < tags.len() && tag_matches(#[trigger] tags[i], name, category) {
        let i = choose|i: int| 0 <= i < tags.len() && tag_matches(#[trigger] tags[i], name, category);
        lemma_some_match_has_first(tags, name, category, i);
    }
    if exists|i: int| is_first_match(tags, name, category, i) {
        let i = choose|i: int| is_first_match(tags, name, category, i);
        assert(tag_matches(tags[i], name, category));
    }
}

proof fn lemma_some_match_has_first(tags: Seq<TagRow>, name: Seq<char>, category: u32, i: int)
    requires
        0 <= i < tags.len(),
        tag_matches(tags[i], name, category),
    ensures
        exists|k: int| is_first_match(tags, name, category, k),
    decreases i,
{
    if exists|j: int| 0 <= j < i && tag_matches(#[trigger] tags[j], name, category) {
        let j = choose|j: int| 0 <= j < i && tag_matches(#[trigger] tags[j], name, category);
        lemma_some_match_has_first(tags, name, category, j);
    } else {
        assert(is_first_match(tags, name, category, i));
    }
}

/// In a table without repeated ids, two names that resolve to the same tag
/// are the same name in the same category.
pub proof fn lemma_same_tag_same_name(
    tags: Seq<TagRow>,
    name1: Seq<char>,
    category1: u32,
    name2: Seq<char>,
    category2: u32,
)
    requires
        tag_ids(tags).no_duplicates(),
        lookup_tag(tags, name1, category1) is Some,
        lookup_tag(tags, name1, category1) == lookup_tag(tags, name2, category2),
    ensures
        name1 == name2,
        category1 == category2,
{
    lemma_lookup_tag(tags, name1, category1);
    lemma_lookup_tag(tags, name2, category2);
    let id = lookup_tag(tags, name1, category1)->0;
    let i = choose|i: int| is_first_match(tags, name1, category1, i) && tags[i].tag_id == id;
    let j = choose|j: int| is_first_match(tags, name2, category2, j) && tags[j].tag_id == id;
    assert(tag_ids(tags)[i] == id);
    assert(tag_ids(tags)[j] == id);
    assert(i == j);
}

/// Resolution reads the id, the name and the category of a tag row, and
/// nothing else.
pub proof fn lemma_lookup_ignores_counts(
    tags: Seq<TagRow>,
    other: Seq<TagRow>,
    name: Seq<char>,
    category: u32,
)
    requires
        tags.len() == other.len(),
        forall|i: int|
            0 <= i < tags.len() ==> (#[trigger] tags[i]).tag_id == other[i].tag_id && tags[i].name@
                == other[i].name@ && tags[i].category == other[i].category,
    ensures
        lookup_tag(tags, name, category) == lookup_tag(other, name, category),
{
    assert forall|i: int| is_first_match(tags, name, category, i) implies is_first_match(
        other,
        name,
        category,
        i,
    ) by {
        assert(tag_matches(other[i], name, category)) by {
            assert(tags[i].tag_id == other[i].tag_id);
        }
        assert forall|j: int| 0 <= j < i implies !tag_matches(#[trigger] other[j], name, category) by {
            assert(tags[j].tag_id == other[j].tag_id);
            assert(!tag_matches(tags[j], name, category));
        }
    }
    assert forall|i: int| is_first_match(other, name, category, i) implies is_first_match(
        tags,
        name,
        category,
        i,
    ) by {
        assert(tag_matches(tags[i], name, category)) by {
            assert(tags[i].tag_id == other[i].tag_id);
        }
        assert forall|j: int| 0 <= j < i implies !tag_matches(#[trigger] tags[j], name, category) by {
            assert(tags[j].tag_id == other[j].tag_id);
            assert(!tag_matches(other[j], name, category));
        }
    }
    if exists|i: int| is_first_match(tags, name, category, i) {
        let i = choose|i: int| is_first_match(tags, name, category, i);
        let j = choose|j: int| is_first_match(other, name, category, j);
        assert(is_first_match(other, name, category, i));
        lemma_first_match_unique(other, name, category, i, j);
        assert(tags[i].tag_id == other[i].tag_id);
    } else {
        if exists|j: int| is_first_match(other, name, category, j) {
            let j = choose|j: int| is_first_match(other, name, category, j);
            assert(is_first_match(tags, name, category, j));
        }
    }
}

/// The id under which `name` in `category` resolves, if it does.
pub fn find_tag(tags: &Vec<TagRow>, name: &String, category: u32) -> (found: Option<u32>)
    ensures
        found == lookup_tag(tags@, name@, category),
{
    let mut i: usize = 0;
    while i < tags.len()
        invariant
            i <= tags.len(),
            forall|j: int| 0 <= j < i ==> !tag_matches(#[trigger] tags@[j], name@, category),
        decreases tags.len() - i,
    {
        if tags[i].category == category && tags[i].name == *name {
            proof {
                assert(is_first_match(tags@, name@, category, i as int));
                let c = choose|c: int| is_first_match(tags@, name@, category, c);
                lemma_first_match_unique(tags@, name@, category, i as int, c);
            }
            return Some(tags[i].tag_id);
        }
        i += 1;
    }
    proof {
        if exists|c: int| is_first_match(tags@, name@, category, c) {
            let c = choose|c: int| is_first_match(tags@, name@, category, c);
            assert(tag_matches(tags@[c], name@, category));
        }
    }
    None
}

/// A tag is kept unless the source reports that nothing uses it.
pub open spec fn tag_is_kept(r: Tag) -> bool {
    r.post_count != 0
}

/// The row stored for a kept tag. Its count starts at zero whatever the
/// source reports.
pub open spec fn tag_row(r: Tag) -> TagRow {
    TagRow { tag_id: r.id, name: r.name, category: r.category, count: 0 }
}

/// The rows that a batch of tag records contributes.
pub open spec fn tag_rows(records: Seq<Tag>) -> Seq<TagRow> {
    select(records, |r: Tag| tag_is_kept(r), |r: Tag| tag_row(r))
}

/// Whether `id` is the key of one of `rows`.
pub fn has_tag_id(rows: &Vec<TagRow>, id: u32) -> (found: bool)
    ensures
        found == tag_ids(rows@).contains(id),
{
    let mut i: usize = 0;
    while i < rows.len()
        invariant
            i <= rows.len(),
            forall|k: int| 0 <= k < i ==> tag_ids(rows@)[k] != id,
        decreases rows.len() - i,
    {
        if rows[i].tag_id == id {
            assert(tag_ids(rows@)[i as int] == id);
            return true;
        }
        i += 1;
    }
    false
}

/// After a batch of tags has been imported, the tag table holds the row of
/// every record of the batch with a nonzero post count, with a count of
/// zero. It holds no row under the id of a record with a post count of zero,
/// unless that id was in the table before or a record of the batch with a
/// nonzero post count bears it too.
pub proof fn lemma_tag_import_stores(before: StoreView, after: StoreView, records: Seq<Tag>, i: int)
    requires
        tags_imported(before, records) == Ok::<_, PipelineError>(after),
        0 <= i < records.len(),
    ensures
        records[i].post_count != 0 ==> after.tags.contains(tag_row(records[i])),
        tag_row(records[i]).count == 0,
        records[i].post_count == 0 && !tag_ids(before.tags).contains(records[i].id) && (forall|
            j: int,
        |
            0 <= j < records.len() && (#[trigger] records[j]).id == records[i].id
                ==> records[j].post_count == 0) ==> !tag_ids(after.tags).contains(records[i].id),
{
    let keep = |r: Tag| tag_is_kept(r);
    let row = |r: Tag| tag_row(r);
    let id = records[i].id;
    lemma_select_members(records, keep, row);
    if records[i].post_count != 0 {
        lemma_contains_in_concat(before.tags, tag_rows(records), tag_row(records[i]));
    }
    if tag_ids(after.tags).contains(id) && !tag_ids(before.tags).contains(id) {
        assert(tag_ids(after.tags) =~= tag_ids(before.tags) + tag_ids(tag_rows(records)));
        lemma_contains_in_concat(tag_ids(before.tags), tag_ids(tag_rows(records)), id);
        let k = choose|k: int|
            0 <= k < tag_ids(tag_rows(records)).len() && tag_ids(tag_rows(records))[k] == id;
        let j = choose|j: int|
            0 <= j < records.len() && keep(records[j]) && #[trigger] tag_rows(records)[k] == row(
                #[trigger] records[j],
            );
        assert(records[j].id == id && records[j].post_count != 0);
    }
}

/// The rows that a batch of tags adds are the rows of its records with a
/// nonzero post count: each added row is that of such a record and has a
/// count of zero, and there are as many rows as such records.
pub proof fn lemma_tag_rows_are_used(records: Seq<Tag>, k: int)
    requires
        0 <= k < tag_rows(records).len(),
    ensures
        exists|i: int|
            0 <= i < records.len() && (#[trigger] records[i]).post_count != 0 && tag_rows(
                records,
            )[k] == tag_row(records[i]),
        tag_rows(records)[k].count == 0,
        tag_rows(records).len() == records.filter(|r: Tag| tag_is_kept(r)).len(),
{
    lemma_select_members(records, |r: Tag| tag_is_kept(r), |r: Tag| tag_row(r));
    let i = choose|i: int|
        0 <= i < records.len() && tag_is_kept(records[i]) && #[trigger] tag_rows(records)[k]
            == tag_row(#[trigger] records[i]);
    assert(records[i].post_count != 0);
}

/// What the import of a batch of tags makes of a store: the tag table with
/// the rows of the batch behind it. The import is refused unless the store
/// is open to imports, and unless the ids of the resulting table are all
/// different.
pub open spec fn tags_imported(s: StoreView, records: Seq<Tag>) -> Result<StoreView, PipelineError> {
    if s.stage != Stage::Importing {
        Err(PipelineError::OutOfOrder)
    } else if !tag_ids(s.tags + tag_rows(records)).no_duplicates() {
        Err(PipelineError::DuplicateKey)
    } else {
        Ok(StoreView { tags: s.tags + tag_rows(records), ..s })
    }
}

/// Imports one batch of tag records.
///
/// Records with a reported post count of zero are skipped. The others are
/// appended to the tag table, in order, with a count of zero. The batch is
/// all-or-nothing: if any kept record repeats a tag id, of the table or of
/// the batch itself, nothing is stored.
pub fn import_tag(records: &Vec<Tag>, store: &mut Store) -> (res: Result<(), PipelineError>)
    ensures
        final(store)@.wf(),
        match tags_imported(old(store)@, records@) {
            Ok(after) => res is Ok && final(store)@ == after,
            Err(e) => res == Err::<(), _>(e) && final(store)@ == old(store)@,
        },
{
    proof {
        use_type_invariant(&*store);
    }
    if store.inner.stage != Stage::Importing {
        return Err(PipelineError::OutOfOrder);
    }
    let mut batch: Vec<TagRow> = Vec::new();
    let mut i: usize = 0;
    while i < records.len()
        invariant
            i <= records.len(),
            *store == *old(store),
            store@.wf(),
            store@.stage == Stage::Importing,
            batch@ == tag_rows(records@.take(i as int)),
            tag_ids(store@.tags + batch@).no_duplicates(),
        decreases records.len() - i,
    {
        let r = &records[i];
        proof {
            lemma_select_step(
                records@,
                |r: Tag| tag_is_kept(r),
                |r: Tag| tag_row(r),
                i as int,
            );
        }
        if r.post_count != 0 {
            let clash = has_tag_id(&store.inner.tags, r.id) || has_tag_id(&batch, r.id);
            proof {
                lemma_key_is_new(store@.tags, batch@, tag_row(*r), |r: TagRow| r.tag_id);
            }
            if clash {
                proof {
                    lemma_select_split(
                        records@,
                        |r: Tag| tag_is_kept(r),
                        |r: Tag| tag_row(r),
                        i + 1,
                    );
                    lemma_duplicates_persist(
                        store@.tags + tag_rows(records@.take(i + 1)),
                        tag_rows(records@.skip(i + 1)),
                        |r: TagRow| r.tag_id,
                    );
                    assert(store@.tags + tag_rows(records@) =~= store@.tags + tag_rows(
                        records@.take(i + 1),
                    ) + tag_rows(records@.skip(i + 1)));
                }
                return Err(PipelineError::DuplicateKey);
            }
            batch.push(TagRow { tag_id: r.id, name: r.name.clone(), category: r.category, count: 0 });
        }
        i += 1;
    }
    assert(records@.take(i as int) =~= records@);
    let mut tables = store.take();
    tables.tags.append(&mut batch);
    store.put(tables);
    Ok(())
}

} // verus!
