//! The stages that follow the imports: index building, tag resolution,
//! aggregation and the removal of the staging table.

use vstd::prelude::*;
use crate::artist::{artist_ids, artists_imported, import_artist, Artist, ArtistRow};
use crate::image::{
    create_image_tables, image_ids, images_imported, import_image, pending_keys, Category,
    ImageTag, PendingRef, Post,
};
use crate::note::{import_note, notes_imported, Note};
use crate::pool::{import_pool, pools_imported, Pool};
use crate::relation::{
    lemma_no_duplicates_prefix, lemma_no_duplicates_push, lemma_select_members,
    lemma_select_split, lemma_select_step, select,
};
use crate::store::{all_indices, entity_indices, usage, Index, PipelineError, Stage, Store, StoreView};
use crate::tag::{
    find_tag, import_tag, is_first_match, lemma_lookup_ignores_counts, lemma_lookup_tag,
    lemma_same_tag_same_name, lookup_tag, tag_ids, tag_matches, tags_imported, Tag, TagRow,
};

verus! {

/// What index building makes of a store: the indices over the entity tables
/// exist and imports are over. It is refused unless the store is open to
/// imports.
pub open spec fn indices_created(s: StoreView) -> Result<StoreView, PipelineError> {
    if s.stage != Stage::Importing {
        Err(PipelineError::OutOfOrder)
    } else {
        Ok(StoreView { stage: Stage::Indexed, indices: entity_indices(), ..s })
    }
}

/// Builds the lookup indices over the entity tables and closes the store to
/// imports.
pub fn create_indices(store: &mut Store) -> (res: Result<(), PipelineError>)
    ensures
        final(store)@.wf(),
        match indices_created(old(store)@) {
            Ok(after) => res is Ok && final(store)@ == after,
            Err(e) => res == Err::<(), _>(e) && final(store)@ == old(store)@,
        },
{
    proof {
        use_type_invariant(&*store);
    }
    if store.inner.stage != Stage::Importing {
        return Err(PipelineError::OutOfOrder);
    }
    let mut tables = store.take();
    tables.indices.push(Index::TagsById);
    tables.indices.push(Index::TagsByNameAndId);
    tables.indices.push(Index::ImagesById);
    tables.indices.push(Index::ArtistsById);
    tables.indices.push(Index::ArtistsByTag);
    tables.indices.push(Index::ImagesByIdAndRating);
    tables.stage = Stage::Indexed;
    assert(tables@.indices =~= entity_indices());
    store.put(tables);
    Ok(())
}

/// Whether a pending reference names a tag of the table: some tag row bears
/// its text in its category.
pub open spec fn resolves(tags: Seq<TagRow>, p: PendingRef) -> bool {
    lookup_tag(tags, p.text@, p.category.spec_code()) is Some
}

/// The association that a pending reference resolves to.
pub open spec fn association(tags: Seq<TagRow>, p: PendingRef) -> ImageTag {
    ImageTag { image_id: p.image_id, tag_id: lookup_tag(tags, p.text@, p.category.spec_code())->0 }
}

/// The associations that the pending references resolve to: one for each
/// reference that names a tag of the table, in order. References that name
/// no tag give nothing.
pub open spec fn resolve(pending: Seq<PendingRef>, tags: Seq<TagRow>) -> Seq<ImageTag> {
    select(pending, |p: PendingRef| resolves(tags, p), |p: PendingRef| association(tags, p))
}

/// Distinct pending references resolve to distinct associations.
pub proof fn lemma_resolve_unique(pending: Seq<PendingRef>, tags: Seq<TagRow>)
    requires
        pending_keys(pending).no_duplicates(),
        tag_ids(tags).no_duplicates(),
    ensures
        resolve(pending, tags).no_duplicates(),
    decreases pending.len(),
{
    let keep = |p: PendingRef| resolves(tags, p);
    let row = |p: PendingRef| association(tags, p);
    if pending.len() == 0 {
        reveal(Seq::filter);
        assert(resolve(pending, tags) =~= Seq::empty());
    } else {
        let n = pending.len() - 1;
        let init = pending.take(n);
        let last = pending[n];
        assert(pending =~= init + pending.skip(n));
        assert(pending_keys(pending) =~= pending_keys(init) + pending_keys(pending.skip(n)));
        lemma_no_duplicates_prefix(pending_keys(init), pending_keys(pending.skip(n)));
        lemma_resolve_unique(init, tags);
        lemma_select_step(pending, keep, row, n);
        assert(pending.take(n + 1) =~= pending);
        if resolves(tags, last) {
            let before = resolve(init, tags);
            lemma_select_members(init, keep, row);
            if before.contains(association(tags, last)) {
                let k = choose|k: int| 0 <= k < before.len() && before[k] == association(tags, last);
                let m = choose|m: int|
                    0 <= m < init.len() && keep(init[m]) && #[trigger] before[k] == row(
                        #[trigger] init[m],
                    );
                let other = init[m];
                assert(other == pending[m]);
                lemma_same_tag_same_name(
                    tags,
                    other.text@,
                    other.category.spec_code(),
                    last.text@,
                    last.category.spec_code(),
                );
                assert(other.category == last.category);
                assert(pending_keys(pending)[m] == pending_keys(pending)[n]);
            }
            lemma_no_duplicates_push(before, association(tags, last));
        }
    }
}

/// A pending reference that names no tag leaves no trace: no tag row bears
/// its text in its category, and the associations are those that the other
/// references give.
pub proof fn lemma_unmatched_reference_is_dropped(
    pending: Seq<PendingRef>,
    tags: Seq<TagRow>,
    i: int,
)
    requires
        0 <= i < pending.len(),
        !resolves(tags, pending[i]),
    ensures
        forall|k: int|
            0 <= k < tags.len() ==> !tag_matches(
                #[trigger] tags[k],
                pending[i].text@,
                pending[i].category.spec_code(),
            ),
        resolve(pending, tags) == resolve(pending.remove(i), tags),
{
    let keep = |p: PendingRef| resolves(tags, p);
    let row = |p: PendingRef| association(tags, p);
    lemma_lookup_tag(tags, pending[i].text@, pending[i].category.spec_code());
    lemma_select_split(pending, keep, row, i + 1);
    lemma_select_step(pending, keep, row, i);
    let others = pending.remove(i);
    lemma_select_split(others, keep, row, i);
    assert(others.take(i) =~= pending.take(i));
    assert(others.skip(i) =~= pending.skip(i + 1));
}

/// Every association stems from a pending reference that names a tag: it
/// joins the image of the reference with the first tag row that bears the
/// reference's text in its category.
pub proof fn lemma_association_has_reference(pending: Seq<PendingRef>, tags: Seq<TagRow>, k: int)
    requires
        0 <= k < resolve(pending, tags).len(),
    ensures
        exists|i: int, t: int|
            0 <= i < pending.len() && is_first_match(
                tags,
                (#[trigger] pending[i]).text@,
                pending[i].category.spec_code(),
                t,
            ) && resolve(pending, tags)[k] == (ImageTag {
                image_id: pending[i].image_id,
                tag_id: (#[trigger] tags[t]).tag_id,
            }),
{
    let keep = |p: PendingRef| resolves(tags, p);
    let row = |p: PendingRef| association(tags, p);
    lemma_select_members(pending, keep, row);
    let i = choose|i: int|
        0 <= i < pending.len() && keep(pending[i]) && #[trigger] resolve(pending, tags)[k] == row(
            #[trigger] pending[i],
        );
    lemma_lookup_tag(tags, pending[i].text@, pending[i].category.spec_code());
    let id = lookup_tag(tags, pending[i].text@, pending[i].category.spec_code())->0;
    let t = choose|t: int|
        is_first_match(tags, pending[i].text@, pending[i].category.spec_code(), t)
            && tags[t].tag_id == id;
    assert(is_first_match(tags, pending[i].text@, pending[i].category.spec_code(), t)
        && resolve(pending, tags)[k] == (ImageTag {
        image_id: pending[i].image_id,
        tag_id: tags[t].tag_id,
    }));
}

/// What tag resolution makes of a store: the associations are those that
/// the pending references resolve to, and every index exists. It is refused
/// unless the indices over the entity tables have just been built.
pub open spec fn image_tags_made(s: StoreView) -> Result<StoreView, PipelineError> {
    if s.stage != Stage::Indexed {
        Err(PipelineError::OutOfOrder)
    } else {
        Ok(
            StoreView {
                stage: Stage::Resolved,
                image_tags: resolve(s.pending, s.tags),
                indices: all_indices(),
                ..s
            },
        )
    }
}

/// Tags may be imported before images or after them: one order is accepted
/// exactly when the other is, and both leave the same store.
pub proof fn lemma_tags_before_or_after_images(s: StoreView, posts: Seq<Post>, tags: Seq<Tag>)
    ensures
        ({
            let images_first = match images_imported(s, posts) {
                Ok(after) => tags_imported(after, tags),
                Err(e) => Err(e),
            };
            let tags_first = match tags_imported(s, tags) {
                Ok(after) => images_imported(after, posts),
                Err(e) => Err(e),
            };
            &&& images_first is Ok <==> tags_first is Ok
            &&& images_first is Ok ==> images_first == tags_first
        }),
{
}

/// Resolution reads the id, the name and the category of a tag row, and
/// nothing else: tables that agree in these give the same associations.
pub proof fn lemma_resolve_ignores_counts(
    pending: Seq<PendingRef>,
    tags: Seq<TagRow>,
    other: Seq<TagRow>,
)
    requires
        tags.len() == other.len(),
        forall|i: int|
            0 <= i < tags.len() ==> (#[trigger] tags[i]).tag_id == other[i].tag_id && tags[i].name@
                == other[i].name@ && tags[i].category == other[i].category,
    ensures
        resolve(pending, tags) == resolve(pending, other),
{
    let keep = |p: PendingRef| resolves(tags, p);
    let row = |p: PendingRef| association(tags, p);
    let other_keep = |p: PendingRef| resolves(other, p);
    let other_row = |p: PendingRef| association(other, p);
    assert forall|p: PendingRef| #[trigger] keep(p) == other_keep(p) by {
        lemma_lookup_ignores_counts(tags, other, p.text@, p.category.spec_code());
    }
    assert forall|p: PendingRef| #[trigger] row(p) == other_row(p) by {
        lemma_lookup_ignores_counts(tags, other, p.text@, p.category.spec_code());
    }
    assert(keep =~= other_keep);
    assert(row =~= other_row);
}

/// Resolves the pending tag references into associations.
///
/// Each reference whose text and category match a tag row gives the
/// association of its image with that tag. A reference that matches none is
/// dropped; that is no error. The index over the associations is built with
/// them.
pub fn make_image_tags(store: &mut Store) -> (res: Result<(), PipelineError>)
    ensures
        final(store)@.wf(),
        match image_tags_made(old(store)@) {
            Ok(after) => res is Ok && final(store)@ == after,
            Err(e) => res == Err::<(), _>(e) && final(store)@ == old(store)@,
        },
{
    proof {
        use_type_invariant(&*store);
    }
    if store.inner.stage != Stage::Indexed {
        return Err(PipelineError::OutOfOrder);
    }
    let mut found: Vec<ImageTag> = Vec::new();
    let mut i: usize = 0;
    while i < store.inner.pending.len()
        invariant
            i <= store.inner.pending.len(),
            *store == *old(store),
            found@ == resolve(store@.pending.take(i as int), store@.tags),
        decreases store.inner.pending.len() - i,
    {
        let p = &store.inner.pending[i];
        proof {
            lemma_select_step(
                store@.pending,
                |p: PendingRef| resolves(store@.tags, p),
                |p: PendingRef| association(store@.tags, p),
                i as int,
            );
        }
        match find_tag(&store.inner.tags, &p.text, p.category.code()) {
            Some(tag_id) => {
                found.push(ImageTag { image_id: p.image_id, tag_id });
            },
            None => {},
        }
        i += 1;
    }
    proof {
        assert(store@.pending.take(i as int) =~= store@.pending);
        lemma_resolve_unique(store@.pending, store@.tags);
        assert forall|k: int| 0 <= k < found@.len() implies image_ids(store@.images).contains(
            (#[trigger] found@[k]).image_id,
        ) && tag_ids(store@.tags).contains(found@[k].tag_id) by {
            lemma_association_has_reference(store@.pending, store@.tags, k);
            let (i, t) = choose|i: int, t: int|
                0 <= i < store@.pending.len() && is_first_match(
                    store@.tags,
                    (#[trigger] store@.pending[i]).text@,
                    store@.pending[i].category.spec_code(),
                    t,
                ) && found@[k] == (ImageTag {
                    image_id: store@.pending[i].image_id,
                    tag_id: (#[trigger] store@.tags[t]).tag_id,
                });
            assert(tag_ids(store@.tags)[t] == found@[k].tag_id);
        }
    }
    let mut tables = store.take();
    tables.image_tags = found;
    tables.indices.push(Index::ImageTagsByTag);
    tables.stage = Stage::Resolved;
    assert(tables@.indices =~= all_indices());
    store.put(tables);
    Ok(())
}

/// How many associations name `tag_id`.
pub fn count_usage(image_tags: &Vec<ImageTag>, tag_id: u32) -> (n: u64)
    ensures
        n == usage(image_tags@, tag_id),
{
    let mut n: usize = 0;
    let mut i: usize = 0;
    while i < image_tags.len()
        invariant
            i <= image_tags.len(),
            n <= i,
            n == usage(image_tags@.take(i as int), tag_id),
        decreases image_tags.len() - i,
    {
        proof {
            assert(image_tags@.take(i + 1) =~= image_tags@.take(i as int).push(image_tags@[i as int]));
            image_tags@.take(i as int).lemma_filter_push(
                image_tags@[i as int],
                |a: ImageTag| a.tag_id == tag_id,
            );
        }
        if image_tags[i].tag_id == tag_id {
            n += 1;
        }
        i += 1;
    }
    proof {
        reveal(Seq::filter);
        assert(image_tags@.take(i as int) =~= image_tags@);
    }
    n as u64
}

/// A tag row with its count derived from the associations.
pub open spec fn counted_tag(image_tags: Seq<ImageTag>, t: TagRow) -> TagRow {
    TagRow {
        tag_id: t.tag_id,
        name: t.name,
        category: t.category,
        count: usage(image_tags, t.tag_id) as u64,
    }
}

/// An artist row with its tag resolved by name among the artist-category
/// tags, and its count derived from the associations of that tag.
pub open spec fn settled_artist(
    tags: Seq<TagRow>,
    image_tags: Seq<ImageTag>,
    a: ArtistRow,
) -> ArtistRow {
    let tag_id = lookup_tag(tags, a.name@, Category::Artist.spec_code());
    ArtistRow {
        artist_id: a.artist_id,
        name: a.name,
        is_banned: a.is_banned,
        is_deleted: a.is_deleted,
        count: match tag_id {
            Some(t) => usage(image_tags, t) as u64,
            None => 0,
        },
        tag_id,
    }
}

/// The tag table after aggregation.
pub open spec fn counted_tags(tags: Seq<TagRow>, image_tags: Seq<ImageTag>) -> Seq<TagRow> {
    tags.map_values(|t: TagRow| counted_tag(image_tags, t))
}

/// The artist table after aggregation.
pub open spec fn settled_artists(
    artists: Seq<ArtistRow>,
    tags: Seq<TagRow>,
    image_tags: Seq<ImageTag>,
) -> Seq<ArtistRow> {
    artists.map_values(|a: ArtistRow| settled_artist(tags, image_tags, a))
}

/// A usage count is at most the number of associations.
pub proof fn lemma_usage_bound(image_tags: Seq<ImageTag>, tag_id: u32)
    ensures
        usage(image_tags, tag_id) <= image_tags.len(),
{
    image_tags.lemma_filter_len(|a: ImageTag| a.tag_id == tag_id);
}

/// What aggregation makes of a store: tags and artists hold their derived
/// fields. It is refused unless the references have just been resolved.
pub open spec fn counts_updated(s: StoreView) -> Result<StoreView, PipelineError> {
    if s.stage != Stage::Resolved {
        Err(PipelineError::OutOfOrder)
    } else {
        Ok(
            StoreView {
                stage: Stage::Aggregated,
                tags: counted_tags(s.tags, s.image_tags),
                artists: settled_artists(s.artists, s.tags, s.image_tags),
                ..s
            },
        )
    }
}

/// Derives the usage counts of tags and artists, and each artist's own tag.
///
/// A tag's count becomes the number of images associated with it, which is
/// zero for a tag that no association names. An artist's tag becomes the
/// artist-category tag of the same name, if there is one, and the artist's
/// count the count of that tag.
pub fn update_counts(store: &mut Store) -> (res: Result<(), PipelineError>)
    ensures
        final(store)@.wf(),
        match counts_updated(old(store)@) {
            Ok(after) => res is Ok && final(store)@ == after,
            Err(e) => res == Err::<(), _>(e) && final(store)@ == old(store)@,
        },
{
    proof {
        use_type_invariant(&*store);
    }
    if store.inner.stage != Stage::Resolved {
        return Err(PipelineError::OutOfOrder);
    }
    let ghost before = store@;
    let mut tags: Vec<TagRow> = Vec::new();
    let mut i: usize = 0;
    while i < store.inner.tags.len()
        invariant
            i <= store.inner.tags.len(),
            *store == *old(store),
            tags@ == counted_tags(store@.tags.take(i as int), store@.image_tags),
        decreases store.inner.tags.len() - i,
    {
        let t = &store.inner.tags[i];
        let count = count_usage(&store.inner.image_tags, t.tag_id);
        proof {
            assert(store@.tags.take(i + 1) =~= store@.tags.take(i as int).push(*t));
            assert(counted_tags(store@.tags.take(i + 1), store@.image_tags) =~= counted_tags(
                store@.tags.take(i as int),
                store@.image_tags,
            ).push(counted_tag(store@.image_tags, *t)));
        }
        tags.push(TagRow { tag_id: t.tag_id, name: t.name.clone(), category: t.category, count });
        i += 1;
    }
    assert(store@.tags.take(i as int) =~= store@.tags);
    let mut artists: Vec<ArtistRow> = Vec::new();
    let mut j: usize = 0;
    while j < store.inner.artists.len()
        invariant
            j <= store.inner.artists.len(),
            *store == *old(store),
            artists@ == settled_artists(
                store@.artists.take(j as int),
                store@.tags,
                store@.image_tags,
            ),
        decreases store.inner.artists.len() - j,
    {
        let a = &store.inner.artists[j];
        let tag_id = find_tag(&store.inner.tags, &a.name, Category::Artist.code());
        let count = match tag_id {
            Some(t) => count_usage(&store.inner.image_tags, t),
            None => 0,
        };
        proof {
            assert(store@.artists.take(j + 1) =~= store@.artists.take(j as int).push(*a));
            assert(settled_artists(store@.artists.take(j + 1), store@.tags, store@.image_tags)
                =~= settled_artists(
                store@.artists.take(j as int),
                store@.tags,
                store@.image_tags,
            ).push(settled_artist(store@.tags, store@.image_tags, *a)));
        }
        artists.push(
            ArtistRow {
                artist_id: a.artist_id,
                name: a.name.clone(),
                is_banned: a.is_banned,
                is_deleted: a.is_deleted,
                count,
                tag_id,
            },
        );
        j += 1;
    }
    proof {
        assert(store@.artists.take(j as int) =~= store@.artists);
        assert(tag_ids(tags@) =~= tag_ids(before.tags));
        assert(artist_ids(artists@) =~= artist_ids(before.artists));
        assert forall|k: int| 0 <= k < artists@.len() implies (#[trigger] artists@[k]).tag_id
            == lookup_tag(tags@, artists@[k].name@, Category::Artist.spec_code()) by {
            lemma_lookup_ignores_counts(
                before.tags,
                tags@,
                before.artists[k].name@,
                Category::Artist.spec_code(),
            );
        }
    }
    let mut tables = store.take();
    tables.tags = tags;
    tables.artists = artists;
    tables.stage = Stage::Aggregated;
    proof {
        let after = tables@;
        assert(before.image_tags.len() == tables.image_tags.len() <= usize::MAX);
        assert forall|k: int| 0 <= k < after.tags.len() implies (#[trigger] after.tags[k]).count
            == usage(after.image_tags, after.tags[k].tag_id) by {
            lemma_usage_bound(before.image_tags, before.tags[k].tag_id);
        }
        assert forall|k: int| 0 <= k < after.artists.len() implies {
            let a = #[trigger] after.artists[k];
            &&& a.tag_id == lookup_tag(after.tags, a.name@, Category::Artist.spec_code())
            &&& a.count == match a.tag_id {
                Some(t) => usage(after.image_tags, t),
                None => 0,
            }
        } by {
            let a = after.artists[k];
            if a.tag_id is Some {
                lemma_usage_bound(before.image_tags, a.tag_id->0);
            }
        }
        assert(after.counts_are_derived());
        assert(after.keys_unique());
        assert(after.owners_exist());
        lemma_resolve_ignores_counts(before.pending, before.tags, after.tags);
    }
    store.put(tables);
    Ok(())
}

/// What the end of the run makes of a store: the staging table is empty. It
/// is refused unless the counts have just been derived.
pub open spec fn staging_dropped(s: StoreView) -> Result<StoreView, PipelineError> {
    if s.stage != Stage::Aggregated {
        Err(PipelineError::OutOfOrder)
    } else {
        Ok(StoreView { stage: Stage::Finished, pending: Seq::empty(), ..s })
    }
}

/// Drops the staging table, which ends the run.
pub fn drop_staging(store: &mut Store) -> (res: Result<(), PipelineError>)
    ensures
        final(store)@.wf(),
        match staging_dropped(old(store)@) {
            Ok(after) => res is Ok && final(store)@ == after,
            Err(e) => res == Err::<(), _>(e) && final(store)@ == old(store)@,
        },
{
    proof {
        use_type_invariant(&*store);
    }
    if store.inner.stage != Stage::Aggregated {
        return Err(PipelineError::OutOfOrder);
    }
    let mut tables = store.take();
    tables.pending.clear();
    tables.stage = Stage::Finished;
    store.put(tables);
    Ok(())
}

/// The batches of a run, by kind. The kinds are imported in the order of the
/// fields, the batches of a kind in their order.
pub struct Batches {
    pub images: Vec<Vec<Post>>,
    pub tags: Vec<Vec<Tag>>,
    pub notes: Vec<Vec<Note>>,
    pub pools: Vec<Vec<Pool>>,
    pub artists: Vec<Vec<Artist>>,
}

/// The records of each of `batches`.
pub open spec fn batches_of<A>(batches: Seq<Vec<A>>) -> Seq<Seq<A>> {
    batches.map_values(|b: Vec<A>| b@)
}

/// The store after `batches` have been imported one after another, up to
/// the first that is refused, and whether one was. The batches before that
/// one stay imported; those after it are not looked at.
pub open spec fn import_each<A>(
    s: StoreView,
    batches: Seq<Seq<A>>,
    import: spec_fn(StoreView, Seq<A>) -> Result<StoreView, PipelineError>,
) -> (StoreView, Result<(), PipelineError>)
    decreases batches.len(),
{
    if batches.len() == 0 {
        (s, Ok(()))
    } else {
        match import(s, batches[0]) {
            Ok(after) => import_each(after, batches.drop_first(), import),
            Err(e) => (s, Err(e)),
        }
    }
}

/// The store at the end of a run whose imports have left `s`: the pending
/// references are resolved, the counts derived from the associations, every
/// index built and the staging table dropped.
pub open spec fn completed(s: StoreView) -> StoreView {
    let image_tags = resolve(s.pending, s.tags);
    StoreView {
        stage: Stage::Finished,
        pending: Seq::empty(),
        image_tags,
        tags: counted_tags(s.tags, image_tags),
        artists: settled_artists(s.artists, s.tags, image_tags),
        indices: all_indices(),
        ..s
    }
}

/// The outcome of a run over `input`: the tables are created, then the
/// batches of images, tags, notes, pools and artists are imported, in that
/// order. If all are accepted, the run is completed. The first batch that is
/// refused ends the run with the store as the batches before it left it.
pub open spec fn run_outcome(input: Batches) -> (StoreView, Result<(), PipelineError>) {
    let s0 = StoreView { stage: Stage::Importing, ..StoreView::fresh() };
    let (s1, r1) = import_each(
        s0,
        batches_of(input.images@),
        |s: StoreView, b: Seq<Post>| images_imported(s, b),
    );
    let (s2, r2) = import_each(
        s1,
        batches_of(input.tags@),
        |s: StoreView, b: Seq<Tag>| tags_imported(s, b),
    );
    let (s3, r3) = import_each(
        s2,
        batches_of(input.notes@),
        |s: StoreView, b: Seq<Note>| notes_imported(s, b),
    );
    let (s4, r4) = import_each(
        s3,
        batches_of(input.pools@),
        |s: StoreView, b: Seq<Pool>| pools_imported(s, b),
    );
    let (s5, r5) = import_each(
        s4,
        batches_of(input.artists@),
        |s: StoreView, b: Seq<Artist>| artists_imported(s, b),
    );
    if r1 is Err {
        (s1, r1)
    } else if r2 is Err {
        (s2, r2)
    } else if r3 is Err {
        (s3, r3)
    } else if r4 is Err {
        (s4, r4)
    } else if r5 is Err {
        (s5, r5)
    } else {
        (completed(s5), Ok(()))
    }
}

fn import_images(batches: &Vec<Vec<Post>>, store: &mut Store) -> (res: Result<(), PipelineError>)
    ensures
        final(store)@.wf(),
        (final(store)@, res) == import_each(
            old(store)@,
            batches_of(batches@),
            |s: StoreView, b: Seq<Post>| images_imported(s, b),
        ),
{
    proof {
        use_type_invariant(&*store);
    }
    let ghost all = batches_of(batches@);
    let ghost import = |s: StoreView, b: Seq<Post>| images_imported(s, b);
    let mut i: usize = 0;
    assert(all.skip(0) =~= all);
    while i < batches.len()
        invariant
            i <= batches.len(),
            store@.wf(),
            all == batches_of(batches@),
            import == |s: StoreView, b: Seq<Post>| images_imported(s, b),
            import_each(old(store)@, all, import) == import_each(store@, all.skip(i as int), import),
        decreases batches.len() - i,
    {
        proof {
            assert(all.skip(i as int)[0] == batches@[i as int]@);
            assert(all.skip(i as int).drop_first() =~= all.skip(i + 1));
        }
        match import_image(&batches[i], store) {
            Ok(()) => {},
            Err(e) => {
                return Err(e);
            },
        }
        i += 1;
    }
    Ok(())
}

fn import_tags(batches: &Vec<Vec<Tag>>, store: &mut Store) -> (res: Result<(), PipelineError>)
    ensures
        final(store)@.wf(),
        (final(store)@, res) == import_each(
            old(store)@,
            batches_of(batches@),
            |s: StoreView, b: Seq<Tag>| tags_imported(s, b),
        ),
{
    proof {
        use_type_invariant(&*store);
    }
    let ghost all = batches_of(batches@);
    let ghost import = |s: StoreView, b: Seq<Tag>| tags_imported(s, b);
    let mut i: usize = 0;
    assert(all.skip(0) =~= all);
    while i < batches.len()
        invariant
            i <= batches.len(),
            store@.wf(),
            all == batches_of(batches@),
            import == |s: StoreView, b: Seq<Tag>| tags_imported(s, b),
            import_each(old(store)@, all, import) == import_each(store@, all.skip(i as int), import),
        decreases batches.len() - i,
    {
        proof {
            assert(all.skip(i as int)[0] == batches@[i as int]@);
            assert(all.skip(i as int).drop_first() =~= all.skip(i + 1));
        }
        match import_tag(&batches[i], store) {
            Ok(()) => {},
            Err(e) => {
                return Err(e);
            },
        }
        i += 1;
    }
    Ok(())
}

fn import_notes(batches: &Vec<Vec<Note>>, store: &mut Store) -> (res: Result<(), PipelineError>)
    ensures
        final(store)@.wf(),
        (final(store)@, res) == import_each(
            old(store)@,
            batches_of(batches@),
            |s: StoreView, b: Seq<Note>| notes_imported(s, b),
        ),
{
    proof {
        use_type_invariant(&*store);
    }
    let ghost all = batches_of(batches@);
    let ghost import = |s: StoreView, b: Seq<Note>| notes_imported(s, b);
    let mut i: usize = 0;
    assert(all.skip(0) =~= all);
    while i < batches.len()
        invariant
            i <= batches.len(),
            store@.wf(),
            all == batches_of(batches@),
            import == |s: StoreView, b: Seq<Note>| notes_imported(s, b),
            import_each(old(store)@, all, import) == import_each(store@, all.skip(i as int), import),
        decreases batches.len() - i,
    {
        proof {
            assert(all.skip(i as int)[0] == batches@[i as int]@);
            assert(all.skip(i as int).drop_first() =~= all.skip(i + 1));
        }
        match import_note(&batches[i], store) {
            Ok(()) => {},
            Err(e) => {
                return Err(e);
            },
        }
        i += 1;
    }
    Ok(())
}

fn import_pools(batches: &Vec<Vec<Pool>>, store: &mut Store) -> (res: Result<(), PipelineError>)
    ensures
        final(store)@.wf(),
        (final(store)@, res) == import_each(
            old(store)@,
            batches_of(batches@),
            |s: StoreView, b: Seq<Pool>| pools_imported(s, b),
        ),
{
    proof {
        use_type_invariant(&*store);
    }
    let ghost all = batches_of(batches@);
    let ghost import = |s: StoreView, b: Seq<Pool>| pools_imported(s, b);
    let mut i: usize = 0;
    assert(all.skip(0) =~= all);
    while i < batches.len()
        invariant
            i <= batches.len(),
            store@.wf(),
            all == batches_of(batches@),
            import == |s: StoreView, b: Seq<Pool>| pools_imported(s, b),
            import_each(old(store)@, all, import) == import_each(store@, all.skip(i as int), import),
        decreases batches.len() - i,
    {
        proof {
            assert(all.skip(i as int)[0] == batches@[i as int]@);
            assert(all.skip(i as int).drop_first() =~= all.skip(i + 1));
        }
        match import_pool(&batches[i], store) {
            Ok(()) => {},
            Err(e) => {
                return Err(e);
            },
        }
        i += 1;
    }
    Ok(())
}

fn import_artists(batches: &Vec<Vec<Artist>>, store: &mut Store) -> (res: Result<(), PipelineError>)
    ensures
        final(store)@.wf(),
        (final(store)@, res) == import_each(
            old(store)@,
            batches_of(batches@),
            |s: StoreView, b: Seq<Artist>| artists_imported(s, b),
        ),
{
    proof {
        use_type_invariant(&*store);
    }
    let ghost all = batches_of(batches@);
    let ghost import = |s: StoreView, b: Seq<Artist>| artists_imported(s, b);
    let mut i: usize = 0;
    assert(all.skip(0) =~= all);
    while i < batches.len()
        invariant
            i <= batches.len(),
            store@.wf(),
            all == batches_of(batches@),
            import == |s: StoreView, b: Seq<Artist>| artists_imported(s, b),
            import_each(old(store)@, all, import) == import_each(store@, all.skip(i as int), import),
        decreases batches.len() - i,
    {
        proof {
            assert(all.skip(i as int)[0] == batches@[i as int]@);
            assert(all.skip(i as int).drop_first() =~= all.skip(i + 1));
        }
        match import_artist(&batches[i], store) {
            Ok(()) => {},
            Err(e) => {
                return Err(e);
            },
        }
        i += 1;
    }
    Ok(())
}

/// Importing batches leaves a store open to imports, and is refused only
/// for a repeated key, provided each single import does so.
proof fn lemma_import_each_stays_open<A>(
    s: StoreView,
    batches: Seq<Seq<A>>,
    import: spec_fn(StoreView, Seq<A>) -> Result<StoreView, PipelineError>,
)
    requires
        s.stage == Stage::Importing,
        forall|t: StoreView, b: Seq<A>|
            t.stage == Stage::Importing ==> match #[trigger] import(t, b) {
                Ok(after) => after.stage == Stage::Importing,
                Err(e) => e == PipelineError::DuplicateKey,
            },
    ensures
        import_each(s, batches, import).0.stage == Stage::Importing,
        import_each(s, batches, import).1 is Err ==> import_each(s, batches, import).1 == Err::<
            (),
            _,
        >(PipelineError::DuplicateKey),
    decreases batches.len(),
{
    if batches.len() > 0 {
        match import(s, batches[0]) {
            Ok(after) => {
                lemma_import_each_stays_open(after, batches.drop_first(), import);
            },
            Err(e) => {},
        }
    }
}

/// Runs the whole pipeline over `input` on a new store, and gives the store
/// back with the outcome.
///
/// A run is refused only by a batch that repeats a key; the store then
/// holds what the batches before it gave and is still open to imports.
/// Pending references that name no tag never refuse a run. A run that is not
/// refused ends with a finished store.
pub fn run(input: &Batches) -> (out: (Store, Result<(), PipelineError>))
    ensures
        out.0@.wf(),
        (out.0@, out.1) == run_outcome(*input),
        out.1 is Ok ==> out.0@.stage == Stage::Finished,
        out.1 is Err ==> out.1 == Err::<(), _>(PipelineError::DuplicateKey) && out.0@.stage
            == Stage::Importing,
{
    let mut store = Store::new();
    match create_image_tables(&mut store) {
        Ok(()) => {},
        Err(e) => {
            return (store, Err(e));
        },
    }
    let ghost s0 = store@;
    proof {
        lemma_import_each_stays_open(
            s0,
            batches_of(input.images@),
            |s: StoreView, b: Seq<Post>| images_imported(s, b),
        );
    }
    match import_images(&input.images, &mut store) {
        Ok(()) => {},
        Err(e) => {
            return (store, Err(e));
        },
    }
    let ghost s1 = store@;
    proof {
        lemma_import_each_stays_open(
            s1,
            batches_of(input.tags@),
            |s: StoreView, b: Seq<Tag>| tags_imported(s, b),
        );
    }
    match import_tags(&input.tags, &mut store) {
        Ok(()) => {},
        Err(e) => {
            return (store, Err(e));
        },
    }
    let ghost s2 = store@;
    proof {
        lemma_import_each_stays_open(
            s2,
            batches_of(input.notes@),
            |s: StoreView, b: Seq<Note>| notes_imported(s, b),
        );
    }
    match import_notes(&input.notes, &mut store) {
        Ok(()) => {},
        Err(e) => {
            return (store, Err(e));
        },
    }
    let ghost s3 = store@;
    proof {
        lemma_import_each_stays_open(
            s3,
            batches_of(input.pools@),
            |s: StoreView, b: Seq<Pool>| pools_imported(s, b),
        );
    }
    match import_pools(&input.pools, &mut store) {
        Ok(()) => {},
        Err(e) => {
            return (store, Err(e));
        },
    }
    let ghost s4 = store@;
    proof {
        lemma_import_each_stays_open(
            s4,
            batches_of(input.artists@),
            |s: StoreView, b: Seq<Artist>| artists_imported(s, b),
        );
    }
    match import_artists(&input.artists, &mut store) {
        Ok(()) => {},
        Err(e) => {
            return (store, Err(e));
        },
    }
    match create_indices(&mut store) {
        Ok(()) => {},
        Err(e) => {
            return (store, Err(e));
        },
    }
    match make_image_tags(&mut store) {
        Ok(()) => {},
        Err(e) => {
            return (store, Err(e));
        },
    }
    match update_counts(&mut store) {
        Ok(()) => {},
        Err(e) => {
            return (store, Err(e));
        },
    }
    match drop_staging(&mut store) {
        Ok(()) => {},
        Err(e) => {
            return (store, Err(e));
        },
    }
    (store, Ok(()))
}

} // verus!
