//! The relational store that the pipeline fills, and the stage it is in.

use vstd::prelude::*;
use crate::artist::{artist_ids, other_name_keys, ArtistOtherName, ArtistRow};
use crate::image::{image_ids, pending_keys, Category, ImageRow, ImageTag, PendingRef};
use crate::note::{note_ids, NoteRow};
use crate::pipeline::resolve;
use crate::pool::{pool_ids, PoolImage, PoolRow};
use crate::relation::{lemma_contains_in_concat, lemma_no_duplicates_push};
use crate::tag::{lookup_tag, tag_ids, TagRow};

verus! {

/// Where a run stands. Stages are passed through in declaration order.
#[derive(Clone, Copy, Debug, PartialEq, Eq, Structural)]
pub enum Stage {
    /// Nothing exists yet.
    Fresh,
    /// Tables exist and batches may be imported, in any order.
    Importing,
    /// Lookup indices over the entity tables exist; no more imports.
    Indexed,
    /// Pending tag references have been resolved into associations.
    Resolved,
    /// Usage counters and artist tag ids have been derived.
    Aggregated,
    /// The staging table has been dropped.
    Finished,
}

/// Why an operation on the store was refused. A refused operation leaves the
/// store as it was.
#[derive(Clone, Copy, Debug, PartialEq, Eq, Structural)]
pub enum PipelineError {
    /// The operation does not belong to the stage the store is in.
    OutOfOrder,
    /// A row of the batch repeats a primary key, of the table or of the batch.
    DuplicateKey,
}

/// A lookup index over one of the finished tables.
#[derive(Clone, Copy, Debug, PartialEq, Eq, Structural)]
pub enum Index {
    /// Tags by id.
    TagsById,
    /// Tags by name, then id.
    TagsByNameAndId,
    /// Images by id.
    ImagesById,
    /// Artists by id.
    ArtistsById,
    /// Artists by the id of their own tag.
    ArtistsByTag,
    /// Images by id, then rating.
    ImagesByIdAndRating,
    /// Associations by tag id.
    ImageTagsByTag,
}

/// A table that an index can be built over.
#[derive(Clone, Copy, Debug, PartialEq, Eq, Structural)]
pub enum Table {
    Images,
    Tags,
    Artists,
    ImageTags,
}

/// A column that an index can order by.
#[derive(Clone, Copy, Debug, PartialEq, Eq, Structural)]
pub enum Column {
    ImageId,
    TagId,
    ArtistId,
    Name,
    Rating,
}

impl Index {
    /// The table that the index is over.
    pub open spec fn spec_table(self) -> Table {
        match self {
            Index::TagsById | Index::TagsByNameAndId => Table::Tags,
            Index::ImagesById | Index::ImagesByIdAndRating => Table::Images,
            Index::ArtistsById | Index::ArtistsByTag => Table::Artists,
            Index::ImageTagsByTag => Table::ImageTags,
        }
    }

    /// The columns that the index orders by, the leading one first.
    pub open spec fn spec_columns(self) -> Seq<Column> {
        match self {
            Index::TagsById => seq![Column::TagId],
            Index::TagsByNameAndId => seq![Column::Name, Column::TagId],
            Index::ImagesById => seq![Column::ImageId],
            Index::ArtistsById => seq![Column::ArtistId],
            Index::ArtistsByTag => seq![Column::TagId],
            Index::ImagesByIdAndRating => seq![Column::ImageId, Column::Rating],
            Index::ImageTagsByTag => seq![Column::TagId],
        }
    }

    #[verifier::when_used_as_spec(spec_table)]
    pub fn table(self) -> (t: Table)
        ensures
            t == self.spec_table(),
    {
        match self {
            Index::TagsById | Index::TagsByNameAndId => Table::Tags,
            Index::ImagesById | Index::ImagesByIdAndRating => Table::Images,
            Index::ArtistsById | Index::ArtistsByTag => Table::Artists,
            Index::ImageTagsByTag => Table::ImageTags,
        }
    }

    pub fn columns(self) -> (c: Vec<Column>)
        ensures
            c@ == self.spec_columns(),
    {
        let mut c: Vec<Column> = Vec::new();
        match self {
            Index::TagsById => {
                c.push(Column::TagId);
            },
            Index::TagsByNameAndId => {
                c.push(Column::Name);
                c.push(Column::TagId);
            },
            Index::ImagesById => {
                c.push(Column::ImageId);
            },
            Index::ArtistsById => {
                c.push(Column::ArtistId);
            },
            Index::ArtistsByTag => {
                c.push(Column::TagId);
            },
            Index::ImagesByIdAndRating => {
                c.push(Column::ImageId);
                c.push(Column::Rating);
            },
            Index::ImageTagsByTag => {
                c.push(Column::TagId);
            },
        }
        assert(c@ =~= self.spec_columns());
        c
    }
}

/// The indices over the entity tables, in the order they are built.
pub open spec fn entity_indices() -> Seq<Index> {
    seq![
        Index::TagsById,
        Index::TagsByNameAndId,
        Index::ImagesById,
        Index::ArtistsById,
        Index::ArtistsByTag,
        Index::ImagesByIdAndRating,
    ]
}

/// Every index of a finished store: those over the entity tables, then the
/// one over the associations.
pub open spec fn all_indices() -> Seq<Index> {
    entity_indices().push(Index::ImageTagsByTag)
}

/// How many associations name `tag_id`. Associations are unique, so this is
/// the number of distinct images that carry the tag.
pub open spec fn usage(image_tags: Seq<ImageTag>, tag_id: u32) -> nat {
    image_tags.filter(|a: ImageTag| a.tag_id == tag_id).len()
}

/// The mathematical content of a [`Store`]: its stage and its tables, each a
/// sequence of rows in insertion order.
#[verifier::ext_equal]
pub struct StoreView {
    pub stage: Stage,
    pub images: Seq<ImageRow>,
    /// The staging table of tag texts seen on images.
    pub pending: Seq<PendingRef>,
    /// The resolved associations between images and tags.
    pub image_tags: Seq<ImageTag>,
    pub tags: Seq<TagRow>,
    pub notes: Seq<NoteRow>,
    pub pools: Seq<PoolRow>,
    pub pool_images: Seq<PoolImage>,
    pub artists: Seq<ArtistRow>,
    pub artist_other_names: Seq<ArtistOtherName>,
    pub indices: Seq<Index>,
}

impl StoreView {
    /// The store before anything has been created.
    pub open spec fn fresh() -> StoreView {
        StoreView {
            stage: Stage::Fresh,
            images: Seq::empty(),
            pending: Seq::empty(),
            image_tags: Seq::empty(),
            tags: Seq::empty(),
            notes: Seq::empty(),
            pools: Seq::empty(),
            pool_images: Seq::empty(),
            artists: Seq::empty(),
            artist_other_names: Seq::empty(),
            indices: Seq::empty(),
        }
    }

    /// No table holds two rows with the same primary key.
    pub open spec fn keys_unique(self) -> bool {
        &&& image_ids(self.images).no_duplicates()
        &&& pending_keys(self.pending).no_duplicates()
        &&& self.image_tags.no_duplicates()
        &&& tag_ids(self.tags).no_duplicates()
        &&& note_ids(self.notes).no_duplicates()
        &&& pool_ids(self.pools).no_duplicates()
        &&& self.pool_images.no_duplicates()
        &&& artist_ids(self.artists).no_duplicates()
        &&& other_name_keys(self.artist_other_names).no_duplicates()
    }

    /// Every row of a table that an entity owns names a row of that entity,
    /// and every association names an image and a tag.
    pub open spec fn owners_exist(self) -> bool {
        &&& forall|i: int|
            0 <= i < self.pending.len() ==> image_ids(self.images).contains(
                (#[trigger] self.pending[i]).image_id,
            )
        &&& forall|i: int|
            0 <= i < self.pool_images.len() ==> pool_ids(self.pools).contains(
                (#[trigger] self.pool_images[i]).pool_id,
            )
        &&& forall|i: int|
            0 <= i < self.artist_other_names.len() ==> artist_ids(self.artists).contains(
                (#[trigger] self.artist_other_names[i]).artist_id,
            )
        &&& forall|i: int|
            0 <= i < self.image_tags.len() ==> image_ids(self.images).contains(
                (#[trigger] self.image_tags[i]).image_id,
            ) && tag_ids(self.tags).contains(self.image_tags[i].tag_id)
    }

    /// No derived field has been written yet.
    pub open spec fn counts_are_zero(self) -> bool {
        &&& forall|i: int| 0 <= i < self.tags.len() ==> (#[trigger] self.tags[i]).count == 0
        &&& forall|i: int|
            0 <= i < self.artists.len() ==> (#[trigger] self.artists[i]).count == 0
                && self.artists[i].tag_id is None
    }

    /// Every derived field holds what the associations and the tag table
    /// give: a tag's count is the number of images that carry it, an artist's
    /// tag is the artist-category tag of the same name, and an artist's count
    /// is that of its tag, or zero without one.
    pub open spec fn counts_are_derived(self) -> bool {
        &&& forall|i: int|
            0 <= i < self.tags.len() ==> (#[trigger] self.tags[i]).count == usage(
                self.image_tags,
                self.tags[i].tag_id,
            )
        &&& forall|i: int|
            0 <= i < self.artists.len() ==> {
                let a = #[trigger] self.artists[i];
                &&& a.tag_id == lookup_tag(self.tags, a.name@, Category::Artist.spec_code())
                &&& a.count == match a.tag_id {
                    Some(t) => usage(self.image_tags, t),
                    None => 0,
                }
            }
    }

    /// What the stage promises of the tables.
    pub open spec fn stage_holds(self) -> bool {
        match self.stage {
            Stage::Fresh => self =~= StoreView::fresh(),
            Stage::Importing => {
                &&& self.indices =~= Seq::empty()
                &&& self.image_tags =~= Seq::empty()
                &&& self.counts_are_zero()
            },
            Stage::Indexed => {
                &&& self.indices =~= entity_indices()
                &&& self.image_tags =~= Seq::empty()
                &&& self.counts_are_zero()
            },
            Stage::Resolved => {
                &&& self.indices =~= all_indices()
                &&& self.image_tags =~= resolve(self.pending, self.tags)
                &&& self.counts_are_zero()
            },
            Stage::Aggregated => {
                &&& self.indices =~= all_indices()
                &&& self.image_tags =~= resolve(self.pending, self.tags)
                &&& self.counts_are_derived()
            },
            Stage::Finished => {
                &&& self.indices =~= all_indices()
                &&& self.counts_are_derived()
                &&& self.pending =~= Seq::empty()
            },
        }
    }

    /// The invariant of the store.
    pub open spec fn wf(self) -> bool {
        &&& self.keys_unique()
        &&& self.owners_exist()
        &&& self.stage_holds()
    }
}

/// The images that the associations give to `tag_id`.
pub open spec fn images_carrying(image_tags: Seq<ImageTag>, tag_id: u32) -> Set<u32> {
    Set::new(|image_id: u32| image_tags.contains(ImageTag { image_id, tag_id }))
}

/// In a table of associations without repeats, the number of associations
/// that name a tag is the number of distinct images that carry it.
pub proof fn lemma_usage_is_distinct_images(image_tags: Seq<ImageTag>, tag_id: u32)
    requires
        image_tags.no_duplicates(),
    ensures
        images_carrying(image_tags, tag_id).finite(),
        usage(image_tags, tag_id) == images_carrying(image_tags, tag_id).len(),
    decreases image_tags.len(),
{
    let names = |a: ImageTag| a.tag_id == tag_id;
    if image_tags.len() == 0 {
        reveal(Seq::filter);
        assert(images_carrying(image_tags, tag_id) =~= Set::<u32>::empty());
    } else {
        let init = image_tags.drop_last();
        let last = image_tags.last();
        assert(image_tags =~= init.push(last));
        lemma_no_duplicates_push(init, last);
        lemma_usage_is_distinct_images(init, tag_id);
        init.lemma_filter_push(last, names);
        let before = images_carrying(init, tag_id);
        let after = images_carrying(image_tags, tag_id);
        assert forall|image_id: u32| #[trigger]
            after.contains(image_id) <==> before.contains(image_id) || (last.tag_id == tag_id
                && image_id == last.image_id) by {
            let a = ImageTag { image_id, tag_id };
            lemma_contains_in_concat(init, seq![last], a);
            assert(init.push(last) =~= init + seq![last]);
            assert(seq![last].contains(a) <==> a == last) by {
                if a == last {
                    assert(seq![last][0] == a);
                }
            }
        }
        if last.tag_id == tag_id {
            assert(!before.contains(last.image_id));
            assert(after =~= before.insert(last.image_id));
        } else {
            assert(after =~= before);
        }
    }
}

/// Until aggregation every tag and every artist has a count of zero, and no
/// artist has a tag.
pub proof fn lemma_counts_zero_until_aggregation(store: StoreView)
    requires
        store.wf(),
        store.stage != Stage::Aggregated,
        store.stage != Stage::Finished,
    ensures
        forall|i: int| 0 <= i < store.tags.len() ==> (#[trigger] store.tags[i]).count == 0,
        forall|i: int|
            0 <= i < store.artists.len() ==> (#[trigger] store.artists[i]).count == 0
                && store.artists[i].tag_id is None,
{
}

/// After aggregation the count of every tag is the number of distinct images
/// that the associations give it; for a tag that no association names, that
/// is zero.
pub proof fn lemma_counts_after_aggregation(store: StoreView, i: int)
    requires
        store.wf(),
        store.stage == Stage::Aggregated || store.stage == Stage::Finished,
        0 <= i < store.tags.len(),
    ensures
        store.tags[i].count == images_carrying(store.image_tags, store.tags[i].tag_id).len(),
        (forall|k: int|
            0 <= k < store.image_tags.len() ==> (#[trigger] store.image_tags[k]).tag_id
                != store.tags[i].tag_id) ==> store.tags[i].count == 0,
{
    let tag_id = store.tags[i].tag_id;
    lemma_usage_is_distinct_images(store.image_tags, tag_id);
    if forall|k: int|
        0 <= k < store.image_tags.len() ==> (#[trigger] store.image_tags[k]).tag_id != tag_id {
        assert(images_carrying(store.image_tags, tag_id) =~= Set::<u32>::empty()) by {
            assert forall|image_id: u32|
                !images_carrying(store.image_tags, tag_id).contains(image_id) by {
                let a = ImageTag { image_id, tag_id };
                if store.image_tags.contains(a) {
                    let k = choose|k: int| 0 <= k < store.image_tags.len() && store.image_tags[k] == a;
                    assert(store.image_tags[k].tag_id == tag_id);
                }
            }
        }
    }
}

/// After aggregation the tag of every artist is the artist-category tag of
/// the same name, if there is one, and the artist's count is the number of
/// distinct images that carry that tag, or zero without one.
pub proof fn lemma_artists_after_aggregation(store: StoreView, i: int)
    requires
        store.wf(),
        store.stage == Stage::Aggregated || store.stage == Stage::Finished,
        0 <= i < store.artists.len(),
    ensures
        store.artists[i].tag_id == lookup_tag(
            store.tags,
            store.artists[i].name@,
            Category::Artist.spec_code(),
        ),
        store.artists[i].tag_id matches Some(t) ==> store.artists[i].count == images_carrying(
            store.image_tags,
            t,
        ).len(),
        store.artists[i].tag_id is None ==> store.artists[i].count == 0,
{
    if store.artists[i].tag_id is Some {
        lemma_usage_is_distinct_images(store.image_tags, store.artists[i].tag_id->0);
    }
}

/// The tables and the stage as the store holds them.
pub(crate) struct Tables {
    pub(crate) stage: Stage,
    pub(crate) images: Vec<ImageRow>,
    pub(crate) pending: Vec<PendingRef>,
    pub(crate) image_tags: Vec<ImageTag>,
    pub(crate) tags: Vec<TagRow>,
    pub(crate) notes: Vec<NoteRow>,
    pub(crate) pools: Vec<PoolRow>,
    pub(crate) pool_images: Vec<PoolImage>,
    pub(crate) artists: Vec<ArtistRow>,
    pub(crate) artist_other_names: Vec<ArtistOtherName>,
    pub(crate) indices: Vec<Index>,
}

impl View for Tables {
    type V = StoreView;

    open(crate) spec fn view(&self) -> StoreView {
        StoreView {
            stage: self.stage,
            images: self.images@,
            pending: self.pending@,
            image_tags: self.image_tags@,
            tags: self.tags@,
            notes: self.notes@,
            pools: self.pools@,
            pool_images: self.pool_images@,
            artists: self.artists@,
            artist_other_names: self.artist_other_names@,
            indices: self.indices@,
        }
    }
}

impl Tables {
    pub(crate) fn fresh() -> (t: Tables)
        ensures
            t@ == StoreView::fresh(),
    {
        Tables {
            stage: Stage::Fresh,
            images: Vec::new(),
            pending: Vec::new(),
            image_tags: Vec::new(),
            tags: Vec::new(),
            notes: Vec::new(),
            pools: Vec::new(),
            pool_images: Vec::new(),
            artists: Vec::new(),
            artist_other_names: Vec::new(),
            indices: Vec::new(),
        }
    }
}

/// The store: every table of the run, and the stage the run is in.
///
/// A store is made by [`Store::new`] and changed only by the operations of
/// this crate. Its content always satisfies [`StoreView::wf`].
pub struct Store {
    pub(crate) inner: Tables,
}

impl View for Store {
    type V = StoreView;

    open(crate) spec fn view(&self) -> StoreView {
        self.inner@
    }
}

impl Store {
    #[verifier::type_invariant]
    pub(crate) open spec fn inv(self) -> bool {
        self@.wf()
    }

    /// A store in which nothing exists yet.
    pub fn new() -> (s: Store)
        ensures
            s@ == StoreView::fresh(),
            s@.wf(),
    {
        Store { inner: Tables::fresh() }
    }

    /// Takes the tables out of the store, which is left fresh, to be
    /// changed and put back.
    pub(crate) fn take(&mut self) -> (t: Tables)
        ensures
            t@ == old(self)@,
            t == old(self).inner,
    {
        let mut t = Tables::fresh();
        core::mem::swap(&mut self.inner, &mut t);
        t
    }

    /// Puts changed tables into the store.
    pub(crate) fn put(&mut self, t: Tables)
        requires
            t@.wf(),
        ensures
            final(self)@ == t@,
            final(self).inner == t,
    {
        self.inner = t;
    }

    /// The stage the run is in. The content of a store is well formed at
    /// every stage.
    pub fn stage(&self) -> (st: Stage)
        ensures
            st == self@.stage,
            self@.wf(),
    {
        proof {
            use_type_invariant(self);
        }
        self.inner.stage
    }

    /// The image table.
    pub fn images(&self) -> (rows: &Vec<ImageRow>)
        ensures
            rows@ == self@.images,
    {
        &self.inner.images
    }

    /// The staging table of pending tag references.
    pub fn pending(&self) -> (rows: &Vec<PendingRef>)
        ensures
            rows@ == self@.pending,
    {
        &self.inner.pending
    }

    /// The table of resolved associations.
    pub fn image_tags(&self) -> (rows: &Vec<ImageTag>)
        ensures
            rows@ == self@.image_tags,
    {
        &self.inner.image_tags
    }

    /// The tag table.
    pub fn tags(&self) -> (rows: &Vec<TagRow>)
        ensures
            rows@ == self@.tags,
    {
        &self.inner.tags
    }

    /// The note table.
    pub fn notes(&self) -> (rows: &Vec<NoteRow>)
        ensures
            rows@ == self@.notes,
    {
        &self.inner.notes
    }

    /// The pool table.
    pub fn pools(&self) -> (rows: &Vec<PoolRow>)
        ensures
            rows@ == self@.pools,
    {
        &self.inner.pools
    }

    /// The membership table of the pools.
    pub fn pool_images(&self) -> (rows: &Vec<PoolImage>)
        ensures
            rows@ == self@.pool_images,
    {
        &self.inner.pool_images
    }

    /// The artist table.
    pub fn artists(&self) -> (rows: &Vec<ArtistRow>)
        ensures
            rows@ == self@.artists,
    {
        &self.inner.artists
    }

    /// The alternate-name table of the artists.
    pub fn artist_other_names(&self) -> (rows: &Vec<ArtistOtherName>)
        ensures
            rows@ == self@.artist_other_names,
    {
        &self.inner.artist_other_names
    }

    /// The indices that exist, in the order they were built.
    pub fn indices(&self) -> (rows: &Vec<Index>)
        ensures
            rows@ == self@.indices,
    {
        &self.inner.indices
    }
}

} // verus!
