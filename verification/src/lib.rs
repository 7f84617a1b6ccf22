//! A staged, in-memory import pipeline for imageboard metadata.
//!
//! Records of five kinds (images, tags, artists, notes, pools) are filtered and
//! written into a relational [`store::Store`], one batch at a time and each
//! batch all-or-nothing. Tag texts seen on images are staged as pending
//! references, resolved against the tag table once every batch is in, and
//! usage counters are then derived from the resolved associations.
//!
//! A run passes through the stages of [`store::Stage`] in order:
//! [`image::create_image_tables`], then any number of imports
//! ([`image::import_image`], [`tag::import_tag`], [`note::import_note`],
//! [`pool::import_pool`], [`artist::import_artist`]), then
//! [`pipeline::create_indices`], [`pipeline::make_image_tags`],
//! [`pipeline::update_counts`] and [`pipeline::drop_staging`]. An operation
//! that does not belong to the stage of the store is refused and changes
//! nothing. [`pipeline::run`] does all of this for batches held in memory.

pub mod artist;
pub mod image;
pub mod note;
pub mod pipeline;
pub mod pool;
pub mod relation;
pub mod store;
pub mod tag;
pub mod words;
