use metadata2sqlite::artist::{import_artist, Artist};
use metadata2sqlite::image::{create_image_tables, import_image, ImageTag, Post};
use metadata2sqlite::pipeline::{
    count_usage, create_indices, drop_staging, make_image_tags, run, update_counts, Batches,
};
use metadata2sqlite::pool::{import_pool, Pool, PoolImage};
use metadata2sqlite::store::{Index, PipelineError, Stage, Store};
use metadata2sqlite::tag::{import_tag, Tag};

fn open_store() -> Store {
    let mut store = Store::new();
    assert_eq!(create_image_tables(&mut store), Ok(()));
    store
}

fn strings(words: &[&str]) -> Vec<String> {
    words.iter().map(|w| w.to_string()).collect()
}

fn post(id: u32, general: &[&str], artist: &[&str]) -> Post {
    Post {
        id: Some(id),
        rating: String::from("s"),
        source: String::new(),
        pixiv_id: None,
        image_width: 640,
        image_height: 480,
        created_at: String::from("2020-01-01"),
        updated_at: String::from("2020-01-02"),
        uploader_id: 1,
        is_banned: false,
        is_deleted: false,
        is_flagged: false,
        file_ext: String::from("png"),
        file_size: 1000,
        md5: None,
        has_children: false,
        has_visible_children: false,
        has_active_children: false,
        parent_id: None,
        tag_string_character: vec![],
        tag_string_copyright: vec![],
        tag_string_meta: vec![],
        tag_string_general: strings(general),
        tag_string_artist: strings(artist),
    }
}

fn tag(id: u32, name: &str, category: u32) -> Tag {
    Tag { id, name: name.to_string(), category, post_count: 1 }
}

fn artist(id: u32, name: &str) -> Artist {
    Artist { id, name: name.to_string(), other_names: vec![], is_banned: None, is_deleted: false }
}

#[test]
fn pool_with_repeated_member_end_to_end() {
    let mut store = open_store();
    let pools = vec![Pool {
        id: 1,
        name: String::from("x"),
        description: String::new(),
        post_ids: vec![5, 5, 7],
        is_active: true,
        is_deleted: false,
    }];
    assert_eq!(import_pool(&pools, &mut store), Ok(()));
    assert_eq!(create_indices(&mut store), Ok(()));
    assert_eq!(make_image_tags(&mut store), Ok(()));
    assert_eq!(update_counts(&mut store), Ok(()));
    assert_eq!(drop_staging(&mut store), Ok(()));
    assert_eq!(store.pools().len(), 1);
    assert_eq!(store.pools()[0].pool_id, 1);
    assert_eq!(store.pools()[0].name, "x");
    assert_eq!(store.pools()[0].description, "");
    assert_eq!(store.pools()[0].image_count, 3);
    assert_eq!(
        store.pool_images(),
        &vec![PoolImage { pool_id: 1, image_id: 5 }, PoolImage { pool_id: 1, image_id: 7 }]
    );
}

#[test]
fn artist_tag_end_to_end() {
    let mut store = open_store();
    assert_eq!(import_image(&vec![post(100, &[], &["alice"])], &mut store), Ok(()));
    let tags = vec![Tag { id: 42, name: String::from("alice"), category: 1, post_count: 3 }];
    assert_eq!(import_tag(&tags, &mut store), Ok(()));
    assert_eq!(import_artist(&vec![artist(9, "alice")], &mut store), Ok(()));
    assert_eq!(store.tags()[0].count, 0);
    assert_eq!(create_indices(&mut store), Ok(()));
    assert_eq!(make_image_tags(&mut store), Ok(()));
    assert_eq!(store.image_tags(), &vec![ImageTag { image_id: 100, tag_id: 42 }]);
    assert_eq!(store.tags()[0].count, 0);
    assert_eq!(update_counts(&mut store), Ok(()));
    assert_eq!(store.tags()[0].tag_id, 42);
    assert_eq!(store.tags()[0].count, 1);
    assert_eq!(store.artists()[0].artist_id, 9);
    assert_eq!(store.artists()[0].tag_id, Some(42));
    assert_eq!(store.artists()[0].count, 1);
    assert_eq!(drop_staging(&mut store), Ok(()));
    assert_eq!(store.stage(), Stage::Finished);
    assert!(store.pending().is_empty());
    assert_eq!(store.image_tags(), &vec![ImageTag { image_id: 100, tag_id: 42 }]);
}

#[test]
fn tags_may_be_imported_before_images() {
    let mut store = open_store();
    assert_eq!(import_tag(&vec![tag(42, "alice", 1)], &mut store), Ok(()));
    assert_eq!(import_image(&vec![post(100, &[], &["alice"])], &mut store), Ok(()));
    assert_eq!(import_tag(&vec![tag(43, "solo", 0)], &mut store), Ok(()));
    assert_eq!(import_image(&vec![post(101, &["solo"], &["alice"])], &mut store), Ok(()));
    assert_eq!(create_indices(&mut store), Ok(()));
    assert_eq!(make_image_tags(&mut store), Ok(()));
    assert_eq!(
        store.image_tags(),
        &vec![
            ImageTag { image_id: 100, tag_id: 42 },
            ImageTag { image_id: 101, tag_id: 43 },
            ImageTag { image_id: 101, tag_id: 42 },
        ]
    );
}

#[test]
fn unmatched_references_are_dropped_without_error() {
    let mut store = open_store();
    let posts = vec![post(1, &["solo", "retired_tag"], &["nobody"]), post(2, &["retired_tag"], &[])];
    assert_eq!(import_image(&posts, &mut store), Ok(()));
    // "solo" exists as a general tag; "nobody" only as a general tag, not as an artist.
    assert_eq!(import_tag(&vec![tag(7, "solo", 0), tag(8, "nobody", 0)], &mut store), Ok(()));
    assert_eq!(create_indices(&mut store), Ok(()));
    assert_eq!(make_image_tags(&mut store), Ok(()));
    assert_eq!(store.image_tags(), &vec![ImageTag { image_id: 1, tag_id: 7 }]);
    assert_eq!(update_counts(&mut store), Ok(()));
    assert_eq!(store.tags()[0].count, 1);
    assert_eq!(store.tags()[1].count, 0);
}

#[test]
fn resolution_without_any_tag_gives_no_association() {
    let mut store = open_store();
    assert_eq!(import_image(&vec![post(1, &["solo"], &["alice"])], &mut store), Ok(()));
    assert_eq!(create_indices(&mut store), Ok(()));
    assert_eq!(make_image_tags(&mut store), Ok(()));
    assert!(store.image_tags().is_empty());
    assert_eq!(store.pending().len(), 2);
}

#[test]
fn reference_resolves_to_the_first_tag_of_that_name_and_category() {
    let mut store = open_store();
    assert_eq!(import_image(&vec![post(1, &["solo"], &[])], &mut store), Ok(()));
    let tags = vec![tag(5, "solo", 3), tag(9, "solo", 0), tag(4, "solo", 0)];
    assert_eq!(import_tag(&tags, &mut store), Ok(()));
    assert_eq!(create_indices(&mut store), Ok(()));
    assert_eq!(make_image_tags(&mut store), Ok(()));
    assert_eq!(store.image_tags(), &vec![ImageTag { image_id: 1, tag_id: 9 }]);
}

#[test]
fn counts_are_the_numbers_of_images_per_tag() {
    let mut store = open_store();
    let posts = vec![
        post(1, &["solo", "smile"], &["alice"]),
        post(2, &["solo"], &["alice"]),
        post(3, &["solo"], &["bob"]),
    ];
    assert_eq!(import_image(&posts, &mut store), Ok(()));
    let tags = vec![
        tag(10, "solo", 0),
        tag(11, "smile", 0),
        tag(12, "alice", 1),
        tag(13, "bob", 1),
        tag(14, "unused", 0),
        tag(15, "carol", 0),
    ];
    assert_eq!(import_tag(&tags, &mut store), Ok(()));
    let artists = vec![artist(1, "alice"), artist(2, "bob"), artist(3, "carol"), artist(4, "dave")];
    assert_eq!(import_artist(&artists, &mut store), Ok(()));
    assert_eq!(create_indices(&mut store), Ok(()));
    assert_eq!(make_image_tags(&mut store), Ok(()));
    assert_eq!(store.image_tags().len(), 7);
    assert_eq!(count_usage(store.image_tags(), 10), 3);
    assert_eq!(count_usage(store.image_tags(), 14), 0);
    for t in store.tags() {
        assert_eq!(t.count, 0);
    }
    assert_eq!(update_counts(&mut store), Ok(()));
    let counts: Vec<(u32, u64)> = store.tags().iter().map(|t| (t.tag_id, t.count)).collect();
    assert_eq!(counts, vec![(10, 3), (11, 1), (12, 2), (13, 1), (14, 0), (15, 0)]);
    let settled: Vec<(u32, Option<u32>, u64)> =
        store.artists().iter().map(|a| (a.artist_id, a.tag_id, a.count)).collect();
    // "carol" is a tag, but not of the artist category.
    assert_eq!(
        settled,
        vec![(1, Some(12), 2), (2, Some(13), 1), (3, None, 0), (4, None, 0)]
    );
    for t in store.tags() {
        let images: std::collections::HashSet<u32> = store
            .image_tags()
            .iter()
            .filter(|a| a.tag_id == t.tag_id)
            .map(|a| a.image_id)
            .collect();
        assert_eq!(t.count, images.len() as u64);
    }
}

#[test]
fn artist_with_a_tag_that_no_image_carries_has_count_zero() {
    let mut store = open_store();
    assert_eq!(import_tag(&vec![tag(12, "alice", 1)], &mut store), Ok(()));
    assert_eq!(import_artist(&vec![artist(1, "alice")], &mut store), Ok(()));
    assert_eq!(create_indices(&mut store), Ok(()));
    assert_eq!(make_image_tags(&mut store), Ok(()));
    assert_eq!(update_counts(&mut store), Ok(()));
    assert_eq!(store.artists()[0].tag_id, Some(12));
    assert_eq!(store.artists()[0].count, 0);
    assert_eq!(store.tags()[0].count, 0);
}

#[test]
fn indices_are_built_in_two_steps() {
    let mut store = open_store();
    assert!(store.indices().is_empty());
    assert_eq!(create_indices(&mut store), Ok(()));
    assert_eq!(
        store.indices(),
        &vec![
            Index::TagsById,
            Index::TagsByNameAndId,
            Index::ImagesById,
            Index::ArtistsById,
            Index::ArtistsByTag,
            Index::ImagesByIdAndRating,
        ]
    );
    assert_eq!(make_image_tags(&mut store), Ok(()));
    assert_eq!(store.indices().len(), 7);
    assert_eq!(store.indices()[6], Index::ImageTagsByTag);
}

#[test]
fn stages_are_refused_out_of_order() {
    let mut store = Store::new();
    assert_eq!(create_indices(&mut store), Err(PipelineError::OutOfOrder));
    assert_eq!(make_image_tags(&mut store), Err(PipelineError::OutOfOrder));
    assert_eq!(update_counts(&mut store), Err(PipelineError::OutOfOrder));
    assert_eq!(drop_staging(&mut store), Err(PipelineError::OutOfOrder));
    assert_eq!(store.stage(), Stage::Fresh);

    assert_eq!(create_image_tables(&mut store), Ok(()));
    assert_eq!(make_image_tags(&mut store), Err(PipelineError::OutOfOrder));
    assert_eq!(update_counts(&mut store), Err(PipelineError::OutOfOrder));
    assert_eq!(drop_staging(&mut store), Err(PipelineError::OutOfOrder));
    assert_eq!(store.stage(), Stage::Importing);

    assert_eq!(create_indices(&mut store), Ok(()));
    assert_eq!(store.stage(), Stage::Indexed);
    assert_eq!(create_indices(&mut store), Err(PipelineError::OutOfOrder));
    assert_eq!(import_tag(&vec![tag(1, "a", 0)], &mut store), Err(PipelineError::OutOfOrder));
    assert_eq!(update_counts(&mut store), Err(PipelineError::OutOfOrder));

    assert_eq!(make_image_tags(&mut store), Ok(()));
    assert_eq!(store.stage(), Stage::Resolved);
    assert_eq!(make_image_tags(&mut store), Err(PipelineError::OutOfOrder));
    assert_eq!(drop_staging(&mut store), Err(PipelineError::OutOfOrder));

    assert_eq!(update_counts(&mut store), Ok(()));
    assert_eq!(store.stage(), Stage::Aggregated);
    assert_eq!(update_counts(&mut store), Err(PipelineError::OutOfOrder));

    assert_eq!(drop_staging(&mut store), Ok(()));
    assert_eq!(store.stage(), Stage::Finished);
    assert_eq!(drop_staging(&mut store), Err(PipelineError::OutOfOrder));
    assert_eq!(create_image_tables(&mut store), Err(PipelineError::OutOfOrder));
    assert!(store.tags().is_empty());
}

#[test]
fn empty_run_completes() {
    let mut store = open_store();
    assert_eq!(create_indices(&mut store), Ok(()));
    assert_eq!(make_image_tags(&mut store), Ok(()));
    assert_eq!(update_counts(&mut store), Ok(()));
    assert_eq!(drop_staging(&mut store), Ok(()));
    assert!(store.images().is_empty());
    assert!(store.image_tags().is_empty());
}

fn no_batches() -> Batches {
    Batches { images: vec![], tags: vec![], notes: vec![], pools: vec![], artists: vec![] }
}

#[test]
fn run_over_nothing_finishes_empty() {
    let (store, outcome) = run(&no_batches());
    assert_eq!(outcome, Ok(()));
    assert_eq!(store.stage(), Stage::Finished);
    assert!(store.images().is_empty());
    assert_eq!(store.indices().len(), 7);
}

#[test]
fn run_resolves_and_counts() {
    let mut input = no_batches();
    input.images = vec![vec![post(100, &[], &["alice"])], vec![post(101, &["lost"], &["alice"])]];
    input.tags = vec![vec![Tag { id: 42, name: String::from("alice"), category: 1, post_count: 3 }]];
    input.artists = vec![vec![artist(9, "alice")]];
    input.pools = vec![vec![Pool {
        id: 1,
        name: String::from("x"),
        description: String::new(),
        post_ids: vec![5, 5, 7],
        is_active: true,
        is_deleted: false,
    }]];
    let (store, outcome) = run(&input);
    assert_eq!(outcome, Ok(()));
    assert_eq!(store.stage(), Stage::Finished);
    assert!(store.pending().is_empty());
    assert_eq!(
        store.image_tags(),
        &vec![ImageTag { image_id: 100, tag_id: 42 }, ImageTag { image_id: 101, tag_id: 42 }]
    );
    assert_eq!(store.tags()[0].count, 2);
    assert_eq!(store.artists()[0].tag_id, Some(42));
    assert_eq!(store.artists()[0].count, 2);
    assert_eq!(store.pools()[0].image_count, 3);
    assert_eq!(store.pool_images().len(), 2);
}

#[test]
fn run_stops_at_the_first_refused_batch() {
    let mut input = no_batches();
    input.images = vec![vec![post(1, &[], &[])]];
    input.tags = vec![vec![tag(1, "a", 0)], vec![tag(2, "b", 0), tag(1, "c", 0)], vec![tag(3, "d", 0)]];
    input.artists = vec![vec![artist(9, "alice")]];
    let (store, outcome) = run(&input);
    assert_eq!(outcome, Err(PipelineError::DuplicateKey));
    assert_eq!(store.stage(), Stage::Importing);
    assert_eq!(store.images().len(), 1);
    assert_eq!(store.tags().len(), 1);
    assert_eq!(store.tags()[0].tag_id, 1);
    assert!(store.artists().is_empty());
    assert!(store.indices().is_empty());
}
