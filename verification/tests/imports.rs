use metadata2sqlite::artist::{import_artist, Artist, ArtistOtherName, ArtistRow};
use metadata2sqlite::image::{
    create_image_tables, import_image, Category, ImageRow, PendingRef, Post,
};
use metadata2sqlite::note::{import_note, Note, NoteRow};
use metadata2sqlite::pool::{dedup, import_pool, Pool, PoolImage, PoolRow};
use metadata2sqlite::store::{PipelineError, Stage, Store};
use metadata2sqlite::tag::{find_tag, import_tag, Tag, TagRow};

fn open_store() -> Store {
    let mut store = Store::new();
    assert_eq!(create_image_tables(&mut store), Ok(()));
    store
}

fn strings(words: &[&str]) -> Vec<String> {
    words.iter().map(|w| w.to_string()).collect()
}

fn image(id: Option<u32>) -> Post {
    Post {
        id,
        rating: String::from("s"),
        source: String::from("http://example.org/1"),
        pixiv_id: Some(77),
        image_width: 640,
        image_height: 480,
        created_at: String::from("2020-01-01 00:00:00 UTC"),
        updated_at: String::from("2020-01-02 00:00:00 UTC"),
        uploader_id: 12,
        is_banned: false,
        is_deleted: true,
        is_flagged: false,
        file_ext: String::from("png"),
        file_size: 1000,
        md5: Some(String::from("d41d8cd98f00b204e9800998ecf8427e")),
        has_children: true,
        has_visible_children: false,
        has_active_children: true,
        parent_id: Some(3),
        tag_string_character: vec![],
        tag_string_copyright: vec![],
        tag_string_meta: vec![],
        tag_string_general: vec![],
        tag_string_artist: vec![],
    }
}

fn tag(id: u32, name: &str, category: u32, post_count: u32) -> Tag {
    Tag { id, name: name.to_string(), category, post_count }
}

fn note(id: u32, is_active: bool) -> Note {
    Note {
        id,
        image_id: Some(5),
        body: String::from("hello"),
        x: Some(1),
        y: Some(2),
        w: Some(3),
        h: None,
        is_active,
    }
}

fn pool(id: u32, post_ids: Vec<u32>, is_active: bool, is_deleted: bool) -> Pool {
    Pool {
        id,
        name: format!("pool{}", id),
        description: String::from("d"),
        post_ids,
        is_active,
        is_deleted,
    }
}

fn artist(id: u32, name: &str, other_names: &[&str]) -> Artist {
    Artist {
        id,
        name: name.to_string(),
        other_names: strings(other_names),
        is_banned: Some(false),
        is_deleted: false,
    }
}

fn pending(text: &str, category: Category, image_id: u32) -> PendingRef {
    PendingRef { text: text.to_string(), category, image_id }
}

#[test]
fn new_store_is_fresh_and_empty() {
    let store = Store::new();
    assert_eq!(store.stage(), Stage::Fresh);
    assert!(store.images().is_empty());
    assert!(store.pending().is_empty());
    assert!(store.image_tags().is_empty());
    assert!(store.tags().is_empty());
    assert!(store.notes().is_empty());
    assert!(store.pools().is_empty());
    assert!(store.pool_images().is_empty());
    assert!(store.artists().is_empty());
    assert!(store.artist_other_names().is_empty());
    assert!(store.indices().is_empty());
}

#[test]
fn create_image_tables_opens_the_store_once() {
    let mut store = Store::new();
    assert_eq!(create_image_tables(&mut store), Ok(()));
    assert_eq!(store.stage(), Stage::Importing);
    assert_eq!(create_image_tables(&mut store), Err(PipelineError::OutOfOrder));
    assert_eq!(store.stage(), Stage::Importing);
}

#[test]
fn imports_need_the_tables() {
    let mut store = Store::new();
    assert_eq!(import_tag(&vec![tag(1, "a", 0, 1)], &mut store), Err(PipelineError::OutOfOrder));
    assert_eq!(import_note(&vec![note(1, true)], &mut store), Err(PipelineError::OutOfOrder));
    assert_eq!(
        import_pool(&vec![pool(1, vec![1], true, false)], &mut store),
        Err(PipelineError::OutOfOrder)
    );
    assert_eq!(import_artist(&vec![artist(1, "a", &[])], &mut store), Err(PipelineError::OutOfOrder));
    assert_eq!(import_image(&vec![image(Some(1))], &mut store), Err(PipelineError::OutOfOrder));
    assert_eq!(store.stage(), Stage::Fresh);
    assert!(store.tags().is_empty());
    assert!(store.notes().is_empty());
    assert!(store.pools().is_empty());
    assert!(store.artists().is_empty());
    assert!(store.images().is_empty());
}

#[test]
fn category_codes_are_fixed() {
    assert_eq!(Category::General.code(), 0);
    assert_eq!(Category::Artist.code(), 1);
    assert_eq!(Category::Copyright.code(), 3);
    assert_eq!(Category::Character.code(), 4);
    assert_eq!(Category::Meta.code(), 5);
}

#[test]
fn tag_is_stored_iff_post_count_is_nonzero() {
    let mut store = open_store();
    let records = vec![tag(1, "a", 0, 5), tag(2, "b", 1, 0), tag(3, "c", 4, 1)];
    assert_eq!(import_tag(&records, &mut store), Ok(()));
    assert_eq!(
        store.tags(),
        &vec![
            TagRow { tag_id: 1, name: String::from("a"), category: 0, count: 0 },
            TagRow { tag_id: 3, name: String::from("c"), category: 4, count: 0 },
        ]
    );
}

#[test]
fn skipped_tag_may_share_an_id() {
    let mut store = open_store();
    let records = vec![tag(1, "a", 0, 5), tag(1, "b", 1, 0)];
    assert_eq!(import_tag(&records, &mut store), Ok(()));
    assert_eq!(store.tags().len(), 1);
    assert_eq!(store.tags()[0].name, "a");
}

#[test]
fn tag_batch_with_repeated_id_stores_nothing() {
    let mut store = open_store();
    let records = vec![tag(1, "a", 0, 5), tag(2, "b", 0, 5), tag(1, "c", 0, 5)];
    assert_eq!(import_tag(&records, &mut store), Err(PipelineError::DuplicateKey));
    assert!(store.tags().is_empty());
}

#[test]
fn tag_batches_add_up_and_a_failed_batch_leaves_the_earlier_ones() {
    let mut store = open_store();
    assert_eq!(import_tag(&vec![tag(1, "a", 0, 5)], &mut store), Ok(()));
    assert_eq!(import_tag(&vec![tag(2, "b", 0, 5)], &mut store), Ok(()));
    assert_eq!(
        import_tag(&vec![tag(3, "c", 0, 5), tag(2, "d", 0, 5)], &mut store),
        Err(PipelineError::DuplicateKey)
    );
    assert_eq!(store.tags().len(), 2);
    assert_eq!(store.tags()[0].tag_id, 1);
    assert_eq!(store.tags()[1].tag_id, 2);
    assert_eq!(import_tag(&vec![], &mut store), Ok(()));
    assert_eq!(store.tags().len(), 2);
}

#[test]
fn tags_may_share_name_and_category() {
    let mut store = open_store();
    let records = vec![tag(1, "a", 0, 5), tag(2, "a", 0, 5)];
    assert_eq!(import_tag(&records, &mut store), Ok(()));
    assert_eq!(store.tags().len(), 2);
    assert_eq!(find_tag(store.tags(), &String::from("a"), 0), Some(1));
    assert_eq!(find_tag(store.tags(), &String::from("a"), 1), None);
    assert_eq!(find_tag(store.tags(), &String::from("b"), 0), None);
}

#[test]
fn note_is_stored_iff_active() {
    let mut store = open_store();
    let records = vec![note(1, true), note(2, false), note(3, true)];
    assert_eq!(import_note(&records, &mut store), Ok(()));
    assert_eq!(store.notes().len(), 2);
    assert_eq!(
        store.notes()[0],
        NoteRow {
            note_id: 1,
            image_id: Some(5),
            body: String::from("hello"),
            x: Some(1),
            y: Some(2),
            w: Some(3),
            h: None,
        }
    );
    assert_eq!(store.notes()[1].note_id, 3);
}

#[test]
fn note_batch_with_repeated_id_stores_nothing() {
    let mut store = open_store();
    assert_eq!(import_note(&vec![note(7, true)], &mut store), Ok(()));
    assert_eq!(
        import_note(&vec![note(8, true), note(7, true)], &mut store),
        Err(PipelineError::DuplicateKey)
    );
    assert_eq!(store.notes().len(), 1);
    assert_eq!(import_note(&vec![note(8, true), note(7, false)], &mut store), Ok(()));
    assert_eq!(store.notes().len(), 2);
}

#[test]
fn dedup_keeps_first_occurrences_in_order() {
    assert_eq!(dedup(&vec![5, 5, 7]), vec![5, 7]);
    assert_eq!(dedup(&vec![3, 1, 3, 2, 1]), vec![3, 1, 2]);
    assert_eq!(dedup(&vec![]), Vec::<u32>::new());
    assert_eq!(dedup(&vec![9]), vec![9]);
}

#[test]
fn pool_members_are_deduplicated_and_count_is_original_length() {
    let mut store = open_store();
    let records = vec![pool(1, vec![5, 5, 7], true, false), pool(2, vec![7, 8, 7, 7], true, false)];
    assert_eq!(import_pool(&records, &mut store), Ok(()));
    assert_eq!(
        store.pools(),
        &vec![
            PoolRow {
                pool_id: 1,
                name: String::from("pool1"),
                description: String::from("d"),
                image_count: 3,
            },
            PoolRow {
                pool_id: 2,
                name: String::from("pool2"),
                description: String::from("d"),
                image_count: 4,
            },
        ]
    );
    assert_eq!(
        store.pool_images(),
        &vec![
            PoolImage { pool_id: 1, image_id: 5 },
            PoolImage { pool_id: 1, image_id: 7 },
            PoolImage { pool_id: 2, image_id: 7 },
            PoolImage { pool_id: 2, image_id: 8 },
        ]
    );
}

#[test]
fn deleted_inactive_and_empty_pools_are_dropped() {
    let mut store = open_store();
    let records = vec![
        pool(1, vec![1], true, true),
        pool(2, vec![1], false, false),
        pool(3, vec![], true, false),
        pool(4, vec![1], false, true),
        pool(5, vec![1], true, false),
    ];
    assert_eq!(import_pool(&records, &mut store), Ok(()));
    assert_eq!(store.pools().len(), 1);
    assert_eq!(store.pools()[0].pool_id, 5);
    assert_eq!(store.pool_images(), &vec![PoolImage { pool_id: 5, image_id: 1 }]);
}

#[test]
fn pool_batch_with_repeated_id_stores_nothing() {
    let mut store = open_store();
    assert_eq!(import_pool(&vec![pool(1, vec![1, 2], true, false)], &mut store), Ok(()));
    let records = vec![pool(2, vec![3], true, false), pool(1, vec![4], true, false)];
    assert_eq!(import_pool(&records, &mut store), Err(PipelineError::DuplicateKey));
    assert_eq!(store.pools().len(), 1);
    assert_eq!(store.pool_images().len(), 2);
    let records = vec![pool(2, vec![3], true, false), pool(2, vec![4], true, false)];
    assert_eq!(import_pool(&records, &mut store), Err(PipelineError::DuplicateKey));
    assert_eq!(store.pools().len(), 1);
    assert_eq!(store.pool_images().len(), 2);
}

#[test]
fn artist_rows_start_without_count_and_tag() {
    let mut store = open_store();
    let records = vec![artist(9, "alice", &["al", "ali"]), artist(10, "bob", &[])];
    assert_eq!(import_artist(&records, &mut store), Ok(()));
    assert_eq!(
        store.artists(),
        &vec![
            ArtistRow {
                artist_id: 9,
                name: String::from("alice"),
                is_banned: Some(false),
                is_deleted: false,
                count: 0,
                tag_id: None,
            },
            ArtistRow {
                artist_id: 10,
                name: String::from("bob"),
                is_banned: Some(false),
                is_deleted: false,
                count: 0,
                tag_id: None,
            },
        ]
    );
    assert_eq!(
        store.artist_other_names(),
        &vec![
            ArtistOtherName { artist_id: 9, name: String::from("al") },
            ArtistOtherName { artist_id: 9, name: String::from("ali") },
        ]
    );
}

#[test]
fn artists_may_share_an_other_name() {
    let mut store = open_store();
    let records = vec![artist(9, "alice", &["al"]), artist(10, "alan", &["al"])];
    assert_eq!(import_artist(&records, &mut store), Ok(()));
    assert_eq!(store.artist_other_names().len(), 2);
}

#[test]
fn artist_batch_with_repeated_other_name_stores_nothing() {
    let mut store = open_store();
    let records = vec![artist(9, "alice", &["al"]), artist(10, "bob", &["b", "bo", "b"])];
    assert_eq!(import_artist(&records, &mut store), Err(PipelineError::DuplicateKey));
    assert!(store.artists().is_empty());
    assert!(store.artist_other_names().is_empty());
}

#[test]
fn artist_batch_with_repeated_id_stores_nothing() {
    let mut store = open_store();
    assert_eq!(import_artist(&vec![artist(9, "alice", &["al"])], &mut store), Ok(()));
    let records = vec![artist(10, "bob", &["b"]), artist(9, "carol", &[])];
    assert_eq!(import_artist(&records, &mut store), Err(PipelineError::DuplicateKey));
    assert_eq!(store.artists().len(), 1);
    assert_eq!(store.artist_other_names().len(), 1);
}

#[test]
fn image_without_id_is_skipped() {
    let mut store = open_store();
    let mut placeholder = image(None);
    placeholder.tag_string_general = strings(&["x"]);
    assert_eq!(import_image(&vec![placeholder, image(Some(2))], &mut store), Ok(()));
    assert_eq!(store.images().len(), 1);
    assert_eq!(store.images()[0].image_id, 2);
    assert!(store.pending().is_empty());
}

#[test]
fn image_row_carries_every_field() {
    let mut store = open_store();
    assert_eq!(import_image(&vec![image(Some(2))], &mut store), Ok(()));
    assert_eq!(
        store.images()[0],
        ImageRow {
            image_id: 2,
            rating: String::from("s"),
            source: String::from("http://example.org/1"),
            pixiv_id: Some(77),
            w: 640,
            h: 480,
            created_at: String::from("2020-01-01 00:00:00 UTC"),
            updated_at: String::from("2020-01-02 00:00:00 UTC"),
            uploader_id: 12,
            is_banned: false,
            is_deleted: true,
            is_flagged: false,
            file_ext: String::from("png"),
            file_size: 1000,
            md5: Some(String::from("d41d8cd98f00b204e9800998ecf8427e")),
            has_children: true,
            has_visible_children: false,
            has_active_children: true,
            parent_id: Some(3),
        }
    );
}

#[test]
fn image_stages_one_reference_per_tag_text_by_category() {
    let mut store = open_store();
    let mut p = image(Some(2));
    p.tag_string_character = strings(&["reimu"]);
    p.tag_string_copyright = strings(&["touhou"]);
    p.tag_string_meta = strings(&["highres", "absurdres"]);
    p.tag_string_general = strings(&["1girl", "solo"]);
    p.tag_string_artist = strings(&["alice"]);
    assert_eq!(import_image(&vec![p], &mut store), Ok(()));
    assert_eq!(
        store.pending(),
        &vec![
            pending("reimu", Category::Character, 2),
            pending("touhou", Category::Copyright, 2),
            pending("highres", Category::Meta, 2),
            pending("absurdres", Category::Meta, 2),
            pending("1girl", Category::General, 2),
            pending("solo", Category::General, 2),
            pending("alice", Category::Artist, 2),
        ]
    );
}

#[test]
fn same_text_in_two_categories_is_two_references() {
    let mut store = open_store();
    let mut p = image(Some(2));
    p.tag_string_character = strings(&["alice"]);
    p.tag_string_artist = strings(&["alice"]);
    let mut q = image(Some(3));
    q.tag_string_artist = strings(&["alice"]);
    assert_eq!(import_image(&vec![p, q], &mut store), Ok(()));
    assert_eq!(store.pending().len(), 3);
}

#[test]
fn image_with_repeated_text_in_one_category_stores_nothing() {
    let mut store = open_store();
    let mut p = image(Some(2));
    p.tag_string_general = strings(&["solo", "1girl", "solo"]);
    assert_eq!(
        import_image(&vec![image(Some(1)), p], &mut store),
        Err(PipelineError::DuplicateKey)
    );
    assert!(store.images().is_empty());
    assert!(store.pending().is_empty());
}

#[test]
fn image_batch_with_repeated_id_stores_nothing() {
    let mut store = open_store();
    let mut p = image(Some(1));
    p.tag_string_general = strings(&["solo"]);
    assert_eq!(import_image(&vec![p], &mut store), Ok(()));
    let mut q = image(Some(2));
    q.tag_string_general = strings(&["solo"]);
    assert_eq!(import_image(&vec![q, image(Some(1))], &mut store), Err(PipelineError::DuplicateKey));
    assert_eq!(store.images().len(), 1);
    assert_eq!(store.pending().len(), 1);
    assert_eq!(
        import_image(&vec![image(Some(5)), image(Some(5))], &mut store),
        Err(PipelineError::DuplicateKey)
    );
    assert_eq!(store.images().len(), 1);
}
