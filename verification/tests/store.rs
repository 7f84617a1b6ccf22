use metadata2sqlite::artist::{has_artist_id, ArtistRow};
use metadata2sqlite::image::{has_image_id, import_image, create_image_tables, Post};
use metadata2sqlite::note::{has_note_id, NoteRow};
use metadata2sqlite::pool::{has_pool_id, PoolRow};
use metadata2sqlite::store::{Column, Index, Store, Table};
use metadata2sqlite::tag::{has_tag_id, TagRow};

#[test]
fn every_index_names_its_table() {
    assert_eq!(Index::TagsById.table(), Table::Tags);
    assert_eq!(Index::TagsByNameAndId.table(), Table::Tags);
    assert_eq!(Index::ImagesById.table(), Table::Images);
    assert_eq!(Index::ArtistsById.table(), Table::Artists);
    assert_eq!(Index::ArtistsByTag.table(), Table::Artists);
    assert_eq!(Index::ImagesByIdAndRating.table(), Table::Images);
    assert_eq!(Index::ImageTagsByTag.table(), Table::ImageTags);
}

#[test]
fn every_index_names_its_columns() {
    assert_eq!(Index::TagsById.columns(), vec![Column::TagId]);
    assert_eq!(Index::TagsByNameAndId.columns(), vec![Column::Name, Column::TagId]);
    assert_eq!(Index::ImagesById.columns(), vec![Column::ImageId]);
    assert_eq!(Index::ArtistsById.columns(), vec![Column::ArtistId]);
    assert_eq!(Index::ArtistsByTag.columns(), vec![Column::TagId]);
    assert_eq!(Index::ImagesByIdAndRating.columns(), vec![Column::ImageId, Column::Rating]);
    assert_eq!(Index::ImageTagsByTag.columns(), vec![Column::TagId]);
}

#[test]
fn has_tag_id_finds_keys_only() {
    let rows = vec![
        TagRow { tag_id: 3, name: String::from("a"), category: 7, count: 9 },
        TagRow { tag_id: 5, name: String::from("b"), category: 3, count: 0 },
    ];
    assert!(has_tag_id(&rows, 3));
    assert!(has_tag_id(&rows, 5));
    assert!(!has_tag_id(&rows, 7));
    assert!(!has_tag_id(&rows, 9));
    assert!(!has_tag_id(&vec![], 3));
}

#[test]
fn has_note_id_finds_keys_only() {
    let rows = vec![NoteRow {
        note_id: 3,
        image_id: Some(8),
        body: String::new(),
        x: None,
        y: None,
        w: None,
        h: None,
    }];
    assert!(has_note_id(&rows, 3));
    assert!(!has_note_id(&rows, 8));
}

#[test]
fn has_pool_id_finds_keys_only() {
    let rows = vec![PoolRow {
        pool_id: 3,
        name: String::new(),
        description: String::new(),
        image_count: 8,
    }];
    assert!(has_pool_id(&rows, 3));
    assert!(!has_pool_id(&rows, 8));
}

#[test]
fn has_artist_id_finds_keys_only() {
    let rows = vec![ArtistRow {
        artist_id: 3,
        name: String::new(),
        is_banned: None,
        is_deleted: false,
        count: 8,
        tag_id: Some(4),
    }];
    assert!(has_artist_id(&rows, 3));
    assert!(!has_artist_id(&rows, 4));
    assert!(!has_artist_id(&rows, 8));
}

#[test]
fn has_image_id_finds_keys_only() {
    let mut store = Store::new();
    assert_eq!(create_image_tables(&mut store), Ok(()));
    let p = Post {
        id: Some(3),
        rating: String::from("q"),
        source: String::new(),
        pixiv_id: Some(8),
        image_width: 1,
        image_height: 2,
        created_at: String::new(),
        updated_at: String::new(),
        uploader_id: 9,
        is_banned: false,
        is_deleted: false,
        is_flagged: false,
        file_ext: String::from("jpg"),
        file_size: 10,
        md5: None,
        has_children: false,
        has_visible_children: false,
        has_active_children: false,
        parent_id: Some(11),
        tag_string_character: vec![],
        tag_string_copyright: vec![],
        tag_string_meta: vec![],
        tag_string_general: vec![],
        tag_string_artist: vec![],
    };
    assert_eq!(import_image(&vec![p], &mut store), Ok(()));
    assert!(has_image_id(store.images(), 3));
    assert!(!has_image_id(store.images(), 8));
    assert!(!has_image_id(store.images(), 9));
    assert!(!has_image_id(store.images(), 11));
}
