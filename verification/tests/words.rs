use metadata2sqlite::words::{classify, split_marked, split_tags};

fn strings(words: &[&str]) -> Vec<String> {
    words.iter().map(|w| w.to_string()).collect()
}

#[test]
fn split_tags_on_single_spaces() {
    assert_eq!(split_tags("1girl solo long_hair"), strings(&["1girl", "solo", "long_hair"]));
}

#[test]
fn split_tags_of_empty_string_is_empty() {
    assert_eq!(split_tags(""), Vec::<String>::new());
}

#[test]
fn split_tags_of_white_space_only_is_empty() {
    assert_eq!(split_tags(" \t\n  "), Vec::<String>::new());
}

#[test]
fn split_tags_ignores_leading_trailing_and_repeated_white_space() {
    assert_eq!(split_tags("  alice \t bob\n"), strings(&["alice", "bob"]));
}

#[test]
fn split_tags_single_tag() {
    assert_eq!(split_tags("alice"), strings(&["alice"]));
}

#[test]
fn split_tags_splits_on_unicode_white_space() {
    assert_eq!(split_tags("a\u{3000}b\u{a0}c\u{2003}d"), strings(&["a", "b", "c", "d"]));
}

#[test]
fn split_tags_keeps_non_ascii_tags() {
    assert_eq!(split_tags("東方 初音ミク é"), strings(&["東方", "初音ミク", "é"]));
}

#[test]
fn split_tags_keeps_repeated_tags() {
    assert_eq!(split_tags("a a"), strings(&["a", "a"]));
}

#[test]
fn classify_marks_white_space() {
    assert_eq!(classify("a b\tc"), vec![false, true, false, true, false]);
    assert_eq!(classify(""), Vec::<bool>::new());
    assert_eq!(classify("é\u{3000}"), vec![false, true]);
}

#[test]
fn split_marked_follows_the_marks() {
    let marks = vec![false, true, false, false, true, true, false];
    assert_eq!(split_marked("a,bc;;d", &marks), strings(&["a", "bc", "d"]));
}

#[test]
fn split_marked_without_marks_is_one_word() {
    assert_eq!(split_marked("a b", &vec![false, false, false]), strings(&["a b"]));
}

#[test]
fn split_marked_all_marked_is_empty() {
    assert_eq!(split_marked("abc", &vec![true, true, true]), Vec::<String>::new());
}
