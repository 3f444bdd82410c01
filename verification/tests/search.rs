use voca_rs::index::{index_of, InvalidOffset};

#[test]
fn finds_first_occurrence() {
    assert_eq!(index_of("morning", "n", 0), Ok(Some(3)));
}

#[test]
fn reports_absence() {
    assert_eq!(index_of("evening", "o", 0), Ok(None));
}

#[test]
fn returns_code_point_offsets_for_multibyte_text() {
    assert_eq!(index_of("Zażółć gęślą jaźń", "gęślą", 0), Ok(Some(7)));
}

#[test]
fn scan_starts_at_the_given_offset() {
    assert_eq!(index_of("morning", "n", 4), Ok(Some(5)));
}

#[test]
fn empty_search_matches_at_the_window_start() {
    assert_eq!(index_of("morning", "", 3), Ok(Some(3)));
    assert_eq!(index_of("", "", 0), Ok(Some(0)));
    assert_eq!(index_of("abc", "", 3), Ok(Some(3)));
}

#[test]
fn offset_may_sit_at_the_very_end() {
    assert_eq!(index_of("abc", "c", 3), Ok(None));
}

#[test]
fn offset_beyond_the_end_is_an_error() {
    assert_eq!(index_of("abc", "a", 4), Err(InvalidOffset));
    assert_eq!(index_of("", "a", 1), Err(InvalidOffset));
}
