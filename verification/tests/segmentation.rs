use voca_rs::split::{chars, graphemes, split, words};

#[test]
fn chars_of_word() {
    assert_eq!(chars("cloud"), vec!["c", "l", "o", "u", "d"]);
}

#[test]
fn chars_of_empty() {
    assert_eq!(chars(""), vec![""]);
}

#[test]
fn chars_one_segment_per_code_point() {
    // The combining marks count as code points of their own.
    assert_eq!(chars("a\u{310}e\u{301}"), vec!["a", "\u{310}", "e", "\u{301}"]);
}

#[test]
fn chars_concatenation_restores_input() {
    let s = "Zażółć gęślą jaźń";
    assert_eq!(chars(s).concat(), s);
}

#[test]
fn graphemes_keep_marks_attached() {
    assert_eq!(graphemes("a̐éö̲\r\n"), vec!["a̐", "é", "ö̲", "\r\n"]);
}

#[test]
fn graphemes_of_empty() {
    assert_eq!(graphemes(""), vec![""]);
}

#[test]
fn graphemes_concatenation_restores_input() {
    let s = "a\r\nb🇷🇺🇸🇹";
    assert_eq!(graphemes(s), vec!["a", "\r\n", "b", "🇷🇺", "🇸🇹"]);
    assert_eq!(graphemes(s).concat(), s);
}

#[test]
fn split_on_spaces() {
    assert_eq!(
        split("rage against the dying of the light", " "),
        vec!["rage", "against", "the", "dying", "of", "the", "light"]
    );
}

#[test]
fn split_of_empty_text() {
    assert_eq!(split("", "x"), vec![""]);
}

#[test]
fn split_by_empty_pattern_leaves_text_whole() {
    assert_eq!(split("rage", ""), vec!["rage"]);
}

#[test]
fn split_drops_trailing_empty_chunk() {
    assert_eq!(split("a,b,", ","), vec!["a", "b"]);
}

#[test]
fn split_keeps_inner_empty_chunks() {
    assert_eq!(split("a,,b", ","), vec!["a", "", "b"]);
}

#[test]
fn split_consumes_occurrences_without_overlap() {
    assert_eq!(split("aaa", "aa"), vec!["", "a"]);
}

#[test]
fn words_resolve_casing_and_separators() {
    assert_eq!(
        words("LazyLoad with XMLHttpRequest and snake_case"),
        vec!["Lazy", "Load", "with", "XML", "Http", "Request", "and", "snake", "case"]
    );
}

#[test]
fn words_pass_uncased_scripts_through() {
    assert_eq!(
        words("Sześć звёзд are dying"),
        vec!["Sześć", "звёзд", "are", "dying"]
    );
}

#[test]
fn words_of_empty() {
    assert_eq!(words(""), Vec::<String>::new());
}

#[test]
fn words_split_kebab_case() {
    assert_eq!(words("kebab-case-words"), vec!["kebab", "case", "words"]);
}

#[test]
fn words_keep_digits_inside_words() {
    assert_eq!(words("area51 zone"), vec!["area51", "zone"]);
}

#[test]
fn words_are_idempotent_under_rejoining() {
    for s in [
        "LazyLoad with XMLHttpRequest and snake_case",
        "Sześć звёзд are dying",
        "kebab-case and PascalCase03",
    ] {
        let first = words(s);
        let rejoined = first.join(" ");
        assert_eq!(words(&rejoined), first);
    }
}
