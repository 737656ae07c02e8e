use ja2ps::wrap::wrap;

#[test]
fn ascii_line_wraps_into_ceiling_segments() {
    let r = wrap("abcdefghij", 3);
    assert_eq!(r, vec!["abc", "def", "ghi", "j"]);
    let r = wrap("abcdef", 3);
    assert_eq!(r, vec!["abc", "def"]);
}

#[test]
fn wide_characters_count_two_columns() {
    let r = wrap("あいう", 4);
    assert_eq!(r, vec!["あい", "う"]);
    let r = wrap("aあb", 3);
    assert_eq!(r, vec!["aあ", "b"]);
    let r = wrap("abあ", 3);
    assert_eq!(r, vec!["ab", "あ"]);
}

#[test]
fn empty_line_gives_no_segment() {
    assert!(wrap("", 79).is_empty());
}

#[test]
fn short_line_is_one_segment() {
    assert_eq!(wrap("hello", 79), vec!["hello"]);
}

#[test]
fn character_wider_than_a_row_still_gets_a_segment() {
    assert_eq!(wrap("あい", 1), vec!["", "あ", "い"]);
}
