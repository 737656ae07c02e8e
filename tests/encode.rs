use ja2ps::encode::escape_ps_string;
use ja2ps::table::{CidEntry, CidTable};

fn table() -> CidTable {
    CidTable::from_entries(vec![
        CidEntry { cid: 633, unicodes: vec![0x3042] },
        CidEntry { cid: 0x10000, unicodes: vec![0x3044] },
        CidEntry { cid: 1, unicodes: vec![0x0A, 0x28] },
        CidEntry { cid: 0xFFFF, unicodes: vec![0x41] },
    ])
}

#[test]
fn hiragana_a_gives_its_cid_bytes() {
    assert_eq!(escape_ps_string(&table(), "あ"), "\\002\\171");
}

#[test]
fn largest_two_byte_cid() {
    assert_eq!(escape_ps_string(&table(), "A"), "\\377\\377");
}

#[test]
fn cid_beyond_two_bytes_is_placeholder() {
    assert_eq!(escape_ps_string(&table(), "い"), "??");
}

#[test]
fn unlisted_character_is_placeholder() {
    assert_eq!(escape_ps_string(&table(), "Z"), "??");
    assert_eq!(escape_ps_string(&CidTable::from_entries(Vec::new()), "あ"), "??");
}

#[test]
fn control_character_is_placeholder_even_when_listed() {
    assert_eq!(escape_ps_string(&table(), "\n"), "??");
    assert_eq!(escape_ps_string(&table(), "\t\u{7f}\u{9f}"), "??????");
}

#[test]
fn metacharacters_are_escaped_even_when_listed() {
    assert_eq!(escape_ps_string(&table(), "\\()"), "\\\\\\(\\)");
}

#[test]
fn mixed_text_is_encoded_character_by_character() {
    assert_eq!(escape_ps_string(&table(), "(あZ)"), "\\(\\002\\171??\\)");
}

#[test]
fn empty_text_encodes_to_nothing() {
    assert_eq!(escape_ps_string(&table(), ""), "");
}
