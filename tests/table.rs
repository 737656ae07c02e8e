use ja2ps::table::{parse_record, CidEntry, CidTable};

fn record(cid: &str, unicodes: &str) -> String {
    let mut cols: Vec<String> = Vec::new();
    for i in 0..32 {
        if i == 0 {
            cols.push(cid.to_string());
        } else if i == 20 {
            cols.push(unicodes.to_string());
        } else {
            cols.push(String::from("x"));
        }
    }
    cols.join("\t")
}

fn chars(s: &str) -> Vec<char> {
    s.chars().collect()
}

#[test]
fn it_works() {
    assert_eq!(2 + 2, 4);
}

#[test]
fn record_with_one_code_point() {
    let e = parse_record(&chars(&record("633", "3042"))).unwrap();
    assert_eq!(e.cid, 633);
    assert_eq!(e.unicodes, vec![0x3042]);
}

#[test]
fn record_with_several_code_points_drops_bad_tokens() {
    let e = parse_record(&chars(&record("1", "41,zz,+42,"))).unwrap();
    assert_eq!(e.cid, 1);
    assert_eq!(e.unicodes, vec![0x41, 0x42]);
}

#[test]
fn record_with_bad_cid_reads_as_zero() {
    let e = parse_record(&chars(&record("abc", "41"))).unwrap();
    assert_eq!(e.cid, 0);
    assert_eq!(e.unicodes, vec![0x41]);
}

#[test]
fn record_unassigned_or_empty_is_skipped() {
    assert!(parse_record(&chars(&record("5", "*"))).is_none());
    assert!(parse_record(&chars(&record("5", ""))).is_none());
}

#[test]
fn record_with_wrong_column_count_is_skipped() {
    assert!(parse_record(&chars("1\t2\t3")).is_none());
    let mut long = record("5", "41");
    long.push_str("\textra");
    assert!(parse_record(&chars(&long)).is_none());
}

#[test]
fn load_keeps_file_order_and_skips_bad_records() {
    let text = format!(
        "{}\n# comment\n{}\r\n{}\n",
        record("10", "41"),
        record("11", "*"),
        record("12", "42,43")
    );
    let t = CidTable::load(&text);
    assert_eq!(t.entries.len(), 2);
    assert_eq!(t.entries[0].cid, 10);
    assert_eq!(t.entries[1].cid, 12);
    assert_eq!(t.entries[1].unicodes, vec![0x42, 0x43]);
}

#[test]
fn load_empty_text_gives_empty_table() {
    assert_eq!(CidTable::load("").entries.len(), 0);
}

#[test]
fn resolve_first_entry_wins() {
    let t = CidTable::from_entries(vec![
        CidEntry { cid: 7, unicodes: vec![0x41] },
        CidEntry { cid: 8, unicodes: vec![0x42, 0x3042] },
        CidEntry { cid: 9, unicodes: vec![0x3042] },
    ]);
    assert_eq!(t.resolve('あ'), Some(8));
    assert_eq!(t.resolve('A'), Some(7));
}

#[test]
fn resolve_unlisted_is_none() {
    let t = CidTable::from_entries(vec![CidEntry { cid: 7, unicodes: vec![0x41] }]);
    assert_eq!(t.resolve('Z'), None);
    assert_eq!(CidTable::from_entries(Vec::new()).resolve('A'), None);
}
