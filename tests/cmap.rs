use ja2ps::cidmap::{
    contains_chars, make_cid_mapping_list, parse_cidchar, parse_cidrange, trim_brackets,
};
use ja2ps::cmap::Cidmap;

fn chars(s: &str) -> Vec<char> {
    s.chars().collect()
}

const CMAP: &str = "%!PS-Adobe-3.0 Resource-CMap\n\
2 begincidchar\n\
<0041> 34\n\
<3042> 842\n\
endcidchar\n\
1 begincidrange\n\
<0061> <007a> 66\n\
endcidrange\n\
<0042> 99\n";

#[test]
fn trim_brackets_strips_both_brackets_only() {
    assert_eq!(trim_brackets(&chars("<3042>")), chars("3042"));
    assert_eq!(trim_brackets(&chars("<3042")), chars("<3042"));
    assert_eq!(trim_brackets(&chars("<>")), chars(""));
    assert_eq!(trim_brackets(&chars("")), chars(""));
}

#[test]
fn cidchar_line() {
    let c = parse_cidchar(&chars("<3042>  842")).unwrap();
    assert_eq!((c.utf32, c.cid), (0x3042, 842));
    assert!(parse_cidchar(&chars("<3042> 842 1")).is_none());
    assert!(parse_cidchar(&chars("<zz> 842")).is_none());
}

#[test]
fn cidrange_line() {
    let r = parse_cidrange(&chars("<0061>\t<007a> 66")).unwrap();
    assert_eq!((r.begin_utf32, r.end_utf32, r.cid), (0x61, 0x7a, 66));
    assert!(parse_cidrange(&chars("<0061> 66")).is_none());
}

#[test]
fn substring_search() {
    assert!(contains_chars(&chars("1 begincidchar"), &chars("begincidchar")));
    assert!(!contains_chars(&chars("begincid"), &chars("begincidchar")));
    assert!(contains_chars(&chars("abc"), &chars("")));
}

fn record(cid: &str, unicodes: &str) -> String {
    let mut cols: Vec<String> = vec![String::new(); 32];
    cols[0] = cid.to_string();
    cols[20] = unicodes.to_string();
    cols.join("\t")
}

#[test]
fn mapping_list_reads_one_record() {
    let v = make_cid_mapping_list(&record("633", "3042"));
    assert_eq!(v.len(), 1);
    assert_eq!(v[0].cid, 633);
    assert_eq!(v[0].unicodes, vec![0x3042]);
}

#[test]
fn mapping_list_skips_empty_and_unassigned_columns() {
    let text = format!("{}\n{}\n{}\n", record("5", ""), record("5", "*"), record("5", "*,3042"));
    let v = make_cid_mapping_list(&text);
    assert_eq!(v.len(), 1);
    assert_eq!(v[0].cid, 5);
    assert_eq!(v[0].unicodes, vec![0x3042]);
}

#[test]
fn mapping_list_bad_cid_reads_as_zero() {
    let v = make_cid_mapping_list(&record("abc", "3042"));
    assert_eq!(v.len(), 1);
    assert_eq!(v[0].cid, 0);
    assert_eq!(v[0].unicodes, vec![0x3042]);
}

#[test]
fn mapping_list_drops_bad_tokens_and_keeps_empty_lists() {
    let text = format!("{}\n{}", record("7", "3042,zz,fa10"), record("8", "zz"));
    let v = make_cid_mapping_list(&text);
    assert_eq!(v.len(), 2);
    assert_eq!((v[0].cid, v[0].unicodes.clone()), (7, vec![0x3042, 0xFA10]));
    assert_eq!((v[1].cid, v[1].unicodes.clone()), (8, vec![]));
}

#[test]
fn mapping_list_keeps_file_order_and_duplicates() {
    let text = format!("{}\n1\t2\n{}\n", record("9", "41"), record("3", "41"));
    let v = make_cid_mapping_list(&text);
    assert_eq!(v.len(), 2);
    assert_eq!((v[0].cid, v[1].cid), (9, 3));
    assert_eq!((v[0].unicodes.clone(), v[1].unicodes.clone()), (vec![0x41], vec![0x41]));
}

#[test]
fn mapping_list_ignores_cmap_text() {
    assert!(make_cid_mapping_list(CMAP).is_empty());
}

#[test]
fn cidmap_first_covering_mapping_wins() {
    let m = Cidmap::new("begincidrange\n<0041> <005a> 100\nendcidrange\nbegincidchar\n<0042> 7\nendcidchar\n");
    assert_eq!(m.get_cid('B'), 101);
    let m = Cidmap::new("begincidchar\n<0042> 7\nendcidchar\nbegincidrange\n<0041> <005a> 100\nendcidrange\n");
    assert_eq!(m.get_cid('B'), 7);
    assert_eq!(m.get_cid('C'), 102);
}

#[test]
fn cidmap_lookup() {
    let m = Cidmap::new(CMAP);
    assert_eq!(m.get_cid('A'), 34);
    assert_eq!(m.get_cid('あ'), 842);
    assert_eq!(m.get_cid('a'), 66);
    assert_eq!(m.get_cid('c'), 68);
    assert_eq!(m.get_cid('z'), 91);
    assert_eq!(m.get_cid('B'), 0);
}
