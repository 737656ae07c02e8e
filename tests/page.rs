use ja2ps::page::{
    epilogue, max_chars_per_row, max_rows_per_page, prologue, render, Paginator,
};
use ja2ps::table::{CidEntry, CidTable};

const HEADER_1: &str = "0.75 setlinewidth\n40 782 moveto\n555 782 lineto\n555 40 lineto\n40 40 lineto\nclosepath stroke\n/Times-Bold findfont 10 scalefont setfont\n500 800 moveto (Page: 1) show\n/GothicBBB-Medium-Identity-H findfont 12 scalefont setfont\n";

fn count(hay: &str, needle: &str) -> usize {
    hay.matches(needle).count()
}

#[test]
fn layout_numbers() {
    assert_eq!(max_chars_per_row(), 79);
    assert_eq!(max_rows_per_page(), 43);
}

#[test]
fn empty_input_is_prologue_and_epilogue_only() {
    let t = CidTable::from_entries(Vec::new());
    let doc = render(&t, &Vec::new());
    assert_eq!(doc, "%!PS\ngsave\nshowpage\ngrestore\n");
    assert_eq!(prologue(), "%!PS\ngsave\n");
    assert_eq!(epilogue(), "showpage\ngrestore\n");
}

#[test]
fn empty_lines_draw_no_page() {
    let t = CidTable::from_entries(Vec::new());
    let doc = render(&t, &vec![String::new(), String::new()]);
    assert_eq!(doc, "%!PS\ngsave\nshowpage\ngrestore\n");
}

#[test]
fn one_line_document() {
    let t = CidTable::from_entries(vec![CidEntry { cid: 633, unicodes: vec![0x3042] }]);
    let doc = render(&t, &vec![String::from("Hiあ")]);
    let expected = format!(
        "%!PS\ngsave\n{}60 752 moveto  (????\\002\\171) show\nshowpage\ngrestore\n",
        HEADER_1
    );
    assert_eq!(doc, expected);
}

#[test]
fn rows_step_down_by_row_height() {
    let t = CidTable::from_entries(Vec::new());
    let doc = render(&t, &vec![String::from("a"), String::from("b")]);
    assert!(doc.contains("60 752 moveto  (??) show\n60 736 moveto  (??) show\n"));
}

#[test]
fn page_headers_are_ceiling_of_rows_over_page_rows() {
    let t = CidTable::from_entries(Vec::new());
    for (n, pages) in [(1usize, 1usize), (43, 1), (44, 2), (86, 2), (87, 3)] {
        let lines: Vec<String> = (0..n).map(|_| String::from("x")).collect();
        let doc = render(&t, &lines);
        assert_eq!(count(&doc, "setlinewidth"), pages);
        assert_eq!(count(&doc, "showpage\n"), pages);
        assert_eq!(count(&doc, ") show\n") - pages, n);
    }
}

#[test]
fn second_page_is_numbered_two_and_restarts_at_top() {
    let t = CidTable::from_entries(Vec::new());
    let lines: Vec<String> = (0..44).map(|_| String::from("x")).collect();
    let doc = render(&t, &lines);
    assert!(doc.contains("60 80 moveto  (??) show\nshowpage\n0.75 setlinewidth\n"));
    assert!(doc.contains("(Page: 2) show\n/GothicBBB-Medium-Identity-H findfont 12 scalefont setfont\n60 752 moveto"));
}

#[test]
fn long_line_wraps_into_rows() {
    let t = CidTable::from_entries(Vec::new());
    let line: String = std::iter::repeat('a').take(80).collect();
    let doc = render(&t, &vec![line]);
    assert_eq!(count(&doc, "moveto  ("), 2);
}

#[test]
fn paginator_steps() {
    let t = CidTable::from_entries(Vec::new());
    let mut p = Paginator::new();
    let first = p.place_row(&t, "a");
    assert_eq!(first, format!("{}60 752 moveto  (??) show\n", HEADER_1));
    assert_eq!((p.page, p.rows, p.y, p.new_page), (0, 1, 736, false));
    let second = p.place_row(&t, "b");
    assert_eq!(second, "60 736 moveto  (??) show\n");
}
