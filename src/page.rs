//! Page layout and the paginator: places wrapped rows on fixed-size pages,
//! each opened with a border, a page number and the body font.
use vstd::prelude::*;
use vstd::string::StringExecFns;
use vstd::arithmetic::div_mod::{lemma_fundamental_div_mod, lemma_fundamental_div_mod_converse};
use crate::encode::{encode, escape_ps_string};
use crate::font::FontMetrics;
use crate::table::{entries_view, CidTable};
use crate::text::{decimal, push_decimal};
use crate::wrap::{wrap, wrap_spec};

verus! {

pub const PAGE_WIDTH: u32 = 595;
pub const PAGE_HEIGHT: u32 = 842;

pub const MARGIN_TOP: u32 = 60;
pub const MARGIN_RIGHT: u32 = 40;
pub const MARGIN_BOTTOM: u32 = 40;
pub const MARGIN_LEFT: u32 = 40;

pub const PADDING_TOP: u32 = 20;
pub const PADDING_RIGHT: u32 = 20;
pub const PADDING_BOTTOM: u32 = 20;
pub const PADDING_LEFT: u32 = 20;

pub const FONT_SIZE: u32 = 12;
pub const FONT_INTERNAL_LEADING: u32 = 2;
pub const FONT_ASCENT: u32 = 8;
pub const FONT_DESCENT: u32 = 4;
pub const FONT_EXTERNAL_LEADING: u32 = 2;

pub const CONTENT_WIDTH: u32 = PAGE_WIDTH - MARGIN_LEFT - MARGIN_RIGHT - PADDING_LEFT - PADDING_RIGHT;
pub const CONTENT_HEIGHT: u32 = PAGE_HEIGHT - MARGIN_TOP - MARGIN_BOTTOM - PADDING_TOP - PADDING_BOTTOM;
pub const CONTENT_TOP: u32 = MARGIN_BOTTOM + PADDING_BOTTOM + CONTENT_HEIGHT;

pub const BORDER_TOP: u32 = CONTENT_TOP + PADDING_TOP;
pub const BORDER_RIGHT: u32 = MARGIN_LEFT + PADDING_LEFT + CONTENT_WIDTH + PADDING_RIGHT;
pub const BORDER_BOTTOM: u32 = MARGIN_BOTTOM;
pub const BORDER_LEFT: u32 = MARGIN_LEFT;

/// Left edge of every row.
pub const TEXT_X: u32 = MARGIN_RIGHT + PADDING_RIGHT;

pub const LABEL_X: u32 = 500;
pub const LABEL_Y: u32 = 800;

/// Distance between the baselines of two rows.
pub const ROW_HEIGHT: u32 = FONT_INTERNAL_LEADING + FONT_ASCENT + FONT_DESCENT + FONT_EXTERNAL_LEADING;

/// Baseline of a page's first row.
pub const FIRST_ROW_Y: u32 = CONTENT_TOP - FONT_INTERNAL_LEADING - FONT_ASCENT;

/// Columns in a row, each half the font size wide.
pub const MAX_CHARS_PER_ROW: u32 = CONTENT_WIDTH / (FONT_SIZE / 2);

/// Rows on a page.
pub const MAX_ROWS_PER_PAGE: u32 = CONTENT_HEIGHT / ROW_HEIGHT;

/// The metrics of the body font.
pub fn body_font() -> (f: FontMetrics)
    ensures
        f.size == FONT_SIZE,
        f.internal_leading == FONT_INTERNAL_LEADING,
        f.ascent == FONT_ASCENT,
        f.descent == FONT_DESCENT,
        f.external_leading == FONT_EXTERNAL_LEADING,
{
    FontMetrics {
        size: FONT_SIZE,
        internal_leading: FONT_INTERNAL_LEADING,
        ascent: FONT_ASCENT,
        descent: FONT_DESCENT,
        external_leading: FONT_EXTERNAL_LEADING,
    }
}

/// How many columns a row holds in the body font.
pub fn max_chars_per_row() -> (r: u32)
    ensures
        r == MAX_CHARS_PER_ROW,
{
    CONTENT_WIDTH / body_font().width()
}

/// How many rows a page holds in the body font.
pub fn max_rows_per_page() -> (r: u32)
    ensures
        r == MAX_ROWS_PER_PAGE,
{
    CONTENT_HEIGHT / body_font().row_height()
}

/// The opening of the document: the PostScript header and a graphics-state save.
pub open spec fn prologue_text() -> Seq<char> {
    "%!PS\n"@ + "gsave\n"@
}

/// The closing of the document: the last page out and the graphics state restored.
pub open spec fn epilogue_text() -> Seq<char> {
    "showpage\n"@ + "grestore\n"@
}

/// The command that ends a page.
pub open spec fn page_end_text() -> Seq<char> {
    "showpage\n"@
}

/// The page border: a closed rectangle round the padded content area.
pub open spec fn border_text() -> Seq<char> {
    "0.75 setlinewidth\n"@
        + decimal(BORDER_LEFT as nat) + " "@ + decimal(BORDER_TOP as nat) + " moveto\n"@
        + decimal(BORDER_RIGHT as nat) + " "@ + decimal(BORDER_TOP as nat) + " lineto\n"@
        + decimal(BORDER_RIGHT as nat) + " "@ + decimal(BORDER_BOTTOM as nat) + " lineto\n"@
        + decimal(BORDER_LEFT as nat) + " "@ + decimal(BORDER_BOTTOM as nat) + " lineto\n"@
        + "closepath stroke\n"@
}

/// The page number `number`, in the label font at its fixed place.
pub open spec fn label_text(number: nat) -> Seq<char> {
    "/Times-Bold findfont 10 scalefont setfont\n"@
        + decimal(LABEL_X as nat) + " "@ + decimal(LABEL_Y as nat) + " moveto (Page: "@
        + decimal(number) + ") show\n"@
}

/// The selection of the body font.
pub open spec fn body_font_text() -> Seq<char> {
    "/GothicBBB-Medium-Identity-H findfont "@ + decimal(FONT_SIZE as nat)
        + " scalefont setfont\n"@
}

/// What opens the page numbered `number` (from 1): the border, the page
/// number in the label font, and the selection of the body font.
pub open spec fn header_text(number: nat) -> Seq<char> {
    border_text() + label_text(number) + body_font_text()
}

/// The commands that show the encoded text `body` on the row at height `y`.
pub open spec fn row_text(y: nat, body: Seq<char>) -> Seq<char> {
    decimal(TEXT_X as nat) + " "@ + decimal(y) + " moveto "@ + " ("@ + body + ") show\n"@
}

/// Where the paginator stands: the page (from 0), the rows already on it, the
/// baseline of the next row, and whether a page must be opened before it.
pub struct Paginator {
    pub page: u64,
    pub rows: u32,
    pub y: u32,
    pub new_page: bool,
}

impl Paginator {
    /// The states that placing rows can reach.
    pub open spec fn wf(&self) -> bool {
        if self.new_page {
            (self.rows == 0 && self.y == FIRST_ROW_Y && self.page == 0)
                || (self.rows == MAX_ROWS_PER_PAGE && self.y == FIRST_ROW_Y - (MAX_ROWS_PER_PAGE - 1) * ROW_HEIGHT)
        } else {
            self.rows < MAX_ROWS_PER_PAGE && self.y == FIRST_ROW_Y - self.rows * ROW_HEIGHT
        }
    }

    /// The state before the first row.
    pub open spec fn initial() -> Paginator {
        Paginator { page: 0, rows: 0, y: FIRST_ROW_Y, new_page: true }
    }

    /// The state once a pending page has been opened, before its first row.
    pub open spec fn opened(&self) -> Paginator {
        if self.new_page && self.rows != 0 {
            Paginator { page: (self.page + 1) as u64, rows: 0, y: FIRST_ROW_Y, new_page: false }
        } else {
            Paginator { new_page: false, ..*self }
        }
    }

    /// The state after one more row.
    pub open spec fn next(&self) -> Paginator {
        let o = self.opened();
        if o.rows + 1 >= MAX_ROWS_PER_PAGE {
            Paginator { rows: (o.rows + 1) as u32, new_page: true, ..o }
        } else {
            Paginator { rows: (o.rows + 1) as u32, y: (o.y - ROW_HEIGHT) as u32, ..o }
        }
    }

    /// What placing one row writes: when a page is pending, the end of the
    /// previous page (if there is one) and the new page's header; then the row.
    pub open spec fn next_text(&self, body: Seq<char>) -> Seq<char> {
        let o = self.opened();
        let head = if self.new_page {
            (if self.rows != 0 {
                page_end_text()
            } else {
                Seq::empty()
            }) + header_text((o.page + 1) as nat)
        } else {
            Seq::empty()
        };
        head + row_text(o.y as nat, body)
    }

    /// A paginator before the first row: a page is pending.
    pub fn new() -> (p: Paginator)
        ensures
            p == Paginator::initial(),
            p.wf(),
    {
        Paginator { page: 0, rows: 0, y: FIRST_ROW_Y, new_page: true }
    }

    /// Places one segment of text as the next row, opening a page first where
    /// one is pending; returns the commands to write.
    pub fn place_row(&mut self, table: &CidTable, segment: &str) -> (out: String)
        requires
            old(self).wf(),
            old(self).page + 2 <= u64::MAX,
        ensures
            *final(self) == old(self).next(),
            final(self).wf(),
            out@ == old(self).next_text(encode(entries_view(table.entries@), segment@)),
    {
        let mut out = String::new();
        if self.new_page {
            if self.rows != 0 {
                out.append("showpage\n");
                self.rows = 0;
                self.page = self.page + 1;
                self.y = FIRST_ROW_Y;
            }
            push_header(&mut out, self.page + 1);
            self.new_page = false;
        }
        let ghost head = out@;
        push_decimal(&mut out, TEXT_X as u64);
        out.append(" ");
        push_decimal(&mut out, self.y as u64);
        out.append(" moveto ");
        out.append(" (");
        let body = escape_ps_string(table, segment);
        out.append(body.as_str());
        out.append(") show\n");
        assert(out@ =~= head + row_text(self.y as nat, body@));
        self.rows = self.rows + 1;
        if self.rows >= MAX_ROWS_PER_PAGE {
            self.new_page = true;
        } else {
            self.y = self.y - ROW_HEIGHT;
        }
        assert(out@ =~= old(self).next_text(encode(entries_view(table.entries@), segment@)));
        out
    }
}

fn push_header(out: &mut String, number: u64)
    ensures
        final(out)@ == old(out)@ + header_text(number as nat),
{
    let ghost start = out@;
    out.append("0.75 setlinewidth\n");
    push_decimal(out, BORDER_LEFT as u64);
    out.append(" ");
    push_decimal(out, BORDER_TOP as u64);
    out.append(" moveto\n");
    push_decimal(out, BORDER_RIGHT as u64);
    out.append(" ");
    push_decimal(out, BORDER_TOP as u64);
    out.append(" lineto\n");
    push_decimal(out, BORDER_RIGHT as u64);
    out.append(" ");
    push_decimal(out, BORDER_BOTTOM as u64);
    out.append(" lineto\n");
    push_decimal(out, BORDER_LEFT as u64);
    out.append(" ");
    push_decimal(out, BORDER_BOTTOM as u64);
    out.append(" lineto\n");
    out.append("closepath stroke\n");
    assert(out@ =~= start + border_text());
    let ghost mid = out@;
    out.append("/Times-Bold findfont 10 scalefont setfont\n");
    push_decimal(out, LABEL_X as u64);
    out.append(" ");
    push_decimal(out, LABEL_Y as u64);
    out.append(" moveto (Page: ");
    push_decimal(out, number);
    out.append(") show\n");
    assert(out@ =~= mid + label_text(number as nat));
    let ghost late = out@;
    out.append("/GothicBBB-Medium-Identity-H findfont ");
    push_decimal(out, FONT_SIZE as u64);
    out.append(" scalefont setfont\n");
    assert(out@ =~= late + body_font_text());
    assert(out@ =~= start + header_text(number as nat));
}

/// The opening of the document.
pub fn prologue() -> (r: String)
    ensures
        r@ == prologue_text(),
{
    let mut r = String::new();
    r.append("%!PS\n");
    r.append("gsave\n");
    assert(r@ =~= prologue_text());
    r
}

/// The closing of the document, written once whatever came before.
pub fn epilogue() -> (r: String)
    ensures
        r@ == epilogue_text(),
{
    let mut r = String::new();
    r.append("showpage\n");
    r.append("grestore\n");
    assert(r@ =~= epilogue_text());
    r
}

/// The segments of the lines `lines`, each wrapped to the row width, in order.
pub open spec fn segments_of(lines: Seq<Seq<char>>) -> Seq<Seq<char>>
    decreases lines.len(),
{
    if lines.len() == 0 {
        Seq::empty()
    } else {
        segments_of(lines.drop_last()) + wrap_spec(lines.last(), MAX_CHARS_PER_ROW as nat)
    }
}

/// The state reached and the commands written when the segments `segs` are
/// placed one row each from the state `p`.
pub open spec fn run(p: Paginator, t: Seq<(u32, Seq<u32>)>, segs: Seq<Seq<char>>) -> (Paginator, Seq<char>)
    decreases segs.len(),
{
    if segs.len() == 0 {
        (p, Seq::empty())
    } else {
        let (q, out) = run(p, t, segs.drop_last());
        (q.next(), out + q.next_text(encode(t, segs.last())))
    }
}

/// The document for the lines `lines`: the prologue, every segment placed as
/// a row, and the epilogue.
pub open spec fn document(t: Seq<(u32, Seq<u32>)>, lines: Seq<Seq<char>>) -> Seq<char> {
    prologue_text() + run(Paginator::initial(), t, segments_of(lines)).1 + epilogue_text()
}

/// How many page headers placing `n` rows from the start writes: one for each
/// row placed while a page was pending.
pub open spec fn headers_written(n: nat) -> nat
    decreases n,
{
    if n == 0 {
        0
    } else {
        headers_written((n - 1) as nat) + if state_after((n - 1) as nat).new_page {
            1nat
        } else {
            0nat
        }
    }
}

/// The state after `n` rows have been placed from the start.
pub open spec fn state_after(n: nat) -> Paginator
    decreases n,
{
    if n == 0 {
        Paginator::initial()
    } else {
        state_after((n - 1) as nat).next()
    }
}

proof fn lemma_segments_prefix(lines: Seq<Seq<char>>, i: int)
    requires
        0 <= i <= lines.len(),
    ensures
        segments_of(lines.take(i)).len() <= segments_of(lines).len(),
    decreases lines.len(),
{
    if i < lines.len() {
        assert(lines.drop_last().take(i) =~= lines.take(i));
        lemma_segments_prefix(lines.drop_last(), i);
    } else {
        assert(lines.take(i) =~= lines);
    }
}

/// Converts the lines `lines` into the whole document.
pub fn render(table: &CidTable, lines: &Vec<String>) -> (r: String)
    requires
        segments_of(lines@.map_values(|l: String| l@)).len() + 2 <= u64::MAX,
    ensures
        r@ == document(entries_view(table.entries@), lines@.map_values(|l: String| l@)),
{
    let ghost t = entries_view(table.entries@);
    let ghost ls = lines@.map_values(|l: String| l@);
    let mut out = prologue();
    let mut p = Paginator::new();
    let max_chars = max_chars_per_row();
    let mut i: usize = 0;
    while i < lines.len()
        invariant
            0 <= i <= lines@.len(),
            t == entries_view(table.entries@),
            ls == lines@.map_values(|l: String| l@),
            max_chars == MAX_CHARS_PER_ROW,
            segments_of(ls).len() + 2 <= u64::MAX,
            p.wf(),
            p.page <= segments_of(ls.take(i as int)).len(),
            p == run(Paginator::initial(), t, segments_of(ls.take(i as int))).0,
            out@ == prologue_text() + run(Paginator::initial(), t, segments_of(ls.take(i as int))).1,
        decreases lines@.len() - i,
    {
        let ghost done = segments_of(ls.take(i as int));
        assert(ls.take(i as int + 1).drop_last() =~= ls.take(i as int));
        assert(ls.take(i as int + 1).last() == lines@[i as int]@);
        proof {
            lemma_segments_prefix(ls, i + 1);
        }
        let segs = wrap(lines[i].as_str(), max_chars);
        let ghost ws = wrap_spec(lines@[i as int]@, MAX_CHARS_PER_ROW as nat);
        assert(done + ws.take(0) =~= done);
        let mut j: usize = 0;
        while j < segs.len()
            invariant
                0 <= j <= segs@.len(),
                segs@.len() == ws.len(),
                forall|k: int| 0 <= k < segs@.len() ==> #[trigger] segs@[k]@ == ws[k],
                t == entries_view(table.entries@),
                done.len() + ws.len() + 2 <= u64::MAX,
                p.wf(),
                p.page <= done.len() + j,
                p == run(Paginator::initial(), t, done + ws.take(j as int)).0,
                out@ == prologue_text() + run(Paginator::initial(), t, done + ws.take(j as int)).1,
            decreases segs@.len() - j,
        {
            let ghost acc = done + ws.take(j as int);
            assert((done + ws.take(j as int + 1)).drop_last() =~= acc);
            assert((done + ws.take(j as int + 1)).last() == segs@[j as int]@);
            let row = p.place_row(table, segs[j].as_str());
            out.append(row.as_str());
            j = j + 1;
            assert(out@ =~= prologue_text() + run(Paginator::initial(), t, done + ws.take(j as int)).1);
        }
        assert(done + ws.take(j as int) =~= segments_of(ls.take(i as int + 1)));
        i = i + 1;
    }
    assert(ls.take(i as int) =~= ls);
    let end = epilogue();
    out.append(end.as_str());
    out
}

/// With no input lines the document is the prologue and the epilogue alone:
/// no border, page number or row.
pub proof fn lemma_empty_document(t: Seq<(u32, Seq<u32>)>)
    ensures
        document(t, Seq::empty()) == prologue_text() + epilogue_text(),
{
    assert(prologue_text() + Seq::<char>::empty() =~= prologue_text());
}

proof fn lemma_rows_per_page()
    ensures
        MAX_ROWS_PER_PAGE == 43,
{
}

proof fn lemma_state_after(n: nat)
    requires
        n >= 1,
    ensures
        state_after(n).rows == (n - 1) % (MAX_ROWS_PER_PAGE as int) + 1,
        state_after(n).new_page == (state_after(n).rows == MAX_ROWS_PER_PAGE),
        state_after(n).y == FIRST_ROW_Y - (if state_after(n).new_page {
            MAX_ROWS_PER_PAGE - 1
        } else {
            state_after(n).rows as int
        }) * ROW_HEIGHT,
    decreases n,
{
    lemma_rows_per_page();
    let r = MAX_ROWS_PER_PAGE as int;
    if n == 1 {
        assert(state_after(0) == Paginator::initial());
        assert(state_after(1) == Paginator::initial().next());
    } else {
        lemma_state_after((n - 1) as nat);
        assert(state_after(n) == state_after((n - 1) as nat).next());
        let q = (n - 2) / r;
        let m = (n - 2) % r;
        lemma_fundamental_div_mod(n - 2, r);
        if m + 1 == r {
            lemma_fundamental_div_mod_converse(n - 1, r, q + 1, 0);
        } else {
            lemma_fundamental_div_mod_converse(n - 1, r, q, m + 1);
        }
    }
}

proof fn lemma_page_after(n: nat)
    requires
        1 <= n < u64::MAX,
    ensures
        state_after(n).page == (n - 1) / (MAX_ROWS_PER_PAGE as int),
    decreases n,
{
    lemma_rows_per_page();
    let r = MAX_ROWS_PER_PAGE as int;
    if n == 1 {
        assert(state_after(0) == Paginator::initial());
        assert(state_after(1) == Paginator::initial().next());
    } else {
        lemma_page_after((n - 1) as nat);
        lemma_state_after((n - 1) as nat);
        assert(state_after(n) == state_after((n - 1) as nat).next());
        let q = (n - 2) / r;
        let m = (n - 2) % r;
        lemma_fundamental_div_mod(n - 2, r);
        assert(q <= n - 2) by (nonlinear_arith)
            requires
                r >= 1,
                n - 2 >= 0,
                q == (n - 2) / r,
        ;
        if m + 1 == r {
            lemma_fundamental_div_mod_converse(n - 1, r, q + 1, 0);
        } else {
            lemma_fundamental_div_mod_converse(n - 1, r, q, m + 1);
        }
    }
}

proof fn lemma_new_page_at(n: nat)
    ensures
        state_after(n).new_page == ((n as int) % (MAX_ROWS_PER_PAGE as int) == 0),
{
    lemma_rows_per_page();
    let r = MAX_ROWS_PER_PAGE as int;
    if n >= 1 {
        lemma_state_after(n);
        let q = (n - 1) / r;
        let m = (n - 1) % r;
        lemma_fundamental_div_mod(n - 1, r);
        if m + 1 == r {
            lemma_fundamental_div_mod_converse(n as int, r, q + 1, 0);
        } else {
            lemma_fundamental_div_mod_converse(n as int, r, q, m + 1);
        }
    }
}

/// Placing `n` rows from the start writes `ceil(n / R)` page headers, `R`
/// being the rows on a page: none for no row.
pub proof fn lemma_header_count(n: nat)
    ensures
        headers_written(n) == (n + MAX_ROWS_PER_PAGE - 1) / (MAX_ROWS_PER_PAGE as int),
    decreases n,
{
    lemma_rows_per_page();
    let r = MAX_ROWS_PER_PAGE as int;
    if n == 0 {
        assert((r - 1) / r == 0);
    } else {
        let k = (n - 1) as nat;
        lemma_header_count(k);
        lemma_new_page_at(k);
        let q = (k as int) / r;
        let m = (k as int) % r;
        lemma_fundamental_div_mod(k as int, r);
        if m == 0 {
            lemma_fundamental_div_mod_converse(k + r - 1, r, q, r - 1);
            lemma_fundamental_div_mod_converse(n + r - 1, r, q + 1, 0);
        } else {
            lemma_fundamental_div_mod_converse(k + r - 1, r, q + 1, m - 1);
            lemma_fundamental_div_mod_converse(n + r - 1, r, q + 1, m);
        }
    }
}

/// Placing segments with `run` from the start reaches the same state as
/// placing that many rows one by one, whatever the segments hold.
pub proof fn lemma_run_state(t: Seq<(u32, Seq<u32>)>, segs: Seq<Seq<char>>)
    ensures
        run(Paginator::initial(), t, segs).0 == state_after(segs.len()),
    decreases segs.len(),
{
    if segs.len() > 0 {
        lemma_run_state(t, segs.drop_last());
    }
}

/// What the document holds for the row of segment `k` (from 0) with encoded
/// text `body`: at each multiple of `R` rows, the previous page ends (unless
/// `k` is 0) and the page numbered `k / R + 1` is opened; then the row is shown
/// at the baseline `R`'s remainder of `k` rows below the first.
pub open spec fn row_piece(k: nat, body: Seq<char>) -> Seq<char> {
    let r = MAX_ROWS_PER_PAGE as int;
    (if k as int % r == 0 {
        (if k > 0 {
            page_end_text()
        } else {
            Seq::empty()
        }) + header_text((k as int / r + 1) as nat)
    } else {
        Seq::empty()
    }) + row_text((FIRST_ROW_Y - (k as int % r) * ROW_HEIGHT) as nat, body)
}

/// The text placed for segment `k` of `segs` follows the text of the segments
/// before it and is `row_piece(k, ...)` of its encoding: page headers stand
/// exactly before rows `0, R, 2R, ...`, numbered 1, 2, 3, ... in order.
pub proof fn lemma_row_piece(t: Seq<(u32, Seq<u32>)>, segs: Seq<Seq<char>>, k: nat)
    requires
        k < segs.len(),
        segs.len() < u64::MAX,
    ensures
        run(Paginator::initial(), t, segs.take(k as int + 1)).1 == run(
            Paginator::initial(),
            t,
            segs.take(k as int),
        ).1 + row_piece(k, encode(t, segs[k as int])),
{
    lemma_rows_per_page();
    let r = MAX_ROWS_PER_PAGE as int;
    let front = segs.take(k as int + 1);
    assert(front.drop_last() =~= segs.take(k as int));
    assert(front.last() == segs[k as int]);
    lemma_run_state(t, segs.take(k as int));
    let st = state_after(k);
    let body = encode(t, segs[k as int]);
    assert(run(Paginator::initial(), t, front).1 == run(Paginator::initial(), t, segs.take(k as int)).1
        + st.next_text(body));
    if k == 0 {
        assert(st == Paginator::initial());
    } else {
        lemma_state_after(k);
        lemma_page_after(k);
        lemma_new_page_at(k);
        let q = (k - 1) / r;
        let m = (k - 1) % r;
        lemma_fundamental_div_mod(k - 1, r);
        if m + 1 == r {
            lemma_fundamental_div_mod_converse(k as int, r, q + 1, 0);
        } else {
            lemma_fundamental_div_mod_converse(k as int, r, q, m + 1);
        }
    }
    assert(st.next_text(body) == row_piece(k, body));
}

} // verus!
