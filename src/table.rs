//! The CID table: which Unicode code points each glyph of the font renders,
//! loaded from a tab-separated resource and searched first match first.
use vstd::prelude::*;
use crate::cidmap::make_cid_mapping_list;
use crate::text::{parse_u32, parse_u32_spec, split_chars, split_spec};

verus! {

/// One glyph of the font and the code points that render as it.
pub struct CidEntry {
    pub cid: u32,
    pub unicodes: Vec<u32>,
}

/// The entries of the table, in the order of the resource; the first entry
/// that lists a code point decides its CID.
pub struct CidTable {
    pub entries: Vec<CidEntry>,
}

/// Number of tab-separated columns in a record of the resource.
pub const COLUMNS: usize = 32;

/// Column holding the decimal CID.
pub const CID_COLUMN: usize = 0;

/// Column holding the comma-separated hexadecimal code points.
pub const UNICODE_COLUMN: usize = 20;

/// The code points that the hexadecimal tokens `toks` spell, tokens that do not
/// parse left out.
pub open spec fn hex_list(toks: Seq<Seq<char>>) -> Seq<u32>
    decreases toks.len(),
{
    if toks.len() == 0 {
        Seq::empty()
    } else {
        let prev = hex_list(toks.drop_last());
        match parse_u32_spec(toks.last(), 16) {
            Some(v) => prev.push(v),
            None => prev,
        }
    }
}

/// Whether a Unicode column says that the glyph has no code point.
pub open spec fn unassigned(col: Seq<char>) -> bool {
    col.len() == 0 || col == seq!['*']
}

/// The entry that one record of the resource gives, as a CID and its code
/// points: none where the record has not exactly 32 columns or its Unicode
/// column is empty or `*`; a CID that does not parse reads as 0.
pub open spec fn record_entry(line: Seq<char>) -> Option<(u32, Seq<u32>)> {
    let cols = split_spec(line, '\t');
    if cols.len() != COLUMNS || unassigned(cols[UNICODE_COLUMN as int]) {
        None
    } else {
        Some(
            (
                parse_u32_spec(cols[CID_COLUMN as int], 10).unwrap_or(0),
                hex_list(split_spec(cols[UNICODE_COLUMN as int], ',')),
            ),
        )
    }
}

/// The entries that the records `lines` give, in order.
pub open spec fn records_entries(lines: Seq<Seq<char>>) -> Seq<(u32, Seq<u32>)>
    decreases lines.len(),
{
    if lines.len() == 0 {
        Seq::empty()
    } else {
        let prev = records_entries(lines.drop_last());
        match record_entry(lines.last()) {
            Some(e) => prev.push(e),
            None => prev,
        }
    }
}

/// The entries of the table that the resource `text` describes, one record per line.
pub open spec fn table_of_text(text: Seq<char>) -> Seq<(u32, Seq<u32>)> {
    records_entries(split_spec(text, '\n'))
}

/// The CID and code points of each entry.
pub open spec fn entries_view(entries: Seq<CidEntry>) -> Seq<(u32, Seq<u32>)> {
    entries.map_values(|e: CidEntry| (e.cid, e.unicodes@))
}

/// The CID of the first entry that lists `u`, if one does.
pub open spec fn resolve_spec(t: Seq<(u32, Seq<u32>)>, u: u32) -> Option<u32>
    decreases t.len(),
{
    if t.len() == 0 {
        None
    } else if t[0].1.contains(u) {
        Some(t[0].0)
    } else {
        resolve_spec(t.drop_first(), u)
    }
}

/// Parses the comma-separated hexadecimal list `col`, dropping tokens that do not parse.
fn parse_hex_list(col: &[char]) -> (r: Vec<u32>)
    ensures
        r@ == hex_list(split_spec(col@, ',')),
{
    let toks = split_chars(col, ',');
    let mut r: Vec<u32> = Vec::new();
    let mut i: usize = 0;
    while i < toks.len()
        invariant
            0 <= i <= toks@.len(),
            toks@.len() == split_spec(col@, ',').len(),
            forall|k: int| 0 <= k < toks@.len() ==> #[trigger] toks@[k]@ == split_spec(col@, ',')[k],
            r@ == hex_list(split_spec(col@, ',').take(i as int)),
        decreases toks@.len() - i,
    {
        let ghost all = split_spec(col@, ',');
        assert(all.take(i as int + 1).drop_last() =~= all.take(i as int));
        assert(toks@[i as int]@ == all[i as int]);
        if let Some(v) = parse_u32(toks[i].as_slice(), 16) {
            r.push(v);
        }
        i = i + 1;
    }
    assert(split_spec(col@, ',').take(i as int) =~= split_spec(col@, ','));
    r
}

/// Reads one record of the resource.
pub fn parse_record(line: &[char]) -> (r: Option<CidEntry>)
    ensures
        r is Some <==> record_entry(line@) is Some,
        r is Some ==> (r->0.cid, r->0.unicodes@) == record_entry(line@)->0,
{
    let cols = split_chars(line, '\t');
    if cols.len() != COLUMNS {
        return None;
    }
    let ghost spec_cols = split_spec(line@, '\t');
    assert(cols@[UNICODE_COLUMN as int]@ == spec_cols[UNICODE_COLUMN as int]);
    assert(cols@[CID_COLUMN as int]@ == spec_cols[CID_COLUMN as int]);
    let ucol = cols[UNICODE_COLUMN].as_slice();
    if ucol.len() == 0 {
        return None;
    }
    if ucol.len() == 1 && ucol[0] == '*' {
        assert(ucol@ =~= seq!['*']);
        return None;
    }
    let cid = match parse_u32(cols[CID_COLUMN].as_slice(), 10) {
        Some(c) => c,
        None => 0,
    };
    let unicodes = parse_hex_list(ucol);
    Some(CidEntry { cid, unicodes })
}

impl CidTable {
    /// A table of the given entries, in their order.
    pub fn from_entries(entries: Vec<CidEntry>) -> (t: CidTable)
        ensures
            entries_view(t.entries@) == entries_view(entries@),
    {
        CidTable { entries }
    }

    /// Loads the table from the resource `text`, one record per line, records
    /// that give no entry skipped.
    pub fn load(text: &str) -> (t: CidTable)
        ensures
            entries_view(t.entries@) == table_of_text(text@),
    {
        CidTable { entries: make_cid_mapping_list(text) }
    }

    /// The CID of the first entry that lists `ch`, if any does.
    pub fn resolve(&self, ch: char) -> (r: Option<u32>)
        ensures
            r == resolve_spec(entries_view(self.entries@), ch as u32),
    {
        let u = ch as u32;
        let ghost t = entries_view(self.entries@);
        let mut i: usize = 0;
        assert(t.skip(0) =~= t);
        while i < self.entries.len()
            invariant
                0 <= i <= self.entries@.len(),
                t == entries_view(self.entries@),
                resolve_spec(t, u) == resolve_spec(t.skip(i as int), u),
                u == ch as u32,
            decreases self.entries@.len() - i,
        {
            let e = &self.entries[i];
            assert(t.skip(i as int)[0] == (e.cid, e.unicodes@));
            assert(t.skip(i as int).drop_first() =~= t.skip(i as int + 1));
            let mut j: usize = 0;
            while j < e.unicodes.len()
                invariant
                    0 <= j <= e.unicodes@.len(),
                    0 <= i < self.entries@.len(),
                    t == entries_view(self.entries@),
                    e == self.entries@[i as int],
                    t.skip(i as int)[0] == (e.cid, e.unicodes@),
                    resolve_spec(t, u) == resolve_spec(t.skip(i as int), u),
                    u == ch as u32,
                    forall|k: int| 0 <= k < j ==> e.unicodes@[k] != u,
                decreases e.unicodes@.len() - j,
            {
                if e.unicodes[j] == u {
                    assert(e.unicodes@.contains(u)) by {
                        assert(e.unicodes@[j as int] == u);
                    }
                    assert(t.skip(i as int).len() > 0);
                    assert(resolve_spec(t.skip(i as int), u) == Some(e.cid));
                    return Some(e.cid);
                }
                j = j + 1;
            }
            assert(!e.unicodes@.contains(u));
            i = i + 1;
        }
        None
    }
}

/// When two entries list the same code point, the earlier one decides its CID.
pub proof fn lemma_first_match_wins(t: Seq<(u32, Seq<u32>)>, u: u32, i: int, j: int)
    requires
        0 <= i < j < t.len(),
        t[i].1.contains(u),
        t[j].1.contains(u),
        forall|k: int| 0 <= k < i ==> !(#[trigger] t[k].1.contains(u)),
    ensures
        resolve_spec(t, u) == Some(t[i].0),
    decreases i,
{
    if i > 0 {
        assert(!t[0].1.contains(u));
        let rest = t.drop_first();
        assert forall|k: int| 0 <= k < i - 1 implies !(#[trigger] rest[k].1.contains(u)) by {
            assert(rest[k] == t[k + 1]);
        }
        lemma_first_match_wins(rest, u, i - 1, j - 1);
    }
}

/// A code point that no entry lists resolves to nothing.
pub proof fn lemma_unlisted_unresolved(t: Seq<(u32, Seq<u32>)>, u: u32)
    requires
        forall|k: int| 0 <= k < t.len() ==> !(#[trigger] t[k].1.contains(u)),
    ensures
        resolve_spec(t, u) is None,
    decreases t.len(),
{
    if t.len() > 0 {
        assert(!t[0].1.contains(u));
        let rest = t.drop_first();
        assert forall|k: int| 0 <= k < rest.len() implies !(#[trigger] rest[k].1.contains(u)) by {
            assert(rest[k] == t[k + 1]);
        }
        lemma_unlisted_unresolved(rest, u);
    }
}

} // verus!
