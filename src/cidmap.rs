//! Readers of the Unicode-to-CID correspondence: the CID table resource, and
//! the CMap form with its `cidchar` pairs and `cidrange` ranges.
use vstd::prelude::*;
use crate::table::{entries_view, parse_record, record_entry, records_entries, table_of_text, CidEntry};
use crate::text::{chars_of, parse_u32, parse_u32_spec, split_chars, split_spec, split_words, words_spec};

verus! {

/// One code point and its CID.
#[derive(Clone, Copy)]
pub struct CIDChar {
    pub utf32: u32,
    pub cid: u32,
}

/// A run of code points whose CIDs follow on from `cid`.
#[derive(Clone, Copy)]
pub struct CIDRange {
    pub begin_utf32: u32,
    pub end_utf32: u32,
    pub cid: u32,
}

/// One line of a CMap section: a single code point, or a range of them.
#[derive(Clone, Copy)]
pub enum CIDMapping {
    Pair(CIDChar),
    Range(CIDRange),
}

/// `s` without a leading `<` and trailing `>` when it has both.
pub open spec fn trim_spec(s: Seq<char>) -> Seq<char> {
    if s.len() >= 2 && s[0] == '<' && s.last() == '>' {
        s.subrange(1, s.len() - 1)
    } else {
        s
    }
}

/// Removes the angle brackets round a hexadecimal code, when both are there.
pub fn trim_brackets(s: &[char]) -> (r: Vec<char>)
    ensures
        r@ == trim_spec(s@),
{
    let mut r: Vec<char> = Vec::new();
    let n = s.len();
    let (from, to) = if n >= 2 && s[0] == '<' && s[n - 1] == '>' {
        (1, n - 1)
    } else {
        (0, n)
    };
    let mut i: usize = from;
    while i < to
        invariant
            from <= i <= to <= n,
            n == s@.len(),
            r@ == s@.subrange(from as int, i as int),
        decreases to - i,
    {
        r.push(s[i]);
        i = i + 1;
        assert(r@ =~= s@.subrange(from as int, i as int));
    }
    assert(s@.subrange(0, n as int) =~= s@);
    r
}

/// The pair that a line of a `cidchar` section gives: `<hex> decimal`.
pub open spec fn cidchar_spec(line: Seq<char>) -> Option<CIDChar> {
    let cols = words_spec(line);
    if cols.len() == 2 {
        match (parse_u32_spec(trim_spec(cols[0]), 16), parse_u32_spec(cols[1], 10)) {
            (Some(u), Some(c)) => Some(CIDChar { utf32: u, cid: c }),
            _ => None,
        }
    } else {
        None
    }
}

/// The range that a line of a `cidrange` section gives: `<hex> <hex> decimal`.
pub open spec fn cidrange_spec(line: Seq<char>) -> Option<CIDRange> {
    let cols = words_spec(line);
    if cols.len() == 3 {
        match (
            parse_u32_spec(trim_spec(cols[0]), 16),
            parse_u32_spec(trim_spec(cols[1]), 16),
            parse_u32_spec(cols[2], 10),
        ) {
            (Some(b), Some(e), Some(c)) => Some(CIDRange { begin_utf32: b, end_utf32: e, cid: c }),
            _ => None,
        }
    } else {
        None
    }
}

/// Reads a line of a `cidchar` section.
pub fn parse_cidchar(line: &[char]) -> (r: Option<CIDChar>)
    ensures
        r == cidchar_spec(line@),
{
    let cols = split_words(line);
    if cols.len() == 2 {
        let col1 = trim_brackets(cols[0].as_slice());
        if let Some(u) = parse_u32(col1.as_slice(), 16) {
            if let Some(c) = parse_u32(cols[1].as_slice(), 10) {
                return Some(CIDChar { utf32: u, cid: c });
            }
        }
    }
    None
}

/// Reads a line of a `cidrange` section.
pub fn parse_cidrange(line: &[char]) -> (r: Option<CIDRange>)
    ensures
        r == cidrange_spec(line@),
{
    let cols = split_words(line);
    if cols.len() == 3 {
        let col1 = trim_brackets(cols[0].as_slice());
        let col2 = trim_brackets(cols[1].as_slice());
        if let Some(u1) = parse_u32(col1.as_slice(), 16) {
            if let Some(u2) = parse_u32(col2.as_slice(), 16) {
                if let Some(c) = parse_u32(cols[2].as_slice(), 10) {
                    return Some(CIDRange { begin_utf32: u1, end_utf32: u2, cid: c });
                }
            }
        }
    }
    None
}

/// Whether `pat` occurs in `s`.
pub open spec fn contains_spec(s: Seq<char>, pat: Seq<char>) -> bool {
    exists|i: int| 0 <= i && i + pat.len() <= s.len() && #[trigger] s.subrange(i, i + pat.len()) == pat
}

/// Decides `contains_spec`.
pub fn contains_chars(s: &[char], pat: &[char]) -> (r: bool)
    ensures
        r == contains_spec(s@, pat@),
{
    if pat.len() == 0 {
        assert(s@.subrange(0, 0int + pat@.len()) =~= pat@);
        return true;
    }
    if pat.len() > s.len() {
        return false;
    }
    let last = s.len() - pat.len();
    let mut i: usize = 0;
    while i <= last
        invariant
            1 <= pat@.len() <= s@.len() <= usize::MAX,
            last == s@.len() - pat@.len(),
            i <= last + 1,
            forall|k: int| 0 <= k < i ==> #[trigger] s@.subrange(k, k + pat@.len()) != pat@,
        decreases s@.len() + 1 - i,
    {
        let mut j: usize = 0;
        let mut same = true;
        while j < pat.len()
            invariant
                0 <= j <= pat@.len(),
                1 <= pat@.len() <= s@.len() <= usize::MAX,
                forall|k: int| 0 <= k < i ==> #[trigger] s@.subrange(k, k + pat@.len()) != pat@,
                i <= last,
                last == s@.len() - pat@.len(),
                same == (forall|k: int| 0 <= k < j ==> s@[i + k] == pat@[k]),
            decreases pat@.len() - j,
        {
            if s[i + j] != pat[j] {
                same = false;
            }
            j = j + 1;
        }
        if same {
            assert(s@.subrange(i as int, i + pat@.len()) =~= pat@);
            return true;
        }
        assert(s@.subrange(i as int, i + pat@.len()) != pat@) by {
            let k = choose|k: int| 0 <= k < pat@.len() && s@[i + k] != pat@[k];
            assert(s@.subrange(i as int, i + pat@.len())[k] == s@[i + k]);
        }
        i = i + 1;
    }
    false
}

/// Where the reader of a CMap stands: the mappings read so far, and whether it
/// is inside a `cidchar` and inside a `cidrange` section.
pub open spec fn cmap_state(lines: Seq<Seq<char>>) -> (Seq<CIDMapping>, bool, bool)
    decreases lines.len(),
{
    if lines.len() == 0 {
        (Seq::empty(), false, false)
    } else {
        let (v, in_char, in_range) = cmap_state(lines.drop_last());
        let line = lines.last();
        if contains_spec(line, "begincidchar"@) {
            (v, true, in_range)
        } else if contains_spec(line, "endcidchar"@) {
            (v, false, in_range)
        } else if contains_spec(line, "begincidrange"@) {
            (v, in_char, true)
        } else if contains_spec(line, "endcidrange"@) {
            (v, in_char, false)
        } else {
            let v1 = if in_char && cidchar_spec(line) is Some {
                v.push(CIDMapping::Pair(cidchar_spec(line)->0))
            } else {
                v
            };
            let v2 = if in_range && cidrange_spec(line) is Some {
                v1.push(CIDMapping::Range(cidrange_spec(line)->0))
            } else {
                v1
            };
            (v2, in_char, in_range)
        }
    }
}

/// The mappings of the CMap `text`, in order.
pub open spec fn cmap_of_text(text: Seq<char>) -> Seq<CIDMapping> {
    cmap_state(split_spec(text, '\n')).0
}

/// Reads the CID table resource `text`: one entry per record of 32
/// tab-separated columns whose Unicode column is neither empty nor `*`, in
/// the order of the records.
pub fn make_cid_mapping_list(text: &str) -> (r: Vec<CidEntry>)
    ensures
        entries_view(r@) == table_of_text(text@),
{
    let chars = chars_of(text);
    let lines = split_chars(chars.as_slice(), '\n');
    let ghost all = split_spec(text@, '\n');
    let mut entries: Vec<CidEntry> = Vec::new();
    let mut i: usize = 0;
    while i < lines.len()
        invariant
            0 <= i <= lines@.len(),
            lines@.len() == all.len(),
            forall|k: int| 0 <= k < lines@.len() ==> #[trigger] lines@[k]@ == all[k],
            entries_view(entries@) == records_entries(all.take(i as int)),
        decreases lines@.len() - i,
    {
        assert(all.take(i as int + 1).drop_last() =~= all.take(i as int));
        assert(lines@[i as int]@ == all[i as int]);
        let ghost before = entries@;
        if let Some(e) = parse_record(lines[i].as_slice()) {
            entries.push(e);
            assert(entries_view(entries@) =~= entries_view(before).push(
                record_entry(all[i as int])->0,
            ));
        }
        i = i + 1;
    }
    assert(all.take(i as int) =~= all);
    entries
}

/// Reads the `cidchar` pairs and `cidrange` ranges of the CMap `text`, in order.
pub(crate) fn read_cmap(text: &str) -> (r: Vec<CIDMapping>)
    ensures
        r@ == cmap_of_text(text@),
{
    let chars = chars_of(text);
    let lines = split_chars(chars.as_slice(), '\n');
    let ghost all = split_spec(text@, '\n');
    let begin_char = chars_of("begincidchar");
    let end_char = chars_of("endcidchar");
    let begin_range = chars_of("begincidrange");
    let end_range = chars_of("endcidrange");
    let mut v: Vec<CIDMapping> = Vec::new();
    let mut in_char = false;
    let mut in_range = false;
    let mut i: usize = 0;
    while i < lines.len()
        invariant
            0 <= i <= lines@.len(),
            lines@.len() == all.len(),
            forall|k: int| 0 <= k < lines@.len() ==> #[trigger] lines@[k]@ == all[k],
            begin_char@ == "begincidchar"@,
            end_char@ == "endcidchar"@,
            begin_range@ == "begincidrange"@,
            end_range@ == "endcidrange"@,
            (v@, in_char, in_range) == cmap_state(all.take(i as int)),
        decreases lines@.len() - i,
    {
        assert(all.take(i as int + 1).drop_last() =~= all.take(i as int));
        assert(lines@[i as int]@ == all[i as int]);
        let line = lines[i].as_slice();
        if contains_chars(line, begin_char.as_slice()) {
            in_char = true;
        } else if contains_chars(line, end_char.as_slice()) {
            in_char = false;
        } else if contains_chars(line, begin_range.as_slice()) {
            in_range = true;
        } else if contains_chars(line, end_range.as_slice()) {
            in_range = false;
        } else {
            if in_char {
                if let Some(m) = parse_cidchar(line) {
                    v.push(CIDMapping::Pair(m));
                }
            }
            if in_range {
                if let Some(m) = parse_cidrange(line) {
                    v.push(CIDMapping::Range(m));
                }
            }
        }
        i = i + 1;
    }
    assert(all.take(i as int) =~= all);
    v
}

} // verus!
