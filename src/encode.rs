//! Turns text into the body of a PostScript string literal whose bytes are the
//! CIDs of its characters.
use vstd::prelude::*;
use crate::table::{entries_view, resolve_spec, CidTable};
use crate::text::{char_is_control, chars_of, is_control, octal_escape, push_octal_escape};

verus! {

/// Largest CID that two bytes can address.
pub const MAX_TWO_BYTE_CID: u32 = 0xFFFF;

/// Whether `c` delimits or escapes a PostScript string.
pub open spec fn is_string_meta(c: char) -> bool {
    c == '\\' || c == '(' || c == ')'
}

/// What stands for a character that the font cannot show.
pub open spec fn placeholder() -> Seq<char> {
    seq!['?', '?']
}

/// The literal text for one character: a backslash before a string
/// metacharacter, the placeholder for a control character or one without a
/// two-byte CID, else the CID's high and low bytes as octal escapes.
pub open spec fn encode_char(t: Seq<(u32, Seq<u32>)>, c: char) -> Seq<char> {
    if is_string_meta(c) {
        seq!['\\', c]
    } else if is_control(c) {
        placeholder()
    } else {
        match resolve_spec(t, c as u32) {
            Some(cid) => if cid <= MAX_TWO_BYTE_CID {
                octal_escape((cid / 256) as nat) + octal_escape((cid % 256) as nat)
            } else {
                placeholder()
            },
            None => placeholder(),
        }
    }
}

/// The literal text for `s`, character by character.
pub open spec fn encode(t: Seq<(u32, Seq<u32>)>, s: Seq<char>) -> Seq<char>
    decreases s.len(),
{
    if s.len() == 0 {
        Seq::empty()
    } else {
        encode(t, s.drop_last()) + encode_char(t, s.last())
    }
}

/// Encodes `s` for a PostScript string literal shown in the CID-keyed font.
pub fn escape_ps_string(table: &CidTable, s: &str) -> (r: String)
    ensures
        r@ == encode(entries_view(table.entries@), s@),
{
    let ghost t = entries_view(table.entries@);
    let cs = chars_of(s);
    let mut r = String::new();
    let mut i: usize = 0;
    while i < cs.len()
        invariant
            0 <= i <= cs@.len(),
            cs@ == s@,
            t == entries_view(table.entries@),
            r@ == encode(t, s@.take(i as int)),
        decreases cs@.len() - i,
    {
        assert(s@.take(i as int + 1).drop_last() =~= s@.take(i as int));
        let ch = cs[i];
        let ghost before = r@;
        if ch == '\\' || ch == '(' || ch == ')' {
            r.push('\\');
            r.push(ch);
        } else if char_is_control(ch) {
            r.push('?');
            r.push('?');
        } else {
            match table.resolve(ch) {
                Some(cid) => {
                    if cid <= MAX_TWO_BYTE_CID {
                        push_octal_escape(&mut r, cid / 256);
                        push_octal_escape(&mut r, cid % 256);
                    } else {
                        r.push('?');
                        r.push('?');
                    }
                },
                None => {
                    r.push('?');
                    r.push('?');
                },
            }
        }
        assert(r@ =~= before + encode_char(t, ch));
        i = i + 1;
    }
    assert(s@.take(i as int) =~= s@);
    r
}

/// Encoding a concatenation encodes each part in turn: no character's text
/// depends on its neighbours.
pub proof fn lemma_encode_concat(t: Seq<(u32, Seq<u32>)>, a: Seq<char>, b: Seq<char>)
    ensures
        encode(t, a + b) == encode(t, a) + encode(t, b),
    decreases b.len(),
{
    if b.len() == 0 {
        assert(a + b =~= a);
        assert(encode(t, a) + encode(t, b) =~= encode(t, a));
    } else {
        assert((a + b).drop_last() =~= a + b.drop_last());
        assert((a + b).last() == b.last());
        lemma_encode_concat(t, a, b.drop_last());
        assert(encode(t, a + b) =~= encode(t, a) + encode(t, b));
    }
}

/// The encoding of a single character is that character's text.
pub proof fn lemma_encode_single(t: Seq<(u32, Seq<u32>)>, c: char)
    ensures
        encode(t, seq![c]) == encode_char(t, c),
{
    assert(seq![c].drop_last() =~= Seq::<char>::empty());
    assert(seq![c].last() == c);
    assert(encode(t, Seq::<char>::empty()) == Seq::<char>::empty());
    assert(Seq::<char>::empty() + encode_char(t, c) =~= encode_char(t, c));
}

/// A backslash or parenthesis comes out preceded by exactly one backslash,
/// and inside any text it changes nothing around it.
pub proof fn lemma_meta_escaped(t: Seq<(u32, Seq<u32>)>, a: Seq<char>, c: char, b: Seq<char>)
    requires
        is_string_meta(c),
    ensures
        encode(t, a + seq![c] + b) == encode(t, a) + seq!['\\', c] + encode(t, b),
{
    lemma_encode_concat(t, a + seq![c], b);
    lemma_encode_concat(t, a, seq![c]);
    lemma_encode_single(t, c);
}

/// A control character becomes the placeholder, whatever the table holds.
pub proof fn lemma_control_placeholder(t: Seq<(u32, Seq<u32>)>, c: char)
    requires
        is_control(c),
    ensures
        encode(t, seq![c]) == placeholder(),
{
    lemma_encode_single(t, c);
}

/// A character that no entry lists, other than a string metacharacter,
/// resolves to nothing and becomes the placeholder.
pub proof fn lemma_unlisted_placeholder(t: Seq<(u32, Seq<u32>)>, c: char)
    requires
        !is_string_meta(c),
        forall|k: int| 0 <= k < t.len() ==> !(#[trigger] t[k].1.contains(c as u32)),
    ensures
        resolve_spec(t, c as u32) is None,
        encode(t, seq![c]) == placeholder(),
{
    crate::table::lemma_unlisted_unresolved(t, c as u32);
    lemma_encode_single(t, c);
}

/// The encoding of `s` is the encoding of each character in turn: around
/// character `i` stand the encodings of the characters before and after it.
pub proof fn lemma_encode_pieces(t: Seq<(u32, Seq<u32>)>, s: Seq<char>, i: int)
    requires
        0 <= i < s.len(),
    ensures
        encode(t, s) == encode(t, s.take(i)) + encode_char(t, s[i]) + encode(t, s.skip(i + 1)),
{
    assert(s =~= s.take(i) + seq![s[i]] + s.skip(i + 1));
    lemma_encode_concat(t, s.take(i) + seq![s[i]], s.skip(i + 1));
    lemma_encode_concat(t, s.take(i), seq![s[i]]);
    lemma_encode_single(t, s[i]);
}

/// A character other than a string metacharacter never comes through as
/// itself: it becomes the placeholder or two octal byte escapes.
pub proof fn lemma_encode_char_shape(t: Seq<(u32, Seq<u32>)>, c: char)
    requires
        !is_string_meta(c),
    ensures
        encode_char(t, c) == placeholder() || exists|hi: nat, lo: nat|
            hi < 256 && lo < 256 && encode_char(t, c) == #[trigger] octal_escape(hi) + #[trigger] octal_escape(lo),
{
    if !is_control(c) {
        if let Some(cid) = resolve_spec(t, c as u32) {
            if cid <= MAX_TWO_BYTE_CID {
                let hi = (cid / 256) as nat;
                let lo = (cid % 256) as nat;
                assert(hi < 256 && lo < 256);
                assert(encode_char(t, c) == octal_escape(hi) + octal_escape(lo));
            }
        }
    }
}

} // verus!
