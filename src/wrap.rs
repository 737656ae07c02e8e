//! Greedy wrapping of a line into segments that fit a row's display width.
use vstd::prelude::*;
use vstd::arithmetic::div_mod::{lemma_fundamental_div_mod, lemma_fundamental_div_mod_converse};
use crate::text::chars_of;

verus! {

/// Display width of a character: one column for ASCII, two for any other.
pub open spec fn char_width(c: char) -> nat {
    if (c as u32) < 128 {
        1
    } else {
        2
    }
}

/// The segments closed so far, the open segment, and its width, after the
/// characters `s` have been placed.
pub open spec fn wrap_state(s: Seq<char>, max_chars: nat) -> (Seq<Seq<char>>, Seq<char>, nat)
    decreases s.len(),
{
    if s.len() == 0 {
        (Seq::empty(), Seq::empty(), 0)
    } else {
        let (segs, buf, w) = wrap_state(s.drop_last(), max_chars);
        let c = s.last();
        if w + char_width(c) <= max_chars {
            (segs, buf.push(c), w + char_width(c))
        } else {
            (segs.push(buf), seq![c], char_width(c))
        }
    }
}

/// The segments of the line `s`: each character joins the open segment while
/// the segment's width stays within `max_chars`, and otherwise closes it and
/// opens the next; the open segment is closed at the end unless it is empty.
pub open spec fn wrap_spec(s: Seq<char>, max_chars: nat) -> Seq<Seq<char>> {
    let (segs, buf, w) = wrap_state(s, max_chars);
    if buf.len() > 0 {
        segs.push(buf)
    } else {
        segs
    }
}

/// Splits `line` into segments whose display width is at most `max_chars`
/// (a segment of one character excepted).
pub fn wrap(line: &str, max_chars: u32) -> (r: Vec<String>)
    ensures
        r@.len() == wrap_spec(line@, max_chars as nat).len(),
        forall|i: int| 0 <= i < r@.len() ==> #[trigger] r@[i]@ == wrap_spec(line@, max_chars as nat)[i],
{
    let cs = chars_of(line);
    let mut segs: Vec<String> = Vec::new();
    let mut buf = String::new();
    let mut width: u64 = 0;
    let mut i: usize = 0;
    while i < cs.len()
        invariant
            0 <= i <= cs@.len(),
            cs@ == line@,
            segs@.len() == wrap_state(line@.take(i as int), max_chars as nat).0.len(),
            forall|k: int| 0 <= k < segs@.len() ==> #[trigger] segs@[k]@ == wrap_state(
                line@.take(i as int),
                max_chars as nat,
            ).0[k],
            buf@ == wrap_state(line@.take(i as int), max_chars as nat).1,
            width == wrap_state(line@.take(i as int), max_chars as nat).2,
            width <= max_chars as nat + 2,
            (i > 0) == (buf@.len() > 0),
        decreases cs@.len() - i,
    {
        assert(line@.take(i as int + 1).drop_last() =~= line@.take(i as int));
        let ch = cs[i];
        let cw: u64 = if (ch as u32) < 128 {
            1
        } else {
            2
        };
        if width + cw <= max_chars as u64 {
            buf.push(ch);
            width = width + cw;
        } else {
            segs.push(buf);
            buf = String::new();
            buf.push(ch);
            width = cw;
        }
        i = i + 1;
        assert(buf@ =~= wrap_state(line@.take(i as int), max_chars as nat).1);
    }
    assert(line@.take(i as int) =~= line@);
    if cs.len() > 0 {
        segs.push(buf);
    }
    segs
}

/// Whether every character of `s` is ASCII.
pub open spec fn all_ascii(s: Seq<char>) -> bool {
    forall|i: int| 0 <= i < s.len() ==> (#[trigger] s[i] as u32) < 128
}

proof fn lemma_ascii_state(s: Seq<char>, m: nat)
    requires
        m >= 1,
        s.len() >= 1,
        all_ascii(s),
    ensures
        wrap_state(s, m).0.len() == (s.len() - 1) / (m as int),
        wrap_state(s, m).1.len() == (s.len() - 1) % (m as int) + 1,
        wrap_state(s, m).2 == wrap_state(s, m).1.len(),
        forall|k: int| 0 <= k < wrap_state(s, m).0.len() ==> (#[trigger] wrap_state(s, m).0[k]).len() == m,
        forall|k: int| 0 <= k < wrap_state(s, m).0.len() ==> #[trigger] wrap_state(s, m).0[k] == s.subrange(k * m, k * m + m),
        wrap_state(s, m).1 == s.subrange((wrap_state(s, m).0.len() * m) as int, s.len() as int),
    decreases s.len(),
{
    let mi = m as int;
    let p = s.drop_last();
    assert((s.last() as u32) < 128) by {
        assert(s.last() == s[s.len() - 1]);
    }
    if s.len() == 1 {
        assert(p.len() == 0);
        assert(wrap_state(p, m).2 == 0);
        assert(wrap_state(s, m).1 =~= s.subrange(0, 1));
    } else {
        assert(all_ascii(p)) by {
            assert forall|i: int| 0 <= i < p.len() implies (#[trigger] p[i] as u32) < 128 by {
                assert(p[i] == s[i]);
            }
        }
        lemma_ascii_state(p, m);
        let q = (p.len() - 1) / mi;
        let r = (p.len() - 1) % mi;
        lemma_fundamental_div_mod(p.len() - 1, mi);
        assert(0 <= r < mi);
        let ps = wrap_state(p, m);
        assert(q * mi == mi * q) by (nonlinear_arith);
        assert forall|k: int| 0 <= k < ps.0.len() implies #[trigger] ps.0[k] == s.subrange(k * mi, k * mi + mi) by {
            assert(k * mi + mi <= q * mi) by (nonlinear_arith)
                requires
                    0 <= k < q,
                    mi >= 1,
            ;
            assert(p.subrange(k * mi, k * mi + mi) =~= s.subrange(k * mi, k * mi + mi));
        }
        if r + 1 < mi {
            assert(s.len() - 1 == q * mi + (r + 1)) by (nonlinear_arith)
                requires
                    p.len() - 1 == mi * q + r,
                    s.len() == p.len() + 1,
            ;
            lemma_fundamental_div_mod_converse(s.len() - 1, mi, q, r + 1);
            assert(wrap_state(s, m).1 =~= s.subrange(q * mi, s.len() as int));
        } else {
            assert(s.len() - 1 == (q + 1) * mi + 0) by (nonlinear_arith)
                requires
                    p.len() - 1 == mi * q + r,
                    s.len() == p.len() + 1,
                    r + 1 == mi,
            ;
            lemma_fundamental_div_mod_converse(s.len() - 1, mi, q + 1, 0);
            assert((q + 1) * mi == q * mi + mi) by (nonlinear_arith);
            assert(ps.1 =~= s.subrange(q * mi, q * mi + mi));
            assert(wrap_state(s, m).1 =~= s.subrange((q + 1) * mi, s.len() as int));
            let st = wrap_state(s, m);
            assert forall|k: int| 0 <= k < st.0.len() implies #[trigger] st.0[k] == s.subrange(k * mi, k * mi + mi) by {
                if k < ps.0.len() {
                    assert(st.0[k] == ps.0[k]);
                } else {
                    assert(k == q);
                }
            }
        }
    }
}

/// An all-ASCII line of length `L` wraps at `M` columns into `ceil(L / M)`
/// segments, each of `M` characters but the last, which has at most `M`:
/// segment `k` is the slice of the line from `k * M` to `min(k * M + M, L)`.
pub proof fn lemma_ascii_wrap_count(s: Seq<char>, m: nat)
    requires
        m >= 1,
        all_ascii(s),
    ensures
        wrap_spec(s, m).len() == (s.len() + m - 1) / (m as int),
        forall|k: int| 0 <= k < wrap_spec(s, m).len() ==> (#[trigger] wrap_spec(s, m)[k]).len() <= m,
        forall|k: int| 0 <= k < wrap_spec(s, m).len() - 1 ==> (#[trigger] wrap_spec(s, m)[k]).len() == m,
        forall|k: int| 0 <= k < wrap_spec(s, m).len() ==> #[trigger] wrap_spec(s, m)[k] == s.subrange(
            k * m,
            if k * m + m <= s.len() { k * m + m } else { s.len() as int },
        ),
{
    let mi = m as int;
    if s.len() == 0 {
        assert(wrap_spec(s, m).len() == 0);
        assert((mi - 1) / mi == 0) by (nonlinear_arith)
            requires
                mi >= 1,
        ;
    } else {
        lemma_ascii_state(s, m);
        let q = (s.len() - 1) / mi;
        let r = (s.len() - 1) % mi;
        lemma_fundamental_div_mod(s.len() - 1, mi);
        assert(s.len() + mi - 1 == (q + 1) * mi + r) by (nonlinear_arith)
            requires
                s.len() - 1 == mi * q + r,
        ;
        lemma_fundamental_div_mod_converse(s.len() + mi - 1, mi, q + 1, r);
        let st = wrap_state(s, m);
        assert forall|k: int| 0 <= k < wrap_spec(s, m).len() implies (#[trigger] wrap_spec(
            s,
            m,
        )[k]).len() <= m by {
            if k < st.0.len() {
                assert(wrap_spec(s, m)[k] == st.0[k]);
            } else {
                assert(wrap_spec(s, m)[k] == st.1);
            }
        }
        assert forall|k: int| 0 <= k < wrap_spec(s, m).len() - 1 implies (#[trigger] wrap_spec(
            s,
            m,
        )[k]).len() == m by {
            assert(wrap_spec(s, m)[k] == st.0[k]);
        }
        assert(q * mi == mi * q) by (nonlinear_arith);
        assert forall|k: int| 0 <= k < wrap_spec(s, m).len() implies #[trigger] wrap_spec(s, m)[k]
            == s.subrange(k * mi, if k * mi + mi <= s.len() { k * mi + mi } else { s.len() as int }) by {
            if k < st.0.len() {
                assert(wrap_spec(s, m)[k] == st.0[k]);
                assert(k * mi + mi <= q * mi) by (nonlinear_arith)
                    requires
                        0 <= k < q,
                        mi >= 1,
                ;
            } else {
                assert(k == q);
                assert(wrap_spec(s, m)[k] == st.1);
            }
        }
    }
}

} // verus!
