//! Lookup of CIDs in the mappings of a CMap: the first pair or range that
//! covers a code point decides.
use vstd::prelude::*;
use crate::cidmap::{cmap_of_text, read_cmap, CIDMapping};

verus! {

/// The mappings of a CMap, in the order of the resource.
pub struct Cidmap {
    vec: Vec<CIDMapping>,
}

impl View for Cidmap {
    type V = Seq<CIDMapping>;

    closed spec fn view(&self) -> Seq<CIDMapping> {
        self.vec@
    }
}

/// The CID of `u` by the first mapping of `v` that covers it: a pair's CID, or
/// a range's first CID advanced by `u`'s offset in the range (wrapping in 32
/// bits); 0 where none covers it.
pub open spec fn cid_of(v: Seq<CIDMapping>, u: u32) -> u32
    decreases v.len(),
{
    if v.len() == 0 {
        0
    } else {
        match v[0] {
            CIDMapping::Pair(p) => if p.utf32 == u {
                p.cid
            } else {
                cid_of(v.drop_first(), u)
            },
            CIDMapping::Range(r) => if r.begin_utf32 <= u && u <= r.end_utf32 {
                r.cid.wrapping_add((u - r.begin_utf32) as u32)
            } else {
                cid_of(v.drop_first(), u)
            },
        }
    }
}

impl Cidmap {
    /// Reads the mappings of the CMap `text`.
    pub fn new(text: &str) -> (m: Cidmap)
        ensures
            m@ == cmap_of_text(text@),
    {
        Cidmap { vec: read_cmap(text) }
    }

    /// The CID of `c`, 0 where no mapping covers it.
    pub fn get_cid(&self, c: char) -> (r: u32)
        ensures
            r == cid_of(self@, c as u32),
    {
        let u = c as u32;
        let mut i: usize = 0;
        assert(self.vec@.skip(0) =~= self.vec@);
        while i < self.vec.len()
            invariant
                0 <= i <= self.vec@.len(),
                u == c as u32,
                cid_of(self.vec@, u) == cid_of(self.vec@.skip(i as int), u),
            decreases self.vec@.len() - i,
        {
            let ghost rest = self.vec@.skip(i as int);
            assert(rest[0] == self.vec@[i as int]);
            assert(rest.drop_first() =~= self.vec@.skip(i as int + 1));
            match &self.vec[i] {
                CIDMapping::Pair(p) => {
                    if p.utf32 == u {
                        return p.cid;
                    }
                },
                CIDMapping::Range(r) => {
                    if r.begin_utf32 <= u && u <= r.end_utf32 {
                        return r.cid.wrapping_add(u - r.begin_utf32);
                    }
                },
            }
            i = i + 1;
        }
        0
    }
}

/// Whether the mapping `m` covers the code point `u`.
pub open spec fn covers(m: CIDMapping, u: u32) -> bool {
    match m {
        CIDMapping::Pair(p) => p.utf32 == u,
        CIDMapping::Range(r) => r.begin_utf32 <= u && u <= r.end_utf32,
    }
}

/// The CID that the mapping `m` gives the code point `u` it covers.
pub open spec fn mapped_cid(m: CIDMapping, u: u32) -> u32 {
    match m {
        CIDMapping::Pair(p) => p.cid,
        CIDMapping::Range(r) => r.cid.wrapping_add((u - r.begin_utf32) as u32),
    }
}

/// When several mappings cover a code point, the first of them decides its
/// CID; a later one never does.
pub proof fn lemma_first_mapping_wins(v: Seq<CIDMapping>, u: u32, i: int, j: int)
    requires
        0 <= i < j < v.len(),
        covers(v[i], u),
        covers(v[j], u),
        forall|k: int| 0 <= k < i ==> !covers(#[trigger] v[k], u),
    ensures
        cid_of(v, u) == mapped_cid(v[i], u),
    decreases i,
{
    if i > 0 {
        assert(!covers(v[0], u));
        let rest = v.drop_first();
        assert forall|k: int| 0 <= k < i - 1 implies !covers(#[trigger] rest[k], u) by {
            assert(rest[k] == v[k + 1]);
        }
        lemma_first_mapping_wins(rest, u, i - 1, j - 1);
    }
}

} // verus!
