//! Which files are envelopes of a Biome stream.

use vstd::prelude::*;

use crate::bytes::i32_at;
use crate::parsers::biome::segb::{file_problem, version_of, SegbError, SegbVersion};

verus! {

/// The letters `SEGB`, by which an envelope is known.
pub open spec fn letters() -> Seq<u8> {
    seq![0x53u8, 0x45, 0x47, 0x42]
}

proof fn lemma_letters(b: Seq<u8>, at: int)
    requires
        0 <= at,
        at + 4 <= b.len(),
    ensures
        b.subrange(at, at + 4) == letters() <==> b[at] == 0x53 && b[at + 1] == 0x45 && b[at + 2]
            == 0x47 && b[at + 3] == 0x42,
{
    let s = b.subrange(at, at + 4);
    assert(s[0] == b[at] && s[1] == b[at + 1] && s[2] == b[at + 2] && s[3] == b[at + 3]);
    if b[at] == 0x53 && b[at + 1] == 0x45 && b[at + 2] == 0x47 && b[at + 3] == 0x42 {
        assert(s =~= letters());
    }
}

/// An envelope of the first variant has its letters at the end of its header, one of the
/// second variant has them at the front; the first variant is looked for first.
pub proof fn lemma_variants(b: Seq<u8>)
    ensures
        version_of(b) == Some(SegbVersion::V1) <==> b.len() >= 56 && b.subrange(52, 56)
            == letters(),
        version_of(b) == Some(SegbVersion::V2) <==> b.len() >= 4 && b.subrange(0, 4) == letters()
            && !(b.len() >= 56 && b.subrange(52, 56) == letters()),
{
    if b.len() >= 4 {
        lemma_letters(b, 0);
    }
    if b.len() >= 56 {
        lemma_letters(b, 52);
    }
}

/// A file can be read as an envelope of the second variant if and only if it is long enough
/// for its header, has the letters at the front, and has room behind the header for as many
/// slots of its trailer as it says.
pub proof fn lemma_envelopes(b: Seq<u8>)
    ensures
        file_problem(b) is None <==> b.len() >= 32 && b.subrange(0, 4) == letters() && i32_at(b, 4)
            >= 0 && 32 + 16 * i32_at(b, 4) <= b.len(),
        match file_problem(b) {
            Some(SegbError::TooShort) => b.len() < 32,
            Some(SegbError::BadMagic { found }) => b.len() >= 32 && b.subrange(0, 4) != letters()
                && found == (b[0], b[1], b[2], b[3]),
            Some(SegbError::NegativeCount { count }) => i32_at(b, 4) < 0 && count == i32_at(b, 4),
            Some(SegbError::TrailerTooLarge { count }) => 16 * i32_at(b, 4) > b.len() && count
                == i32_at(b, 4),
            Some(SegbError::TrailerOverlapsHeader) => 16 * i32_at(b, 4) <= b.len() < 32 + 16
                * i32_at(b, 4),
            Some(SegbError::NotSegb) => false,
            None => true,
        },
{
    if b.len() >= 4 {
        lemma_letters(b, 0);
    }
}

} // verus!
