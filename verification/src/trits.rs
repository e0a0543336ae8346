//! Packing of 32 balanced-ternary digits into one 64-bit word, two bits each.

use vstd::prelude::*;

verus! {

/// Bits used to store one trit.
pub const BITS_PER_TRIT: u32 = 2;
/// Width of a machine word.
pub const WORD_BITS: u32 = 64;
/// Trits that fit in one machine word.
pub const STATES_PER_U64: u32 = WORD_BITS / BITS_PER_TRIT;
/// Lanes of a GPU warp (one trit per lane).
pub const WARP_SIZE: u32 = 32;
/// Number of values a trit can take.
pub const TRINARY_ARITY: u32 = 3;
/// Storage gain of a packed trit over one byte per trit.
pub const DENSITY_GAIN_VS_U8: u32 = 8 / BITS_PER_TRIT;
/// Sector count of the crystal layout.
pub const CRYSTAL_SECTOR_COUNT: u32 = 6;
/// Streaming multiprocessors of the reference card.
pub const MEASURED_SM_COUNT_RTX5070: u32 = 48;

/// The two-bit field of `word` that holds trit number `i`.
pub open spec fn trit_at(word: u64, i: u64) -> u64 {
    (word >> (2 * i) as u64) & 3u64
}

proof fn lemma_pack_step(word: u64, c: u64, i: u64)
    requires
        i < 32,
        c < 3,
        word >> (2 * i) as u64 == 0,
    ensures
        forall|j: u64| j < i ==> #[trigger] trit_at(word | (c << (2 * i) as u64), j) == trit_at(word, j),
        trit_at(word | (c << (2 * i) as u64), i) == c,
        i + 1 < 32 ==> (word | (c << (2 * i) as u64)) >> (2 * (i + 1)) as u64 == 0,
{
    assert forall|j: u64| j < i implies #[trigger] trit_at(word | (c << (2 * i) as u64), j) == trit_at(word, j) by {
        assert(((word | (c << (2 * i) as u64)) >> (2 * j) as u64) & 3u64 == (word >> (2 * j) as u64) & 3u64) by (bit_vector)
            requires
                j < i,
                i < 32,
                c < 3,
        ;
    }
    assert(((word | (c << (2 * i) as u64)) >> (2 * i) as u64) & 3u64 == c) by (bit_vector)
        requires
            i < 32,
            c < 3,
            word >> (2 * i) as u64 == 0,
    ;
    if i + 1 < 32 {
        assert((word | (c << (2 * i) as u64)) >> (2 * (i + 1)) as u64 == 0) by (bit_vector)
            requires
                i + 1 < 32,
                c < 3,
                word >> (2 * i) as u64 == 0,
        ;
    }
}

/// `word` holds, in trit field `i`, code `i` of `codes` reduced modulo 3.
pub open spec fn packs_to(codes: Seq<u8>, word: u64) -> bool {
    &&& codes.len() == 32
    &&& forall|i: u64| i < 32 ==> #[trigger] trit_at(word, i) == (codes[i as int] % 3) as u64
}

/// `codes` lists the 32 trit fields of `word`, in order.
pub open spec fn unpacks_to(word: u64, codes: Seq<u8>) -> bool {
    &&& codes.len() == 32
    &&& forall|i: u64| i < 32 ==> #[trigger] trit_at(word, i) == codes[i as int] as u64
}

/// Every code is a valid trit code (0, 1 or 2).
pub open spec fn all_trit_codes(codes: Seq<u8>) -> bool {
    forall|i: int| 0 <= i < codes.len() ==> #[trigger] codes[i] < 3
}

/// Every trit field of `word` holds a valid code (the pattern `0b11` never occurs).
pub open spec fn all_fields_trits(word: u64) -> bool {
    forall|i: u64| i < 32 ==> #[trigger] trit_at(word, i) < 3
}

/// Packs 32 trit codes into one word: code `i` (taken modulo 3) goes to bits `2i..2i+2`.
pub fn pack_trits32(codes: &[u8; 32]) -> (word: u64)
    ensures
        packs_to(codes@, word),
{
    let mut word: u64 = 0;
    let mut i: usize = 0;
    assert(0u64 >> 0u64 == 0) by (bit_vector);
    while i < 32
        invariant
            0 <= i <= 32,
            codes@.len() == 32,
            forall|j: u64| j < i ==> #[trigger] trit_at(word, j) == (codes@[j as int] % 3) as u64,
            i < 32 ==> word >> (2 * i) as u64 == 0,
        decreases 32 - i,
    {
        let c: u64 = (codes[i] % 3) as u64;
        let sh: u64 = 2 * (i as u64);
        proof {
            lemma_pack_step(word, c, i as u64);
        }
        word = word | (c << sh);
        i = i + 1;
    }
    word
}

/// Unpacks the 32 two-bit fields of `word`, lowest field first.
pub fn unpack_trits32(word: u64) -> (codes: [u8; 32])
    ensures
        unpacks_to(word, codes@),
{
    let mut codes = [0u8; 32];
    let mut i: usize = 0;
    while i < 32
        invariant
            0 <= i <= 32,
            codes@.len() == 32,
            forall|j: u64| j < i ==> #[trigger] trit_at(word, j) == codes@[j as int] as u64,
        decreases 32 - i,
    {
        let sh: u64 = 2 * (i as u64);
        let f: u64 = (word >> sh) & 3;
        assert((word >> sh) & 3u64 <= 3) by (bit_vector);
        codes[i] = f as u8;
        i = i + 1;
    }
    codes
}

/// The word is the base-4 number whose digits are its trit fields, lowest
/// first: trit 0 is held in the two lowest bits, and trit `i + 1` of a word is
/// trit `i` of the word divided by 4.
pub proof fn lemma_trit_layout(word: u64, i: u64)
    requires
        i < 31,
    ensures
        trit_at(word, 0) == word % 4,
        trit_at(word, (i + 1) as u64) == trit_at(word / 4, i),
{
    assert((word >> 0u64) & 3u64 == word % 4) by (bit_vector);
    assert((word >> (2 * (i + 1)) as u64) & 3u64 == ((word / 4) >> (2 * i) as u64) & 3u64) by (bit_vector)
        requires
            i < 31,
    ;
}

/// A word is determined by its 32 trit fields.
pub proof fn lemma_word_determined_by_fields(w1: u64, w2: u64)
    requires
        forall|i: u64| i < 32 ==> #[trigger] trit_at(w1, i) == trit_at(w2, i),
    ensures
        w1 == w2,
{
    assert(trit_at(w1, 0) == trit_at(w2, 0));
    assert(trit_at(w1, 1) == trit_at(w2, 1));
    assert(trit_at(w1, 2) == trit_at(w2, 2));
    assert(trit_at(w1, 3) == trit_at(w2, 3));
    assert(trit_at(w1, 4) == trit_at(w2, 4));
    assert(trit_at(w1, 5) == trit_at(w2, 5));
    assert(trit_at(w1, 6) == trit_at(w2, 6));
    assert(trit_at(w1, 7) == trit_at(w2, 7));
    assert(trit_at(w1, 8) == trit_at(w2, 8));
    assert(trit_at(w1, 9) == trit_at(w2, 9));
    assert(trit_at(w1, 10) == trit_at(w2, 10));
    assert(trit_at(w1, 11) == trit_at(w2, 11));
    assert(trit_at(w1, 12) == trit_at(w2, 12));
    assert(trit_at(w1, 13) == trit_at(w2, 13));
    assert(trit_at(w1, 14) == trit_at(w2, 14));
    assert(trit_at(w1, 15) == trit_at(w2, 15));
    assert(trit_at(w1, 16) == trit_at(w2, 16));
    assert(trit_at(w1, 17) == trit_at(w2, 17));
    assert(trit_at(w1, 18) == trit_at(w2, 18));
    assert(trit_at(w1, 19) == trit_at(w2, 19));
    assert(trit_at(w1, 20) == trit_at(w2, 20));
    assert(trit_at(w1, 21) == trit_at(w2, 21));
    assert(trit_at(w1, 22) == trit_at(w2, 22));
    assert(trit_at(w1, 23) == trit_at(w2, 23));
    assert(trit_at(w1, 24) == trit_at(w2, 24));
    assert(trit_at(w1, 25) == trit_at(w2, 25));
    assert(trit_at(w1, 26) == trit_at(w2, 26));
    assert(trit_at(w1, 27) == trit_at(w2, 27));
    assert(trit_at(w1, 28) == trit_at(w2, 28));
    assert(trit_at(w1, 29) == trit_at(w2, 29));
    assert(trit_at(w1, 30) == trit_at(w2, 30));
    assert(trit_at(w1, 31) == trit_at(w2, 31));
    assert(w1 == w2) by (bit_vector)
        requires
            trit_at(w1, 0) == trit_at(w2, 0),
            trit_at(w1, 1) == trit_at(w2, 1),
            trit_at(w1, 2) == trit_at(w2, 2),
            trit_at(w1, 3) == trit_at(w2, 3),
            trit_at(w1, 4) == trit_at(w2, 4),
            trit_at(w1, 5) == trit_at(w2, 5),
            trit_at(w1, 6) == trit_at(w2, 6),
            trit_at(w1, 7) == trit_at(w2, 7),
            trit_at(w1, 8) == trit_at(w2, 8),
            trit_at(w1, 9) == trit_at(w2, 9),
            trit_at(w1, 10) == trit_at(w2, 10),
            trit_at(w1, 11) == trit_at(w2, 11),
            trit_at(w1, 12) == trit_at(w2, 12),
            trit_at(w1, 13) == trit_at(w2, 13),
            trit_at(w1, 14) == trit_at(w2, 14),
            trit_at(w1, 15) == trit_at(w2, 15),
            trit_at(w1, 16) == trit_at(w2, 16),
            trit_at(w1, 17) == trit_at(w2, 17),
            trit_at(w1, 18) == trit_at(w2, 18),
            trit_at(w1, 19) == trit_at(w2, 19),
            trit_at(w1, 20) == trit_at(w2, 20),
            trit_at(w1, 21) == trit_at(w2, 21),
            trit_at(w1, 22) == trit_at(w2, 22),
            trit_at(w1, 23) == trit_at(w2, 23),
            trit_at(w1, 24) == trit_at(w2, 24),
            trit_at(w1, 25) == trit_at(w2, 25),
            trit_at(w1, 26) == trit_at(w2, 26),
            trit_at(w1, 27) == trit_at(w2, 27),
            trit_at(w1, 28) == trit_at(w2, 28),
            trit_at(w1, 29) == trit_at(w2, 29),
            trit_at(w1, 30) == trit_at(w2, 30),
            trit_at(w1, 31) == trit_at(w2, 31),
    ;
}

/// Round trip: unpacking a word packed from valid trit codes gives back the codes.
pub proof fn lemma_unpack_after_pack(codes: Seq<u8>, word: u64, back: Seq<u8>)
    requires
        all_trit_codes(codes),
        packs_to(codes, word),
        unpacks_to(word, back),
    ensures
        back == codes,
{
    assert forall|k: int| 0 <= k < 32 implies back[k] == codes[k] by {
        assert(trit_at(word, k as u64) == back[k] as u64);
        assert(trit_at(word, k as u64) == (codes[k] % 3) as u64);
        assert(codes[k] < 3);
    }
    assert(back =~= codes);
}

/// Round trip the other way: packing the unpacked fields of a word gives back the
/// word exactly when none of its fields holds the pattern `0b11`.
pub proof fn lemma_pack_after_unpack(word: u64, codes: Seq<u8>, packed: u64)
    requires
        unpacks_to(word, codes),
        packs_to(codes, packed),
    ensures
        (packed == word) <==> all_fields_trits(word),
{
    if all_fields_trits(word) {
        assert forall|i: u64| i < 32 implies #[trigger] trit_at(packed, i) == trit_at(word, i) by {
            assert(trit_at(word, i) < 3);
            assert(trit_at(word, i) == codes[i as int] as u64);
        }
        lemma_word_determined_by_fields(packed, word);
    }
    if packed == word {
        assert forall|i: u64| i < 32 implies #[trigger] trit_at(word, i) < 3 by {
            assert(trit_at(packed, i) == (codes[i as int] % 3) as u64);
        }
    }
}

/// The integer part of the boot hardware self-check: packs the pattern
/// `0, 1, 2, 0, 1, 2, ...` into one word, unpacks it again and compares; also
/// checks that one word holds exactly one warp of trits.
/// Returns `(packed word, round trip ok, warp ok)`.
pub fn trit_pack_selftest() -> (r: (u64, bool, bool))
    ensures
        packs_to(Seq::new(32, |i: int| (i % 3) as u8), r.0),
        r.1,
        r.2,
{
    let mut codes = [0u8; 32];
    let mut i: usize = 0;
    while i < 32
        invariant
            0 <= i <= 32,
            codes@.len() == 32,
            forall|j: int| 0 <= j < i ==> #[trigger] codes@[j] == (j % 3) as u8,
        decreases 32 - i,
    {
        codes[i] = (i % 3) as u8;
        i = i + 1;
    }
    assert(codes@ =~= Seq::new(32, |i: int| (i % 3) as u8));
    let word = pack_trits32(&codes);
    let back = unpack_trits32(word);
    proof {
        lemma_unpack_after_pack(codes@, word, back@);
    }
    let mut pack_ok = true;
    i = 0;
    while i < 32
        invariant
            0 <= i <= 32,
            back@ == codes@,
            codes@.len() == 32,
            pack_ok,
        decreases 32 - i,
    {
        if back[i] != codes[i] {
            pack_ok = false;
        }
        i = i + 1;
    }
    let warp_ok = STATES_PER_U64 == 32 && WARP_SIZE == 32;
    (word, pack_ok, warp_ok)
}

} // verus!
