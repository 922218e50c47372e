//! The station hash, and the search for the end of a name that computes it on
//! the way.

use vstd::prelude::*;
use vstd::std_specs::bits;

use crate::bytes;
use crate::bytes::SEMICOLON;

verus! {

/// Golden-ratio constant for both word mixing and Fibonacci index hashing.
pub const PHI: u64 = 0x9E37_79B9_7F4A_7C15;

// Word constants for locating a `;` byte inside a 64-bit word.
const SEMI: u64 = 0x3B3B_3B3B_3B3B_3B3B;

const LO: u64 = 0x0101_0101_0101_0101;

const HI: u64 = 0x8080_8080_8080_8080;

/// Folds one word into a hash.
pub open spec fn mix(h: u64, w: u64) -> u64 {
    (h ^ w).wrapping_mul(PHI)
}

/// Folds the words of `s` into `h`, the last one padded with zeros.
pub open spec fn hash_from(h: u64, s: Seq<u8>) -> u64
    decreases s.len(),
{
    if s.len() == 0 {
        h
    } else if s.len() <= 8 {
        mix(h, bytes::le_word(s))
    } else {
        hash_from(mix(h, bytes::le_word(s)), s.skip(8))
    }
}

/// The hash of a station name.
pub open spec fn name_hash(name: Seq<u8>) -> u64 {
    hash_from(0, name)
}

/// Folding eight bytes and then the rest is folding all of them.
proof fn lemma_hash_step(h: u64, s: Seq<u8>)
    requires
        8 <= s.len(),
    ensures
        hash_from(h, s) == hash_from(mix(h, bytes::le_word(s)), s.skip(8)),
{
    if s.len() == 8 {
        assert(s.skip(8).len() == 0);
    }
}

/// A word depends on the first eight bytes only.
proof fn lemma_word_prefix(s: Seq<u8>, t: Seq<u8>)
    requires
        s.len() >= 8,
        t.len() >= 8,
        s.take(8) == t.take(8),
    ensures
        bytes::le_word(s) == bytes::le_word(t),
{
    assert forall|i: int| 0 <= i < 8 implies bytes::byte_at(s, i) == bytes::byte_at(t, i) by {
        assert(s.take(8)[i] == s[i]);
        assert(t.take(8)[i] == t[i]);
    }
}

/// Hashes a name by folding its little-endian eight-byte words, the final
/// partial word padded with zeros.
#[inline]
pub fn hash_name(name: &[u8]) -> (h: u64)
    ensures
        h == name_hash(name@),
{
    let mut h: u64 = 0;
    let mut i: usize = 0;
    assert(name@.skip(0) =~= name@);
    while name.len() - i >= 8
        invariant
            i <= name@.len(),
            hash_from(h, name@.skip(i as int)) == name_hash(name@),
        decreases name@.len() - i,
    {
        proof {
            lemma_hash_step(h, name@.skip(i as int));
            assert(name@.skip(i as int).skip(8) =~= name@.skip(i + 8));
        }
        h = (h ^ bytes::load_word(name, i)).wrapping_mul(PHI);
        i += 8;
    }
    if i < name.len() {
        let w = bytes::load_word(name, i);
        h = (h ^ w).wrapping_mul(PHI);
    }
    h
}

/// The lowest set bit of `z` is at `t`.
pub proof fn lemma_lowest_bit(z: u64, t: u64)
    requires
        t < 64,
        (z >> t) & 1 == 1,
        z & (((1u64 << t) - 1) as u64) == 0,
    ensures
        bits::u64_trailing_zeros(z) == t,
{
    bits::axiom_u64_trailing_zeros(z);
    let r = bits::u64_trailing_zeros(z) as u64;
    assert(z != 0) by (bit_vector)
        requires
            t < 64,
            (z >> t) & 1 == 1,
    ;
    if r < t {
        assert(false) by (bit_vector)
            requires
                r < t < 64,
                (z >> r) & 1 == 1,
                z & (((1u64 << t) - 1) as u64) == 0,
        ;
    }
    if t < r {
        assert((z >> t) & 1u64 == 0u64);
    }
}

/// The marks that the search leaves: the high bit of every byte of `w` that is
/// a `;`, exact up to and including the first one.
spec fn semi_marks(w: u64) -> u64 {
    ((w ^ SEMI).wrapping_sub(LO)) & !(w ^ SEMI) & HI
}

proof fn lemma_wrapping_sub(m: u64)
    ensures
        m.wrapping_sub(LO) == (m - LO) as u64,
{
    assert((m - LO) as u64 == (if m - LO < 0 {
        (m - LO + 0x1_0000_0000_0000_0000) as u64
    } else {
        (m - LO) as u64
    })) by (bit_vector);
}

/// A word without `;` is left unmarked, and the lowest mark of any other is in
/// the byte of its first `;`.
proof fn lemma_semi_marks(b0: u8, b1: u8, b2: u8, b3: u8, b4: u8, b5: u8, b6: u8, b7: u8)
    ensures
        ({
            let z = semi_marks(bytes::word_of(b0, b1, b2, b3, b4, b5, b6, b7));
            let s = seq![b0, b1, b2, b3, b4, b5, b6, b7];
            &&& z == 0 <==> bytes::find(s, SEMICOLON) == 8
            &&& z != 0 ==> bits::u64_trailing_zeros(z) == 8 * bytes::find(s, SEMICOLON) + 7
        }),
{
    let w = bytes::word_of(b0, b1, b2, b3, b4, b5, b6, b7);
    let m = w ^ SEMI;
    lemma_wrapping_sub(m);
    let z = semi_marks(w);
    let s = seq![b0, b1, b2, b3, b4, b5, b6, b7];
    assert(z == ((m - LO) as u64) & !m & HI);
    assert({
        let m = bytes::word_of(b0, b1, b2, b3, b4, b5, b6, b7) ^ 0x3B3B_3B3B_3B3B_3B3B;
        let z = ((m - 0x0101_0101_0101_0101) as u64) & !m & 0x8080_8080_8080_8080;
        &&& b0 == 0x3B ==> (z >> 7) & 1 == 1 && z & 0x7f == 0
        &&& b0 != 0x3B && b1 == 0x3B ==> (z >> 15) & 1 == 1 && z & 0x7fff == 0
        &&& b0 != 0x3B && b1 != 0x3B && b2 == 0x3B ==> (z >> 23) & 1 == 1 && z & 0x7f_ffff == 0
        &&& b0 != 0x3B && b1 != 0x3B && b2 != 0x3B && b3 == 0x3B ==> (z >> 31) & 1 == 1 && z
            & 0x7fff_ffff == 0
        &&& b0 != 0x3B && b1 != 0x3B && b2 != 0x3B && b3 != 0x3B && b4 == 0x3B ==> (z >> 39) & 1
            == 1 && z & 0x7f_ffff_ffff == 0
        &&& b0 != 0x3B && b1 != 0x3B && b2 != 0x3B && b3 != 0x3B && b4 != 0x3B && b5 == 0x3B ==> (z
            >> 47) & 1 == 1 && z & 0x7fff_ffff_ffff == 0
        &&& b0 != 0x3B && b1 != 0x3B && b2 != 0x3B && b3 != 0x3B && b4 != 0x3B && b5 != 0x3B && b6
            == 0x3B ==> (z >> 55) & 1 == 1 && z & 0x7f_ffff_ffff_ffff == 0
        &&& b0 != 0x3B && b1 != 0x3B && b2 != 0x3B && b3 != 0x3B && b4 != 0x3B && b5 != 0x3B && b6
            != 0x3B && b7 == 0x3B ==> (z >> 63) & 1 == 1 && z & 0x7fff_ffff_ffff_ffff == 0
        &&& b0 != 0x3B && b1 != 0x3B && b2 != 0x3B && b3 != 0x3B && b4 != 0x3B && b5 != 0x3B && b6
            != 0x3B && b7 != 0x3B ==> z == 0
    }) by (bit_vector);
    assert((1u64 << 7) - 1 == 0x7f && (1u64 << 15) - 1 == 0x7fff && (1u64 << 23) - 1 == 0x7f_ffff
        && (1u64 << 31) - 1 == 0x7fff_ffff && (1u64 << 39) - 1 == 0x7f_ffff_ffff && (1u64 << 47) - 1
        == 0x7fff_ffff_ffff && (1u64 << 55) - 1 == 0x7f_ffff_ffff_ffff && (1u64 << 63) - 1
        == 0x7fff_ffff_ffff_ffff) by (bit_vector);
    bytes::lemma_find(s, SEMICOLON);
    let k = bytes::find(s, SEMICOLON);
    if k == 8 {
        assert(forall|i: int| 0 <= i < 8 ==> s[i] != SEMICOLON);
        assert(s[0] == b0 && s[1] == b1 && s[2] == b2 && s[3] == b3 && s[4] == b4 && s[5] == b5
            && s[6] == b6 && s[7] == b7);
        assert(z == 0);
    } else {
        assert(s[0] == b0 && s[1] == b1 && s[2] == b2 && s[3] == b3 && s[4] == b4 && s[5] == b5
            && s[6] == b6 && s[7] == b7);
        assert(s[k] == SEMICOLON);
        let t = (8 * k + 7) as u64;
        assert((z >> t) & 1 == 1 && z & (((1u64 << t) - 1) as u64) == 0);
        lemma_lowest_bit(z, t);
        bits::axiom_u64_trailing_zeros(z);
    }
}

/// Masking a word to its low `nb` bytes leaves the padded word of those bytes.
proof fn lemma_mask(s: Seq<u8>, nb: u64)
    requires
        nb <= s.len(),
        1 <= nb < 8,
    ensures
        bytes::le_word(s) & (!0u64 >> (((8 - nb) * 8) as u64)) == bytes::le_word(s.take(nb as int)),
{
    let (b0, b1, b2, b3, b4, b5, b6, b7) = (
        bytes::byte_at(s, 0),
        bytes::byte_at(s, 1),
        bytes::byte_at(s, 2),
        bytes::byte_at(s, 3),
        bytes::byte_at(s, 4),
        bytes::byte_at(s, 5),
        bytes::byte_at(s, 6),
        bytes::byte_at(s, 7),
    );
    assert({
        let w = bytes::word_of(b0, b1, b2, b3, b4, b5, b6, b7);
        &&& w & (!0u64 >> 56) == bytes::word_of(b0, 0, 0, 0, 0, 0, 0, 0)
        &&& w & (!0u64 >> 48) == bytes::word_of(b0, b1, 0, 0, 0, 0, 0, 0)
        &&& w & (!0u64 >> 40) == bytes::word_of(b0, b1, b2, 0, 0, 0, 0, 0)
        &&& w & (!0u64 >> 32) == bytes::word_of(b0, b1, b2, b3, 0, 0, 0, 0)
        &&& w & (!0u64 >> 24) == bytes::word_of(b0, b1, b2, b3, b4, 0, 0, 0)
        &&& w & (!0u64 >> 16) == bytes::word_of(b0, b1, b2, b3, b4, b5, 0, 0)
        &&& w & (!0u64 >> 8) == bytes::word_of(b0, b1, b2, b3, b4, b5, b6, 0)
    }) by (bit_vector);
    let t = s.take(nb as int);
    assert forall|i: int| 0 <= i < 8 implies #[trigger] bytes::byte_at(t, i) == if i < nb {
        s[i]
    } else {
        0
    } by {}
}

/// Finds the `;` that ends the name at `start` and hashes the name, eight
/// bytes at a time. Returns the position of the `;` and the hash, or nothing
/// if there is no `;`.
#[inline]
pub fn scan_name(buf: &[u8], start: usize) -> (r: Option<(usize, u64)>)
    requires
        start <= buf@.len(),
    ensures
        ({
            let n = bytes::find(buf@.skip(start as int), SEMICOLON);
            match r {
                Some((end, h)) => {
                    &&& end < buf@.len()
                    &&& end == start + n
                    &&& h == name_hash(buf@.subrange(start as int, end as int))
                },
                None => start + n == buf@.len(),
            }
        }),
{
    let ghost tail = buf@.skip(start as int);
    let ghost end = start + bytes::find(tail, SEMICOLON);
    let ghost name = buf@.subrange(start as int, end);
    proof {
        bytes::lemma_find(tail, SEMICOLON);
    }
    let mut h: u64 = 0;
    let mut i: usize = start;
    while i < buf.len()
        invariant
            start <= i <= buf.len(),
            i <= end || end == buf.len(),
            end <= buf.len(),
            tail == buf@.skip(start as int),
            end == start + bytes::find(tail, SEMICOLON),
            name == buf@.subrange(start as int, end),
            i <= end ==> hash_from(h, buf@.subrange(i as int, end)) == name_hash(name),
        decreases buf.len() - i,
    {
        let w = bytes::load_word(buf, i);
        let m = w ^ SEMI;
        let z = m.wrapping_sub(LO) & !m & HI;
        let ghost here = buf@.skip(i as int);
        let ghost rest = buf@.subrange(i as int, end);
        let ghost s = seq![
            bytes::byte_at(here, 0),
            bytes::byte_at(here, 1),
            bytes::byte_at(here, 2),
            bytes::byte_at(here, 3),
            bytes::byte_at(here, 4),
            bytes::byte_at(here, 5),
            bytes::byte_at(here, 6),
            bytes::byte_at(here, 7),
        ];
        proof {
            bytes::lemma_find(tail, SEMICOLON);
            lemma_semi_marks(s[0], s[1], s[2], s[3], s[4], s[5], s[6], s[7]);
            assert(z == semi_marks(w));
            assert(s =~= seq![s[0], s[1], s[2], s[3], s[4], s[5], s[6], s[7]]);
            bytes::lemma_find(s, SEMICOLON);
            assert forall|j: int| 0 <= j < 8 implies #[trigger] s[j] == bytes::byte_at(here, j) by {}
            assert forall|j: int| 0 <= j < 8 && i + j < end implies s[j] != SEMICOLON by {
                assert(tail[i + j - start] == s[j]);
            }
            if end < buf@.len() {
                assert(tail[end - start] == SEMICOLON);
            }
            if end - i < 8 && end < buf@.len() {
                assert(s[end - i] == SEMICOLON);
                bytes::lemma_find_is(s, SEMICOLON, end - i);
            } else {
                bytes::lemma_find_is(s, SEMICOLON, 8);
            }
        }
        if z != 0 {
            let tz = z.trailing_zeros();
            let nb = (tz >> 3) as usize;
            proof {
                let k = (end - i) as u32;
                assert((8 * k + 7) as u32 >> 3 == k) by (bit_vector)
                    requires
                        k < 8,
                ;
                assert(nb == end - i);
            }
            if nb != 0 {
                let mask = !0u64 >> ((8 - nb) * 8);
                proof {
                    lemma_mask(here, nb as u64);
                    assert(here.take(nb as int) =~= rest);
                }
                h = (h ^ (w & mask)).wrapping_mul(PHI);
            }
            return Some((i + nb, h));
        }
        if buf.len() - i < 8 {
            return None;
        }
        proof {
            if i + 8 <= end {
                lemma_hash_step(h, rest);
                assert(rest.take(8) =~= here.take(8));
                lemma_word_prefix(rest, here);
                assert(rest.skip(8) =~= buf@.subrange(i + 8, end));
            }
        }
        h = (h ^ w).wrapping_mul(PHI);
        i += 8;
    }
    None
}

} // verus!
