//! Bytes and the eight-byte words made of them.

use vstd::prelude::*;

verus! {

/// `;`, which ends a station name.
pub const SEMICOLON: u8 = 0x3B;

/// The byte that ends a line.
pub const NEWLINE: u8 = 0x0A;

/// Position of the first `b` in `s`, or the length of `s` if there is none.
pub open spec fn find(s: Seq<u8>, b: u8) -> int
    decreases s.len(),
{
    if s.len() == 0 || s[0] == b {
        0
    } else {
        1 + find(s.drop_first(), b)
    }
}

/// Nothing before `find` is `b`, and what stands there is.
pub proof fn lemma_find(s: Seq<u8>, b: u8)
    ensures
        0 <= find(s, b) <= s.len(),
        forall|i: int| 0 <= i < find(s, b) ==> s[i] != b,
        find(s, b) < s.len() ==> s[find(s, b)] == b,
    decreases s.len(),
{
    if s.len() != 0 && s[0] != b {
        let t = s.drop_first();
        lemma_find(t, b);
        assert forall|i: int| 0 <= i < find(s, b) implies s[i] != b by {
            if i > 0 {
                assert(t[i - 1] == s[i]);
            }
        }
    }
}

/// The position that `lemma_find` describes is the only one.
pub proof fn lemma_find_is(s: Seq<u8>, b: u8, k: int)
    requires
        0 <= k <= s.len(),
        forall|i: int| 0 <= i < k ==> s[i] != b,
        k < s.len() ==> s[k] == b,
    ensures
        find(s, b) == k,
{
    lemma_find(s, b);
    if find(s, b) < k {
        assert(s[find(s, b)] != b);
    } else if k < find(s, b) {
        assert(s[k] != b);
    }
}

/// Position of the first `b` in `s`, or the length of `s` if there is none.
pub fn position(s: &[u8], b: u8) -> (r: usize)
    ensures
        r == find(s@, b),
        0 <= r <= s@.len(),
{
    let mut i: usize = 0;
    while i < s.len() && s[i] != b
        invariant
            i <= s@.len(),
            forall|j: int| 0 <= j < i ==> s@[j] != b,
        decreases s@.len() - i,
    {
        i += 1;
    }
    proof {
        lemma_find_is(s@, b, i as int);
    }
    i
}

/// The byte at `i`, or zero past the end.
pub open spec fn byte_at(s: Seq<u8>, i: int) -> u8 {
    if 0 <= i < s.len() {
        s[i]
    } else {
        0
    }
}

/// The word whose bytes are these, lowest first.
pub open spec fn word_of(
    b0: u8,
    b1: u8,
    b2: u8,
    b3: u8,
    b4: u8,
    b5: u8,
    b6: u8,
    b7: u8,
) -> u64 {
    (b0 as u64) | (b1 as u64) << 8 | (b2 as u64) << 16 | (b3 as u64) << 24 | (b4 as u64) << 32 | (
    b5 as u64) << 40 | (b6 as u64) << 48 | (b7 as u64) << 56
}

/// The little-endian word of the first eight bytes of `s`, padded with zeros
/// where `s` is shorter.
pub open spec fn le_word(s: Seq<u8>) -> u64 {
    word_of(
        byte_at(s, 0),
        byte_at(s, 1),
        byte_at(s, 2),
        byte_at(s, 3),
        byte_at(s, 4),
        byte_at(s, 5),
        byte_at(s, 6),
        byte_at(s, 7),
    )
}

/// Reads the little-endian word at `i`, padded with zeros where `buf` ends
/// before it.
#[inline]
pub fn load_word(buf: &[u8], i: usize) -> (w: u64)
    requires
        i <= buf@.len(),
    ensures
        w == le_word(buf@.skip(i as int)),
{
    let rem = buf.len() - i;
    if rem >= 8 {
        return (buf[i] as u64) | (buf[i + 1] as u64) << 8 | (buf[i + 2] as u64) << 16 | (buf[i
            + 3] as u64) << 24 | (buf[i + 4] as u64) << 32 | (buf[i + 5] as u64) << 40 | (buf[i
            + 6] as u64) << 48 | (buf[i + 7] as u64) << 56;
    }
    let mut last = [0u8;8];
    let mut k: usize = 0;
    while k < rem
        invariant
            rem < 8,
            k <= rem,
            i + rem == buf.len(),
            last@.len() == 8,
            forall|j: int| 0 <= j < k ==> last@[j] == buf@[i + j],
            forall|j: int| k <= j < 8 ==> last@[j] == 0,
        decreases rem - k,
    {
        last[k] = buf[i + k];
        k += 1;
    }
    proof {
        let s = buf@.skip(i as int);
        assert forall|j: int| 0 <= j < 8 implies #[trigger] byte_at(s, j) == last@[j] by {}
    }
    (last[0] as u64) | (last[1] as u64) << 8 | (last[2] as u64) << 16 | (last[3] as u64) << 24 | (
    last[4] as u64) << 32 | (last[5] as u64) << 40 | (last[6] as u64) << 48 | (last[7] as u64) << 56
}

/// Whether two byte strings are equal.
#[inline]
pub fn same_bytes(a: &[u8], b: &[u8]) -> (r: bool)
    ensures
        r == (a@ == b@),
{
    if a.len() != b.len() {
        return false;
    }
    let mut i: usize = 0;
    while i < a.len()
        invariant
            i <= a@.len(),
            a@.len() == b@.len(),
            forall|j: int| 0 <= j < i ==> a@[j] == b@[j],
        decreases a@.len() - i,
    {
        if a[i] != b[i] {
            return false;
        }
        i += 1;
    }
    assert(a@ =~= b@);
    true
}

/// Appends `more` to `out`.
#[inline]
pub fn append(out: &mut Vec<u8>, more: &[u8])
    ensures
        final(out)@ == old(out)@ + more@,
{
    out.extend_from_slice(more);
    assert(out@ =~= old(out)@ + more@);
}

} // verus!
