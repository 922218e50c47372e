//! What bytes, words and temperatures mean, in terms of bytes and numbers
//! alone.

use vstd::prelude::*;

use crate::bytes;
use crate::hash;
use crate::table;
use crate::temperature;

verus! {

/// Law: `find` is the place of the first occurrence, or the length.
pub proof fn law_find(s: Seq<u8>, b: u8, k: int)
    ensures
        bytes::find(s, b) == k <==> {
            &&& 0 <= k <= s.len()
            &&& forall|i: int| 0 <= i < k ==> s[i] != b
            &&& k < s.len() ==> s[k] == b
        },
{
    bytes::lemma_find(s, b);
    if 0 <= k <= s.len() && (forall|i: int| 0 <= i < k ==> s[i] != b) && (k < s.len() ==> s[k]
        == b) {
        bytes::lemma_find_is(s, b, k);
    }
}

/// Law: a word is the number whose digits to the base 256 are its bytes,
/// lowest first, with zeros where there are none.
pub proof fn law_word(s: Seq<u8>)
    ensures
        ({
            let v = |i: int|
                if i < s.len() {
                    s[i] as int
                } else {
                    0
                };
            bytes::le_word(s) == v(0) + 0x100 * v(1) + 0x1_0000 * v(2) + 0x100_0000 * v(3)
                + 0x1_0000_0000 * v(4) + 0x100_0000_0000 * v(5) + 0x1_0000_0000_0000 * v(6)
                + 0x100_0000_0000_0000 * v(7)
        }),
{
    let (b0, b1, b2, b3, b4, b5, b6, b7) = (
        bytes::byte_at(s, 0),
        bytes::byte_at(s, 1),
        bytes::byte_at(s, 2),
        bytes::byte_at(s, 3),
        bytes::byte_at(s, 4),
        bytes::byte_at(s, 5),
        bytes::byte_at(s, 6),
        bytes::byte_at(s, 7),
    );
    assert(bytes::word_of(b0, b1, b2, b3, b4, b5, b6, b7) == b0 + 0x100 * b1 + 0x1_0000 * b2
        + 0x100_0000 * b3 + 0x1_0000_0000 * b4 + 0x100_0000_0000 * b5 + 0x1_0000_0000_0000 * b6
        + 0x100_0000_0000_0000 * b7) by (bit_vector);
}

/// Law: the bytes of a word are its digits to the base 256, lowest first.
pub proof fn law_word_bytes(w: u64)
    ensures
        ({
            let b = temperature::word_bytes(w);
            &&& b.len() == 8
            &&& w == b[0] + 0x100 * b[1] + 0x1_0000 * b[2] + 0x100_0000 * b[3] + 0x1_0000_0000
                * b[4] + 0x100_0000_0000 * b[5] + 0x1_0000_0000_0000 * b[6] + 0x100_0000_0000_0000
                * b[7]
        }),
{
    assert(w == (w as u8) + 0x100 * ((w >> 8) as u8) + 0x1_0000 * ((w >> 16) as u8) + 0x100_0000
        * ((w >> 24) as u8) + 0x1_0000_0000 * ((w >> 32) as u8) + 0x100_0000_0000 * ((w
        >> 40) as u8) + 0x1_0000_0000_0000 * ((w >> 48) as u8) + 0x100_0000_0000_0000 * ((w
        >> 56) as u8)) by (bit_vector);
}

/// Law: no bytes hash to zero, and up to eight more bytes behind whole words
/// are folded in as one word.
pub proof fn law_hash(a: Seq<u8>, more: Seq<u8>)
    requires
        a.len() % 8 == 0,
        1 <= more.len() <= 8,
    ensures
        hash::name_hash(Seq::empty()) == 0,
        hash::name_hash(a + more) == ((hash::name_hash(a) ^ bytes::le_word(more))
            * 0x9E37_79B9_7F4A_7C15) % 0x1_0000_0000_0000_0000,
{
    lemma_hash_append(0, a, more);
}

proof fn lemma_hash_append(h: u64, a: Seq<u8>, more: Seq<u8>)
    requires
        a.len() % 8 == 0,
        1 <= more.len() <= 8,
    ensures
        hash::hash_from(h, a + more) == hash::mix(hash::hash_from(h, a), bytes::le_word(more)),
    decreases a.len(),
{
    if a.len() == 0 {
        assert(a + more =~= more);
    } else {
        let next = hash::mix(h, bytes::le_word(a));
        let rest = a.skip(8);
        lemma_hash_append(next, rest, more);
        assert((a + more).skip(8) =~= rest + more);
        assert forall|i: int| 0 <= i < 8 implies bytes::byte_at(a, i) == bytes::byte_at(
            a + more,
            i,
        ) by {}
        assert(bytes::le_word(a) == bytes::le_word(a + more));
        assert(hash::hash_from(h, a) == hash::hash_from(next, rest)) by {
            if a.len() == 8 {
                assert(rest.len() == 0);
            }
        }
    }
}

/// Law: a search starts at the slot that the sixteen high bits of the mixed
/// hash give.
pub proof fn law_home(h: u64)
    ensures
        table::home(h) == ((h * 0x9E37_79B9_7F4A_7C15) % 0x1_0000_0000_0000_0000)
            / 0x1_0000_0000_0000,
        0 <= table::home(h) < 0x1_0000,
{
    let m = h.wrapping_mul(hash::PHI);
    assert(m >> 48 == m / 0x1_0000_0000_0000 && m >> 48 <= 0xffff) by (bit_vector);
}

/// Law: that many steps up, going round, lead from one slot to the other.
pub proof fn law_dist(from: int, to: int)
    requires
        0 <= from < 0x1_0000,
        0 <= to < 0x1_0000,
    ensures
        0 <= table::dist(from, to) < 0x1_0000,
        (from + table::dist(from, to)) % 0x1_0000 == to,
{
}

/// Law: a temperature can be read where there is a sign or none, a digit, a
/// point or a digit and any byte, and a digit, digits being no less than `0`.
pub proof fn law_readable(b: Seq<u8>)
    ensures
        ({
            let i: int = if b.len() > 0 && b[0] == 0x2D {
                1
            } else {
                0
            };
            temperature::readable(b) <==> {
                &&& b.len() >= i + 3
                &&& b[i] >= 0x30
                &&& (b[i + 1] == 0x2E && b[i + 2] >= 0x30) || (b[i + 1] >= 0x30 && b.len() >= i + 4
                    && b[i + 3] >= 0x30)
            }
        }),
{
}

/// Law: the value of a temperature is that of its digits, whatever follows,
/// and less than zero with a sign; it is a proper one if the digits are digits
/// and the point is a point.
pub proof fn law_temp_value(neg: bool, x: u8, y: u8, any: u8, z: u8, rest: Seq<u8>)
    requires
        0x30 <= x,
        0x30 <= y,
        0x30 <= z,
    ensures
        ({
            let sign: Seq<u8> = if neg {
                seq![0x2Du8]
            } else {
                Seq::empty()
            };
            let unit: int = if neg {
                -1
            } else {
                1
            };
            let short = sign + seq![x, 0x2Eu8, z] + rest;
            let long = sign + seq![x, y, any, z] + rest;
            &&& temperature::readable(short)
            &&& temperature::temp_value(short) == unit * (10 * (x - 0x30) + (z - 0x30))
            &&& temperature::temp_len(short) == sign.len() + 3
            &&& temperature::temp_prefix(short) <==> x <= 0x39 && z <= 0x39
            &&& temperature::is_temp(short) <==> x <= 0x39 && z <= 0x39 && rest.len() == 0
            &&& temperature::readable(long)
            &&& temperature::temp_value(long) == unit * (100 * (x - 0x30) + 10 * (y - 0x30) + (z
                - 0x30))
            &&& temperature::temp_len(long) == sign.len() + 4
            &&& temperature::temp_prefix(long) <==> x <= 0x39 && y <= 0x39 && z <= 0x39 && any
                == 0x2E
            &&& temperature::is_temp(long) <==> x <= 0x39 && y <= 0x39 && z <= 0x39 && any == 0x2E
                && rest.len() == 0
        }),
{
    let sign: Seq<u8> = if neg {
        seq![0x2Du8]
    } else {
        Seq::empty()
    };
    let i = sign.len() as int;
    let short = sign + seq![x, 0x2Eu8, z] + rest;
    let long = sign + seq![x, y, any, z] + rest;
    assert(short[i] == x && short[i + 1] == 0x2E && short[i + 2] == z);
    assert(long[i] == x && long[i + 1] == y && long[i + 2] == any && long[i + 3] == z);
    assert(short[0] == 0x2D <==> neg);
    assert(long[0] == 0x2D <==> neg);
}

/// Law: a temperature of a word is read from the four low bits of its digits,
/// which are told from the sign and the point by the bit above.
pub proof fn law_word_value(b: Seq<u8>)
    requires
        b.len() == 8,
    ensures
        ({
            let mark = |j: int| (b[j] / 16) % 2 == 0;
            let p = temperature::point(b);
            let d = |j: int|
                if j < 0 || (j == 0 && mark(0)) {
                    0
                } else {
                    (b[j] % 16) as int
                };
            let abs = (100 * d(p - 2) + 10 * d(p - 1) + d(p + 1)) % 1024;
            &&& 1 <= p <= 4
            &&& forall|j: int| 1 <= j < p ==> !#[trigger] mark(j)
            &&& p <= 3 ==> mark(p)
            &&& p <= 3 ==> temperature::word_value(b) == if mark(0) {
                -abs
            } else {
                abs
            }
        }),
{
    assert(forall|x: u8| #[trigger] (x & 0x10) == 0u8 <==> (x / 16) % 2 == 0) by (bit_vector);
    assert(forall|x: u8| #[trigger] (x & 0xF) == x % 16) by (bit_vector);
}

/// Law: less than ten degrees take one digit before the point, `0` below one,
/// and one behind it; there is a sign below zero and none at zero.
pub proof fn law_text_small(tenths: int)
    requires
        -100 < tenths < 100,
    ensures
        ({
            let abs = if tenths < 0 {
                -tenths
            } else {
                tenths
            };
            let digits = seq![(0x30 + abs / 10) as u8, 0x2Eu8, (0x30 + abs % 10) as u8];
            temperature::tenths_text(tenths) == if tenths < 0 {
                seq![0x2Du8] + digits
            } else {
                digits
            }
        }),
{
    let abs = if tenths < 0 {
        -tenths
    } else {
        tenths
    };
    let digits = seq![(0x30 + abs / 10) as u8, 0x2Eu8, (0x30 + abs % 10) as u8];
    let text = temperature::tenths_text(tenths);
    if tenths < 0 {
        assert(text =~= seq![0x2Du8] + digits);
    } else {
        assert(text =~= digits);
    }
}

/// Law: ten degrees and more are written as a tenth of them, with the point
/// moved behind its last digit and one digit more.
pub proof fn law_text_grows(abs: int, neg: bool)
    requires
        abs >= 100,
    ensures
        ({
            let whole = temperature::tenths_text(if neg {
                -abs
            } else {
                abs
            });
            let less = temperature::tenths_text(if neg {
                -(abs / 10)
            } else {
                abs / 10
            });
            let n = less.len() as int;
            &&& n >= 3
            &&& whole == less.take(n - 2) + seq![less[n - 1], 0x2Eu8, (0x30 + abs % 10) as u8]
        }),
{
    let whole = temperature::tenths_text(if neg {
        -abs
    } else {
        abs
    });
    let less = temperature::tenths_text(if neg {
        -(abs / 10)
    } else {
        abs / 10
    });
    let sign: Seq<u8> = if neg {
        seq![0x2Du8]
    } else {
        Seq::empty()
    };
    let n = less.len() as int;
    let tens = (abs / 10) as nat;
    lemma_decimal(tens / 10);
    let front = sign + temperature::decimal(tens / 10);
    assert(less =~= front + seq![0x2Eu8, (0x30 + tens % 10) as u8]);
    assert(less.take(n - 2) =~= front);
    assert(temperature::decimal(tens) =~= temperature::decimal(tens / 10) + seq![
        (0x30 + tens % 10) as u8,
    ]);
    assert(whole =~= front + seq![(0x30 + tens % 10) as u8, 0x2Eu8, (0x30 + abs % 10) as u8]);
}

/// Numerals are made of digits and start with zero only where they are zero.
proof fn lemma_decimal(n: nat)
    ensures
        temperature::decimal(n).len() >= 1,
        forall|i: int|
            0 <= i < temperature::decimal(n).len() ==> 0x30 <= #[trigger] temperature::decimal(n)[i]
                <= 0x39,
        temperature::decimal(n)[0] == 0x30 <==> n == 0,
        n >= 10 <==> temperature::decimal(n).len() >= 2,
    decreases n,
{
    if n >= 10 {
        lemma_decimal(n / 10);
    }
}

/// Law: the text of tenths has a sign if and only if they are less than zero,
/// then digits, a point and one more digit, and no zero in front of another
/// digit.
pub proof fn law_text_shape(tenths: int)
    ensures
        ({
            let t = temperature::tenths_text(tenths);
            let n = t.len() as int;
            let i: int = if tenths < 0 {
                1
            } else {
                0
            };
            &&& n >= i + 3
            &&& t[0] == 0x2D <==> tenths < 0
            &&& t[n - 2] == 0x2E
            &&& forall|k: int| i <= k < n && k != n - 2 ==> 0x30 <= #[trigger] t[k] <= 0x39
            &&& t[i] == 0x30 <==> -10 < tenths < 10
            &&& n == i + 3 <==> -100 < tenths < 100
        }),
{
    let abs = (if tenths < 0 {
        -tenths
    } else {
        tenths
    }) as nat;
    let i: int = if tenths < 0 {
        1
    } else {
        0
    };
    let t = temperature::tenths_text(tenths);
    let d = temperature::decimal(abs / 10);
    lemma_decimal(abs / 10);
    assert forall|k: int| i <= k < i + d.len() implies t[k] == d[k - i] by {}
    assert(t[i] == d[0]);
    assert forall|k: int| i <= k < t.len() && k != t.len() - 2 implies 0x30 <= #[trigger] t[k]
        <= 0x39 by {
        if k < i + d.len() {
            assert(t[k] == d[k - i]);
        }
    }
}

} // verus!
