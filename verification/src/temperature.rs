//! Temperatures as text, `[-]?\d{1,2}\.\d`, and as fixed-point tenths.

use vstd::prelude::*;
use vstd::std_specs::bits;

use crate::bytes;
use crate::hash;

verus! {

pub const MINUS: u8 = 0x2D;

pub const DOT: u8 = 0x2E;

pub const ZERO: u8 = 0x30;

pub const NINE: u8 = 0x39;

/// Length of the sign, one or zero.
pub open spec fn sign_len(b: Seq<u8>) -> int {
    if b.len() > 0 && b[0] == MINUS {
        1
    } else {
        0
    }
}

/// Length of the temperature that starts `b`.
pub open spec fn temp_len(b: Seq<u8>) -> int {
    sign_len(b) + if b[sign_len(b) + 1] == DOT {
        3int
    } else {
        4int
    }
}

/// What a temperature is read from: digits where digits are due and any byte
/// for the point. Digits are only held to be no less than `0`.
pub open spec fn readable(b: Seq<u8>) -> bool {
    let i = sign_len(b);
    &&& b.len() >= temp_len(b)
    &&& b.len() >= i + 3
    &&& b[i] >= ZERO
    &&& b[i + 1] != DOT ==> b[i + 1] >= ZERO
    &&& b[temp_len(b) - 1] >= ZERO
}

/// The tenths that `b` is read as.
pub open spec fn temp_value(b: Seq<u8>) -> int {
    let i = sign_len(b);
    let whole = if b[i + 1] == DOT {
        b[i] - ZERO
    } else {
        (b[i] - ZERO) * 10 + (b[i + 1] - ZERO)
    };
    let abs = whole * 10 + (b[temp_len(b) - 1] - ZERO);
    if i == 1 {
        -abs
    } else {
        abs
    }
}

pub open spec fn is_digit(b: u8) -> bool {
    ZERO <= b <= NINE
}

/// Whether a temperature starts `b`.
pub open spec fn temp_prefix(b: Seq<u8>) -> bool {
    let i = sign_len(b);
    &&& b.len() >= temp_len(b)
    &&& b.len() >= i + 3
    &&& is_digit(b[i])
    &&& b[i + 1] == DOT || (is_digit(b[i + 1]) && b[i + 2] == DOT)
    &&& is_digit(b[temp_len(b) - 1])
}

/// Whether `b` is a temperature, from end to end.
pub open spec fn is_temp(b: Seq<u8>) -> bool {
    temp_prefix(b) && b.len() == temp_len(b)
}

/// Parses a temperature `[-]?\d{1,2}\.\d` into fixed-point tenths. What
/// follows the temperature is ignored.
#[inline]
pub fn parse_temp(b: &[u8]) -> (v: i16)
    requires
        readable(b@),
    ensures
        v == temp_value(b@),
{
    let mut i: usize = 0;
    let neg = b[0] == MINUS;
    if neg {
        i = 1;
    }
    let mut v: i16 = (b[i] - ZERO) as i16;
    i += 1;
    if b[i] != DOT {
        v = v * 10 + (b[i] - ZERO) as i16;
        i += 1;
    }
    i += 1;  // skip '.'
    v = v * 10 + (b[i] - ZERO) as i16;
    if neg {
        -v
    } else {
        v
    }
}

/// Whether a temperature can be read from the start of `b`.
pub fn check_value(b: &[u8]) -> (r: bool)
    ensures
        r == readable(b@),
{
    if b.len() < 3 {
        return false;
    }
    let i: usize = if b[0] == MINUS {
        1
    } else {
        0
    };
    let n: usize = if b[i + 1] == DOT {
        i + 3
    } else {
        i + 4
    };
    b.len() >= n && b[i] >= ZERO && (b[i + 1] == DOT || b[i + 1] >= ZERO) && b[n - 1] >= ZERO
}

/// What follows a temperature does not change how it is read.
pub proof fn lemma_temp_extended(t: Seq<u8>, b: Seq<u8>)
    requires
        is_temp(t),
        t.len() <= b.len(),
        b.take(t.len() as int) == t,
    ensures
        temp_prefix(b),
        temp_len(b) == t.len(),
        temp_value(b) == temp_value(t),
{
    assert forall|i: int| 0 <= i < t.len() implies b[i] == t[i] by {
        assert(b.take(t.len() as int)[i] == b[i]);
    }
}

/// Law: every temperature text is read, and as a value of at most 99.9
/// degrees either way.
pub proof fn law_temp_range(b: Seq<u8>)
    requires
        temp_prefix(b),
    ensures
        readable(b),
        -999 <= temp_value(b) <= 999,
{
}

/// The bytes of a word, lowest first.
pub open spec fn word_bytes(w: u64) -> Seq<u8> {
    seq![
        w as u8,
        (w >> 8) as u8,
        (w >> 16) as u8,
        (w >> 24) as u8,
        (w >> 32) as u8,
        (w >> 40) as u8,
        (w >> 48) as u8,
        (w >> 56) as u8,
    ]
}

/// The word read from bytes has these bytes, and zeros where there are none.
pub proof fn lemma_word_bytes(s: Seq<u8>)
    ensures
        word_bytes(bytes::le_word(s)) == Seq::new(8, |i: int| bytes::byte_at(s, i)),
{
    let (b0, b1, b2, b3, b4, b5, b6, b7) = (
        bytes::byte_at(s, 0),
        bytes::byte_at(s, 1),
        bytes::byte_at(s, 2),
        bytes::byte_at(s, 3),
        bytes::byte_at(s, 4),
        bytes::byte_at(s, 5),
        bytes::byte_at(s, 6),
        bytes::byte_at(s, 7),
    );
    assert({
        let w = bytes::word_of(b0, b1, b2, b3, b4, b5, b6, b7);
        &&& w as u8 == b0
        &&& (w >> 8) as u8 == b1
        &&& (w >> 16) as u8 == b2
        &&& (w >> 24) as u8 == b3
        &&& (w >> 32) as u8 == b4
        &&& (w >> 40) as u8 == b5
        &&& (w >> 48) as u8 == b6
        &&& (w >> 56) as u8 == b7
    }) by (bit_vector);
    assert(word_bytes(bytes::le_word(s)) =~= Seq::new(8, |i: int| bytes::byte_at(s, i)));
}

/// Law: a temperature is read from its word, padded with zeros where bytes
/// are missing, as it is read from its bytes.
pub proof fn law_parsers_agree(b: Seq<u8>)
    requires
        temp_prefix(b),
    ensures
        temp_prefix(word_bytes(bytes::le_word(b))),
        temp_len(word_bytes(bytes::le_word(b))) == temp_len(b),
        temp_value(word_bytes(bytes::le_word(b))) == temp_value(b),
{
    lemma_word_bytes(b);
}

/// The multiply that weighs three digits at once, in ten bits.
proof fn lemma_weigh(digits: u64)
    requires
        digits & 0x0000_000F_000F_0F00 == digits,
    ensures
        (digits.wrapping_mul(0x640a_0001) >> 32) & 0x3FF == (100 * ((digits >> 8) & 0xF) + 10 * ((
        digits >> 16) & 0xF) + ((digits >> 32) & 0xF)) % 1024,
{
    let p: u64 = digits.wrapping_mul(0x640a_0001);
    assert(p == (digits * 0x640a_0001) as u64) by {
        assert((digits * 0x640a_0001) as u64 == (digits * 0x640a_0001) % 0x1_0000_0000_0000_0000)
            by (bit_vector);
    }
    assert((p >> 32) & 0x3FF == (100 * ((digits >> 8) & 0xF) + 10 * ((digits >> 16) & 0xF) + ((
    digits >> 32) & 0xF)) % 1024) by (bit_vector)
        requires
            p == (digits * 0x640a_0001) as u64,
            digits & 0x0000_000F_000F_0F00 == digits,
    ;
}

/// Position of the point in a word of bytes: the first byte after the first
/// one that has bit 0x10 clear, as the point has and digits have not, or 4 if
/// none of three has.
pub open spec fn point(b: Seq<u8>) -> int {
    if b[1] & 0x10 == 0 {
        1
    } else if b[2] & 0x10 == 0 {
        2
    } else if b[3] & 0x10 == 0 {
        3
    } else {
        4
    }
}

/// Whether a word of bytes starts with a sign, which has bit 0x10 clear.
pub open spec fn signed(b: Seq<u8>) -> bool {
    b[0] & 0x10 == 0
}

/// The digit at position `j` of a word of bytes, zero for the sign and for
/// what stands before the first byte.
pub open spec fn digit(b: Seq<u8>, j: int) -> int {
    if j < 0 || (j == 0 && signed(b)) {
        0
    } else {
        (b[j] & 0xF) as int
    }
}

/// The tenths that a word of bytes is read as: two digits before the point and
/// one after it, in ten bits.
pub open spec fn word_value(b: Seq<u8>) -> int {
    let p = point(b);
    let abs = (100 * digit(b, p - 2) + 10 * digit(b, p - 1) + digit(b, p + 1)) % 1024;
    if signed(b) {
        -abs
    } else {
        abs
    }
}

/// A word that starts with a temperature is read as that temperature.
pub proof fn lemma_word_value(b: Seq<u8>)
    requires
        temp_prefix(b),
        b.len() == 8,
    ensures
        word_value(b) == temp_value(b),
        point(b) == temp_len(b) - 2,
{
    assert(forall|x: u8| 0x30 <= x <= 0x39 ==> #[trigger] (x & 0x10) == 0x10u8) by (bit_vector);
    assert(forall|x: u8| 0x30 <= x <= 0x39 ==> #[trigger] (x & 0xF) == x - 0x30) by (bit_vector);
    assert(0x2Du8 & 0x10 == 0 && 0x2Eu8 & 0x10 == 0) by (bit_vector);
}

/// The digits of a word whose point is at bit `dot`, each at the place where
/// the multiply expects it.
spec fn digits_at(word: u64, dot: u32) -> u64 {
    ((word & !((((!word << 59) as i64) >> 63) as u64 & 0xFF)) << (28 - dot) as u32)
        & 0x0000_000F_000F_0F00
}

/// The sign is read from bit 0x10 of the first byte, and the digits fall into
/// their places, the tens digit as zero where there is none.
proof fn lemma_digits(word: u64)
    requires
        point(word_bytes(word)) <= 3,
    ensures
        ({
            let b = word_bytes(word);
            let p = point(b);
            let digits = digits_at(word, (8 * p + 4) as u32);
            &&& ((!word << 59) as i64) >> 63 == if signed(b) {
                -1i64
            } else {
                0
            }
            &&& digits & 0x0000_000F_000F_0F00 == digits
            &&& (digits >> 8) & 0xF == digit(b, p - 2)
            &&& (digits >> 16) & 0xF == digit(b, p - 1)
            &&& (digits >> 32) & 0xF == digit(b, p + 1)
        }),
{
    let b = word_bytes(word);
    let (b0, b1, b2, b3, b4) = (b[0], b[1], b[2], b[3], b[4]);
    assert(forall|d: u32| #[trigger]
        digits_at(word, d) & 0x0000_000F_000F_0F00 == digits_at(word, d)) by {
        assert forall|d: u32| #[trigger]
            digits_at(word, d) & 0x0000_000F_000F_0F00 == digits_at(word, d) by {
            let x = (word & !((((!word << 59) as i64) >> 63) as u64 & 0xFF)) << (28 - d) as u32;
            assert((x & 0x0000_000F_000F_0F00) & 0x0000_000F_000F_0F00 == x
                & 0x0000_000F_000F_0F00) by (bit_vector);
        }
    }
    assert({
        let b0 = word as u8;
        let b1 = (word >> 8) as u8;
        let b2 = (word >> 16) as u8;
        let b3 = (word >> 24) as u8;
        let b4 = (word >> 32) as u8;
        let sg = ((!word << 59) as i64) >> 63;
        let d0 = if b0 & 0x10 == 0 {
            0u8
        } else {
            b0 & 0xF
        };
        let masked = word & !(sg as u64 & 0xFF);
        let d12 = (masked << 16u32) & 0x0000_000F_000F_0F00;
        let d20 = (masked << 8u32) & 0x0000_000F_000F_0F00;
        let d28 = (masked << 0u32) & 0x0000_000F_000F_0F00;
        &&& sg == if b0 & 0x10 == 0 {
            -1i64
        } else {
            0i64
        }
        &&& (d12 >> 8) & 0xF == 0
        &&& (d12 >> 16) & 0xF == d0
        &&& (d12 >> 32) & 0xF == b2 & 0xF
        &&& (d20 >> 8) & 0xF == d0
        &&& (d20 >> 16) & 0xF == b1 & 0xF
        &&& (d20 >> 32) & 0xF == b3 & 0xF
        &&& (d28 >> 8) & 0xF == b1 & 0xF
        &&& (d28 >> 16) & 0xF == b2 & 0xF
        &&& (d28 >> 32) & 0xF == b4 & 0xF
    }) by (bit_vector);
}

/// The mask leaves the bits that tell the point from a digit.
pub proof fn lemma_point(word: u64)
    ensures
        ({
            let z = !word & 0x1010_1000;
            let p = point(word_bytes(word));
            &&& z != 0 <==> p <= 3
            &&& p <= 3 ==> bits::u64_trailing_zeros(z) == 8 * p + 4
        }),
{
    let z = !word & 0x1010_1000;
    let p = point(word_bytes(word));
    assert({
        let z = !word & 0x1010_1000;
        let b1 = (word >> 8) as u8;
        let b2 = (word >> 16) as u8;
        let b3 = (word >> 24) as u8;
        &&& b1 & 0x10 == 0 ==> (z >> 12) & 1 == 1 && z & 0xfff == 0 && z != 0
        &&& b1 & 0x10 != 0 && b2 & 0x10 == 0 ==> (z >> 20) & 1 == 1 && z & 0xf_ffff == 0 && z != 0
        &&& b1 & 0x10 != 0 && b2 & 0x10 != 0 && b3 & 0x10 == 0 ==> (z >> 28) & 1 == 1 && z
            & 0xfff_ffff == 0 && z != 0
        &&& b1 & 0x10 != 0 && b2 & 0x10 != 0 && b3 & 0x10 != 0 ==> z == 0
    }) by (bit_vector);
    assert((1u64 << 12) - 1 == 0xfff && (1u64 << 20) - 1 == 0xf_ffff && (1u64 << 28) - 1
        == 0xfff_ffff) by (bit_vector);
    if p <= 3 {
        hash::lemma_lowest_bit(z, (8 * p + 4) as u64);
    }
}

/// Parses the temperature that starts the little-endian `word`, without a
/// branch. Returns the tenths, and the bytes up to and including the one after
/// the temperature, where the newline stands. Nothing but the point is looked
/// for: what stands in the place of a digit counts for its low four bits.
///
/// Digits have bit 0x10 set and the point has it clear, so `!word &
/// 0x10101000` isolates the position of the point; from there the one or two
/// integer digits and the sign are combined with a fixed multiply.
#[inline]
pub fn parse_num(word: u64) -> (r: (i32, usize))
    requires
        !word & 0x1010_1000 != 0,
    ensures
        r.0 == word_value(word_bytes(word)),
        r.1 == point(word_bytes(word)) + 3,
        -1023 <= r.0 <= 1023,
        4 <= r.1 <= 6,
        temp_prefix(word_bytes(word)) ==> {
            &&& r.0 == temp_value(word_bytes(word))
            &&& r.1 == temp_len(word_bytes(word)) + 1
        },
{
    let ghost b = word_bytes(word);
    proof {
        lemma_point(word);
    }
    let dot = (!word & 0x1010_1000).trailing_zeros();
    let signed = ((!word << 59) as i64) >> 63;  // 0 (positive) or -1 (negative)
    let design_mask = !(signed as u64 & 0xFF);
    let digits = ((word & design_mask) << (28 - dot)) & 0x0000_000F_000F_0F00;
    proof {
        lemma_digits(word);
        assert(digits == digits_at(word, dot));
        lemma_weigh(digits);
        if temp_prefix(b) {
            lemma_word_value(b);
        }
    }
    let abs = ((digits.wrapping_mul(0x640a_0001) >> 32) & 0x3FF) as i64;
    proof {
        assert((abs ^ 0i64) == abs && (abs ^ -1i64) == -1 - abs) by (bit_vector);
        assert(12usize >> 3 == 1 && 20usize >> 3 == 2 && 28usize >> 3 == 3) by (bit_vector);
    }
    let value = (abs ^ signed) - signed;
    (value as i32, (dot as usize >> 3) + 3)
}

/// A number in decimal digits, without leading zeros.
pub open spec fn decimal(n: nat) -> Seq<u8>
    decreases n,
{
    if n < 10 {
        seq![(ZERO + n) as u8]
    } else {
        decimal(n / 10).push((ZERO + n % 10) as u8)
    }
}

/// Tenths as a decimal with one fractional digit.
pub open spec fn tenths_text(tenths: int) -> Seq<u8> {
    let abs = (if tenths < 0 {
        -tenths
    } else {
        tenths
    }) as nat;
    let sign = if tenths < 0 {
        seq![MINUS]
    } else {
        Seq::empty()
    };
    sign + decimal(abs / 10) + seq![DOT, (ZERO + abs % 10) as u8]
}

spec fn pow10(n: nat) -> nat
    decreases n,
{
    if n == 0 {
        1
    } else {
        10 * pow10((n - 1) as nat)
    }
}

/// Appends a tenths value as a decimal with one fractional digit
/// (-123 as "-12.3", 5 as "0.5").
pub fn fmt_tenths(buf: &mut Vec<u8>, tenths: i64)
    requires
        tenths != i64::MIN,
    ensures
        final(buf)@ == old(buf)@ + tenths_text(tenths as int),
{
    let ghost before = buf@;
    let mut v: i64 = tenths;
    if v < 0 {
        buf.push(MINUS);
        v = -v;
    }
    let ghost signed = buf@;
    let whole = v / 10;
    let frac = (v % 10) as u8;
    let mut tmp = [0u8;20];
    let mut k: usize = 20;
    let mut w: i64 = whole;
    assert(pow10(20) == 100_000_000_000_000_000_000) by {
        reveal_with_fuel(pow10, 21);
    }
    loop
        invariant_except_break
            0 <= w,
            0 <= k <= 20,
            0 <= whole,
            tmp@.len() == 20,
            w < pow10(k as nat),
            k == 20 ==> w == whole,
            k < 20 ==> w > 0 && decimal(whole as nat) == decimal(w as nat) + tmp@.subrange(
                k as int,
                20,
            ),
        ensures
            k <= 20,
            decimal(whole as nat) == tmp@.subrange(k as int, 20),
        decreases k,
    {
        let ghost tail = tmp@.subrange(k as int, 20);
        k -= 1;
        tmp[k] = ZERO + (w % 10) as u8;
        proof {
            let d = (ZERO + w % 10) as u8;
            assert(tmp@.subrange(k as int, 20) =~= seq![d] + tail);
            if w < 10 {
                assert(decimal(w as nat) =~= seq![d]);
            } else {
                assert(decimal(w as nat) =~= decimal((w / 10) as nat) + seq![d]);
                assert(decimal(w as nat) + tail =~= decimal((w / 10) as nat) + (seq![d] + tail));
            }
        }
        w = w / 10;
        if w == 0 {
            break;
        }
    }
    bytes::append(buf, &tmp[k..20]);
    buf.push(DOT);
    buf.push(ZERO + frac);
    assert(buf@ =~= before + tenths_text(tenths as int));
}

/// Law: a temperature that was written is read back.
pub proof fn law_text_round_trip(tenths: int)
    requires
        -999 <= tenths <= 999,
    ensures
        is_temp(tenths_text(tenths)),
        temp_value(tenths_text(tenths)) == tenths,
{
    reveal_with_fuel(decimal, 2);
}

} // verus!
