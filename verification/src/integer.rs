//! Decimal integer texts and their values.

use vstd::arithmetic::div_mod::{lemma_add_mod_noop, lemma_mul_mod_noop_left, lemma_small_mod};
use vstd::prelude::*;
use vstd::string::StringSliceAdditionalSpecFns;

verus! {

/// The number of values a `u64` can take.
pub open spec fn u64_range() -> nat {
    0x1_0000_0000_0000_0000
}

/// What one byte of a digit run contributes: its low four bits, which for the
/// characters `0` to `9` is the digit itself.
pub open spec fn digit_of(byte: u8) -> nat {
    (byte & 0x0f) as nat
}

/// True of the ten ASCII digit characters.
pub open spec fn is_digit(byte: u8) -> bool {
    0x30 <= byte <= 0x39
}

/// True when every byte of the run is an ASCII digit.
pub open spec fn all_digits(bytes: Seq<u8>) -> bool {
    forall|i: int| 0 <= i < bytes.len() ==> is_digit(#[trigger] bytes[i])
}

/// The unbounded number that a digit run denotes, read in base ten with the
/// most significant digit first.
pub open spec fn decimal_value(bytes: Seq<u8>) -> nat
    decreases bytes.len(),
{
    if bytes.len() == 0 {
        0
    } else {
        decimal_value(bytes.drop_last()) * 10 + digit_of(bytes.last())
    }
}

/// The value of a digit run as a `u64`: its decimal value, reduced modulo
/// 2^64 when it does not fit.
pub open spec fn digits_value(bytes: Seq<u8>) -> u64 {
    (decimal_value(bytes) % u64_range()) as u64
}

/// The value of an integer text that ends in one marker byte: the value of
/// everything before that last byte.
pub open spec fn int_text_value(bytes: Seq<u8>) -> u64
    recommends
        bytes.len() > 0,
{
    digits_value(bytes.drop_last())
}

/// The decimal numeral of a number: its digits as ASCII characters, most
/// significant first, without leading zeros.
pub open spec fn decimal_digits(n: nat) -> Seq<u8>
    decreases n,
{
    if n < 10 {
        seq![(0x30 + n) as u8]
    } else {
        decimal_digits(n / 10).push((0x30 + n % 10) as u8)
    }
}

/// A numeral is made of digits, has one at least, and denotes its number:
/// reading what was written gives the number back.
pub proof fn lemma_decimal_digits(n: nat)
    ensures
        decimal_digits(n).len() >= 1,
        all_digits(decimal_digits(n)),
        decimal_value(decimal_digits(n)) == n,
        n < u64_range() ==> digits_value(decimal_digits(n)) == n,
    decreases n,
{
    let digits = decimal_digits(n);
    if n < 10 {
        let byte = (0x30 + n) as u8;
        assert(byte & 0x0f == byte - 0x30) by (bit_vector)
            requires
                0x30 <= byte <= 0x39,
        ;
        assert(digits.drop_last() =~= Seq::<u8>::empty());
        assert(decimal_value(digits.drop_last()) == 0);
    } else {
        lemma_decimal_digits(n / 10);
        let byte = (0x30 + n % 10) as u8;
        assert(byte & 0x0f == byte - 0x30) by (bit_vector)
            requires
                0x30 <= byte <= 0x39,
        ;
        assert(digits.drop_last() =~= decimal_digits(n / 10));
        assert(digits.last() == byte);
    }
    if n < u64_range() {
        lemma_small_mod(n, u64_range());
    }
}

/// Appending one byte to a digit run multiplies its value by ten and adds the
/// new digit, with both steps wrapping at 2^64.
pub proof fn lemma_digits_value_push(bytes: Seq<u8>, byte: u8)
    ensures
        digit_of(byte) <= 15,
        digits_value(bytes.push(byte)) == vstd::wrapping::u64_specs::wrapping_add(
            vstd::wrapping::u64_specs::wrapping_mul(digits_value(bytes), 10),
            digit_of(byte) as u64,
        ),
{
    let r = u64_range() as int;
    let dv = decimal_value(bytes) as int;
    let d = digit_of(byte) as int;
    assert(byte & 0x0f <= 15) by (bit_vector);
    assert(bytes.push(byte).drop_last() =~= bytes);
    assert(bytes.push(byte).last() == byte);
    assert(decimal_value(bytes.push(byte)) == dv * 10 + d);
    let acc = dv % r;
    let m = (acc * 10) % r;
    lemma_mul_mod_noop_left(dv, 10, r);
    assert(m == (dv * 10) % r);
    lemma_small_mod(d as nat, r as nat);
    lemma_add_mod_noop(dv * 10, d, r);
    assert((m + d) % r == (dv * 10 + d) % r);
    if m + d >= r {
        assert((m + d) % r == m + d - r) by (nonlinear_arith)
            requires
                r <= m + d < 2 * r,
        ;
    } else {
        lemma_small_mod((m + d) as nat, r as nat);
    }
}

/// Reads `bytes[from..to]` as a digit run.
pub fn parse_digits(bytes: &[u8], from: usize, to: usize) -> (value: u64)
    requires
        from <= to <= bytes@.len(),
    ensures
        value == digits_value(bytes@.subrange(from as int, to as int)),
{
    let mut acc: u64 = 0;
    let mut i: usize = from;
    while i < to
        invariant
            from <= i <= to <= bytes@.len(),
            acc == digits_value(bytes@.subrange(from as int, i as int)),
        decreases to - i,
    {
        let byte: u8 = bytes[i];
        proof {
            lemma_digits_value_push(bytes@.subrange(from as int, i as int), byte);
            assert(bytes@.subrange(from as int, i as int).push(byte) =~= bytes@.subrange(
                from as int,
                i + 1,
            ));
        }
        acc = acc.wrapping_mul(10).wrapping_add((byte & 0x0f) as u64);
        i = i + 1;
    }
    acc
}

/// Tells whether `bytes[from..to]` holds decimal digits only.
pub fn is_digit_run(bytes: &[u8], from: usize, to: usize) -> (all: bool)
    requires
        from <= to <= bytes@.len(),
    ensures
        all == all_digits(bytes@.subrange(from as int, to as int)),
{
    let mut i: usize = from;
    while i < to
        invariant
            from <= i <= to <= bytes@.len(),
            all_digits(bytes@.subrange(from as int, i as int)),
        decreases to - i,
    {
        let byte: u8 = bytes[i];
        if byte < 0x30 || byte > 0x39 {
            assert(bytes@.subrange(from as int, to as int)[i - from] == byte);
            return false;
        }
        assert forall|j: int| 0 <= j < i + 1 - from implies is_digit(
            #[trigger] bytes@.subrange(from as int, i + 1)[j],
        ) by {
            if j < i - from {
                assert(bytes@.subrange(from as int, i as int)[j] == bytes@.subrange(
                    from as int,
                    i + 1,
                )[j]);
            }
        }
        i = i + 1;
    }
    true
}

/// Parses an integer text that ends in exactly one marker byte, such as
/// `64i`: the last byte is dropped unread and the bytes before it are folded
/// as decimal digits. Nothing checks for overflow: a run too long for a `u64`
/// wraps around.
pub fn parse_int(string_ref: &str) -> (value: u64)
    requires
        string_ref.spec_bytes().len() > 0,
    ensures
        value == int_text_value(string_ref.spec_bytes()),
{
    let bytes = string_ref.as_bytes();
    let n: usize = bytes.len();
    assert(bytes@.subrange(0, n - 1) =~= bytes@.drop_last());
    parse_digits(bytes, 0, n - 1)
}

} // verus!
