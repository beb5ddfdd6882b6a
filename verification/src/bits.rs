//! Bit strings: how bytes unfold into them and which numbers they denote.
use vstd::arithmetic::div_mod::{
    lemma_basic_div, lemma_div_denominator, lemma_fundamental_div_mod_converse,
};
use vstd::arithmetic::power2::{lemma2_to64, lemma_pow2_pos, lemma_pow2_unfold, pow2};
use vstd::bits::lemma_u8_shr_is_div;
use vstd::prelude::*;

verus! {

/// The binary digit of weight `2^k` in `byte`.
pub open spec fn bit_of(byte: u8, k: nat) -> bool {
    (byte as nat / pow2(k)) % 2 == 1
}

/// A bit as a number.
pub open spec fn digit(bit: bool) -> nat {
    if bit {
        1
    } else {
        0
    }
}

/// The eight digits of `byte`, the most significant first.
pub open spec fn byte_bits(byte: u8) -> Seq<bool> {
    Seq::new(8, |i: int| bit_of(byte, (7 - i) as nat))
}

/// The bytes as one string of bits: byte after byte, and within each byte the
/// most significant digit first.
pub open spec fn be_bits(bytes: Seq<u8>) -> Seq<bool> {
    Seq::new(8 * bytes.len(), |i: int| bit_of(bytes[i / 8], (7 - i % 8) as nat))
}

/// The number that a bit string denotes when its first bit is the most
/// significant one.
pub open spec fn be_value(bits: Seq<bool>) -> nat
    decreases bits.len(),
{
    if bits.len() == 0 {
        0
    } else {
        2 * be_value(bits.drop_last()) + digit(bits.last())
    }
}

/// The number that a byte sequence denotes in base 256 when its first byte is
/// the most significant one.
pub open spec fn be_number(bytes: Seq<u8>) -> nat
    decreases bytes.len(),
{
    if bytes.len() == 0 {
        0
    } else {
        256 * be_number(bytes.drop_last()) + bytes.last() as nat
    }
}

/// The two's-complement reading of `value` as a number of `width` digits:
/// `value` itself where its digit of weight `2^(width - 1)` is 0, and
/// `value - 2^width` where that digit is 1.
pub open spec fn signed_value(value: nat, width: nat) -> int
    recommends
        width >= 1,
{
    if (value / pow2((width - 1) as nat)) % 2 == 0 {
        value as int
    } else {
        value - pow2(width)
    }
}

/// How many bits equal to `bit` stand at the head of `bits` before the first
/// bit that differs, or before the end.
pub open spec fn run_length(bits: Seq<bool>, bit: bool) -> nat
    decreases bits.len(),
{
    if bits.len() > 0 && bits[0] == bit {
        1 + run_length(bits.skip(1), bit)
    } else {
        0
    }
}

/// One more bit taken from a string extends the value of what was taken
/// before by that bit.
pub proof fn lemma_be_value_take_next(bits: Seq<bool>, n: int)
    requires
        0 <= n < bits.len(),
    ensures
        be_value(bits.take(n + 1)) == 2 * be_value(bits.take(n)) + digit(bits[n]),
{
    assert(bits.take(n + 1).drop_last() =~= bits.take(n));
}

/// A string of `n` bits denotes a number below `2^n`.
pub proof fn lemma_be_value_bound(bits: Seq<bool>)
    ensures
        be_value(bits) < pow2(bits.len()),
    decreases bits.len(),
{
    if bits.len() == 0 {
        lemma2_to64();
    } else {
        lemma_be_value_bound(bits.drop_last());
        lemma_pow2_unfold(bits.len());
    }
}

/// Joining two bit strings shifts the value of the first to the left by the
/// length of the second, and adds the value of the second.
pub proof fn lemma_be_value_concat(x: Seq<bool>, y: Seq<bool>)
    ensures
        be_value(x + y) == be_value(x) * pow2(y.len()) + be_value(y),
    decreases y.len(),
{
    lemma2_to64();
    if y.len() == 0 {
        assert(x + y =~= x);
    } else {
        let init = y.drop_last();
        let high = be_value(x) as int;
        let scale = pow2(init.len()) as int;
        lemma_be_value_concat(x, init);
        lemma_pow2_unfold(y.len());
        assert((x + y).drop_last() =~= x + init);
        assert(2 * (high * scale) == high * (2 * scale)) by (nonlinear_arith);
    }
}

/// The `width` bits that stand `start` bits into a string denote the
/// string's number with the digits behind them cut off and the digits before
/// them dropped.
pub proof fn lemma_be_value_window(bits: Seq<bool>, start: int, width: int)
    requires
        0 <= start,
        0 <= width,
        start + width <= bits.len(),
    ensures
        be_value(bits.subrange(start, start + width)) == (be_value(bits) / pow2(
            (bits.len() - start - width) as nat,
        )) % pow2(width as nat),
{
    let before = bits.take(start);
    let window = bits.subrange(start, start + width);
    let behind = bits.skip(start + width);
    let head = before + window;
    assert(bits =~= head + behind);
    lemma_be_value_concat(head, behind);
    lemma_be_value_concat(before, window);
    lemma_be_value_bound(behind);
    lemma_be_value_bound(window);
    lemma_fundamental_div_mod_converse(
        be_value(bits) as int,
        pow2(behind.len()) as int,
        be_value(head) as int,
        be_value(behind) as int,
    );
    lemma_fundamental_div_mod_converse(
        be_value(head) as int,
        pow2(window.len()) as int,
        be_value(before) as int,
        be_value(window) as int,
    );
}

/// The bit string of two byte sequences joined is their bit strings joined.
pub proof fn lemma_be_bits_concat(a: Seq<u8>, b: Seq<u8>)
    ensures
        be_bits(a + b) == be_bits(a) + be_bits(b),
{
    let joined = be_bits(a) + be_bits(b);
    assert forall|i: int| 0 <= i < 8 * (a.len() + b.len()) implies be_bits(a + b)[i]
        == joined[i] by {
        if i >= 8 * a.len() {
            let j = i - 8 * a.len();
            assert(j / 8 == i / 8 - a.len() && j % 8 == i % 8);
            assert(joined[i] == be_bits(b)[j]);
        }
    }
    assert(be_bits(a + b) =~= joined);
}

/// Dropping `n` whole bytes drops the first `8 * n` bits.
pub proof fn lemma_be_bits_skip(bytes: Seq<u8>, n: int)
    requires
        0 <= n <= bytes.len(),
    ensures
        be_bits(bytes).skip(8 * n) == be_bits(bytes.skip(n)),
{
    assert forall|i: int| 0 <= i < 8 * (bytes.len() - n) implies be_bits(bytes).skip(8 * n)[i]
        == be_bits(bytes.skip(n))[i] by {
        let j = i + 8 * n;
        assert(j / 8 == i / 8 + n && j % 8 == i % 8);
    }
    assert(be_bits(bytes).skip(8 * n) =~= be_bits(bytes.skip(n)));
}

/// The eight bits that byte `i` contributes are that byte's own digits.
pub proof fn lemma_be_bits_octet(bytes: Seq<u8>, i: int)
    requires
        0 <= i < bytes.len(),
    ensures
        be_bits(bytes).subrange(8 * i, 8 * i + 8) == byte_bits(bytes[i]),
{
    assert forall|j: int| 0 <= j < 8 implies be_bits(bytes).subrange(8 * i, 8 * i + 8)[j]
        == byte_bits(bytes[i])[j] by {
        let k = 8 * i + j;
        assert(k / 8 == i && k % 8 == j);
    }
    assert(be_bits(bytes).subrange(8 * i, 8 * i + 8) =~= byte_bits(bytes[i]));
}

/// Shifting a byte right by `k` places and masking the lowest place tests
/// its digit of weight `2^k`.
pub proof fn lemma_bit_test(byte: u8, k: u8)
    requires
        k < 8,
    ensures
        ((byte >> k) & 1 == 1) == bit_of(byte, k as nat),
{
    lemma_u8_shr_is_div(byte, k);
    let shifted = byte >> k;
    assert(shifted & 1 == shifted % 2) by (bit_vector);
}

/// The first `k` digits of a byte denote the byte with its last `8 - k`
/// digits cut off.
pub proof fn lemma_byte_prefix_value(byte: u8, k: nat)
    requires
        k <= 8,
    ensures
        be_value(byte_bits(byte).take(k as int)) == byte as nat / pow2((8 - k) as nat),
    decreases k,
{
    lemma2_to64();
    let bits = byte_bits(byte);
    if k == 0 {
        assert(byte as nat / 256 == 0);
    } else {
        let j = (k - 1) as nat;
        let low = pow2((8 - k) as nat);
        lemma_byte_prefix_value(byte, j);
        lemma_be_value_take_next(bits, j as int);
        lemma_pow2_pos((8 - k) as nat);
        lemma_pow2_unfold((8 - j) as nat);
        lemma_div_denominator(byte as int, low as int, 2);
    }
}

/// The digits of a byte denote the byte.
pub proof fn lemma_byte_value(byte: u8)
    ensures
        be_value(byte_bits(byte)) == byte,
{
    lemma2_to64();
    lemma_byte_prefix_value(byte, 8);
    assert(byte_bits(byte).take(8) =~= byte_bits(byte));
    assert(byte as nat / 1 == byte);
}

/// The bits of a byte sequence denote the number that the bytes denote in
/// base 256.
pub proof fn lemma_be_bits_value(bytes: Seq<u8>)
    ensures
        be_value(be_bits(bytes)) == be_number(bytes),
    decreases bytes.len(),
{
    lemma2_to64();
    if bytes.len() == 0 {
        assert(be_bits(bytes).len() == 0);
    } else {
        let init = bytes.drop_last();
        let last = bytes.last();
        lemma_be_bits_value(init);
        assert(bytes =~= init + seq![last]);
        lemma_be_bits_concat(init, seq![last]);
        lemma_be_value_concat(be_bits(init), be_bits(seq![last]));
        assert(be_bits(seq![last]) =~= byte_bits(last));
        lemma_byte_value(last);
        assert(be_value(be_bits(bytes)) == be_number(init) * 256 + last);
    }
}

/// Of a number below `2^width`, the two's-complement reading is the number
/// itself where it is below `2^(width - 1)`, and the number less `2^width`
/// where it is not; either way it lies from `-2^(width - 1)` up to, but not
/// including, `2^(width - 1)`.
pub proof fn lemma_signed_value(value: nat, width: nat)
    requires
        width >= 1,
        value < pow2(width),
    ensures
        value < pow2((width - 1) as nat) ==> signed_value(value, width) == value,
        value >= pow2((width - 1) as nat) ==> signed_value(value, width) == value - pow2(width),
        -pow2((width - 1) as nat) <= signed_value(value, width) < pow2((width - 1) as nat),
{
    let half = pow2((width - 1) as nat);
    lemma_pow2_pos((width - 1) as nat);
    lemma_pow2_unfold(width);
    if value < half {
        lemma_basic_div(value as int, half as int);
    } else {
        lemma_fundamental_div_mod_converse(value as int, half as int, 1, value - half);
    }
}

/// A run never outgrows its string, every bit of it is the counted bit, and
/// the bit after it, if there is one, is not.
pub proof fn lemma_run_length(bits: Seq<bool>, bit: bool)
    ensures
        run_length(bits, bit) <= bits.len(),
        forall|i: int| 0 <= i < run_length(bits, bit) ==> bits[i] == bit,
        run_length(bits, bit) < bits.len() ==> bits[run_length(bits, bit) as int] != bit,
    decreases bits.len(),
{
    if bits.len() > 0 && bits[0] == bit {
        let rest = bits.skip(1);
        lemma_run_length(rest, bit);
        assert forall|i: int| 0 <= i < run_length(bits, bit) implies bits[i] == bit by {
            if i > 0 {
                assert(bits[i] == rest[i - 1]);
            }
        }
        if run_length(bits, bit) < bits.len() {
            assert(bits[run_length(bits, bit) as int] == rest[run_length(rest, bit) as int]);
        }
    }
}

} // verus!
