//! Bit readers: the operations every bit reader offers, and the reader that
//! delivers the bits of each byte from the most significant to the least.
use crate::bits::{
    be_bits, be_value, byte_bits, digit, lemma_be_bits_concat, lemma_be_bits_octet,
    lemma_be_bits_skip, lemma_be_value_bound, lemma_be_value_take_next, lemma_bit_test,
    lemma_byte_value, lemma_signed_value, run_length, signed_value,
};
use crate::source::{ByteSource, IoError};
use std::collections::VecDeque;
use vstd::arithmetic::power2::{lemma2_to64, lemma_pow2_strictly_increases, lemma_pow2_unfold};
use vstd::bits::lemma_u64_shl_is_mul;
use vstd::prelude::*;

verus! {

/// Whether a reader with these bits pending stands on a byte boundary. Bits
/// reach a reader in whole bytes, so it does exactly when their number is a
/// multiple of 8.
pub open spec fn is_aligned(pending: Seq<bool>) -> bool {
    pending.len() % 8 == 0
}

/// What is left of `pending` after an attempt to take `n` bits from it: the
/// bits behind the first `n` where it holds that many, and nothing where it
/// does not.
pub open spec fn rest_after(pending: Seq<bool>, n: nat) -> Seq<bool> {
    if n <= pending.len() {
        pending.skip(n as int)
    } else {
        Seq::empty()
    }
}

/// What is left of `pending` from the next byte boundary on.
pub open spec fn aligned_rest(pending: Seq<bool>) -> Seq<bool> {
    pending.skip((pending.len() % 8) as int)
}

/// What every bit reader offers, whatever the order in which it delivers the
/// bits of a byte.
///
/// A reader stands at a position in a stream of bits. `pending` is the rest of
/// that stream: the bits that the reader has yet to deliver, the next one
/// first. `value` says which number this kind of reader makes of a run of
/// bits.
///
/// An operation succeeds exactly where as many bits are pending as it needs.
/// One that fails has used up the stream: nothing is pending after it.
pub trait BitRead {
    /// The reader's internal invariant.
    spec fn wf(&self) -> bool;

    /// The bits that the reader has yet to deliver, the next one first.
    spec fn pending(&self) -> Seq<bool>;

    /// The unsigned number that this kind of reader makes of `bits`.
    spec fn value(bits: Seq<bool>) -> nat;

    /// Reads the next `bits` bits as an unsigned number.
    fn read(&mut self, bits: u32) -> (r: Result<u32, IoError>)
        requires
            old(self).wf(),
            1 <= bits <= 32,
        ensures
            final(self).wf(),
            r is Ok <==> bits <= old(self).pending().len(),
            r matches Ok(v) ==> v == Self::value(old(self).pending().take(bits as int)),
            final(self).pending() == rest_after(old(self).pending(), bits as nat),
    ;

    /// Reads the next `bits` bits as a two's-complement number.
    fn read_signed(&mut self, bits: u32) -> (r: Result<i32, IoError>)
        requires
            old(self).wf(),
            1 <= bits <= 32,
        ensures
            final(self).wf(),
            r is Ok <==> bits <= old(self).pending().len(),
            r matches Ok(v) ==> v == signed_value(
                Self::value(old(self).pending().take(bits as int)),
                bits as nat,
            ),
            final(self).pending() == rest_after(old(self).pending(), bits as nat),
    ;

    /// Passes over the next `bits` bits.
    fn skip(&mut self, bits: u32) -> (r: Result<(), IoError>)
        requires
            old(self).wf(),
        ensures
            final(self).wf(),
            r is Ok <==> bits <= old(self).pending().len(),
            final(self).pending() == rest_after(old(self).pending(), bits as nat),
    ;

    /// Fills `buf` with whole bytes, each made of the next eight bits.
    ///
    /// A failure on a byte boundary leaves `buf` as it was. A failure off a
    /// byte boundary has filled the bytes for which eight bits were still
    /// pending, and left the others as they were.
    fn read_bytes(&mut self, buf: &mut [u8]) -> (r: Result<(), IoError>)
        requires
            old(self).wf(),
        ensures
            final(self).wf(),
            final(buf)@.len() == old(buf)@.len(),
            r is Ok <==> 8 * old(buf)@.len() <= old(self).pending().len(),
            final(self).pending() == rest_after(old(self).pending(), 8 * old(buf)@.len()),
            r is Ok ==> forall|i: int|
                0 <= i < old(buf)@.len() ==> #[trigger] final(buf)@[i] as nat == Self::value(
                    old(self).pending().skip(8 * i).take(8),
                ),
            r is Err && is_aligned(old(self).pending()) ==> final(buf)@ == old(buf)@,
            r is Err && !is_aligned(old(self).pending()) ==> forall|i: int|
                0 <= i < old(buf)@.len() ==> #[trigger] final(buf)@[i] as nat == (if 8 * i + 8
                    <= old(self).pending().len() {
                    Self::value(old(self).pending().skip(8 * i).take(8))
                } else {
                    old(buf)@[i] as nat
                }),
    ;

    /// Counts the 1 bits that come before the next 0 bit, and passes over
    /// them and over that 0 bit.
    fn read_unary0(&mut self) -> (r: Result<u32, IoError>)
        requires
            old(self).wf(),
            run_length(old(self).pending(), true) <= u32::MAX,
        ensures
            final(self).wf(),
            r is Ok <==> run_length(old(self).pending(), true) < old(self).pending().len(),
            r matches Ok(n) ==> n == run_length(old(self).pending(), true),
            final(self).pending() == rest_after(
                old(self).pending(),
                run_length(old(self).pending(), true) + 1,
            ),
    ;

    /// Counts the 0 bits that come before the next 1 bit, and passes over
    /// them and over that 1 bit.
    fn read_unary1(&mut self) -> (r: Result<u32, IoError>)
        requires
            old(self).wf(),
            run_length(old(self).pending(), false) <= u32::MAX,
        ensures
            final(self).wf(),
            r is Ok <==> run_length(old(self).pending(), false) < old(self).pending().len(),
            r matches Ok(n) ==> n == run_length(old(self).pending(), false),
            final(self).pending() == rest_after(
                old(self).pending(),
                run_length(old(self).pending(), false) + 1,
            ),
    ;

    /// Whether the reader stands on a byte boundary.
    fn byte_aligned(&self) -> (aligned: bool)
        requires
            self.wf(),
        ensures
            aligned == is_aligned(self.pending()),
    ;

    /// Passes over the bits that are left of a byte begun, so that the reader
    /// stands on a byte boundary.
    fn byte_align(&mut self)
        requires
            old(self).wf(),
        ensures
            final(self).wf(),
            final(self).pending() == aligned_rest(old(self).pending()),
            is_aligned(final(self).pending()),
    ;
}

/// A bit reader over a byte source that delivers the bits of each byte from
/// the most significant to the least, and reads numbers with their first bit
/// as the most significant.
///
/// It takes one byte from the source whenever it is asked for a bit and holds
/// none, and keeps the bits of that byte that it has not yet delivered.
pub struct BitReaderBE<'a, R: ByteSource> {
    reader: &'a mut R,
    buffer: VecDeque<bool>,
}

impl<'a, R: ByteSource> BitReaderBE<'a, R> {
    /// The bits that the reader holds: those of the byte it took last that it
    /// has not yet delivered, the next one first.
    pub closed spec fn held(&self) -> Seq<bool> {
        self.buffer@
    }

    /// The bytes that the reader's source can still supply.
    pub closed spec fn supply(&self) -> Seq<u8> {
        self.reader.remaining()
    }

    /// A reader at the start of what `reader` can still supply. It holds no
    /// bits, and so stands on a byte boundary.
    pub fn new(reader: &'a mut R) -> (r: Self)
        ensures
            r.wf(),
            r.held() == Seq::<bool>::empty(),
            r.supply() == old(reader).remaining(),
            r.pending() == be_bits(old(reader).remaining()),
            is_aligned(r.pending()),
    {
        let r = BitReaderBE { reader, buffer: VecDeque::with_capacity(8) };
        assert(r.pending() =~= be_bits(r.supply()));
        r
    }

    /// Delivers the next bit, as 0 or 1. With no bit held it first takes a
    /// byte from the source and unfolds it into its eight bits.
    fn next_bit(&mut self) -> (r: Result<u32, IoError>)
        requires
            old(self).wf(),
        ensures
            final(self).wf(),
            r is Ok <==> 1 <= old(self).pending().len(),
            r matches Ok(bit) ==> bit == digit(old(self).pending()[0]),
            final(self).pending() == rest_after(old(self).pending(), 1),
    {
        if self.buffer.len() == 0 {
            let mut buf = [0u8; 1];
            let ghost supply = self.reader.remaining();
            match self.reader.read_exact(&mut buf) {
                Ok(()) => {},
                Err(e) => {
                    assert(self.pending() =~= Seq::<bool>::empty());
                    return Err(e);
                },
            }
            let byte = buf[0];
            let mut k: u8 = 8;
            while k > 0
                invariant
                    k <= 8,
                    self.buffer@ == byte_bits(byte).take(8 - k),
                    self.reader.remaining() == supply.skip(1),
                decreases k,
            {
                k -= 1;
                proof {
                    lemma_bit_test(byte, k);
                }
                self.buffer.push_back((byte >> k) & 1 == 1);
                assert(self.buffer@ =~= byte_bits(byte).take(8 - k));
            }
            proof {
                assert(supply =~= seq![byte] + supply.skip(1));
                lemma_be_bits_concat(seq![byte], supply.skip(1));
                assert(be_bits(seq![byte]) =~= byte_bits(byte));
                assert(self.buffer@ =~= byte_bits(byte));
            }
        }
        let ghost before = self.pending();
        let bit = self.buffer.pop_front().unwrap();
        assert(self.pending() =~= before.skip(1));
        Ok(if bit { 1 } else { 0 })
    }

    /// Counts the bits equal to `counted` that come before the next bit that
    /// differs, and passes over them and over that bit.
    fn read_unary(&mut self, counted: bool) -> (r: Result<u32, IoError>)
        requires
            old(self).wf(),
            run_length(old(self).pending(), counted) <= u32::MAX,
        ensures
            final(self).wf(),
            r is Ok <==> run_length(old(self).pending(), counted) < old(self).pending().len(),
            r matches Ok(n) ==> n == run_length(old(self).pending(), counted),
            final(self).pending() == rest_after(
                old(self).pending(),
                run_length(old(self).pending(), counted) + 1,
            ),
    {
        let stop: u32 = if counted { 0 } else { 1 };
        let mut count: u32 = 0;
        loop
            invariant
                self.wf(),
                stop == digit(!counted),
                count <= old(self).pending().len(),
                self.pending() == old(self).pending().skip(count as int),
                run_length(old(self).pending(), counted) == count + run_length(
                    self.pending(),
                    counted,
                ),
                run_length(old(self).pending(), counted) <= u32::MAX,
            decreases self.pending().len(),
        {
            let ghost rest = self.pending();
            let bit = self.read(1)?;
            proof {
                lemma_be_value_take_next(rest, 0);
                assert(be_value(rest.take(0)) == 0);
                assert(self.pending() =~= old(self).pending().skip(count + 1));
            }
            if bit == stop {
                return Ok(count);
            }
            count += 1;
        }
    }
}

impl<'a, R: ByteSource> BitRead for BitReaderBE<'a, R> {
    /// Fewer than eight bits are held.
    open spec fn wf(&self) -> bool {
        self.held().len() < 8
    }

    /// The bits held, and behind them the bits of the bytes that the source
    /// can still supply.
    open spec fn pending(&self) -> Seq<bool> {
        self.held() + be_bits(self.supply())
    }

    open spec fn value(bits: Seq<bool>) -> nat {
        be_value(bits)
    }

    fn read(&mut self, bits: u32) -> (r: Result<u32, IoError>) {
        let mut acc: u32 = 0;
        let mut taken: u32 = 0;
        while taken < bits
            invariant
                taken <= bits <= 32,
                self.wf(),
                taken <= old(self).pending().len(),
                self.pending() == old(self).pending().skip(taken as int),
                acc == be_value(old(self).pending().take(taken as int)),
            decreases bits - taken,
        {
            let bit = self.next_bit()?;
            proof {
                let all = old(self).pending();
                lemma_be_value_take_next(all, taken as int);
                lemma_be_value_bound(all.take(taken as int));
                lemma2_to64();
                if taken < 31 {
                    lemma_pow2_strictly_increases(taken as nat, 31);
                }
                assert((acc << 1) | bit == 2 * acc + bit) by (bit_vector)
                    requires
                        acc < 0x8000_0000u32,
                        bit <= 1,
                ;
                assert(self.pending() =~= all.skip(taken + 1));
            }
            acc = (acc << 1) | bit;
            taken += 1;
        }
        Ok(acc)
    }

    fn read_signed(&mut self, bits: u32) -> (r: Result<i32, IoError>) {
        let value = self.read(bits)?;
        let half: u64 = 1u64 << (bits - 1);
        proof {
            let width = bits as nat;
            lemma_be_value_bound(old(self).pending().take(bits as int));
            lemma_signed_value(value as nat, width);
            lemma_pow2_unfold(width);
            lemma2_to64();
            if bits < 32 {
                lemma_pow2_strictly_increases((width - 1) as nat, 31);
            }
            lemma_u64_shl_is_mul(1, (bits - 1) as u64);
        }
        if (value as u64) < half {
            Ok(value as i32)
        } else {
            Ok((value as i64 - 2 * (half as i64)) as i32)
        }
    }

    fn skip(&mut self, bits: u32) -> (r: Result<(), IoError>) {
        let mut passed: u32 = 0;
        while passed < bits
            invariant
                passed <= bits,
                self.wf(),
                passed <= old(self).pending().len(),
                self.pending() == old(self).pending().skip(passed as int),
            decreases bits - passed,
        {
            self.next_bit()?;
            assert(self.pending() =~= old(self).pending().skip(passed + 1));
            passed += 1;
        }
        Ok(())
    }

    fn read_bytes(&mut self, buf: &mut [u8]) -> (r: Result<(), IoError>) {
        if self.byte_aligned() {
            let ghost supply = self.reader.remaining();
            let r = self.reader.read_exact(buf);
            proof {
                assert(old(self).pending() =~= be_bits(supply));
                assert(self.pending() =~= be_bits(self.reader.remaining()));
                if r is Ok {
                    lemma_be_bits_skip(supply, buf@.len() as int);
                    assert forall|i: int| 0 <= i < buf@.len() implies #[trigger] buf@[i] as nat
                        == be_value(be_bits(supply).skip(8 * i).take(8)) by {
                        lemma_be_bits_octet(supply, i);
                        lemma_byte_value(supply[i]);
                        assert(be_bits(supply).skip(8 * i).take(8) =~= be_bits(supply).subrange(
                            8 * i,
                            8 * i + 8,
                        ));
                    }
                }
            }
            r
        } else {
            let n = buf.len();
            let mut i: usize = 0;
            while i < n
                invariant
                    i <= n,
                    buf@.len() == n,
                    old(buf)@.len() == n,
                    self.wf(),
                    !is_aligned(old(self).pending()),
                    8 * i <= old(self).pending().len(),
                    self.pending() == old(self).pending().skip(8 * i),
                    forall|j: int|
                        0 <= j < i ==> #[trigger] buf@[j] as nat == be_value(
                            old(self).pending().skip(8 * j).take(8),
                        ),
                    forall|j: int| i <= j < n ==> #[trigger] buf@[j] == old(buf)@[j],
                decreases n - i,
            {
                let ghost all = old(self).pending();
                let ghost octet = all.skip(8 * i).take(8);
                let byte = self.read(8)?;
                proof {
                    assert(self.pending() =~= all.skip(8 * (i + 1)));
                    lemma_be_value_bound(octet);
                    lemma2_to64();
                }
                buf[i] = byte as u8;
                i += 1;
            }
            Ok(())
        }
    }

    fn read_unary0(&mut self) -> (r: Result<u32, IoError>) {
        self.read_unary(true)
    }

    fn read_unary1(&mut self) -> (r: Result<u32, IoError>) {
        self.read_unary(false)
    }

    fn byte_aligned(&self) -> (aligned: bool)
        ensures
            aligned == (self.held().len() == 0),
    {
        self.buffer.len() == 0
    }

    fn byte_align(&mut self)
        ensures
            final(self).held() == Seq::<bool>::empty(),
            final(self).supply() == old(self).supply(),
    {
        self.buffer.clear();
        assert(self.pending() =~= aligned_rest(old(self).pending()));
    }
}

} // verus!
