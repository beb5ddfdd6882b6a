//! What holds of a reader's operations taken together.
use crate::bits::{
    be_bits, be_number, be_value, lemma_be_bits_octet, lemma_be_bits_value,
    lemma_be_value_window, lemma_byte_value, run_length,
};
use crate::read::{aligned_rest, is_aligned, rest_after, BitRead, BitReaderBE};
use crate::source::ByteSource;
use vstd::arithmetic::power2::pow2;
use vstd::prelude::*;

verus! {

/// The bits that reads of the given widths take in all.
pub open spec fn total(widths: Seq<nat>) -> nat
    decreases widths.len(),
{
    if widths.len() == 0 {
        0
    } else {
        total(widths.drop_last()) + widths.last()
    }
}

/// What is left of `pending` after attempts to take runs of the given widths
/// from it, one after the other.
pub open spec fn rest_after_all(pending: Seq<bool>, widths: Seq<nat>) -> Seq<bool>
    decreases widths.len(),
{
    if widths.len() == 0 {
        pending
    } else {
        rest_after(rest_after_all(pending, widths.drop_last()), widths.last())
    }
}

/// A reader over `bytes` that has delivered `start` bits and now reads
/// `width` more gets the number that the bytes denote as one long string of
/// digits, with the digits behind those it reads cut off and the digits
/// before them dropped.
pub proof fn lemma_read_value(bytes: Seq<u8>, start: nat, width: nat)
    requires
        start + width <= 8 * bytes.len(),
    ensures
        be_value(rest_after(be_bits(bytes), start).take(width as int)) == (be_number(bytes) / pow2(
            (8 * bytes.len() - start - width) as nat,
        )) % pow2(width),
{
    let bits = be_bits(bytes);
    lemma_be_bits_value(bytes);
    lemma_be_value_window(bits, start as int, width as int);
    assert(bits.skip(start as int).take(width as int) =~= bits.subrange(
        start as int,
        (start + width) as int,
    ));
}

/// Reads that find the bits they need take their widths in all. Begun on a
/// byte boundary, they end on one exactly when that sum is a multiple of 8.
pub proof fn lemma_aligned_after_reads(pending: Seq<bool>, widths: Seq<nat>)
    requires
        total(widths) <= pending.len(),
    ensures
        rest_after_all(pending, widths) == pending.skip(total(widths) as int),
        is_aligned(pending) ==> (is_aligned(rest_after_all(pending, widths)) <==> total(widths) % 8
            == 0),
    decreases widths.len(),
{
    if widths.len() > 0 {
        let earlier = widths.drop_last();
        lemma_aligned_after_reads(pending, earlier);
        assert(pending.skip(total(earlier) as int).skip(widths.last() as int) =~= pending.skip(
            total(widths) as int,
        ));
    }
}

/// Aligning ends on a byte boundary whatever was pending, changes nothing
/// where the reader stood on one, and so changes nothing when done again.
pub proof fn lemma_align_idempotent(pending: Seq<bool>)
    ensures
        is_aligned(aligned_rest(pending)),
        is_aligned(pending) ==> aligned_rest(pending) == pending,
        aligned_rest(aligned_rest(pending)) == aligned_rest(pending),
{
    assert(aligned_rest(aligned_rest(pending)) =~= aligned_rest(pending));
    if is_aligned(pending) {
        assert(aligned_rest(pending) =~= pending);
    }
}

/// On a byte boundary every eight bits pending are the digits of one byte of
/// the source, and the number read from them is that byte: whole bytes read
/// bit by bit are the bytes that the source supplies.
pub proof fn lemma_aligned_octets<R: ByteSource>(reader: &BitReaderBE<R>, i: int)
    requires
        reader.wf(),
        is_aligned(reader.pending()),
        0 <= i < reader.supply().len(),
    ensures
        reader.pending() == be_bits(reader.supply()),
        BitReaderBE::<R>::value(reader.pending().skip(8 * i).take(8)) == reader.supply()[i],
{
    let bits = be_bits(reader.supply());
    assert(reader.pending() =~= bits);
    lemma_be_bits_octet(reader.supply(), i);
    lemma_byte_value(reader.supply()[i]);
    assert(bits.skip(8 * i).take(8) =~= bits.subrange(8 * i, 8 * i + 8));
}

/// A reader on a byte boundary whose source has nothing more to supply has
/// nothing pending. Whatever asks it for one bit or more fails, and leaves it
/// on a byte boundary.
pub proof fn lemma_exhausted_reads_fail<R: ByteSource>(reader: &BitReaderBE<R>, n: nat)
    requires
        reader.wf(),
        reader.supply().len() == 0,
        is_aligned(reader.pending()),
        n >= 1,
    ensures
        reader.pending().len() == 0,
        !(n <= reader.pending().len()),
        !(run_length(reader.pending(), true) < reader.pending().len()),
        !(run_length(reader.pending(), false) < reader.pending().len()),
        is_aligned(rest_after(reader.pending(), n)),
{
}

} // verus!
