//! Byte sources: where a bit reader gets its bytes from.
use vstd::prelude::*;

verus! {

/// The failure of a byte source to supply the bytes asked of it.
#[derive(Debug, Clone, Copy, PartialEq, Eq, Structural)]
pub struct IoError;

/// A source of bytes that are handed out in order, each of them once.
pub trait ByteSource {
    /// The bytes that the source can still supply, the next one first.
    spec fn remaining(&self) -> Seq<u8>;

    /// Fills `buf` completely with the next bytes of the source, or fails
    /// where fewer remain than `buf` holds. A failure leaves `buf` as it was
    /// and the source with nothing more to supply.
    fn read_exact(&mut self, buf: &mut [u8]) -> (r: Result<(), IoError>)
        ensures
            r is Ok <==> old(buf)@.len() <= old(self).remaining().len(),
            r is Ok ==> final(buf)@ == old(self).remaining().take(old(buf)@.len() as int),
            r is Ok ==> final(self).remaining() == old(self).remaining().skip(
                old(buf)@.len() as int,
            ),
            r is Err ==> final(buf)@ == old(buf)@,
            r is Err ==> final(self).remaining() == Seq::<u8>::empty(),
    ;
}

impl<'a> ByteSource for &'a [u8] {
    open spec fn remaining(&self) -> Seq<u8> {
        (*self)@
    }

    fn read_exact(&mut self, buf: &mut [u8]) -> (r: Result<(), IoError>) {
        let n = buf.len();
        let len = self.len();
        if n > len {
            *self = &self[len..len];
            return Err(IoError);
        }
        let mut i: usize = 0;
        while i < n
            invariant
                i <= n <= len,
                len == self@.len(),
                *self == *old(self),
                buf@.len() == n,
                forall|j: int| 0 <= j < i ==> buf@[j] == self@[j],
            decreases n - i,
        {
            buf[i] = self[i];
            i += 1;
        }
        assert(buf@ =~= old(self)@.take(n as int));
        *self = &self[n..len];
        Ok(())
    }
}

} // verus!
