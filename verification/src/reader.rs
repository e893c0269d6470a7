//! The random-access byte source that an archive is read from.
use vstd::prelude::*;

verus! {

/// Random-access byte source used by [`crate::Archive`].
///
/// An implementation stands for a fixed sequence of bytes, its
/// [`contents`](Reader::contents): it reports their number as its size and
/// fills a buffer from an absolute position with exactly the bytes stored
/// there, or fails. A reader is [`infallible`](Reader::infallible) when it
/// never fails to report its size nor to read a range inside it.
///
/// Both descriptions have defaults so that implementations written outside
/// verified code need only provide the two methods. The default contents are
/// one unspecified byte sequence for every value of the implementing type, and
/// the default reader may fail. For such an implementation nothing checks the
/// two methods against their contracts: the contracts of this library hold for
/// it only to the extent that it behaves as the contracts describe, which the
/// shared default contents cannot do for two values of different sizes. The
/// built-in byte-slice reader is verified against them.
pub trait Reader {
    /// Backend-specific I/O error type.
    type Error;

    /// The bytes that this reader stands for.
    closed spec fn contents(&self) -> Seq<u8> {
        arbitrary()
    }

    /// Whether size queries and in-range reads never fail.
    closed spec fn infallible(&self) -> bool {
        false
    }

    /// Returns the total archive size in bytes.
    fn size(&self) -> (r: Result<u64, Self::Error>)
        ensures
            r matches Ok(n) ==> n == self.contents().len(),
            self.infallible() ==> r is Ok,
    ;

    /// Fills `buf` from the absolute byte position `pos`.
    ///
    /// A short read is an error: on success every byte of `buf` was filled.
    ///
    /// The library only asks for ranges inside the reported size.
    fn read_exact_at(&self, pos: u64, buf: &mut [u8]) -> (r: Result<(), Self::Error>)
        requires
            pos + old(buf)@.len() <= self.contents().len(),
        ensures
            final(buf)@.len() == old(buf)@.len(),
            r is Ok ==> pos + old(buf)@.len() <= self.contents().len() && final(buf)@
                == self.contents().subrange(pos as int, pos + old(buf)@.len()),
            self.infallible() && pos + old(buf)@.len() <= self.contents().len() ==> r is Ok,
    ;
}

/// Error returned by the built-in [`Reader`] implementation for byte slices.
#[derive(Clone, Copy, Debug, PartialEq, Eq, Structural)]
pub enum SliceReaderError {
    /// The requested position or byte range is outside the slice.
    OutOfBounds,
}

impl SliceReaderError {
    /// Human-readable description of the error.
    pub fn message(&self) -> (r: &'static str)
        ensures
            r@ == "byte range out of bounds"@,
    {
        match self {
            SliceReaderError::OutOfBounds => "byte range out of bounds",
        }
    }
}

impl<'a> Reader for &'a [u8] {
    type Error = SliceReaderError;

    open spec fn contents(&self) -> Seq<u8> {
        (**self)@
    }

    open spec fn infallible(&self) -> bool {
        true
    }

    fn size(&self) -> (r: Result<u64, Self::Error>) {
        Ok(self.len() as u64)
    }

    fn read_exact_at(&self, pos: u64, buf: &mut [u8]) -> (r: Result<(), Self::Error>)
        ensures
            r is Err <==> pos + old(buf)@.len() > self@.len(),
            r is Err ==> final(buf)@ == old(buf)@,
    {
        let n: usize = buf.len();
        let total: usize = self.len();
        if pos > total as u64 || n > total - pos as usize {
            return Err(SliceReaderError::OutOfBounds);
        }
        let start: usize = pos as usize;
        let mut i: usize = 0;
        while i < n
            invariant
                0 <= i <= n,
                n == buf@.len(),
                start + n <= self@.len(),
                total == self@.len(),
                forall|j: int| 0 <= j < i ==> buf@[j] == self@[start + j],
            decreases n - i,
        {
            buf[i] = self[start + i];
            i = i + 1;
        }
        assert(buf@ =~= self@.subrange(start as int, start + n));
        Ok(())
    }
}

} // verus!
