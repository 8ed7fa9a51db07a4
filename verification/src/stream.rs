use vstd::prelude::*;
use crate::bytes::{copy_range, extend_bytes};
use crate::errors::FetchError;

verus! {

/// A connected byte stream, already carrying a response to be read.
///
/// `contents` is the sequence of bytes the stream will still deliver, in
/// order. A read hands back a prefix of it; an empty read is only ever a
/// clean end of stream. A faulting implementation reports `FetchError::Io`.
pub trait ByteStream {
    /// The bytes the stream will still deliver, in order.
    spec fn contents(&self) -> Seq<u8>;

    /// Reads at most `max` bytes off the stream. An empty result means the
    /// stream is exhausted (or `max` was zero); a fault leaves the
    /// remaining bytes as they were.
    fn read_some(&mut self, max: usize) -> (r: Result<Vec<u8>, FetchError>)
        ensures
            match r {
                Ok(v) => {
                    &&& v@.len() <= max
                    &&& v@.len() <= old(self).contents().len()
                    &&& v@ == old(self).contents().take(v@.len() as int)
                    &&& final(self).contents() == old(self).contents().skip(v@.len() as int)
                    &&& (v@.len() == 0 ==> old(self).contents().len() == 0 || max == 0)
                },
                Err(e) => e == FetchError::Io && final(self).contents() == old(self).contents(),
            },
    ;

    /// Writes all of `data` to the stream, or faults. Writing does not
    /// disturb the bytes still to be read.
    fn write_all(&mut self, data: &Vec<u8>) -> (r: Result<(), FetchError>)
        ensures
            final(self).contents() == old(self).contents(),
            r is Err ==> r == Err::<(), FetchError>(FetchError::Io),
    ;
}

/// An in-memory stream: a fixed script of bytes to be read, an optional
/// cap on how many bytes a single read may return, and a log of what was
/// written to it. It never faults.
pub struct MemStream {
    data: Vec<u8>,
    pos: usize,
    cap: usize,
    written: Vec<u8>,
}

impl MemStream {
    /// Everything written to the stream so far, in order.
    pub closed spec fn written_bytes(&self) -> Seq<u8> {
        self.written@
    }

    /// A stream that will deliver `data`, as much per read as asked for.
    pub fn new(data: Vec<u8>) -> (s: MemStream)
        ensures
            s.contents() == data@,
            s.written_bytes() == Seq::<u8>::empty(),
    {
        MemStream { data, pos: 0, cap: usize::MAX, written: Vec::new() }
    }

    /// A stream that will deliver `data` at most `cap` bytes per read.
    pub fn with_cap(data: Vec<u8>, cap: usize) -> (s: MemStream)
        requires
            cap >= 1,
        ensures
            s.contents() == data@,
            s.written_bytes() == Seq::<u8>::empty(),
    {
        MemStream { data, pos: 0, cap, written: Vec::new() }
    }

    /// The write log.
    pub fn written(&self) -> (w: &Vec<u8>)
        ensures
            w@ == self.written_bytes(),
    {
        &self.written
    }
}

impl ByteStream for MemStream {
    closed spec fn contents(&self) -> Seq<u8> {
        if self.cap >= 1 && self.pos <= self.data@.len() {
            self.data@.skip(self.pos as int)
        } else {
            Seq::empty()
        }
    }

    fn read_some(&mut self, max: usize) -> (r: Result<Vec<u8>, FetchError>) {
        let remaining: usize = if self.pos < self.data.len() {
            self.data.len() - self.pos
        } else {
            0
        };
        let mut k: usize = max;
        if remaining < k {
            k = remaining;
        }
        if self.cap < k {
            k = self.cap;
        }
        if k == 0 {
            let out: Vec<u8> = Vec::new();
            proof {
                assert(old(self).contents().take(0) =~= Seq::<u8>::empty());
                assert(old(self).contents().skip(0) =~= old(self).contents());
            }
            return Ok(out);
        }
        let out = copy_range(&self.data, self.pos, self.pos + k);
        self.pos = self.pos + k;
        proof {
            let c = old(self).contents();
            assert(out@ =~= c.take(k as int));
            assert(self.contents() =~= c.skip(k as int));
        }
        Ok(out)
    }

    fn write_all(&mut self, data: &Vec<u8>) -> (r: Result<(), FetchError>) {
        extend_bytes(&mut self.written, data.as_slice());
        Ok(())
    }
}

} // verus!
