//! An in-memory byte source: supplies bytes on request, in order, exactly
//! once, and fails when fewer bytes are available than were asked for.

use vstd::prelude::*;

use crate::error::WireError;

verus! {

/// A byte source positioned inside a buffer.
///
/// Decoding consumes bytes from the front of `remaining()`; a failed request
/// consumes nothing. The source never supplies a byte twice and never skips
/// one.
pub struct ByteSource {
    buf: Vec<u8>,
    pos: usize,
}

impl ByteSource {
    #[verifier::type_invariant]
    spec fn inv(self) -> bool {
        self.pos <= self.buf@.len()
    }

    /// The bytes not yet consumed, in the order they will be supplied.
    pub closed spec fn remaining(self) -> Seq<u8> {
        self.buf@.skip(self.pos as int)
    }

    /// A source that will supply exactly the given bytes.
    pub fn new(buf: Vec<u8>) -> (r: ByteSource)
        ensures
            r.remaining() == buf@,
    {
        let r = ByteSource { buf, pos: 0 };
        proof {
            assert(r.remaining() =~= r.buf@);
        }
        r
    }

    /// How many bytes are still available.
    pub fn remaining_len(&self) -> (n: usize)
        ensures
            n == self.remaining().len(),
    {
        proof {
            use_type_invariant(self);
        }
        self.buf.len() - self.pos
    }

    /// Supplies the next `n` bytes, or fails without consuming anything when
    /// fewer than `n` are available.
    pub fn take_bytes(&mut self, n: usize) -> (r: Result<Vec<u8>, WireError>)
        ensures
            old(self).remaining().len() >= n ==> (r matches Ok(v) && v@ == old(self).remaining().take(n as int)
                && final(self).remaining() == old(self).remaining().skip(n as int)),
            old(self).remaining().len() < n ==> (r matches Err(e) && e == WireError::Exhausted
                && final(self).remaining() == old(self).remaining()),
    {
        proof {
            use_type_invariant(&*self);
        }
        let buf_len = self.buf.len();
        if n > buf_len - self.pos {
            return Err(WireError::Exhausted);
        }
        let mut v: Vec<u8> = Vec::new();
        let mut i: usize = 0;
        while i < n
            invariant
                self == old(self),
                buf_len == self.buf@.len(),
                self.pos + n <= buf_len,
                i <= n,
                v@ =~= self.remaining().take(i as int),
            decreases n - i,
        {
            v.push(self.buf[self.pos + i]);
            proof {
                assert(self.remaining().take(i + 1) =~= self.remaining().take(i as int).push(
                    self.remaining()[i as int],
                ));
            }
            i += 1;
        }
        self.pos = self.pos + n;
        proof {
            assert(self.remaining() =~= old(self).remaining().skip(n as int));
        }
        Ok(v)
    }
}

} // verus!
