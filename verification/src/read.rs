//! A convenience facade over [`Readable`]: any byte source that implements
//! [`ReadExt`] can be asked to decode a value without naming the codec
//! trait at the call site.

use vstd::prelude::*;

use crate::error::WireError;
use crate::readable::Readable;
use crate::source::ByteSource;

verus! {

/// A byte source from which any [`Readable`] can be decoded.
pub trait ReadExt {
    /// The bytes the source has not yet supplied.
    spec fn source_view(&self) -> Seq<u8>;

    /// Decodes one value from the front of this source. Pure delegation to
    /// the value's [`Readable`] implementation: no independent logic and no
    /// independent failure modes.
    fn read_ext<R: Readable>(&mut self) -> (r: Result<R, WireError>)
        requires
            R::dec_wf(),
        ensures
            match R::dec(old(self).source_view()) {
                Ok((v, n)) => r matches Ok(w) && w.deep_view() == v && final(self).source_view()
                    == old(self).source_view().skip(n),
                Err((e, n)) => r matches Err(e2) && e2 == e && final(self).source_view()
                    == old(self).source_view().skip(n),
            },
    ;
}

impl ReadExt for ByteSource {
    /// The source's contents are its remaining bytes.
    open spec fn source_view(&self) -> Seq<u8> {
        self.remaining()
    }

    fn read_ext<R: Readable>(&mut self) -> (r: Result<R, WireError>) {
        R::read(self)
    }
}

} // verus!
