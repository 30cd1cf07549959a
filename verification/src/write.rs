//! A convenience facade over [`Writable`]: any byte sink that implements
//! [`WriteExt`] can be asked to encode a value without naming the codec
//! trait at the call site.

use vstd::prelude::*;

use crate::error::WireError;
use crate::writable::Writable;

verus! {

/// A byte sink that can encode any [`Writable`] into itself.
pub trait WriteExt {
    /// The bytes the sink has accepted so far.
    spec fn sink_view(&self) -> Seq<u8>;

    /// Appends the value's encoding to this sink. Pure delegation to the
    /// value's [`Writable`] implementation: no independent logic and no
    /// independent failure modes.
    fn write_ext<W: Writable>(&mut self, data: &W) -> (r: Result<(), WireError>)
        ensures
            r is Ok,
            final(self).sink_view() == old(self).sink_view() + data.wire(),
    ;
}

impl WriteExt for Vec<u8> {
    /// The sink's contents are the vector's contents.
    open spec fn sink_view(&self) -> Seq<u8> {
        self@
    }

    fn write_ext<W: Writable>(&mut self, data: &W) -> (r: Result<(), WireError>) {
        data.write(self)
    }
}

} // verus!
