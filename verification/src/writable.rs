//! The encode side of the codec: every supported type's exact wire shape,
//! and the proof that writing emits exactly that shape.

use vstd::prelude::*;
use vstd::utf8::encode_utf8;

use crate::bytes::le_bytes;
use crate::error::WireError;

verus! {

/// A value that knows its own wire shape and can emit it into a byte sink.
///
/// `wire` is the exact byte sequence the value stands for on the wire;
/// `write` appends exactly those bytes to the sink and always succeeds on an
/// in-memory sink. Writes that fail partway are not rolled back, so a caller
/// that composes writes sees every byte emitted before a failure.
pub trait Writable {
    /// The exact encoding of this value.
    spec fn wire(&self) -> Seq<u8>;

    /// Whether the value is representable in the format: every length its
    /// encoding writes fits both the 64-bit length value and the host's
    /// size type. Every value an executable program can hold satisfies
    /// this; it rules out only the unbounded values that exist in
    /// specifications alone.
    spec fn wire_wf(&self) -> bool;

    /// Appends this value's encoding to the sink.
    fn write(&self, sink: &mut Vec<u8>) -> (r: Result<(), WireError>)
        ensures
            r is Ok,
            final(sink)@ == old(sink)@ + self.wire(),
    ;
}

/// The concatenated encodings of a sequence of values, in order.
pub open spec fn wire_elems<T: Writable>(s: Seq<T>) -> Seq<u8>
    decreases s.len(),
{
    if s.len() == 0 {
        Seq::empty()
    } else {
        s.first().wire() + wire_elems(s.drop_first())
    }
}

/// Extending a sequence by one element appends that element's encoding.
pub proof fn lemma_wire_elems_snoc<T: Writable>(s: Seq<T>, i: int)
    requires
        0 <= i < s.len(),
    ensures
        wire_elems(s.take(i + 1)) == wire_elems(s.take(i)) + s[i].wire(),
    decreases i,
{
    if i == 0 {
        assert(s.take(1).len() == 1);
        assert(s.take(1).first() == s[0]);
        assert(s.take(1).drop_first() =~= Seq::<T>::empty());
        assert(wire_elems(s.take(1)) == s.take(1).first().wire() + wire_elems(
            s.take(1).drop_first(),
        ));
        assert(wire_elems(Seq::<T>::empty()) =~= Seq::<u8>::empty());
        assert(wire_elems(s.take(1)) =~= s[0].wire());
        assert(s.take(0) =~= Seq::<T>::empty());
        assert(wire_elems(s.take(0)) + s[0].wire() =~= s[0].wire());
    } else {
        let t = s.drop_first();
        lemma_wire_elems_snoc(t, i - 1);
        assert(s.take(i + 1).first() == s.first());
        assert(s.take(i + 1).drop_first() =~= t.take(i));
        assert(s.take(i).first() == s.first());
        assert(s.take(i).drop_first() =~= t.take(i - 1));
        assert(t[i - 1] == s[i]);
        assert(s.first().wire() + (wire_elems(t.take(i - 1)) + s[i].wire()) =~= (s.first().wire()
            + wire_elems(t.take(i - 1))) + s[i].wire());
    }
}

/// Appends the bytes of a slice to the sink, in order.
pub(crate) fn push_bytes(sink: &mut Vec<u8>, bytes: &[u8])
    ensures
        final(sink)@ == old(sink)@ + bytes@,
{
    let n = bytes.len();
    let mut i: usize = 0;
    while i < n
        invariant
            i <= n,
            n == bytes@.len(),
            sink@ == old(sink)@ + bytes@.take(i as int),
        decreases n - i,
    {
        sink.push(bytes[i]);
        proof {
            assert(bytes@.take(i + 1) =~= bytes@.take(i as int).push(bytes@[i as int]));
            assert(old(sink)@ + bytes@.take(i as int).push(bytes@[i as int]) =~= (old(sink)@
                + bytes@.take(i as int)).push(bytes@[i as int]));
        }
        i += 1;
    }
    proof {
        assert(bytes@.take(n as int) =~= bytes@);
    }
}

/// Appends the `n`-byte little-endian encoding of `v` to the sink.
pub(crate) fn write_le(sink: &mut Vec<u8>, v: u64, n: usize)
    ensures
        final(sink)@ == old(sink)@ + le_bytes(v as nat, n as nat),
{
    let mut cur: u64 = v;
    let mut i: usize = 0;
    while i < n
        invariant
            i <= n,
            sink@ + le_bytes(cur as nat, (n - i) as nat) == old(sink)@ + le_bytes(
                v as nat,
                n as nat,
            ),
        decreases n - i,
    {
        let ghost cur0 = cur as nat;
        let ghost k = (n - i) as nat;
        sink.push((cur % 256) as u8);
        cur = cur / 256;
        proof {
            assert(le_bytes(cur0, k) == seq![(cur0 % 256) as u8] + le_bytes(
                cur0 / 256,
                (k - 1) as nat,
            ));
            assert(cur as nat == cur0 / 256);
            assert(sink@ + le_bytes(cur as nat, (k - 1) as nat) =~= old(sink)@ + le_bytes(
                v as nat,
                n as nat,
            ));
        }
        i += 1;
    }
    proof {
        assert(le_bytes(cur as nat, 0) =~= Seq::<u8>::empty());
        assert(sink@ + Seq::<u8>::empty() =~= sink@);
    }
}

impl Writable for bool {
    /// One byte: `0x01` for true, `0x00` for false.
    open spec fn wire(&self) -> Seq<u8> {
        seq![if *self { 1u8 } else { 0u8 }]
    }

    open spec fn wire_wf(&self) -> bool {
        true
    }

    fn write(&self, sink: &mut Vec<u8>) -> (r: Result<(), WireError>) {
        let b: u8 = if *self {
            1
        } else {
            0
        };
        sink.push(b);
        proof {
            assert(old(sink)@.push(b) =~= old(sink)@ + self.wire());
        }
        Ok(())
    }
}

impl Writable for u8 {
    /// One raw byte.
    open spec fn wire(&self) -> Seq<u8> {
        seq![*self]
    }

    open spec fn wire_wf(&self) -> bool {
        true
    }

    fn write(&self, sink: &mut Vec<u8>) -> (r: Result<(), WireError>) {
        sink.push(*self);
        proof {
            assert(old(sink)@.push(*self) =~= old(sink)@ + self.wire());
        }
        Ok(())
    }
}

impl Writable for u16 {
    /// Two bytes, little-endian.
    open spec fn wire(&self) -> Seq<u8> {
        le_bytes(*self as nat, 2)
    }

    open spec fn wire_wf(&self) -> bool {
        true
    }

    fn write(&self, sink: &mut Vec<u8>) -> (r: Result<(), WireError>) {
        write_le(sink, *self as u64, 2);
        Ok(())
    }
}

impl Writable for u32 {
    /// Four bytes, little-endian.
    open spec fn wire(&self) -> Seq<u8> {
        le_bytes(*self as nat, 4)
    }

    open spec fn wire_wf(&self) -> bool {
        true
    }

    fn write(&self, sink: &mut Vec<u8>) -> (r: Result<(), WireError>) {
        write_le(sink, *self as u64, 4);
        Ok(())
    }
}

impl Writable for u64 {
    /// Eight bytes, little-endian.
    open spec fn wire(&self) -> Seq<u8> {
        le_bytes(*self as nat, 8)
    }

    open spec fn wire_wf(&self) -> bool {
        true
    }

    fn write(&self, sink: &mut Vec<u8>) -> (r: Result<(), WireError>) {
        write_le(sink, *self, 8);
        Ok(())
    }
}

impl Writable for usize {
    /// A size value: encoded exactly like a 64-bit unsigned integer. The
    /// host's size type is at most 64 bits wide, so the widening here
    /// cannot lose a value; a host where it could would have to fail with
    /// [`WireError::Unsupported`] instead.
    open spec fn wire(&self) -> Seq<u8> {
        le_bytes(*self as nat, 8)
    }

    open spec fn wire_wf(&self) -> bool {
        true
    }

    fn write(&self, sink: &mut Vec<u8>) -> (r: Result<(), WireError>) {
        write_le(sink, *self as u64, 8);
        Ok(())
    }
}

impl Writable for String {
    /// A 64-bit byte count, then that many bytes of UTF-8 text.
    open spec fn wire(&self) -> Seq<u8> {
        le_bytes(encode_utf8(self@).len() as nat, 8) + encode_utf8(self@)
    }

    open spec fn wire_wf(&self) -> bool {
        encode_utf8(self@).len() <= usize::MAX
    }

    fn write(&self, sink: &mut Vec<u8>) -> (r: Result<(), WireError>) {
        let bytes: &[u8] = self.as_str().as_bytes();
        write_le(sink, bytes.len() as u64, 8);
        push_bytes(sink, bytes);
        proof {
            assert((old(sink)@ + le_bytes(bytes@.len() as nat, 8)) + bytes@ =~= old(sink)@
                + self.wire());
        }
        Ok(())
    }
}

impl Writable for &str {
    /// A 64-bit byte count, then that many bytes of UTF-8 text.
    open spec fn wire(&self) -> Seq<u8> {
        le_bytes(encode_utf8(self@).len() as nat, 8) + encode_utf8(self@)
    }

    open spec fn wire_wf(&self) -> bool {
        encode_utf8(self@).len() <= usize::MAX
    }

    fn write(&self, sink: &mut Vec<u8>) -> (r: Result<(), WireError>) {
        let bytes: &[u8] = self.as_bytes();
        write_le(sink, bytes.len() as u64, 8);
        push_bytes(sink, bytes);
        proof {
            assert((old(sink)@ + le_bytes(bytes@.len() as nat, 8)) + bytes@ =~= old(sink)@
                + self.wire());
        }
        Ok(())
    }
}

impl<T: Writable> Writable for Vec<T> {
    /// A 64-bit element count, then each element's encoding, in order.
    open spec fn wire(&self) -> Seq<u8> {
        le_bytes(self@.len() as nat, 8) + wire_elems(self@)
    }

    open spec fn wire_wf(&self) -> bool {
        self@.len() <= usize::MAX && forall|i: int|
            0 <= i < self@.len() ==> #[trigger] self@[i].wire_wf()
    }

    fn write(&self, sink: &mut Vec<u8>) -> (r: Result<(), WireError>) {
        let n = self.len();
        write_le(sink, n as u64, 8);
        let mut i: usize = 0;
        while i < n
            invariant
                i <= n,
                n == self@.len(),
                sink@ == old(sink)@ + le_bytes(n as nat, 8) + wire_elems(self@.take(i as int)),
            decreases n - i,
        {
            let ghost pre = sink@;
            self[i].write(sink)?;
            proof {
                lemma_wire_elems_snoc(self@, i as int);
                assert(pre + self@[i as int].wire() =~= old(sink)@ + le_bytes(n as nat, 8)
                    + wire_elems(self@.take(i + 1)));
            }
            i += 1;
        }
        proof {
            assert(self@.take(n as int) =~= self@);
            assert(old(sink)@ + le_bytes(n as nat, 8) + wire_elems(self@) =~= old(sink)@
                + self.wire());
        }
        Ok(())
    }
}

impl<T: Writable> Writable for Option<T> {
    /// A one-byte presence flag, then the payload's encoding when present.
    open spec fn wire(&self) -> Seq<u8> {
        match self {
            Some(v) => seq![1u8] + v.wire(),
            None => seq![0u8],
        }
    }

    open spec fn wire_wf(&self) -> bool {
        match self {
            Some(v) => v.wire_wf(),
            None => true,
        }
    }

    fn write(&self, sink: &mut Vec<u8>) -> (r: Result<(), WireError>) {
        match self {
            Some(v) => {
                sink.push(1);
                let ghost pre = sink@;
                proof {
                    assert(pre =~= old(sink)@ + seq![1u8]);
                }
                v.write(sink)?;
                proof {
                    assert(pre + v.wire() =~= old(sink)@ + self.wire());
                }
                Ok(())
            },
            None => {
                sink.push(0);
                proof {
                    assert(old(sink)@.push(0u8) =~= old(sink)@ + self.wire());
                }
                Ok(())
            },
        }
    }
}

impl<T: Writable> Writable for Box<[T]> {
    /// A 64-bit element count, then each element's encoding, in order: an
    /// owned slice encodes exactly like a sequence of the same elements.
    open spec fn wire(&self) -> Seq<u8> {
        le_bytes((**self)@.len() as nat, 8) + wire_elems((**self)@)
    }

    open spec fn wire_wf(&self) -> bool {
        (**self)@.len() <= usize::MAX && forall|i: int|
            0 <= i < (**self)@.len() ==> #[trigger] (**self)@[i].wire_wf()
    }

    #[verifier::loop_isolation(false)]
    fn write(&self, sink: &mut Vec<u8>) -> (r: Result<(), WireError>) {
        let elems: &[T] = &**self;
        let n = elems.len();
        write_le(sink, n as u64, 8);
        let mut i: usize = 0;
        while i < n
            invariant
                i <= n,
                sink@ == old(sink)@ + le_bytes(n as nat, 8) + wire_elems(elems@.take(i as int)),
            decreases n - i,
        {
            let ghost pre = sink@;
            elems[i].write(sink)?;
            proof {
                lemma_wire_elems_snoc(elems@, i as int);
                assert(pre + elems@[i as int].wire() =~= old(sink)@ + le_bytes(n as nat, 8)
                    + wire_elems(elems@.take(i + 1)));
            }
            i += 1;
        }
        proof {
            assert(elems@.take(n as int) =~= elems@);
            assert(old(sink)@ + le_bytes(n as nat, 8) + wire_elems(elems@) =~= old(sink)@
                + self.wire());
        }
        Ok(())
    }
}

impl<T: Writable> Writable for Box<T> {
    /// Exactly the contained value's encoding: indirection is invisible on
    /// the wire.
    open spec fn wire(&self) -> Seq<u8> {
        (**self).wire()
    }

    open spec fn wire_wf(&self) -> bool {
        (**self).wire_wf()
    }

    fn write(&self, sink: &mut Vec<u8>) -> (r: Result<(), WireError>) {
        (**self).write(sink)
    }
}

} // verus!
