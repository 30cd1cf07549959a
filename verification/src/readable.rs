//! The decode side of the codec: a total specification of what any byte
//! sequence decodes to (a value, or a failure, and how many bytes either
//! consumes), and the proof that reading follows that specification exactly.

use vstd::prelude::*;
use vstd::utf8::{decode_utf8, valid_utf8};

use crate::bytes::{le_val, lemma_le_val_bound, lemma_pow256_mono, lemma_pow256_vals, pow256};
use crate::error::WireError;
use crate::source::ByteSource;

verus! {

/// What a decode of `Self` does on a byte sequence: either a decoded value
/// (as its deep view) or an error, and in both cases the exact number of
/// bytes consumed from the front.
pub type DecResult<V> = Result<(V, int), (WireError, int)>;

/// A value that can be decoded from the front of a byte stream.
///
/// `dec` is the specification: applied to the bytes not yet consumed, it
/// says whether decoding succeeds, which value it produces, and exactly how
/// many bytes it consumes — also on failure, since a failed decode still
/// consumes the bytes it examined. `read` is the implementation, and its
/// contract ties it to `dec` exactly.
pub trait Readable: Sized + DeepView {
    /// What decoding does on the given bytes.
    spec fn dec(bytes: Seq<u8>) -> DecResult<<Self as DeepView>::V>;

    /// What must hold of the type — not of any particular input — for
    /// decoding to be meaningful. For every type the format ships it holds
    /// outright; a mapping asks that its key type's equality behave as an
    /// equality on what the wire can carry.
    spec fn dec_wf() -> bool;

    /// A decode never consumes more bytes than it was given.
    proof fn dec_consumes_within(bytes: Seq<u8>)
        ensures
            match Self::dec(bytes) {
                Ok((v, n)) => 0 <= n <= bytes.len(),
                Err((e, n)) => 0 <= n <= bytes.len(),
            },
    ;

    /// Consumes exactly the bytes of one encoded value from the source and
    /// produces the value, or fails exactly as `dec` says.
    fn read(src: &mut ByteSource) -> (r: Result<Self, WireError>)
        requires
            Self::dec_wf(),
        ensures
            match Self::dec(old(src).remaining()) {
                Ok((v, n)) => r matches Ok(w) && w.deep_view() == v && final(src).remaining()
                    == old(src).remaining().skip(n),
                Err((e, n)) => r matches Err(e2) && e2 == e && final(src).remaining() == old(src).remaining().skip(n),
            },
    ;
}

/// Decoding `n` values of `T` in sequence, accumulating the bytes consumed.
pub open spec fn dec_elems<T: Readable>(bytes: Seq<u8>, n: nat) -> DecResult<
    Seq<<T as DeepView>::V>,
>
    decreases n,
{
    if n == 0 {
        Ok((Seq::empty(), 0))
    } else {
        match T::dec(bytes) {
            Ok((v, c)) => match dec_elems::<T>(bytes.skip(c), (n - 1) as nat) {
                Ok((vs, m)) => Ok((seq![v] + vs, c + m)),
                Err((e, m)) => Err((e, c + m)),
            },
            Err((e, c)) => Err((e, c)),
        }
    }
}

/// Prefixing an element decode onto the decode of the remaining elements.
pub open spec fn dec_prepend<V>(vs: Seq<V>, c: int, r: DecResult<Seq<V>>) -> DecResult<Seq<V>> {
    match r {
        Ok((ws, m)) => Ok((vs + ws, c + m)),
        Err((e, m)) => Err((e, c + m)),
    }
}

/// Prefixing decoded elements one group at a time or all at once is the same.
pub proof fn lemma_dec_prepend_assoc<V>(a: Seq<V>, c1: int, b: Seq<V>, c2: int, r: DecResult<
    Seq<V>,
>)
    ensures
        dec_prepend(a, c1, dec_prepend(b, c2, r)) == dec_prepend(a + b, c1 + c2, r),
{
    match r {
        Ok((ws, m)) => {
            assert(a + (b + ws) =~= (a + b) + ws);
        },
        Err((e, m)) => {},
    }
}

/// A sequence decode never consumes more bytes than it was given, and on
/// success yields exactly as many values as were asked for.
pub proof fn lemma_dec_elems_within<T: Readable>(bytes: Seq<u8>, n: nat)
    ensures
        match dec_elems::<T>(bytes, n) {
            Ok((vs, m)) => 0 <= m <= bytes.len() && vs.len() == n,
            Err((e, m)) => 0 <= m <= bytes.len(),
        },
    decreases n,
{
    if n > 0 {
        T::dec_consumes_within(bytes);
        match T::dec(bytes) {
            Ok((v, c)) => {
                lemma_dec_elems_within::<T>(bytes.skip(c), (n - 1) as nat);
            },
            Err((e, c)) => {},
        }
    }
}

/// Consumes the next `n` bytes as a little-endian unsigned integer, or fails
/// without consuming anything when fewer than `n` bytes are available.
pub(crate) fn read_le(src: &mut ByteSource, n: usize) -> (r: Result<u64, WireError>)
    requires
        n <= 8,
    ensures
        old(src).remaining().len() >= n ==> (r matches Ok(v) && v as nat == le_val(
            old(src).remaining().take(n as int),
        ) && final(src).remaining() == old(src).remaining().skip(n as int)),
        old(src).remaining().len() < n ==> (r matches Err(e) && e == WireError::Exhausted
            && final(src).remaining() == old(src).remaining()),
{
    let buf = match src.take_bytes(n) {
        Ok(b) => b,
        Err(_) => {
            return Err(WireError::Exhausted);
        },
    };
    let mut val: u64 = 0;
    let mut i: usize = n;
    while i > 0
        invariant
            i <= n,
            n <= 8,
            buf@.len() == n,
            val as nat == le_val(buf@.subrange(i as int, n as int)),
        decreases i,
    {
        proof {
            lemma_le_val_bound(buf@.subrange(i as int, n as int));
            lemma_pow256_mono((n - i) as nat, 7);
            lemma_pow256_vals();
            assert(pow256(8) == 256 * pow256(7));
        }
        let ghost val0 = val as nat;
        val = val * 256 + (buf[i - 1] as u64);
        proof {
            let s = buf@.subrange(i - 1, n as int);
            assert(s[0] == buf@[i - 1]);
            assert(s.drop_first() =~= buf@.subrange(i as int, n as int));
            assert(le_val(s) == s[0] + 256 * le_val(s.drop_first()));
            assert(val as nat == buf@[i - 1] + 256 * val0);
        }
        i -= 1;
    }
    proof {
        assert(buf@.subrange(0, n as int) =~= buf@);
    }
    Ok(val)
}

impl Readable for u8 {
    /// One raw byte.
    open spec fn dec(bytes: Seq<u8>) -> DecResult<u8> {
        if bytes.len() >= 1 {
            Ok((bytes[0], 1))
        } else {
            Err((WireError::Exhausted, 0))
        }
    }

    open spec fn dec_wf() -> bool {
        true
    }

    proof fn dec_consumes_within(bytes: Seq<u8>) {
    }

    fn read(src: &mut ByteSource) -> (r: Result<u8, WireError>) {
        let ghost b0 = src.remaining();
        match read_le(src, 1) {
            Ok(v) => {
                proof {
                    let s = b0.take(1);
                    assert(s.drop_first() =~= Seq::<u8>::empty());
                    assert(le_val(s) == s[0] + 256 * le_val(s.drop_first()));
                    assert(v as nat == b0[0]);
                }
                Ok(v as u8)
            },
            Err(e) => {
                proof {
                    assert(b0.skip(0) =~= b0);
                }
                Err(e)
            },
        }
    }
}

impl Readable for u16 {
    /// Two bytes, little-endian.
    open spec fn dec(bytes: Seq<u8>) -> DecResult<u16> {
        if bytes.len() >= 2 {
            Ok(((le_val(bytes.take(2)) as u16), 2))
        } else {
            Err((WireError::Exhausted, 0))
        }
    }

    open spec fn dec_wf() -> bool {
        true
    }

    proof fn dec_consumes_within(bytes: Seq<u8>) {
    }

    fn read(src: &mut ByteSource) -> (r: Result<u16, WireError>) {
        let ghost b0 = src.remaining();
        match read_le(src, 2) {
            Ok(v) => {
                proof {
                    lemma_le_val_bound(b0.take(2));
                    lemma_pow256_vals();
                }
                Ok(v as u16)
            },
            Err(e) => {
                proof {
                    assert(b0.skip(0) =~= b0);
                }
                Err(e)
            },
        }
    }
}

impl Readable for u32 {
    /// Four bytes, little-endian.
    open spec fn dec(bytes: Seq<u8>) -> DecResult<u32> {
        if bytes.len() >= 4 {
            Ok(((le_val(bytes.take(4)) as u32), 4))
        } else {
            Err((WireError::Exhausted, 0))
        }
    }

    open spec fn dec_wf() -> bool {
        true
    }

    proof fn dec_consumes_within(bytes: Seq<u8>) {
    }

    fn read(src: &mut ByteSource) -> (r: Result<u32, WireError>) {
        let ghost b0 = src.remaining();
        match read_le(src, 4) {
            Ok(v) => {
                proof {
                    lemma_le_val_bound(b0.take(4));
                    lemma_pow256_vals();
                }
                Ok(v as u32)
            },
            Err(e) => {
                proof {
                    assert(b0.skip(0) =~= b0);
                }
                Err(e)
            },
        }
    }
}

impl Readable for u64 {
    /// Eight bytes, little-endian.
    open spec fn dec(bytes: Seq<u8>) -> DecResult<u64> {
        if bytes.len() >= 8 {
            Ok(((le_val(bytes.take(8)) as u64), 8))
        } else {
            Err((WireError::Exhausted, 0))
        }
    }

    open spec fn dec_wf() -> bool {
        true
    }

    proof fn dec_consumes_within(bytes: Seq<u8>) {
    }

    fn read(src: &mut ByteSource) -> (r: Result<u64, WireError>) {
        let ghost b0 = src.remaining();
        match read_le(src, 8) {
            Ok(v) => {
                proof {
                    lemma_le_val_bound(b0.take(8));
                    lemma_pow256_vals();
                }
                Ok(v)
            },
            Err(e) => {
                proof {
                    assert(b0.skip(0) =~= b0);
                }
                Err(e)
            },
        }
    }
}

impl Readable for usize {
    /// A size value: read as a 64-bit unsigned integer, then narrowed to the
    /// host's size type; a value that does not fit is an error, not a panic.
    open spec fn dec(bytes: Seq<u8>) -> DecResult<usize> {
        if bytes.len() < 8 {
            Err((WireError::Exhausted, 0))
        } else {
            let v = le_val(bytes.take(8));
            if v > usize::MAX as nat {
                Err((WireError::Unsupported, 8))
            } else {
                Ok(((v as usize), 8))
            }
        }
    }

    open spec fn dec_wf() -> bool {
        true
    }

    proof fn dec_consumes_within(bytes: Seq<u8>) {
    }

    fn read(src: &mut ByteSource) -> (r: Result<usize, WireError>) {
        let ghost b0 = src.remaining();
        match read_le(src, 8) {
            Ok(v) => {
                proof {
                    lemma_le_val_bound(b0.take(8));
                    lemma_pow256_vals();
                }
                if v > usize::MAX as u64 {
                    Err(WireError::Unsupported)
                } else {
                    Ok(v as usize)
                }
            },
            Err(e) => {
                proof {
                    assert(b0.skip(0) =~= b0);
                }
                Err(e)
            },
        }
    }
}

impl Readable for bool {
    /// One flag byte. Zero reads as false; any nonzero byte reads as true,
    /// a tolerated edge of the format rather than a promise.
    open spec fn dec(bytes: Seq<u8>) -> DecResult<bool> {
        if bytes.len() >= 1 {
            Ok((bytes[0] != 0, 1))
        } else {
            Err((WireError::Exhausted, 0))
        }
    }

    open spec fn dec_wf() -> bool {
        true
    }

    proof fn dec_consumes_within(bytes: Seq<u8>) {
    }

    fn read(src: &mut ByteSource) -> (r: Result<bool, WireError>) {
        let ghost b0 = src.remaining();
        match read_le(src, 1) {
            Ok(v) => {
                proof {
                    let s = b0.take(1);
                    assert(s.drop_first() =~= Seq::<u8>::empty());
                    assert(le_val(s) == s[0] + 256 * le_val(s.drop_first()));
                    assert(v as nat == b0[0]);
                }
                Ok(v != 0)
            },
            Err(e) => {
                proof {
                    assert(b0.skip(0) =~= b0);
                }
                Err(e)
            },
        }
    }
}

/// Relies on `String::from_utf8`: it succeeds exactly on the byte sequences
/// that are valid UTF-8, and then yields the characters those bytes encode.
#[verifier::external_body]
fn string_from_utf8(bytes: Vec<u8>) -> (r: Result<String, WireError>)
    ensures
        match r {
            Ok(s) => valid_utf8(bytes@) && s@ == decode_utf8(bytes@),
            Err(e) => !valid_utf8(bytes@) && e == WireError::InvalidData,
        },
{
    match String::from_utf8(bytes) {
        Ok(s) => Ok(s),
        Err(_) => Err(WireError::InvalidData),
    }
}

impl Readable for String {
    /// A 64-bit byte count, then that many bytes, validated as UTF-8. The
    /// declared bytes are consumed even when validation then fails.
    open spec fn dec(bytes: Seq<u8>) -> DecResult<Seq<char>> {
        match <usize as Readable>::dec(bytes) {
            Ok((n, c)) => {
                let body = bytes.skip(c);
                if body.len() < n {
                    Err((WireError::Exhausted, c))
                } else {
                    let bs = body.take(n as int);
                    if valid_utf8(bs) {
                        Ok((decode_utf8(bs), c + n))
                    } else {
                        Err((WireError::InvalidData, c + n))
                    }
                }
            },
            Err((e, c)) => Err((e, c)),
        }
    }

    open spec fn dec_wf() -> bool {
        true
    }

    proof fn dec_consumes_within(bytes: Seq<u8>) {
    }

    fn read(src: &mut ByteSource) -> (r: Result<String, WireError>) {
        let ghost b0 = src.remaining();
        let n = match <usize as Readable>::read(src) {
            Ok(n) => n,
            Err(e) => {
                return Err(e);
            },
        };
        let ghost body = b0.skip(8);
        let bytes = match src.take_bytes(n) {
            Ok(v) => v,
            Err(e) => {
                return Err(e);
            },
        };
        proof {
            assert(body.skip(n as int) =~= b0.skip(8 + n));
        }
        string_from_utf8(bytes)
    }
}

impl<T: Readable> Readable for Vec<T> {
    /// A 64-bit element count, then that many encoded elements, in order;
    /// the first element failure is the sequence's failure.
    open spec fn dec(bytes: Seq<u8>) -> DecResult<Seq<<T as DeepView>::V>> {
        match <usize as Readable>::dec(bytes) {
            Ok((n, c)) => match dec_elems::<T>(bytes.skip(c), n as nat) {
                Ok((vs, m)) => Ok((vs, c + m)),
                Err((e, m)) => Err((e, c + m)),
            },
            Err((e, c)) => Err((e, c)),
        }
    }

    open spec fn dec_wf() -> bool {
        T::dec_wf()
    }

    proof fn dec_consumes_within(bytes: Seq<u8>) {
        match <usize as Readable>::dec(bytes) {
            Ok((n, c)) => {
                lemma_dec_elems_within::<T>(bytes.skip(c), n as nat);
            },
            Err((e, c)) => {},
        }
    }

    #[verifier::loop_isolation(false)]
    fn read(src: &mut ByteSource) -> (r: Result<Vec<T>, WireError>) {
        let ghost b0 = src.remaining();
        let n = match <usize as Readable>::read(src) {
            Ok(n) => n,
            Err(e) => {
                return Err(e);
            },
        };
        let ghost body = b0.skip(8);
        let mut res: Vec<T> = Vec::new();
        let ghost mut used: int = 0;
        let mut i: usize = 0;
        proof {
            assert(body.skip(0) =~= body);
            assert(res.deep_view() =~= Seq::<<T as DeepView>::V>::empty());
            match dec_elems::<T>(body, n as nat) {
                Ok((ws, m)) => {
                    assert(res.deep_view() + ws =~= ws);
                },
                Err((e, m)) => {},
            }
        }
        while i < n
            invariant
                i <= n,
                0 <= used <= body.len(),
                src.remaining() == body.skip(used),
                dec_elems::<T>(body, n as nat) == dec_prepend(
                    res.deep_view(),
                    used,
                    dec_elems::<T>(src.remaining(), (n - i) as nat),
                ),
            decreases n - i,
        {
            let ghost rem_i = src.remaining();
            let ghost res0 = res.deep_view();
            proof {
                T::dec_consumes_within(rem_i);
            }
            let w = match T::read(src) {
                Ok(w) => w,
                Err(e) => {
                    proof {
                        let (e2, c2) = T::dec(rem_i)->Err_0;
                        assert(dec_elems::<T>(rem_i, (n - i) as nat) == Err::<
                            (Seq<<T as DeepView>::V>, int),
                            (WireError, int),
                        >((e2, c2)));
                        assert(b0.len() >= 8);
                        assert(body.skip(used).skip(c2) =~= body.skip(used + c2));
                        assert(body.skip(used + c2) =~= b0.skip(8 + used + c2));
                    }
                    return Err(e);
                },
            };
            proof {
                let (v, c) = T::dec(rem_i)->Ok_0;
                assert(dec_elems::<T>(rem_i, (n - i) as nat) == dec_prepend(
                    seq![v],
                    c,
                    dec_elems::<T>(rem_i.skip(c), (n - i - 1) as nat),
                ));
                lemma_dec_prepend_assoc(
                    res0,
                    used,
                    seq![v],
                    c,
                    dec_elems::<T>(rem_i.skip(c), (n - i - 1) as nat),
                );
                assert(b0.len() >= 8);
                assert(body.skip(used).skip(c) =~= body.skip(used + c));
                used = used + c;
            }
            res.push(w);
            proof {
                assert(res.deep_view() =~= res0 + seq![T::dec(rem_i)->Ok_0.0]);
            }
            i += 1;
        }
        proof {
            assert(dec_elems::<T>(src.remaining(), 0) == Ok::<_, (WireError, int)>((
                Seq::<<T as DeepView>::V>::empty(),
                0int,
            )));
            assert(res.deep_view() + Seq::<<T as DeepView>::V>::empty() =~= res.deep_view());
            assert(b0.len() >= 8);
            assert(body.skip(used) =~= b0.skip(8 + used));
        }
        Ok(res)
    }
}

impl<T: Readable> Readable for Option<T> {
    /// A one-byte presence flag, then the payload's encoding when the flag
    /// is nonzero; a zero flag is an absent value.
    open spec fn dec(bytes: Seq<u8>) -> DecResult<Option<<T as DeepView>::V>> {
        if bytes.len() < 1 {
            Err((WireError::Exhausted, 0))
        } else if bytes[0] == 0 {
            Ok((None, 1))
        } else {
            match T::dec(bytes.skip(1)) {
                Ok((v, c)) => Ok((Some(v), 1 + c)),
                Err((e, c)) => Err((e, 1 + c)),
            }
        }
    }

    open spec fn dec_wf() -> bool {
        T::dec_wf()
    }

    proof fn dec_consumes_within(bytes: Seq<u8>) {
        if bytes.len() >= 1 && bytes[0] != 0 {
            T::dec_consumes_within(bytes.skip(1));
        }
    }

    fn read(src: &mut ByteSource) -> (r: Result<Option<T>, WireError>) {
        let ghost b0 = src.remaining();
        let flag = match read_le(src, 1) {
            Ok(v) => {
                proof {
                    let s = b0.take(1);
                    assert(s.drop_first() =~= Seq::<u8>::empty());
                    assert(le_val(s) == s[0] + 256 * le_val(s.drop_first()));
                    assert(v as nat == b0[0]);
                }
                v
            },
            Err(e) => {
                proof {
                    assert(b0.skip(0) =~= b0);
                }
                return Err(e);
            },
        };
        if flag == 0 {
            return Ok(None);
        }
        proof {
            T::dec_consumes_within(b0.skip(1));
        }
        match T::read(src) {
            Ok(w) => {
                proof {
                    let (v, c) = T::dec(b0.skip(1))->Ok_0;
                    assert(b0.skip(1).skip(c) =~= b0.skip(1 + c));
                }
                Ok(Some(w))
            },
            Err(e) => {
                proof {
                    let (e2, c) = T::dec(b0.skip(1))->Err_0;
                    assert(b0.skip(1).skip(c) =~= b0.skip(1 + c));
                }
                Err(e)
            },
        }
    }
}

/// Relies on `Vec::into_boxed_slice`: the slice holds exactly the vector's
/// elements, in order.
#[verifier::external_body]
fn vec_into_boxed_slice<T>(v: Vec<T>) -> (r: Box<[T]>)
    ensures
        r@ == v@,
{
    v.into_boxed_slice()
}

impl<T: Readable> Readable for Box<[T]> {
    /// A 64-bit element count, then that many encoded elements: an owned
    /// slice decodes exactly like a sequence of the same elements.
    open spec fn dec(bytes: Seq<u8>) -> DecResult<Seq<<T as DeepView>::V>> {
        <Vec<T> as Readable>::dec(bytes)
    }

    open spec fn dec_wf() -> bool {
        T::dec_wf()
    }

    proof fn dec_consumes_within(bytes: Seq<u8>) {
        <Vec<T> as Readable>::dec_consumes_within(bytes);
    }

    fn read(src: &mut ByteSource) -> (r: Result<Box<[T]>, WireError>) {
        match <Vec<T> as Readable>::read(src) {
            Ok(v) => {
                let ghost dv = v.deep_view();
                let b = vec_into_boxed_slice(v);
                proof {
                    assert(b.deep_view() =~= dv);
                }
                Ok(b)
            },
            Err(e) => Err(e),
        }
    }
}

impl<T: Readable> Readable for Box<T> {
    /// Exactly the contained type's decode: indirection is invisible on the
    /// wire.
    open spec fn dec(bytes: Seq<u8>) -> DecResult<<T as DeepView>::V> {
        T::dec(bytes)
    }

    open spec fn dec_wf() -> bool {
        T::dec_wf()
    }

    proof fn dec_consumes_within(bytes: Seq<u8>) {
        T::dec_consumes_within(bytes);
    }

    fn read(src: &mut ByteSource) -> (r: Result<Box<T>, WireError>) {
        match T::read(src) {
            Ok(v) => Ok(Box::new(v)),
            Err(e) => Err(e),
        }
    }
}

} // verus!
