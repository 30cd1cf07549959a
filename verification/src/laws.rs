//! The format's laws, stated and proved once and for all.
//!
//! The central law is the round trip: decoding an encoding, with anything at
//! all after it in the stream, yields exactly the encoded value and consumes
//! exactly its bytes. It holds for every primitive codec and is preserved by
//! every container codec, so it holds for every type the format can build.
//! Beside it stand the length-prefix law, the short-read law and the
//! invalid-text law.

use vstd::prelude::*;
use vstd::utf8::{encode_utf8, encode_utf8_decode_utf8, encode_utf8_valid_utf8, valid_utf8};

use crate::bytes::{
    le_bytes, lemma_le_bytes_len, lemma_le_bytes_prefix, lemma_le_round_trip, lemma_pow256_vals,
};
use crate::error::WireError;
use crate::map::{dec_pairs, lemma_collapse_unique, wire_pairs, WireMap};
use crate::readable::{dec_elems, Readable};
use crate::writable::{wire_elems, Writable};

verus! {

/// The round-trip law for a type: decoding an encoding, with any bytes at
/// all after it, yields exactly the encoded value (as its deep view) and
/// consumes exactly the encoding's bytes.
pub open spec fn round_trips<T: Readable + Writable>() -> bool {
    forall|v: T, rest: Seq<u8>|
        v.wire_wf() ==> #[trigger] T::dec(v.wire() + rest) == Ok::<
            (<T as DeepView>::V, int),
            (WireError, int),
        >((v.deep_view(), v.wire().len() as int))
}

/// A stream that starts with the encoding of a size value `n` decodes, as a
/// size value, to exactly `n`, consuming the eight prefix bytes.
pub proof fn lemma_dec_size_prefix(n: nat, tail: Seq<u8>)
    requires
        n <= usize::MAX,
    ensures
        <usize as Readable>::dec(le_bytes(n, 8) + tail) == Ok::<(usize, int), (WireError, int)>((
            n as usize,
            8int,
        )),
        (le_bytes(n, 8) + tail).skip(8) == tail,
{
    lemma_le_bytes_len(n, 8);
    lemma_le_bytes_prefix(n, 8, tail);
    lemma_pow256_vals();
    lemma_le_round_trip(n, 8);
    assert((le_bytes(n, 8) + tail).skip(8) =~= tail);
}

/// The length-prefix law: encoding a sequence of `n` elements produces a
/// stream whose first bytes decode, as the length-value encoding, to
/// exactly `n`.
pub proof fn lemma_length_prefix_exact<T: Writable>(v: &Vec<T>, rest: Seq<u8>)
    requires
        v@.len() <= usize::MAX,
    ensures
        <usize as Readable>::dec(v.wire() + rest) == Ok::<(usize, int), (WireError, int)>((
            v@.len() as usize,
            8int,
        )),
{
    assert(v.wire() + rest =~= le_bytes(v@.len() as nat, 8) + (wire_elems(v@) + rest));
    lemma_dec_size_prefix(v@.len() as nat, wire_elems(v@) + rest);
}

/// The round-trip law for single raw bytes.
pub proof fn lemma_round_trip_u8()
    ensures
        round_trips::<u8>(),
{
    assert forall|v: u8, rest: Seq<u8>| v.wire_wf() implies #[trigger] <u8 as Readable>::dec(
        v.wire() + rest,
    ) == Ok::<(u8, int), (WireError, int)>((v.deep_view(), v.wire().len() as int)) by {
        let b = v.wire() + rest;
        assert(b[0] == v);
        assert(v.wire().len() == 1);
    }
}

/// The round-trip law for 16-bit values.
pub proof fn lemma_round_trip_u16()
    ensures
        round_trips::<u16>(),
{
    assert forall|v: u16, rest: Seq<u8>| v.wire_wf() implies #[trigger] <u16 as Readable>::dec(
        v.wire() + rest,
    ) == Ok::<(u16, int), (WireError, int)>((v.deep_view(), v.wire().len() as int)) by {
        lemma_le_bytes_len(v as nat, 2);
        lemma_le_bytes_prefix(v as nat, 2, rest);
        lemma_pow256_vals();
        lemma_le_round_trip(v as nat, 2);
    }
}

/// The round-trip law for 32-bit values.
pub proof fn lemma_round_trip_u32()
    ensures
        round_trips::<u32>(),
{
    assert forall|v: u32, rest: Seq<u8>| v.wire_wf() implies #[trigger] <u32 as Readable>::dec(
        v.wire() + rest,
    ) == Ok::<(u32, int), (WireError, int)>((v.deep_view(), v.wire().len() as int)) by {
        lemma_le_bytes_len(v as nat, 4);
        lemma_le_bytes_prefix(v as nat, 4, rest);
        lemma_pow256_vals();
        lemma_le_round_trip(v as nat, 4);
    }
}

/// The round-trip law for 64-bit values.
pub proof fn lemma_round_trip_u64()
    ensures
        round_trips::<u64>(),
{
    assert forall|v: u64, rest: Seq<u8>| v.wire_wf() implies #[trigger] <u64 as Readable>::dec(
        v.wire() + rest,
    ) == Ok::<(u64, int), (WireError, int)>((v.deep_view(), v.wire().len() as int)) by {
        lemma_le_bytes_len(v as nat, 8);
        lemma_le_bytes_prefix(v as nat, 8, rest);
        lemma_pow256_vals();
        lemma_le_round_trip(v as nat, 8);
    }
}

/// The round-trip law for size values.
pub proof fn lemma_round_trip_usize()
    ensures
        round_trips::<usize>(),
{
    assert forall|v: usize, rest: Seq<u8>| v.wire_wf() implies #[trigger] <usize as Readable>::dec(
        v.wire() + rest,
    ) == Ok::<(usize, int), (WireError, int)>((v.deep_view(), v.wire().len() as int)) by {
        lemma_le_bytes_len(v as nat, 8);
        lemma_dec_size_prefix(v as nat, rest);
    }
}

/// The round-trip law for booleans.
pub proof fn lemma_round_trip_bool()
    ensures
        round_trips::<bool>(),
{
    assert forall|v: bool, rest: Seq<u8>| v.wire_wf() implies #[trigger] <bool as Readable>::dec(
        v.wire() + rest,
    ) == Ok::<(bool, int), (WireError, int)>((v.deep_view(), v.wire().len() as int)) by {
        let b = v.wire() + rest;
        assert(b[0] == (if v {
            1u8
        } else {
            0u8
        }));
        assert(v.wire().len() == 1);
    }
}

/// The round-trip law for text.
pub proof fn lemma_round_trip_string()
    ensures
        round_trips::<String>(),
{
    assert forall|v: String, rest: Seq<u8>| v.wire_wf() implies #[trigger]
    <String as Readable>::dec(v.wire() + rest) == Ok::<(Seq<char>, int), (WireError, int)>((
        v.deep_view(),
        v.wire().len() as int,
    )) by {
        let bs = encode_utf8(v@);
        let tail = bs + rest;
        assert(v.wire() + rest =~= le_bytes(bs.len() as nat, 8) + tail);
        lemma_dec_size_prefix(bs.len() as nat, tail);
        assert(tail.take(bs.len() as int) =~= bs);
        encode_utf8_valid_utf8(v@);
        encode_utf8_decode_utf8(v@);
        lemma_le_bytes_len(bs.len() as nat, 8);
    }
}

/// The deep views of a sequence's elements, in order.
pub open spec fn deep_seq<T: DeepView>(s: Seq<T>) -> Seq<<T as DeepView>::V> {
    Seq::new(s.len(), |i: int| s[i].deep_view())
}

/// Decoding the concatenated encodings of a sequence of values, with any
/// bytes after them, yields exactly those values and consumes exactly the
/// encodings' bytes.
pub proof fn lemma_dec_elems_round_trip<T: Readable + Writable>(s: Seq<T>, rest: Seq<u8>)
    requires
        round_trips::<T>(),
        forall|i: int| 0 <= i < s.len() ==> (#[trigger] s[i]).wire_wf(),
    ensures
        dec_elems::<T>(wire_elems(s) + rest, s.len() as nat) == Ok::<
            (Seq<<T as DeepView>::V>, int),
            (WireError, int),
        >((deep_seq(s), wire_elems(s).len() as int)),
    decreases s.len(),
{
    if s.len() == 0 {
        assert(deep_seq(s) =~= Seq::<<T as DeepView>::V>::empty());
    } else {
        let h = s.first();
        let t = s.drop_first();
        let hw = h.wire();
        let tw = wire_elems(t);
        assert(wire_elems(s) == hw + tw);
        assert((hw + tw) + rest =~= hw + (tw + rest));
        assert(s[0].wire_wf());
        assert(T::dec(hw + (tw + rest)) == Ok::<(<T as DeepView>::V, int), (WireError, int)>((
            h.deep_view(),
            hw.len() as int,
        )));
        assert((hw + (tw + rest)).skip(hw.len() as int) =~= tw + rest);
        assert forall|i: int| 0 <= i < t.len() implies (#[trigger] t[i]).wire_wf() by {
            assert(t[i] == s[i + 1]);
        }
        lemma_dec_elems_round_trip(t, rest);
        assert(deep_seq(s) =~= seq![h.deep_view()] + deep_seq(t));
    }
}

/// The round-trip law for sequences: it holds whenever it holds for the
/// element type. The hypothesis cannot be dropped — `Readable` is open, so
/// an element decoder is otherwise unconstrained — but the lemmas above
/// discharge it for every type the format ships, making the law
/// unconditional at every concrete element type.
pub proof fn lemma_round_trip_vec<T: Readable + Writable>()
    requires
        round_trips::<T>(),
    ensures
        round_trips::<Vec<T>>(),
{
    assert forall|v: Vec<T>, rest: Seq<u8>| v.wire_wf() implies #[trigger]
    <Vec<T> as Readable>::dec(v.wire() + rest) == Ok::<
        (Seq<<T as DeepView>::V>, int),
        (WireError, int),
    >((v.deep_view(), v.wire().len() as int)) by {
        let ew = wire_elems(v@);
        let tail = ew + rest;
        assert(v.wire() + rest =~= le_bytes(v@.len() as nat, 8) + tail);
        lemma_dec_size_prefix(v@.len() as nat, tail);
        lemma_dec_elems_round_trip(v@, rest);
        lemma_le_bytes_len(v@.len() as nat, 8);
        assert(v.deep_view() =~= deep_seq(v@));
    }
}

/// Decoding the concatenated encodings of a sequence of key–value pairs,
/// with any bytes after them, yields exactly those pairs and consumes
/// exactly the encodings' bytes.
pub proof fn lemma_dec_pairs_round_trip<K: PartialEq + Readable + Writable, V: Readable + Writable>(
    s: Seq<(K, V)>,
    rest: Seq<u8>,
)
    requires
        round_trips::<K>(),
        round_trips::<V>(),
        forall|i: int| 0 <= i < s.len() ==> (#[trigger] s[i].0.wire_wf()) && s[i].1.wire_wf(),
    ensures
        dec_pairs::<K, V>(wire_pairs(s) + rest, s.len() as nat) == Ok::<
            (Seq<(<K as DeepView>::V, <V as DeepView>::V)>, int),
            (WireError, int),
        >((deep_seq(s), wire_pairs(s).len() as int)),
    decreases s.len(),
{
    if s.len() == 0 {
        assert(deep_seq(s) =~= Seq::<(<K as DeepView>::V, <V as DeepView>::V)>::empty());
    } else {
        let h = s.first();
        let t = s.drop_first();
        let kw = h.0.wire();
        let vw = h.1.wire();
        let tw = wire_pairs(t);
        assert(wire_pairs(s) == kw + vw + tw);
        assert((kw + vw + tw) + rest =~= kw + ((vw + tw) + rest));
        assert(s[0].0.wire_wf() && s[0].1.wire_wf());
        assert(K::dec(kw + ((vw + tw) + rest)) == Ok::<(<K as DeepView>::V, int), (WireError, int)>(
            (h.0.deep_view(), kw.len() as int),
        ));
        assert((kw + ((vw + tw) + rest)).skip(kw.len() as int) =~= vw + (tw + rest));
        assert(V::dec(vw + (tw + rest)) == Ok::<(<V as DeepView>::V, int), (WireError, int)>((
            h.1.deep_view(),
            vw.len() as int,
        )));
        assert((vw + (tw + rest)).skip(vw.len() as int) =~= tw + rest);
        assert forall|i: int| 0 <= i < t.len() implies (#[trigger] t[i].0.wire_wf())
            && t[i].1.wire_wf() by {
            assert(t[i] == s[i + 1]);
        }
        lemma_dec_pairs_round_trip(t, rest);
        assert((h.0.deep_view(), h.1.deep_view()) == h.deep_view());
        assert(deep_seq(s) =~= seq![h.deep_view()] + deep_seq(t));
    }
}

/// The round-trip law for mappings: it holds whenever it holds for the key
/// type and the value type.
pub proof fn lemma_round_trip_map<K: PartialEq + Readable + Writable, V: Readable + Writable>()
    requires
        round_trips::<K>(),
        round_trips::<V>(),
    ensures
        round_trips::<WireMap<K, V>>(),
{
    assert forall|v: WireMap<K, V>, rest: Seq<u8>| v.wire_wf() implies #[trigger] <WireMap<
        K,
        V,
    > as Readable>::dec(v.wire() + rest) == Ok::<
        (Seq<(<K as DeepView>::V, <V as DeepView>::V)>, int),
        (WireError, int),
    >((v.deep_view(), v.wire().len() as int)) by {
        let pw = wire_pairs(v@);
        let tail = pw + rest;
        assert(v.wire() + rest =~= le_bytes(v@.len() as nat, 8) + tail);
        lemma_dec_size_prefix(v@.len() as nat, tail);
        lemma_dec_pairs_round_trip(v@, rest);
        lemma_le_bytes_len(v@.len() as nat, 8);
        assert(v.deep_view() =~= deep_seq(v@));
        assert forall|i: int, j: int| 0 <= i < j < deep_seq(v@).len() implies (#[trigger] deep_seq(
            v@,
        )[i].0) != (#[trigger] deep_seq(v@)[j].0) by {
            assert(deep_seq(v@)[i].0 == v@[i].0.deep_view());
            assert(deep_seq(v@)[j].0 == v@[j].0.deep_view());
        }
        lemma_collapse_unique(deep_seq(v@));
    }
}

/// The round-trip law for optional values: it holds whenever it holds for
/// the payload type.
pub proof fn lemma_round_trip_option<T: Readable + Writable>()
    requires
        round_trips::<T>(),
    ensures
        round_trips::<Option<T>>(),
{
    assert forall|v: Option<T>, rest: Seq<u8>| v.wire_wf() implies #[trigger] <Option<
        T,
    > as Readable>::dec(v.wire() + rest) == Ok::<
        (Option<<T as DeepView>::V>, int),
        (WireError, int),
    >((v.deep_view(), v.wire().len() as int)) by {
        let b = v.wire() + rest;
        match v {
            Some(x) => {
                assert(b[0] == 1u8);
                assert(b.skip(1) =~= x.wire() + rest);
                assert(T::dec(x.wire() + rest) == Ok::<(<T as DeepView>::V, int), (WireError, int)>(
                    (x.deep_view(), x.wire().len() as int),
                ));
                assert(v.wire() =~= seq![1u8] + x.wire());
            },
            None => {
                assert(b[0] == 0u8);
                assert(v.wire().len() == 1);
            },
        }
    }
}

/// The round-trip law for owned slices: it holds whenever it holds for the
/// element type.
pub proof fn lemma_round_trip_boxed_slice<T: Readable + Writable>()
    requires
        round_trips::<T>(),
    ensures
        round_trips::<Box<[T]>>(),
{
    assert forall|v: Box<[T]>, rest: Seq<u8>| v.wire_wf() implies #[trigger]
    <Box<[T]> as Readable>::dec(v.wire() + rest) == Ok::<
        (Seq<<T as DeepView>::V>, int),
        (WireError, int),
    >((v.deep_view(), v.wire().len() as int)) by {
        let s = (*v)@;
        let ew = wire_elems(s);
        let tail = ew + rest;
        assert(v.wire() + rest =~= le_bytes(s.len() as nat, 8) + tail);
        lemma_dec_size_prefix(s.len() as nat, tail);
        lemma_dec_elems_round_trip(s, rest);
        lemma_le_bytes_len(s.len() as nat, 8);
        assert(v.deep_view() =~= deep_seq(s));
    }
}

/// The short-read law for owned slices: it holds whenever the round-trip
/// and short-read laws hold for the element type.
pub proof fn lemma_short_read_boxed_slice<T: Readable + Writable>()
    requires
        round_trips::<T>(),
        short_reads_exhaust::<T>(),
    ensures
        short_reads_exhaust::<Box<[T]>>(),
{
    assert forall|v: Box<[T]>, k: int| v.wire_wf() && 0 <= k < v.wire().len() implies (#[trigger]
    <Box<[T]> as Readable>::dec(v.wire().take(k)) matches Err((e, c)) && e
        == WireError::Exhausted) by {
        let s = (*v)@;
        lemma_le_bytes_len(s.len() as nat, 8);
        if k < 8 {
            assert(v.wire().take(k).len() == k);
        } else {
            assert(v.wire().take(k) =~= le_bytes(s.len() as nat, 8) + wire_elems(s).take(k - 8));
            lemma_dec_size_prefix(s.len() as nat, wire_elems(s).take(k - 8));
            lemma_short_dec_elems(s, k - 8);
        }
    }
}

/// The round-trip law for owned indirect values: it holds whenever it holds
/// for the contained type.
pub proof fn lemma_round_trip_box<T: Readable + Writable>()
    requires
        round_trips::<T>(),
    ensures
        round_trips::<Box<T>>(),
{
    assert forall|v: Box<T>, rest: Seq<u8>| v.wire_wf() implies #[trigger]
    <Box<T> as Readable>::dec(v.wire() + rest) == Ok::<(<T as DeepView>::V, int), (WireError, int)>(
        (v.deep_view(), v.wire().len() as int),
    ) by {
        assert((*v).wire_wf());
        assert(T::dec((*v).wire() + rest) == Ok::<(<T as DeepView>::V, int), (WireError, int)>((
            (*v).deep_view(),
            (*v).wire().len() as int,
        )));
    }
}

/// The short-read law for a type: decoding any strict prefix of an
/// encoding fails with the exhaustion error — never a wrong value, never a
/// partial one.
pub open spec fn short_reads_exhaust<T: Readable + Writable>() -> bool {
    forall|v: T, k: int|
        v.wire_wf() && 0 <= k < v.wire().len() ==> (#[trigger] T::dec(v.wire().take(k)) matches Err(
            (e, c),
        ) && e == WireError::Exhausted)
}

/// The short-read law for every fixed-width codec.
pub proof fn lemma_short_read_fixed()
    ensures
        short_reads_exhaust::<u8>(),
        short_reads_exhaust::<u16>(),
        short_reads_exhaust::<u32>(),
        short_reads_exhaust::<u64>(),
        short_reads_exhaust::<usize>(),
        short_reads_exhaust::<bool>(),
{
    assert forall|v: u16, k: int| v.wire_wf() && 0 <= k < v.wire().len() implies (#[trigger]
    <u16 as Readable>::dec(v.wire().take(k)) matches Err((e, c)) && e == WireError::Exhausted) by {
        lemma_le_bytes_len(v as nat, 2);
    }
    assert forall|v: u32, k: int| v.wire_wf() && 0 <= k < v.wire().len() implies (#[trigger]
    <u32 as Readable>::dec(v.wire().take(k)) matches Err((e, c)) && e == WireError::Exhausted) by {
        lemma_le_bytes_len(v as nat, 4);
    }
    assert forall|v: u64, k: int| v.wire_wf() && 0 <= k < v.wire().len() implies (#[trigger]
    <u64 as Readable>::dec(v.wire().take(k)) matches Err((e, c)) && e == WireError::Exhausted) by {
        lemma_le_bytes_len(v as nat, 8);
    }
    assert forall|v: usize, k: int| v.wire_wf() && 0 <= k < v.wire().len() implies (#[trigger]
    <usize as Readable>::dec(v.wire().take(k)) matches Err((e, c)) && e
        == WireError::Exhausted) by {
        lemma_le_bytes_len(v as nat, 8);
    }
}

/// The short-read law for text: a prefix that cuts the length value or the
/// declared bytes short fails with the exhaustion error.
pub proof fn lemma_short_read_string()
    ensures
        short_reads_exhaust::<String>(),
{
    assert forall|v: String, k: int| v.wire_wf() && 0 <= k < v.wire().len() implies (#[trigger]
    <String as Readable>::dec(v.wire().take(k)) matches Err((e, c)) && e
        == WireError::Exhausted) by {
        let bs = encode_utf8(v@);
        lemma_le_bytes_len(bs.len() as nat, 8);
        if k < 8 {
            assert(v.wire().take(k).len() == k);
        } else {
            assert(v.wire().take(k) =~= le_bytes(bs.len() as nat, 8) + bs.take(k - 8));
            lemma_dec_size_prefix(bs.len() as nat, bs.take(k - 8));
        }
    }
}

/// Decoding a strict prefix of a sequence of encodings fails with the
/// exhaustion error.
pub proof fn lemma_short_dec_elems<T: Readable + Writable>(s: Seq<T>, k: int)
    requires
        round_trips::<T>(),
        short_reads_exhaust::<T>(),
        forall|i: int| 0 <= i < s.len() ==> (#[trigger] s[i]).wire_wf(),
        0 <= k < wire_elems(s).len(),
    ensures
        dec_elems::<T>(wire_elems(s).take(k), s.len() as nat) matches Err((e, c)) && e
            == WireError::Exhausted,
    decreases s.len(),
{
    assert(s.len() > 0);
    let h = s.first();
    let t = s.drop_first();
    let hw = h.wire();
    let tw = wire_elems(t);
    assert(wire_elems(s) == hw + tw);
    assert(s[0].wire_wf());
    assert forall|i: int| 0 <= i < t.len() implies (#[trigger] t[i]).wire_wf() by {
        assert(t[i] == s[i + 1]);
    }
    if k < hw.len() {
        assert(wire_elems(s).take(k) =~= hw.take(k));
        assert(T::dec(hw.take(k)) matches Err((e, c)) && e == WireError::Exhausted);
    } else {
        let k2 = k - hw.len();
        assert(wire_elems(s).take(k) =~= hw + tw.take(k2));
        assert(T::dec(hw + tw.take(k2)) == Ok::<(<T as DeepView>::V, int), (WireError, int)>((
            h.deep_view(),
            hw.len() as int,
        )));
        assert((hw + tw.take(k2)).skip(hw.len() as int) =~= tw.take(k2));
        lemma_short_dec_elems(t, k2);
    }
}

/// The short-read law for sequences: it holds whenever the round-trip and
/// short-read laws hold for the element type — and those are proved above
/// for every type the format ships, so the law is unconditional at every
/// concrete element type.
pub proof fn lemma_short_read_vec<T: Readable + Writable>()
    requires
        round_trips::<T>(),
        short_reads_exhaust::<T>(),
    ensures
        short_reads_exhaust::<Vec<T>>(),
{
    assert forall|v: Vec<T>, k: int| v.wire_wf() && 0 <= k < v.wire().len() implies (#[trigger]
    <Vec<T> as Readable>::dec(v.wire().take(k)) matches Err((e, c)) && e
        == WireError::Exhausted) by {
        lemma_le_bytes_len(v@.len() as nat, 8);
        if k < 8 {
            assert(v.wire().take(k).len() == k);
        } else {
            assert(v.wire().take(k) =~= le_bytes(v@.len() as nat, 8) + wire_elems(v@).take(k - 8));
            lemma_dec_size_prefix(v@.len() as nat, wire_elems(v@).take(k - 8));
            lemma_short_dec_elems(v@, k - 8);
        }
    }
}

/// Decoding a strict prefix of a sequence of pair encodings fails with the
/// exhaustion error.
pub proof fn lemma_short_dec_pairs<K: PartialEq + Readable + Writable, V: Readable + Writable>(
    s: Seq<(K, V)>,
    k: int,
)
    requires
        round_trips::<K>(),
        round_trips::<V>(),
        short_reads_exhaust::<K>(),
        short_reads_exhaust::<V>(),
        forall|i: int| 0 <= i < s.len() ==> (#[trigger] s[i].0.wire_wf()) && s[i].1.wire_wf(),
        0 <= k < wire_pairs(s).len(),
    ensures
        dec_pairs::<K, V>(wire_pairs(s).take(k), s.len() as nat) matches Err((e, c)) && e
            == WireError::Exhausted,
    decreases s.len(),
{
    assert(s.len() > 0);
    let h = s.first();
    let t = s.drop_first();
    let kw = h.0.wire();
    let vw = h.1.wire();
    let tw = wire_pairs(t);
    assert(wire_pairs(s) == kw + vw + tw);
    assert(s[0].0.wire_wf() && s[0].1.wire_wf());
    assert forall|i: int| 0 <= i < t.len() implies (#[trigger] t[i].0.wire_wf())
        && t[i].1.wire_wf() by {
        assert(t[i] == s[i + 1]);
    }
    if k < kw.len() {
        assert(wire_pairs(s).take(k) =~= kw.take(k));
        assert(K::dec(kw.take(k)) matches Err((e, c)) && e == WireError::Exhausted);
    } else if k < kw.len() + vw.len() {
        let k2 = k - kw.len();
        assert(wire_pairs(s).take(k) =~= kw + vw.take(k2));
        assert(K::dec(kw + vw.take(k2)) == Ok::<(<K as DeepView>::V, int), (WireError, int)>((
            h.0.deep_view(),
            kw.len() as int,
        )));
        assert((kw + vw.take(k2)).skip(kw.len() as int) =~= vw.take(k2));
        assert(V::dec(vw.take(k2)) matches Err((e, c)) && e == WireError::Exhausted);
    } else {
        let k2 = k - kw.len() - vw.len();
        assert(wire_pairs(s).take(k) =~= kw + (vw + tw.take(k2)));
        assert(K::dec(kw + (vw + tw.take(k2))) == Ok::<(<K as DeepView>::V, int), (WireError, int)>(
            (h.0.deep_view(), kw.len() as int),
        ));
        assert((kw + (vw + tw.take(k2))).skip(kw.len() as int) =~= vw + tw.take(k2));
        assert(V::dec(vw + tw.take(k2)) == Ok::<(<V as DeepView>::V, int), (WireError, int)>((
            h.1.deep_view(),
            vw.len() as int,
        )));
        assert((vw + tw.take(k2)).skip(vw.len() as int) =~= tw.take(k2));
        lemma_short_dec_pairs(t, k2);
    }
}

/// The short-read law for mappings: it holds whenever the round-trip and
/// short-read laws hold for the key type and the value type.
pub proof fn lemma_short_read_map<K: PartialEq + Readable + Writable, V: Readable + Writable>()
    requires
        round_trips::<K>(),
        round_trips::<V>(),
        short_reads_exhaust::<K>(),
        short_reads_exhaust::<V>(),
    ensures
        short_reads_exhaust::<WireMap<K, V>>(),
{
    assert forall|v: WireMap<K, V>, k: int| v.wire_wf() && 0 <= k < v.wire().len() implies (
    #[trigger] <WireMap<K, V> as Readable>::dec(v.wire().take(k)) matches Err((e, c)) && e
        == WireError::Exhausted) by {
        lemma_le_bytes_len(v@.len() as nat, 8);
        if k < 8 {
            assert(v.wire().take(k).len() == k);
        } else {
            assert(v.wire().take(k) =~= le_bytes(v@.len() as nat, 8) + wire_pairs(v@).take(k - 8));
            lemma_dec_size_prefix(v@.len() as nat, wire_pairs(v@).take(k - 8));
            lemma_short_dec_pairs(v@, k - 8);
        }
    }
}

/// The short-read law for optional values: it holds whenever the short-read
/// law holds for the payload type.
pub proof fn lemma_short_read_option<T: Readable + Writable>()
    requires
        short_reads_exhaust::<T>(),
    ensures
        short_reads_exhaust::<Option<T>>(),
{
    assert forall|v: Option<T>, k: int| v.wire_wf() && 0 <= k < v.wire().len() implies (#[trigger]
    <Option<T> as Readable>::dec(v.wire().take(k)) matches Err((e, c)) && e
        == WireError::Exhausted) by {
        match v {
            Some(x) => {
                assert(v.wire() =~= seq![1u8] + x.wire());
                if k >= 1 {
                    let b = v.wire().take(k);
                    assert(b[0] == 1u8);
                    assert(b.skip(1) =~= x.wire().take(k - 1));
                    assert(T::dec(x.wire().take(k - 1)) matches Err((e, c)) && e
                        == WireError::Exhausted);
                } else {
                    assert(v.wire().take(0).len() == 0);
                }
            },
            None => {
                assert(v.wire().len() == 1);
                assert(v.wire().take(0).len() == 0);
            },
        }
    }
}

/// The short-read law for owned indirect values: it holds whenever it
/// holds for the contained type.
pub proof fn lemma_short_read_box<T: Readable + Writable>()
    requires
        short_reads_exhaust::<T>(),
    ensures
        short_reads_exhaust::<Box<T>>(),
{
    assert forall|v: Box<T>, k: int| v.wire_wf() && 0 <= k < v.wire().len() implies (#[trigger]
    <Box<T> as Readable>::dec(v.wire().take(k)) matches Err((e, c)) && e
        == WireError::Exhausted) by {
        assert((*v).wire_wf());
        assert(T::dec((*v).wire().take(k)) matches Err((e, c)) && e == WireError::Exhausted);
    }
}

/// The invalid-text law: decoding text whose declared length is present in
/// the stream but whose bytes are not valid UTF-8 fails with the
/// invalid-data error, and still consumes the prefix and all the declared
/// bytes.
pub proof fn lemma_invalid_utf8(n: usize, body: Seq<u8>)
    requires
        body.len() >= n,
        !valid_utf8(body.take(n as int)),
    ensures
        <String as Readable>::dec(le_bytes(n as nat, 8) + body) == Err::<
            (Seq<char>, int),
            (WireError, int),
        >((WireError::InvalidData, 8 + n)),
{
    lemma_dec_size_prefix(n as nat, body);
}

} // verus!
