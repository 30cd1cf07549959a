//! A mapping with the wire shape of the format's map encoding: a 64-bit
//! pair count, then each key–value pair in order.
//!
//! The mapping keeps its keys unique: `insert` overwrites the value of an
//! equal key in place, and decoding inserts each wire pair the same way, so
//! a repeated key on the wire resolves last-write-wins — in the size and
//! the entries as much as in lookups. Pairs keep their first-insertion
//! order. Two mappings holding the same pairs in different orders encode to
//! different byte streams; the format itself promises nothing about pair
//! order.

use vstd::prelude::*;
use vstd::std_specs::cmp::PartialEqSpec;

use crate::bytes::le_bytes;
use crate::error::WireError;
use crate::readable::{dec_prepend, lemma_dec_prepend_assoc, DecResult, Readable};
use crate::source::ByteSource;
use crate::writable::{write_le, Writable};

verus! {

/// No two pairs hold keys that compare equal.
pub open spec fn keys_unique<K: PartialEq, V>(s: Seq<(K, V)>) -> bool {
    forall|i: int, j: int| 0 <= i < j < s.len() ==> !(#[trigger] s[i].0.eq_spec(&s[j].0))
}

/// Whether the key type's equality agrees with equality of what the wire
/// carries for it (its deep view). It does for every key type the format
/// ships; a key type that compares values its encoding cannot tell apart
/// has no meaningful last-write-wins decode.
pub open spec fn eq_matches_deep_view<K: PartialEq + DeepView>() -> bool {
    forall|k1: K, k2: K| #[trigger] k1.eq_spec(&k2) <==> k1.deep_view() == k2.deep_view()
}

/// The deep views of a pair sequence, in order.
pub open spec fn pair_deep<K: DeepView, V: DeepView>(s: Seq<(K, V)>) -> Seq<
    (<K as DeepView>::V, <V as DeepView>::V),
> {
    Seq::new(s.len(), |i: int| (s[i].0.deep_view(), s[i].1.deep_view()))
}

/// The first index whose key compares equal to `key`, or the length when
/// none does.
pub open spec fn first_key_match<K: PartialEq, V>(s: Seq<(K, V)>, key: K) -> int
    decreases s.len(),
{
    if s.len() == 0 {
        0
    } else if s.first().0.eq_spec(&key) {
        0
    } else {
        1 + first_key_match(s.drop_first(), key)
    }
}

/// What `first_key_match` returns: an index within bounds, nothing before
/// it matching, and a match at it when one exists at all.
pub proof fn lemma_first_key_match<K: PartialEq, V>(s: Seq<(K, V)>, key: K)
    ensures
        0 <= first_key_match(s, key) <= s.len(),
        forall|t: int|
            0 <= t < first_key_match(s, key) ==> !(#[trigger] s[t].0.eq_spec(&key)),
        first_key_match(s, key) < s.len() ==> s[first_key_match(s, key)].0.eq_spec(&key),
    decreases s.len(),
{
    if s.len() > 0 && !s.first().0.eq_spec(&key) {
        lemma_first_key_match(s.drop_first(), key);
        assert forall|t: int| 0 <= t < first_key_match(s, key) implies !(#[trigger] s[t].0.eq_spec(
            &key,
        )) by {
            if t > 0 {
                assert(s.drop_first()[t - 1] == s[t]);
            }
        }
    }
}

/// Binding `key` to `value` in a pair sequence: the first pair with an
/// equal key keeps its key and place and takes the new value; with no such
/// pair, the new pair goes at the end.
pub open spec fn upsert_by_key<K: PartialEq, V>(s: Seq<(K, V)>, key: K, value: V) -> Seq<(K, V)> {
    let i = first_key_match(s, key);
    if i < s.len() {
        s.update(i, (s[i].0, value))
    } else {
        s.push((key, value))
    }
}

/// `first_key_match` over deep views: the first index whose key equals
/// `key`, or the length when none does.
pub open spec fn first_match<A, B>(s: Seq<(A, B)>, key: A) -> int
    decreases s.len(),
{
    if s.len() == 0 {
        0
    } else if s.first().0 == key {
        0
    } else {
        1 + first_match(s.drop_first(), key)
    }
}

/// `upsert_by_key` over deep views.
pub open spec fn upsert_pairs<A, B>(s: Seq<(A, B)>, key: A, value: B) -> Seq<(A, B)> {
    let i = first_match(s, key);
    if i < s.len() {
        s.update(i, (key, value))
    } else {
        s.push((key, value))
    }
}

/// A pair sequence folded into a mapping, pair by pair: a repeated key
/// overwrites the earlier pair's value in place, last-write-wins.
pub open spec fn collapse_pairs<A, B>(s: Seq<(A, B)>) -> Seq<(A, B)>
    decreases s.len(),
{
    if s.len() == 0 {
        Seq::empty()
    } else {
        upsert_pairs(collapse_pairs(s.drop_last()), s.last().0, s.last().1)
    }
}

/// What `first_match` returns, as for `lemma_first_key_match`.
pub proof fn lemma_first_match<A, B>(s: Seq<(A, B)>, key: A)
    ensures
        0 <= first_match(s, key) <= s.len(),
        forall|t: int| 0 <= t < first_match(s, key) ==> (#[trigger] s[t].0) != key,
        first_match(s, key) < s.len() ==> s[first_match(s, key)].0 == key,
    decreases s.len(),
{
    if s.len() > 0 && s.first().0 != key {
        lemma_first_match(s.drop_first(), key);
        assert forall|t: int| 0 <= t < first_match(s, key) implies (#[trigger] s[t].0) != key by {
            if t > 0 {
                assert(s.drop_first()[t - 1] == s[t]);
            }
        }
    }
}

/// When the key type's equality agrees with deep-view equality, the two
/// first-match notions pick the same index.
pub proof fn lemma_first_match_deep<K: PartialEq + DeepView, V: DeepView>(s: Seq<(K, V)>, key: K)
    requires
        eq_matches_deep_view::<K>(),
    ensures
        first_key_match(s, key) == first_match(pair_deep(s), key.deep_view()),
    decreases s.len(),
{
    if s.len() > 0 {
        assert(pair_deep(s).first().0 == s.first().0.deep_view());
        assert(s.first().0.eq_spec(&key) <==> s.first().0.deep_view() == key.deep_view());
        if !s.first().0.eq_spec(&key) {
            assert(pair_deep(s).drop_first() =~= pair_deep(s.drop_first()));
            lemma_first_match_deep(s.drop_first(), key);
            assert(first_match(pair_deep(s), key.deep_view()) == 1 + first_match(
                pair_deep(s.drop_first()),
                key.deep_view(),
            ));
        }
    }
}

/// When the key type's equality agrees with deep-view equality, an upsert
/// commutes with taking deep views.
pub proof fn lemma_upsert_deep<K: PartialEq + DeepView, V: DeepView>(
    s: Seq<(K, V)>,
    key: K,
    value: V,
)
    requires
        eq_matches_deep_view::<K>(),
    ensures
        pair_deep(upsert_by_key(s, key, value)) == upsert_pairs(
            pair_deep(s),
            key.deep_view(),
            value.deep_view(),
        ),
{
    lemma_first_match_deep(s, key);
    lemma_first_key_match(s, key);
    let i = first_key_match(s, key);
    if i < s.len() {
        assert(s[i].0.eq_spec(&key));
        assert(s[i].0.deep_view() == key.deep_view());
        assert(pair_deep(s.update(i, (s[i].0, value))) =~= pair_deep(s).update(
            i,
            (key.deep_view(), value.deep_view()),
        ));
    } else {
        assert(pair_deep(s.push((key, value))) =~= pair_deep(s).push(
            (key.deep_view(), value.deep_view()),
        ));
    }
}

/// A pair sequence whose keys are already pairwise distinct collapses to
/// itself.
pub proof fn lemma_collapse_unique<A, B>(s: Seq<(A, B)>)
    requires
        forall|i: int, j: int| 0 <= i < j < s.len() ==> (#[trigger] s[i].0) != (#[trigger] s[j].0),
    ensures
        collapse_pairs(s) == s,
    decreases s.len(),
{
    if s.len() > 0 {
        let t = s.drop_last();
        lemma_collapse_unique(t);
        lemma_first_match(t, s.last().0);
        let i = first_match(t, s.last().0);
        if i < t.len() {
            assert(s[i].0 != s[s.len() - 1].0);
            assert(false);
        }
        assert(t.push((s.last().0, s.last().1)) =~= s);
    }
}

/// A mapping from keys to values, keys unique, in first-insertion order.
pub struct WireMap<K: PartialEq, V> {
    pairs: Vec<(K, V)>,
}

impl<K: PartialEq, V> WireMap<K, V> {
    #[verifier::type_invariant]
    spec fn inv(self) -> bool {
        keys_unique(self.pairs@)
    }
}

impl<K: PartialEq, V> View for WireMap<K, V> {
    type V = Seq<(K, V)>;

    closed spec fn view(&self) -> Seq<(K, V)> {
        self.pairs@
    }
}

impl<K: PartialEq + DeepView, V: DeepView> DeepView for WireMap<K, V> {
    type V = Seq<(<K as DeepView>::V, <V as DeepView>::V)>;

    open spec fn deep_view(&self) -> Seq<(<K as DeepView>::V, <V as DeepView>::V)> {
        pair_deep(self@)
    }
}

/// The value of the most recent pair whose key equals `key`, if any.
pub open spec fn lookup_pairs<K: PartialEq, V>(s: Seq<(K, V)>, key: K) -> Option<V>
    decreases s.len(),
{
    if s.len() == 0 {
        None
    } else if s.last().0.eq_spec(&key) {
        Some(s.last().1)
    } else {
        lookup_pairs(s.drop_last(), key)
    }
}

impl<K: PartialEq, V> WireMap<K, V> {
    /// An empty mapping.
    pub fn new() -> (r: WireMap<K, V>)
        ensures
            r@ == Seq::<(K, V)>::empty(),
    {
        let r = WireMap { pairs: Vec::new() };
        proof {
            assert(r@ =~= Seq::<(K, V)>::empty());
        }
        r
    }

    /// How many keys the mapping holds.
    pub fn len(&self) -> (n: usize)
        ensures
            n == self@.len(),
    {
        self.pairs.len()
    }

    /// The pairs the mapping holds, in first-insertion order, keys unique.
    pub fn entries(&self) -> (r: &Vec<(K, V)>)
        ensures
            r@ == self@,
    {
        &self.pairs
    }

    /// Binds `key` to `value`. A pair whose key compares equal keeps its
    /// key and its place and takes the new value — an overwrite,
    /// last-write-wins; otherwise the new pair goes at the end.
    pub fn insert(&mut self, key: K, value: V)
        requires
            <K as PartialEqSpec>::obeys_eq_spec(),
        ensures
            final(self)@ == upsert_by_key(old(self)@, key, value),
    {
        proof {
            use_type_invariant(&*self);
            lemma_first_key_match(old(self)@, key);
        }
        let ghost s0 = self@;
        let mut pairs: Vec<(K, V)> = Vec::new();
        core::mem::swap(&mut self.pairs, &mut pairs);
        let n = pairs.len();
        let mut j: usize = 0;
        let mut found = false;
        while j < n && !found
            invariant
                j <= n,
                n == pairs@.len(),
                pairs@ == s0,
                <K as PartialEqSpec>::obeys_eq_spec(),
                forall|t: int| 0 <= t < j ==> !(#[trigger] pairs@[t].0.eq_spec(&key)),
                found ==> j < n && s0[j as int].0.eq_spec(&key),
            decreases n - j, (if found { 0int } else { 1int }),
        {
            if pairs[j].0 == key {
                found = true;
            } else {
                j += 1;
            }
        }
        proof {
            lemma_first_key_match(s0, key);
        }
        if found {
            proof {
                assert(first_key_match(s0, key) == j);
            }
            pairs[j].1 = value;
        } else {
            pairs.push((key, value));
            proof {
                assert(first_key_match(s0, key) == s0.len());
            }
        }
        proof {
            assert forall|i1: int, j1: int| 0 <= i1 < j1 < pairs@.len() implies !(#[trigger]
            pairs@[i1].0.eq_spec(&pairs@[j1].0)) by {
                if j1 < s0.len() {
                    assert(pairs@[i1].0 == s0[i1].0);
                    assert(pairs@[j1].0 == s0[j1].0);
                } else {
                    assert(pairs@[i1] == s0[i1]);
                    assert(pairs@[j1].0 == key);
                }
            }
        }
        core::mem::swap(&mut self.pairs, &mut pairs);
    }
}

impl<K: PartialEq, V> WireMap<K, V> {
    /// The value most recently bound to `key`, if any.
    pub fn get(&self, key: &K) -> (r: Option<&V>)
        requires
            <K as PartialEqSpec>::obeys_eq_spec(),
        ensures
            match lookup_pairs(self@, *key) {
                Some(v) => r matches Some(rv) && *rv == v,
                None => r is None,
            },
    {
        let n = self.pairs.len();
        let mut i: usize = n;
        proof {
            assert(self@.take(n as int) =~= self@);
        }
        while i > 0
            invariant
                i <= n,
                n == self@.len(),
                <K as PartialEqSpec>::obeys_eq_spec(),
                lookup_pairs(self@, *key) == lookup_pairs(self@.take(i as int), *key),
            decreases i,
        {
            proof {
                assert(self@.take(i as int).last() == self@[i - 1]);
                assert(self@.take(i as int).drop_last() =~= self@.take(i - 1));
            }
            if self.pairs[i - 1].0 == *key {
                return Some(&self.pairs[i - 1].1);
            }
            i -= 1;
        }
        proof {
            assert(self@.take(0) =~= Seq::<(K, V)>::empty());
        }
        None
    }
}

/// The concatenated encodings of key–value pairs, in order.
pub open spec fn wire_pairs<K: Writable, V: Writable>(s: Seq<(K, V)>) -> Seq<u8>
    decreases s.len(),
{
    if s.len() == 0 {
        Seq::empty()
    } else {
        s.first().0.wire() + s.first().1.wire() + wire_pairs(s.drop_first())
    }
}

/// Extending a pair sequence by one pair appends that pair's encoding.
pub proof fn lemma_wire_pairs_snoc<K: Writable, V: Writable>(s: Seq<(K, V)>, i: int)
    requires
        0 <= i < s.len(),
    ensures
        wire_pairs(s.take(i + 1)) == wire_pairs(s.take(i)) + s[i].0.wire() + s[i].1.wire(),
    decreases i,
{
    if i == 0 {
        assert(s.take(1).len() == 1);
        assert(s.take(1).first() == s[0]);
        assert(s.take(1).drop_first() =~= Seq::<(K, V)>::empty());
        assert(wire_pairs(Seq::<(K, V)>::empty()) =~= Seq::<u8>::empty());
        assert(wire_pairs(s.take(1)) =~= s[0].0.wire() + s[0].1.wire());
        assert(s.take(0) =~= Seq::<(K, V)>::empty());
        assert(wire_pairs(s.take(0)) + s[0].0.wire() + s[0].1.wire() =~= s[0].0.wire()
            + s[0].1.wire());
    } else {
        let t = s.drop_first();
        lemma_wire_pairs_snoc(t, i - 1);
        assert(s.take(i + 1).first() == s.first());
        assert(s.take(i + 1).drop_first() =~= t.take(i));
        assert(s.take(i).first() == s.first());
        assert(s.take(i).drop_first() =~= t.take(i - 1));
        assert(t[i - 1] == s[i]);
        assert(s.first().0.wire() + s.first().1.wire() + (wire_pairs(t.take(i - 1)) + s[i].0.wire()
            + s[i].1.wire()) =~= (s.first().0.wire() + s.first().1.wire() + wire_pairs(
            t.take(i - 1),
        )) + s[i].0.wire() + s[i].1.wire());
    }
}

/// Decoding `n` key–value pairs in sequence, accumulating the bytes
/// consumed, before any overwriting of repeated keys.
pub open spec fn dec_pairs<K: Readable, V: Readable>(bytes: Seq<u8>, n: nat) -> DecResult<
    Seq<(<K as DeepView>::V, <V as DeepView>::V)>,
>
    decreases n,
{
    if n == 0 {
        Ok((Seq::empty(), 0))
    } else {
        match K::dec(bytes) {
            Ok((kv, ck)) => match V::dec(bytes.skip(ck)) {
                Ok((vv, cv)) => match dec_pairs::<K, V>(bytes.skip(ck).skip(cv), (n - 1) as nat) {
                    Ok((ps, m)) => Ok((seq![(kv, vv)] + ps, ck + cv + m)),
                    Err((e, m)) => Err((e, ck + cv + m)),
                },
                Err((e, cv)) => Err((e, ck + cv)),
            },
            Err((e, ck)) => Err((e, ck)),
        }
    }
}

/// A pair-sequence decode never consumes more bytes than it was given, and
/// on success yields exactly as many pairs as were asked for.
pub proof fn lemma_dec_pairs_within<K: Readable, V: Readable>(bytes: Seq<u8>, n: nat)
    ensures
        match dec_pairs::<K, V>(bytes, n) {
            Ok((ps, m)) => 0 <= m <= bytes.len() && ps.len() == n,
            Err((e, m)) => 0 <= m <= bytes.len(),
        },
    decreases n,
{
    if n > 0 {
        K::dec_consumes_within(bytes);
        match K::dec(bytes) {
            Ok((kv, ck)) => {
                V::dec_consumes_within(bytes.skip(ck));
                match V::dec(bytes.skip(ck)) {
                    Ok((vv, cv)) => {
                        lemma_dec_pairs_within::<K, V>(bytes.skip(ck).skip(cv), (n - 1) as nat);
                    },
                    Err((e, cv)) => {},
                }
            },
            Err((e, ck)) => {},
        }
    }
}

impl<K: PartialEq + DeepView + Writable, V: Writable> Writable for WireMap<K, V> {
    /// A 64-bit pair count, then each pair's key and value encodings, in
    /// the mapping's insertion order.
    open spec fn wire(&self) -> Seq<u8> {
        le_bytes(self@.len() as nat, 8) + wire_pairs(self@)
    }

    open spec fn wire_wf(&self) -> bool {
        self@.len() <= usize::MAX && (forall|i: int|
            0 <= i < self@.len() ==> (#[trigger] self@[i].0.wire_wf()) && self@[i].1.wire_wf())
            && (forall|i: int, j: int|
            0 <= i < j < self@.len() ==> (#[trigger] self@[i].0.deep_view()) != (#[trigger]
            self@[j].0.deep_view()))
    }

    #[verifier::loop_isolation(false)]
    fn write(&self, sink: &mut Vec<u8>) -> (r: Result<(), WireError>) {
        let n = self.pairs.len();
        write_le(sink, n as u64, 8);
        let mut i: usize = 0;
        while i < n
            invariant
                i <= n,
                sink@ == old(sink)@ + le_bytes(n as nat, 8) + wire_pairs(self@.take(i as int)),
            decreases n - i,
        {
            let ghost pre = sink@;
            self.pairs[i].0.write(sink)?;
            let ghost mid = sink@;
            self.pairs[i].1.write(sink)?;
            proof {
                lemma_wire_pairs_snoc(self@, i as int);
                assert(mid + self@[i as int].1.wire() =~= pre + (self@[i as int].0.wire()
                    + self@[i as int].1.wire()));
                assert(pre + (self@[i as int].0.wire() + self@[i as int].1.wire()) =~= old(sink)@
                    + le_bytes(n as nat, 8) + wire_pairs(self@.take(i + 1)));
            }
            i += 1;
        }
        proof {
            assert(self@.take(n as int) =~= self@);
            assert(old(sink)@ + le_bytes(n as nat, 8) + wire_pairs(self@) =~= old(sink)@
                + self.wire());
        }
        Ok(())
    }
}

impl<K: PartialEq + Readable, V: Readable> Readable for WireMap<K, V> {
    /// A 64-bit pair count, then that many key–value pairs, each read key
    /// first and inserted in order — a repeated key silently overwrites
    /// the earlier entry, last-write-wins. The first failure is the
    /// mapping's failure.
    open spec fn dec(bytes: Seq<u8>) -> DecResult<Seq<(<K as DeepView>::V, <V as DeepView>::V)>> {
        match <usize as Readable>::dec(bytes) {
            Ok((n, c)) => match dec_pairs::<K, V>(bytes.skip(c), n as nat) {
                Ok((ps, m)) => Ok((collapse_pairs(ps), c + m)),
                Err((e, m)) => Err((e, c + m)),
            },
            Err((e, c)) => Err((e, c)),
        }
    }

    open spec fn dec_wf() -> bool {
        K::dec_wf() && V::dec_wf() && <K as PartialEqSpec>::obeys_eq_spec()
            && eq_matches_deep_view::<K>()
    }

    proof fn dec_consumes_within(bytes: Seq<u8>) {
        match <usize as Readable>::dec(bytes) {
            Ok((n, c)) => {
                lemma_dec_pairs_within::<K, V>(bytes.skip(c), n as nat);
            },
            Err((e, c)) => {},
        }
    }

    #[verifier::loop_isolation(false)]
    fn read(src: &mut ByteSource) -> (r: Result<WireMap<K, V>, WireError>) {
        let ghost b0 = src.remaining();
        let n = match <usize as Readable>::read(src) {
            Ok(n) => n,
            Err(e) => {
                return Err(e);
            },
        };
        let ghost body = b0.skip(8);
        let mut out: WireMap<K, V> = WireMap::new();
        let ghost mut raw: Seq<(<K as DeepView>::V, <V as DeepView>::V)> = Seq::empty();
        let ghost mut used: int = 0;
        let mut i: usize = 0;
        proof {
            assert(b0.len() >= 8);
            assert(body.skip(0) =~= body);
            assert(out.deep_view() =~= collapse_pairs(raw));
            match dec_pairs::<K, V>(body, n as nat) {
                Ok((ws, m)) => {
                    assert(raw + ws =~= ws);
                },
                Err((e, m)) => {},
            }
        }
        while i < n
            invariant
                i <= n,
                0 <= used <= body.len(),
                src.remaining() == body.skip(used),
                out.deep_view() == collapse_pairs(raw),
                dec_pairs::<K, V>(body, n as nat) == dec_prepend(
                    raw,
                    used,
                    dec_pairs::<K, V>(src.remaining(), (n - i) as nat),
                ),
            decreases n - i,
        {
            let ghost rem_i = src.remaining();
            proof {
                K::dec_consumes_within(rem_i);
            }
            let k = match K::read(src) {
                Ok(k) => k,
                Err(e) => {
                    proof {
                        let (e2, ck) = K::dec(rem_i)->Err_0;
                        assert(dec_pairs::<K, V>(rem_i, (n - i) as nat) == Err::<
                            (Seq<(<K as DeepView>::V, <V as DeepView>::V)>, int),
                            (WireError, int),
                        >((e2, ck)));
                        assert(body.skip(used).skip(ck) =~= body.skip(used + ck));
                        assert(body.skip(used + ck) =~= b0.skip(8 + used + ck));
                    }
                    return Err(e);
                },
            };
            let ghost ck = K::dec(rem_i)->Ok_0.1;
            let ghost rem_k = src.remaining();
            proof {
                V::dec_consumes_within(rem_k);
            }
            let v = match V::read(src) {
                Ok(v) => v,
                Err(e) => {
                    proof {
                        let (e2, cv) = V::dec(rem_k)->Err_0;
                        assert(dec_pairs::<K, V>(rem_i, (n - i) as nat) == Err::<
                            (Seq<(<K as DeepView>::V, <V as DeepView>::V)>, int),
                            (WireError, int),
                        >((e2, ck + cv)));
                        assert(body.skip(used).skip(ck).skip(cv) =~= body.skip(used + ck + cv));
                        assert(body.skip(used + ck + cv) =~= b0.skip(8 + used + ck + cv));
                    }
                    return Err(e);
                },
            };
            proof {
                let kv = K::dec(rem_i)->Ok_0.0;
                let (vv, cv) = V::dec(rem_k)->Ok_0;
                assert(dec_pairs::<K, V>(rem_i, (n - i) as nat) == dec_prepend(
                    seq![(kv, vv)],
                    ck + cv,
                    dec_pairs::<K, V>(rem_i.skip(ck).skip(cv), (n - i - 1) as nat),
                ));
                lemma_dec_prepend_assoc(
                    raw,
                    used,
                    seq![(kv, vv)],
                    ck + cv,
                    dec_pairs::<K, V>(rem_i.skip(ck).skip(cv), (n - i - 1) as nat),
                );
                assert(body.skip(used).skip(ck).skip(cv) =~= body.skip(used + ck + cv));
                used = used + ck + cv;
            }
            let ghost out0 = out@;
            proof {
                lemma_upsert_deep(out0, k, v);
            }
            out.insert(k, v);
            proof {
                let kv = K::dec(rem_i)->Ok_0.0;
                let vv = V::dec(rem_k)->Ok_0.0;
                let p = (kv, vv);
                assert(raw.push(p) =~= raw + seq![p]);
                assert(raw.push(p).drop_last() =~= raw);
                assert(collapse_pairs(raw.push(p)) == upsert_pairs(collapse_pairs(raw), kv, vv));
                assert(out.deep_view() == upsert_pairs(pair_deep(out0), kv, vv));
                raw = raw.push(p);
            }
            i += 1;
        }
        proof {
            assert(dec_pairs::<K, V>(src.remaining(), 0) == Ok::<_, (WireError, int)>((
                Seq::<(<K as DeepView>::V, <V as DeepView>::V)>::empty(),
                0int,
            )));
            assert(raw + Seq::<(<K as DeepView>::V, <V as DeepView>::V)>::empty() =~= raw);
            assert(body.skip(used) =~= b0.skip(8 + used));
        }
        Ok(out)
    }
}

} // verus!
