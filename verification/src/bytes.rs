//! The little-endian shape of fixed-width unsigned integers.
//!
//! A value is laid out least significant byte first. `le_bytes` gives the
//! `n`-byte encoding of a value, `le_val` reads a byte sequence back as a
//! value, and the lemmas here relate the two.

use vstd::prelude::*;

verus! {

/// The `n`-byte little-endian encoding of `v` (modulo `256^n`).
pub open spec fn le_bytes(v: nat, n: nat) -> Seq<u8>
    decreases n,
{
    if n == 0 {
        Seq::empty()
    } else {
        seq![(v % 256) as u8] + le_bytes(v / 256, (n - 1) as nat)
    }
}

/// The value encoded little-endian by the whole byte sequence `b`.
pub open spec fn le_val(b: Seq<u8>) -> nat
    decreases b.len(),
{
    if b.len() == 0 {
        0
    } else {
        (b[0] + 256 * le_val(b.drop_first())) as nat
    }
}

/// `256^n`: the number of values an `n`-byte encoding can hold.
pub open spec fn pow256(n: nat) -> nat
    decreases n,
{
    if n == 0 {
        1
    } else {
        256 * pow256((n - 1) as nat)
    }
}

/// Larger encodings hold at least as many values.
pub proof fn lemma_pow256_mono(a: nat, b: nat)
    requires
        a <= b,
    ensures
        pow256(a) <= pow256(b),
    decreases b,
{
    if a < b {
        lemma_pow256_mono(a, (b - 1) as nat);
        assert(pow256(b) == 256 * pow256((b - 1) as nat));
    }
}

/// The sizes of the encodings this format uses.
pub proof fn lemma_pow256_vals()
    ensures
        pow256(1) == 0x100,
        pow256(2) == 0x10000,
        pow256(4) == 0x1_0000_0000,
        pow256(7) == 0x100_0000_0000_0000,
        pow256(8) == 0x1_0000_0000_0000_0000,
{
    assert(pow256(0) == 1);
    assert(pow256(1) == 0x100);
    assert(pow256(2) == 0x10000);
    assert(pow256(3) == 0x100_0000);
    assert(pow256(4) == 0x1_0000_0000);
    assert(pow256(5) == 0x100_0000_0000);
    assert(pow256(6) == 0x1_0000_0000_0000);
    assert(pow256(7) == 0x100_0000_0000_0000);
    assert(pow256(8) == 0x1_0000_0000_0000_0000);
}

/// An `n`-byte encoding is `n` bytes long.
pub proof fn lemma_le_bytes_len(v: nat, n: nat)
    ensures
        le_bytes(v, n).len() == n,
    decreases n,
{
    if n > 0 {
        lemma_le_bytes_len(v / 256, (n - 1) as nat);
    }
}

/// A byte sequence of length `n` encodes a value below `256^n`.
pub proof fn lemma_le_val_bound(b: Seq<u8>)
    ensures
        le_val(b) < pow256(b.len() as nat),
    decreases b.len(),
{
    if b.len() > 0 {
        lemma_le_val_bound(b.drop_first());
        assert(b[0] < 256);
        assert(le_val(b) == b[0] + 256 * le_val(b.drop_first()));
        assert(256 * le_val(b.drop_first()) <= 256 * (pow256((b.len() - 1) as nat) - 1))
            by (nonlinear_arith)
            requires
                le_val(b.drop_first()) <= pow256((b.len() - 1) as nat) - 1,
        ;
    }
}

/// Reading back the `n`-byte encoding of a value below `256^n` yields the value.
pub proof fn lemma_le_round_trip(v: nat, n: nat)
    requires
        v < pow256(n),
    ensures
        le_val(le_bytes(v, n)) == v,
    decreases n,
{
    if n > 0 {
        lemma_le_bytes_len(v / 256, (n - 1) as nat);
        assert(v / 256 < pow256((n - 1) as nat)) by (nonlinear_arith)
            requires
                v < 256 * pow256((n - 1) as nat),
        ;
        lemma_le_round_trip(v / 256, (n - 1) as nat);
        let b = le_bytes(v, n);
        assert(b.drop_first() =~= le_bytes(v / 256, (n - 1) as nat));
        assert(v == 256 * (v / 256) + v % 256);
    }
}

/// The bytes of an encoding are the same read from any extension of it.
pub proof fn lemma_le_bytes_prefix(v: nat, n: nat, rest: Seq<u8>)
    ensures
        (le_bytes(v, n) + rest).take(n as int) =~= le_bytes(v, n),
{
    lemma_le_bytes_len(v, n);
}

} // verus!
