//! Fixed-width little-endian unsigned integers, as sequences of bytes.

use vstd::arithmetic::power::{lemma_pow0, lemma_pow_increases, lemma_pow_positive, pow};
use vstd::prelude::*;

verus! {

/// The `width` low-order bytes of `value`, least significant byte first.
pub open spec fn le_bytes(value: nat, width: nat) -> Seq<u8>
    decreases width,
{
    if width == 0 {
        Seq::empty()
    } else {
        seq![(value % 256) as u8] + le_bytes(value / 256, (width - 1) as nat)
    }
}

/// The number that `bytes` spell, least significant byte first.
pub open spec fn le_value(bytes: Seq<u8>) -> nat
    decreases bytes.len(),
{
    if bytes.len() == 0 {
        0
    } else {
        bytes[0] as nat + 256 * le_value(bytes.drop_first())
    }
}

/// An encoding has exactly the width that was asked for.
pub proof fn lemma_le_bytes_len(value: nat, width: nat)
    ensures
        le_bytes(value, width).len() == width,
    decreases width,
{
    if width > 0 {
        lemma_le_bytes_len(value / 256, (width - 1) as nat);
    }
}

/// `pow(256, n + 1)` is `256 * pow(256, n)`.
pub proof fn lemma_pow256_step(n: nat)
    ensures
        pow(256, n + 1) == 256 * pow(256, n),
        pow(256, n) > 0,
{
    reveal(pow);
    lemma_pow_positive(256, n);
}

/// The powers of 256 at the widths of 32-bit and 64-bit integers.
pub proof fn lemma_pow256_values()
    ensures
        pow(256, 4) == 0x1_0000_0000,
        pow(256, 8) == 0x1_0000_0000_0000_0000,
{
    lemma_pow0(256);
    lemma_pow256_step(0);
    lemma_pow256_step(1);
    lemma_pow256_step(2);
    lemma_pow256_step(3);
    lemma_pow256_step(4);
    lemma_pow256_step(5);
    lemma_pow256_step(6);
    lemma_pow256_step(7);
}

/// A sequence of `n` bytes spells a number below `256^n`.
pub proof fn lemma_le_value_bound(bytes: Seq<u8>)
    ensures
        le_value(bytes) < pow(256, bytes.len()),
    decreases bytes.len(),
{
    if bytes.len() == 0 {
        lemma_pow0(256);
    } else {
        let rest = bytes.drop_first();
        lemma_le_value_bound(rest);
        lemma_pow256_step(rest.len());
        assert(bytes.len() == rest.len() + 1);
        let p = pow(256, rest.len());
        let r = le_value(rest) as int;
        assert(256 * r + 256 <= 256 * p) by (nonlinear_arith)
            requires
                r + 1 <= p,
        ;
    }
}

/// Decoding undoes encoding for every value that fits the width.
pub proof fn lemma_le_value_of_bytes(value: nat, width: nat)
    requires
        value < pow(256, width),
    ensures
        le_value(le_bytes(value, width)) == value,
    decreases width,
{
    if width == 0 {
        lemma_pow0(256);
    } else {
        let w = (width - 1) as nat;
        lemma_pow256_step(w);
        assert(width == w + 1);
        let p = pow(256, w);
        assert(value / 256 < p) by (nonlinear_arith)
            requires
                value < 256 * p,
        ;
        lemma_le_value_of_bytes(value / 256, w);
        lemma_le_bytes_len(value / 256, w);
        let enc = le_bytes(value, width);
        assert(enc.drop_first() =~= le_bytes(value / 256, w));
        assert(enc[0] == (value % 256) as u8);
        assert(value == (value % 256) + 256 * (value / 256)) by (nonlinear_arith);
    }
}

/// Appends the `width` low-order bytes of `value` to `buffer`, least
/// significant byte first.
pub(crate) fn push_le(value: u64, width: usize, buffer: &mut Vec<u8>)
    ensures
        final(buffer)@ == old(buffer)@ + le_bytes(value as nat, width as nat),
{
    let mut rest: u64 = value;
    let mut i: usize = 0;
    while i < width
        invariant
            i <= width,
            old(buffer)@ + le_bytes(value as nat, width as nat) == buffer@ + le_bytes(
                rest as nat,
                (width - i) as nat,
            ),
        decreases width - i,
    {
        let ghost before = buffer@;
        let b: u8 = (rest % 256) as u8;
        buffer.push(b);
        proof {
            let tail = le_bytes((rest / 256) as nat, (width - i - 1) as nat);
            assert(le_bytes(rest as nat, (width - i) as nat) == seq![b] + tail);
            assert(before + (seq![b] + tail) =~= buffer@ + tail);
        }
        rest = rest / 256;
        i = i + 1;
    }
    assert(le_bytes(rest as nat, 0) =~= Seq::<u8>::empty());
    assert(buffer@ + Seq::<u8>::empty() =~= buffer@);
}

/// Reads the first `width` bytes of `bytes` as a little-endian number.
pub(crate) fn read_le(bytes: &Vec<u8>, width: usize) -> (value: u64)
    requires
        width <= 8,
        width <= bytes@.len(),
    ensures
        value as nat == le_value(bytes@.take(width as int)),
{
    let ghost head = bytes@.take(width as int);
    let mut acc: u64 = 0;
    let mut i: usize = width;
    proof {
        assert(head.subrange(width as int, width as int) =~= Seq::<u8>::empty());
        lemma_pow0(256);
    }
    while i > 0
        invariant
            i <= width <= 8,
            width <= bytes@.len(),
            head == bytes@.take(width as int),
            acc as nat == le_value(head.subrange(i as int, width as int)),
            (acc as int) < pow(256, (width - i) as nat),
        decreases i,
    {
        i = i - 1;
        let b: u8 = bytes[i];
        proof {
            let part = head.subrange(i as int, width as int);
            assert(part.drop_first() =~= head.subrange(i + 1, width as int));
            assert(part[0] == b);
            lemma_le_value_bound(part);
            lemma_pow_increases(256, part.len(), 8);
            lemma_pow256_values();
        }
        acc = acc * 256 + (b as u64);
    }
    assert(head.subrange(0, width as int) =~= head);
    acc
}

} // verus!
