//! Fixed-width integers as bytes, least or most significant byte first.

use vstd::arithmetic::div_mod::lemma_div_denominator;
use vstd::arithmetic::power::{lemma_pow_positive, pow};
use vstd::prelude::*;

verus! {

/// `256` to the power `n`: how many values `n` bytes can hold.
pub open spec fn pow256(n: nat) -> nat
    decreases n,
{
    if n == 0 {
        1
    } else {
        256 * pow256((n - 1) as nat)
    }
}

/// The low `width` bytes of `x`, least significant first.
pub open spec fn le_bytes(x: nat, width: nat) -> Seq<u8>
    decreases width,
{
    if width == 0 {
        Seq::empty()
    } else {
        seq![(x % 256) as u8] + le_bytes(x / 256, (width - 1) as nat)
    }
}

/// The low `width` bytes of `x`, most significant first.
pub open spec fn be_bytes(x: nat, width: nat) -> Seq<u8>
    decreases width,
{
    if width == 0 {
        Seq::empty()
    } else {
        be_bytes(x / 256, (width - 1) as nat).push((x % 256) as u8)
    }
}

/// The number whose digits in base 256 are `s`, most significant first.
pub open spec fn be_value(s: Seq<u8>) -> nat
    decreases s.len(),
{
    if s.len() == 0 {
        0
    } else {
        be_value(s.drop_last()) * 256 + s.last() as nat
    }
}

pub broadcast proof fn lemma_le_bytes_len(x: nat, width: nat)
    ensures
        #[trigger] le_bytes(x, width).len() == width,
    decreases width,
{
    if width > 0 {
        lemma_le_bytes_len(x / 256, (width - 1) as nat);
    }
}

pub broadcast proof fn lemma_be_bytes_len(x: nat, width: nat)
    ensures
        #[trigger] be_bytes(x, width).len() == width,
    decreases width,
{
    if width > 0 {
        lemma_be_bytes_len(x / 256, (width - 1) as nat);
    }
}

/// Four bytes hold every `u32`, eight bytes every `u64`.
pub proof fn lemma_pow256_widths()
    ensures
        pow256(4) == 0x1_0000_0000,
        pow256(8) == 0x1_0000_0000_0000_0000,
{
    reveal_with_fuel(pow256, 9);
}

/// Numbers that fit in `width` bytes and have the same bytes are equal.
pub proof fn lemma_le_bytes_injective(x: nat, y: nat, width: nat)
    requires
        x < pow256(width),
        y < pow256(width),
        le_bytes(x, width) == le_bytes(y, width),
    ensures
        x == y,
    decreases width,
{
    if width > 0 {
        let w = (width - 1) as nat;
        let a = seq![(x % 256) as u8] + le_bytes(x / 256, w);
        let b = seq![(y % 256) as u8] + le_bytes(y / 256, w);
        assert(a[0] == b[0]);
        assert(a.subrange(1, a.len() as int) =~= le_bytes(x / 256, w));
        assert(b.subrange(1, b.len() as int) =~= le_bytes(y / 256, w));
        lemma_le_bytes_injective(x / 256, y / 256, w);
    }
}

/// Reading back the bytes of a number that fits gives the number.
pub proof fn lemma_be_value_of_be_bytes(x: nat, width: nat)
    requires
        x < pow256(width),
    ensures
        be_value(be_bytes(x, width)) == x,
    decreases width,
{
    if width > 0 {
        let w = (width - 1) as nat;
        lemma_be_value_of_be_bytes(x / 256, w);
        assert(be_bytes(x, width).drop_last() =~= be_bytes(x / 256, w));
    }
}

proof fn lemma_be_value_bound(s: Seq<u8>)
    ensures
        be_value(s) < pow256(s.len()),
    decreases s.len(),
{
    if s.len() > 0 {
        lemma_be_value_bound(s.drop_last());
    }
}

/// Appends the low `width` bytes of `x` to `out`, most significant first.
pub fn push_be(out: &mut Vec<u8>, x: u64, width: usize)
    ensures
        final(out)@ == old(out)@ + be_bytes(x as nat, width as nat),
    decreases width,
{
    if width > 0 {
        push_be(out, x / 256, width - 1);
        out.push((x % 256) as u8);
    }
}

/// The number that eight bytes hold, most significant first.
pub fn read_be(bytes: &[u8]) -> (x: u64)
    requires
        bytes@.len() == 8,
    ensures
        x as nat == be_value(bytes@),
{
    let mut x: u64 = 0;
    let mut i: usize = 0;
    while i < 8
        invariant
            i <= 8,
            bytes@.len() == 8,
            x as nat == be_value(bytes@.take(i as int)),
        decreases 8 - i,
    {
        proof {
            let next = bytes@.take(i + 1);
            assert(next.drop_last() =~= bytes@.take(i as int));
            lemma_be_value_bound(next);
            reveal_with_fuel(pow256, 9);
        }
        x = x * 256 + bytes[i] as u64;
        i = i + 1;
    }
    assert(bytes@.take(8) =~= bytes@);
    x
}

/// The bytes of a number, most significant first: at each place, counted from the right, stands the
/// digit of that power of 256.
pub proof fn lemma_be_bytes_places(x: nat, width: nat)
    ensures
        be_bytes(x, width).len() == width,
        forall|i: int|
            0 <= i < width ==> (#[trigger] be_bytes(x, width)[width - 1 - i]) as int == (x as int
                / pow(256, i as nat)) % 256,
    decreases width,
{
    reveal(pow);
    if width > 0 {
        let rest = be_bytes(x / 256, (width - 1) as nat);
        let all = be_bytes(x, width);
        lemma_be_bytes_places(x / 256, (width - 1) as nat);
        assert forall|i: int| 0 <= i < width implies (#[trigger] all[width - 1 - i]) as int == (
        x as int / pow(256, i as nat)) % 256 by {
            if i == 0 {
                assert(pow(256, 0) == 1);
            } else {
                let k = i - 1;
                assert(all[width - 1 - i] == rest[width - 1 - 1 - k]);
                assert(pow(256, i as nat) == 256 * pow(256, k as nat));
                lemma_pow_positive(256, k as nat);
                lemma_div_denominator(x as int, 256, pow(256, k as nat));
            }
        }
    }
}

} // verus!
