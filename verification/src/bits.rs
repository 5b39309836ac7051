//! Sets of squares as 64-bit masks.

use vstd::prelude::*;
use vstd::std_specs::bits::axiom_u64_trailing_zeros;
use vstd::std_specs::bits::u64_trailing_zeros;

verus! {

/// Square `i` is a member of the set `b`.
pub open spec fn bit(b: u64, i: u64) -> bool {
    i < 64 && (b >> i) & 1 == 1
}

/// The set that holds square `i` alone.
pub open spec fn only(i: u64) -> u64 {
    1u64 << i
}

/// The set holds exactly one square.
pub open spec fn single(b: u64) -> bool {
    b != 0 && b & ((b - 1) as u64) == 0
}

/// Intersection, union, symmetric difference and complement of masks are
/// those of the sets they encode.
pub proof fn lemma_bit_ops()
    by (bit_vector)
    ensures
        forall|a: u64, b: u64, i: u64| #[trigger] bit(a & b, i) <==> bit(a, i) && bit(b, i),
        forall|a: u64, b: u64, i: u64| #[trigger] bit(a | b, i) <==> bit(a, i) || bit(b, i),
        forall|a: u64, b: u64, i: u64| #[trigger] bit(a ^ b, i) <==> (bit(a, i) != bit(b, i)),
        forall|a: u64, i: u64| i < 64 ==> (#[trigger] bit(!a, i) <==> !bit(a, i)),
        forall|i: u64, j: u64| i < 64 ==> (#[trigger] bit(only(i), j) <==> i == j),
        forall|i: u64| !#[trigger] bit(0, i),
        forall|b: u64, i: u64| i < 64 ==> (#[trigger] (b & only(i)) != 0 <==> bit(b, i)),
        forall|b: u64, i: u64| #[trigger] bit(b >> 8, i) <==> i + 8 < 64 && bit(b, (i + 8) as u64),
        forall|b: u64, i: u64| #[trigger] bit(b << 8, i) <==> 8 <= i < 64 && bit(b, (i - 8) as u64),
        forall|i: u64| i < 64 ==> #[trigger] bit(0xffff_ffff_ffff_ffff, i),
{
}

/// Clearing the lowest member of a set removes that member and nothing else.
pub proof fn lemma_bit_lowest(x: u64, i: u64)
    by (bit_vector)
    requires
        i < 64,
        (x >> i) & 1 == 1,
        x << ((64 - i) as u64) == 0,
    ensures
        x != 0,
        x & ((x - 1) as u64) < x,
        forall|j: u64| #[trigger] bit(x & ((x - 1) as u64), j) <==> bit(x, j) && j != i,
        forall|j: u64| j < i ==> !#[trigger] bit(x, j),
{
}

/// Small facts about square numbers and flags held in a byte.
pub proof fn lemma_byte_ops()
    by (bit_vector)
    ensures
        forall|x: u8| #[trigger] (x & 3) < 4,
        forall|x: u8| x < 64 ==> #[trigger] (x ^ 8) < 64,
        forall|x: u8| (#[trigger] (x ^ 8)) ^ 8 == x,
        forall|x: u8| x < 64 && (x / 8) % 2 == 0 ==> #[trigger] (x ^ 8) == x + 8,
        forall|x: u8| x < 64 && (x / 8) % 2 == 1 ==> #[trigger] (x ^ 8) + 8 == x,
        forall|x: u8| x < 16 ==> (#[trigger] (x & 4) == 0 <==> x < 4 || 8 <= x < 12),
{
}

/// A set of one square is the set of any square it holds.
pub proof fn lemma_single(z: u64, x: u64)
    by (bit_vector)
    requires
        x < 64,
    ensures
        single(z) && bit(z, x) ==> z == only(x),
        z == only(x) ==> single(z) && bit(z, x),
{
}

/// Where one square is all that `z` holds, `z` lies within `b` exactly
/// when `b` holds that square.
pub proof fn lemma_subset(z: u64, b: u64, x: u64)
    by (bit_vector)
    requires
        x < 64,
        z == only(x),
    ensures
        z & !b == 0 <==> bit(b, x),
{
}

/// A mask that is not zero has a member: its lowest set bit.
pub proof fn lemma_bit_witness(x: u64) -> (i: u64)
    requires
        x != 0,
    ensures
        bit(x, i),
        i == u64_trailing_zeros(x),
{
    axiom_u64_trailing_zeros(x);
    u64_trailing_zeros(x) as u64
}

proof fn lemma_xor_zero(a: u64, b: u64)
    by (bit_vector)
    ensures
        a ^ b == 0 <==> a == b,
{
}

/// Two masks with the same members are equal.
pub proof fn lemma_bit_ext(a: u64, b: u64)
    requires
        forall|i: u64| i < 64 ==> (bit(a, i) <==> bit(b, i)),
    ensures
        a == b,
{
    lemma_xor_zero(a, b);
    if a ^ b != 0 {
        let i = lemma_bit_witness(a ^ b);
        lemma_bit_ops();
    }
}

/// A mask is zero exactly when it has no member.
pub proof fn lemma_bit_empty(x: u64)
    ensures
        x == 0 <==> (forall|i: u64| !bit(x, i)),
{
    lemma_bit_ops();
    if x != 0 {
        let i = lemma_bit_witness(x);
    }
}

/// Removes the lowest square from a non-empty set and returns it.
pub fn pop_lsb(x: &mut u64) -> (i: u8)
    requires
        *old(x) != 0,
    ensures
        i < 64,
        bit(*old(x), i as u64),
        forall|j: u64| j < i ==> !bit(*old(x), j),
        forall|j: u64| bit(*final(x), j) <==> bit(*old(x), j) && j != i,
        *final(x) < *old(x),
{
    let i = x.trailing_zeros() as u8;
    proof {
        axiom_u64_trailing_zeros(*x);
        lemma_bit_lowest(*x, i as u64);
    }
    *x = *x & (*x - 1);
    i
}

/// The mask mirrored top to bottom: rank 1 changes places with rank 8,
/// rank 2 with rank 7 and so on.
pub open spec fn flipped(x: u64) -> u64 {
    (x << 56) | ((x & 0xff00) << 40) | ((x & 0xff_0000) << 24) | ((x & 0xff00_0000) << 8) | ((x
        >> 8) & 0xff00_0000) | ((x >> 24) & 0xff_0000) | ((x >> 40) & 0xff00) | (x >> 56)
}

proof fn lemma_flipped(x: u64, i: u64)
    by (bit_vector)
    requires
        i < 64,
    ensures
        bit(flipped(x), i) <==> bit(x, i ^ 56),
{
}

/// Reverses the order of the eight bytes of `x`.
pub fn swap_bytes(x: u64) -> (r: u64)
    ensures
        r == flipped(x),
        forall|i: u64| i < 64 ==> (bit(r, i) <==> bit(x, i ^ 56)),
{
    let r = (x << 56) | ((x & 0xff00) << 40) | ((x & 0xff_0000) << 24) | ((x & 0xff00_0000) << 8)
        | ((x >> 8) & 0xff00_0000) | ((x >> 24) & 0xff_0000) | ((x >> 40) & 0xff00) | (x >> 56);
    proof {
        assert forall|i: u64| i < 64 implies (bit(r, i) <==> bit(x, i ^ 56)) by {
            lemma_flipped(x, i);
        }
    }
    r
}

} // verus!
