use vstd::prelude::*;
use vstd::arithmetic::power2::*;

verus! {

// A message body is a flat sequence of bits (most significant first within
// every field) plus a row of reference slots holding opaque child cells.
// This module gives the fixed-width big-endian integer fields that every
// other encoding is built from.

/// The bits of `v` in a `w`-bit big-endian field: index 0 is the most
/// significant bit, index `w - 1` the least significant.
pub open spec fn u_bits(v: nat, w: nat) -> Seq<bool>
    decreases w,
{
    if w == 0 {
        Seq::empty()
    } else {
        u_bits(v / 2, (w - 1) as nat).push(v % 2 == 1)
    }
}

/// The unsigned value of a big-endian bit field.
pub open spec fn u_val(s: Seq<bool>) -> nat
    decreases s.len(),
{
    if s.len() == 0 {
        0
    } else {
        (2 * u_val(s.drop_last()) + (if s.last() { 1nat } else { 0nat })) as nat
    }
}

/// The unsigned two's-complement image of a signed value in a `w`-bit field.
pub open spec fn i_repr(v: int, w: nat) -> nat {
    if v >= 0 {
        v as nat
    } else {
        (pow2(w) + v) as nat
    }
}

/// Whether a signed value fits a `w`-bit two's-complement field.
pub open spec fn i_fits(v: int, w: nat) -> bool {
    &&& w >= 1
    &&& -(pow2((w - 1) as nat) as int) <= v < pow2((w - 1) as nat)
}

/// The signed value of a big-endian two's-complement bit field.
pub open spec fn i_val(s: Seq<bool>) -> int {
    if u_val(s) < pow2((s.len() - 1) as nat) {
        u_val(s) as int
    } else {
        u_val(s) - pow2(s.len())
    }
}

pub proof fn lemma_u_bits_len(v: nat, w: nat)
    ensures
        u_bits(v, w).len() == w,
    decreases w,
{
    if w > 0 {
        lemma_u_bits_len(v / 2, (w - 1) as nat);
    }
}

pub proof fn lemma_u_val_bound(s: Seq<bool>)
    ensures
        u_val(s) < pow2(s.len()),
    decreases s.len(),
{
    if s.len() == 0 {
        lemma_pow2_pos(0);
    } else {
        lemma_u_val_bound(s.drop_last());
        lemma_pow2_unfold(s.len());
    }
}

pub proof fn lemma_u_val_u_bits(v: nat, w: nat)
    requires
        v < pow2(w),
    ensures
        u_val(u_bits(v, w)) == v,
    decreases w,
{
    if w == 0 {
        assert(pow2(0) == 1) by { lemma2_to64() };
    } else {
        lemma_pow2_unfold(w);
        lemma_u_val_u_bits(v / 2, (w - 1) as nat);
        lemma_u_bits_len(v / 2, (w - 1) as nat);
        let s = u_bits(v / 2, (w - 1) as nat).push(v % 2 == 1);
        assert(s.drop_last() =~= u_bits(v / 2, (w - 1) as nat));
        assert(u_val(s) == 2 * (v / 2) + v % 2);
    }
}

/// Round trip for signed fields: reading back the two's-complement image of a
/// fitting value yields the value.
pub proof fn lemma_i_val_u_bits(v: int, w: nat)
    requires
        i_fits(v, w),
    ensures
        i_val(u_bits(i_repr(v, w), w)) == v,
{
    lemma_pow2_unfold(w);
    assert(i_repr(v, w) < pow2(w));
    lemma_u_val_u_bits(i_repr(v, w), w);
    lemma_u_bits_len(i_repr(v, w), w);
}

/// `pow2(w)` as a machine word.
pub fn pow2_u128(w: usize) -> (r: u128)
    requires
        w < 128,
    ensures
        r == pow2(w as nat),
    decreases w,
{
    if w == 0 {
        proof { lemma2_to64() };
        1
    } else {
        let half = pow2_u128(w - 1);
        proof {
            lemma_pow2_unfold(w as nat);
            lemma_pow2_strictly_increases((w - 1) as nat, 127);
            pow2_127_fact();
        }
        2 * half
    }
}

pub proof fn pow2_127_fact()
    ensures
        pow2(127) == 0x80000000000000000000000000000000,
        pow2(128) == 0x100000000000000000000000000000000,
{
    lemma2_to64();
    lemma2_to64_rest();
    lemma_pow2_adds(64, 63);
    lemma_pow2_adds(64, 64);
}

/// Appends the `w`-bit big-endian field of `v`.
pub fn write_uint(bits: &mut Vec<bool>, v: u128, w: usize)
    requires
        w <= 128,
        w < 128 ==> (v as nat) < pow2(w as nat),
    ensures
        final(bits)@ =~= old(bits)@ + u_bits(v as nat, w as nat),
    decreases w,
{
    if w == 0 {
        assert(bits@ =~= bits@ + u_bits(v as nat, 0));
    } else {
        proof {
            pow2_127_fact();
            lemma_pow2_unfold(w as nat);
            if w - 1 < 128 {
                assert(((v / 2) as nat) < pow2((w - 1) as nat));
            }
        }
        write_uint(bits, v / 2, w - 1);
        bits.push(v % 2 == 1);
        assert(bits@ =~= old(bits)@ + u_bits(v as nat, w as nat));
    }
}

/// Reads the `w`-bit big-endian unsigned field at bit position `i`.
pub fn read_uint(bits: &Vec<bool>, i: usize, w: usize) -> (r: u128)
    requires
        i + w <= bits@.len(),
        w <= 128,
    ensures
        r as nat == u_val(bits@.subrange(i as int, i + w)),
    decreases w,
{
    if w == 0 {
        assert(bits@.subrange(i as int, i as int) =~= Seq::<bool>::empty());
        0
    } else {
        let n = bits.len();
        let hi = read_uint(bits, i, w - 1);
        let b = bits[i + w - 1];
        proof {
            let s = bits@.subrange(i as int, i + w);
            assert(s.drop_last() =~= bits@.subrange(i as int, i + (w - 1)));
            assert(s.last() == bits@[i + w - 1]);
            lemma_u_val_bound(s.drop_last());
            if w <= 127 {
                lemma_pow2_strictly_increases((w - 1) as nat, 127);
            }
            pow2_127_fact();
            lemma_pow2_unfold(w as nat);
        }
        2 * hi + (if b { 1 } else { 0 })
    }
}

/// Appends the `w`-bit two's-complement field of `v`.
pub fn write_int(bits: &mut Vec<bool>, v: i128, w: usize)
    requires
        1 <= w <= 128,
        i_fits(v as int, w as nat),
    ensures
        final(bits)@ =~= old(bits)@ + u_bits(i_repr(v as int, w as nat), w as nat),
{
    proof {
        pow2_127_fact();
        lemma_pow2_unfold(w as nat);
        if w < 128 {
            lemma_pow2_strictly_increases((w - 1) as nat, (w as nat));
        }
    }
    let u: u128 = if v >= 0 {
        v as u128
    } else {
        let m = (-(v + 1)) as u128;
        if w == 128 {
            u128::MAX - m
        } else {
            pow2_u128(w) - 1 - m
        }
    };
    assert(u as nat == i_repr(v as int, w as nat));
    write_uint(bits, u, w);
}

/// Reads the `w`-bit two's-complement field at bit position `i`.
pub fn read_int(bits: &Vec<bool>, i: usize, w: usize) -> (r: i128)
    requires
        i + w <= bits@.len(),
        1 <= w <= 128,
    ensures
        r as int == i_val(bits@.subrange(i as int, i + w)),
{
    let u = read_uint(bits, i, w);
    let half = pow2_u128(w - 1);
    proof {
        pow2_127_fact();
        lemma_pow2_unfold(w as nat);
        lemma_u_val_bound(bits@.subrange(i as int, i + w));
        if w < 128 {
            lemma_pow2_strictly_increases((w - 1) as nat, 127);
        }
    }
    if u < half {
        u as i128
    } else {
        let d = if w == 128 {
            (u128::MAX - u) + 1
        } else {
            pow2_u128(w) - u
        };
        -((d - 1) as i128) - 1
    }
}

} // verus!
