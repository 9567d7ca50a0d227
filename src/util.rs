//! Power-of-two alignment helpers.
use vstd::prelude::*;

verus! {

/// `x` is a strictly positive power of two: 1, or an even number whose
/// half is one.
pub open spec fn is_pow2(x: nat) -> bool
    decreases x,
{
    if x == 1 {
        true
    } else if x < 2 || x % 2 == 1 {
        false
    } else {
        is_pow2(x / 2)
    }
}

/// The bit form of [`is_pow2`]: exactly one bit set.
pub open spec fn pow2_bits(x: usize) -> bool {
    x != 0 && x & ((x - 1) as usize) == 0
}

/// A value has exactly one bit set just when it is a power of two.
pub proof fn lemma_pow2_bits(x: usize)
    ensures
        pow2_bits(x) == is_pow2(x as nat),
    decreases x,
{
    if x >= 2 {
        let h: usize = x / 2;
        assert((x != 0 && x & ((x - 1) as usize) == 0) == (x % 2 == 0 && h != 0 && h & ((h
            - 1) as usize) == 0)) by (bit_vector)
            requires
                x >= 2,
                h == x / 2,
        ;
        lemma_pow2_bits(h);
    } else if x == 1 {
        assert(1usize & 0usize == 0) by (bit_vector);
    }
}

/// A value whose bits below a one-bit `a` are all clear is a multiple of `a`.
pub(crate) proof fn lemma_masked_is_multiple(r: usize, a: usize)
    requires
        pow2_bits(a),
        r & ((a - 1) as usize) == 0,
    ensures
        r % a == 0,
    decreases a,
{
    if a != 1 {
        let h: usize = a / 2;
        let q: usize = r / 2;
        assert(a % 2 == 0 && r % 2 == 0 && h != 0 && h & ((h - 1) as usize) == 0
            && q & ((h - 1) as usize) == 0) by (bit_vector)
            requires
                a != 0,
                a != 1,
                a & ((a - 1) as usize) == 0,
                r & ((a - 1) as usize) == 0,
                h == a / 2,
                q == r / 2,
        ;
        lemma_masked_is_multiple(q, h);
        let k = q / h;
        vstd::arithmetic::div_mod::lemma_fundamental_div_mod(q as int, h as int);
        assert(q == h * k);
        assert(r == 2 * q);
        assert(a == 2 * h);
        assert(r == a * k) by (nonlinear_arith)
            requires
                r == 2 * q,
                q == h * k,
                a == 2 * h,
        ;
        vstd::arithmetic::div_mod::lemma_mod_multiples_basic(k as int, a as int);
    }
}

/// Rounds `x` up to the next multiple of `align`.
pub fn align_up(x: usize, align: usize) -> (r: usize)
    requires
        is_pow2(align as nat),
        x + align - 1 <= usize::MAX,
    ensures
        r >= x,
        r % align == 0,
        r < x + align,
{
    proof {
        lemma_pow2_bits(align);
    }
    let m = align - 1;
    let s = x + m;
    let r = s & !m;
    assert(r & m == 0 && r <= s && s - r <= m) by (bit_vector)
        requires
            r == s & !m,
    ;
    proof {
        lemma_masked_is_multiple(r, align);
    }
    r
}

/// Tests whether `x` is a strictly positive power of two.
pub fn is_power_of_two(x: usize) -> (r: bool)
    ensures
        r == is_pow2(x as nat),
{
    proof {
        lemma_pow2_bits(x);
    }
    x != 0 && (x & (x - 1)) == 0
}

} // verus!
