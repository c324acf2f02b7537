//! Alignment arithmetic shared by the device geometry and the flush buffer.

use vstd::prelude::*;

verus! {

/// `v` rounded up to the next multiple of `align`.
pub open spec fn align_up_spec(align: nat, v: nat) -> nat
    recommends
        align > 0,
{
    if v % align == 0 {
        v
    } else {
        v + (align - v % align) as nat
    }
}

/// `v` rounded down to a multiple of `align`.
pub open spec fn align_down_spec(align: nat, v: nat) -> nat
    recommends
        align > 0,
{
    (v - v % align) as nat
}

/// `x` is a power of two.
pub open spec fn is_pow2_spec(x: usize) -> bool {
    x > 0 && x & ((x - 1) as usize) == 0
}

/// The facts about `align_up_spec` that the buffer arithmetic relies on.
pub proof fn lemma_align_up(align: nat, v: nat)
    requires
        align > 0,
    ensures
        align_up_spec(align, v) % align == 0,
        v <= align_up_spec(align, v) < v + align,
{
    let r = v % align;
    let q = v / align;
    assert(v == q * align + r) by (nonlinear_arith)
        requires align > 0, r == v % align, q == v / align;
    if r != 0 {
        assert((q + 1) * align == q * align + align) by (nonlinear_arith);
        assert(v + (align - r) == (q + 1) * align);
        assert(((q + 1) * align) % align == 0) by (nonlinear_arith) requires align > 0;
    }
}

/// Rounding up never passes a multiple of `align` at or above `v`.
pub proof fn lemma_align_up_within(align: nat, v: nat, m: nat)
    requires
        align > 0,
        v <= m,
        m % align == 0,
    ensures
        align_up_spec(align, v) <= m,
{
    let r = v % align;
    let q = v / align;
    let p = m / align;
    assert(v == q * align + r) by (nonlinear_arith)
        requires align > 0, r == v % align, q == v / align;
    assert(m == p * align) by (nonlinear_arith)
        requires align > 0, m % align == 0, p == m / align;
    if r != 0 {
        assert(q < p) by (nonlinear_arith)
            requires v == q * align + r, m == p * align, v <= m, 0 < r, r < align;
        assert((q + 1) * align <= p * align) by (nonlinear_arith) requires q + 1 <= p, align > 0;
        assert((q + 1) * align == q * align + align) by (nonlinear_arith);
    }
}

/// The difference of two multiples of `align` is one.
pub proof fn lemma_sub_aligned(align: nat, x: nat, y: nat)
    requires
        align > 0,
        y <= x,
        x % align == 0,
        y % align == 0,
    ensures
        (x - y) as nat % align == 0,
{
    let p = x / align;
    let q = y / align;
    assert(x == p * align) by (nonlinear_arith) requires align > 0, x % align == 0, p == x / align;
    assert(y == q * align) by (nonlinear_arith) requires align > 0, y % align == 0, q == y / align;
    assert(x - y == (p - q) * align) by (nonlinear_arith) requires x == p * align, y == q * align;
    assert(p >= q) by (nonlinear_arith) requires x == p * align, y == q * align, y <= x, align > 0;
    assert(((p - q) * align) % (align as int) == 0) by (nonlinear_arith) requires align > 0, p >= q;
}

/// The sum of two multiples of `align` is one.
pub proof fn lemma_add_aligned(align: nat, x: nat, y: nat)
    requires
        align > 0,
        x % align == 0,
        y % align == 0,
    ensures
        (x + y) % align == 0,
{
    let p = x / align;
    let q = y / align;
    assert(x == p * align) by (nonlinear_arith) requires align > 0, x % align == 0, p == x / align;
    assert(y == q * align) by (nonlinear_arith) requires align > 0, y % align == 0, q == y / align;
    assert(x + y == (p + q) * align) by (nonlinear_arith) requires x == p * align, y == q * align;
    assert(((p + q) * align) % align == 0) by (nonlinear_arith) requires align > 0;
}

/// Rounds `v` down to a multiple of `align`.
pub fn align_down(align: usize, v: usize) -> (r: usize)
    requires
        align > 0,
    ensures
        r == align_down_spec(align as nat, v as nat),
        r % align == 0,
        r <= v < r + align,
{
    let rem = v % align;
    assert(rem <= v) by (nonlinear_arith) requires align > 0, rem == v % align;
    let r = v - rem;
    proof {
        let a = align as int;
        let q = v as int / a;
        assert(v as int == q * a + v as int % a) by (nonlinear_arith) requires a > 0, q == v as int / a;
        assert((q * a) % a == 0) by (nonlinear_arith) requires a > 0;
    }
    r
}

/// Whether `v` is a multiple of `align`.
pub fn is_aligned(align: usize, v: usize) -> (r: bool)
    requires
        align > 0,
    ensures
        r == (v % align == 0),
{
    v % align == 0
}

/// Whether `x` is a power of two.
pub fn is_pow2(x: usize) -> (r: bool)
    ensures
        r == is_pow2_spec(x),
{
    x > 0 && x & (x - 1) == 0
}

} // verus!
