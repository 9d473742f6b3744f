//! Two's-complement arithmetic on `i32`, described over the integers.

use vstd::prelude::*;

verus! {

/// The `i32` that represents `x` in two's complement: the one value in the
/// range of `i32` that differs from `x` by a multiple of 2^32.
#[verifier::opaque]
pub open spec fn wrap(x: int) -> i32 {
    let r = x % 0x1_0000_0000;
    if r >= 0x8000_0000 {
        (r - 0x1_0000_0000) as i32
    } else {
        r as i32
    }
}

/// `x` and `y` differ by a multiple of 2^32.
#[verifier::opaque]
pub open spec fn congruent(x: int, y: int) -> bool {
    (x - y) % 0x1_0000_0000 == 0
}

/// Wrapping a value changes it by a multiple of 2^32 only.
pub proof fn lemma_wrap_congruent(x: int)
    ensures
        congruent(wrap(x) as int, x),
{
    reveal(wrap);
    reveal(congruent);
}

/// A value already in range is its own representative.
pub proof fn lemma_wrap_in_range(v: i32)
    ensures
        wrap(v as int) == v,
{
    reveal(wrap);
}

/// Congruent integers have the same representative.
pub proof fn lemma_congruent_wrap(x: int, y: int)
    requires
        congruent(x, y),
    ensures
        wrap(x) == wrap(y),
{
    reveal(wrap);
    reveal(congruent);
}

/// Congruence is transitive.
pub proof fn lemma_congruent_trans(x: int, y: int, z: int)
    requires
        congruent(x, y),
        congruent(y, z),
    ensures
        congruent(x, z),
{
    reveal(congruent);
}

/// Congruence is preserved by addition and subtraction.
pub proof fn lemma_congruent_add(x1: int, y1: int, x2: int, y2: int)
    requires
        congruent(x1, y1),
        congruent(x2, y2),
    ensures
        congruent(x1 + x2, y1 + y2),
        congruent(x1 - x2, y1 - y2),
{
    reveal(congruent);
}

/// Congruence is preserved by multiplication.
pub proof fn lemma_congruent_mul(x1: int, y1: int, x2: int, y2: int)
    requires
        congruent(x1, y1),
        congruent(x2, y2),
    ensures
        congruent(x1 * x2, y1 * y2),
{
    reveal(congruent);
    let m = 0x1_0000_0000int;
    let q1 = (x1 - y1) / m;
    let q2 = (x2 - y2) / m;
    assert(x1 == y1 + q1 * m);
    assert(x2 == y2 + q2 * m);
    assert(x1 * x2 - y1 * y2 == (q1 * y2 + q2 * y1 + q1 * q2 * m) * m) by (nonlinear_arith)
        requires
            x1 == y1 + q1 * m,
            x2 == y2 + q2 * m,
    ;
    vstd::arithmetic::div_mod::lemma_mod_multiples_basic(q1 * y2 + q2 * y1 + q1 * q2 * m, m);
}

/// The wrapping operations of `i32` compute the representative of the exact
/// sum, difference and product.
pub proof fn lemma_wrapping_ops(a: i32, b: i32)
    ensures
        a.wrapping_add(b) == wrap(a + b),
        a.wrapping_sub(b) == wrap(a - b),
        a.wrapping_mul(b) == wrap(a * b),
{
    reveal(wrap);
}

} // verus!
