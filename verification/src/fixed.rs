//! Fixed-point scalar arithmetic for the computation graph.
//!
//! A scalar is held as an `i64` count of ten-thousandths, so `1.0` is
//! `10_000` units: four decimal digits of fraction, the same resolution the
//! graph export prints. Addition, subtraction and multiplication saturate at
//! the `i64` range instead of failing, so every arithmetic step of the
//! engine is total; an out-of-range result pins itself to the nearest
//! representable value, and the caller can detect it by inspection.

use vstd::prelude::*;

verus! {

/// Number of fixed-point units in one whole: four decimal digits of fraction.
pub const SCALE: i64 = 10_000;

/// Saturation of a mathematical integer into the `i64` range.
pub open spec fn clamp(x: int) -> int {
    if x > i64::MAX {
        i64::MAX as int
    } else if x < i64::MIN {
        i64::MIN as int
    } else {
        x
    }
}

/// Division rounding toward zero, as Rust's `/` does on machine integers.
pub open spec fn trunc_div(a: int, b: int) -> int
    recommends
        b > 0,
{
    if a >= 0 {
        a / b
    } else {
        -((-a) / b)
    }
}

/// Fixed-point sum: exact integer sum, saturated.
pub open spec fn fadd(a: int, b: int) -> int {
    clamp(a + b)
}

/// Fixed-point difference: exact integer difference, saturated.
pub open spec fn fsub(a: int, b: int) -> int {
    clamp(a - b)
}

/// Fixed-point product: the exact product rescaled by `SCALE`, rounded
/// toward zero, saturated.
pub open spec fn fmul(a: int, b: int) -> int {
    clamp(trunc_div(a * b, SCALE as int))
}

/// Fixed-point quotient: the dividend rescaled by `SCALE`, divided rounding
/// toward zero, saturated.
pub open spec fn fdiv(a: int, b: int) -> int
    recommends
        b > 0,
{
    clamp(trunc_div(a * (SCALE as int), b))
}

/// A scalar of the computation graph: a fixed-point number counting
/// ten-thousandths in an `i64`.
#[derive(Clone, Copy, Debug, PartialEq, Eq, Hash, Structural)]
pub struct MyF64(pub i64);

impl View for MyF64 {
    type V = int;

    open spec fn view(&self) -> int {
        self.0 as int
    }
}

/// The product of two `i64` values stays well inside the `i128` range.
proof fn lemma_i64_product_fits(a: int, b: int)
    requires
        i64::MIN <= a <= i64::MAX,
        i64::MIN <= b <= i64::MAX,
    ensures
        i64::MIN as int * i64::MAX as int <= a * b <= i64::MIN as int * i64::MIN as int,
        i128::MIN < a * b < i128::MAX,
{
    assert(i64::MIN as int * i64::MAX as int <= a * b <= i64::MIN as int * i64::MIN as int)
        by (nonlinear_arith)
        requires
            i64::MIN <= a <= i64::MAX,
            i64::MIN <= b <= i64::MAX,
    ;
}

/// Saturation of an `i128` into the `i64` range.
fn clamp_exec(x: i128) -> (r: i64)
    ensures
        r as int == clamp(x as int),
{
    if x > i64::MAX as i128 {
        i64::MAX
    } else if x < i64::MIN as i128 {
        i64::MIN
    } else {
        x as i64
    }
}

/// Division of an `i128` by a positive divisor, rounding toward zero.
fn trunc_div_exec(a: i128, b: i128) -> (r: i128)
    requires
        b > 0,
        a != i128::MIN,
    ensures
        r as int == trunc_div(a as int, b as int),
        a >= 0 ==> 0 <= r <= a,
        a < 0 ==> a <= r <= 0,
{
    if a >= 0 {
        let q: u128 = (a as u128) / (b as u128);
        proof {
            vstd::arithmetic::div_mod::lemma_div_is_ordered_by_denominator(a as int, 1, b as int);
            vstd::arithmetic::div_mod::lemma_div_pos_is_pos(a as int, b as int);
        }
        q as i128
    } else {
        let n: i128 = -a;
        let q: u128 = (n as u128) / (b as u128);
        proof {
            vstd::arithmetic::div_mod::lemma_div_is_ordered_by_denominator(n as int, 1, b as int);
            vstd::arithmetic::div_mod::lemma_div_pos_is_pos(n as int, b as int);
        }
        -(q as i128)
    }
}

impl MyF64 {
    /// The scalar zero.
    pub fn zero() -> (r: MyF64)
        ensures
            r@ == 0,
    {
        MyF64(0)
    }

    /// The scalar one, `SCALE` fixed-point units.
    pub fn one() -> (r: MyF64)
        ensures
            r@ == SCALE as int,
    {
        MyF64(SCALE)
    }

    /// Saturating fixed-point sum.
    pub fn add(self, other: MyF64) -> (r: MyF64)
        ensures
            r@ == fadd(self@, other@),
    {
        let s: i128 = self.0 as i128 + other.0 as i128;
        MyF64(clamp_exec(s))
    }

    /// Saturating fixed-point difference.
    pub fn sub(self, other: MyF64) -> (r: MyF64)
        ensures
            r@ == fsub(self@, other@),
    {
        let s: i128 = self.0 as i128 - other.0 as i128;
        MyF64(clamp_exec(s))
    }

    /// Saturating fixed-point product.
    pub fn mul(self, other: MyF64) -> (r: MyF64)
        ensures
            r@ == fmul(self@, other@),
    {
        proof {
            lemma_i64_product_fits(self.0 as int, other.0 as int);
        }
        let p: i128 = self.0 as i128 * other.0 as i128;
        let q: i128 = trunc_div_exec(p, SCALE as i128);
        MyF64(clamp_exec(q))
    }

    /// Saturating fixed-point quotient; the divisor must be positive.
    pub fn div(self, other: MyF64) -> (r: MyF64)
        requires
            other@ > 0,
        ensures
            r@ == fdiv(self@, other@),
    {
        proof {
            lemma_i64_product_fits(self.0 as int, SCALE as int);
        }
        let p: i128 = self.0 as i128 * SCALE as i128;
        let q: i128 = trunc_div_exec(p, other.0 as i128);
        MyF64(clamp_exec(q))
    }
}

/// `e`, the base of the natural exponential, in fixed-point units.
pub const E_SCALED: i64 = 27_183;

/// Arguments at or beyond this magnitude (`7.0`) saturate the hyperbolic
/// tangent at the largest fraction below one that fixed point can hold.
pub const TANH_CUT: i64 = 70_000;

/// `e` raised to the natural number `n`, by repeated fixed-point
/// multiplication.
pub open spec fn pow_e(n: int) -> int
    decreases n,
{
    if n <= 0 {
        SCALE as int
    } else {
        fmul(E_SCALED as int, pow_e(n - 1))
    }
}

/// One step of the exponential series: the next term from the previous
/// term `t`, the fractional argument `f` and the term index `k`.
pub open spec fn exp_term(t: int, f: int, k: int) -> int
    recommends
        k > 0,
{
    trunc_div(fmul(t, f), k)
}

/// The exponential of a fractional fixed-point argument, by the first
/// eight terms of its power series.
pub open spec fn exp_frac(f: int) -> int {
    let t0 = SCALE as int;
    let t1 = exp_term(t0, f, 1);
    let t2 = exp_term(t1, f, 2);
    let t3 = exp_term(t2, f, 3);
    let t4 = exp_term(t3, f, 4);
    let t5 = exp_term(t4, f, 5);
    let t6 = exp_term(t5, f, 6);
    let t7 = exp_term(t6, f, 7);
    t0 + t1 + t2 + t3 + t4 + t5 + t6 + t7
}

/// The exponential of a nonnegative fixed-point argument: the whole part
/// by repeated multiplication, the fractional part by its power series.
pub open spec fn exp_fx(y: int) -> int
    recommends
        y >= 0,
{
    fmul(pow_e(y / (SCALE as int)), exp_frac(y % (SCALE as int)))
}

/// The hyperbolic tangent of a fixed-point argument, through
/// `(e^(2x) - 1) / (e^(2x) + 1)` on the magnitude and the sign restored,
/// saturated for arguments beyond `TANH_CUT`.
pub open spec fn tanh_fx(x: int) -> int {
    if x >= TANH_CUT as int {
        (SCALE - 1) as int
    } else if x <= -(TANH_CUT as int) {
        -((SCALE - 1) as int)
    } else if x >= 0 {
        let t = exp_fx(2 * x);
        fdiv(fsub(t, SCALE as int), fadd(t, SCALE as int))
    } else {
        let t = exp_fx(-2 * x);
        -fdiv(fsub(t, SCALE as int), fadd(t, SCALE as int))
    }
}

/// Multiplying by the fixed-point one is exact: no precision is lost and
/// no saturation can occur.
pub proof fn lemma_fmul_one(a: int)
    requires
        i64::MIN <= a <= i64::MAX,
    ensures
        fmul(a, SCALE as int) == a,
        fmul(SCALE as int, a) == a,
{
    if a >= 0 {
        vstd::arithmetic::div_mod::lemma_div_multiples_vanish(a, SCALE as int);
        assert(a * (SCALE as int) == (SCALE as int) * a) by (nonlinear_arith);
    } else {
        vstd::arithmetic::div_mod::lemma_div_multiples_vanish(-a, SCALE as int);
        assert(-(a * (SCALE as int)) == (SCALE as int) * (-a)) by (nonlinear_arith);
        assert(-((SCALE as int) * a) == (SCALE as int) * (-a)) by (nonlinear_arith);
    }
}

/// A fixed-point product of nonnegative factors is nonnegative and under
/// the saturation bound.
proof fn lemma_fmul_nonneg(a: int, b: int)
    requires
        0 <= a,
        0 <= b,
    ensures
        0 <= fmul(a, b) <= i64::MAX,
{
    assert(0 <= a * b) by (nonlinear_arith)
        requires
            0 <= a,
            0 <= b,
    ;
    vstd::arithmetic::div_mod::lemma_div_pos_is_pos(a * b, SCALE as int);
}

/// A fixed-point product of factors at least one is at least one.
proof fn lemma_fmul_ge_one(a: int, b: int)
    requires
        SCALE as int <= a,
        SCALE as int <= b,
    ensures
        SCALE as int <= fmul(a, b) <= i64::MAX,
{
    assert(a * (SCALE as int) <= a * b) by (nonlinear_arith)
        requires
            SCALE as int <= b,
            0 <= a,
    ;
    vstd::arithmetic::div_mod::lemma_div_is_ordered(
        a * (SCALE as int),
        a * b,
        SCALE as int,
    );
    vstd::arithmetic::div_mod::lemma_div_multiples_vanish(a, SCALE as int);
}

/// An exponential-series term stays between zero and its predecessor when
/// the fractional argument is below one.
proof fn lemma_exp_term_bounds(t: int, f: int, k: int)
    requires
        0 <= t <= SCALE,
        0 <= f <= SCALE,
        0 < k,
    ensures
        0 <= exp_term(t, f, k) <= t,
{
    lemma_fmul_nonneg(t, f);
    assert(t * f <= t * (SCALE as int)) by (nonlinear_arith)
        requires
            f <= SCALE as int,
            0 <= t,
    ;
    vstd::arithmetic::div_mod::lemma_div_is_ordered(t * f, t * (SCALE as int), SCALE as int);
    vstd::arithmetic::div_mod::lemma_div_multiples_vanish(t, SCALE as int);
    vstd::arithmetic::div_mod::lemma_div_pos_is_pos(fmul(t, f), k);
    vstd::arithmetic::div_mod::lemma_div_nonincreasing(fmul(t, f), k);
}

/// The repeated-multiplication power of `e` is at least one.
proof fn lemma_pow_e_ge_one(n: int)
    ensures
        SCALE as int <= pow_e(n) <= i64::MAX,
    decreases n,
{
    if n <= 0 {
    } else {
        lemma_pow_e_ge_one(n - 1);
        lemma_fmul_ge_one(E_SCALED as int, pow_e(n - 1));
    }
}

/// The series exponential of a fractional argument is at least one and
/// within the saturation bound.
proof fn lemma_exp_frac_bounds(f: int)
    requires
        0 <= f < SCALE,
    ensures
        SCALE as int <= exp_frac(f) <= 8 * SCALE as int,
{
    let t0 = SCALE as int;
    let t1 = exp_term(t0, f, 1);
    lemma_exp_term_bounds(t0, f, 1);
    let t2 = exp_term(t1, f, 2);
    lemma_exp_term_bounds(t1, f, 2);
    let t3 = exp_term(t2, f, 3);
    lemma_exp_term_bounds(t2, f, 3);
    let t4 = exp_term(t3, f, 4);
    lemma_exp_term_bounds(t3, f, 4);
    let t5 = exp_term(t4, f, 5);
    lemma_exp_term_bounds(t4, f, 5);
    let t6 = exp_term(t5, f, 6);
    lemma_exp_term_bounds(t5, f, 6);
    let t7 = exp_term(t6, f, 7);
    lemma_exp_term_bounds(t6, f, 7);
}

/// The fixed-point exponential of a nonnegative argument is at least one.
proof fn lemma_exp_fx_ge_one(y: int)
    requires
        y >= 0,
    ensures
        SCALE as int <= exp_fx(y) <= i64::MAX,
{
    vstd::arithmetic::div_mod::lemma_div_pos_is_pos(y, SCALE as int);
    vstd::arithmetic::div_mod::lemma_mod_division_less_than_divisor(y, SCALE as int);
    lemma_pow_e_ge_one(y / (SCALE as int));
    lemma_exp_frac_bounds(y % (SCALE as int));
    lemma_fmul_ge_one(pow_e(y / (SCALE as int)), exp_frac(y % (SCALE as int)));
}

/// Executable counterpart of `exp_term`.
fn exp_term_exec(t: MyF64, f: MyF64, k: i64) -> (r: MyF64)
    requires
        0 <= t@ <= SCALE,
        0 <= f@ <= SCALE,
        0 < k <= 7,
    ensures
        r@ == exp_term(t@, f@, k as int),
        0 <= r@ <= t@,
{
    proof {
        lemma_exp_term_bounds(t@, f@, k as int);
        lemma_fmul_nonneg(t@, f@);
    }
    let p = t.mul(f);
    let q: u64 = (p.0 as u64) / (k as u64);
    MyF64(q as i64)
}

/// Executable counterpart of `pow_e`.
fn pow_e_exec(n: u64) -> (r: MyF64)
    requires
        n <= 13,
    ensures
        r@ == pow_e(n as int),
        SCALE as int <= r@,
{
    let e = MyF64(E_SCALED);
    let mut acc = MyF64(SCALE);
    let mut i: u64 = 0;
    while i < n
        invariant
            i <= n,
            e@ == E_SCALED as int,
            acc@ == pow_e(i as int),
            SCALE as int <= acc@,
        decreases n - i,
    {
        proof {
            lemma_fmul_ge_one(E_SCALED as int, acc@);
        }
        acc = e.mul(acc);
        i = i + 1;
    }
    acc
}

/// Executable counterpart of `exp_frac`.
fn exp_frac_exec(f: MyF64) -> (r: MyF64)
    requires
        0 <= f@ < SCALE,
    ensures
        r@ == exp_frac(f@),
        SCALE as int <= r@ <= 8 * SCALE as int,
{
    proof {
        lemma_exp_frac_bounds(f@);
    }
    let t0 = MyF64(SCALE);
    let t1 = exp_term_exec(t0, f, 1);
    let t2 = exp_term_exec(t1, f, 2);
    let t3 = exp_term_exec(t2, f, 3);
    let t4 = exp_term_exec(t3, f, 4);
    let t5 = exp_term_exec(t4, f, 5);
    let t6 = exp_term_exec(t5, f, 6);
    let t7 = exp_term_exec(t6, f, 7);
    MyF64(t0.0 + t1.0 + t2.0 + t3.0 + t4.0 + t5.0 + t6.0 + t7.0)
}

/// Executable counterpart of `exp_fx`.
fn exp_fx_exec(y: i64) -> (r: MyF64)
    requires
        0 <= y < 2 * TANH_CUT,
    ensures
        r@ == exp_fx(y as int),
        SCALE as int <= r@,
{
    let n: u64 = (y as u64) / (SCALE as u64);
    let f: u64 = (y as u64) % (SCALE as u64);
    proof {
        vstd::arithmetic::div_mod::lemma_mod_division_less_than_divisor(y as int, SCALE as int);
        vstd::arithmetic::div_mod::lemma_div_pos_is_pos(y as int, SCALE as int);
        vstd::arithmetic::div_mod::lemma_div_is_ordered(y as int, 2 * TANH_CUT as int - 1, SCALE as int);
        lemma_exp_fx_ge_one(y as int);
    }
    let pe = pow_e_exec(n);
    let ef = exp_frac_exec(MyF64(f as i64));
    pe.mul(ef)
}

impl MyF64 {
    /// The hyperbolic tangent of this scalar, computed through the
    /// exponential of twice the argument as `(e^(2x) - 1) / (e^(2x) + 1)`.
    pub fn tanh(self) -> (r: MyF64)
        ensures
            r@ == tanh_fx(self@),
    {
        let one = MyF64(SCALE);
        if self.0 >= TANH_CUT {
            MyF64(SCALE - 1)
        } else if self.0 <= -TANH_CUT {
            MyF64(-(SCALE - 1))
        } else if self.0 >= 0 {
            let t = exp_fx_exec(2 * self.0);
            t.sub(one).div(t.add(one))
        } else {
            let t = exp_fx_exec(-2 * self.0);
            let m = t.sub(one).div(t.add(one));
            proof {
                vstd::arithmetic::div_mod::lemma_div_pos_is_pos(
                    (fsub(t@, SCALE as int)) * (SCALE as int),
                    fadd(t@, SCALE as int),
                );
            }
            MyF64(-m.0)
        }
    }
}

} // verus!
