//! Lagrange coefficients at zero over F_r and the interpolation identity
//! that threshold decryption rests on.
use vstd::prelude::*;
use crate::field::{modulus_r, Fe};
use crate::audit::{fe_sum, int_sum};

verus! {

/// The product of the points of `u` other than `j`.
pub open spec fn lag_num(u: Seq<int>, j: int) -> int
    decreases u.len(),
{
    if u.len() == 0 {
        1
    } else {
        lag_num(u.drop_last(), j) * if u.last() == j { 1 } else { u.last() }
    }
}

/// The product of the differences `k - j` over the points `k` of `u` other
/// than `j`.
pub open spec fn lag_den(u: Seq<int>, j: int) -> int
    decreases u.len(),
{
    if u.len() == 0 {
        1
    } else {
        lag_den(u.drop_last(), j) * if u.last() == j { 1 } else { u.last() - j }
    }
}

/// Whether `y` is a canonical inverse of `d` modulo `r`.
pub open spec fn inverse_of(d: int, y: int) -> bool {
    0 <= y < modulus_r() && (d * y) % (modulus_r() as int) == 1
}

/// The inverse of `d` modulo `r`, where one exists.
pub open spec fn inv_mod(d: int) -> int {
    choose|y: int| #[trigger] inverse_of(d, y)
}

/// Whether `d` has an inverse modulo `r`.
pub open spec fn is_unit(d: int) -> bool {
    exists|y: int| #[trigger] inverse_of(d, y)
}

/// The Lagrange coefficient at zero of the point `j` among the points `u`:
/// the product of `k / (k - j)` over the other points, modulo `r`.
pub open spec fn lag_coeff(u: Seq<int>, j: int) -> int {
    (lag_num(u, j) * inv_mod(lag_den(u, j))) % (modulus_r() as int)
}

/// Inverses modulo `r` are unique.
pub proof fn lemma_inverse_unique(d: int, y: int)
    requires
        0 <= y < modulus_r(),
        (d * y) % (modulus_r() as int) == 1,
    ensures
        is_unit(d),
        inv_mod(d) == y,
{
    let r = modulus_r() as int;
    assert(inverse_of(d, y));
    assert(is_unit(d));
    let z = inv_mod(d);
    assert(inverse_of(d, z));
    // y = y * (d * z) = (d * y) * z = z  (mod r)
    vstd::arithmetic::div_mod::lemma_mul_mod_noop_right(y, d * z, r);
    vstd::arithmetic::div_mod::lemma_mul_mod_noop_left(d * y, z, r);
    assert(y * (d * z) == (d * y) * z) by (nonlinear_arith);
    assert((y * 1) % r == (1 * z) % r);
    vstd::arithmetic::div_mod::lemma_small_mod(y as nat, r as nat);
    vstd::arithmetic::div_mod::lemma_small_mod(z as nat, r as nat);
}

/// `x` to the power `m`.
pub open spec fn ipow(x: int, m: nat) -> int
    decreases m,
{
    if m == 0 {
        1
    } else {
        x * ipow(x, (m - 1) as nat)
    }
}

/// The sum of `g` over the points of `w`.
pub open spec fn sum_over(w: Seq<int>, g: spec_fn(int) -> int) -> int
    decreases w.len(),
{
    if w.len() == 0 {
        0
    } else {
        sum_over(w.drop_last(), g) + g(w.last())
    }
}

/// No point occurs twice.
pub open spec fn distinct(u: Seq<int>) -> bool {
    forall|i: int, j: int| 0 <= i < u.len() && 0 <= j < u.len() && i != j ==> u[i] != u[j]
}

/// Every Lagrange denominator of `u` is invertible modulo `r`.
pub open spec fn dens_invertible(u: Seq<int>) -> bool {
    forall|j: int| 0 <= j < u.len() ==> is_unit(#[trigger] lag_den(u, u[j]))
}

/// The term λ_x(u) · x^m.
pub open spec fn moment_term(u: Seq<int>, m: nat) -> spec_fn(int) -> int {
    |x: int| lag_coeff(u, x) * ipow(x, m)
}

/// Σ_j λ_j(u) · x_j^m, the interpolation of x^m at zero.
pub open spec fn lag_moment(u: Seq<int>, m: nat) -> int {
    sum_over(u, moment_term(u, m))
}

/// The term λ_x(u) · (c - x) · x^m.
pub open spec fn shifted_term(u: Seq<int>, m: nat, c: int) -> spec_fn(int) -> int {
    |x: int| lag_coeff(u, x) * (c - x) * ipow(x, m)
}

/// The term c · f(x).
pub open spec fn scaled_term(c: int, f: spec_fn(int) -> int) -> spec_fn(int) -> int {
    |x: int| c * f(x)
}

/// The zero term.
pub open spec fn zero_term() -> spec_fn(int) -> int {
    |x: int| 0int
}

proof fn lemma_sum_append(w1: Seq<int>, w2: Seq<int>, g: spec_fn(int) -> int)
    ensures
        sum_over(w1 + w2, g) == sum_over(w1, g) + sum_over(w2, g),
    decreases w2.len(),
{
    if w2.len() == 0 {
        assert(w1 + w2 =~= w1);
    } else {
        assert((w1 + w2).drop_last() =~= w1 + w2.drop_last());
        lemma_sum_append(w1, w2.drop_last(), g);
    }
}

proof fn lemma_sum_first(w: Seq<int>, g: spec_fn(int) -> int)
    requires
        w.len() > 0,
    ensures
        sum_over(w, g) == g(w[0]) + sum_over(w.drop_first(), g),
{
    let one = seq![w[0]];
    assert(w =~= one + w.drop_first());
    lemma_sum_append(one, w.drop_first(), g);
    assert(one.drop_last() =~= Seq::<int>::empty());
    assert(one.last() == w[0]);
    assert(sum_over(one, g) == sum_over(one.drop_last(), g) + g(one.last()));
}

proof fn lemma_sum_pointwise_mod(w: Seq<int>, g: spec_fn(int) -> int, h: spec_fn(int) -> int)
    requires
        forall|i: int| 0 <= i < w.len() ==> #[trigger] g(w[i]) % (modulus_r() as int) == h(w[i]) % (modulus_r() as int),
    ensures
        sum_over(w, g) % (modulus_r() as int) == sum_over(w, h) % (modulus_r() as int),
    decreases w.len(),
{
    if w.len() > 0 {
        let r = modulus_r() as int;
        let rest = w.drop_last();
        assert forall|i: int| 0 <= i < rest.len() implies #[trigger] g(rest[i]) % r == h(rest[i]) % r by {
            assert(rest[i] == w[i]);
        }
        lemma_sum_pointwise_mod(rest, g, h);
        assert(g(w[w.len() - 1]) % r == h(w[w.len() - 1]) % r);
        vstd::arithmetic::div_mod::lemma_add_mod_noop(sum_over(rest, g), g(w.last()), r);
        vstd::arithmetic::div_mod::lemma_add_mod_noop(sum_over(rest, h), h(w.last()), r);
    }
}

proof fn lemma_sum_linear(w: Seq<int>, g: spec_fn(int) -> int, h: spec_fn(int) -> int, f: spec_fn(int) -> int, c: int, d: int)
    requires
        forall|i: int| 0 <= i < w.len() ==> #[trigger] f(w[i]) == c * g(w[i]) + d * h(w[i]),
    ensures
        sum_over(w, f) == c * sum_over(w, g) + d * sum_over(w, h),
    decreases w.len(),
{
    if w.len() > 0 {
        let rest = w.drop_last();
        assert forall|i: int| 0 <= i < rest.len() implies #[trigger] f(rest[i]) == c * g(rest[i]) + d * h(rest[i]) by {
            assert(rest[i] == w[i]);
        }
        lemma_sum_linear(rest, g, h, f, c, d);
        assert(f(w[w.len() - 1]) == c * g(w[w.len() - 1]) + d * h(w[w.len() - 1]));
        let (sg, sh, gl, hl) = (sum_over(rest, g), sum_over(rest, h), g(w.last()), h(w.last()));
        assert(c * sg + d * sh + (c * gl + d * hl) == c * (sg + gl) + d * (sh + hl)) by (nonlinear_arith);
    }
}

/// Removing the first point takes its factor out of the products.
proof fn lemma_lag_first(u: Seq<int>, x: int)
    requires
        u.len() > 0,
    ensures
        lag_num(u, x) == (if u[0] == x { 1 } else { u[0] }) * lag_num(u.drop_first(), x),
        lag_den(u, x) == (if u[0] == x { 1 } else { u[0] - x }) * lag_den(u.drop_first(), x),
    decreases u.len(),
{
    if u.len() == 1 {
        assert(u.drop_first() =~= Seq::<int>::empty());
        assert(u.drop_last() =~= Seq::<int>::empty());
    } else {
        let d = u.drop_last();
        lemma_lag_first(d, x);
        assert(d.drop_first() =~= u.drop_first().drop_last());
        assert(u.drop_first().last() == u.last());
        let fnum = if u[0] == x { 1 } else { u[0] };
        let fden = if u[0] == x { 1 } else { u[0] - x };
        let lnum = if u.last() == x { 1 } else { u.last() };
        let lden = if u.last() == x { 1 } else { u.last() - x };
        let (a, b) = (lag_num(d.drop_first(), x), lag_den(d.drop_first(), x));
        assert((fnum * a) * lnum == fnum * (a * lnum)) by (nonlinear_arith);
        assert((fden * b) * lden == fden * (b * lden)) by (nonlinear_arith);
    }
}

/// A factor of an invertible product is invertible.
proof fn lemma_unit_factor(d: int, e: int)
    requires
        is_unit(d * e),
    ensures
        is_unit(d),
        is_unit(e),
{
    let r = modulus_r() as int;
    let y = choose|y: int| #[trigger] inverse_of(d * e, y);
    assert(inverse_of(d * e, y));
    let yd = (e * y) % r;
    let ye = (d * y) % r;
    vstd::arithmetic::div_mod::lemma_mul_mod_noop_right(d, e * y, r);
    vstd::arithmetic::div_mod::lemma_mul_mod_noop_right(e, d * y, r);
    assert(d * (e * y) == (d * e) * y) by (nonlinear_arith);
    assert(e * (d * y) == (d * e) * y) by (nonlinear_arith);
    assert(inverse_of(d, yd));
    assert(inverse_of(e, ye));
}

/// Multiplying the inverse of d·e by e gives the inverse of d.
proof fn lemma_inv_of_product(d: int, e: int)
    requires
        is_unit(d * e),
    ensures
        is_unit(d),
        (inv_mod(d * e) * e) % (modulus_r() as int) == inv_mod(d),
{
    let r = modulus_r() as int;
    lemma_unit_factor(d, e);
    let y = inv_mod(d * e);
    assert(inverse_of(d * e, y));
    let z = (y * e) % r;
    vstd::arithmetic::div_mod::lemma_mul_mod_noop_right(d, y * e, r);
    assert(d * (y * e) == (d * e) * y) by (nonlinear_arith);
    lemma_inverse_unique(d, z);
}

/// Cancelling an invertible factor modulo r.
proof fn lemma_cancel(e: int, x: int, y: int)
    requires
        is_unit(e),
        (e * x) % (modulus_r() as int) == (e * y) % (modulus_r() as int),
    ensures
        x % (modulus_r() as int) == y % (modulus_r() as int),
{
    let r = modulus_r() as int;
    let z = choose|z: int| #[trigger] inverse_of(e, z);
    assert(inverse_of(e, z));
    vstd::arithmetic::div_mod::lemma_mul_mod_noop_left(e * x, z, r);
    vstd::arithmetic::div_mod::lemma_mul_mod_noop_left(e * y, z, r);
    assert((e * x) * z == x * (e * z)) by (nonlinear_arith);
    assert((e * y) * z == y * (e * z)) by (nonlinear_arith);
    vstd::arithmetic::div_mod::lemma_mul_mod_noop_right(x, e * z, r);
    vstd::arithmetic::div_mod::lemma_mul_mod_noop_right(y, e * z, r);
}

/// Dropping the last point `a`: a · λ_x(u without a) = λ_x(u) · (a - x).
proof fn lemma_coeff_drop_last(u: Seq<int>, x: int)
    requires
        u.len() > 0,
        u.last() != x,
        is_unit(lag_den(u, x)),
    ensures
        is_unit(lag_den(u.drop_last(), x)),
        (u.last() * lag_coeff(u.drop_last(), x)) % (modulus_r() as int)
            == (lag_coeff(u, x) * (u.last() - x)) % (modulus_r() as int),
{
    let r = modulus_r() as int;
    let a = u.last();
    let n = lag_num(u.drop_last(), x);
    let d = lag_den(u.drop_last(), x);
    let e = a - x;
    assert(lag_den(u, x) == d * e);
    lemma_inv_of_product(d, e);
    lemma_coeff_algebra(n, d, e, a);
}

/// Dropping the first point `b`: b · λ_x(u without b) = λ_x(u) · (b - x).
proof fn lemma_coeff_drop_first(u: Seq<int>, x: int)
    requires
        u.len() > 0,
        u[0] != x,
        is_unit(lag_den(u, x)),
    ensures
        is_unit(lag_den(u.drop_first(), x)),
        (u[0] * lag_coeff(u.drop_first(), x)) % (modulus_r() as int)
            == (lag_coeff(u, x) * (u[0] - x)) % (modulus_r() as int),
{
    let b = u[0];
    let n = lag_num(u.drop_first(), x);
    let d = lag_den(u.drop_first(), x);
    let e = b - x;
    lemma_lag_first(u, x);
    assert(lag_den(u, x) == d * e) by (nonlinear_arith)
        requires
            lag_den(u, x) == e * d,
    ;
    assert(lag_num(u, x) == n * b) by (nonlinear_arith)
        requires
            lag_num(u, x) == b * n,
    ;
    lemma_inv_of_product(d, e);
    lemma_coeff_algebra(n, d, e, b);
}

/// With N the other points' product, D their differences and e = c - x:
/// c · (N · D^-1) = (N · c · (D e)^-1) · e  modulo r.
proof fn lemma_coeff_algebra(n: int, d: int, e: int, c: int)
    requires
        is_unit(d * e),
        (inv_mod(d * e) * e) % (modulus_r() as int) == inv_mod(d),
    ensures
        (c * ((n * inv_mod(d)) % (modulus_r() as int))) % (modulus_r() as int)
            == (((n * c) * inv_mod(d * e)) % (modulus_r() as int) * e) % (modulus_r() as int),
{
    let r = modulus_r() as int;
    let y = inv_mod(d * e);
    let z = inv_mod(d);
    vstd::arithmetic::div_mod::lemma_mul_mod_noop_right(c, n * z, r);
    vstd::arithmetic::div_mod::lemma_mul_mod_noop_left((n * c) * y, e, r);
    assert(((n * c) * y) * e == (n * c) * (y * e)) by (nonlinear_arith);
    vstd::arithmetic::div_mod::lemma_mul_mod_noop_right(n * c, y * e, r);
    assert(c * (n * z) == (n * c) * z) by (nonlinear_arith);
}


/// The recurrence that drives interpolation: with a the last and b the
/// first point, (a - b) · M(u) = a · M(u without a) - b · M(u without b).
proof fn lemma_moment_recurrence(u: Seq<int>, m: nat)
    requires
        u.len() >= 2,
        distinct(u),
        dens_invertible(u),
    ensures
        ((u.last() - u[0]) * lag_moment(u, m)) % (modulus_r() as int)
            == (u.last() * lag_moment(u.drop_last(), m) - u[0] * lag_moment(u.drop_first(), m)) % (modulus_r() as int),
{
    let r = modulus_r() as int;
    let n = u.len() as int;
    let a = u.last();
    let b = u[0];
    let ua = u.drop_last();
    let ub = u.drop_first();
    let mid = u.subrange(1, n - 1);
    let f = moment_term(u, m);
    let ga = shifted_term(u, m, a);
    let gb = shifted_term(u, m, b);
    // a · M(ua) = Σ_ua a · λ(ua, x) x^m ≡ Σ_ua λ(u, x)(a - x) x^m
    lemma_sum_linear(ua, moment_term(ua, m), zero_term(), scaled_term(a, moment_term(ua, m)), a, 0);
    assert forall|i: int| 0 <= i < ua.len() implies #[trigger] scaled_term(a, moment_term(ua, m))(ua[i]) % r == ga(ua[i]) % r by {
        let x = ua[i];
        assert(x == u[i]);
        assert(u[i] != u[n - 1]);
        assert(is_unit(lag_den(u, u[i])));
        lemma_coeff_drop_last(u, x);
        lemma_mul_congruent(a * lag_coeff(ua, x), lag_coeff(u, x) * (a - x), ipow(x, m));
        assert(a * (lag_coeff(ua, x) * ipow(x, m)) == (a * lag_coeff(ua, x)) * ipow(x, m)) by (nonlinear_arith);
    }
    lemma_sum_pointwise_mod(ua, scaled_term(a, moment_term(ua, m)), ga);
    assert(sum_over(ua, zero_term()) == 0) by {
        lemma_sum_zero(ua);
    }
    // b · M(ub) ≡ Σ_ub λ(u, x)(b - x) x^m
    lemma_sum_linear(ub, moment_term(ub, m), zero_term(), scaled_term(b, moment_term(ub, m)), b, 0);
    assert forall|i: int| 0 <= i < ub.len() implies #[trigger] scaled_term(b, moment_term(ub, m))(ub[i]) % r == gb(ub[i]) % r by {
        let x = ub[i];
        assert(x == u[i + 1]);
        assert(u[i + 1] != u[0]);
        assert(is_unit(lag_den(u, u[i + 1])));
        lemma_coeff_drop_first(u, x);
        lemma_mul_congruent(b * lag_coeff(ub, x), lag_coeff(u, x) * (b - x), ipow(x, m));
        assert(b * (lag_coeff(ub, x) * ipow(x, m)) == (b * lag_coeff(ub, x)) * ipow(x, m)) by (nonlinear_arith);
    }
    lemma_sum_pointwise_mod(ub, scaled_term(b, moment_term(ub, m)), gb);
    assert(sum_over(ub, zero_term()) == 0) by {
        lemma_sum_zero(ub);
    }
    // Split the sums around the middle points.
    lemma_sum_first(ua, ga);
    assert(ua.drop_first() =~= mid);
    assert(ub.drop_last() =~= mid);
    assert(ub.last() == a);
    lemma_sum_first(u, f);
    assert(u.drop_first() == ub);
    assert forall|i: int| 0 <= i < mid.len() implies #[trigger] ga(mid[i]) == 1 * gb(mid[i]) + (a - b) * f(mid[i]) by {
        let x = mid[i];
        let (l, p) = (lag_coeff(u, x), ipow(x, m));
        assert(l * (a - x) * p == 1 * (l * (b - x) * p) + (a - b) * (l * p)) by (nonlinear_arith);
    }
    lemma_sum_linear(mid, gb, f, ga, 1, a - b);
    let (lb, pb) = (lag_coeff(u, b), ipow(b, m));
    let (la, pa) = (lag_coeff(u, a), ipow(a, m));
    assert(ga(b) == (a - b) * f(b)) by {
        assert(lb * (a - b) * pb == (a - b) * (lb * pb)) by (nonlinear_arith);
    }
    assert(gb(a) == -((a - b) * f(a))) by {
        assert(la * (b - a) * pa == -((a - b) * (la * pa))) by (nonlinear_arith);
    }
    let (sm, sgb) = (sum_over(mid, f), sum_over(mid, gb));
    assert(sum_over(ua, ga) - sum_over(ub, gb) == (a - b) * lag_moment(u, m)) by {
        assert(lag_moment(u, m) == f(b) + sm + f(a));
        assert((a - b) * f(b) + (sgb + (a - b) * sm) - (sgb + -((a - b) * f(a))) == (a - b) * (f(b) + sm + f(a)))
            by (nonlinear_arith);
    }
    vstd::arithmetic::div_mod::lemma_sub_mod_noop(a * lag_moment(ua, m), b * lag_moment(ub, m), r);
    vstd::arithmetic::div_mod::lemma_sub_mod_noop(sum_over(ua, ga), sum_over(ub, gb), r);
}

proof fn lemma_sum_zero(w: Seq<int>)
    ensures
        sum_over(w, zero_term()) == 0,
    decreases w.len(),
{
    if w.len() > 0 {
        lemma_sum_zero(w.drop_last());
    }
}

proof fn lemma_mul_congruent(x: int, y: int, z: int)
    requires
        x % (modulus_r() as int) == y % (modulus_r() as int),
    ensures
        (x * z) % (modulus_r() as int) == (y * z) % (modulus_r() as int),
{
    let r = modulus_r() as int;
    vstd::arithmetic::div_mod::lemma_mul_mod_noop_left(x, z, r);
    vstd::arithmetic::div_mod::lemma_mul_mod_noop_left(y, z, r);
}

/// The value of the polynomial with coefficients `coeffs` (constant term
/// first) at `x`, over the integers.
pub open spec fn poly_eval(coeffs: Seq<int>, x: int) -> int
    decreases coeffs.len(),
{
    if coeffs.len() == 0 {
        0
    } else {
        coeffs[0] + x * poly_eval(coeffs.drop_first(), x)
    }
}

/// The term λ_x(u) · F(x) for the polynomial F with coefficients `coeffs`.
pub open spec fn interpolation_term(u: Seq<int>, coeffs: Seq<int>) -> spec_fn(int) -> int {
    |x: int| lag_coeff(u, x) * poly_eval(coeffs, x)
}

/// The coefficient of x^i, zero past the last one.
pub open spec fn coeff_at(coeffs: Seq<int>, i: int) -> int {
    if 0 <= i < coeffs.len() { coeffs[i] } else { 0 }
}

/// Dropping the first or the last point keeps the points distinct and the
/// denominators invertible, and the difference of the two end points is
/// invertible.
proof fn lemma_sublists(u: Seq<int>)
    requires
        u.len() >= 2,
        distinct(u),
        dens_invertible(u),
    ensures
        distinct(u.drop_last()),
        distinct(u.drop_first()),
        dens_invertible(u.drop_last()),
        dens_invertible(u.drop_first()),
        is_unit(u.last() - u[0]),
{
    let n = u.len() as int;
    let a = u.last();
    let b = u[0];
    let ua = u.drop_last();
    let ub = u.drop_first();
    assert(distinct(ua));
    assert(distinct(ub));
    assert forall|j: int| 0 <= j < ua.len() implies is_unit(#[trigger] lag_den(ua, ua[j])) by {
        assert(ua[j] == u[j] && u[j] != u[n - 1]);
        assert(is_unit(lag_den(u, u[j])));
        lemma_coeff_drop_last(u, ua[j]);
    }
    assert forall|j: int| 0 <= j < ub.len() implies is_unit(#[trigger] lag_den(ub, ub[j])) by {
        assert(ub[j] == u[j + 1] && u[j + 1] != u[0]);
        assert(is_unit(lag_den(u, u[j + 1])));
        lemma_coeff_drop_first(u, ub[j]);
    }
    assert(is_unit(a - b)) by {
        assert(u[0] != u[n - 1]);
        assert(is_unit(lag_den(u, u[0])));
        assert(lag_den(u, b) == lag_den(ua, b) * (a - b));
        lemma_unit_factor(lag_den(ua, b), a - b);
    }
}

/// The Lagrange coefficients at zero sum to one.
proof fn lemma_moment_zero(u: Seq<int>)
    requires
        u.len() >= 1,
        distinct(u),
        dens_invertible(u),
    ensures
        lag_moment(u, 0) % (modulus_r() as int) == 1,
    decreases u.len(),
{
    let r = modulus_r() as int;
    if u.len() == 1 {
        let x = u[0];
        assert(u.drop_last() =~= Seq::<int>::empty());
        assert(u.last() == x);
        assert(lag_num(u, x) == lag_num(u.drop_last(), x) * 1);
        assert(lag_den(u, x) == lag_den(u.drop_last(), x) * 1);
        assert(lag_num(u, x) == 1);
        assert(lag_den(u, x) == 1);
        lemma_inverse_unique(1, 1);
        assert(lag_coeff(u, x) == 1);
        assert(lag_moment(u, 0) == sum_over(u.drop_last(), moment_term(u, 0)) + moment_term(u, 0)(u.last()));
    } else {
        let a = u.last();
        let b = u[0];
        let ua = u.drop_last();
        let ub = u.drop_first();
        lemma_sublists(u);
        lemma_moment_zero(ua);
        lemma_moment_zero(ub);
        lemma_moment_recurrence(u, 0);
        lemma_mul_congruent(lag_moment(ua, 0), 1, a);
        lemma_mul_congruent(lag_moment(ub, 0), 1, b);
        assert(a * lag_moment(ua, 0) == lag_moment(ua, 0) * a) by (nonlinear_arith);
        assert(b * lag_moment(ub, 0) == lag_moment(ub, 0) * b) by (nonlinear_arith);
        vstd::arithmetic::div_mod::lemma_sub_mod_noop(a * lag_moment(ua, 0), b * lag_moment(ub, 0), r);
        vstd::arithmetic::div_mod::lemma_sub_mod_noop(1 * a, 1 * b, r);
        assert((a - b) * 1 == 1 * a - 1 * b);
        lemma_cancel(a - b, lag_moment(u, 0), 1);
    }
}

/// Raising the power by one: with a the last point,
/// M(u, m + 1) = a · (M(u, m) - M(u without a, m)) modulo r.
proof fn lemma_moment_step(u: Seq<int>, m: nat)
    requires
        u.len() >= 2,
        distinct(u),
        dens_invertible(u),
    ensures
        lag_moment(u, m + 1) % (modulus_r() as int)
            == (u.last() * (lag_moment(u, m) - lag_moment(u.drop_last(), m))) % (modulus_r() as int),
{
    let r = modulus_r() as int;
    let n = u.len() as int;
    let a = u.last();
    let ua = u.drop_last();
    let f = moment_term(u, m);
    let f1 = moment_term(u, m + 1);
    let ga = shifted_term(u, m, a);
    assert forall|i: int| 0 <= i < u.len() implies #[trigger] ga(u[i]) == a * f(u[i]) + (-1) * f1(u[i]) by {
        let x = u[i];
        let (l, p) = (lag_coeff(u, x), ipow(x, m));
        assert(ipow(x, m + 1) == x * p);
        assert(l * (a - x) * p == a * (l * p) + (-1) * (l * (x * p))) by (nonlinear_arith);
    }
    lemma_sum_linear(u, f, f1, ga, a, -1);
    assert(ga(a) == 0) by {
        assert(lag_coeff(u, a) * (a - a) * ipow(a, m) == 0) by (nonlinear_arith);
    }
    assert(u.drop_last() == ua);
    assert(sum_over(u, ga) == sum_over(ua, ga) + ga(a));
    lemma_sum_linear(ua, moment_term(ua, m), zero_term(), scaled_term(a, moment_term(ua, m)), a, 0);
    assert forall|i: int| 0 <= i < ua.len() implies #[trigger] scaled_term(a, moment_term(ua, m))(ua[i]) % r == ga(ua[i]) % r by {
        let x = ua[i];
        assert(x == u[i]);
        assert(u[i] != u[n - 1]);
        assert(is_unit(lag_den(u, u[i])));
        lemma_coeff_drop_last(u, x);
        lemma_mul_congruent(a * lag_coeff(ua, x), lag_coeff(u, x) * (a - x), ipow(x, m));
        assert(a * (lag_coeff(ua, x) * ipow(x, m)) == (a * lag_coeff(ua, x)) * ipow(x, m)) by (nonlinear_arith);
    }
    lemma_sum_pointwise_mod(ua, scaled_term(a, moment_term(ua, m)), ga);
    lemma_sum_zero(ua);
    let (mu, mu1, ma) = (lag_moment(u, m), lag_moment(u, m + 1), lag_moment(ua, m));
    assert(mu1 == a * mu - sum_over(u, ga));
    vstd::arithmetic::div_mod::lemma_sub_mod_noop(a * mu, sum_over(u, ga), r);
    vstd::arithmetic::div_mod::lemma_sub_mod_noop(a * mu, a * ma, r);
    assert(a * mu - a * ma == a * (mu - ma)) by (nonlinear_arith);
}

/// Lagrange interpolation of the powers: over `u`, Σ_j λ_j · x_j^m is 1 for
/// m = 0 and 0 for 0 < m < |u|, modulo r.
proof fn lemma_moment(u: Seq<int>, m: nat)
    requires
        u.len() >= 1,
        m < u.len(),
        distinct(u),
        dens_invertible(u),
    ensures
        lag_moment(u, m) % (modulus_r() as int) == (if m == 0 { 1int } else { 0int }),
    decreases u.len(), m,
{
    let r = modulus_r() as int;
    if m == 0 {
        lemma_moment_zero(u);
    } else {
        let k = (m - 1) as nat;
        let ua = u.drop_last();
        lemma_sublists(u);
        lemma_moment(u, k);
        lemma_moment(ua, k);
        lemma_moment_step(u, k);
        let (mu, ma) = (lag_moment(u, k), lag_moment(ua, k));
        vstd::arithmetic::div_mod::lemma_sub_mod_noop(mu, ma, r);
        assert((mu - ma) % r == 0);
        vstd::arithmetic::div_mod::lemma_mul_mod_noop_right(u.last(), mu - ma, r);
        assert(u.last() * ((mu - ma) % r) == 0);
        assert(k + 1 == m);
    }
}

/// The term λ_x(u) · x^s · F(x) for the polynomial F with coefficients
/// `coeffs`.
pub open spec fn weighted_term(u: Seq<int>, coeffs: Seq<int>, s: nat) -> spec_fn(int) -> int {
    |x: int| lag_coeff(u, x) * (ipow(x, s) * poly_eval(coeffs, x))
}

/// Σ_j λ_j · x_j^s · F(x_j) is F(0) for s = 0 and 0 for s > 0, when s plus
/// the number of coefficients of F is at most the number of points.
proof fn lemma_weighted_sum(u: Seq<int>, coeffs: Seq<int>, s: nat)
    requires
        u.len() >= 1,
        s + coeffs.len() <= u.len(),
        distinct(u),
        dens_invertible(u),
    ensures
        sum_over(u, weighted_term(u, coeffs, s)) % (modulus_r() as int)
            == (if s == 0 { coeff_at(coeffs, 0) } else { 0 }) % (modulus_r() as int),
    decreases coeffs.len(),
{
    let r = modulus_r() as int;
    let t = weighted_term(u, coeffs, s);
    if coeffs.len() == 0 {
        assert forall|i: int| 0 <= i < u.len() implies #[trigger] t(u[i]) == 0 * zero_term()(u[i]) + 0 * zero_term()(u[i]) by {
            let x = u[i];
            assert(poly_eval(coeffs, x) == 0);
            assert(lag_coeff(u, x) * (ipow(x, s) * 0) == 0) by (nonlinear_arith);
        }
        lemma_sum_linear(u, zero_term(), zero_term(), t, 0, 0);
    } else {
        let c0 = coeffs[0];
        let rest = coeffs.drop_first();
        let s1 = (s + 1) as nat;
        let w = weighted_term(u, rest, s1);
        let ms = moment_term(u, s);
        assert forall|i: int| 0 <= i < u.len() implies #[trigger] t(u[i]) == c0 * ms(u[i]) + 1 * w(u[i]) by {
            let x = u[i];
            let (l, p, q) = (lag_coeff(u, x), ipow(x, s), poly_eval(rest, x));
            assert(poly_eval(coeffs, x) == c0 + x * q);
            assert(ipow(x, s1) == x * p);
            assert(l * (p * (c0 + x * q)) == c0 * (l * p) + 1 * (l * ((x * p) * q))) by (nonlinear_arith);
        }
        lemma_sum_linear(u, ms, w, t, c0, 1);
        lemma_moment(u, s);
        lemma_weighted_sum(u, rest, s1);
        let (sm, sw) = (sum_over(u, ms), sum_over(u, w));
        let v: int = if s == 0 { 1 } else { 0 };
        assert(sm % r == v % r);
        lemma_mul_congruent(sm, v, c0);
        assert(sm * c0 == c0 * sm && v * c0 == c0 * v) by (nonlinear_arith);
        vstd::arithmetic::div_mod::lemma_add_mod_noop(c0 * sm, 1 * sw, r);
        vstd::arithmetic::div_mod::lemma_add_mod_noop(c0 * v, 0, r);
        if s == 0 {
            assert(coeff_at(coeffs, 0) == c0);
        }
    }
}

/// Lagrange interpolation at zero: for distinct points whose denominators
/// are invertible modulo r, and a polynomial F with no more coefficients
/// than there are points, Σ_j λ_j · F(x_j) = F(0) modulo r.
pub proof fn lemma_interpolation_at_zero(u: Seq<int>, coeffs: Seq<int>)
    requires
        u.len() >= 1,
        coeffs.len() <= u.len(),
        distinct(u),
        dens_invertible(u),
    ensures
        sum_over(u, interpolation_term(u, coeffs)) % (modulus_r() as int) == poly_eval(coeffs, 0) % (modulus_r() as int),
{
    let t = interpolation_term(u, coeffs);
    let w = weighted_term(u, coeffs, 0);
    assert forall|i: int| 0 <= i < u.len() implies #[trigger] t(u[i]) == 1 * w(u[i]) + 0 * zero_term()(u[i]) by {
        let x = u[i];
        assert(ipow(x, 0) == 1);
        assert(1 * poly_eval(coeffs, x) == poly_eval(coeffs, x));
    }
    lemma_sum_linear(u, w, zero_term(), t, 1, 0);
    lemma_weighted_sum(u, coeffs, 0);
    if coeffs.len() > 0 {
        assert(poly_eval(coeffs, 0) == coeffs[0] + 0 * poly_eval(coeffs.drop_first(), 0));
    }
}

/// The coefficientwise sum of polynomials, over their first `t` coefficients.
pub open spec fn joint_polynomial(polys: Seq<Seq<int>>, t: nat) -> Seq<int> {
    Seq::new(t, |k: int| column_sum(polys, k))
}

/// The sum over the polynomials of their coefficient of x^k.
pub open spec fn column_sum(polys: Seq<Seq<int>>, k: int) -> int
    decreases polys.len(),
{
    if polys.len() == 0 {
        0
    } else {
        column_sum(polys.drop_last(), k) + polys.last()[k]
    }
}

/// The sum over the polynomials of their values at `x`.
pub open spec fn evaluation_sum(polys: Seq<Seq<int>>, x: int) -> int
    decreases polys.len(),
{
    if polys.len() == 0 {
        0
    } else {
        evaluation_sum(polys.drop_last(), x) + poly_eval(polys.last(), x)
    }
}

/// The coefficientwise sum of two polynomials of the same length.
spec fn poly_add(p: Seq<int>, q: Seq<int>) -> Seq<int> {
    Seq::new(p.len(), |k: int| p[k] + q[k])
}

proof fn lemma_poly_add(p: Seq<int>, q: Seq<int>, x: int)
    requires
        p.len() == q.len(),
    ensures
        poly_eval(poly_add(p, q), x) == poly_eval(p, x) + poly_eval(q, x),
    decreases p.len(),
{
    if p.len() > 0 {
        assert(poly_add(p, q).drop_first() =~= poly_add(p.drop_first(), q.drop_first()));
        lemma_poly_add(p.drop_first(), q.drop_first(), x);
        let (a, b) = (poly_eval(p.drop_first(), x), poly_eval(q.drop_first(), x));
        assert(x * (a + b) == x * a + x * b) by (nonlinear_arith);
    }
}

/// Distributed key generation: the sum of the nodes' polynomials' values at
/// x is the value at x of their coefficientwise sum (all of `t`
/// coefficients); in particular at zero it is the sum of the nodes' secrets.
pub proof fn lemma_joint_polynomial(polys: Seq<Seq<int>>, t: nat, x: int)
    requires
        forall|i: int| 0 <= i < polys.len() ==> (#[trigger] polys[i]).len() == t,
    ensures
        evaluation_sum(polys, x) == poly_eval(joint_polynomial(polys, t), x),
        joint_polynomial(polys, t).len() == t,
    decreases polys.len(),
{
    if polys.len() == 0 {
        lemma_poly_zero(t, x);
        assert(polys =~= Seq::<Seq<int>>::empty());
    } else {
        let rest = polys.drop_last();
        assert forall|i: int| 0 <= i < rest.len() implies (#[trigger] rest[i]).len() == t by {
            assert(rest[i] == polys[i]);
        }
        lemma_joint_polynomial(rest, t, x);
        assert(polys.last() == polys[polys.len() - 1]);
        assert(joint_polynomial(polys, t) =~= poly_add(joint_polynomial(rest, t), polys.last()));
        lemma_poly_add(joint_polynomial(rest, t), polys.last(), x);
        assert(evaluation_sum(polys, x) == evaluation_sum(rest, x) + poly_eval(polys.last(), x));
        assert(poly_eval(joint_polynomial(polys, t), x) == poly_eval(poly_add(joint_polynomial(rest, t), polys.last()), x));
    }
}

proof fn lemma_poly_zero(t: nat, x: int)
    ensures
        poly_eval(Seq::new(t, |k: int| 0int), x) == 0,
        poly_eval(joint_polynomial(Seq::<Seq<int>>::empty(), t), x) == 0,
    decreases t,
{
    assert(joint_polynomial(Seq::<Seq<int>>::empty(), t) =~= Seq::new(t, |k: int| 0int));
    if t > 0 {
        lemma_poly_zero((t - 1) as nat, x);
        assert(Seq::new(t, |k: int| 0int).drop_first() =~= Seq::new((t - 1) as nat, |k: int| 0int));
        assert(joint_polynomial(Seq::<Seq<int>>::empty(), (t - 1) as nat) =~= Seq::new((t - 1) as nat, |k: int| 0int));
        assert(x * 0 == 0);
    }
}

/// Distributed key generation: when node j received from each node the
/// value of that node's polynomial at j (modulo r), the sum of what it
/// received is, modulo r, the value at j of the joint polynomial, so the
/// nodes' key shares are shares of one polynomial.
pub proof fn lemma_aggregated_share(received: Seq<Fe>, polys: Seq<Seq<int>>, t: nat, j: int)
    requires
        received.len() == polys.len(),
        forall|i: int| 0 <= i < polys.len() ==> (#[trigger] polys[i]).len() == t,
        forall|i: int| 0 <= i < received.len()
            ==> #[trigger] received[i].value() == poly_eval(polys[i], j) % (modulus_r() as int),
    ensures
        fe_sum(received) % (modulus_r() as int) == poly_eval(joint_polynomial(polys, t), j) % (modulus_r() as int),
{
    lemma_sum_of_evaluations(received, polys, j);
    lemma_joint_polynomial(polys, t, j);
}

proof fn lemma_sum_of_evaluations(received: Seq<Fe>, polys: Seq<Seq<int>>, j: int)
    requires
        received.len() == polys.len(),
        forall|i: int| 0 <= i < received.len()
            ==> #[trigger] received[i].value() == poly_eval(polys[i], j) % (modulus_r() as int),
    ensures
        fe_sum(received) % (modulus_r() as int) == evaluation_sum(polys, j) % (modulus_r() as int),
    decreases received.len(),
{
    if received.len() > 0 {
        let r = modulus_r() as int;
        let (rd, pd) = (received.drop_last(), polys.drop_last());
        assert forall|i: int| 0 <= i < rd.len() implies #[trigger] rd[i].value() == poly_eval(pd[i], j) % r by {
            assert(rd[i] == received[i] && pd[i] == polys[i]);
        }
        lemma_sum_of_evaluations(rd, pd, j);
        let n = received.len() - 1;
        assert(received.last().value() == poly_eval(polys.last(), j) % r) by {
            assert(received[n] == received.last() && polys[n] == polys.last());
        }
        vstd::arithmetic::div_mod::lemma_add_mod_noop(fe_sum(rd), received.last().value() as int, r);
        vstd::arithmetic::div_mod::lemma_add_mod_noop(evaluation_sum(pd, j), poly_eval(polys.last(), j), r);
        vstd::arithmetic::div_mod::lemma_mod_twice(poly_eval(polys.last(), j), r);
    }
}

/// Distributed key generation: the joint polynomial's value at zero, the
/// joint secret, is the sum of the nodes' constant terms.
pub proof fn lemma_joint_secret(polys: Seq<Seq<int>>, t: nat)
    requires
        t > 0,
        forall|i: int| 0 <= i < polys.len() ==> (#[trigger] polys[i]).len() == t,
    ensures
        poly_eval(joint_polynomial(polys, t), 0) == int_sum(polys.map_values(|p: Seq<int>| p[0])),
{
    let joint = joint_polynomial(polys, t);
    assert(poly_eval(joint, 0) == joint[0] + 0 * poly_eval(joint.drop_first(), 0));
    lemma_column_sum_constant(polys);
}

proof fn lemma_column_sum_constant(polys: Seq<Seq<int>>)
    ensures
        column_sum(polys, 0) == int_sum(polys.map_values(|p: Seq<int>| p[0])),
    decreases polys.len(),
{
    if polys.len() > 0 {
        lemma_column_sum_constant(polys.drop_last());
        assert(polys.map_values(|p: Seq<int>| p[0]).drop_last() =~= polys.drop_last().map_values(|p: Seq<int>| p[0]));
    }
}

} // verus!
