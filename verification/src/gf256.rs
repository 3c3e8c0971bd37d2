//! Elements of GF(2^8) and polynomials over them (highest degree first).

use vstd::prelude::*;
use crate::galois::{
    gf_div, gf_inv, gf_mul, gf_pow, lemma_div_mul_cancel, lemma_inverse, lemma_mul_associative,
    lemma_mul_identity_zero, lemma_mul_linear_right, lemma_mul_linear_left, lemma_pow_square, lemma_xor_cancel,
    lemma_xor_facts, pick, xtime,
};

verus! {

/// A GF(256) element backed by a byte.
#[derive(Clone, Copy, Debug, PartialEq, Eq, Hash, Structural)]
pub struct GF256(pub u8);

/// Multiplication by x, reduced by 0x11D.
fn xtime_exec(a: u8) -> (r: u8)
    ensures
        r == xtime(a),
{
    if a & 0x80u8 != 0u8 {
        (a << 1u8) ^ 0x1du8
    } else {
        a << 1u8
    }
}

/// `m` if `b & bit` is non-zero, else zero.
fn pick_exec(b: u8, bit: u8, m: u8) -> (r: u8)
    ensures
        r == pick(b, bit, m),
{
    if b & bit != 0u8 {
        m
    } else {
        0u8
    }
}

/// Product of two field elements given as bytes.
fn mul_bytes(a: u8, b: u8) -> (r: u8)
    ensures
        r == gf_mul(a, b),
{
    let a1 = xtime_exec(a);
    let a2 = xtime_exec(a1);
    let a3 = xtime_exec(a2);
    let a4 = xtime_exec(a3);
    let a5 = xtime_exec(a4);
    let a6 = xtime_exec(a5);
    let a7 = xtime_exec(a6);
    pick_exec(b, 1u8, a) ^ pick_exec(b, 2u8, a1) ^ pick_exec(b, 4u8, a2) ^ pick_exec(b, 8u8, a3)
        ^ pick_exec(b, 16u8, a4) ^ pick_exec(b, 32u8, a5) ^ pick_exec(b, 64u8, a6) ^ pick_exec(
        b,
        128u8,
        a7,
    )
}

impl GF256 {
    pub fn new(v: u8) -> (r: GF256)
        ensures
            r.0 == v,
    {
        GF256(v)
    }

    /// Field addition: bitwise exclusive or.
    pub fn add(self, other: GF256) -> (r: GF256)
        ensures
            r.0 == self.0 ^ other.0,
    {
        GF256(self.0 ^ other.0)
    }

    /// Field subtraction, which coincides with addition in characteristic two.
    pub fn sub(self, other: GF256) -> (r: GF256)
        ensures
            r.0 == self.0 ^ other.0,
    {
        self.add(other)
    }

    /// Field multiplication.
    pub fn mul(self, other: GF256) -> (r: GF256)
        ensures
            r.0 == gf_mul(self.0, other.0),
    {
        if self.0 == 0u8 || other.0 == 0u8 {
            proof {
                lemma_mul_identity_zero(self.0);
                lemma_mul_identity_zero(other.0);
            }
            return GF256(0u8);
        }
        GF256(mul_bytes(self.0, other.0))
    }

    /// `self` raised to the power `exp` (with `0^0 == 1`).
    pub fn pow(self, exp: u32) -> (r: GF256)
        ensures
            r.0 == gf_pow(self.0, exp as nat),
    {
        let mut result: u8 = 1u8;
        let mut base: u8 = self.0;
        let mut e: u32 = exp;
        proof {
            lemma_mul_identity_zero(gf_pow(self.0, exp as nat));
        }
        while e > 0
            invariant
                gf_mul(result, gf_pow(base, e as nat)) == gf_pow(self.0, exp as nat),
            decreases e,
        {
            let ghost old_result = result;
            let ghost old_base = base;
            let ghost old_e = e;
            let half: u32 = e / 2;
            proof {
                lemma_pow_square(old_base, half as nat);
            }
            if e % 2 == 1 {
                result = mul_bytes(result, base);
                proof {
                    assert(gf_pow(old_base, old_e as nat) == gf_mul(
                        old_base,
                        gf_pow(old_base, (2 * half) as nat),
                    ));
                    lemma_mul_associative(old_result, old_base, gf_pow(old_base, (2 * half) as nat));
                }
            }
            base = mul_bytes(base, base);
            e = half;
        }
        proof {
            lemma_mul_identity_zero(result);
        }
        GF256(result)
    }

    /// Multiplicative inverse of a non-zero element.
    pub fn inv(self) -> (r: GF256)
        requires
            self.0 != 0u8,
        ensures
            r.0 == gf_inv(self.0),
            gf_mul(self.0, r.0) == 1u8,
    {
        proof {
            lemma_inverse(self.0);
        }
        self.pow(254u32)
    }

    /// Division by a non-zero element.
    pub fn div(self, other: GF256) -> (r: GF256)
        requires
            other.0 != 0u8,
        ensures
            r.0 == gf_div(self.0, other.0),
            gf_mul(r.0, other.0) == self.0,
    {
        proof {
            lemma_div_mul_cancel(self.0, other.0);
        }
        if self.0 == 0u8 {
            proof {
                lemma_mul_identity_zero(gf_inv(other.0));
            }
            return GF256(0u8);
        }
        self.mul(other.inv())
    }
}


/// Sum of a sequence of field elements.
pub open spec fn gf_sum(s: Seq<GF256>) -> u8
    decreases s.len(),
{
    if s.len() == 0 {
        0u8
    } else {
        gf_sum(s.drop_last()) ^ s.last().0
    }
}

/// Value at `x` of the polynomial whose coefficients `p` are listed highest degree first.
pub open spec fn poly_eval(p: Seq<GF256>, x: u8) -> u8
    decreases p.len(),
{
    if p.len() == 0 {
        0u8
    } else {
        gf_mul(poly_eval(p.drop_last(), x), x) ^ p.last().0
    }
}

/// Contribution of `a[i]` to coefficient `k` of the product of `a` and `b`.
pub open spec fn conv_term(a: Seq<GF256>, b: Seq<GF256>, i: int, k: int) -> u8 {
    if 0 <= k - i < b.len() {
        gf_mul(a[i].0, b[k - i].0)
    } else {
        0u8
    }
}

/// Coefficient `k` of the product of `a` and `b`, summed over the first `n` entries of `a`.
pub open spec fn conv_partial(a: Seq<GF256>, b: Seq<GF256>, n: nat, k: int) -> u8
    decreases n,
{
    if n == 0 {
        0u8
    } else {
        conv_partial(a, b, (n - 1) as nat, k) ^ conv_term(a, b, n - 1, k)
    }
}

/// The product of two polynomials: `a.len() + b.len() - 1` coefficients.
pub open spec fn poly_product(a: Seq<GF256>, b: Seq<GF256>) -> Seq<GF256> {
    Seq::new((a.len() + b.len() - 1) as nat, |k: int| GF256(conv_partial(a, b, a.len(), k)))
}

/// A vector of `n` zero elements.
fn zeros(n: usize) -> (r: Vec<GF256>)
    ensures
        r@.len() == n,
        forall|k: int| 0 <= k < n ==> r@[k] == GF256(0u8),
{
    let mut r: Vec<GF256> = Vec::new();
    while r.len() < n
        invariant
            r@.len() <= n,
            forall|k: int| 0 <= k < r@.len() ==> r@[k] == GF256(0u8),
        decreases n - r@.len(),
    {
        r.push(GF256(0u8));
    }
    r
}

/// Number of quotient coefficients when a polynomial with `m` coefficients is divided by one with `dl`.
pub open spec fn quotient_len(m: nat, dl: nat) -> nat {
    if m >= dl {
        (m - dl + 1) as nat
    } else {
        0
    }
}

/// `q` is the quotient of `dividend` by `divisor`: its product with the divisor agrees with the
/// dividend on the leading `quotient_len` coefficients.
pub open spec fn is_poly_quotient(dividend: Seq<GF256>, divisor: Seq<GF256>, q: Seq<GF256>) -> bool {
    &&& q.len() == quotient_len(dividend.len(), divisor.len())
    &&& forall|k: int| 0 <= k < q.len() ==> #[trigger] conv_partial(q, divisor, q.len(), k) == dividend[k].0
}

/// The quotient of `dividend` by `divisor` (unique when the divisor's leading coefficient is non-zero).
pub open spec fn poly_quotient(dividend: Seq<GF256>, divisor: Seq<GF256>) -> Seq<GF256> {
    choose|q: Seq<GF256>| is_poly_quotient(dividend, divisor, q)
}

/// `dividend - q * divisor`, aligned with the dividend.
pub open spec fn poly_rem_full(dividend: Seq<GF256>, divisor: Seq<GF256>, q: Seq<GF256>) -> Seq<GF256> {
    Seq::new(dividend.len(), |k: int| GF256(dividend[k].0 ^ conv_partial(q, divisor, q.len(), k)))
}

/// `s`, or the single zero coefficient when `s` is empty.
pub open spec fn or_zero_poly(s: Seq<GF256>) -> Seq<GF256> {
    if s.len() == 0 {
        seq![GF256(0u8)]
    } else {
        s
    }
}

/// Every coefficient is zero.
pub open spec fn is_zero_poly(s: Seq<GF256>) -> bool {
    forall|i: int| 0 <= i < s.len() ==> #[trigger] s[i].0 == 0u8
}

/// The remainder of the division, as long division leaves it: `dividend - quotient * divisor`
/// aligned with the dividend, highest degree first (its leading coefficients, which the quotient
/// cancelled, are zero); the single zero coefficient when the remainder is the zero polynomial.
pub open spec fn poly_remainder(dividend: Seq<GF256>, divisor: Seq<GF256>) -> Seq<GF256> {
    let full = poly_rem_full(dividend, divisor, poly_quotient(dividend, divisor));
    if is_zero_poly(full) {
        seq![GF256(0u8)]
    } else {
        full
    }
}

/// Coefficients of `a` beyond `n` do not contribute to `conv_partial(a, b, n, k)`.
pub proof fn lemma_conv_partial_prefix(a1: Seq<GF256>, a2: Seq<GF256>, b: Seq<GF256>, n: nat, k: int)
    requires
        n <= a1.len(),
        n <= a2.len(),
        forall|j: int| 0 <= j < n ==> a1[j] == a2[j],
    ensures
        conv_partial(a1, b, n, k) == conv_partial(a2, b, n, k),
    decreases n,
{
    if n > 0 {
        lemma_conv_partial_prefix(a1, a2, b, (n - 1) as nat, k);
    }
}

/// Terms `a[i]` with `i > k` do not contribute to coefficient `k`.
pub proof fn lemma_conv_partial_upto(a: Seq<GF256>, b: Seq<GF256>, n: nat, k: int)
    requires
        0 <= k < n,
    ensures
        conv_partial(a, b, n, k) == conv_partial(a, b, k as nat, k) ^ conv_term(a, b, k, k),
    decreases n,
{
    if n > k + 1 {
        lemma_conv_partial_upto(a, b, (n - 1) as nat, k);
        lemma_xor_facts(conv_partial(a, b, (n - 1) as nat, k), 0u8, 0u8);
    }
}

/// Against an empty second factor every coefficient is zero.
proof fn lemma_conv_empty(a: Seq<GF256>, b: Seq<GF256>, m: nat, k: int)
    requires
        b.len() == 0,
    ensures
        conv_partial(a, b, m, k) == 0u8,
    decreases m,
{
    if m > 0 {
        lemma_conv_empty(a, b, (m - 1) as nat, k);
        lemma_xor_facts(0u8, 0u8, 0u8);
    }
}

/// Appending a coefficient `x` to the second factor adds `a[k - b.len()] * x` to coefficient `k`.
proof fn lemma_conv_push(a: Seq<GF256>, b: Seq<GF256>, x: GF256, m: nat, k: int)
    ensures
        conv_partial(a, b.push(x), m, k) == conv_partial(a, b, m, k) ^ (if 0 <= k - b.len() < m {
            gf_mul(a[k - b.len()].0, x.0)
        } else {
            0u8
        }),
    decreases m,
{
    let b2 = b.push(x);
    if m == 0 {
        lemma_xor_facts(0u8, 0u8, 0u8);
    } else {
        let m1 = (m - 1) as nat;
        lemma_conv_push(a, b, x, m1, k);
        let i = m1 as int;
        let p1 = conv_partial(a, b, m1, k);
        let e1: u8 = if 0 <= k - b.len() < m1 {
            gf_mul(a[k - b.len()].0, x.0)
        } else {
            0u8
        };
        let t = conv_term(a, b, i, k);
        let t2 = conv_term(a, b2, i, k);
        if k - i == b.len() {
            assert(t == 0u8);
            assert(t2 == gf_mul(a[i].0, x.0));
            assert(e1 == 0u8);
            lemma_xor_facts(p1, 0u8, t2);
            lemma_xor_facts(p1, t2, 0u8);
            lemma_xor_facts(t2, 0u8, 0u8);
        } else {
            if 0 <= k - i < b.len() {
                assert(b2[k - i] == b[k - i]);
            }
            assert(t2 == t);
            lemma_xor_facts(p1, e1, t);
            lemma_xor_facts(e1, t, 0u8);
            lemma_xor_facts(p1, t, e1);
        }
    }
}

/// Coefficient `k` of a product does not depend on the order of the factors.
proof fn lemma_conv_commutative(a: Seq<GF256>, b: Seq<GF256>, k: int)
    ensures
        conv_partial(a, b, a.len(), k) == conv_partial(b, a, b.len(), k),
    decreases b.len(),
{
    if b.len() == 0 {
        lemma_conv_empty(a, b, a.len(), k);
    } else {
        let b1 = b.drop_last();
        let x = b.last();
        assert(b1.push(x) =~= b);
        lemma_conv_commutative(a, b1, k);
        lemma_conv_push(a, b1, x, a.len(), k);
        lemma_conv_partial_prefix(b, b1, a, b1.len(), k);
        let j = b1.len() as int;
        if 0 <= k - j < a.len() {
            crate::galois::lemma_mul_commutative(a[k - j].0, x.0);
        }
    }
}

/// Polynomial multiplication is commutative.
pub proof fn lemma_poly_product_commutative(a: Seq<GF256>, b: Seq<GF256>)
    ensures
        poly_product(a, b) == poly_product(b, a),
{
    assert forall|k: int| 0 <= k < poly_product(a, b).len() implies #[trigger] poly_product(a, b)[k] == poly_product(
        b,
        a,
    )[k] by {
        lemma_conv_commutative(a, b, k);
    }
    assert(poly_product(a, b) =~= poly_product(b, a));
}

/// Coefficient-wise sum of two polynomials of the same length.
pub open spec fn poly_xor(s: Seq<GF256>, t: Seq<GF256>) -> Seq<GF256> {
    Seq::new(s.len(), |i: int| GF256(s[i].0 ^ t[i].0))
}

/// Every coefficient multiplied by `c`.
pub open spec fn poly_scale(s: Seq<GF256>, c: u8) -> Seq<GF256> {
    Seq::new(s.len(), |i: int| GF256(gf_mul(s[i].0, c)))
}

/// `n` zero coefficients.
pub open spec fn zero_poly(n: nat) -> Seq<GF256> {
    Seq::new(n, |i: int| GF256(0u8))
}

/// Sums of four field elements may be regrouped.
proof fn lemma_xor_swap(a: u8, b: u8, c: u8, d: u8)
    ensures
        (a ^ b) ^ (c ^ d) == (a ^ c) ^ (b ^ d),
{
    lemma_xor_facts(a, b, c ^ d);
    lemma_xor_facts(b, c, d);
    lemma_xor_facts(c, b, d);
    lemma_xor_facts(b, c, 0u8);
    lemma_xor_facts(a, c, b ^ d);
}

/// A polynomial with only zero coefficients evaluates to zero.
pub proof fn lemma_eval_zero_poly(s: Seq<GF256>, x: u8)
    requires
        forall|i: int| 0 <= i < s.len() ==> #[trigger] s[i].0 == 0u8,
    ensures
        poly_eval(s, x) == 0u8,
    decreases s.len(),
{
    if s.len() > 0 {
        lemma_eval_zero_poly(s.drop_last(), x);
        lemma_mul_identity_zero(x);
        lemma_xor_facts(0u8, 0u8, 0u8);
    }
}

/// Evaluation is additive.
pub proof fn lemma_eval_xor(s: Seq<GF256>, t: Seq<GF256>, x: u8)
    requires
        s.len() == t.len(),
    ensures
        poly_eval(poly_xor(s, t), x) == poly_eval(s, x) ^ poly_eval(t, x),
    decreases s.len(),
{
    if s.len() > 0 {
        let u = poly_xor(s, t);
        assert(u.drop_last() =~= poly_xor(s.drop_last(), t.drop_last()));
        lemma_eval_xor(s.drop_last(), t.drop_last(), x);
        let es = poly_eval(s.drop_last(), x);
        let et = poly_eval(t.drop_last(), x);
        lemma_mul_linear_left(es, et, x);
        lemma_xor_swap(gf_mul(es, x), gf_mul(et, x), s.last().0, t.last().0);
    } else {
        lemma_xor_facts(0u8, 0u8, 0u8);
    }
}

/// Leading zero coefficients do not change the value.
pub proof fn lemma_eval_leading_zeros(n: nat, s: Seq<GF256>, x: u8)
    ensures
        poly_eval(zero_poly(n) + s, x) == poly_eval(s, x),
    decreases s.len(),
{
    if s.len() == 0 {
        assert(zero_poly(n) + s =~= zero_poly(n));
        lemma_eval_zero_poly(zero_poly(n), x);
    } else {
        assert((zero_poly(n) + s).drop_last() =~= zero_poly(n) + s.drop_last());
        lemma_eval_leading_zeros(n, s.drop_last(), x);
    }
}

/// Scaling the coefficients scales the value.
pub proof fn lemma_eval_scale(s: Seq<GF256>, c: u8, x: u8)
    ensures
        poly_eval(poly_scale(s, c), x) == gf_mul(poly_eval(s, x), c),
    decreases s.len(),
{
    if s.len() == 0 {
        lemma_mul_identity_zero(c);
    } else {
        assert(poly_scale(s, c).drop_last() =~= poly_scale(s.drop_last(), c));
        lemma_eval_scale(s.drop_last(), c, x);
        let e = poly_eval(s.drop_last(), x);
        lemma_mul_associative(e, c, x);
        lemma_mul_associative(e, x, c);
        crate::galois::lemma_mul_commutative(c, x);
        lemma_mul_linear_left(gf_mul(e, x), s.last().0, c);
    }
}

/// Coefficient `k` of a product with `b` extended by `c`: the product with `b`, plus `a[k - b.len()] * c`.
proof fn lemma_conv_extend(a: Seq<GF256>, b: Seq<GF256>, c: GF256, n: nat, k: int)
    requires
        n <= a.len(),
    ensures
        conv_partial(a, b.push(c), n, k) == conv_partial(a, b, n, k) ^ (if 0 <= k - b.len() < n {
            gf_mul(a[k - b.len()].0, c.0)
        } else {
            0u8
        }),
    decreases n,
{
    let bc = b.push(c);
    if n == 0 {
        lemma_xor_facts(0u8, 0u8, 0u8);
    } else {
        let i = n - 1;
        lemma_conv_extend(a, b, c, (n - 1) as nat, k);
        let prev_extra: u8 = if 0 <= k - b.len() < n - 1 {
            gf_mul(a[k - b.len()].0, c.0)
        } else {
            0u8
        };
        let extra: u8 = if 0 <= k - b.len() < n {
            gf_mul(a[k - b.len()].0, c.0)
        } else {
            0u8
        };
        let t_new = conv_term(a, bc, i, k);
        let t_old = conv_term(a, b, i, k);
        if k - i == b.len() {
            assert(t_new == gf_mul(a[i].0, c.0));
            assert(t_old == 0u8);
            assert(prev_extra == 0u8);
            assert(extra == t_new);
            lemma_xor_swap(conv_partial(a, b, (n - 1) as nat, k), 0u8, 0u8, t_new);
            lemma_xor_facts(conv_partial(a, b, (n - 1) as nat, k), 0u8, 0u8);
            lemma_xor_facts(0u8, t_new, 0u8);
        } else {
            if 0 <= k - i < b.len() {
                assert(bc[k - i] == b[k - i]);
            }
            assert(t_new == t_old);
            assert(extra == prev_extra);
            lemma_xor_swap(conv_partial(a, b, (n - 1) as nat, k), prev_extra, t_old, 0u8);
            lemma_xor_facts(t_old, 0u8, 0u8);
            lemma_xor_facts(conv_partial(a, b, (n - 1) as nat, k), t_old, prev_extra);
            lemma_xor_facts(conv_partial(a, b, (n - 1) as nat, k), prev_extra, t_old);
            lemma_xor_facts(prev_extra, t_old, 0u8);
        }
    }
}

/// Coefficients past the end of the product vanish.
proof fn lemma_conv_beyond(a: Seq<GF256>, b: Seq<GF256>, n: nat, k: int)
    requires
        b.len() == 0 || k >= n + b.len() - 1,
    ensures
        conv_partial(a, b, n, k) == 0u8,
    decreases n,
{
    if n > 0 {
        lemma_conv_beyond(a, b, (n - 1) as nat, k);
        lemma_xor_facts(0u8, 0u8, 0u8);
    }
}

/// Evaluating a product gives the product of the values.
pub proof fn lemma_eval_product(a: Seq<GF256>, b: Seq<GF256>, x: u8)
    ensures
        poly_eval(poly_product(a, b), x) == gf_mul(poly_eval(a, x), poly_eval(b, x)),
    decreases b.len(),
{
    let p = poly_product(a, b);
    let ea = poly_eval(a, x);
    if a.len() == 0 || b.len() == 0 {
        assert forall|i: int| 0 <= i < p.len() implies #[trigger] p[i].0 == 0u8 by {
            if b.len() == 0 {
                lemma_conv_beyond(a, b, a.len(), i);
            }
        }
        lemma_eval_zero_poly(p, x);
        if a.len() == 0 {
            lemma_mul_identity_zero(poly_eval(b, x));
        } else {
            lemma_mul_identity_zero(ea);
        }
    } else {
        let b1 = b.drop_last();
        let c = b.last();
        assert(b1.push(c) =~= b);
        let p1 = poly_product(a, b1);
        lemma_eval_product(a, b1, x);
        let shifted = p1.push(GF256(0u8));
        let extra = zero_poly(b1.len()) + poly_scale(a, c.0);
        assert(shifted.len() == p.len() && extra.len() == p.len());
        assert(p =~= poly_xor(shifted, extra)) by {
            assert forall|k: int| 0 <= k < p.len() implies p[k] == poly_xor(shifted, extra)[k] by {
                lemma_conv_extend(a, b1, c, a.len(), k);
                if k == p.len() - 1 {
                    lemma_conv_beyond(a, b1, a.len(), k);
                }
                if k >= b1.len() {
                    assert(extra[k] == poly_scale(a, c.0)[k - b1.len()]);
                } else {
                    assert(extra[k] == GF256(0u8));
                    lemma_xor_facts(conv_partial(a, b1, a.len(), k), 0u8, 0u8);
                }
            }
        }
        lemma_eval_xor(shifted, extra, x);
        assert(shifted.drop_last() =~= p1);
        lemma_xor_facts(gf_mul(poly_eval(p1, x), x), 0u8, 0u8);
        lemma_eval_leading_zeros(b1.len(), poly_scale(a, c.0), x);
        lemma_eval_scale(a, c.0, x);
        let eb1 = poly_eval(b1, x);
        lemma_mul_associative(ea, eb1, x);
        lemma_mul_linear_right(ea, gf_mul(eb1, x), c.0);
    }
}

/// When the divisor's leading coefficient is non-zero there is at most one quotient.
pub proof fn lemma_quotient_unique(dividend: Seq<GF256>, divisor: Seq<GF256>, q1: Seq<GF256>, q2: Seq<GF256>)
    requires
        divisor.len() > 0,
        divisor[0].0 != 0u8,
        is_poly_quotient(dividend, divisor, q1),
        is_poly_quotient(dividend, divisor, q2),
    ensures
        q1 == q2,
{
    lemma_quotient_prefix_equal(dividend, divisor, q1, q2, q1.len());
    assert(q1 =~= q2);
}

proof fn lemma_quotient_prefix_equal(
    dividend: Seq<GF256>,
    divisor: Seq<GF256>,
    q1: Seq<GF256>,
    q2: Seq<GF256>,
    n: nat,
)
    requires
        divisor.len() > 0,
        divisor[0].0 != 0u8,
        is_poly_quotient(dividend, divisor, q1),
        is_poly_quotient(dividend, divisor, q2),
        n <= q1.len(),
    ensures
        forall|j: int| 0 <= j < n ==> q1[j] == q2[j],
    decreases n,
{
    if n > 0 {
        let k = n - 1;
        lemma_quotient_prefix_equal(dividend, divisor, q1, q2, (n - 1) as nat);
        lemma_conv_partial_prefix(q1, q2, divisor, k as nat, k);
        lemma_conv_partial_upto(q1, divisor, q1.len(), k);
        lemma_conv_partial_upto(q2, divisor, q2.len(), k);
        assert(conv_partial(q1, divisor, q1.len(), k) == dividend[k].0);
        assert(conv_partial(q2, divisor, q2.len(), k) == dividend[k].0);
        let x = conv_partial(q1, divisor, k as nat, k);
        lemma_xor_cancel(x, gf_mul(q1[k].0, divisor[0].0), gf_mul(q2[k].0, divisor[0].0));
        lemma_div_mul_cancel(q1[k].0, divisor[0].0);
        lemma_div_mul_cancel(q2[k].0, divisor[0].0);
    }
}


/// A copy of a slice of field elements.
pub(crate) fn copy_elements(s: &[GF256]) -> (r: Vec<GF256>)
    ensures
        r@ == s@,
{
    let mut r: Vec<GF256> = Vec::new();
    let mut i: usize = 0;
    while i < s.len()
        invariant
            i <= s@.len(),
            r@ =~= s@.subrange(0, i as int),
        decreases s@.len() - i,
    {
        r.push(s[i]);
        i = i + 1;
    }
    proof {
        assert(r@ =~= s@);
    }
    r
}

impl GF256 {
    /// Evaluate a polynomial (highest degree first) at `x` by Horner's rule.
    pub fn eval_poly(coeffs: &[GF256], x: GF256) -> (r: GF256)
        ensures
            r.0 == poly_eval(coeffs@, x.0),
    {
        let mut result = GF256(0u8);
        let mut i: usize = 0;
        while i < coeffs.len()
            invariant
                i <= coeffs@.len(),
                result.0 == poly_eval(coeffs@.subrange(0, i as int), x.0),
            decreases coeffs@.len() - i,
        {
            proof {
                assert(coeffs@.subrange(0, i + 1).drop_last() =~= coeffs@.subrange(0, i as int));
            }
            result = result.mul(x).add(coeffs[i]);
            i = i + 1;
        }
        proof {
            assert(coeffs@.subrange(0, i as int) =~= coeffs@);
        }
        result
    }

    /// Polynomial multiplication.
    pub fn poly_mul(a: &[GF256], b: &[GF256]) -> (r: Vec<GF256>)
        requires
            1 <= a@.len() + b@.len() <= usize::MAX,
        ensures
            r@ == poly_product(a@, b@),
    {
        let n: usize = a.len() + b.len() - 1;
        let mut result = zeros(n);
        let mut i: usize = 0;
        while i < a.len()
            invariant
                i <= a@.len(),
                n == a@.len() + b@.len() - 1,
                result@.len() == n,
                forall|k: int| 0 <= k < n ==> #[trigger] result@[k].0 == conv_partial(a@, b@, i as nat, k),
            decreases a@.len() - i,
        {
            let mut j: usize = 0;
            proof {
                assert forall|k: int| 0 <= k < n implies #[trigger] result@[k].0 == conv_partial(
                    a@,
                    b@,
                    i as nat,
                    k,
                ) ^ 0u8 by {
                    lemma_xor_facts(result@[k].0, 0u8, 0u8);
                }
            }
            while j < b.len()
                invariant
                    i < a@.len(),
                    j <= b@.len(),
                    n == a@.len() + b@.len() - 1,
                    result@.len() == n,
                    forall|k: int|
                        0 <= k < n ==> #[trigger] result@[k].0 == conv_partial(a@, b@, i as nat, k) ^ (if i
                            <= k < i + j {
                            gf_mul(a@[i as int].0, b@[k - i].0)
                        } else {
                            0u8
                        }),
                decreases b@.len() - j,
            {
                let ghost prev = result@;
                let t = a[i].mul(b[j]);
                let v = result[i + j].add(t);
                result.set(i + j, v);
                proof {
                    assert forall|k: int| 0 <= k < n implies #[trigger] result@[k].0 == conv_partial(
                        a@,
                        b@,
                        i as nat,
                        k,
                    ) ^ (if i <= k < i + j + 1 {
                        gf_mul(a@[i as int].0, b@[k - i].0)
                    } else {
                        0u8
                    }) by {
                        let c = conv_partial(a@, b@, i as nat, k);
                        lemma_xor_facts(c, t.0, 0u8);
                        if k == i + j {
                            assert(prev[k].0 == c ^ 0u8);
                        }
                    }
                }
                j = j + 1;
            }
            proof {
                assert forall|k: int| 0 <= k < n implies #[trigger] result@[k].0 == conv_partial(
                    a@,
                    b@,
                    (i + 1) as nat,
                    k,
                ) by {
                    let c = conv_partial(a@, b@, i as nat, k);
                    lemma_xor_facts(c, 0u8, 0u8);
                }
            }
            i = i + 1;
        }
        proof {
            assert forall|k: int| 0 <= k < n implies #[trigger] result@[k] == poly_product(a@, b@)[k] by {
                assert(result@[k].0 == conv_partial(a@, b@, a@.len(), k));
            }
            assert(result@ =~= poly_product(a@, b@));
        }
        result
    }

    /// Polynomial long division (coefficients highest degree first). Returns the quotient and
    /// the remainder aligned with the dividend (its leading coefficients zero), or a single zero
    /// when the division is exact.
    pub fn poly_div(dividend: &[GF256], divisor: &[GF256]) -> (r: (Vec<GF256>, Vec<GF256>))
        requires
            divisor@.len() > 0,
            divisor@[0].0 != 0u8,
        ensures
            is_poly_quotient(dividend@, divisor@, r.0@),
            r.0@ == poly_quotient(dividend@, divisor@),
            r.1@ == poly_remainder(dividend@, divisor@),
    {
        let m = dividend.len();
        let d_len = divisor.len();
        let mut rem: Vec<GF256> = Vec::new();
        let mut c: usize = 0;
        while c < m
            invariant
                c <= m == dividend@.len(),
                rem@ =~= dividend@.subrange(0, c as int),
            decreases m - c,
        {
            rem.push(dividend[c]);
            c = c + 1;
        }
        let q_len: usize = if m >= d_len {
            m - d_len + 1
        } else {
            0
        };
        let mut quotient = zeros(q_len);
        let inv_lead = divisor[0].inv();
        proof {
            assert forall|k: int| 0 <= k < m implies #[trigger] rem@[k].0 == dividend@[k].0 ^ conv_partial(
                quotient@,
                divisor@,
                0,
                k,
            ) by {
                lemma_xor_facts(dividend@[k].0, 0u8, 0u8);
            }
        }
        let mut i: usize = 0;
        while i < q_len
            invariant
                i <= q_len,
                m == dividend@.len(),
                d_len == divisor@.len() > 0,
                divisor@[0].0 != 0u8,
                q_len == quotient_len(m as nat, d_len as nat),
                inv_lead.0 == gf_inv(divisor@[0].0),
                quotient@.len() == q_len,
                rem@.len() == m,
                forall|k: int| i <= k < q_len ==> #[trigger] quotient@[k] == GF256(0u8),
                forall|k: int| 0 <= k < m ==> #[trigger] rem@[k].0 == dividend@[k].0 ^ conv_partial(
                    quotient@,
                    divisor@,
                    i as nat,
                    k,
                ),
                forall|k: int| 0 <= k < i ==> #[trigger] rem@[k].0 == 0u8,
            decreases q_len - i,
        {
            if rem[i] == GF256(0u8) {
                proof {
                    assert forall|k: int| 0 <= k < m implies #[trigger] rem@[k].0 == dividend@[k].0
                        ^ conv_partial(quotient@, divisor@, (i + 1) as nat, k) by {
                        lemma_mul_identity_zero(divisor@[k - i].0);
                        lemma_xor_facts(conv_partial(quotient@, divisor@, i as nat, k), 0u8, 0u8);
                    }
                }
                i = i + 1;
                continue;
            }
            let ghost q_before = quotient@;
            let ghost r_before = rem@;
            let coeff = rem[i].mul(inv_lead);
            quotient.set(i, coeff);
            proof {
                assert forall|k: int| 0 <= k < m implies #[trigger] rem@[k].0 == dividend@[k].0
                    ^ conv_partial(quotient@, divisor@, i as nat, k) ^ 0u8 by {
                    lemma_conv_partial_prefix(q_before, quotient@, divisor@, i as nat, k);
                    lemma_xor_facts(rem@[k].0, 0u8, 0u8);
                }
            }
            let mut j: usize = 0;
            while j < d_len
                invariant
                    i < q_len,
                    j <= d_len,
                    m == dividend@.len(),
                    d_len == divisor@.len(),
                    q_len == quotient_len(m as nat, d_len as nat),
                    quotient@.len() == q_len,
                    quotient@[i as int] == coeff,
                    rem@.len() == m,
                    forall|k: int| 0 <= k < i ==> #[trigger] rem@[k] == r_before[k],
                    forall|k: int| i + j <= k < m ==> #[trigger] rem@[k] == r_before[k],
                    forall|k: int| 0 <= k < m ==> #[trigger] rem@[k].0 == dividend@[k].0 ^ conv_partial(
                        quotient@,
                        divisor@,
                        i as nat,
                        k,
                    ) ^ (if i <= k < i + j {
                        gf_mul(coeff.0, divisor@[k - i].0)
                    } else {
                        0u8
                    }),
                decreases d_len - j,
            {
                let ghost prev = rem@;
                let t = coeff.mul(divisor[j]);
                let v = rem[i + j].sub(t);
                rem.set(i + j, v);
                proof {
                    assert forall|k: int| 0 <= k < m implies #[trigger] rem@[k].0 == dividend@[k].0
                        ^ conv_partial(quotient@, divisor@, i as nat, k) ^ (if i <= k < i + j + 1 {
                        gf_mul(coeff.0, divisor@[k - i].0)
                    } else {
                        0u8
                    }) by {
                        let x = dividend@[k].0 ^ conv_partial(quotient@, divisor@, i as nat, k);
                        lemma_xor_facts(x, t.0, 0u8);
                        if k == i + j {
                            assert(prev[k].0 == x ^ 0u8);
                        }
                    }
                }
                j = j + 1;
            }
            proof {
                assert forall|k: int| 0 <= k < m implies #[trigger] rem@[k].0 == dividend@[k].0
                    ^ conv_partial(quotient@, divisor@, (i + 1) as nat, k) by {
                    let x = dividend@[k].0;
                    let p = conv_partial(quotient@, divisor@, i as nat, k);
                    lemma_xor_facts(x, p, conv_term(quotient@, divisor@, i as int, k));
                    lemma_xor_facts(x ^ p, 0u8, 0u8);
                }
                // the leading coefficient has been cancelled
                let r = r_before[i as int].0;
                lemma_div_mul_cancel(r, divisor@[0].0);
                lemma_conv_partial_prefix(q_before, quotient@, divisor@, i as nat, i as int);
                assert(rem@[i as int].0 == r ^ gf_mul(coeff.0, divisor@[0].0));
                lemma_xor_facts(r, 0u8, 0u8);
            }
            i = i + 1;
        }
        let ghost q = quotient@;
        proof {
            assert forall|k: int| 0 <= k < q.len() implies #[trigger] conv_partial(q, divisor@, q.len(), k)
                == dividend@[k].0 by {
                assert(rem@[k].0 == 0u8);
                lemma_xor_cancel(dividend@[k].0, conv_partial(q, divisor@, q.len(), k), 0u8);
            }
            assert(is_poly_quotient(dividend@, divisor@, q));
            lemma_quotient_unique(dividend@, divisor@, q, poly_quotient(dividend@, divisor@));
            assert forall|k: int| 0 <= k < m implies #[trigger] rem@[k] == poly_rem_full(
                dividend@,
                divisor@,
                q,
            )[k] by {
                assert(rem@[k].0 == dividend@[k].0 ^ conv_partial(q, divisor@, q.len(), k));
            }
            assert(rem@ =~= poly_rem_full(dividend@, divisor@, q));
        }
        // The remainder is the zero polynomial when every coefficient left is zero.
        let mut c: usize = 0;
        let mut zero = true;
        while c < m
            invariant
                c <= m == rem@.len(),
                zero == (forall|i: int| 0 <= i < c ==> #[trigger] rem@[i].0 == 0u8),
            decreases m - c,
        {
            if rem[c].0 != 0u8 {
                zero = false;
            }
            c = c + 1;
        }
        let mut trimmed = rem;
        if zero {
            trimmed = Vec::new();
            trimmed.push(GF256(0u8));
        }
        proof {
            assert(trimmed@ =~= poly_remainder(dividend@, divisor@));
        }
        (quotient, trimmed)
    }

    /// Sum of a slice of field elements.
    pub fn sum(vals: &[GF256]) -> (r: GF256)
        ensures
            r.0 == gf_sum(vals@),
    {
        let mut acc = GF256(0u8);
        let mut i: usize = 0;
        while i < vals.len()
            invariant
                i <= vals@.len(),
                acc.0 == gf_sum(vals@.subrange(0, i as int)),
            decreases vals@.len() - i,
        {
            proof {
                assert(vals@.subrange(0, i + 1).drop_last() =~= vals@.subrange(0, i as int));
            }
            acc = acc.add(vals[i]);
            i = i + 1;
        }
        proof {
            assert(vals@.subrange(0, i as int) =~= vals@);
        }
        acc
    }
}
} // verus!
