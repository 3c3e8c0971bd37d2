//! Reed-Solomon codes over GF(256), kept for comparison with the ecological codes.

use vstd::prelude::*;
use crate::galois::{
    gf_div, gf_inv, gf_mul, gf_pow, lemma_inverse, lemma_mul_identity_zero, lemma_pow_nonzero, lemma_xor_facts,
};
use crate::symbols::{
    all_zero, bytes_to_field, decoded_view, field_to_bytes, is_all_zero, prefix_bytes, prefix_copy, to_field,
};
use crate::gf256::{
    conv_partial, conv_term, copy_elements, lemma_conv_partial_upto, poly_eval, poly_product, poly_quotient,
    is_zero_poly, poly_rem_full, poly_remainder, quotient_len, zero_poly, GF256,
};

verus! {

/// `alpha^i` for the primitive element `alpha = 2`, with the exponent taken as a `u32`.
pub open spec fn alpha_pow(i: int) -> u8 {
    gf_pow(2u8, (i as u32) as nat)
}

/// The generator polynomial `(x + alpha^0)(x + alpha^1)...(x + alpha^(k-1))`, highest degree first.
pub open spec fn rs_generator(k: nat) -> Seq<GF256>
    decreases k,
{
    if k == 0 {
        seq![GF256(1u8)]
    } else {
        poly_product(rs_generator((k - 1) as nat), seq![GF256(1u8), GF256(alpha_pow(k - 1))])
    }
}

/// The remainder of `data * x^p` divided by the generator, all `p` coefficients kept (highest
/// degree first).
pub open spec fn rs_remainder(data: Seq<u8>, p: nat) -> Seq<GF256> {
    let padded = bytes_to_field(data) + zero_poly(p);
    let full = poly_rem_full(padded, rs_generator(p), poly_quotient(padded, rs_generator(p)));
    full.subrange(full.len() - p, full.len() as int)
}

/// The parity block appended to `data`: the remainder of `data * x^p` by the generator.
pub open spec fn rs_parity(data: Seq<u8>, p: nat) -> Seq<u8> {
    field_to_bytes(rs_remainder(data, p))
}

/// The `p` syndromes of a received word: its values at `alpha^0 .. alpha^(p-1)`.
#[verifier::opaque]
pub open spec fn rs_syndromes(rx: Seq<GF256>, p: nat) -> Seq<GF256> {
    Seq::new(p, |i: int| GF256(poly_eval(rx, alpha_pow(i))))
}

/// The generator has `k + 1` coefficients and leading coefficient one.
pub proof fn lemma_generator_shape(k: nat)
    ensures
        rs_generator(k).len() == k + 1,
        rs_generator(k)[0] == GF256(1u8),
    decreases k,
{
    if k > 0 {
        let g = rs_generator((k - 1) as nat);
        let f = seq![GF256(1u8), GF256(alpha_pow(k - 1))];
        lemma_generator_shape((k - 1) as nat);
        lemma_conv_partial_upto(g, f, g.len(), 0);
        lemma_mul_identity_zero(1u8);
        lemma_xor_facts(1u8, 0u8, 0u8);
        assert(conv_term(g, f, 0, 0) == 1u8);
        assert(conv_partial(g, f, g.len(), 0) == 1u8);
        assert(rs_generator(k)[0] == GF256(conv_partial(g, f, g.len(), 0)));
    }
}

/// The Berlekamp-Massey discrepancy at step `n`: `sum_{i < count} c[i] * synd[n - i]`.
pub open spec fn bm_discrepancy(c: Seq<GF256>, synd: Seq<GF256>, n: int, count: nat) -> u8
    decreases count,
{
    if count == 0 {
        0u8
    } else {
        bm_discrepancy(c, synd, n, (count - 1) as nat) ^ gf_mul(c[count - 1].0, synd[n - (count - 1)].0)
    }
}

/// `c - coeff * x^m * b` on coefficient lists indexed from the constant term, `c` padded with zeros
/// as needed.
pub open spec fn bm_adjust(c: Seq<GF256>, b: Seq<GF256>, m: nat, coeff: u8) -> Seq<GF256> {
    let len = if c.len() >= b.len() + m {
        c.len()
    } else {
        b.len() + m
    };
    Seq::new(
        len,
        |k: int|
            GF256(
                (if k < c.len() {
                    c[k].0
                } else {
                    0u8
                }) ^ (if m <= k < m + b.len() {
                    gf_mul(coeff, b[k - m].0)
                } else {
                    0u8
                }),
            ),
    )
}

/// Berlekamp-Massey state: connection polynomial, previous polynomial, register length,
/// steps since the last length change, previous discrepancy.
pub type BmState = (Seq<GF256>, Seq<GF256>, nat, nat, u8);

/// The state before any syndrome has been processed.
pub open spec fn bm_start() -> BmState {
    (seq![GF256(1u8)], seq![GF256(1u8)], 0, 1, 1u8)
}

/// One Berlekamp-Massey step on syndrome index `n`.
pub open spec fn bm_step(st: BmState, synd: Seq<GF256>, n: nat) -> BmState {
    let (c, b, l, m, beta) = st;
    let d = bm_discrepancy(c, synd, n as int, l + 1);
    if d == 0u8 {
        (c, b, l, m + 1, beta)
    } else if 2 * l <= n {
        (bm_adjust(c, b, m, gf_mul(d, gf_inv(beta))), c, (n + 1 - l) as nat, 1, d)
    } else {
        (bm_adjust(c, b, m, gf_mul(d, gf_inv(beta))), b, l, m + 1, beta)
    }
}

/// The state after the first `iters` syndromes.
#[verifier::opaque]
pub open spec fn bm_run(synd: Seq<GF256>, iters: nat) -> BmState
    decreases iters,
{
    if iters == 0 {
        bm_start()
    } else {
        bm_step(bm_run(synd, (iters - 1) as nat), synd, (iters - 1) as nat)
    }
}

/// The error-locator polynomial (constant term first) found by Berlekamp-Massey.
pub open spec fn error_locator(synd: Seq<GF256>) -> Seq<GF256> {
    bm_run(synd, synd.len()).0
}

/// Size bounds that hold of every Berlekamp-Massey state after `n` steps.
pub open spec fn bm_bounds(st: BmState, n: nat) -> bool {
    let (c, b, l, m, beta) = st;
    &&& l <= n
    &&& m >= 1
    &&& b.len() >= 1
    &&& c.len() >= l + 1
    &&& c.len() <= n + 2
    &&& b.len() + m + l >= n + 2
    &&& b.len() + m <= n + 2
    &&& beta != 0u8
}

proof fn lemma_bm_bounds(synd: Seq<GF256>, n: nat)
    ensures
        bm_bounds(bm_run(synd, n), n),
    decreases n,
{
    reveal(bm_run);
    if n > 0 {
        lemma_bm_bounds(synd, (n - 1) as nat);
    }
}

/// `alpha^e` (one when `e == 0`), the exponent taken as a `u32`.
pub open spec fn alpha_at(e: int) -> u8 {
    if e == 0 {
        1u8
    } else {
        gf_pow(2u8, (e as u32) as nat)
    }
}

/// The locator root of index `j` in a word of `n` symbols stored highest degree first: the
/// symbol at `j` is the coefficient of `x^(n-1-j)`, so an error there has locator `alpha^(n-1-j)`.
pub open spec fn position_root(n: nat, j: int) -> u8 {
    alpha_at(n - 1 - j)
}

/// The indices `j < k` of a word of `n` symbols whose locator `X` is a root of the reversed
/// locator, that is `sigma(X^-1) == 0`, in increasing order.
#[verifier::opaque]
pub open spec fn chien_positions(loc: Seq<GF256>, n: nat, k: nat) -> Seq<usize>
    decreases k,
{
    if k == 0 {
        seq![]
    } else if poly_eval(loc, position_root(n, k - 1)) == 0u8 {
        chien_positions(loc, n, (k - 1) as nat).push((k - 1) as usize)
    } else {
        chien_positions(loc, n, (k - 1) as nat)
    }
}

/// The first `len` entries of `s` (all of `s` when it is shorter).
pub open spec fn truncated(s: Seq<GF256>, len: nat) -> Seq<GF256> {
    if s.len() > len {
        s.subrange(0, len as int)
    } else {
        s
    }
}

/// The error evaluator: syndromes times locator, cut to `two_t` coefficients.
pub open spec fn error_evaluator(synd: Seq<GF256>, loc: Seq<GF256>, two_t: nat) -> Seq<GF256> {
    truncated(poly_product(synd, loc), two_t)
}

/// The formal derivative of the locator (coefficients lowest degree first): over GF(2^8) only the
/// odd-degree terms survive, `sigma'(x) = sigma_1 + sigma_3 x^2 + ...`.
pub open spec fn locator_derivative(loc: Seq<GF256>) -> Seq<GF256> {
    Seq::new(
        if loc.len() > 0 {
            (loc.len() - 1) as nat
        } else {
            0nat
        },
        |m: int|
            if m % 2 == 0 {
                loc[m + 1]
            } else {
                GF256(0u8)
            },
    )
}

/// The value at `y` of a polynomial given lowest degree first.
pub open spec fn eval_low_first(s: Seq<GF256>, y: u8) -> u8 {
    poly_eval(s.reverse(), y)
}

/// The error magnitude for locator `x`: `x * omega(x^-1) / sigma'(x^-1)`, both polynomials
/// lowest degree first, zero when the denominator vanishes.
pub open spec fn forney_magnitude(omega: Seq<GF256>, sp: Seq<GF256>, x: u8) -> u8 {
    let xi = gf_inv(x);
    let o = eval_low_first(omega, xi);
    let s = eval_low_first(sp, xi);
    if s == 0u8 {
        0u8
    } else {
        gf_div(gf_mul(x, o), s)
    }
}

/// The error magnitudes at the given positions.
#[verifier::opaque]
pub open spec fn forney_corrections(
    synd: Seq<GF256>,
    loc: Seq<GF256>,
    positions: Seq<usize>,
    two_t: nat,
    n: nat,
) -> Seq<GF256> {
    let omega = error_evaluator(synd, loc, two_t);
    let sp = locator_derivative(loc);
    Seq::new(positions.len(), |j: int| GF256(forney_magnitude(omega, sp, position_root(n, positions[j] as int))))
}

/// The received word with the first `j` corrections subtracted at their positions.
#[verifier::opaque]
pub open spec fn apply_corrections(rx: Seq<GF256>, positions: Seq<usize>, corr: Seq<GF256>, j: nat) -> Seq<
    GF256,
>
    decreases j,
{
    if j == 0 {
        rx
    } else {
        let prev = apply_corrections(rx, positions, corr, (j - 1) as nat);
        let pos = positions[j - 1] as int;
        prev.update(pos, GF256(prev[pos].0 ^ corr[j - 1].0))
    }
}

/// What decoding a received word gives for `k` data and `p` parity symbols.
pub open spec fn rs_decoded(k: nat, p: nat, received: Seq<u8>) -> Result<Seq<u8>, Seq<char>> {
    let n = k + p;
    if received.len() != n {
        Err("received length mismatch"@)
    } else {
        let rx = bytes_to_field(received);
        let synd = rs_syndromes(rx, p);
        if all_zero(synd) {
            Ok(received.subrange(0, k as int))
        } else {
            rs_corrected(k, p, rx, synd)
        }
    }
}

/// Locate and correct errors in `rx`, whose syndromes `synd` are not all zero.
pub open spec fn rs_corrected(k: nat, p: nat, rx: Seq<GF256>, synd: Seq<GF256>) -> Result<Seq<u8>, Seq<char>> {
    let loc = error_locator(synd);
    let positions = chien_positions(loc, rx.len(), rx.len());
    if positions.len() != loc.len() - 1 {
        Err("could not find all error positions"@)
    } else {
        let corr = forney_corrections(synd, loc, positions, p, rx.len());
        let fixed = apply_corrections(rx, positions, corr, positions.len());
        if all_zero(rs_syndromes(fixed, p)) {
            Ok(field_to_bytes(fixed.subrange(0, k as int)))
        } else {
            Err("correction failed \u{2014} too many errors"@)
        }
    }
}

/// Chien positions lie below `k` and number at most `k`.
proof fn lemma_chien_positions_shape(loc: Seq<GF256>, n: nat, k: nat)
    ensures
        chien_positions(loc, n, k).len() <= k,
        forall|j: int| 0 <= j < chien_positions(loc, n, k).len() ==> #[trigger] chien_positions(loc, n, k)[j] < k,
    decreases k,
{
    reveal(chien_positions);
    if k > 0 {
        lemma_chien_positions_shape(loc, n, (k - 1) as nat);
    }
}

/// A Reed-Solomon encoder/decoder over GF(256).
#[derive(Clone, Debug)]
pub struct ReedSolomon {
    /// Number of data symbols.
    pub data_symbols: usize,
    /// Number of parity symbols (2t: up to t symbol errors can be corrected).
    pub parity_symbols: usize,
}

impl ReedSolomon {
    pub fn new(data_symbols: usize, parity_symbols: usize) -> (r: Self)
        ensures
            r.data_symbols == data_symbols,
            r.parity_symbols == parity_symbols,
    {
        ReedSolomon { data_symbols, parity_symbols }
    }

    /// Maximum number of correctable symbol errors.
    pub fn t(&self) -> (r: usize)
        ensures
            r == self.parity_symbols / 2,
    {
        self.parity_symbols / 2
    }

    /// Total codeword length.
    pub fn n(&self) -> (r: usize)
        requires
            self.data_symbols + self.parity_symbols <= usize::MAX,
        ensures
            r == self.data_symbols + self.parity_symbols,
    {
        self.data_symbols + self.parity_symbols
    }

    /// The generator polynomial `prod (x + alpha^i)` for `i < parity_symbols`.
    fn generator_poly(&self) -> (g: Vec<GF256>)
        requires
            self.parity_symbols + 3 <= usize::MAX,
        ensures
            g@ == rs_generator(self.parity_symbols as nat),
    {
        let mut g: Vec<GF256> = Vec::new();
        g.push(GF256(1u8));
        let mut i: usize = 0;
        proof {
            assert(g@ =~= rs_generator(0));
        }
        while i < self.parity_symbols
            invariant
                i <= self.parity_symbols,
                self.parity_symbols + 3 <= usize::MAX,
                g@ == rs_generator(i as nat),
            decreases self.parity_symbols - i,
        {
            proof {
                lemma_generator_shape(i as nat);
            }
            let root = GF256(2u8).pow(i as u32);
            let mut factor: Vec<GF256> = Vec::new();
            factor.push(GF256(1u8));
            factor.push(root);
            proof {
                assert(factor@ =~= seq![GF256(1u8), GF256(alpha_pow(i as int))]);
            }
            g = GF256::poly_mul(g.as_slice(), factor.as_slice());
            i = i + 1;
        }
        g
    }

    /// Systematic encoding: the data followed by `parity_symbols` parity bytes.
    pub fn encode(&self, data: &[u8]) -> (codeword: Vec<u8>)
        requires
            data@.len() == self.data_symbols,
            self.data_symbols + self.parity_symbols + 3 <= usize::MAX,
        ensures
            codeword@ == data@ + rs_parity(data@, self.parity_symbols as nat),
    {
        let p = self.parity_symbols;
        let g = self.generator_poly();
        proof {
            lemma_generator_shape(p as nat);
        }
        let mut padded: Vec<GF256> = Vec::new();
        let mut i: usize = 0;
        while i < data.len()
            invariant
                i <= data@.len(),
                padded@ =~= bytes_to_field(data@).subrange(0, i as int),
            decreases data@.len() - i,
        {
            padded.push(GF256(data[i]));
            i = i + 1;
        }
        let mut z: usize = 0;
        while z < p
            invariant
                z <= p,
                padded@ =~= bytes_to_field(data@) + Seq::new(z as nat, |i: int| GF256(0u8)),
            decreases p - z,
        {
            padded.push(GF256(0u8));
            z = z + 1;
        }
        let (_, remainder) = GF256::poly_div(padded.as_slice(), g.as_slice());
        let ghost rem = remainder@;
        let ghost tail = if rem.len() >= p {
            rem.subrange(rem.len() - p, rem.len() as int)
        } else {
            rem
        };
        let mut codeword: Vec<u8> = Vec::new();
        let mut c: usize = 0;
        while c < data.len()
            invariant
                c <= data@.len(),
                codeword@ =~= data@.subrange(0, c as int),
            decreases data@.len() - c,
        {
            codeword.push(data[c]);
            c = c + 1;
        }
        let rem_start = remainder.len().saturating_sub(p);
        let mut r: usize = rem_start;
        while r < remainder.len()
            invariant
                rem_start <= r <= remainder@.len(),
                rem == remainder@,
                rem_start == if rem.len() >= p { rem.len() - p } else { 0 },
                codeword@ =~= data@ + field_to_bytes(rem.subrange(rem_start as int, r as int)),
            decreases remainder@.len() - r,
        {
            codeword.push(remainder[r].0);
            r = r + 1;
        }
        proof {
            assert(rem.subrange(rem_start as int, rem.len() as int) =~= tail);
        }
        let n = data.len() + p;
        while codeword.len() < n
            invariant
                n == data@.len() + p,
                data@.len() + tail.len() <= codeword@.len() <= n || codeword@.len() == data@.len() + tail.len(),
                codeword@ =~= data@ + field_to_bytes(tail) + Seq::new(
                    (codeword@.len() - data@.len() - tail.len()) as nat,
                    |i: int| 0u8,
                ),
            decreases n - codeword@.len(),
        {
            codeword.push(0u8);
        }
        proof {
            assert(tail.len() <= p);
            let padded_s = bytes_to_field(data@) + zero_poly(p as nat);
            assert(padded@ =~= padded_s);
            let full = poly_rem_full(padded_s, g@, poly_quotient(padded_s, g@));
            let rr = rs_remainder(data@, p as nat);
            assert(full.len() == data@.len() + p);
            if is_zero_poly(full) {
                assert(rem == seq![GF256(0u8)]);
                assert forall|i: int| 0 <= i < p implies #[trigger] rr[i] == GF256(0u8) by {
                    assert(rr[i] == full[full.len() - p + i]);
                    assert(full[full.len() - p + i].0 == 0u8);
                }
                assert(codeword@ =~= data@ + rs_parity(data@, p as nat));
            } else {
                assert(rem == full);
                assert(tail =~= rr);
                assert(codeword@ =~= data@ + rs_parity(data@, p as nat));
            }
        }
        codeword
    }

    /// The syndromes of a received word.
    fn syndromes(&self, received: &[GF256]) -> (synd: Vec<GF256>)
        ensures
            synd@ == rs_syndromes(received@, self.parity_symbols as nat),
            synd@.len() == self.parity_symbols,
    {
        proof {
            reveal(rs_syndromes);
        }
        let mut synd: Vec<GF256> = Vec::new();
        let mut i: usize = 0;
        while i < self.parity_symbols
            invariant
                i <= self.parity_symbols,
                synd@ =~= rs_syndromes(received@, self.parity_symbols as nat).subrange(0, i as int),
            decreases self.parity_symbols - i,
        {
            proof {
                reveal(rs_syndromes);
            }
            let alpha_i = GF256(2u8).pow(i as u32);
            let val = GF256::eval_poly(received, alpha_i);
            synd.push(val);
            i = i + 1;
        }
        proof {
            assert(synd@ =~= rs_syndromes(received@, self.parity_symbols as nat));
        }
        synd
    }

    /// The Berlekamp-Massey algorithm: the error-locator polynomial of the given syndromes.
    pub(crate) fn berlekamp_massey(&self, syndromes: &[GF256]) -> (loc: Vec<GF256>)
        requires
            syndromes@.len() == self.parity_symbols,
            self.parity_symbols + 3 <= usize::MAX,
        ensures
            loc@ == error_locator(syndromes@),
            1 <= loc@.len() <= self.parity_symbols + 2,
    {
        reveal(bm_run);
        let n = self.parity_symbols;
        let ghost synd = syndromes@;
        let mut c: Vec<GF256> = Vec::new();
        c.push(GF256(1u8));
        let mut b: Vec<GF256> = Vec::new();
        b.push(GF256(1u8));
        let mut l: usize = 0;
        let mut m: usize = 1;
        let mut beta = GF256(1u8);
        proof {
            assert(c@ =~= seq![GF256(1u8)]);
            assert(b@ =~= seq![GF256(1u8)]);
        }
        let mut n_iter: usize = 0;
        while n_iter < n
            invariant
                n_iter <= n == synd.len(),
                n + 3 <= usize::MAX,
                synd == syndromes@,
                (c@, b@, l as nat, m as nat, beta.0) == bm_run(synd, n_iter as nat),
            decreases n - n_iter,
        {
            proof {
                lemma_bm_bounds(synd, n_iter as nat);
            }
            let mut d = GF256(0u8);
            let mut i: usize = 0;
            while i <= l
                invariant
                    i <= l + 1,
                    l <= n_iter < synd.len(),
                    c@.len() >= l + 1,
                    synd == syndromes@,
                    d.0 == bm_discrepancy(c@, synd, n_iter as int, i as nat),
                decreases l + 1 - i,
            {
                d = d.add(c[i].mul(syndromes[n_iter - i]));
                i = i + 1;
            }
            if d == GF256(0u8) {
                m = m + 1;
            } else if l <= n_iter - l {
                let t = copy_elements(c.as_slice());
                let coeff = d.mul(beta.inv());
                Self::adjust_locator(&mut c, &b, m, coeff);
                l = n_iter + 1 - l;
                b = t;
                beta = d;
                m = 1;
            } else {
                let coeff = d.mul(beta.inv());
                Self::adjust_locator(&mut c, &b, m, coeff);
                m = m + 1;
            }
            n_iter = n_iter + 1;
            proof {
                reveal(bm_run);
            }
        }
        proof {
            lemma_bm_bounds(synd, n as nat);
        }
        c
    }

    /// `c := c - coeff * x^m * b`.
    fn adjust_locator(c: &mut Vec<GF256>, b: &Vec<GF256>, m: usize, coeff: GF256)
        requires
            b@.len() + m <= usize::MAX,
        ensures
            final(c)@ == bm_adjust(old(c)@, b@, m as nat, coeff.0),
    {
        let ghost c0 = old(c)@;
        while c.len() < b.len() + m
            invariant
                c0.len() <= c@.len() <= b@.len() + m || c@.len() == c0.len(),
                b@.len() + m <= usize::MAX,
                forall|k: int| 0 <= k < c@.len() ==> #[trigger] c@[k] == (if k < c0.len() {
                    c0[k]
                } else {
                    GF256(0u8)
                }),
            decreases b@.len() + m - c@.len(),
        {
            c.push(GF256(0u8));
        }
        let ghost padded = c@;
        let mut i: usize = 0;
        proof {
            assert forall|k: int| 0 <= k < c@.len() implies #[trigger] c@[k].0 == padded[k].0 ^ 0u8 by {
                lemma_xor_facts(padded[k].0, 0u8, 0u8);
            }
        }
        while i < b.len()
            invariant
                i <= b@.len(),
                b@.len() + m <= usize::MAX,
                b@.len() + m <= c@.len() == padded.len(),
                forall|k: int|
                    0 <= k < c@.len() ==> #[trigger] c@[k].0 == padded[k].0 ^ (if m <= k < m + i {
                        gf_mul(coeff.0, b@[k - m].0)
                    } else {
                        0u8
                    }),
            decreases b@.len() - i,
        {
            let ghost prev = c@;
            let t = coeff.mul(b[i]);
            let v = c[i + m].sub(t);
            c.set(i + m, v);
            proof {
                assert forall|k: int| 0 <= k < c@.len() implies #[trigger] c@[k].0 == padded[k].0 ^ (if m
                    <= k < m + i + 1 {
                    gf_mul(coeff.0, b@[k - m].0)
                } else {
                    0u8
                }) by {
                    lemma_xor_facts(padded[k].0, t.0, 0u8);
                    if k == m + i {
                        assert(prev[k].0 == padded[k].0 ^ 0u8);
                    }
                }
            }
            i = i + 1;
        }
        proof {
            let target = bm_adjust(c0, b@, m as nat, coeff.0);
            assert forall|k: int| 0 <= k < c@.len() implies #[trigger] c@[k] == target[k] by {
                assert(c@[k].0 == padded[k].0 ^ (if m <= k < m + b@.len() {
                    gf_mul(coeff.0, b@[k - m].0)
                } else {
                    0u8
                }));
            }
            assert(c@ =~= target);
        }
    }

    /// The formal derivative of a locator given lowest degree first.
    pub(crate) fn derivative(loc: &[GF256]) -> (d: Vec<GF256>)
        ensures
            d@ == locator_derivative(loc@),
    {
        let mut d: Vec<GF256> = Vec::new();
        if loc.len() > 0 {
            let len = loc.len() - 1;
            let mut m: usize = 0;
            while m < len
                invariant
                    m <= len == loc@.len() - 1,
                    d@ =~= locator_derivative(loc@).subrange(0, m as int),
                decreases len - m,
            {
                if m % 2 == 0 {
                    d.push(loc[m + 1]);
                } else {
                    d.push(GF256(0u8));
                }
                m = m + 1;
            }
        }
        proof {
            assert(d@ =~= locator_derivative(loc@));
        }
        d
    }

    /// The coefficients in reverse order.
    pub(crate) fn reversed(v: &[GF256]) -> (r: Vec<GF256>)
        ensures
            r@ == v@.reverse(),
    {
        let mut r: Vec<GF256> = Vec::new();
        let len = v.len();
        let mut i: usize = 0;
        while i < len
            invariant
                i <= len == v@.len(),
                r@ =~= v@.reverse().subrange(0, i as int),
            decreases len - i,
        {
            r.push(v[len - 1 - i]);
            i = i + 1;
        }
        proof {
            assert(r@ =~= v@.reverse());
        }
        r
    }

    /// `alpha^(n-1-j)`, the locator of index `j` in a word of `n` symbols.
    fn root_of(n: usize, j: usize) -> (r: GF256)
        requires
            j < n,
        ensures
            r.0 == position_root(n as nat, j as int),
            r.0 != 0u8,
    {
        let e = n - 1 - j;
        proof {
            lemma_pow_nonzero(2u8, (#[verifier::truncate] (e as u32)) as nat);
        }
        if e == 0 {
            GF256(1u8)
        } else {
            GF256(2u8).pow(#[verifier::truncate] (e as u32))
        }
    }

    /// Forney's algorithm: the error magnitude at each position of a word of `n` symbols.
    fn forney(&self, syndromes: &[GF256], error_loc: &[GF256], positions: &[usize], n: usize) -> (corr: Vec<GF256>)
        requires
            syndromes@.len() == self.parity_symbols,
            1 <= error_loc@.len() <= self.parity_symbols + 2,
            2 * self.parity_symbols + 3 <= usize::MAX,
            forall|q: int| 0 <= q < positions@.len() ==> #[trigger] positions@[q] < n,
        ensures
            corr@ == forney_corrections(syndromes@, error_loc@, positions@, self.parity_symbols as nat, n as nat),
            corr@.len() == positions@.len(),
    {
        proof {
            reveal(forney_corrections);
        }
        let product = GF256::poly_mul(syndromes, error_loc);
        let two_t = self.parity_symbols;
        let omega = if product.len() > two_t {
            let mut o: Vec<GF256> = Vec::new();
            let mut i: usize = 0;
            while i < two_t
                invariant
                    i <= two_t < product@.len(),
                    o@ =~= product@.subrange(0, i as int),
                decreases two_t - i,
            {
                o.push(product[i]);
                i = i + 1;
            }
            o
        } else {
            product
        };
        proof {
            assert(omega@ =~= error_evaluator(syndromes@, error_loc@, two_t as nat));
        }
        let sigma_prime = Self::derivative(error_loc);
        let omega_rev = Self::reversed(omega.as_slice());
        let sigma_prime_rev = Self::reversed(sigma_prime.as_slice());
        let mut corr: Vec<GF256> = Vec::new();
        let mut k: usize = 0;
        while k < positions.len()
            invariant
                k <= positions@.len(),
                forall|q: int| 0 <= q < positions@.len() ==> #[trigger] positions@[q] < n,
                omega@ == error_evaluator(syndromes@, error_loc@, two_t as nat),
                sigma_prime@ == locator_derivative(error_loc@),
                omega_rev@ == omega@.reverse(),
                sigma_prime_rev@ == sigma_prime@.reverse(),
                two_t == self.parity_symbols,
                corr@ =~= forney_corrections(syndromes@, error_loc@, positions@, two_t as nat, n as nat).subrange(
                    0,
                    k as int,
                ),
            decreases positions@.len() - k,
        {
            proof {
                reveal(forney_corrections);
            }
            let x = Self::root_of(n, positions[k]);
            let x_inv = x.inv();
            let omega_val = GF256::eval_poly(omega_rev.as_slice(), x_inv);
            let sigma_prime_val = GF256::eval_poly(sigma_prime_rev.as_slice(), x_inv);
            let e = if sigma_prime_val == GF256(0u8) {
                GF256(0u8)
            } else {
                x.mul(omega_val).div(sigma_prime_val)
            };
            corr.push(e);
            k = k + 1;
        }
        proof {
            assert(corr@ =~= forney_corrections(syndromes@, error_loc@, positions@, two_t as nat, n as nat));
        }
        corr
    }

    /// Chien search: the indices `j < n` whose locator `alpha^(n-1-j)` makes `sigma(X^-1)` vanish.
    fn chien_search(error_loc: &[GF256], n: usize) -> (positions: Vec<usize>)
        ensures
            positions@ == chien_positions(error_loc@, n as nat, n as nat),
            positions@.len() <= n,
            forall|q: int| 0 <= q < positions@.len() ==> #[trigger] positions@[q] < n,
    {
        proof {
            reveal(chien_positions);
        }
        let mut error_positions: Vec<usize> = Vec::new();
        let mut i: usize = 0;
        while i < n
            invariant
                i <= n,
                error_positions@ == chien_positions(error_loc@, n as nat, i as nat),
            decreases n - i,
        {
            proof {
                reveal(chien_positions);
            }
            let root = Self::root_of(n, i);
            let val = GF256::eval_poly(error_loc, root);
            if val == GF256(0u8) {
                error_positions.push(i);
            }
            i = i + 1;
        }
        proof {
            lemma_chien_positions_shape(error_loc@, n as nat, n as nat);
        }
        error_positions
    }

    /// Subtract each correction at its position.
    fn apply(rx: &[GF256], positions: &[usize], corrections: &[GF256]) -> (fixed: Vec<GF256>)
        requires
            positions@.len() == corrections@.len(),
            forall|q: int| 0 <= q < positions@.len() ==> #[trigger] positions@[q] < rx@.len(),
        ensures
            fixed@ == apply_corrections(rx@, positions@, corrections@, positions@.len()),
            fixed@.len() == rx@.len(),
    {
        proof {
            reveal(apply_corrections);
        }
        let mut corrected = copy_elements(rx);
        let mut j: usize = 0;
        while j < positions.len()
            invariant
                j <= positions@.len() == corrections@.len(),
                corrected@.len() == rx@.len(),
                forall|q: int| 0 <= q < positions@.len() ==> #[trigger] positions@[q] < rx@.len(),
                corrected@ == apply_corrections(rx@, positions@, corrections@, j as nat),
            decreases positions@.len() - j,
        {
            proof {
                reveal(apply_corrections);
            }
            let pos = positions[j];
            let v = corrected[pos].sub(corrections[j]);
            corrected.set(pos, v);
            j = j + 1;
        }
        corrected
    }

    /// Locate and correct the errors of a received word whose syndromes are not all zero.
    fn correct(&self, rx: &[GF256], synd: &[GF256]) -> (r: Result<Vec<u8>, String>)
        requires
            rx@.len() == self.data_symbols + self.parity_symbols,
            synd@.len() == self.parity_symbols,
            2 * (self.data_symbols + self.parity_symbols) + 3 <= usize::MAX,
        ensures
            decoded_view(r) == rs_corrected(self.data_symbols as nat, self.parity_symbols as nat, rx@, synd@),
    {
        let k = self.data_symbols;
        let n = rx.len();
        let error_loc = self.berlekamp_massey(synd);
        let error_positions = Self::chien_search(error_loc.as_slice(), n);
        if error_positions.len() != error_loc.len() - 1 {
            return Err("could not find all error positions".to_owned());
        }
        let corrections = self.forney(synd, error_loc.as_slice(), error_positions.as_slice(), n);
        let corrected = Self::apply(rx, error_positions.as_slice(), corrections.as_slice());
        let new_synd = self.syndromes(corrected.as_slice());
        if is_all_zero(new_synd.as_slice()) {
            Ok(prefix_bytes(corrected.as_slice(), k))
        } else {
            Err("correction failed \u{2014} too many errors".to_owned())
        }
    }

    /// Decode a received codeword: the data symbols, corrected when the errors can be located.
    pub fn decode(&self, received: &[u8]) -> (r: Result<Vec<u8>, String>)
        requires
            2 * (self.data_symbols + self.parity_symbols) + 3 <= usize::MAX,
        ensures
            decoded_view(r) == rs_decoded(self.data_symbols as nat, self.parity_symbols as nat, received@),
    {
        let k = self.data_symbols;
        let p = self.parity_symbols;
        let n = self.n();
        if received.len() != n {
            return Err("received length mismatch".to_owned());
        }
        let rx = to_field(received);
        let synd = self.syndromes(rx.as_slice());
        if is_all_zero(synd.as_slice()) {
            return Ok(prefix_copy(received, k));
        }
        self.correct(rx.as_slice(), synd.as_slice())
    }
}

} // verus!
