//! Dense multivariate polynomials: a coefficient for every monomial of
//! degree at most `d` over `n` variables.
//!
//! The coefficient vector is addressed positionally: entry `k` belongs to
//! the `k`-th monomial of the polynomial's monomial list, which holds every
//! monomial of the shape once, in increasing order of its prime-power code.
//! The code list in that order is what `compute_normalized_indices`
//! returns.

use crate::field::{fadd, fmul, in_field, Fe};
use crate::monomial::{
    add_mon, copy_mon, lemma_mdeg_nonneg, lex_less, mdeg, mon_eq, mon_eval, zero_mon,
    zero_mon_exec,
};
use crate::primes::{prime_seq, primes_exist, PrimeNumberGenerator};
use crate::space::{code_of, codes_fit, encode_monomial, enumerate_monomials, mons_count};
use vstd::prelude::*;

verus! {

/// Comparison in the addressing order: by code, ties broken
/// lexicographically.
fn code_less(c1: usize, m1: &Vec<usize>, c2: usize, m2: &Vec<usize>) -> (r: bool)
    requires
        m1@.len() == m2@.len(),
{
    if c1 < c2 {
        true
    } else if c1 > c2 {
        false
    } else {
        lex_less(m1, m2)
    }
}

/// Builds the monomial list of a shape together with the codes over the
/// given primes, inserting each monomial at its place in increasing code
/// order.
#[verifier::rlimit(60)]
fn build_space(n: usize, d: usize, ps: &Vec<usize>) -> (r: (Vec<Vec<usize>>, Vec<usize>))
    requires
        prime_seq(ps@),
        ps@.len() >= n,
        codes_fit(n as int, d as int),
        d < usize::MAX,
    ensures
        r.0@.len() == r.1@.len(),
        r.0@.len() == mons_count(n as int, d as int),
        forall|k: int|
            0 <= k < r.0@.len() ==> (#[trigger] r.0@[k])@.len() == n && mdeg(r.0@[k]@) <= d,
        forall|m: Seq<usize>|
            m.len() == n && mdeg(m) <= d ==> exists|k: int|
                0 <= k < r.0@.len() && (#[trigger] r.0@[k])@ == m,
        forall|k: int|
            0 <= k < r.0@.len() ==> (#[trigger] r.1@[k]) as int == code_of(r.0@[k]@, ps@),
        forall|i: int, j: int|
            0 <= i < j < r.0@.len() ==> (#[trigger] r.0@[i])@ != (#[trigger] r.0@[j])@,
{
    let flat = enumerate_monomials(n, d);
    let mut mons: Vec<Vec<usize>> = Vec::new();
    let mut codes: Vec<usize> = Vec::new();
    // sorted position k holds the monomial of enumeration position srcm[k];
    // enumeration position t sits at sorted position ipos[t]
    let ghost mut srcm: Seq<int> = Seq::empty();
    let ghost mut ipos: Seq<int> = Seq::empty();
    let mut j: usize = 0;
    while j < flat.len()
        invariant
            prime_seq(ps@),
            ps@.len() >= n,
            codes_fit(n as int, d as int),
            d < usize::MAX,
            j <= flat@.len(),
            forall|k: int|
                0 <= k < flat@.len() ==> (#[trigger] flat@[k])@.len() == n && mdeg(flat@[k]@)
                    <= d,
            mons@.len() == j,
            codes@.len() == j,
            srcm.len() == j,
            ipos.len() == j,
            forall|k: int| 0 <= k < j ==> 0 <= #[trigger] srcm[k] < j,
            forall|k: int| 0 <= k < j ==> (#[trigger] mons@[k])@ == flat@[srcm[k]]@,
            forall|k1: int, k2: int| 0 <= k1 < k2 < j ==> srcm[k1] != srcm[k2],
            forall|t: int| 0 <= t < j ==> 0 <= #[trigger] ipos[t] < j,
            forall|t: int| 0 <= t < j ==> (#[trigger] mons@[ipos[t]])@ == flat@[t]@,
            forall|k: int|
                0 <= k < j ==> (#[trigger] codes@[k]) as int == code_of(mons@[k]@, ps@),
        decreases flat.len() - j,
    {
        let item = copy_mon(&flat[j]);
        proof {
            // the fitting bound for the whole shape covers this monomial
            assert forall|ps2: Seq<usize>, m2: Seq<usize>|
                prime_seq(ps2) && ps2.len() >= item@.len() && m2.len() == item@.len() && mdeg(m2)
                    <= mdeg(item@) implies #[trigger] code_of(m2, ps2) <= usize::MAX as int by {
                lemma_mdeg_nonneg(item@, 0);
                assert(m2.len() == n && mdeg(m2) <= d);
            }
        }
        let c = encode_monomial(&item, ps);
        let mut pos: usize = 0;
        while pos < mons.len() && code_less(codes[pos], &mons[pos], c, &item)
            invariant
                mons@.len() == codes@.len(),
                item@.len() == n,
                forall|k: int| 0 <= k < mons@.len() ==> (#[trigger] mons@[k])@.len() == n,
                pos <= mons@.len(),
            decreases mons.len() - pos,
        {
            pos += 1;
        }
        let ghost oldm = mons@;
        let ghost oldc = codes@;
        let ghost olds = srcm;
        let ghost oldi = ipos;
        mons.insert(pos, item);
        codes.insert(pos, c);
        proof {
            srcm = Seq::new(
                (j + 1) as nat,
                |k: int|
                    if k < pos {
                        olds[k]
                    } else if k == pos {
                        j as int
                    } else {
                        olds[k - 1]
                    },
            );
            ipos = Seq::new(
                (j + 1) as nat,
                |t: int|
                    if t == j {
                        pos as int
                    } else if oldi[t] >= pos {
                        oldi[t] + 1
                    } else {
                        oldi[t]
                    },
            );
            assert forall|k: int| 0 <= k < j + 1 implies 0 <= #[trigger] srcm[k] < j + 1 && (
            #[trigger] mons@[k])@ == flat@[srcm[k]]@ by {
                if k < pos {
                    assert(mons@[k] == oldm[k]);
                } else if k > pos {
                    assert(mons@[k] == oldm[k - 1]);
                }
            }
            assert forall|k1: int, k2: int| 0 <= k1 < k2 < j + 1 implies srcm[k1] != srcm[
                k2] by {}
            assert forall|t: int| 0 <= t < j + 1 implies 0 <= #[trigger] ipos[t] < j + 1 && (
            #[trigger] mons@[ipos[t]])@ == flat@[t]@ by {
                if t < j {
                    if oldi[t] >= pos {
                        assert(mons@[oldi[t] + 1] == oldm[oldi[t]]);
                    } else {
                        assert(mons@[oldi[t]] == oldm[oldi[t]]);
                    }
                }
            }
            assert forall|k: int|
                0 <= k < j + 1 implies (#[trigger] codes@[k]) as int == code_of(
                mons@[k]@,
                ps@,
            ) by {
                if k < pos {
                    assert(mons@[k] == oldm[k] && codes@[k] == oldc[k]);
                } else if k > pos {
                    assert(mons@[k] == oldm[k - 1] && codes@[k] == oldc[k - 1]);
                }
            }
        }
        j += 1;
    }
    proof {
        assert forall|m: Seq<usize>| m.len() == n && mdeg(m) <= d implies exists|k: int|
            0 <= k < mons@.len() && (#[trigger] mons@[k])@ == m by {
            let t = choose|t: int| 0 <= t < flat@.len() && (#[trigger] flat@[t])@ == m;
            assert(mons@[ipos[t]]@ == m);
        }
        assert forall|i: int, j2: int|
            0 <= i < j2 < mons@.len() implies (#[trigger] mons@[i])@ != (#[trigger] mons@[
        j2])@ by {
            if srcm[i] < srcm[j2] {
                crate::space::lemma_lex_sorted_distinct(flat@, n as int, srcm[i], srcm[j2]);
            } else {
                crate::space::lemma_lex_sorted_distinct(flat@, n as int, srcm[j2], srcm[i]);
            }
        }
    }
    (mons, codes)
}

/// A dense polynomial over `n` variables with total degree bounded by `d`:
/// one coefficient per monomial of the shape, addressed by the code order.
#[derive(Debug)]
pub struct Dense {
    n: usize,
    d: usize,
    mons: Vec<Vec<usize>>,
    codes: Vec<usize>,
    coeffs: Vec<Fe>,
}

impl Dense {
    /// The number of variables.
    pub closed spec fn arity(&self) -> int {
        self.n as int
    }

    /// The degree bound.
    pub closed spec fn bound(&self) -> int {
        self.d as int
    }

    /// The number of stored coefficients.
    pub closed spec fn dim(&self) -> int {
        self.coeffs@.len() as int
    }

    /// The monomial addressed by position `k`.
    pub closed spec fn mon_at(&self, k: int) -> Seq<usize> {
        self.mons@[k]@
    }

    /// The code of the monomial at position `k`.
    pub closed spec fn code_at(&self, k: int) -> int {
        self.codes@[k] as int
    }

    /// The coefficient at position `k`.
    pub closed spec fn coeff_at(&self, k: int) -> int {
        self.coeffs@[k]@
    }

    /// Structural well-formedness: the monomial list holds every monomial
    /// of the shape exactly once, the codes match the monomials over every
    /// prime table, and every coefficient is reduced.
    pub closed spec fn wf(&self) -> bool {
        &&& self.n >= 1
        &&& self.d >= 1
        &&& self.d < usize::MAX
        &&& self.mons@.len() == self.codes@.len()
        &&& self.mons@.len() == self.coeffs@.len()
        &&& self.mons@.len() == mons_count(self.n as int, self.d as int)
        &&& forall|k: int|
            0 <= k < self.mons@.len() ==> (#[trigger] self.mons@[k])@.len() == self.n && mdeg(
                self.mons@[k]@,
            ) <= self.d
        &&& forall|m: Seq<usize>|
            m.len() == self.n && mdeg(m) <= self.d ==> exists|k: int|
                0 <= k < self.mons@.len() && (#[trigger] self.mons@[k])@ == m
        &&& forall|i: int, j: int|
            0 <= i < j < self.mons@.len() ==> (#[trigger] self.mons@[i])@ != (
            #[trigger] self.mons@[j])@
        &&& forall|ps: Seq<usize>, k: int|
            prime_seq(ps) && ps.len() >= self.n && 0 <= k < self.mons@.len()
                ==> self.codes@[k] as int == #[trigger] code_of(self.mons@[k]@, ps)
        &&& forall|k: int| 0 <= k < self.coeffs@.len() ==> in_field((#[trigger] self.coeffs@[k])@)
    }

    /// Two dense polynomials address their coefficients the same way.
    pub closed spec fn same_space(&self, other: &Dense) -> bool {
        &&& self.n == other.n
        &&& self.d == other.d
        &&& self.mons@.len() == other.mons@.len()
        &&& self.codes@.len() == other.codes@.len()
        &&& forall|k: int|
            0 <= k < self.mons@.len() ==> (#[trigger] self.mons@[k])@ == other.mons@[k]@
                && self.codes@[k] == other.codes@[k]
    }

    /// Exports the shape facts a caller needs to reason about positions.
    pub proof fn lemma_wf_facts(&self)
        requires
            self.wf(),
        ensures
            self.arity() >= 1,
            self.bound() >= 1,
            self.dim() == mons_count(self.arity(), self.bound()),
            forall|k: int|
                0 <= k < self.dim() ==> (#[trigger] self.mon_at(k)).len() == self.arity() && mdeg(
                    self.mon_at(k),
                ) <= self.bound(),
            forall|m: Seq<usize>|
                m.len() == self.arity() && mdeg(m) <= self.bound() ==> exists|k: int|
                    0 <= k < self.dim() && (#[trigger] self.mon_at(k)) == m,
            forall|i: int, j: int|
                0 <= i < j < self.dim() ==> (#[trigger] self.mon_at(i)) != (#[trigger] self.mon_at(
                    j,
                )),
            forall|k: int| 0 <= k < self.dim() ==> in_field(#[trigger] self.coeff_at(k)),
    {
        assert forall|m: Seq<usize>|
            m.len() == self.arity() && mdeg(m) <= self.bound() implies exists|k: int|
                0 <= k < self.dim() && (#[trigger] self.mon_at(k)) == m by {
            let k = choose|k: int|
                0 <= k < self.mons@.len() && (#[trigger] self.mons@[k])@ == m;
            assert(self.mon_at(k) == m);
        }
    }

    /// Builds the polynomial with the given coefficients, position `k`
    /// holding the coefficient of the `k`-th monomial in the code order.
    #[verifier::rlimit(60)]
    pub fn from_coefficients(n: usize, d: usize, cs: Vec<Fe>) -> (r: Dense)
        requires
            n >= 1,
            d >= 1,
            d < usize::MAX,
            primes_exist(n as nat),
            codes_fit(n as int, d as int),
            cs@.len() == mons_count(n as int, d as int),
            forall|k: int| 0 <= k < cs@.len() ==> in_field((#[trigger] cs@[k])@),
        ensures
            r.wf(),
            r.arity() == n,
            r.bound() == d,
            r.dim() == cs@.len(),
            forall|k: int| 0 <= k < cs@.len() ==> #[trigger] r.coeff_at(k) == cs@[k]@,
    {
        let mut gen = PrimeNumberGenerator::new();
        let ps = gen.get_first_nth_primes(n);
        let (mons, codes) = build_space(n, d, &ps);
        proof {
            assert forall|ps2: Seq<usize>, k: int|
                prime_seq(ps2) && ps2.len() >= n && 0 <= k < mons@.len() implies codes@[k] as int
                == #[trigger] code_of(mons@[k]@, ps2) by {
                crate::space::lemma_code_same(mons@[k]@, ps@, ps2, 0);
            }
        }
        let r = Dense { n, d, mons, codes, coeffs: cs };
        proof {
            assert(r.mons@.len() == mons_count(r.n as int, r.d as int));
            assert(forall|k: int|
                0 <= k < r.mons@.len() ==> (#[trigger] r.mons@[k])@.len() == r.n && mdeg(
                    r.mons@[k]@,
                ) <= r.d);
            assert forall|m: Seq<usize>|
                m.len() == r.n && mdeg(m) <= r.d implies exists|k: int|
                0 <= k < r.mons@.len() && (#[trigger] r.mons@[k])@ == m by {
                let k = choose|k: int| 0 <= k < mons@.len() && (#[trigger] mons@[k])@ == m;
            }
            assert(forall|i: int, j: int|
                0 <= i < j < r.mons@.len() ==> (#[trigger] r.mons@[i])@ != (#[trigger] r.mons@[
                j])@);
            assert(forall|k: int| 0 <= k < r.coeffs@.len() ==> in_field(
                (#[trigger] r.coeffs@[k])@,
            ));
            assert(r.wf());
        }
        r
    }

    /// The zero polynomial.
    pub fn new(n: usize, d: usize) -> (r: Dense)
        requires
            n >= 1,
            d >= 1,
            d < usize::MAX,
            primes_exist(n as nat),
            codes_fit(n as int, d as int),
        ensures
            r.wf(),
            r.arity() == n,
            r.bound() == d,
            forall|k: int| 0 <= k < r.dim() ==> #[trigger] r.coeff_at(k) == 0,
    {
        let mut gen = PrimeNumberGenerator::new();
        let ps = gen.get_first_nth_primes(n);
        let (mons, codes) = build_space(n, d, &ps);
        let mut coeffs: Vec<Fe> = Vec::new();
        let mut k: usize = 0;
        while k < mons.len()
            invariant
                k <= mons@.len(),
                coeffs@.len() == k,
                forall|t: int| 0 <= t < k ==> ((#[trigger] coeffs@[t])@) == 0,
            decreases mons.len() - k,
        {
            coeffs.push(Fe::zero());
            k += 1;
        }
        proof {
            assert forall|ps2: Seq<usize>, k2: int|
                prime_seq(ps2) && ps2.len() >= n && 0 <= k2 < mons@.len() implies codes@[
            k2] as int == #[trigger] code_of(mons@[k2]@, ps2) by {
                crate::space::lemma_code_same(mons@[k2]@, ps@, ps2, 0);
            }
        }
        let r = Dense { n, d, mons, codes, coeffs };
        proof {
            assert(r.wf());
        }
        r
    }

    /// The constant polynomial with the given value.
    pub fn from_scalar(n: usize, d: usize, c: Fe) -> (r: Dense)
        requires
            n >= 1,
            d >= 1,
            d < usize::MAX,
            primes_exist(n as nat),
            codes_fit(n as int, d as int),
            in_field(c@),
        ensures
            r.wf(),
            r.arity() == n,
            r.bound() == d,
            forall|k: int|
                0 <= k < r.dim() ==> #[trigger] r.coeff_at(k) == if r.mon_at(k) == zero_mon(
                    n as int,
                ) {
                    c@
                } else {
                    0int
                },
    {
        let mut r = Dense::new(n, d);
        let zm = zero_mon_exec(n);
        let pos = r.position_of(&zm);
        r.set_coeff(pos, c);
        r
    }

    /// The constant polynomial one.
    pub fn one(n: usize, d: usize) -> (r: Dense)
        requires
            n >= 1,
            d >= 1,
            d < usize::MAX,
            primes_exist(n as nat),
            codes_fit(n as int, d as int),
        ensures
            r.wf(),
            r.arity() == n,
            r.bound() == d,
            forall|k: int|
                0 <= k < r.dim() ==> #[trigger] r.coeff_at(k) == if r.mon_at(k) == zero_mon(
                    n as int,
                ) {
                    1int
                } else {
                    0int
                },
    {
        Dense::from_scalar(n, d, Fe::one())
    }

    /// The position of a monomial of the shape in the addressing order.
    pub fn position_of(&self, m: &Vec<usize>) -> (r: usize)
        requires
            self.wf(),
            m@.len() == self.arity(),
            mdeg(m@) <= self.bound(),
        ensures
            0 <= r < self.dim(),
            self.mon_at(r as int) == m@,
    {
        let mut k: usize = 0;
        while k < self.mons.len()
            invariant
                self.wf(),
                k <= self.mons@.len(),
                forall|t: int| 0 <= t < k ==> (#[trigger] self.mons@[t])@ != m@,
            decreases self.mons.len() - k,
        {
            if mon_eq(&self.mons[k], m) {
                return k;
            }
            k += 1;
        }
        proof {
            let k2 = choose|k2: int|
                0 <= k2 < self.mons@.len() && (#[trigger] self.mons@[k2])@ == m@;
            assert(false);
        }
        0
    }

    /// Replaces the coefficient at one position.
    #[verifier::rlimit(60)]
    pub fn set_coeff(&mut self, k: usize, c: Fe)
        requires
            old(self).wf(),
            0 <= k < old(self).dim(),
            in_field(c@),
        ensures
            final(self).wf(),
            final(self).arity() == old(self).arity(),
            final(self).bound() == old(self).bound(),
            final(self).dim() == old(self).dim(),
            final(self).same_space(old(self)),
            forall|t: int|
                0 <= t < final(self).dim() ==> #[trigger] final(self).coeff_at(t) == if t
                    == k as int {
                    c@
                } else {
                    old(self).coeff_at(t)
                },
            forall|t: int|
                0 <= t < final(self).dim() ==> #[trigger] final(self).mon_at(t) == old(
                    self,
                ).mon_at(t),
    {
        let ghost oldc = self.coeffs@;
        self.coeffs.remove(k);
        self.coeffs.insert(k, c);
        proof {
            assert forall|t: int|
                0 <= t < self.coeffs@.len() implies ((#[trigger] self.coeffs@[t])@) == if t
                == k as int {
                c@
            } else {
                oldc[t]@
            } by {
                if t < k {
                    assert(self.coeffs@[t] == oldc[t]);
                } else if t > k {
                    assert(self.coeffs@[t] == oldc[t]);
                }
            }
        }
    }

    /// Reads the coefficient at one position.
    pub fn coeff(&self, k: usize) -> (r: Fe)
        requires
            self.wf(),
            0 <= k < self.dim(),
        ensures
            r@ == self.coeff_at(k as int),
    {
        self.coeffs[k]
    }

    /// The codes of the monomials, in the addressing order.
    pub fn compute_normalized_indices(&self) -> (r: Vec<usize>)
        requires
            self.wf(),
        ensures
            r@.len() == self.dim(),
            forall|k: int| 0 <= k < r@.len() ==> (#[trigger] r@[k]) as int == self.code_at(k),
            forall|ps: Seq<usize>, k: int|
                prime_seq(ps) && ps.len() >= self.arity() && 0 <= k < r@.len() ==> r@[k] as int
                    == #[trigger] code_of(self.mon_at(k), ps),
    {
        let mut out: Vec<usize> = Vec::new();
        let mut k: usize = 0;
        while k < self.codes.len()
            invariant
                self.wf(),
                k <= self.codes@.len(),
                self.codes@.len() == self.coeffs@.len(),
                out@.len() == k,
                forall|t: int| 0 <= t < k ==> (#[trigger] out@[t]) == self.codes@[t],
            decreases self.codes.len() - k,
        {
            let v = self.codes[k];
            out.push(v);
            k += 1;
        }
        out
    }

    /// The number of coefficients of the shape.
    pub fn dimension(&self) -> (r: usize)
        requires
            self.wf(),
        ensures
            r == self.dim(),
            r == mons_count(self.arity(), self.bound()),
    {
        self.coeffs.len()
    }
}

/// The value of a coefficient vector at a point: the sum, from position
/// `k` on, of each coefficient times its monomial's value.
pub open spec fn dval(mons: Seq<Vec<usize>>, cs: Seq<Fe>, xs: Seq<int>, k: int) -> int
    decreases mons.len() - k,
{
    if k < 0 || k >= mons.len() {
        0
    } else {
        fadd(fmul(cs[k]@, mon_eval(mons[k]@, xs)), dval(mons, cs, xs, k + 1))
    }
}

/// The coefficient a dense store gives a monomial: the sum, from position
/// `k` on, of the coefficients stored at that monomial.
pub open spec fn dsum(mons: Seq<Vec<usize>>, cs: Seq<Fe>, m: Seq<usize>, k: int) -> int
    decreases mons.len() - k,
{
    if k < 0 || k >= mons.len() {
        0
    } else {
        fadd(
            if mons[k]@ == m {
                cs[k]@
            } else {
                0
            },
            dsum(mons, cs, m, k + 1),
        )
    }
}

/// One row of the dense convolution: the products of one coefficient of
/// the left factor with the coefficients of the right factor whose
/// combined monomial is `m`, from position `j` on.
pub open spec fn dconv_row(
    mi: Seq<usize>,
    ci: int,
    mons: Seq<Vec<usize>>,
    qc: Seq<Fe>,
    m: Seq<usize>,
    j: int,
) -> int
    decreases mons.len() - j,
{
    if j < 0 || j >= mons.len() {
        0
    } else {
        fadd(
            if m == add_mon(mi, mons[j]@) {
                fmul(ci, qc[j]@)
            } else {
                0
            },
            dconv_row(mi, ci, mons, qc, m, j + 1),
        )
    }
}

/// The dense convolution at a monomial `m`, from row `i` on: the sum over
/// all pairs of positions whose monomials add to `m` of the product of
/// their coefficients.
pub open spec fn dconv(
    mons: Seq<Vec<usize>>,
    pc: Seq<Fe>,
    qc: Seq<Fe>,
    m: Seq<usize>,
    i: int,
) -> int
    decreases mons.len() - i,
{
    if i < 0 || i >= mons.len() {
        0
    } else {
        fadd(dconv_row(mons[i]@, pc[i]@, mons, qc, m, 0), dconv(mons, pc, qc, m, i + 1))
    }
}

/// The dense sums are reduced field elements.
proof fn lemma_dense_sums_in_field(
    mons: Seq<Vec<usize>>,
    cs: Seq<Fe>,
    qc: Seq<Fe>,
    xs: Seq<int>,
    m: Seq<usize>,
    mi: Seq<usize>,
    ci: int,
    k: int,
)
    ensures
        in_field(dval(mons, cs, xs, k)),
        in_field(dsum(mons, cs, m, k)),
        in_field(dconv_row(mi, ci, mons, qc, m, k)),
        in_field(dconv(mons, cs, qc, m, k)),
    decreases mons.len() - k,
{
    if 0 <= k && k < mons.len() {
        lemma_dense_sums_in_field(mons, cs, qc, xs, m, mi, ci, k + 1);
        crate::field::lemma_field_closed(
            fmul(cs[k]@, mon_eval(mons[k]@, xs)),
            dval(mons, cs, xs, k + 1),
        );
        crate::field::lemma_field_closed(0, dsum(mons, cs, m, k + 1));
        crate::field::lemma_field_closed(cs[k]@, dsum(mons, cs, m, k + 1));
        crate::field::lemma_field_closed(0, dconv_row(mi, ci, mons, qc, m, k + 1));
        crate::field::lemma_field_closed(fmul(ci, qc[k]@), dconv_row(mi, ci, mons, qc, m, k + 1));
        crate::field::lemma_field_closed(
            dconv_row(mons[k]@, cs[k]@, mons, qc, m, 0),
            dconv(mons, cs, qc, m, k + 1),
        );
    }
}

impl Dense {
    /// The monomial list.
    pub closed spec fn mons_seq(&self) -> Seq<Vec<usize>> {
        self.mons@
    }

    /// The coefficient vector.
    pub closed spec fn coeffs_seq(&self) -> Seq<Fe> {
        self.coeffs@
    }

    /// The coefficient this polynomial gives a monomial, looked up by the
    /// monomial rather than by position.
    pub closed spec fn coeff_of_mon(&self, m: Seq<usize>) -> int {
        dsum(self.mons@, self.coeffs@, m, 0)
    }

    /// Builds a polynomial over this polynomial's monomial list with the
    /// given coefficients.
    fn like_coeffs(&self, cs: Vec<Fe>) -> (r: Dense)
        requires
            self.wf(),
            cs@.len() == self.dim(),
            forall|k: int| 0 <= k < cs@.len() ==> in_field((#[trigger] cs@[k])@),
        ensures
            r.wf(),
            r.arity() == self.arity(),
            r.bound() == self.bound(),
            r.dim() == self.dim(),
            r.same_space(self),
            forall|k: int| 0 <= k < r.dim() ==> #[trigger] r.coeff_at(k) == cs@[k]@,
            forall|k: int| 0 <= k < r.dim() ==> #[trigger] r.mon_at(k) == self.mon_at(k),
    {
        let mut mons2: Vec<Vec<usize>> = Vec::new();
        let mut codes2: Vec<usize> = Vec::new();
        let mut k: usize = 0;
        while k < self.mons.len()
            invariant
                self.wf(),
                k <= self.mons@.len(),
                self.mons@.len() == self.codes@.len(),
                mons2@.len() == k,
                codes2@.len() == k,
                forall|t: int|
                    0 <= t < k ==> (#[trigger] mons2@[t])@ == self.mons@[t]@ && codes2@[t]
                        == self.codes@[t],
            decreases self.mons.len() - k,
        {
            let m = copy_mon(&self.mons[k]);
            mons2.push(m);
            let c = self.codes[k];
            codes2.push(c);
            k += 1;
        }
        let r = Dense { n: self.n, d: self.d, mons: mons2, codes: codes2, coeffs: cs };
        proof {
            assert forall|m: Seq<usize>|
                m.len() == r.n && mdeg(m) <= r.d implies exists|k2: int|
                0 <= k2 < r.mons@.len() && (#[trigger] r.mons@[k2])@ == m by {
                let k2 = choose|k2: int|
                    0 <= k2 < self.mons@.len() && (#[trigger] self.mons@[k2])@ == m;
                assert(r.mons@[k2]@ == m);
            }
            assert forall|ps: Seq<usize>, k2: int|
                prime_seq(ps) && ps.len() >= r.n && 0 <= k2 < r.mons@.len() implies r.codes@[
            k2] as int == #[trigger] code_of(r.mons@[k2]@, ps) by {
                assert(self.codes@[k2] as int == code_of(self.mons@[k2]@, ps));
            }
            assert(r.wf());
        }
        r
    }

    /// The sum of two polynomials of one space.
    pub fn add(&self, other: &Dense) -> (r: Dense)
        requires
            self.wf(),
            other.wf(),
            self.same_space(other),
        ensures
            r.wf(),
            r.arity() == self.arity(),
            r.bound() == self.bound(),
            r.same_space(self),
            forall|k: int| 0 <= k < r.dim() ==> #[trigger] r.coeff_at(k) == fadd(
                self.coeff_at(k),
                other.coeff_at(k),
            ),
            forall|k: int| 0 <= k < r.dim() ==> #[trigger] r.mon_at(k) == self.mon_at(k),
    {
        let mut cs: Vec<Fe> = Vec::new();
        let mut k: usize = 0;
        while k < self.coeffs.len()
            invariant
                self.wf(),
                other.wf(),
                self.same_space(other),
                k <= self.coeffs@.len(),
                cs@.len() == k,
                forall|t: int|
                    0 <= t < k ==> ((#[trigger] cs@[t])@) == fadd(
                        self.coeffs@[t]@,
                        other.coeffs@[t]@,
                    ) && in_field(cs@[t]@),
            decreases self.coeffs.len() - k,
        {
            cs.push(self.coeffs[k].add(other.coeffs[k]));
            k += 1;
        }
        self.like_coeffs(cs)
    }

    /// The difference of two polynomials of one space.
    pub fn sub(&self, other: &Dense) -> (r: Dense)
        requires
            self.wf(),
            other.wf(),
            self.same_space(other),
        ensures
            r.wf(),
            r.arity() == self.arity(),
            r.bound() == self.bound(),
            r.same_space(self),
            forall|k: int| 0 <= k < r.dim() ==> #[trigger] r.coeff_at(k) == crate::field::fsub(
                self.coeff_at(k),
                other.coeff_at(k),
            ),
            forall|k: int| 0 <= k < r.dim() ==> #[trigger] r.mon_at(k) == self.mon_at(k),
    {
        let mut cs: Vec<Fe> = Vec::new();
        let mut k: usize = 0;
        while k < self.coeffs.len()
            invariant
                self.wf(),
                other.wf(),
                self.same_space(other),
                k <= self.coeffs@.len(),
                cs@.len() == k,
                forall|t: int|
                    0 <= t < k ==> ((#[trigger] cs@[t])@) == crate::field::fsub(
                        self.coeffs@[t]@,
                        other.coeffs@[t]@,
                    ) && in_field(cs@[t]@),
            decreases self.coeffs.len() - k,
        {
            cs.push(self.coeffs[k].sub(other.coeffs[k]));
            k += 1;
        }
        self.like_coeffs(cs)
    }

    /// The negation of a polynomial.
    pub fn neg(&self) -> (r: Dense)
        requires
            self.wf(),
        ensures
            r.wf(),
            r.arity() == self.arity(),
            r.bound() == self.bound(),
            r.same_space(self),
            forall|k: int| 0 <= k < r.dim() ==> #[trigger] r.coeff_at(k) == crate::field::fneg(
                self.coeff_at(k),
            ),
            forall|k: int| 0 <= k < r.dim() ==> #[trigger] r.mon_at(k) == self.mon_at(k),
    {
        let mut cs: Vec<Fe> = Vec::new();
        let mut k: usize = 0;
        while k < self.coeffs.len()
            invariant
                self.wf(),
                k <= self.coeffs@.len(),
                cs@.len() == k,
                forall|t: int|
                    0 <= t < k ==> ((#[trigger] cs@[t])@) == crate::field::fneg(self.coeffs@[t]@)
                        && in_field(cs@[t]@),
            decreases self.coeffs.len() - k,
        {
            cs.push(self.coeffs[k].neg());
            k += 1;
        }
        self.like_coeffs(cs)
    }

    /// The polynomial scaled by a constant.
    pub fn mul_by_scalar(&self, c: Fe) -> (r: Dense)
        requires
            self.wf(),
            in_field(c@),
        ensures
            r.wf(),
            r.arity() == self.arity(),
            r.bound() == self.bound(),
            r.same_space(self),
            forall|k: int| 0 <= k < r.dim() ==> #[trigger] r.coeff_at(k) == fmul(
                c@,
                self.coeff_at(k),
            ),
            forall|k: int| 0 <= k < r.dim() ==> #[trigger] r.mon_at(k) == self.mon_at(k),
    {
        let mut cs: Vec<Fe> = Vec::new();
        let mut k: usize = 0;
        while k < self.coeffs.len()
            invariant
                self.wf(),
                in_field(c@),
                k <= self.coeffs@.len(),
                cs@.len() == k,
                forall|t: int|
                    0 <= t < k ==> ((#[trigger] cs@[t])@) == fmul(c@, self.coeffs@[t]@)
                        && in_field(cs@[t]@),
            decreases self.coeffs.len() - k,
        {
            cs.push(c.mul(self.coeffs[k]));
            k += 1;
        }
        self.like_coeffs(cs)
    }

    /// The polynomial added to itself.
    pub fn double(&self) -> (r: Dense)
        requires
            self.wf(),
        ensures
            r.wf(),
            r.arity() == self.arity(),
            r.bound() == self.bound(),
            r.same_space(self),
            forall|k: int| 0 <= k < r.dim() ==> #[trigger] r.coeff_at(k) == fadd(
                self.coeff_at(k),
                self.coeff_at(k),
            ),
    {
        self.add(self)
    }

    /// Evaluates the polynomial at a point.
    pub fn eval(&self, x: &Vec<Fe>) -> (r: Fe)
        requires
            self.wf(),
            x@.len() == self.arity(),
            forall|i: int| 0 <= i < x@.len() ==> in_field((#[trigger] x@[i])@),
        ensures
            r@ == dval(self.mons_seq(), self.coeffs_seq(), x@.map_values(|f: Fe| f@), 0),
            in_field(r@),
    {
        let ghost xs = x@.map_values(|f: Fe| f@);
        let mut acc = Fe::zero();
        let mut k: usize = 0;
        while k < self.coeffs.len()
            invariant
                self.wf(),
                xs == x@.map_values(|f: Fe| f@),
                x@.len() == self.arity(),
                forall|i: int| 0 <= i < x@.len() ==> in_field((#[trigger] x@[i])@),
                k <= self.coeffs@.len(),
                in_field(acc@),
                fadd(acc@, dval(self.mons@, self.coeffs@, xs, k as int)) == dval(
                    self.mons@,
                    self.coeffs@,
                    xs,
                    0,
                ),
            decreases self.coeffs.len() - k,
        {
            let mv = crate::monomial::mon_value(&self.mons[k], x);
            let term = self.coeffs[k].mul(mv);
            proof {
                crate::field::lemma_fadd_assoc(
                    acc@,
                    term@,
                    dval(self.mons@, self.coeffs@, xs, k as int + 1),
                );
            }
            acc = acc.add(term);
            k += 1;
        }
        proof {
            crate::field::lemma_fadd_zero(acc@);
        }
        acc
    }

    /// Whether all monomials with a non-zero coefficient share one total
    /// degree.
    pub fn is_homogeneous(&self) -> (r: bool)
        requires
            self.wf(),
        ensures
            r == (forall|k1: int, k2: int|
                0 <= k1 < self.dim() && 0 <= k2 < self.dim() && #[trigger] self.coeff_at(k1) != 0
                    && #[trigger] self.coeff_at(k2) != 0 ==> mdeg(self.mon_at(k1)) == mdeg(
                    self.mon_at(k2),
                )),
    {
        let mut first: usize = 0;
        while first < self.coeffs.len() && self.coeffs[first].is_zero()
            invariant
                self.wf(),
                first <= self.coeffs@.len(),
                forall|t: int| 0 <= t < first ==> (#[trigger] self.coeffs@[t])@ == 0,
            decreases self.coeffs.len() - first,
        {
            first += 1;
        }
        if first == self.coeffs.len() {
            return true;
        }
        proof {
            lemma_mdeg_nonneg(self.mons@[first as int]@, 0);
        }
        let d0 = crate::monomial::mon_deg(&self.mons[first]);
        let mut k: usize = first + 1;
        while k < self.coeffs.len()
            invariant
                self.wf(),
                first < self.coeffs@.len(),
                (self.coeffs@[first as int])@ != 0,
                forall|t: int| 0 <= t < first ==> (#[trigger] self.coeffs@[t])@ == 0,
                d0 == mdeg(self.mons@[first as int]@),
                first < k <= self.coeffs@.len(),
                forall|t: int|
                    first <= t < k && (#[trigger] self.coeffs@[t])@ != 0 ==> mdeg(self.mons@[t]@)
                        == d0,
            decreases self.coeffs.len() - k,
        {
            if !self.coeffs[k].is_zero() {
                proof {
                    lemma_mdeg_nonneg(self.mons@[k as int]@, 0);
                }
                let dk = crate::monomial::mon_deg(&self.mons[k]);
                if dk != d0 {
                    proof {
                        assert(self.coeff_at(first as int) != 0 && self.coeff_at(k as int) != 0
                            && mdeg(self.mon_at(first as int)) != mdeg(self.mon_at(k as int)));
                    }
                    return false;
                }
            }
            k += 1;
        }
        proof {
            assert forall|k1: int, k2: int|
                0 <= k1 < self.dim() && 0 <= k2 < self.dim() && #[trigger] self.coeff_at(k1) != 0
                    && #[trigger] self.coeff_at(k2) != 0 implies mdeg(self.mon_at(k1)) == mdeg(
                self.mon_at(k2),
            ) by {}
        }
        true
    }

    /// The product of two polynomials of one space.  The degrees must fit
    /// the bound: a product monomial beyond the bound is rejected, not
    /// truncated, so the caller guarantees the operands are compatible.
    pub fn mul(&self, other: &Dense) -> (r: Dense)
        requires
            self.wf(),
            other.wf(),
            self.same_space(other),
            forall|k1: int, k2: int|
                0 <= k1 < self.dim() && 0 <= k2 < self.dim() && #[trigger] self.coeff_at(k1) != 0
                    && #[trigger] other.coeff_at(k2) != 0 ==> mdeg(self.mon_at(k1)) + mdeg(
                    self.mon_at(k2),
                ) <= self.bound(),
        ensures
            r.wf(),
            r.arity() == self.arity(),
            r.bound() == self.bound(),
            r.same_space(self),
            forall|k: int| 0 <= k < r.dim() ==> #[trigger] r.coeff_at(k) == dconv(
                self.mons_seq(),
                self.coeffs_seq(),
                other.coeffs_seq(),
                self.mon_at(k),
                0,
            ),
            forall|k: int| 0 <= k < r.dim() ==> #[trigger] r.mon_at(k) == self.mon_at(k),
    {
        let ghost ms = self.mons@;
        let ghost pc = self.coeffs@;
        let ghost qc = other.coeffs@;
        let mut out: Vec<Fe> = Vec::new();
        let mut t0: usize = 0;
        while t0 < self.coeffs.len()
            invariant
                t0 <= self.coeffs@.len(),
                out@.len() == t0,
                forall|t: int| 0 <= t < t0 ==> ((#[trigger] out@[t])@) == 0,
            decreases self.coeffs.len() - t0,
        {
            out.push(Fe::zero());
            t0 += 1;
        }
        proof {
            assert forall|k: int| 0 <= k < ms.len() implies in_field((#[trigger] out@[k])@)
                && fadd(out@[k]@, dconv(ms, pc, qc, ms[k]@, 0)) == dconv(ms, pc, qc, ms[k]@, 0) by {
                lemma_dense_sums_in_field(ms, pc, qc, Seq::empty(), ms[k]@, ms[k]@, 0, 0);
                crate::field::lemma_fadd_zero(dconv(ms, pc, qc, ms[k]@, 0));
            }
            assert forall|k1: int, k2: int|
                0 <= k1 < ms.len() && 0 <= k2 < ms.len() && (#[trigger] pc[k1])@ != 0 && (
                #[trigger] qc[k2])@ != 0 implies mdeg(ms[k1]@) + mdeg(ms[k2]@) <= self.bound() by {
                assert(self.coeff_at(k1) != 0 && other.coeff_at(k2) != 0);
                assert(mdeg(self.mon_at(k1)) + mdeg(self.mon_at(k2)) <= self.bound());
            }
        }
        let mut i: usize = 0;
        while i < self.coeffs.len()
            invariant
                self.wf(),
                other.wf(),
                self.same_space(other),
                ms == self.mons@,
                pc == self.coeffs@,
                qc == other.coeffs@,
                forall|k1: int, k2: int|
                    0 <= k1 < ms.len() && 0 <= k2 < ms.len() && (#[trigger] pc[k1])@ != 0 && (
                    #[trigger] qc[k2])@ != 0 ==> mdeg(ms[k1]@) + mdeg(ms[k2]@) <= self.bound(),
                i <= ms.len(),
                out@.len() == ms.len(),
                forall|k: int|
                    0 <= k < ms.len() ==> in_field((#[trigger] out@[k])@) && fadd(
                        out@[k]@,
                        dconv(ms, pc, qc, ms[k]@, i as int),
                    ) == dconv(ms, pc, qc, ms[k]@, 0),
            decreases self.coeffs.len() - i,
        {
            let ci = self.coeffs[i];
            let mut j: usize = 0;
            proof {
                assert forall|k: int| 0 <= k < ms.len() implies fadd(
                    out@[k]@,
                    fadd(
                        dconv_row(ms[i as int]@, pc[i as int]@, ms, qc, ms[k]@, 0),
                        dconv(ms, pc, qc, ms[k]@, i as int + 1),
                    ),
                ) == dconv(ms, pc, qc, ms[k]@, 0) by {
                    assert(dconv(ms, pc, qc, ms[k]@, i as int) == fadd(
                        dconv_row(ms[i as int]@, pc[i as int]@, ms, qc, ms[k]@, 0),
                        dconv(ms, pc, qc, ms[k]@, i as int + 1),
                    ));
                }
            }
            while j < self.coeffs.len()
                invariant
                    self.wf(),
                    other.wf(),
                    self.same_space(other),
                    ms == self.mons@,
                    pc == self.coeffs@,
                    qc == other.coeffs@,
                    ci == self.coeffs@[i as int],
                    forall|k1: int, k2: int|
                        0 <= k1 < ms.len() && 0 <= k2 < ms.len() && (#[trigger] pc[k1])@ != 0 && (
                        #[trigger] qc[k2])@ != 0 ==> mdeg(ms[k1]@) + mdeg(ms[k2]@) <= self.bound(),
                    i < ms.len(),
                    j <= ms.len(),
                    out@.len() == ms.len(),
                    forall|k: int|
                        0 <= k < ms.len() ==> in_field((#[trigger] out@[k])@) && fadd(
                            out@[k]@,
                            fadd(
                                dconv_row(ms[i as int]@, pc[i as int]@, ms, qc, ms[k]@, j as int),
                                dconv(ms, pc, qc, ms[k]@, i as int + 1),
                            ),
                        ) == dconv(ms, pc, qc, ms[k]@, 0),
                decreases self.coeffs.len() - j,
            {
                let cj = other.coeffs[j];
                let ghost term_of = |k: int|
                    if ms[k]@ == add_mon(ms[i as int]@, ms[j as int]@) {
                        fmul(pc[i as int]@, qc[j as int]@)
                    } else {
                        0
                    };
                if !ci.is_zero() && !cj.is_zero() {
                    proof {
                        lemma_mdeg_nonneg(ms[i as int]@, 0);
                        lemma_mdeg_nonneg(ms[j as int]@, 0);
                        assert(ms[j as int]@ == other.mons@[j as int]@);
                        assert(mdeg(ms[i as int]@) + mdeg(ms[j as int]@) <= self.bound());
                    }
                    let target = crate::monomial::mon_add(&self.mons[i], &self.mons[j]);
                    let pos = self.position_of(&target);
                    let ghost oldout = out@;
                    let v = out[pos].add(ci.mul(cj));
                    out.remove(pos);
                    out.insert(pos, v);
                    proof {
                        assert forall|k: int|
                            0 <= k < ms.len() implies ((#[trigger] out@[k])@) == if k == pos as int {
                            fadd(oldout[k]@, fmul(pc[i as int]@, qc[j as int]@))
                        } else {
                            oldout[k]@
                        } by {
                            if k < pos {
                                assert(out@[k] == oldout[k]);
                            } else if k > pos {
                                assert(out@[k] == oldout[k]);
                            }
                        }
                        assert forall|k: int| 0 <= k < ms.len() implies in_field((
                        #[trigger] out@[k])@) && fadd(
                            out@[k]@,
                            fadd(
                                dconv_row(
                                    ms[i as int]@,
                                    pc[i as int]@,
                                    ms,
                                    qc,
                                    ms[k]@,
                                    j as int + 1,
                                ),
                                dconv(ms, pc, qc, ms[k]@, i as int + 1),
                            ),
                        ) == dconv(ms, pc, qc, ms[k]@, 0) by {
                            let rowj = dconv_row(ms[i as int]@, pc[i as int]@, ms, qc, ms[k]@,
                                j as int);
                            let rowj1 = dconv_row(ms[i as int]@, pc[i as int]@, ms, qc, ms[k]@,
                                j as int + 1);
                            let rest = dconv(ms, pc, qc, ms[k]@, i as int + 1);
                            assert(rowj == fadd(term_of(k), rowj1));
                            crate::field::lemma_fadd_assoc(oldout[k]@, term_of(k), fadd(
                                rowj1,
                                rest,
                            ));
                            crate::field::lemma_fadd_assoc(term_of(k), rowj1, rest);
                            if k == pos as int {
                                assert(ms[k]@ == add_mon(ms[i as int]@, ms[j as int]@));
                                assert(term_of(k) == fmul(pc[i as int]@, qc[j as int]@));
                            } else {
                                assert(ms[k]@ != ms[pos as int]@);
                                assert(term_of(k) == 0);
                                crate::field::lemma_fadd_zero(oldout[k]@);
                            }
                            crate::field::lemma_field_closed(oldout[k]@, term_of(k));
                        }
                    }
                } else {
                    proof {
                        assert forall|k: int| 0 <= k < ms.len() implies fadd(
                            out@[k]@,
                            fadd(
                                dconv_row(
                                    ms[i as int]@,
                                    pc[i as int]@,
                                    ms,
                                    qc,
                                    ms[k]@,
                                    j as int + 1,
                                ),
                                dconv(ms, pc, qc, ms[k]@, i as int + 1),
                            ),
                        ) == dconv(ms, pc, qc, ms[k]@, 0) by {
                            let rowj = dconv_row(ms[i as int]@, pc[i as int]@, ms, qc, ms[k]@,
                                j as int);
                            let rowj1 = dconv_row(ms[i as int]@, pc[i as int]@, ms, qc, ms[k]@,
                                j as int + 1);
                            let rest = dconv(ms, pc, qc, ms[k]@, i as int + 1);
                            assert(rowj == fadd(term_of(k), rowj1));
                            assert(term_of(k) == 0) by {
                                if ci@ == 0 {
                                    crate::field::lemma_fmul_zero(qc[j as int]@);
                                } else {
                                    crate::field::lemma_fmul_zero(pc[i as int]@);
                                }
                            }
                        }
                    }
                }
                j += 1;
            }
            proof {
                assert forall|k: int| 0 <= k < ms.len() implies fadd(
                    out@[k]@,
                    dconv(ms, pc, qc, ms[k]@, i as int + 1),
                ) == dconv(ms, pc, qc, ms[k]@, 0) by {
                    assert(dconv_row(ms[i as int]@, pc[i as int]@, ms, qc, ms[k]@, ms.len() as int)
                        == 0);
                    lemma_dense_sums_in_field(ms, pc, qc, Seq::empty(), ms[k]@, ms[k]@, 0,
                        i as int + 1);
                    crate::field::lemma_fadd_zero(dconv(ms, pc, qc, ms[k]@, i as int + 1));
                }
            }
            i += 1;
        }
        proof {
            assert forall|k: int| 0 <= k < ms.len() implies ((#[trigger] out@[k])@) == dconv(
                ms,
                pc,
                qc,
                ms[k]@,
                0,
            ) by {
                assert(dconv(ms, pc, qc, ms[k]@, ms.len() as int) == 0);
                crate::field::lemma_fadd_zero(out@[k]@);
            }
        }
        self.like_coeffs(out)
    }

    /// The same polynomial in the sparse representation.
    pub fn to_sparse(&self) -> (r: crate::sparse::Sparse)
        requires
            self.wf(),
        ensures
            r.wf(),
            r.arity() == self.arity(),
            r.bound() == self.bound(),
            forall|m: Seq<usize>| #[trigger] r.coeff(m) == self.coeff_of_mon(m),
    {
        let ghost ms = self.mons@;
        let ghost cs = self.coeffs@;
        let mut sp = crate::sparse::Sparse::zero(self.n, self.d);
        let mut k: usize = 0;
        proof {
            assert forall|m: Seq<usize>| #[trigger] fadd(sp.coeff(m), dsum(ms, cs, m, 0)) == dsum(
                ms,
                cs,
                m,
                0,
            ) by {
                lemma_dense_sums_in_field(ms, cs, cs, Seq::empty(), m, m, 0, 0);
            }
        }
        while k < self.coeffs.len()
            invariant
                self.wf(),
                ms == self.mons@,
                cs == self.coeffs@,
                sp.wf(),
                sp.arity() == self.arity(),
                sp.bound() == self.bound(),
                k <= ms.len(),
                forall|m: Seq<usize>| #[trigger] fadd(sp.coeff(m), dsum(ms, cs, m, k as int))
                    == dsum(ms, cs, m, 0),
            decreases self.coeffs.len() - k,
        {
            let ghost prev = sp;
            sp.add_monomial(&self.mons[k], self.coeffs[k]);
            proof {
                assert forall|m: Seq<usize>| #[trigger] fadd(
                    sp.coeff(m),
                    dsum(ms, cs, m, k as int + 1),
                ) == dsum(ms, cs, m, 0) by {
                    let term = if ms[k as int]@ == m {
                        cs[k as int]@
                    } else {
                        0
                    };
                    assert(dsum(ms, cs, m, k as int) == fadd(term, dsum(ms, cs, m, k as int + 1)));
                    prev.lemma_coeff_in_field(m);
                    if m == ms[k as int]@ {
                        assert(sp.coeff(m) == fadd(prev.coeff(m), cs[k as int]@));
                    } else {
                        assert(sp.coeff(m) == prev.coeff(m));
                        crate::field::lemma_fadd_zero(prev.coeff(m));
                    }
                    crate::field::lemma_fadd_assoc(prev.coeff(m), term, dsum(
                        ms,
                        cs,
                        m,
                        k as int + 1,
                    ));
                }
            }
            k += 1;
        }
        proof {
            assert forall|m: Seq<usize>| #[trigger] sp.coeff(m) == dsum(ms, cs, m, 0) by {
                assert(dsum(ms, cs, m, ms.len() as int) == 0);
                sp.lemma_coeff_in_field(m);
                crate::field::lemma_fadd_zero(sp.coeff(m));
            }
        }
        sp
    }

    /// The same polynomial in the dense representation, read off a sparse
    /// one.
    pub fn from_sparse(sp: &crate::sparse::Sparse) -> (r: Dense)
        requires
            sp.wf(),
            sp.bound() < usize::MAX,
            primes_exist(sp.arity() as nat),
            codes_fit(sp.arity(), sp.bound()),
        ensures
            r.wf(),
            r.arity() == sp.arity(),
            r.bound() == sp.bound(),
            forall|k: int| 0 <= k < r.dim() ==> #[trigger] r.coeff_at(k) == sp.coeff(r.mon_at(k)),
    {
        proof {
            sp.lemma_wf_facts();
        }
        let n = sp.num_vars();
        let d = sp.degree_bound();
        let base = Dense::new(n, d);
        let mut cs: Vec<Fe> = Vec::new();
        let mut k: usize = 0;
        while k < base.coeffs.len()
            invariant
                base.wf(),
                sp.wf(),
                base.coeffs@.len() == base.mons@.len(),
                k <= base.mons@.len(),
                cs@.len() == k,
                forall|t: int|
                    0 <= t < k ==> ((#[trigger] cs@[t])@) == sp.coeff(base.mons@[t]@) && in_field(
                        cs@[t]@,
                    ),
            decreases base.coeffs.len() - k,
        {
            let v = sp.coeff_value(&base.mons[k]);
            cs.push(v);
            k += 1;
        }
        base.like_coeffs(cs)
    }
}

/// The coefficient a dense store gives a stored monomial is the stored
/// coefficient.
proof fn lemma_dsum_at(mons: Seq<Vec<usize>>, cs: Seq<Fe>, k: int, t: int)
    requires
        mons.len() == cs.len(),
        forall|i: int, j: int|
            0 <= i < j < mons.len() ==> (#[trigger] mons[i])@ != (#[trigger] mons[j])@,
        forall|i: int| 0 <= i < cs.len() ==> in_field((#[trigger] cs[i])@),
        0 <= k < mons.len(),
        0 <= t <= mons.len(),
    ensures
        dsum(mons, cs, mons[k]@, t) == if t <= k {
            cs[k]@
        } else {
            0
        },
    decreases mons.len() - t,
{
    if t < mons.len() {
        lemma_dsum_at(mons, cs, k, t + 1);
        if t == k {
            crate::field::lemma_fadd_zero(cs[k]@);
        } else {
            assert(mons[t]@ != mons[k]@);
            if t < k {
                crate::field::lemma_fadd_zero(cs[k]@);
            } else {
                assert(fadd(0, 0) == 0);
            }
        }
    }
}

impl Dense {
    /// Looking a stored monomial up by value gives its positional
    /// coefficient, so the conversion contracts compose with the
    /// positional ones.
    pub proof fn lemma_coeff_of_mon_at(&self, k: int)
        requires
            self.wf(),
            0 <= k < self.dim(),
        ensures
            self.coeff_of_mon(self.mon_at(k)) == self.coeff_at(k),
    {
        lemma_dsum_at(self.mons@, self.coeffs@, k, 0);
    }
}

impl PartialEq for Dense {
    fn eq(&self, o: &Dense) -> (r: bool) {
        if self.n != o.n || self.d != o.d || self.mons.len() != o.mons.len()
            || self.coeffs.len() != o.coeffs.len() || self.codes.len() != o.codes.len() {
            return false;
        }
        let mut k: usize = 0;
        while k < self.mons.len()
            invariant
                self.mons@.len() == o.mons@.len(),
                k <= self.mons@.len(),
                forall|t: int| 0 <= t < k ==> (#[trigger] self.mons@[t])@ == o.mons@[t]@,
            decreases self.mons.len() - k,
        {
            if !mon_eq(&self.mons[k], &o.mons[k]) {
                return false;
            }
            k += 1;
        }
        let mut k1: usize = 0;
        while k1 < self.codes.len()
            invariant
                self.codes@.len() == o.codes@.len(),
                k1 <= self.codes@.len(),
                forall|t: int| 0 <= t < k1 ==> (#[trigger] self.codes@[t]) == o.codes@[t],
            decreases self.codes.len() - k1,
        {
            if self.codes[k1] != o.codes[k1] {
                return false;
            }
            k1 += 1;
        }
        let mut k2: usize = 0;
        while k2 < self.coeffs.len()
            invariant
                self.n == o.n,
                self.d == o.d,
                self.mons@.len() == o.mons@.len(),
                self.coeffs@.len() == o.coeffs@.len(),
                self.codes@.len() == o.codes@.len(),
                forall|t: int| 0 <= t < self.mons@.len() ==> (#[trigger] self.mons@[t])@
                    == o.mons@[t]@,
                forall|t: int| 0 <= t < self.codes@.len() ==> (#[trigger] self.codes@[t])
                    == o.codes@[t],
                k2 <= self.coeffs@.len(),
                forall|t: int| 0 <= t < k2 ==> (#[trigger] self.coeffs@[t])@ == o.coeffs@[t]@,
            decreases self.coeffs.len() - k2,
        {
            if !self.coeffs[k2].equals(&o.coeffs[k2]) {
                return false;
            }
            k2 += 1;
        }
        true
    }
}

impl vstd::std_specs::cmp::PartialEqSpecImpl for Dense {
    open spec fn obeys_eq_spec() -> bool {
        true
    }

    open spec fn eq_spec(&self, o: &Dense) -> bool {
        self.equiv(o)
    }
}

impl Dense {
    /// Equality of dense polynomials: same shape, the same monomial list
    /// and codes, and the same coefficients.
    pub closed spec fn equiv(&self, other: &Dense) -> bool {
        &&& self.n == other.n
        &&& self.d == other.d
        &&& self.mons@.len() == other.mons@.len()
        &&& self.codes@.len() == other.codes@.len()
        &&& self.coeffs@.len() == other.coeffs@.len()
        &&& forall|k: int|
            0 <= k < self.mons@.len() ==> (#[trigger] self.mons@[k])@ == other.mons@[k]@
        &&& forall|k: int|
            0 <= k < self.codes@.len() ==> (#[trigger] self.codes@[k]) == other.codes@[k]
        &&& forall|k: int|
            0 <= k < self.coeffs@.len() ==> (#[trigger] self.coeffs@[k])@ == other.coeffs@[k]@
    }
}

} // verus!
