//! Cross terms for folding.
//!
//! Folding combines two instances `(x1, u1)` and `(x2, u2)` of a degree-`d`
//! homogeneous relation under a challenge `r` into `(x1 + r x2, u1 + r u2)`.
//! The homogenized value of a polynomial at the combined instance is itself
//! a degree-`d` polynomial in `r`; its leading and constant coefficients are
//! the homogenized values at the two instances, and the `d - 1` middle
//! coefficients are the cross terms a folding step must transmit.
//!
//! The model below represents a polynomial in `r` by its coefficient
//! sequence.  Each stored monomial contributes a product of linear factors
//! `(x1[i] + r x2[i])`, one per unit of each exponent, padded by factors
//! `(u1 + r u2)` up to degree `d`; the products are expanded one linear
//! factor at a time.

use crate::field::{fadd, fmul, fpow, in_field, Fe};
use crate::monomial::{mdeg, mon_eval, mon_eval_from};
use crate::sparse::{entries_wf, hom_eval_at};
use vstd::prelude::*;

verus! {

/// The views of a vector of field elements.
pub open spec fn views(q: Seq<Fe>) -> Seq<int> {
    q.map_values(|f: Fe| f@)
}

/// Coefficient-wise evaluation of a polynomial in the challenge, by the
/// Horner scheme.
pub open spec fn rp_eval(q: Seq<int>, r: int) -> int
    decreases q.len(),
{
    if q.len() == 0 {
        0
    } else {
        fadd(q[0], fmul(r, rp_eval(q.drop_first(), r)))
    }
}

/// Multiplication of a coefficient sequence by the linear factor `a + r b`.
pub open spec fn mul_lin(q: Seq<int>, a: int, b: int) -> Seq<int> {
    Seq::new(
        q.len() + 1,
        |i: int|
            fadd(
                if i < q.len() {
                    fmul(a, q[i])
                } else {
                    0
                },
                if i >= 1 {
                    fmul(b, q[i - 1])
                } else {
                    0
                },
            ),
    )
}

/// `k`-fold multiplication by the same linear factor.
pub open spec fn pow_lin(q: Seq<int>, a: int, b: int, k: nat) -> Seq<int>
    decreases k,
{
    if k == 0 {
        q
    } else {
        mul_lin(pow_lin(q, a, b, (k - 1) as nat), a, b)
    }
}

/// The challenge polynomial of one monomial: the product of the linear
/// factors of its variables, from position `i` on.
pub open spec fn mon_rp(m: Seq<usize>, xs1: Seq<int>, xs2: Seq<int>, i: int) -> Seq<int>
    decreases m.len() - i,
{
    if i < 0 || i >= m.len() {
        seq![1int]
    } else {
        pow_lin(mon_rp(m, xs1, xs2, i + 1), xs1[i], xs2[i], m[i] as nat)
    }
}

/// The challenge polynomial of one monomial, padded by slack factors up to
/// degree `d`.
pub open spec fn hom_rp(
    m: Seq<usize>,
    xs1: Seq<int>,
    xs2: Seq<int>,
    u1: int,
    u2: int,
    d: int,
) -> Seq<int> {
    pow_lin(mon_rp(m, xs1, xs2, 0), u1, u2, (d - mdeg(m)) as nat)
}

/// A coefficient sequence scaled by a constant.
pub open spec fn scale_rp(c: int, q: Seq<int>) -> Seq<int> {
    Seq::new(q.len(), |i: int| fmul(c, q[i]))
}

/// The coefficient-wise sum of two sequences of one length.
pub open spec fn add_rp(q1: Seq<int>, q2: Seq<int>) -> Seq<int> {
    Seq::new(q1.len(), |i: int| fadd(q1[i], q2[i]))
}

/// The all-zero coefficient sequence of length `d + 1`.
pub open spec fn zero_rp(d: int) -> Seq<int> {
    Seq::new((d + 1) as nat, |i: int| 0int)
}

/// The challenge polynomial of a whole entry list from entry `j` on: the
/// sum of the scaled challenge polynomials of its monomials.
pub open spec fn cross_rp_from(
    es: Seq<(Vec<usize>, Fe)>,
    xs1: Seq<int>,
    xs2: Seq<int>,
    u1: int,
    u2: int,
    d: int,
    j: int,
) -> Seq<int>
    decreases es.len() - j,
{
    if j < 0 || j >= es.len() {
        zero_rp(d)
    } else {
        add_rp(
            scale_rp(es[j].1@, hom_rp(es[j].0@, xs1, xs2, u1, u2, d)),
            cross_rp_from(es, xs1, xs2, u1, u2, d, j + 1),
        )
    }
}

/// The challenge polynomial of a whole entry list.
pub open spec fn cross_rp(
    es: Seq<(Vec<usize>, Fe)>,
    xs1: Seq<int>,
    xs2: Seq<int>,
    u1: int,
    u2: int,
    d: int,
) -> Seq<int> {
    cross_rp_from(es, xs1, xs2, u1, u2, d, 0)
}

/// The combined point `x1 + r x2`.
pub open spec fn comb_point(xs1: Seq<int>, xs2: Seq<int>, r: int) -> Seq<int> {
    Seq::new(xs1.len(), |i: int| fadd(xs1[i], fmul(r, xs2[i])))
}

/// Lengths of the challenge polynomials.
pub proof fn lemma_pow_lin_len(q: Seq<int>, a: int, b: int, k: nat)
    ensures
        pow_lin(q, a, b, k).len() == q.len() + k,
    decreases k,
{
    if k > 0 {
        lemma_pow_lin_len(q, a, b, (k - 1) as nat);
    }
}

pub proof fn lemma_mon_rp_len(m: Seq<usize>, xs1: Seq<int>, xs2: Seq<int>, i: int)
    requires
        0 <= i,
    ensures
        mon_rp(m, xs1, xs2, i).len() == 1 + crate::monomial::mdeg_from(m, i),
    decreases m.len() - i,
{
    crate::monomial::lemma_mdeg_nonneg(m, i);
    if i < m.len() {
        lemma_mon_rp_len(m, xs1, xs2, i + 1);
        crate::monomial::lemma_mdeg_nonneg(m, i + 1);
        lemma_pow_lin_len(mon_rp(m, xs1, xs2, i + 1), xs1[i], xs2[i], m[i] as nat);
    }
}

pub proof fn lemma_hom_rp_len(m: Seq<usize>, xs1: Seq<int>, xs2: Seq<int>, u1: int, u2: int, d: int)
    requires
        0 <= mdeg(m) <= d,
    ensures
        hom_rp(m, xs1, xs2, u1, u2, d).len() == d + 1,
{
    lemma_mon_rp_len(m, xs1, xs2, 0);
    lemma_pow_lin_len(mon_rp(m, xs1, xs2, 0), u1, u2, (d - mdeg(m)) as nat);
}

pub proof fn lemma_cross_rp_len(
    es: Seq<(Vec<usize>, Fe)>,
    n: int,
    xs1: Seq<int>,
    xs2: Seq<int>,
    u1: int,
    u2: int,
    d: int,
    j: int,
)
    requires
        entries_wf(es, n, d),
        0 <= d,
    ensures
        cross_rp_from(es, xs1, xs2, u1, u2, d, j).len() == d + 1,
    decreases es.len() - j,
{
    if 0 <= j && j < es.len() {
        lemma_cross_rp_len(es, n, xs1, xs2, u1, u2, d, j + 1);
        crate::monomial::lemma_mdeg_nonneg(es[j].0@, 0);
        lemma_hom_rp_len(es[j].0@, xs1, xs2, u1, u2, d);
    }
}

/// Entry lists equal in view have the same challenge polynomial.
pub proof fn lemma_cross_rp_congruence(
    es1: Seq<(Vec<usize>, Fe)>,
    es2: Seq<(Vec<usize>, Fe)>,
    xs1: Seq<int>,
    xs2: Seq<int>,
    u1: int,
    u2: int,
    d: int,
    j: int,
)
    requires
        es1.len() == es2.len(),
        forall|i: int|
            0 <= i < es1.len() ==> (#[trigger] es1[i]).0@ == es2[i].0@ && es1[i].1@ == es2[i].1@,
        0 <= j,
    ensures
        cross_rp_from(es1, xs1, xs2, u1, u2, d, j) == cross_rp_from(es2, xs1, xs2, u1, u2, d, j),
    decreases es1.len() - j,
{
    if j < es1.len() {
        lemma_cross_rp_congruence(es1, es2, xs1, xs2, u1, u2, d, j + 1);
    }
}

/// Horner evaluation of a product by a linear factor.
#[verifier::rlimit(100)]
proof fn lemma_rp_eval_mul_lin(q: Seq<int>, a: int, b: int, r: int)
    ensures
        rp_eval(mul_lin(q, a, b), r) == fmul(fadd(a, fmul(b, r)), rp_eval(q, r)),
    decreases q.len(),
{
    let s = mul_lin(q, a, b);
    let af = fadd(a, fmul(b, r));
    if q.len() == 0 {
        assert(s.len() == 1);
        assert(s[0] == fadd(0, 0));
        assert(s.drop_first().len() == 0);
        assert(rp_eval(s.drop_first(), r) == 0);
        assert(rp_eval(s, r) == fadd(s[0], fmul(r, rp_eval(s.drop_first(), r))));
        crate::field::lemma_fmul_zero(r);
        crate::field::lemma_fmul_zero(af);
    } else {
        let q0 = q[0];
        let qd = q.drop_first();
        let sd = mul_lin(qd, a, b);
        let s2 = s.drop_first();
        lemma_rp_eval_mul_lin(qd, a, b, r);
        // the shifted tail agrees with the tail's product except at its head
        assert(s2.len() == sd.len());
        assert(s2.drop_first() =~= sd.drop_first()) by {
            assert forall|i: int| 0 <= i < s2.drop_first().len() implies s2.drop_first()[i]
                == sd.drop_first()[i] by {
                assert(s2.drop_first()[i] == s[i + 2]);
                assert(sd.drop_first()[i] == sd[i + 1]);
                if i + 2 < q.len() {
                    assert(qd[i + 1] == q[i + 2]);
                }
                assert(qd[i] == q[i + 1]);
            }
        }
        let f1 = if 1 < q.len() {
            fmul(a, q[1])
        } else {
            0
        };
        assert(s2[0] == s[1]);
        assert(s[1] == fadd(f1, fmul(b, q0)));
        assert(sd[0] == fadd(f1, 0)) by {
            if 0 < qd.len() {
                assert(qd[0] == q[1]);
            }
        }
        assert(sd[0] == f1) by {
            if 1 < q.len() {
                crate::field::lemma_field_closed(a, q[1]);
                crate::field::lemma_fadd_zero(fmul(a, q[1]));
            } else {
                crate::field::lemma_fadd_zero(0);
            }
        }
        let ev = fmul(r, rp_eval(s2.drop_first(), r));
        assert(rp_eval(s2, r) == fadd(fadd(f1, fmul(b, q0)), ev));
        assert(rp_eval(sd, r) == fadd(f1, ev)) by {
            assert(rp_eval(sd.drop_first(), r) == rp_eval(s2.drop_first(), r));
        }
        // move the bump past the tail sum
        crate::field::lemma_fadd_assoc(f1, fmul(b, q0), ev);
        crate::field::lemma_fadd_assoc(f1, ev, fmul(b, q0));
        assert(fadd(fmul(b, q0), ev) == fadd(ev, fmul(b, q0)));
        assert(rp_eval(s2, r) == fadd(rp_eval(sd, r), fmul(b, q0)));
        // assemble both sides
        assert(s[0] == fadd(fmul(a, q0), 0));
        assert(s[0] == fmul(a, q0)) by {
            crate::field::lemma_field_closed(a, q0);
            crate::field::lemma_fadd_zero(fmul(a, q0));
        }
        let evd = rp_eval(sd, r);
        let eqd = rp_eval(qd, r);
        assert(rp_eval(s, r) == fadd(fmul(a, q0), fmul(r, fadd(evd, fmul(b, q0)))));
        crate::field::lemma_fmul_distrib(r, evd, fmul(b, q0));
        assert(rp_eval(s, r) == fadd(
            fmul(a, q0),
            fadd(fmul(r, evd), fmul(r, fmul(b, q0))),
        ));
        // the right-hand side
        assert(rp_eval(q, r) == fadd(q0, fmul(r, eqd)));
        crate::field::lemma_fmul_distrib(af, q0, fmul(r, eqd));
        crate::field::lemma_fmul_comm(af, q0);
        crate::field::lemma_fmul_distrib_right(a, fmul(b, r), q0);
        // (b r) q0 == r (b q0)
        crate::field::lemma_fmul_comm(b, r);
        crate::field::lemma_fmul_assoc(r, b, q0);
        assert(fmul(fmul(b, r), q0) == fmul(r, fmul(b, q0)));
        // af (r eqd) == r evd
        crate::field::lemma_fmul_assoc(af, r, eqd);
        crate::field::lemma_fmul_comm(af, r);
        crate::field::lemma_fmul_assoc(r, af, eqd);
        assert(fmul(af, fmul(r, eqd)) == fmul(r, evd));
        assert(fmul(af, rp_eval(q, r)) == fadd(
            fadd(fmul(a, q0), fmul(r, fmul(b, q0))),
            fmul(r, evd),
        ));
        // regroup the three terms
        crate::field::lemma_fadd_assoc(fmul(a, q0), fmul(r, fmul(b, q0)), fmul(r, evd));
        assert(fadd(fmul(r, fmul(b, q0)), fmul(r, evd)) == fadd(
            fmul(r, evd),
            fmul(r, fmul(b, q0)),
        ));
        crate::field::lemma_fadd_assoc(fmul(a, q0), fmul(r, evd), fmul(r, fmul(b, q0)));
    }
}

/// Challenge-polynomial values are reduced field elements.
proof fn lemma_rp_eval_in_field(q: Seq<int>, r: int)
    ensures
        in_field(rp_eval(q, r)),
    decreases q.len(),
{
    if q.len() > 0 {
        crate::field::lemma_field_closed(q[0], fmul(r, rp_eval(q.drop_first(), r)));
    }
}

/// Horner evaluation of a power of a linear factor.
proof fn lemma_rp_eval_pow_lin(q: Seq<int>, a: int, b: int, k: nat, r: int)
    ensures
        rp_eval(pow_lin(q, a, b, k), r) == fmul(fpow(fadd(a, fmul(b, r)), k), rp_eval(q, r)),
    decreases k,
{
    let af = fadd(a, fmul(b, r));
    if k == 0 {
        lemma_rp_eval_in_field(q, r);
        crate::field::lemma_fmul_one(rp_eval(q, r));
    } else {
        lemma_rp_eval_pow_lin(q, a, b, (k - 1) as nat, r);
        lemma_rp_eval_mul_lin(pow_lin(q, a, b, (k - 1) as nat), a, b, r);
        crate::field::lemma_fmul_assoc(af, fpow(af, (k - 1) as nat), rp_eval(q, r));
    }
}

/// The value of a monomial's challenge polynomial is the monomial's value
/// at the combined point.
proof fn lemma_rp_eval_mon(
    m: Seq<usize>,
    xs1: Seq<int>,
    xs2: Seq<int>,
    r: int,
    i: int,
)
    requires
        0 <= i,
        m.len() <= xs1.len(),
        xs1.len() == xs2.len(),
    ensures
        rp_eval(mon_rp(m, xs1, xs2, i), r) == mon_eval_from(m, comb_point(xs1, xs2, r), i),
    decreases m.len() - i,
{
    if i >= m.len() {
        assert(mon_rp(m, xs1, xs2, i) =~= seq![1int]);
        assert(rp_eval(seq![1int], r) == fadd(1, fmul(r, rp_eval(seq![1int].drop_first(), r))));
        assert(seq![1int].drop_first().len() == 0);
        crate::field::lemma_fmul_zero(r);
        crate::field::lemma_fadd_zero(1);
    } else {
        lemma_rp_eval_mon(m, xs1, xs2, r, i + 1);
        lemma_rp_eval_pow_lin(mon_rp(m, xs1, xs2, i + 1), xs1[i], xs2[i], m[i] as nat, r);
        crate::field::lemma_fmul_comm(r, xs2[i]);
        assert(comb_point(xs1, xs2, r)[i] == fadd(xs1[i], fmul(xs2[i], r)));
    }
}

/// The value of a padded challenge polynomial is the monomial's homogenized
/// value at the combined instance.
proof fn lemma_rp_eval_hom(
    m: Seq<usize>,
    xs1: Seq<int>,
    xs2: Seq<int>,
    u1: int,
    u2: int,
    d: int,
    r: int,
)
    requires
        m.len() <= xs1.len(),
        xs1.len() == xs2.len(),
        0 <= mdeg(m) <= d,
    ensures
        rp_eval(hom_rp(m, xs1, xs2, u1, u2, d), r) == fmul(
            fpow(fadd(u1, fmul(u2, r)), (d - mdeg(m)) as nat),
            mon_eval(m, comb_point(xs1, xs2, r)),
        ),
{
    lemma_rp_eval_mon(m, xs1, xs2, r, 0);
    lemma_rp_eval_pow_lin(mon_rp(m, xs1, xs2, 0), u1, u2, (d - mdeg(m)) as nat, r);
}

/// The value of a scaled sequence.
proof fn lemma_rp_eval_scale(c: int, q: Seq<int>, r: int)
    ensures
        rp_eval(scale_rp(c, q), r) == fmul(c, rp_eval(q, r)),
    decreases q.len(),
{
    if q.len() == 0 {
        crate::field::lemma_fmul_zero(c);
    } else {
        assert(scale_rp(c, q).drop_first() =~= scale_rp(c, q.drop_first()));
        lemma_rp_eval_scale(c, q.drop_first(), r);
        assert(scale_rp(c, q)[0] == fmul(c, q[0]));
        crate::field::lemma_fmul_distrib(c, q[0], fmul(r, rp_eval(q.drop_first(), r)));
        // c (r e) == r (c e)
        let e = rp_eval(q.drop_first(), r);
        crate::field::lemma_fmul_assoc(c, r, e);
        crate::field::lemma_fmul_comm(c, r);
        crate::field::lemma_fmul_assoc(r, c, e);
    }
}

/// The value of a coefficient-wise sum.
proof fn lemma_rp_eval_add(q1: Seq<int>, q2: Seq<int>, r: int)
    requires
        q1.len() == q2.len(),
    ensures
        rp_eval(add_rp(q1, q2), r) == fadd(rp_eval(q1, r), rp_eval(q2, r)),
    decreases q1.len(),
{
    if q1.len() == 0 {
        assert(fadd(0, 0) == 0);
    } else {
        assert(add_rp(q1, q2).drop_first() =~= add_rp(q1.drop_first(), q2.drop_first()));
        lemma_rp_eval_add(q1.drop_first(), q2.drop_first(), r);
        assert(add_rp(q1, q2)[0] == fadd(q1[0], q2[0]));
        let e1 = rp_eval(q1.drop_first(), r);
        let e2 = rp_eval(q2.drop_first(), r);
        crate::field::lemma_fmul_distrib(r, e1, e2);
        crate::field::lemma_fadd_four(q1[0], q2[0], fmul(r, e1), fmul(r, e2));
    }
}

/// The value of the all-zero sequence.
proof fn lemma_rp_eval_zero(d: int, r: int)
    requires
        d >= -1,
    ensures
        rp_eval(zero_rp(d), r) == 0,
    decreases d + 1,
{
    if d >= 0 {
        assert(zero_rp(d).drop_first() =~= zero_rp(d - 1));
        lemma_rp_eval_zero(d - 1, r);
        crate::field::lemma_fmul_zero(r);
        assert(fadd(0, 0) == 0);
    }
}

/// The value of a list's challenge polynomial at the challenge is the
/// homogenized value of the list at the combined instance.
proof fn lemma_rp_eval_cross(
    es: Seq<(Vec<usize>, Fe)>,
    n: int,
    d: int,
    xs1: Seq<int>,
    xs2: Seq<int>,
    u1: int,
    u2: int,
    r: int,
    j: int,
)
    requires
        entries_wf(es, n, d),
        n <= xs1.len(),
        xs1.len() == xs2.len(),
        0 <= j,
        0 <= d,
    ensures
        rp_eval(cross_rp_from(es, xs1, xs2, u1, u2, d, j), r) == hom_from(
            es,
            comb_point(xs1, xs2, r),
            fadd(u1, fmul(u2, r)),
            d,
            j,
        ),
    decreases es.len() - j,
{
    if j >= es.len() {
        lemma_rp_eval_zero(d, r);
    } else {
        lemma_rp_eval_cross(es, n, d, xs1, xs2, u1, u2, r, j + 1);
        crate::monomial::lemma_mdeg_nonneg(es[j].0@, 0);
        lemma_rp_eval_hom(es[j].0@, xs1, xs2, u1, u2, d, r);
        lemma_rp_eval_scale(es[j].1@, hom_rp(es[j].0@, xs1, xs2, u1, u2, d), r);
        lemma_hom_rp_len(es[j].0@, xs1, xs2, u1, u2, d);
        lemma_cross_rp_len(es, n, xs1, xs2, u1, u2, d, j + 1);
        lemma_rp_eval_add(
            scale_rp(es[j].1@, hom_rp(es[j].0@, xs1, xs2, u1, u2, d)),
            cross_rp_from(es, xs1, xs2, u1, u2, d, j + 1),
            r,
        );
    }
}

/// The homogenized value of a list from entry `j` on.
pub open spec fn hom_from(es: Seq<(Vec<usize>, Fe)>, xs: Seq<int>, u: int, d: int, j: int) -> int
    decreases es.len() - j,
{
    if j < 0 || j >= es.len() {
        0
    } else {
        fadd(
            fmul(
                es[j].1@,
                fmul(fpow(u, (d - mdeg(es[j].0@)) as nat), mon_eval(es[j].0@, xs)),
            ),
            hom_from(es, xs, u, d, j + 1),
        )
    }
}

/// The suffix sums agree with the whole-list value.
pub proof fn lemma_hom_from_is_hom_eval(es: Seq<(Vec<usize>, Fe)>, xs: Seq<int>, u: int, d: int, j: int)
    requires
        0 <= j <= es.len(),
    ensures
        hom_from(es, xs, u, d, j) == hom_eval_at(es.skip(j), xs, u, d),
    decreases es.len() - j,
{
    if j >= es.len() {
        assert(es.skip(j).len() == 0);
    } else {
        lemma_hom_from_is_hom_eval(es, xs, u, d, j + 1);
        assert(es.skip(j)[0] == es[j]);
        assert(es.skip(j).drop_first() =~= es.skip(j + 1));
    }
}

/// The constant coefficient of a product by a linear factor.
proof fn lemma_mul_lin_const(q: Seq<int>, a: int, b: int)
    requires
        q.len() >= 1,
        in_field(q[0]),
    ensures
        mul_lin(q, a, b)[0] == fmul(a, q[0]),
        in_field(mul_lin(q, a, b)[0]),
{
    crate::field::lemma_field_closed(a, q[0]);
    crate::field::lemma_fadd_zero(fmul(a, q[0]));
}

/// The constant coefficient of a power of a linear factor.
proof fn lemma_pow_lin_const(q: Seq<int>, a: int, b: int, k: nat)
    requires
        q.len() >= 1,
        in_field(q[0]),
    ensures
        pow_lin(q, a, b, k)[0] == fmul(fpow(a, k), q[0]),
        in_field(pow_lin(q, a, b, k)[0]),
    decreases k,
{
    if k == 0 {
        crate::field::lemma_fmul_one(q[0]);
    } else {
        lemma_pow_lin_const(q, a, b, (k - 1) as nat);
        lemma_pow_lin_len(q, a, b, (k - 1) as nat);
        lemma_mul_lin_const(pow_lin(q, a, b, (k - 1) as nat), a, b);
        crate::field::lemma_fmul_assoc(a, fpow(a, (k - 1) as nat), q[0]);
        crate::field::lemma_field_closed(fpow(a, k), q[0]);
    }
}

/// The constant coefficient of a monomial's challenge polynomial is the
/// monomial's value at the first point.
proof fn lemma_mon_rp_const(m: Seq<usize>, xs1: Seq<int>, xs2: Seq<int>, i: int)
    requires
        0 <= i,
    ensures
        mon_rp(m, xs1, xs2, i)[0] == mon_eval_from(m, xs1, i),
        in_field(mon_rp(m, xs1, xs2, i)[0]),
    decreases m.len() - i,
{
    if i >= m.len() {
        assert(mon_rp(m, xs1, xs2, i)[0] == 1);
    } else {
        lemma_mon_rp_const(m, xs1, xs2, i + 1);
        lemma_mon_rp_len(m, xs1, xs2, i + 1);
        crate::monomial::lemma_mdeg_nonneg(m, i + 1);
        lemma_pow_lin_const(mon_rp(m, xs1, xs2, i + 1), xs1[i], xs2[i], m[i] as nat);
    }
}

/// The constant coefficient of the whole challenge polynomial is the
/// homogenized value at the first instance.
proof fn lemma_cross_rp_const(
    es: Seq<(Vec<usize>, Fe)>,
    n: int,
    xs1: Seq<int>,
    xs2: Seq<int>,
    u1: int,
    u2: int,
    d: int,
    j: int,
)
    requires
        entries_wf(es, n, d),
        0 <= d,
        0 <= j,
    ensures
        cross_rp_from(es, xs1, xs2, u1, u2, d, j)[0] == hom_from(es, xs1, u1, d, j),
    decreases es.len() - j,
{
    if j >= es.len() {
    } else {
        lemma_cross_rp_const(es, n, xs1, xs2, u1, u2, d, j + 1);
        crate::monomial::lemma_mdeg_nonneg(es[j].0@, 0);
        lemma_mon_rp_const(es[j].0@, xs1, xs2, 0);
        lemma_mon_rp_len(es[j].0@, xs1, xs2, 0);
        lemma_pow_lin_const(mon_rp(es[j].0@, xs1, xs2, 0), u1, u2, (d - mdeg(es[j].0@)) as nat);
        lemma_hom_rp_len(es[j].0@, xs1, xs2, u1, u2, d);
        lemma_cross_rp_len(es, n, xs1, xs2, u1, u2, d, j + 1);
    }
}

/// The leading coefficient of a product by a linear factor.
proof fn lemma_mul_lin_top(q: Seq<int>, a: int, b: int)
    requires
        q.len() >= 1,
        in_field(q[q.len() - 1]),
    ensures
        mul_lin(q, a, b)[q.len() as int] == fmul(b, q[q.len() - 1]),
        in_field(mul_lin(q, a, b)[q.len() as int]),
{
    crate::field::lemma_field_closed(b, q[q.len() - 1]);
    assert(mul_lin(q, a, b)[q.len() as int] == fadd(0, fmul(b, q[q.len() - 1])));
    crate::field::lemma_fadd_zero(fmul(b, q[q.len() - 1]));
}

/// The leading coefficient of a power of a linear factor.
proof fn lemma_pow_lin_top(q: Seq<int>, a: int, b: int, k: nat)
    requires
        q.len() >= 1,
        in_field(q[q.len() - 1]),
    ensures
        pow_lin(q, a, b, k)[q.len() + k - 1] == fmul(fpow(b, k), q[q.len() - 1]),
        in_field(pow_lin(q, a, b, k)[q.len() + k - 1]),
    decreases k,
{
    if k == 0 {
        crate::field::lemma_fmul_one(q[q.len() - 1]);
    } else {
        lemma_pow_lin_top(q, a, b, (k - 1) as nat);
        lemma_pow_lin_len(q, a, b, (k - 1) as nat);
        lemma_mul_lin_top(pow_lin(q, a, b, (k - 1) as nat), a, b);
        crate::field::lemma_fmul_assoc(b, fpow(b, (k - 1) as nat), q[q.len() - 1]);
        crate::field::lemma_field_closed(fpow(b, k), q[q.len() - 1]);
    }
}

/// The leading coefficient of a monomial's challenge polynomial is the
/// monomial's value at the second point.
proof fn lemma_mon_rp_top(m: Seq<usize>, xs1: Seq<int>, xs2: Seq<int>, i: int)
    requires
        0 <= i,
    ensures
        mon_rp(m, xs1, xs2, i)[crate::monomial::mdeg_from(m, i)] == mon_eval_from(m, xs2, i),
        in_field(mon_rp(m, xs1, xs2, i)[crate::monomial::mdeg_from(m, i)]),
    decreases m.len() - i,
{
    crate::monomial::lemma_mdeg_nonneg(m, i);
    if i >= m.len() {
        assert(mon_rp(m, xs1, xs2, i)[0] == 1);
    } else {
        lemma_mon_rp_top(m, xs1, xs2, i + 1);
        lemma_mon_rp_len(m, xs1, xs2, i + 1);
        crate::monomial::lemma_mdeg_nonneg(m, i + 1);
        lemma_pow_lin_top(mon_rp(m, xs1, xs2, i + 1), xs1[i], xs2[i], m[i] as nat);
    }
}

/// The leading coefficient of the whole challenge polynomial is the
/// homogenized value at the second instance.
proof fn lemma_cross_rp_top(
    es: Seq<(Vec<usize>, Fe)>,
    n: int,
    xs1: Seq<int>,
    xs2: Seq<int>,
    u1: int,
    u2: int,
    d: int,
    j: int,
)
    requires
        entries_wf(es, n, d),
        0 <= d,
        0 <= j,
    ensures
        cross_rp_from(es, xs1, xs2, u1, u2, d, j)[d] == hom_from(es, xs2, u2, d, j),
    decreases es.len() - j,
{
    if j >= es.len() {
    } else {
        lemma_cross_rp_top(es, n, xs1, xs2, u1, u2, d, j + 1);
        crate::monomial::lemma_mdeg_nonneg(es[j].0@, 0);
        lemma_mon_rp_top(es[j].0@, xs1, xs2, 0);
        lemma_mon_rp_len(es[j].0@, xs1, xs2, 0);
        let q0 = mon_rp(es[j].0@, xs1, xs2, 0);
        lemma_pow_lin_top(q0, u1, u2, (d - mdeg(es[j].0@)) as nat);
        lemma_hom_rp_len(es[j].0@, xs1, xs2, u1, u2, d);
        lemma_cross_rp_len(es, n, xs1, xs2, u1, u2, d, j + 1);
    }
}

/// Entries of the whole challenge polynomial are reduced.
pub proof fn lemma_cross_rp_in_field(
    es: Seq<(Vec<usize>, Fe)>,
    xs1: Seq<int>,
    xs2: Seq<int>,
    u1: int,
    u2: int,
    d: int,
    j: int,
    t: int,
)
    requires
        0 <= t < cross_rp_from(es, xs1, xs2, u1, u2, d, j).len(),
    ensures
        in_field(cross_rp_from(es, xs1, xs2, u1, u2, d, j)[t]),
{
    if j < 0 || j >= es.len() {
    } else {
        crate::field::lemma_field_closed(
            scale_rp(es[j].1@, hom_rp(es[j].0@, xs1, xs2, u1, u2, d))[t],
            cross_rp_from(es, xs1, xs2, u1, u2, d, j + 1)[t],
        );
    }
}

/// The power-sum form of a coefficient sequence's value.
pub open spec fn psum(q: Seq<int>, r: int, i: int) -> int
    decreases q.len() - i,
{
    if i < 0 || i >= q.len() {
        0
    } else {
        fadd(fmul(fpow(r, i as nat), q[i]), psum(q, r, i + 1))
    }
}

/// A challenge times a shifted power sum re-indexes the powers.
proof fn lemma_psum_shift(q: Seq<int>, r: int, i: int)
    requires
        0 <= i,
        q.len() >= 1,
    ensures
        fmul(r, psum(q.drop_first(), r, i)) == psum(q, r, i + 1),
    decreases q.len() - i,
{
    let qd = q.drop_first();
    assert(qd.len() == q.len() - 1);
    if i >= qd.len() {
        crate::field::lemma_fmul_zero(r);
    } else {
        lemma_psum_shift(q, r, i + 1);
        assert(qd[i] == q[i + 1]);
        crate::field::lemma_fmul_distrib(r, fmul(fpow(r, i as nat), qd[i]), psum(qd, r, i + 1));
        crate::field::lemma_fmul_assoc(r, fpow(r, i as nat), qd[i]);
        assert(fpow(r, (i + 1) as nat) == fmul(r, fpow(r, i as nat)));
    }
}

/// The Horner value equals the power sum.
proof fn lemma_rp_eval_is_psum(q: Seq<int>, r: int)
    ensures
        rp_eval(q, r) == psum(q, r, 0),
    decreases q.len(),
{
    if q.len() > 0 {
        lemma_rp_eval_is_psum(q.drop_first(), r);
        lemma_psum_shift(q, r, 0);
        assert(psum(q, r, 0) == fadd(fmul(fpow(r, 0), q[0]), psum(q, r, 1)));
        assert(fpow(r, 0) == 1);
        assert(1 * q[0] == q[0]);
        assert(fmul(1, q[0]) == q[0] % (crate::field::MODULUS as int));
        crate::field::lemma_fadd_reduce_left(q[0], psum(q, r, 1));
    }
}

/// Splitting the last term off a power sum.
proof fn lemma_psum_split_last(q: Seq<int>, r: int, i: int)
    requires
        0 <= i < q.len(),
    ensures
        psum(q, r, i) == fadd(
            psum(q.take(q.len() - 1), r, i),
            fmul(fpow(r, (q.len() - 1) as nat), q[q.len() - 1]),
        ),
    decreases q.len() - i,
{
    let qt = q.take(q.len() - 1);
    let last = fmul(fpow(r, (q.len() - 1) as nat), q[q.len() - 1]);
    if i == q.len() - 1 {
        assert(psum(q, r, i + 1) == 0);
        assert(psum(q, r, i) == fadd(last, 0));
        assert(psum(qt, r, i) == 0);
    } else {
        lemma_psum_split_last(q, r, i + 1);
        assert(qt[i] == q[i]);
        crate::field::lemma_fadd_assoc(fmul(fpow(r, i as nat), q[i]), psum(qt, r, i + 1), last);
    }
}

/// The cross-term sum: each returned power of the challenge times its
/// coefficient.
pub open spec fn cross_terms_sum(ct: Seq<(usize, Fe)>, r: int) -> int
    decreases ct.len(),
{
    if ct.len() == 0 {
        0
    } else {
        fadd(fmul(fpow(r, ct[0].0 as nat), ct[0].1@), cross_terms_sum(ct.drop_first(), r))
    }
}

/// The cross-term sum is the power sum of the coefficients it was read
/// from.
proof fn lemma_ct_psum(ct: Seq<(usize, Fe)>, q: Seq<int>, r: int, off: int)
    requires
        0 <= off,
        ct.len() + off == q.len(),
        forall|t: int| 0 <= t < ct.len() ==> (#[trigger] ct[t]).0 == off + t,
        forall|t: int| 0 <= t < ct.len() ==> (#[trigger] ct[t]).1@ == q[off + t],
    ensures
        cross_terms_sum(ct, r) == psum(q, r, off),
    decreases ct.len(),
{
    if ct.len() == 0 {
    } else {
        assert forall|t: int| 0 <= t < ct.drop_first().len() implies (#[trigger] ct.drop_first()[
            t]).0 == off + 1 + t && ct.drop_first()[t].1@ == q[off + 1 + t] by {
            assert(ct.drop_first()[t] == ct[t + 1]);
        }
        lemma_ct_psum(ct.drop_first(), q, r, off + 1);
        assert(ct[0].0 == off && ct[0].1@ == q[off]);
    }
}

/// Folding correctness: at every challenge, the homogenized value of the
/// combined instance is the first instance's homogenized value, plus the
/// challenge to the degree times the second instance's homogenized value,
/// plus the cross-term sum.
pub proof fn lemma_folding_law(
    es: Seq<(Vec<usize>, Fe)>,
    n: int,
    d: int,
    xs1: Seq<int>,
    xs2: Seq<int>,
    u1: int,
    u2: int,
    ct: Seq<(usize, Fe)>,
    r: int,
)
    requires
        entries_wf(es, n, d),
        1 <= d,
        n <= xs1.len(),
        xs1.len() == xs2.len(),
        ct.len() == d - 1,
        forall|t: int| 0 <= t < ct.len() ==> (#[trigger] ct[t]).0 == t + 1,
        forall|t: int|
            0 <= t < ct.len() ==> ((#[trigger] ct[t]).1)@ == cross_rp(es, xs1, xs2, u1, u2, d)[t
                + 1],
    ensures
        hom_eval_at(es, comb_point(xs1, xs2, r), fadd(u1, fmul(u2, r)), d) == fadd(
            fadd(
                hom_eval_at(es, xs1, u1, d),
                fmul(fpow(r, d as nat), hom_eval_at(es, xs2, u2, d)),
            ),
            cross_terms_sum(ct, r),
        ),
{
    let cr = cross_rp(es, xs1, xs2, u1, u2, d);
    lemma_cross_rp_len(es, n, xs1, xs2, u1, u2, d, 0);
    lemma_rp_eval_cross(es, n, d, xs1, xs2, u1, u2, r, 0);
    lemma_hom_from_is_hom_eval(es, comb_point(xs1, xs2, r), fadd(u1, fmul(u2, r)), d, 0);
    assert(es.skip(0) =~= es);
    lemma_rp_eval_is_psum(cr, r);
    lemma_cross_rp_const(es, n, xs1, xs2, u1, u2, d, 0);
    lemma_hom_from_is_hom_eval(es, xs1, u1, d, 0);
    lemma_cross_rp_top(es, n, xs1, xs2, u1, u2, d, 0);
    lemma_hom_from_is_hom_eval(es, xs2, u2, d, 0);
    let t0 = hom_eval_at(es, xs1, u1, d);
    let td = hom_eval_at(es, xs2, u2, d);
    assert(cr[0] == t0);
    assert(cr[d] == td);
    // peel the constant coefficient off the power sum
    assert(psum(cr, r, 0) == fadd(fmul(fpow(r, 0), cr[0]), psum(cr, r, 1)));
    lemma_cross_rp_in_field(es, xs1, xs2, u1, u2, d, 0, 0);
    crate::field::lemma_fmul_one(cr[0]);
    // split the leading coefficient off the remaining sum
    lemma_psum_split_last(cr, r, 1);
    lemma_ct_psum(ct, cr.take(d), r, 1);
    assert forall|t: int| 0 <= t < ct.len() implies ((#[trigger] ct[t]).1)@ == cr.take(d)[1
        + t] by {
        assert(cr.take(d)[1 + t] == cr[1 + t]);
    }
    let mid = cross_terms_sum(ct, r);
    let lastt = fmul(fpow(r, d as nat), cr[d]);
    assert(psum(cr, r, 1) == fadd(mid, lastt));
    // regroup into the stated shape
    crate::field::lemma_fadd_assoc(t0, mid, lastt);
    crate::field::lemma_fadd_assoc(t0, lastt, mid);
    assert(fadd(mid, lastt) == fadd(lastt, mid));
    assert(hom_eval_at(es, comb_point(xs1, xs2, r), fadd(u1, fmul(u2, r)), d) == fadd(
        t0,
        fadd(mid, lastt),
    ));
}

/// Multiplies a coefficient vector by the linear factor `a + r b`.
pub fn mul_lin_step(q: &Vec<Fe>, a: Fe, b: Fe) -> (r: Vec<Fe>)
    requires
        in_field(a@),
        in_field(b@),
        q@.len() < usize::MAX,
        forall|i: int| 0 <= i < q@.len() ==> in_field((#[trigger] q@[i])@),
    ensures
        r@.len() == q@.len() + 1,
        views(r@) == mul_lin(views(q@), a@, b@),
        forall|i: int| 0 <= i < r@.len() ==> in_field((#[trigger] r@[i])@),
{
    let ghost target = mul_lin(views(q@), a@, b@);
    let mut out: Vec<Fe> = Vec::new();
    let mut i: usize = 0;
    while i <= q.len()
        invariant
            in_field(a@),
            in_field(b@),
            q@.len() < usize::MAX,
            forall|t: int| 0 <= t < q@.len() ==> in_field((#[trigger] q@[t])@),
            target == mul_lin(views(q@), a@, b@),
            i <= q@.len() + 1,
            out@.len() == i,
            forall|t: int|
                0 <= t < i ==> ((#[trigger] out@[t])@) == target[t] && in_field(out@[t]@),
        decreases q.len() + 1 - i,
    {
        let lo = if i < q.len() {
            a.mul(q[i])
        } else {
            Fe::zero()
        };
        let hi = if i >= 1 {
            b.mul(q[i - 1])
        } else {
            Fe::zero()
        };
        let v = lo.add(hi);
        proof {
            assert(views(q@).len() == q@.len());
            if i < q.len() {
                assert(views(q@)[i as int] == q@[i as int]@);
            }
            if i >= 1 {
                assert(views(q@)[i as int - 1] == q@[i as int - 1]@);
            }
            assert(v@ == target[i as int]);
        }
        out.push(v);
        i += 1;
    }
    proof {
        assert(views(out@) =~= target);
    }
    out
}

} // verus!
