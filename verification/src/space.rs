//! The monomial indexer: the canonical enumeration of the monomials of a
//! shape, their count, and their prime-power codes.
//!
//! A monomial over `n` variables is encoded as the product of the first
//! `n` primes raised to its exponents, so that multiplying monomials is
//! multiplying codes.

use crate::monomial::{lemma_mdeg_nonneg, lex_lt, mdeg};
use crate::primes::prime_seq;
use vstd::arithmetic::power::pow;
use vstd::prelude::*;

verus! {

/// The prime-power code of a monomial, from position `i` on: the product
/// of the `i`-th and later primes raised to the exponents.
pub open spec fn code_from(m: Seq<usize>, ps: Seq<usize>, i: int) -> int
    decreases m.len() - i,
{
    if i < 0 || i >= m.len() {
        1
    } else {
        pow(ps[i] as int, m[i] as nat) * code_from(m, ps, i + 1)
    }
}

/// The prime-power code of a monomial.
pub open spec fn code_of(m: Seq<usize>, ps: Seq<usize>) -> int {
    code_from(m, ps, 0)
}

/// Whether all codes of monomials of a shape fit the machine word.  This
/// is the machine limit under which a dense polynomial of that shape can
/// exist at all.
pub open spec fn codes_fit(n: int, d: int) -> bool {
    forall|ps: Seq<usize>, m: Seq<usize>|
        prime_seq(ps) && ps.len() >= n && m.len() == n && mdeg(m) <= d ==> #[trigger] code_of(
            m,
            ps,
        ) <= usize::MAX as int
}

/// Codes are positive.
pub proof fn lemma_code_from_pos(m: Seq<usize>, ps: Seq<usize>, i: int)
    requires
        forall|j: int| 0 <= j < ps.len() ==> (#[trigger] ps[j]) >= 1,
        m.len() <= ps.len(),
    ensures
        code_from(m, ps, i) >= 1,
    decreases m.len() - i,
{
    if 0 <= i && i < m.len() {
        lemma_code_from_pos(m, ps, i + 1);
        assert(pow(ps[i] as int, m[i] as nat) >= 1) by {
            vstd::arithmetic::power::lemma_pow_positive(ps[i] as int, m[i] as nat);
        }
        assert(pow(ps[i] as int, m[i] as nat) * code_from(m, ps, i + 1) >= 1)
            by (nonlinear_arith)
            requires
                pow(ps[i] as int, m[i] as nat) >= 1,
                code_from(m, ps, i + 1) >= 1,
        ;
    }
}

/// Computes the code of a monomial over the given primes.  The codes of
/// the whole shape fit the machine word, so no step can overflow.
pub fn encode_monomial(m: &Vec<usize>, ps: &Vec<usize>) -> (r: usize)
    requires
        m@.len() <= ps@.len(),
        prime_seq(ps@),
        codes_fit(m@.len() as int, mdeg(m@)),
    ensures
        r as int == code_of(m@, ps@),
        r >= 1,
{
    proof {
        crate::monomial::lemma_mdeg_nonneg(m@, 0);
        assert(code_of(m@, ps@) <= usize::MAX as int);
        assert forall|j: int| 0 <= j < ps@.len() implies (#[trigger] ps@[j]) >= 1 by {
            assert(crate::primes::is_prime_spec(ps@[j] as int));
        }
        lemma_code_from_pos(m@, ps@, 0);
    }
    let mut acc: usize = 1;
    let mut i: usize = 0;
    while i < m.len()
        invariant
            m@.len() <= ps@.len(),
            forall|j: int| 0 <= j < ps@.len() ==> (#[trigger] ps@[j]) >= 1,
            i <= m@.len(),
            acc >= 1,
            (acc as int) * code_from(m@, ps@, i as int) == code_of(m@, ps@),
            code_of(m@, ps@) <= usize::MAX as int,
        decreases m@.len() - i,
    {
        let p = ps[i];
        let e = m[i];
        let mut k: usize = 0;
        proof {
            vstd::arithmetic::power::lemma_pow0(p as int);
        }
        while k < e
            invariant
                m@.len() <= ps@.len(),
                forall|j: int| 0 <= j < ps@.len() ==> (#[trigger] ps@[j]) >= 1,
                i < m@.len(),
                p == ps@[i as int],
                e == m@[i as int],
                k <= e,
                acc >= 1,
                (acc as int) * (pow(p as int, (e - k) as nat) * code_from(m@, ps@, i as int + 1))
                    == code_of(m@, ps@),
                code_of(m@, ps@) <= usize::MAX as int,
            decreases e - k,
        {
            proof {
                let rest = pow(p as int, (e - k - 1) as nat) * code_from(m@, ps@, i as int + 1);
                assert(pow(p as int, (e - k) as nat) == (p as int) * pow(
                    p as int,
                    (e - k - 1) as nat,
                )) by {
                    vstd::arithmetic::power::lemma_pow1(p as int);
                    vstd::arithmetic::power::lemma_pow_adds(
                        p as int,
                        1nat,
                        (e - k - 1) as nat,
                    );
                }
                assert((acc as int) * (pow(p as int, (e - k) as nat) * code_from(
                    m@,
                    ps@,
                    i as int + 1,
                )) == ((acc as int) * (p as int)) * rest) by (nonlinear_arith)
                    requires
                        pow(p as int, (e - k) as nat) == (p as int) * pow(
                            p as int,
                            (e - k - 1) as nat,
                        ),
                        rest == pow(p as int, (e - k - 1) as nat) * code_from(
                            m@,
                            ps@,
                            i as int + 1,
                        ),
                ;
                lemma_code_from_pos(m@, ps@, i as int + 1);
                assert(pow(p as int, (e - k - 1) as nat) >= 1) by {
                    vstd::arithmetic::power::lemma_pow_positive(p as int, (e - k - 1) as nat);
                }
                assert(rest >= 1) by (nonlinear_arith)
                    requires
                        rest == pow(p as int, (e - k - 1) as nat) * code_from(
                            m@,
                            ps@,
                            i as int + 1,
                        ),
                        pow(p as int, (e - k - 1) as nat) >= 1,
                        code_from(m@, ps@, i as int + 1) >= 1,
                ;
                assert((acc as int) * (p as int) <= usize::MAX as int) by (nonlinear_arith)
                    requires
                        ((acc as int) * (p as int)) * rest == code_of(m@, ps@),
                        code_of(m@, ps@) <= usize::MAX as int,
                        rest >= 1,
                        acc >= 1,
                        p >= 1,
                ;
                assert((acc as int) * (p as int) >= 1) by (nonlinear_arith)
                    requires
                        acc >= 1,
                        p >= 1,
                ;
            }
            acc = acc * p;
            k += 1;
        }
        proof {
            assert((e - e) as nat == 0nat);
            vstd::arithmetic::power::lemma_pow0(p as int);
            assert(pow(p as int, 0nat) * code_from(m@, ps@, i as int + 1) == code_from(
                m@,
                ps@,
                i as int + 1,
            )) by (nonlinear_arith)
                requires
                    pow(p as int, 0nat) == 1,
            ;
        }
        i += 1;
    }
    proof {
        assert(code_from(m@, ps@, m@.len() as int) == 1);
    }
    acc
}

/// Generates every exponent tuple of the given length with total degree at
/// most `d`, in lexicographic order.
pub fn enumerate_monomials(n: usize, d: usize) -> (r: Vec<Vec<usize>>)
    requires
        d < usize::MAX,
    ensures
        r@.len() == mons_count(n as int, d as int),
        forall|k: int|
            0 <= k < r@.len() ==> (#[trigger] r@[k])@.len() == n && mdeg(r@[k]@) <= d,
        forall|m: Seq<usize>|
            m.len() == n && mdeg(m) <= d ==> exists|k: int|
                0 <= k < r@.len() && (#[trigger] r@[k])@ == m,
        forall|k: int| 0 <= k && k + 1 < r@.len() ==> lex_lt((#[trigger] r@[k])@, r@[k + 1]@),
    decreases n,
{
    let mut out: Vec<Vec<usize>> = Vec::new();
    if n == 0 {
        let empty: Vec<usize> = Vec::new();
        out.push(empty);
        proof {
            assert(out@[0]@.len() == 0);
            assert(mdeg(out@[0]@) == 0);
            assert forall|m: Seq<usize>| m.len() == n && mdeg(m) <= d implies exists|k: int|
                0 <= k < out@.len() && (#[trigger] out@[k])@ == m by {
                assert(out@[0]@ =~= m);
            }
        }
        return out;
    }
    let mut e: usize = 0;
    while e <= d
        invariant
            n >= 1,
            d < usize::MAX,
            e <= d + 1,
            out@.len() == mons_count_sum(n as int - 1, d as int) - mons_count_sum(
                n as int - 1,
                d as int - e,
            ),
            forall|k: int|
                0 <= k < out@.len() ==> (#[trigger] out@[k])@.len() == n && mdeg(out@[k]@) <= d
                    && (out@[k]@[0] as int) < e,
            forall|m: Seq<usize>|
                m.len() == n && mdeg(m) <= d && (m[0] as int) < e ==> exists|k: int|
                    0 <= k < out@.len() && (#[trigger] out@[k])@ == m,
            forall|k: int|
                0 <= k && k + 1 < out@.len() ==> lex_lt((#[trigger] out@[k])@, out@[k + 1]@),
        decreases d + 1 - e,
    {
        let sub = enumerate_monomials(n - 1, d - e);
        let ghost base = out@.len();
        let mut t: usize = 0;
        while t < sub.len()
            invariant
                n >= 1,
                e <= d,
                base == mons_count_sum(n as int - 1, d as int) - mons_count_sum(
                    n as int - 1,
                    d as int - e,
                ),
                sub@.len() == mons_count(n as int - 1, d as int - e),
                forall|m: Seq<usize>|
                    m.len() == n && mdeg(m) <= d && (m[0] as int) < e ==> exists|k: int|
                        0 <= k < out@.len() && (#[trigger] out@[k])@ == m,
                forall|k: int|
                    0 <= k < sub@.len() ==> (#[trigger] sub@[k])@.len() == n - 1 && mdeg(
                        sub@[k]@,
                    ) <= d - e,
                forall|k: int|
                    0 <= k && k + 1 < sub@.len() ==> lex_lt((#[trigger] sub@[k])@, sub@[k + 1]@),
                t <= sub@.len(),
                out@.len() == base + t,
                forall|k: int|
                    0 <= k < base ==> (#[trigger] out@[k])@.len() == n && mdeg(out@[k]@) <= d
                        && (out@[k]@[0] as int) < e,
                forall|k: int|
                    base <= k < out@.len() ==> (#[trigger] out@[k])@ == seq![e].add(
                        sub@[k - base]@,
                    ),
                forall|k: int|
                    base <= k < out@.len() ==> (#[trigger] out@[k])@.len() == n && mdeg(
                        out@[k]@,
                    ) <= d && out@[k]@[0] == e,
                forall|k: int|
                    0 <= k && k + 1 < out@.len() ==> lex_lt((#[trigger] out@[k])@, out@[k + 1]@),
            decreases sub.len() - t,
        {
            let mut item: Vec<usize> = Vec::new();
            item.push(e);
            let tail = &sub[t];
            let mut w: usize = 0;
            while w < tail.len()
                invariant
                    w <= tail@.len(),
                    item@.len() == 1 + w,
                    item@[0] == e,
                    forall|x: int| 0 <= x < w ==> (#[trigger] item@[x + 1]) == tail@[x],
                decreases tail.len() - w,
            {
                item.push(tail[w]);
                w += 1;
            }
            proof {
                assert forall|x: int| 0 <= x < item@.len() implies item@[x] == seq![e].add(
                    sub@[t as int]@,
                )[x] by {
                    if x >= 1 {
                        assert(item@[(x - 1) + 1] == tail@[x - 1]);
                    }
                }
                assert(item@ =~= seq![e].add(sub@[t as int]@));
                crate::monomial::lemma_mdeg_prepend(e, sub@[t as int]@);
            }
            let ghost oldout = out@;
            out.push(item);
            proof {
                assert forall|m: Seq<usize>|
                    m.len() == n && mdeg(m) <= d && (m[0] as int) < e implies exists|k: int|
                    0 <= k < out@.len() && (#[trigger] out@[k])@ == m by {
                    let k = choose|k: int| 0 <= k < oldout.len() && (#[trigger] oldout[k])@ == m;
                    assert(out@[k] == oldout[k]);
                }
            }
            proof {
                let newlen = out@.len();
                if t > 0 {
                    crate::monomial::lemma_lex_prepend(e, sub@[t as int - 1]@, sub@[t as int]@);
                    assert(lex_lt(out@[newlen - 2]@, out@[newlen - 1]@));
                } else if base > 0 {
                    assert((out@[base - 1]@[0] as int) < e);
                    assert(lex_lt(out@[base - 1]@, out@[base as int]@));
                }
            }
            t += 1;
        }
        proof {
            // the block for this leading exponent is complete
            assert forall|m: Seq<usize>|
                m.len() == n && mdeg(m) <= d && (m[0] as int) < e + 1 implies exists|k: int|
                0 <= k < out@.len() && (#[trigger] out@[k])@ == m by {
                if (m[0] as int) == e {
                    let tl = m.drop_first();
                    assert(m =~= seq![e].add(tl));
                    crate::monomial::lemma_mdeg_prepend(e, tl);
                    assert(tl.len() == n - 1 && mdeg(tl) <= d - e);
                    let k = choose|k: int| 0 <= k < sub@.len() && (#[trigger] sub@[k])@ == tl;
                    assert(out@[base + k]@ == seq![e].add(sub@[k]@));
                    assert(out@[base + k]@ == m);
                }
            }
        }
        proof {
            assert(mons_count_sum(n as int - 1, d as int - e) == mons_count_sum(
                n as int - 1,
                d as int - e - 1,
            ) + mons_count(n as int - 1, d as int - e));
        }
        e += 1;
    }
    proof {
        assert(mons_count_sum(n as int - 1, d as int - (d + 1)) == 0);
        assert(out@.len() == mons_count_sum(n as int - 1, d as int));
        assert forall|m: Seq<usize>| m.len() == n && mdeg(m) <= d implies exists|k: int|
            0 <= k < out@.len() && (#[trigger] out@[k])@ == m by {
            crate::monomial::lemma_exp_le_mdeg(m, 0);
            lemma_mdeg_nonneg(m, 0);
            assert((m[0] as int) < d + 1);
        }
    }
    out
}

/// Entries of a strictly lexicographically sorted list are pairwise
/// distinct.
pub proof fn lemma_lex_sorted_distinct(v: Seq<Vec<usize>>, n: int, a: int, b: int)
    requires
        forall|k: int| 0 <= k < v.len() ==> (#[trigger] v[k])@.len() == n,
        forall|k: int| 0 <= k && k + 1 < v.len() ==> lex_lt((#[trigger] v[k])@, v[k + 1]@),
        0 <= a < b < v.len(),
    ensures
        lex_lt(v[a]@, v[b]@),
        v[a]@ != v[b]@,
    decreases b - a,
{
    if a + 1 < b {
        lemma_lex_sorted_distinct(v, n, a + 1, b);
        crate::monomial::lemma_lex_trans(v[a]@, v[a + 1]@, v[b]@);
    }
    crate::monomial::lemma_lex_trichotomy(v[a]@, v[b]@);
}

/// Two prime tables give every monomial the same code.
pub proof fn lemma_code_same(m: Seq<usize>, ps1: Seq<usize>, ps2: Seq<usize>, i: int)
    requires
        prime_seq(ps1),
        prime_seq(ps2),
        m.len() <= ps1.len(),
        m.len() <= ps2.len(),
    ensures
        code_from(m, ps1, i) == code_from(m, ps2, i),
    decreases m.len() - i,
{
    if 0 <= i && i < m.len() {
        lemma_code_same(m, ps1, ps2, i + 1);
        crate::primes::lemma_prime_seq_agree(ps1, ps2, i);
    }
}

/// The number of monomials over `n` variables with degree at most `d`.
pub open spec fn mons_count(n: int, d: int) -> int
    decreases n, 0int, 0int,
{
    if n <= 0 {
        1
    } else {
        mons_count_sum(n - 1, d)
    }
}

/// The number of monomials over `n` variables with degree at most `j`,
/// summed over `j` up to `d`.
pub open spec fn mons_count_sum(n: int, d: int) -> int
    decreases n, 1int, d + 1,
{
    if d < 0 {
        0
    } else {
        mons_count_sum(n, d - 1) + mons_count(n, d)
    }
}


/// The binomial coefficient, by Pascal's rule.
pub open spec fn binom(a: int, b: int) -> int
    decreases a,
{
    if b <= 0 || b >= a {
        1
    } else {
        binom(a - 1, b - 1) + binom(a - 1, b)
    }
}

/// The number of monomials of a shape is a binomial coefficient.
pub proof fn lemma_count_is_binom(n: int, d: int)
    requires
        0 <= n,
        0 <= d,
    ensures
        mons_count(n, d) == binom(n + d, d),
    decreases n, 0int, 0int,
{
    if n == 0 {
    } else {
        lemma_count_sum_is_binom(n - 1, d);
    }
}

proof fn lemma_count_sum_is_binom(n: int, d: int)
    requires
        0 <= n,
        0 <= d,
    ensures
        mons_count_sum(n, d) == binom(n + d + 1, d),
    decreases n, 1int, d + 1,
{
    if d == 0 {
        lemma_count_is_binom(n, 0);
        assert(mons_count_sum(n, -1) == 0);
    } else {
        lemma_count_sum_is_binom(n, d - 1);
        lemma_count_is_binom(n, d);
        assert(binom(n + d + 1, d) == binom(n + d, d - 1) + binom(n + d, d));
    }
}

/// The number of monomials of the shape: the length of the dense
/// coefficient vector a polynomial of the shape would need.  It is the
/// binomial coefficient of `n + d` over `d`.
pub fn dimension(n: usize, d: usize) -> (r: usize)
    requires
        d < usize::MAX,
    ensures
        r == mons_count(n as int, d as int),
        r == binom(n as int + d as int, d as int),
{
    proof {
        lemma_count_is_binom(n as int, d as int);
    }
    let mons = enumerate_monomials(n, d);
    mons.len()
}

} // verus!
