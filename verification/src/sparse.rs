//! Sparse multivariate polynomials: only monomials with a non-zero
//! coefficient are stored.
//!
//! The entries are kept in strictly increasing lexicographic order of their
//! exponent tuples, never hold the additive identity, and all share the
//! polynomial's arity `n` and degree bound `d`.  This makes the stored form
//! of a polynomial unique, so structural equality is equality of
//! polynomials.

use crate::field::{fadd, fmul, fpow, in_field, Fe};
use crate::monomial::{
    copy_mon, lemma_lex_trans, lemma_lex_trichotomy, lemma_mdeg_nonneg, lemma_zero_mon_deg,
    add_mon, lex_less, lex_lt, mdeg, mon_eq, mon_eval, zero_mon, zero_mon_exec,
};
use vstd::prelude::*;

verus! {

/// The coefficient that a stored entry list gives a monomial, scanning from
/// the front; the additive identity if the monomial is not stored.
pub open spec fn coeff_of(es: Seq<(Vec<usize>, Fe)>, m: Seq<usize>) -> int
    decreases es.len(),
{
    if es.len() == 0 {
        0
    } else if es[0].0@ == m {
        es[0].1@
    } else {
        coeff_of(es.drop_first(), m)
    }
}

/// Well-formedness of a stored entry list for arity `n` and bound `d`.
pub open spec fn entries_wf(es: Seq<(Vec<usize>, Fe)>, n: int, d: int) -> bool {
    &&& forall|i: int| 0 <= i < es.len() ==> (#[trigger] es[i]).0@.len() == n
    &&& forall|i: int| 0 <= i < es.len() ==> mdeg((#[trigger] es[i]).0@) <= d
    &&& forall|i: int|
        0 <= i < es.len() ==> in_field((#[trigger] es[i]).1@) && (es[i]).1@ != 0
    &&& forall|i: int| 0 <= i && i + 1 < es.len() ==> lex_lt((#[trigger] es[i]).0@, es[i + 1].0@)
}

/// Entries of a well-formed list are pairwise ordered.
proof fn lemma_entries_increasing(es: Seq<(Vec<usize>, Fe)>, n: int, d: int, a: int, b: int)
    requires
        entries_wf(es, n, d),
        0 <= a < b < es.len(),
    ensures
        lex_lt(es[a].0@, es[b].0@),
    decreases b - a,
{
    if a + 1 < b {
        lemma_entries_increasing(es, n, d, a + 1, b);
        lemma_lex_trans(es[a].0@, es[a + 1].0@, es[b].0@);
    }
}

/// A monomial stored nowhere has coefficient zero.
proof fn lemma_coeff_absent(es: Seq<(Vec<usize>, Fe)>, m: Seq<usize>)
    requires
        forall|t: int| 0 <= t < es.len() ==> (#[trigger] es[t]).0@ != m,
    ensures
        coeff_of(es, m) == 0,
    decreases es.len(),
{
    if es.len() > 0 {
        lemma_coeff_absent(es.drop_first(), m);
    }
}

/// The coefficient of a stored monomial is its stored value, provided no
/// earlier entry stores the same monomial.
proof fn lemma_coeff_at(es: Seq<(Vec<usize>, Fe)>, k: int)
    requires
        0 <= k < es.len(),
        forall|t: int| 0 <= t < k ==> (#[trigger] es[t]).0@ != es[k].0@,
    ensures
        coeff_of(es, es[k].0@) == es[k].1@,
    decreases k,
{
    if k > 0 {
        assert(es.drop_first()[k - 1] == es[k]);
        assert forall|t: int| 0 <= t < k - 1 implies (#[trigger] es.drop_first()[t]).0@ != es[
            k].0@ by {
            assert(es.drop_first()[t] == es[t + 1]);
        }
        lemma_coeff_at(es.drop_first(), k - 1);
    }
}

/// Inserting an entry for a new monomial adds exactly that coefficient.
proof fn lemma_coeff_insert(es: Seq<(Vec<usize>, Fe)>, k: int, e: (Vec<usize>, Fe))
    requires
        0 <= k <= es.len(),
        forall|t: int| 0 <= t < es.len() ==> (#[trigger] es[t]).0@ != e.0@,
    ensures
        forall|m: Seq<usize>| #[trigger] coeff_of(es.insert(k, e), m) == if m == e.0@ {
            e.1@
        } else {
            coeff_of(es, m)
        },
    decreases k,
{
    let es2 = es.insert(k, e);
    if k == 0 {
        assert(es2.drop_first() =~= es);
        assert forall|m: Seq<usize>| #[trigger] coeff_of(es2, m) == if m == e.0@ {
            e.1@
        } else {
            coeff_of(es, m)
        } by {
            if m == e.0@ {
                assert(es2[0] == e);
            } else {
                assert(es2[0] == e);
                assert(coeff_of(es2, m) == coeff_of(es, m));
            }
        }
    } else {
        assert(es2.drop_first() =~= es.drop_first().insert(k - 1, e));
        assert forall|t: int| 0 <= t < es.drop_first().len() implies (#[trigger] es.drop_first()[
            t]).0@ != e.0@ by {
            assert(es.drop_first()[t] == es[t + 1]);
        }
        lemma_coeff_insert(es.drop_first(), k - 1, e);
        assert forall|m: Seq<usize>| #[trigger] coeff_of(es2, m) == if m == e.0@ {
            e.1@
        } else {
            coeff_of(es, m)
        } by {
            assert(es2[0] == es[0]);
            if es[0].0@ == m {
            } else {
                assert(coeff_of(es2, m) == coeff_of(es2.drop_first(), m));
            }
        }
    }
}

/// Removing an entry zeroes exactly that monomial's coefficient, provided
/// the stored monomials are distinct.
proof fn lemma_coeff_remove(es: Seq<(Vec<usize>, Fe)>, k: int)
    requires
        0 <= k < es.len(),
        forall|t: int| 0 <= t < es.len() && t != k ==> (#[trigger] es[t]).0@ != es[k].0@,
    ensures
        forall|m: Seq<usize>| #[trigger] coeff_of(es.remove(k), m) == if m == es[k].0@ {
            0
        } else {
            coeff_of(es, m)
        },
    decreases k,
{
    let es2 = es.remove(k);
    if k == 0 {
        assert(es2 =~= es.drop_first());
        assert forall|m: Seq<usize>| #[trigger] coeff_of(es2, m) == if m == es[0].0@ {
            0
        } else {
            coeff_of(es, m)
        } by {
            if m == es[0].0@ {
                assert forall|t: int| 0 <= t < es2.len() implies (#[trigger] es2[t]).0@ != m by {
                    assert(es2[t] == es[t + 1]);
                }
                lemma_coeff_absent(es2, m);
            }
        }
    } else {
        assert(es2.drop_first() =~= es.drop_first().remove(k - 1));
        assert(es.drop_first()[k - 1] == es[k]);
        assert forall|t: int|
            0 <= t < es.drop_first().len() && t != k - 1 implies (#[trigger] es.drop_first()[
            t]).0@ != es.drop_first()[k - 1].0@ by {
            assert(es.drop_first()[t] == es[t + 1]);
        }
        lemma_coeff_remove(es.drop_first(), k - 1);
        assert forall|m: Seq<usize>| #[trigger] coeff_of(es2, m) == if m == es[k].0@ {
            0
        } else {
            coeff_of(es, m)
        } by {
            assert(es2[0] == es[0]);
            if es[0].0@ == m {
            } else {
                assert(coeff_of(es2, m) == coeff_of(es2.drop_first(), m));
            }
        }
    }
}

/// Whether some entry stores the monomial.
pub open spec fn has_mon(es: Seq<(Vec<usize>, Fe)>, m: Seq<usize>) -> bool {
    exists|t: int| 0 <= t < es.len() && (#[trigger] es[t]).0@ == m
}

/// The coefficient after appending one entry.
proof fn lemma_coeff_push(es: Seq<(Vec<usize>, Fe)>, e: (Vec<usize>, Fe), m: Seq<usize>)
    ensures
        coeff_of(es.push(e), m) == if has_mon(es, m) {
            coeff_of(es, m)
        } else if e.0@ == m {
            e.1@
        } else {
            0
        },
    decreases es.len(),
{
    if es.len() == 0 {
        assert(es.push(e)[0] == e);
        assert(es.push(e).drop_first() =~= es);
        if e.0@ != m {
            assert(coeff_of(es.push(e), m) == coeff_of(es, m));
        }
        assert(!has_mon(es, m));
    } else {
        assert(es.push(e)[0] == es[0]);
        assert(es.push(e).drop_first() =~= es.drop_first().push(e));
        lemma_coeff_push(es.drop_first(), e, m);
        if es[0].0@ == m {
            assert(has_mon(es, m));
        } else {
            assert(has_mon(es, m) == has_mon(es.drop_first(), m)) by {
                if has_mon(es, m) {
                    let t = choose|t: int| 0 <= t < es.len() && (#[trigger] es[t]).0@ == m;
                    assert(es.drop_first()[t - 1] == es[t]);
                }
                if has_mon(es.drop_first(), m) {
                    let t = choose|t: int|
                        0 <= t < es.drop_first().len() && (#[trigger] es.drop_first()[t]).0@ == m;
                    assert(es[t + 1] == es.drop_first()[t]);
                }
            }
        }
    }
}

/// Scanning one more entry of a list with distinct monomials.
proof fn lemma_coeff_take_step(es: Seq<(Vec<usize>, Fe)>, j: int)
    requires
        0 <= j < es.len(),
        forall|t: int| 0 <= t < j ==> (#[trigger] es[t]).0@ != es[j].0@,
    ensures
        forall|m: Seq<usize>| #[trigger] coeff_of(es.take(j + 1), m) == if m == es[j].0@ {
            es[j].1@
        } else {
            coeff_of(es.take(j), m)
        },
{
    assert(es.take(j + 1) =~= es.take(j).push(es[j]));
    assert forall|m: Seq<usize>| #[trigger] coeff_of(es.take(j + 1), m) == if m == es[j].0@ {
        es[j].1@
    } else {
        coeff_of(es.take(j), m)
    } by {
        lemma_coeff_push(es.take(j), es[j], m);
        if m == es[j].0@ {
            assert(!has_mon(es.take(j), m)) by {
                if has_mon(es.take(j), m) {
                    let t = choose|t: int|
                        0 <= t < es.take(j).len() && (#[trigger] es.take(j)[t]).0@ == m;
                    assert(es[t] == es.take(j)[t]);
                }
            }
            lemma_coeff_absent(es.take(j), m);
        } else {
            if !has_mon(es.take(j), m) {
                lemma_coeff_absent(es.take(j), m);
            }
        }
    }
}

/// A sparse polynomial over `n` variables with total degree bounded by `d`.
#[derive(Debug)]
pub struct Sparse {
    n: usize,
    d: usize,
    entries: Vec<(Vec<usize>, Fe)>,
}

impl Sparse {
    /// The number of variables.
    pub closed spec fn arity(&self) -> int {
        self.n as int
    }

    /// The degree bound.
    pub closed spec fn bound(&self) -> int {
        self.d as int
    }

    /// The stored entries.
    pub closed spec fn entry_seq(&self) -> Seq<(Vec<usize>, Fe)> {
        self.entries@
    }

    /// Structural well-formedness.
    pub closed spec fn wf(&self) -> bool {
        &&& self.n >= 1
        &&& self.d >= 1
        &&& entries_wf(self.entries@, self.n as int, self.d as int)
    }

    /// The coefficient of a monomial.
    pub closed spec fn coeff(&self, m: Seq<usize>) -> int {
        coeff_of(self.entries@, m)
    }

    /// Equality of polynomials: same shape and the same stored entries.
    /// Because the stored form is canonical, this is semantic equality.
    pub closed spec fn equiv(&self, other: &Sparse) -> bool {
        &&& self.n == other.n
        &&& self.d == other.d
        &&& self.entries@.len() == other.entries@.len()
        &&& forall|i: int|
            0 <= i < self.entries@.len() ==> (#[trigger] self.entries@[i]).0@ == other.entries@[
                i].0@ && self.entries@[i].1@ == other.entries@[i].1@
    }

    /// Coefficients are reduced field elements.
    pub proof fn lemma_coeff_in_field(&self, m: Seq<usize>)
        requires
            self.wf(),
        ensures
            in_field(self.coeff(m)),
    {
        lemma_coeff_of_in_field(self.entries@, self.n as int, self.d as int, m);
    }

    /// A non-zero coefficient belongs to a stored monomial, which is valid.
    pub proof fn lemma_support(&self, m: Seq<usize>)
        requires
            self.wf(),
            self.coeff(m) != 0,
        ensures
            m.len() == self.arity(),
            mdeg(m) <= self.bound(),
            0 <= mdeg(m),
    {
        lemma_coeff_of_support(self.entries@, self.n as int, self.d as int, m);
        lemma_mdeg_nonneg(m, 0);
    }

    /// The zero polynomial.
    pub fn zero(n: usize, d: usize) -> (r: Sparse)
        requires
            n >= 1,
            d >= 1,
        ensures
            r.wf(),
            r.arity() == n,
            r.bound() == d,
            forall|m: Seq<usize>| #[trigger] r.coeff(m) == 0,
            r.entry_seq() == Seq::<(Vec<usize>, Fe)>::empty(),
    {
        let entries: Vec<(Vec<usize>, Fe)> = Vec::new();
        proof {
            assert(entries@ =~= Seq::<(Vec<usize>, Fe)>::empty());
        }
        Sparse { n, d, entries }
    }

    /// The constant polynomial with the given value.
    pub fn from_scalar(n: usize, d: usize, c: Fe) -> (r: Sparse)
        requires
            n >= 1,
            d >= 1,
            in_field(c@),
        ensures
            r.wf(),
            r.arity() == n,
            r.bound() == d,
            forall|m: Seq<usize>| #[trigger] r.coeff(m) == if m == zero_mon(n as int) {
                c@
            } else {
                0
            },
            c@ != 0 ==> r.entry_seq().len() == 1 && r.entry_seq()[0].0@ == zero_mon(n as int)
                && r.entry_seq()[0].1@ == c@,
            c@ == 0 ==> r.entry_seq().len() == 0,
    {
        let mut entries: Vec<(Vec<usize>, Fe)> = Vec::new();
        if !c.is_zero() {
            let zm = zero_mon_exec(n);
            entries.push((zm, c));
        }
        proof {
            lemma_zero_mon_deg(n as int, 0);
            if c@ != 0 {
                assert(entries@[0].0@ =~= zero_mon(n as int));
                assert forall|m: Seq<usize>| #[trigger] coeff_of(entries@, m) == if m == zero_mon(
                    n as int,
                ) {
                    c@
                } else {
                    0
                } by {
                    if m != zero_mon(n as int) {
                        assert(coeff_of(entries@.drop_first(), m) == 0);
                    }
                }
            }
        }
        Sparse { n, d, entries }
    }

    /// The constant polynomial one.
    pub fn one(n: usize, d: usize) -> (r: Sparse)
        requires
            n >= 1,
            d >= 1,
        ensures
            r.wf(),
            r.arity() == n,
            r.bound() == d,
            forall|m: Seq<usize>| #[trigger] r.coeff(m) == if m == zero_mon(n as int) {
                1int
            } else {
                0int
            },
            r.entry_seq().len() == 1 && r.entry_seq()[0].0@ == zero_mon(n as int)
                && r.entry_seq()[0].1@ == 1,
    {
        Sparse::from_scalar(n, d, Fe::one())
    }

    /// Merges `c` into the coefficient of the given monomial, deleting the
    /// entry when the sum cancels.
    pub fn add_monomial(&mut self, exps: &Vec<usize>, c: Fe)
        requires
            old(self).wf(),
            exps@.len() == old(self).arity(),
            mdeg(exps@) <= old(self).bound(),
            in_field(c@),
        ensures
            final(self).wf(),
            final(self).arity() == old(self).arity(),
            final(self).bound() == old(self).bound(),
            forall|m: Seq<usize>| #[trigger] final(self).coeff(m) == if m == exps@ {
                fadd(old(self).coeff(m), c@)
            } else {
                old(self).coeff(m)
            },
            forall|xs: Seq<int>| #[trigger] eval_at(final(self).entry_seq(), xs) == fadd(
                eval_at(old(self).entry_seq(), xs),
                fmul(c@, mon_eval(exps@, xs)),
            ),
    {
        let ghost es = self.entries@;
        let ghost n = self.n as int;
        let ghost d = self.d as int;
        let mut k: usize = 0;
        while k < self.entries.len() && lex_less(&self.entries[k].0, exps)
            invariant
                self == old(self),
                old(self).wf(),
                exps@.len() == old(self).arity(),
                k <= self.entries.len(),
                forall|t: int| 0 <= t < k ==> lex_lt((#[trigger] self.entries@[t]).0@, exps@),
            decreases self.entries.len() - k,
        {
            k += 1;
        }
        proof {
            // entries at or past `k` are at least `exps` in the order
            assert forall|t: int| k <= t < es.len() implies !lex_lt(
                (#[trigger] es[t]).0@,
                exps@,
            ) by {
                if t > k {
                    lemma_entries_increasing(es, n, d, k as int, t);
                    lemma_lex_trichotomy(es[t].0@, exps@);
                    if lex_lt(es[t].0@, exps@) {
                        lemma_lex_trans(es[k as int].0@, es[t].0@, exps@);
                    }
                }
            }
        }
        if k < self.entries.len() && mon_eq(&self.entries[k].0, exps) {
            proof {
                assert forall|t: int| 0 <= t < es.len() && t != k implies (#[trigger] es[t]).0@
                    != es[k as int].0@ by {
                    if t < k {
                        lemma_lex_trichotomy(es[t].0@, es[k as int].0@);
                    } else {
                        lemma_entries_increasing(es, n, d, k as int, t);
                        lemma_lex_trichotomy(es[k as int].0@, es[t].0@);
                    }
                }
                assert forall|t: int| 0 <= t < k implies (#[trigger] es[t]).0@ != es[k as int].0@
                    by {}
                lemma_coeff_at(es, k as int);
            }
            let sum = self.entries[k].1.add(c);
            let ghost es1 = es.remove(k as int);
            proof {
                lemma_coeff_remove(es, k as int);
                lemma_sorted_remove(es, n, d, k as int);
            }
            if sum.is_zero() {
                self.entries.remove(k);
                proof {
                    assert forall|m: Seq<usize>| #[trigger] coeff_of(es1, m) == if m == exps@ {
                        fadd(coeff_of(es, m), c@)
                    } else {
                        coeff_of(es, m)
                    } by {}
                    let cold = es[k as int].1@;
                    assert forall|xs: Seq<int>| #[trigger] eval_at(es1, xs) == fadd(
                        eval_at(es, xs),
                        fmul(c@, mon_eval(exps@, xs)),
                    ) by {
                        let mv = mon_eval(exps@, xs);
                        lemma_eval_remove(es, k as int, xs);
                        crate::field::lemma_fadd_assoc(eval_at(es1, xs), fmul(cold, mv), fmul(
                            c@,
                            mv,
                        ));
                        crate::field::lemma_fmul_distrib_right(cold, c@, mv);
                        assert(fadd(cold, c@) == 0);
                        crate::field::lemma_fmul_zero(mv);
                        lemma_eval_in_field(es1, xs, 0, 0);
                        if eval_at(es1, xs) == 0 {
                            assert(fadd(eval_at(es1, xs), 0) == 0);
                        } else {
                            crate::field::lemma_fadd_zero(eval_at(es1, xs));
                        }
                    }
                }
            } else {
                self.entries.remove(k);
                let nm = copy_mon(exps);
                self.entries.insert(k, (nm, sum));
                proof {
                    assert forall|t: int| 0 <= t < es1.len() implies (#[trigger] es1[t]).0@
                        != exps@ by {
                        if t < k {
                            assert(es1[t] == es[t]);
                        } else {
                            assert(es1[t] == es[t + 1]);
                        }
                    }
                    lemma_coeff_insert(es1, k as int, (nm, sum));
                    lemma_sorted_insert(es1, n, d, k as int, (nm, sum));
                    let cold = es[k as int].1@;
                    assert forall|xs: Seq<int>| #[trigger] eval_at(self.entries@, xs) == fadd(
                        eval_at(es, xs),
                        fmul(c@, mon_eval(exps@, xs)),
                    ) by {
                        let mv = mon_eval(exps@, xs);
                        lemma_eval_remove(es, k as int, xs);
                        lemma_eval_insert(es1, k as int, (nm, sum), xs);
                        assert(eval_term((nm, sum), xs) == fmul(fadd(cold, c@), mv));
                        crate::field::lemma_fmul_distrib_right(cold, c@, mv);
                        crate::field::lemma_fadd_assoc(eval_at(es1, xs), fmul(cold, mv), fmul(
                            c@,
                            mv,
                        ));
                    }
                }
            }
        } else {
            proof {
                assert forall|t: int| 0 <= t < es.len() implies (#[trigger] es[t]).0@ != exps@ by {
                    if t < k {
                        lemma_lex_trichotomy(es[t].0@, exps@);
                    } else if t == k {
                        lemma_lex_trichotomy(es[t].0@, exps@);
                    } else {
                        lemma_entries_increasing(es, n, d, k as int, t);
                        lemma_lex_trichotomy(es[k as int].0@, exps@);
                        if lex_lt(es[t].0@, exps@) {
                            lemma_lex_trans(es[k as int].0@, es[t].0@, exps@);
                            lemma_lex_trichotomy(es[k as int].0@, exps@);
                        }
                        lemma_lex_trichotomy(es[t].0@, exps@);
                    }
                }
                lemma_coeff_absent(es, exps@);
            }
            if !c.is_zero() {
                let nm = copy_mon(exps);
                self.entries.insert(k, (nm, c));
                proof {
                    lemma_coeff_insert(es, k as int, (nm, c));
                    assert(k < es.len() ==> lex_lt(exps@, es[k as int].0@)) by {
                        if (k as int) < es.len() {
                            lemma_lex_trichotomy(es[k as int].0@, exps@);
                        }
                    }
                    lemma_sorted_insert(es, n, d, k as int, (nm, c));
                    crate::field::lemma_fadd_zero(c@);
                    assert forall|xs: Seq<int>| #[trigger] eval_at(self.entries@, xs) == fadd(
                        eval_at(es, xs),
                        fmul(c@, mon_eval(exps@, xs)),
                    ) by {
                        lemma_eval_insert(es, k as int, (nm, c), xs);
                    }
                }
            } else {
                proof {
                    crate::field::lemma_fadd_zero(0);
                    assert forall|xs: Seq<int>| #[trigger] eval_at(self.entries@, xs) == fadd(
                        eval_at(es, xs),
                        fmul(c@, mon_eval(exps@, xs)),
                    ) by {
                        crate::field::lemma_fmul_zero(mon_eval(exps@, xs));
                        lemma_eval_in_field(es, xs, 0, 0);
                        if eval_at(es, xs) == 0 {
                            assert(fadd(eval_at(es, xs), 0) == 0);
                        } else {
                            crate::field::lemma_fadd_zero(eval_at(es, xs));
                        }
                    }
                }
            }
        }
    }

    /// Adds `c` times `src` into `self`.
    fn add_scaled(&mut self, src: &Sparse, c: Fe)
        requires
            old(self).wf(),
            src.wf(),
            old(self).arity() == src.arity(),
            old(self).bound() == src.bound(),
            in_field(c@),
        ensures
            final(self).wf(),
            final(self).arity() == old(self).arity(),
            final(self).bound() == old(self).bound(),
            forall|m: Seq<usize>| #[trigger] final(self).coeff(m) == fadd(
                old(self).coeff(m),
                fmul(c@, src.coeff(m)),
            ),
            forall|xs: Seq<int>| #[trigger] eval_at(final(self).entry_seq(), xs) == fadd(
                eval_at(old(self).entry_seq(), xs),
                fmul(c@, eval_at(src.entry_seq(), xs)),
            ),
    {
        let ghost qs = src.entries@;
        let ghost n = src.n as int;
        let ghost d = src.d as int;
        let mut j: usize = 0;
        proof {
            assert(qs.take(0) =~= Seq::<(Vec<usize>, Fe)>::empty());
            assert forall|m: Seq<usize>| #[trigger] self.coeff(m) == fadd(
                old(self).coeff(m),
                fmul(c@, coeff_of(qs.take(0), m)),
            ) by {
                old(self).lemma_coeff_in_field(m);
                crate::field::lemma_fmul_zero(c@);
                crate::field::lemma_fadd_zero(old(self).coeff(m));
            }
        }
        while j < src.entries.len()
            invariant
                self.wf(),
                src.wf(),
                self.arity() == src.arity(),
                self.bound() == src.bound(),
                in_field(c@),
                j <= src.entries.len(),
                qs == src.entries@,
                n == src.arity(),
                d == src.bound(),
                old(self).wf(),
                old(self).arity() == src.arity(),
                old(self).bound() == src.bound(),
                forall|m: Seq<usize>| #[trigger] self.coeff(m) == fadd(
                    old(self).coeff(m),
                    fmul(c@, coeff_of(qs.take(j as int), m)),
                ),
                forall|xs: Seq<int>| #[trigger] eval_at(self.entries@, xs) == fadd(
                    eval_at(old(self).entry_seq(), xs),
                    fmul(c@, eval_at(qs.take(j as int), xs)),
                ),
            decreases src.entries.len() - j,
        {
            let term = c.mul(src.entries[j].1);
            let ghost prev = *self;
            proof {
                assert(mdeg(qs[j as int].0@) <= d);
                lemma_mdeg_nonneg(qs[j as int].0@, 0);
            }
            self.add_monomial(&src.entries[j].0, term);
            proof {
                assert forall|t: int| 0 <= t < j implies (#[trigger] qs[t]).0@ != qs[
                    j as int].0@ by {
                    lemma_entries_increasing(qs, n, d, t, j as int);
                    lemma_lex_trichotomy(qs[t].0@, qs[j as int].0@);
                }
                lemma_coeff_take_step(qs, j as int);
                assert forall|m: Seq<usize>| #[trigger] self.coeff(m) == fadd(
                    old(self).coeff(m),
                    fmul(c@, coeff_of(qs.take(j as int + 1), m)),
                ) by {
                    old(self).lemma_coeff_in_field(m);
                    if m == qs[j as int].0@ {
                        assert(coeff_of(qs.take(j as int), m) == 0) by {
                            assert forall|t: int| 0 <= t < qs.take(j as int).len() implies (
                            #[trigger] qs.take(j as int)[t]).0@ != m by {
                                assert(qs.take(j as int)[t] == qs[t]);
                            }
                            lemma_coeff_absent(qs.take(j as int), m);
                        }
                        crate::field::lemma_fmul_zero(c@);
                        crate::field::lemma_fadd_zero(old(self).coeff(m));
                        assert(prev.coeff(m) == old(self).coeff(m));
                        assert(self.coeff(m) == fadd(prev.coeff(m), term@));
                        assert(coeff_of(qs.take(j as int + 1), m) == qs[j as int].1@);
                    } else {
                        assert(self.coeff(m) == prev.coeff(m));
                        assert(coeff_of(qs.take(j as int + 1), m) == coeff_of(
                            qs.take(j as int),
                            m,
                        ));
                    }
                }
                assert forall|xs: Seq<int>| #[trigger] eval_at(self.entries@, xs) == fadd(
                    eval_at(old(self).entry_seq(), xs),
                    fmul(c@, eval_at(qs.take(j as int + 1), xs)),
                ) by {
                    let cj = qs[j as int].1@;
                    let mvj = mon_eval(qs[j as int].0@, xs);
                    assert(qs.take(j as int + 1) =~= qs.take(j as int).push(qs[j as int]));
                    lemma_eval_push(qs.take(j as int), qs[j as int], xs);
                    assert(eval_at(prev.entry_seq(), xs) == fadd(
                        eval_at(old(self).entry_seq(), xs),
                        fmul(c@, eval_at(qs.take(j as int), xs)),
                    ));
                    assert(eval_at(self.entry_seq(), xs) == fadd(
                        eval_at(prev.entry_seq(), xs),
                        fmul(term@, mon_eval(qs[j as int].0@, xs)),
                    ));
                    assert(eval_at(self.entries@, xs) == fadd(
                        eval_at(prev.entry_seq(), xs),
                        fmul(term@, mvj),
                    ));
                    crate::field::lemma_fmul_assoc(c@, cj, mvj);
                    crate::field::lemma_fadd_assoc(
                        eval_at(old(self).entry_seq(), xs),
                        fmul(c@, eval_at(qs.take(j as int), xs)),
                        fmul(c@, fmul(cj, mvj)),
                    );
                    crate::field::lemma_fmul_distrib(
                        c@,
                        eval_at(qs.take(j as int), xs),
                        fmul(cj, mvj),
                    );
                }
            }
            j += 1;
        }
        proof {
            assert(qs.take(src.entries@.len() as int) =~= qs);
        }
    }

    /// The sum of two polynomials of the same shape.
    pub fn add(&self, other: &Sparse) -> (r: Sparse)
        requires
            self.wf(),
            other.wf(),
            self.arity() == other.arity(),
            self.bound() == other.bound(),
        ensures
            r.wf(),
            r.arity() == self.arity(),
            r.bound() == self.bound(),
            forall|m: Seq<usize>| #[trigger] r.coeff(m) == fadd(self.coeff(m), other.coeff(m)),
            forall|xs: Seq<int>| #[trigger] eval_at(r.entry_seq(), xs) == fadd(
                eval_at(self.entry_seq(), xs),
                eval_at(other.entry_seq(), xs),
            ),
    {
        let mut r = Sparse::zero(self.n, self.d);
        r.add_scaled(self, Fe::one());
        r.add_scaled(other, Fe::one());
        proof {
            assert forall|m: Seq<usize>| #[trigger] r.coeff(m) == fadd(
                self.coeff(m),
                other.coeff(m),
            ) by {
                self.lemma_coeff_in_field(m);
                other.lemma_coeff_in_field(m);
                crate::field::lemma_fmul_one(self.coeff(m));
                crate::field::lemma_fmul_one(other.coeff(m));
                crate::field::lemma_fadd_zero(self.coeff(m));
            }
            assert forall|xs: Seq<int>| #[trigger] eval_at(r.entry_seq(), xs) == fadd(
                eval_at(self.entry_seq(), xs),
                eval_at(other.entry_seq(), xs),
            ) by {
                lemma_eval_in_field(self.entry_seq(), xs, 0, 0);
                lemma_eval_in_field(other.entry_seq(), xs, 0, 0);
                crate::field::lemma_fmul_one(eval_at(self.entry_seq(), xs));
                crate::field::lemma_fmul_one(eval_at(other.entry_seq(), xs));
                crate::field::lemma_fadd_zero(eval_at(self.entry_seq(), xs));
            }
        }
        r
    }

    /// The negation of a polynomial.
    pub fn neg(&self) -> (r: Sparse)
        requires
            self.wf(),
        ensures
            r.wf(),
            r.arity() == self.arity(),
            r.bound() == self.bound(),
            forall|m: Seq<usize>| #[trigger] r.coeff(m) == crate::field::fneg(self.coeff(m)),
            forall|xs: Seq<int>| #[trigger] eval_at(r.entry_seq(), xs) == crate::field::fneg(
                eval_at(self.entry_seq(), xs),
            ),
    {
        let mut r = Sparse::zero(self.n, self.d);
        r.add_scaled(self, Fe::one().neg());
        proof {
            assert forall|m: Seq<usize>| #[trigger] r.coeff(m) == crate::field::fneg(
                self.coeff(m),
            ) by {
                self.lemma_coeff_in_field(m);
                crate::field::lemma_fmul_neg_one(self.coeff(m));
                crate::field::lemma_field_closed(1, self.coeff(m));
                crate::field::lemma_fadd_zero(crate::field::fneg(self.coeff(m)));
            }
            assert forall|xs: Seq<int>| #[trigger] eval_at(r.entry_seq(), xs)
                == crate::field::fneg(eval_at(self.entry_seq(), xs)) by {
                lemma_eval_in_field(self.entry_seq(), xs, 0, 0);
                crate::field::lemma_fmul_neg_one(eval_at(self.entry_seq(), xs));
                crate::field::lemma_field_closed(1, eval_at(self.entry_seq(), xs));
                crate::field::lemma_fadd_zero(
                    crate::field::fneg(eval_at(self.entry_seq(), xs)),
                );
            }
        }
        r
    }

    /// The difference of two polynomials of the same shape.
    pub fn sub(&self, other: &Sparse) -> (r: Sparse)
        requires
            self.wf(),
            other.wf(),
            self.arity() == other.arity(),
            self.bound() == other.bound(),
        ensures
            r.wf(),
            r.arity() == self.arity(),
            r.bound() == self.bound(),
            forall|m: Seq<usize>| #[trigger] r.coeff(m) == crate::field::fsub(
                self.coeff(m),
                other.coeff(m),
            ),
            forall|xs: Seq<int>| #[trigger] eval_at(r.entry_seq(), xs) == crate::field::fsub(
                eval_at(self.entry_seq(), xs),
                eval_at(other.entry_seq(), xs),
            ),
    {
        let mut r = Sparse::zero(self.n, self.d);
        r.add_scaled(self, Fe::one());
        r.add_scaled(other, Fe::one().neg());
        proof {
            assert forall|m: Seq<usize>| #[trigger] r.coeff(m) == crate::field::fsub(
                self.coeff(m),
                other.coeff(m),
            ) by {
                self.lemma_coeff_in_field(m);
                other.lemma_coeff_in_field(m);
                crate::field::lemma_fmul_one(self.coeff(m));
                crate::field::lemma_fadd_zero(self.coeff(m));
                crate::field::lemma_fmul_neg_one(other.coeff(m));
                crate::field::lemma_fsub_is_fadd_fneg(self.coeff(m), other.coeff(m));
            }
            assert forall|xs: Seq<int>| #[trigger] eval_at(r.entry_seq(), xs)
                == crate::field::fsub(
                eval_at(self.entry_seq(), xs),
                eval_at(other.entry_seq(), xs),
            ) by {
                let a = eval_at(self.entry_seq(), xs);
                let b = eval_at(other.entry_seq(), xs);
                lemma_eval_in_field(self.entry_seq(), xs, 0, 0);
                lemma_eval_in_field(other.entry_seq(), xs, 0, 0);
                crate::field::lemma_fmul_one(a);
                crate::field::lemma_fadd_zero(a);
                crate::field::lemma_fmul_neg_one(b);
                crate::field::lemma_fsub_is_fadd_fneg(a, b);
            }
        }
        r
    }

    /// The polynomial scaled by a constant.
    pub fn mul_by_scalar(&self, c: Fe) -> (r: Sparse)
        requires
            self.wf(),
            in_field(c@),
        ensures
            r.wf(),
            r.arity() == self.arity(),
            r.bound() == self.bound(),
            forall|m: Seq<usize>| #[trigger] r.coeff(m) == fmul(c@, self.coeff(m)),
            forall|xs: Seq<int>| #[trigger] eval_at(r.entry_seq(), xs) == fmul(
                c@,
                eval_at(self.entry_seq(), xs),
            ),
    {
        let mut r = Sparse::zero(self.n, self.d);
        r.add_scaled(self, c);
        proof {
            assert forall|m: Seq<usize>| #[trigger] r.coeff(m) == fmul(c@, self.coeff(m)) by {
                self.lemma_coeff_in_field(m);
                crate::field::lemma_field_closed(c@, self.coeff(m));
                crate::field::lemma_fadd_zero(fmul(c@, self.coeff(m)));
            }
            assert forall|xs: Seq<int>| #[trigger] eval_at(r.entry_seq(), xs) == fmul(
                c@,
                eval_at(self.entry_seq(), xs),
            ) by {
                crate::field::lemma_field_closed(c@, eval_at(self.entry_seq(), xs));
                crate::field::lemma_fadd_zero(fmul(c@, eval_at(self.entry_seq(), xs)));
            }
        }
        r
    }

    /// The polynomial added to itself.
    pub fn double(&self) -> (r: Sparse)
        requires
            self.wf(),
        ensures
            r.wf(),
            r.arity() == self.arity(),
            r.bound() == self.bound(),
            forall|m: Seq<usize>| #[trigger] r.coeff(m) == fadd(self.coeff(m), self.coeff(m)),
            forall|xs: Seq<int>| #[trigger] eval_at(r.entry_seq(), xs) == fadd(
                eval_at(self.entry_seq(), xs),
                eval_at(self.entry_seq(), xs),
            ),
    {
        self.add(self)
    }

    /// The polynomial with a single monomial.
    pub fn from_monomial(n: usize, d: usize, exps: &Vec<usize>, c: Fe) -> (r: Sparse)
        requires
            n >= 1,
            d >= 1,
            exps@.len() == n,
            mdeg(exps@) <= d,
            in_field(c@),
        ensures
            r.wf(),
            r.arity() == n,
            r.bound() == d,
            forall|m: Seq<usize>| #[trigger] r.coeff(m) == if m == exps@ {
                c@
            } else {
                0int
            },
            c@ != 0 ==> r.entry_seq().len() == 1 && r.entry_seq()[0].0@ == exps@
                && r.entry_seq()[0].1@ == c@,
            c@ == 0 ==> r.entry_seq().len() == 0,
    {
        let mut entries: Vec<(Vec<usize>, Fe)> = Vec::new();
        if !c.is_zero() {
            let nm = copy_mon(exps);
            entries.push((nm, c));
        }
        proof {
            if c@ != 0 {
                assert forall|m: Seq<usize>| #[trigger] coeff_of(entries@, m) == if m == exps@ {
                    c@
                } else {
                    0int
                } by {
                    if m != exps@ {
                        assert(coeff_of(entries@.drop_first(), m) == 0);
                    }
                }
            }
        }
        Sparse { n, d, entries }
    }

    /// The number of variables.
    pub fn num_vars(&self) -> (r: usize)
        ensures
            r == self.arity(),
    {
        self.n
    }

    /// The degree bound.
    pub fn degree_bound(&self) -> (r: usize)
        ensures
            r == self.bound(),
    {
        self.d
    }

    /// Looks up the coefficient of a monomial.
    pub fn coeff_value(&self, m: &Vec<usize>) -> (r: Fe)
        requires
            self.wf(),
        ensures
            r@ == self.coeff(m@),
            in_field(r@),
    {
        let ghost es = self.entries@;
        let mut k: usize = 0;
        while k < self.entries.len()
            invariant
                self.wf(),
                es == self.entries@,
                k <= es.len(),
                forall|t: int| 0 <= t < k ==> (#[trigger] es[t]).0@ != m@,
            decreases self.entries.len() - k,
        {
            if mon_eq(&self.entries[k].0, m) {
                proof {
                    lemma_coeff_at(es, k as int);
                }
                return self.entries[k].1;
            }
            k += 1;
        }
        proof {
            lemma_coeff_absent(es, m@);
        }
        Fe::zero()
    }

    /// The total degree: the largest degree among the monomials with a
    /// non-zero coefficient, zero for the zero polynomial.
    pub closed spec fn degree_spec(&self) -> int {
        poly_deg(self.entries@)
    }

    /// Computes the total degree.
    pub fn degree(&self) -> (r: usize)
        requires
            self.wf(),
        ensures
            r == self.degree_spec(),
            forall|m: Seq<usize>| #[trigger] self.coeff(m) != 0 ==> mdeg(m) <= r,
            r == 0 || exists|m: Seq<usize>| #[trigger] self.coeff(m) != 0 && mdeg(m) == r,
    {
        let ghost es = self.entries@;
        let mut best: usize = 0;
        let mut j: usize = 0;
        while j < self.entries.len()
            invariant
                self.wf(),
                es == self.entries@,
                j <= es.len(),
                best == poly_deg_upto(es, j as int),
            decreases self.entries.len() - j,
        {
            proof {
                lemma_mdeg_nonneg(es[j as int].0@, 0);
            }
            let dj = crate::monomial::mon_deg(&self.entries[j].0);
            if dj > best {
                best = dj;
            }
            proof {
                lemma_poly_deg_upto_step(es, j as int);
            }
            j += 1;
        }
        proof {
            lemma_poly_deg_upto_full(es, es.len() as int);
            lemma_poly_deg(es);
            assert forall|m: Seq<usize>| #[trigger] self.coeff(m) != 0 implies mdeg(m)
                <= poly_deg(es) by {
                lemma_coeff_has(es, m);
                let t = choose|t: int| 0 <= t < es.len() && (#[trigger] es[t]).0@ == m;
            }
            if es.len() > 0 && poly_deg(es) != 0 {
                let i = choose|i: int|
                    0 <= i < es.len() && mdeg((#[trigger] es[i]).0@) == poly_deg(es);
                lemma_entry_coeff_nonzero(es, i);
                assert(self.coeff(es[i].0@) != 0 && mdeg(es[i].0@) == poly_deg(es));
            }
        }
        best
    }

    /// Whether this is the zero polynomial.
    pub fn is_zero(&self) -> (r: bool)
        requires
            self.wf(),
        ensures
            r == (forall|m: Seq<usize>| #[trigger] self.coeff(m) == 0),
    {
        let ghost es = self.entries@;
        if self.entries.len() == 0 {
            proof {
                assert forall|m: Seq<usize>| #[trigger] self.coeff(m) == 0 by {}
            }
            true
        } else {
            proof {
                lemma_coeff_at(es, 0);
                assert(self.coeff(es[0].0@) == es[0].1@);
                assert(self.coeff(es[0].0@) != 0);
            }
            false
        }
    }

    /// Whether this polynomial is a constant: no monomial of positive
    /// degree has a non-zero coefficient.
    pub fn is_constant(&self) -> (r: bool)
        requires
            self.wf(),
        ensures
            r == (forall|m: Seq<usize>| mdeg(m) > 0 ==> #[trigger] self.coeff(m) == 0),
    {
        let ghost es = self.entries@;
        let ghost n = self.n as int;
        let ghost d = self.d as int;
        if self.entries.len() == 0 {
            proof {
                assert forall|m: Seq<usize>| mdeg(m) > 0 implies #[trigger] self.coeff(m) == 0
                    by {}
            }
            true
        } else if self.entries.len() == 1 {
            proof {
                lemma_mdeg_nonneg(es[0].0@, 0);
            }
            let d0 = crate::monomial::mon_deg(&self.entries[0].0);
            if d0 == 0 {
                proof {
                    assert forall|m: Seq<usize>| mdeg(m) > 0 implies #[trigger] self.coeff(m)
                        == 0 by {
                        if self.coeff(m) != 0 {
                            lemma_coeff_has(es, m);
                            let t = choose|t: int|
                                0 <= t < es.len() && (#[trigger] es[t]).0@ == m;
                            assert(t == 0);
                        }
                    }
                }
                true
            } else {
                proof {
                    lemma_coeff_at(es, 0);
                    assert(mdeg(es[0].0@) > 0 && self.coeff(es[0].0@) != 0);
                }
                false
            }
        } else {
            proof {
                lemma_coeff_at(es, 0);
                assert forall|t: int| 0 <= t < 1 implies (#[trigger] es[t]).0@ != es[1].0@ by {
                    lemma_lex_trichotomy(es[0].0@, es[1].0@);
                }
                lemma_coeff_at(es, 1);
                lemma_mdeg_nonneg(es[0].0@, 0);
                lemma_mdeg_nonneg(es[1].0@, 0);
                if mdeg(es[0].0@) == 0 && mdeg(es[1].0@) == 0 {
                    lemma_deg0_unique(es[0].0@, es[1].0@);
                    lemma_lex_trichotomy(es[0].0@, es[1].0@);
                    assert(false);
                }
                if mdeg(es[0].0@) > 0 {
                    assert(self.coeff(es[0].0@) != 0);
                } else {
                    assert(self.coeff(es[1].0@) != 0);
                }
            }
            false
        }
    }

    /// Whether every stored monomial has all exponents at most one.
    pub fn is_multilinear(&self) -> (r: bool)
        requires
            self.wf(),
        ensures
            r == (forall|m: Seq<usize>|
                #[trigger] self.coeff(m) != 0 ==> forall|i: int| 0 <= i < m.len() ==> m[i] <= 1),
    {
        let ghost es = self.entries@;
        let mut j: usize = 0;
        while j < self.entries.len()
            invariant
                self.wf(),
                es == self.entries@,
                j <= es.len(),
                forall|t: int, i: int|
                    0 <= t < j && 0 <= i < es[t].0@.len() ==> #[trigger] es[t].0@[i] <= 1,
            decreases self.entries.len() - j,
        {
            let mon = &self.entries[j].0;
            let mut i: usize = 0;
            while i < mon.len()
                invariant
                    self.wf(),
                    es == self.entries@,
                    mon@ == es[j as int].0@,
                    j < es.len(),
                    i <= mon@.len(),
                    forall|t: int| 0 <= t < i ==> es[j as int].0@[t] <= 1,
                decreases mon.len() - i,
            {
                if mon[i] > 1 {
                    proof {
                        lemma_entry_coeff_nonzero(es, j as int);
                        assert(self.coeff(es[j as int].0@) != 0);
                        assert(es[j as int].0@[i as int] > 1);
                    }
                    return false;
                }
                i += 1;
            }
            j += 1;
        }
        proof {
            assert forall|m: Seq<usize>| #[trigger] self.coeff(m) != 0 implies forall|i: int|
                0 <= i < m.len() ==> m[i] <= 1 by {
                lemma_coeff_has(es, m);
                let t = choose|t: int| 0 <= t < es.len() && (#[trigger] es[t]).0@ == m;
            }
        }
        true
    }

    /// Whether all monomials with a non-zero coefficient share one total
    /// degree.
    pub fn is_homogeneous(&self) -> (r: bool)
        requires
            self.wf(),
        ensures
            r == (forall|m1: Seq<usize>, m2: Seq<usize>|
                #[trigger] self.coeff(m1) != 0 && #[trigger] self.coeff(m2) != 0 ==> mdeg(m1)
                    == mdeg(m2)),
    {
        let ghost es = self.entries@;
        if self.entries.len() == 0 {
            return true;
        }
        proof {
            lemma_mdeg_nonneg(es[0].0@, 0);
        }
        let d0 = crate::monomial::mon_deg(&self.entries[0].0);
        let mut j: usize = 1;
        while j < self.entries.len()
            invariant
                self.wf(),
                es == self.entries@,
                es.len() > 0,
                1 <= j <= es.len(),
                d0 == mdeg(es[0].0@),
                forall|t: int| 0 <= t < j ==> mdeg((#[trigger] es[t]).0@) == d0,
            decreases self.entries.len() - j,
        {
            proof {
                lemma_mdeg_nonneg(es[j as int].0@, 0);
            }
            let dj = crate::monomial::mon_deg(&self.entries[j].0);
            if dj != d0 {
                proof {
                    lemma_entry_coeff_nonzero(es, 0);
                    lemma_entry_coeff_nonzero(es, j as int);
                    assert(self.coeff(es[0].0@) != 0);
                    assert(self.coeff(es[j as int].0@) != 0);
                    assert(mdeg(es[0].0@) != mdeg(es[j as int].0@));
                }
                return false;
            }
            j += 1;
        }
        proof {
            assert forall|m1: Seq<usize>, m2: Seq<usize>|
                #[trigger] self.coeff(m1) != 0 && #[trigger] self.coeff(m2) != 0 implies mdeg(m1)
                == mdeg(m2) by {
                lemma_coeff_has(es, m1);
                lemma_coeff_has(es, m2);
                let t1 = choose|t: int| 0 <= t < es.len() && (#[trigger] es[t]).0@ == m1;
                let t2 = choose|t: int| 0 <= t < es.len() && (#[trigger] es[t]).0@ == m2;
            }
        }
        true
    }

    /// Evaluates the polynomial at a point.
    pub fn eval(&self, x: &Vec<Fe>) -> (r: Fe)
        requires
            self.wf(),
            x@.len() == self.arity(),
            forall|i: int| 0 <= i < x@.len() ==> in_field((#[trigger] x@[i])@),
        ensures
            r@ == eval_at(self.entry_seq(), x@.map_values(|f: Fe| f@)),
            in_field(r@),
    {
        let ghost es = self.entries@;
        let ghost xs = x@.map_values(|f: Fe| f@);
        let mut acc = Fe::zero();
        let mut j: usize = 0;
        proof {
            assert(es.skip(0) =~= es);
        }
        while j < self.entries.len()
            invariant
                self.wf(),
                es == self.entries@,
                xs == x@.map_values(|f: Fe| f@),
                x@.len() == self.arity(),
                forall|i: int| 0 <= i < x@.len() ==> in_field((#[trigger] x@[i])@),
                j <= es.len(),
                in_field(acc@),
                fadd(acc@, eval_at(es.skip(j as int), xs)) == eval_at(es, xs),
            decreases self.entries.len() - j,
        {
            let mv = crate::monomial::mon_value(&self.entries[j].0, x);
            let term = self.entries[j].1.mul(mv);
            proof {
                let rest = es.skip(j as int);
                assert(rest[0] == es[j as int]);
                assert(rest.drop_first() =~= es.skip(j as int + 1));
                crate::field::lemma_fadd_assoc(
                    acc@,
                    term@,
                    eval_at(es.skip(j as int + 1), xs),
                );
            }
            acc = acc.add(term);
            j += 1;
        }
        proof {
            assert(es.skip(es.len() as int) =~= Seq::<(Vec<usize>, Fe)>::empty());
            crate::field::lemma_fadd_zero(acc@);
        }
        acc
    }

    /// Evaluates the degree-`d` homogenization at a point with slack `u`.
    pub fn homogeneous_eval(&self, x: &Vec<Fe>, u: Fe) -> (r: Fe)
        requires
            self.wf(),
            x@.len() == self.arity(),
            forall|i: int| 0 <= i < x@.len() ==> in_field((#[trigger] x@[i])@),
            in_field(u@),
        ensures
            r@ == hom_eval_at(self.entry_seq(), x@.map_values(|f: Fe| f@), u@, self.bound()),
            in_field(r@),
    {
        let ghost es = self.entries@;
        let ghost xs = x@.map_values(|f: Fe| f@);
        let ghost bd = self.d as int;
        let mut acc = Fe::zero();
        let mut j: usize = 0;
        proof {
            assert(es.skip(0) =~= es);
        }
        while j < self.entries.len()
            invariant
                self.wf(),
                es == self.entries@,
                xs == x@.map_values(|f: Fe| f@),
                bd == self.bound(),
                x@.len() == self.arity(),
                forall|i: int| 0 <= i < x@.len() ==> in_field((#[trigger] x@[i])@),
                in_field(u@),
                j <= es.len(),
                in_field(acc@),
                fadd(acc@, hom_eval_at(es.skip(j as int), xs, u@, bd)) == hom_eval_at(
                    es,
                    xs,
                    u@,
                    bd,
                ),
            decreases self.entries.len() - j,
        {
            proof {
                lemma_mdeg_nonneg(es[j as int].0@, 0);
            }
            let dj = crate::monomial::mon_deg(&self.entries[j].0);
            let pu = u.pow((self.d - dj) as u64);
            let mv = crate::monomial::mon_value(&self.entries[j].0, x);
            let term = self.entries[j].1.mul(pu.mul(mv));
            proof {
                let rest = es.skip(j as int);
                assert(rest[0] == es[j as int]);
                assert(rest.drop_first() =~= es.skip(j as int + 1));
                crate::field::lemma_fadd_assoc(
                    acc@,
                    term@,
                    hom_eval_at(es.skip(j as int + 1), xs, u@, bd),
                );
            }
            acc = acc.add(term);
            j += 1;
        }
        proof {
            assert(es.skip(es.len() as int) =~= Seq::<(Vec<usize>, Fe)>::empty());
            crate::field::lemma_fadd_zero(acc@);
        }
        acc
    }

    /// The product of two polynomials of the same shape.  The degrees must
    /// fit the bound: a product monomial beyond the bound is rejected, not
    /// truncated, so the caller guarantees the operands are compatible.
    pub fn mul(&self, other: &Sparse) -> (r: Sparse)
        requires
            self.wf(),
            other.wf(),
            self.arity() == other.arity(),
            self.bound() == other.bound(),
            self.degree_spec() + other.degree_spec() <= self.bound(),
        ensures
            r.wf(),
            r.arity() == self.arity(),
            r.bound() == self.bound(),
            forall|m: Seq<usize>| #[trigger] r.coeff(m) == conv(
                self.entry_seq(),
                other.entry_seq(),
                m,
            ),
            forall|xs: Seq<int>| #[trigger] eval_at(r.entry_seq(), xs) == fmul(
                eval_at(self.entry_seq(), xs),
                eval_at(other.entry_seq(), xs),
            ),
    {
        let ghost ps = self.entries@;
        let ghost qs = other.entries@;
        let ghost n = self.n as int;
        let ghost d = self.d as int;
        let mut r = Sparse::zero(self.n, self.d);
        proof {
            assert(ps.take(0) =~= Seq::<(Vec<usize>, Fe)>::empty());
            lemma_poly_deg(ps);
            lemma_poly_deg(qs);
            assert forall|xs: Seq<int>| #[trigger] eval_at(r.entry_seq(), xs) == fmul(
                eval_at(ps.take(0), xs),
                eval_at(qs, xs),
            ) by {
                crate::field::lemma_fmul_zero(eval_at(qs, xs));
            }
        }
        let mut i: usize = 0;
        while i < self.entries.len()
            invariant
                self.wf(),
                other.wf(),
                r.wf(),
                ps == self.entries@,
                qs == other.entries@,
                n == self.arity(),
                d == self.bound(),
                other.arity() == n,
                other.bound() == d,
                r.arity() == n,
                r.bound() == d,
                poly_deg(ps) + poly_deg(qs) <= d,
                i <= ps.len(),
                forall|m: Seq<usize>| #[trigger] r.coeff(m) == conv(ps.take(i as int), qs, m),
                forall|xs: Seq<int>| #[trigger] eval_at(r.entry_seq(), xs) == fmul(
                    eval_at(ps.take(i as int), xs),
                    eval_at(qs, xs),
                ),
            decreases self.entries.len() - i,
        {
            let mut j: usize = 0;
            proof {
                assert(qs.take(0) =~= Seq::<(Vec<usize>, Fe)>::empty());
                assert forall|m: Seq<usize>| #[trigger] r.coeff(m) == fadd(
                    conv(ps.take(i as int), qs, m),
                    conv_row(ps[i as int], qs.take(0), m),
                ) by {
                    r.lemma_coeff_in_field(m);
                    crate::field::lemma_fadd_zero(r.coeff(m));
                }
                assert forall|xs: Seq<int>| #[trigger] eval_at(r.entry_seq(), xs) == fadd(
                    fmul(eval_at(ps.take(i as int), xs), eval_at(qs, xs)),
                    fmul(eval_term(ps[i as int], xs), eval_at(qs.take(0), xs)),
                ) by {
                    lemma_eval_in_field(r.entry_seq(), xs, 0, 0);
                    crate::field::lemma_fmul_zero(eval_term(ps[i as int], xs));
                    crate::field::lemma_fadd_zero(eval_at(r.entry_seq(), xs));
                }
            }
            while j < other.entries.len()
                invariant
                    self.wf(),
                    other.wf(),
                    r.wf(),
                    ps == self.entries@,
                    qs == other.entries@,
                    n == self.arity(),
                    d == self.bound(),
                    other.arity() == n,
                    other.bound() == d,
                    r.arity() == n,
                    r.bound() == d,
                    poly_deg(ps) + poly_deg(qs) <= d,
                    i < ps.len(),
                    j <= qs.len(),
                    forall|m: Seq<usize>| #[trigger] r.coeff(m) == fadd(
                        conv(ps.take(i as int), qs, m),
                        conv_row(ps[i as int], qs.take(j as int), m),
                    ),
                    forall|xs: Seq<int>| #[trigger] eval_at(r.entry_seq(), xs) == fadd(
                        fmul(eval_at(ps.take(i as int), xs), eval_at(qs, xs)),
                        fmul(eval_term(ps[i as int], xs), eval_at(qs.take(j as int), xs)),
                    ),
                decreases other.entries.len() - j,
            {
                proof {
                    lemma_poly_deg(ps);
                    lemma_poly_deg(qs);
                    lemma_mdeg_nonneg(ps[i as int].0@, 0);
                    lemma_mdeg_nonneg(qs[j as int].0@, 0);
                }
                let nm = crate::monomial::mon_add(&self.entries[i].0, &other.entries[j].0);
                let c = self.entries[i].1.mul(other.entries[j].1);
                let ghost prev = r;
                r.add_monomial(&nm, c);
                proof {
                    assert(qs.take(j as int + 1) =~= qs.take(j as int).push(qs[j as int]));
                    assert forall|m: Seq<usize>| #[trigger] r.coeff(m) == fadd(
                        conv(ps.take(i as int), qs, m),
                        conv_row(ps[i as int], qs.take(j as int + 1), m),
                    ) by {
                        lemma_conv_row_push(ps[i as int], qs.take(j as int), qs[j as int], m);
                        let t = if m == add_mon(ps[i as int].0@, qs[j as int].0@) {
                            fmul(ps[i as int].1@, qs[j as int].1@)
                        } else {
                            0
                        };
                        crate::field::lemma_fadd_assoc(
                            conv(ps.take(i as int), qs, m),
                            conv_row(ps[i as int], qs.take(j as int), m),
                            t,
                        );
                        prev.lemma_coeff_in_field(m);
                        if m == nm@ {
                            assert(t == c@);
                        } else {
                            assert(t == 0);
                            crate::field::lemma_fadd_zero(prev.coeff(m));
                        }
                    }
                    assert forall|xs: Seq<int>| #[trigger] eval_at(r.entry_seq(), xs) == fadd(
                        fmul(eval_at(ps.take(i as int), xs), eval_at(qs, xs)),
                        fmul(eval_term(ps[i as int], xs), eval_at(qs.take(j as int + 1), xs)),
                    ) by {
                        let ci = ps[i as int].1@;
                        let cj = qs[j as int].1@;
                        let mi = mon_eval(ps[i as int].0@, xs);
                        let mj = mon_eval(qs[j as int].0@, xs);
                        let ti = eval_term(ps[i as int], xs);
                        let tj = eval_term(qs[j as int], xs);
                        let a = fmul(eval_at(ps.take(i as int), xs), eval_at(qs, xs));
                        let evqj = eval_at(qs.take(j as int), xs);
                        assert(eval_at(r.entry_seq(), xs) == fadd(
                            eval_at(prev.entry_seq(), xs),
                            fmul(c@, mon_eval(nm@, xs)),
                        ));
                        crate::monomial::lemma_mon_eval_add(
                            ps[i as int].0@,
                            qs[j as int].0@,
                            xs,
                            0,
                        );
                        assert(mon_eval(nm@, xs) == fmul(mi, mj));
                        crate::field::lemma_fmul_four(ci, cj, mi, mj);
                        assert(fmul(c@, mon_eval(nm@, xs)) == fmul(ti, tj));
                        lemma_eval_push(qs.take(j as int), qs[j as int], xs);
                        crate::field::lemma_fadd_assoc(a, fmul(ti, evqj), fmul(ti, tj));
                        crate::field::lemma_fmul_distrib(ti, evqj, tj);
                    }
                }
                j += 1;
            }
            proof {
                assert(qs.take(qs.len() as int) =~= qs);
                assert(ps.take(i as int + 1) =~= ps.take(i as int).push(ps[i as int]));
                assert forall|m: Seq<usize>| #[trigger] r.coeff(m) == conv(
                    ps.take(i as int + 1),
                    qs,
                    m,
                ) by {
                    lemma_conv_push(ps.take(i as int), ps[i as int], qs, m);
                }
                assert forall|xs: Seq<int>| #[trigger] eval_at(r.entry_seq(), xs) == fmul(
                    eval_at(ps.take(i as int + 1), xs),
                    eval_at(qs, xs),
                ) by {
                    let ti = eval_term(ps[i as int], xs);
                    lemma_eval_push(ps.take(i as int), ps[i as int], xs);
                    crate::field::lemma_fmul_distrib_right(
                        eval_at(ps.take(i as int), xs),
                        ti,
                        eval_at(qs, xs),
                    );
                }
            }
            i += 1;
        }
        proof {
            assert(ps.take(ps.len() as int) =~= ps);
        }
        r
    }

    /// Computes the cross terms for folding two instances `(x1, u1)` and
    /// `(x2, u2)`: the coefficients of the middle powers of the challenge
    /// in the homogenized value at the combined instance.  The constant and
    /// leading coefficients belong to the two instances themselves and are
    /// not returned, so the result holds exactly `d - 1` entries, keyed
    /// `1` through `d - 1`.
    pub fn compute_cross_terms(&self, x1: &Vec<Fe>, x2: &Vec<Fe>, u1: Fe, u2: Fe) -> (r: Vec<
        (usize, Fe),
    >)
        requires
            self.wf(),
            x1@.len() == self.arity(),
            x2@.len() == self.arity(),
            forall|i: int| 0 <= i < x1@.len() ==> in_field((#[trigger] x1@[i])@),
            forall|i: int| 0 <= i < x2@.len() ==> in_field((#[trigger] x2@[i])@),
            in_field(u1@),
            in_field(u2@),
            self.bound() < usize::MAX,
        ensures
            r@.len() == self.bound() - 1,
            forall|t: int| 0 <= t < r@.len() ==> (#[trigger] r@[t]).0 == t + 1,
            forall|t: int|
                0 <= t < r@.len() ==> ((#[trigger] r@[t]).1)@ == crate::cross::cross_rp(
                    self.entry_seq(),
                    x1@.map_values(|f: Fe| f@),
                    x2@.map_values(|f: Fe| f@),
                    u1@,
                    u2@,
                    self.bound(),
                )[t + 1],
            forall|t: int| 0 <= t < r@.len() ==> in_field(((#[trigger] r@[t]).1)@),
    {
        let ghost es = self.entries@;
        let ghost xs1 = x1@.map_values(|f: Fe| f@);
        let ghost xs2 = x2@.map_values(|f: Fe| f@);
        let ghost dd = self.d as int;
        let ghost nn = self.n as int;
        let ghost cr = crate::cross::cross_rp(es, xs1, xs2, u1@, u2@, dd);
        proof {
            crate::cross::lemma_cross_rp_len(es, nn, xs1, xs2, u1@, u2@, dd, 0);
        }
        let mut acc: Vec<Fe> = Vec::new();
        let mut t0: usize = 0;
        while t0 < self.d + 1
            invariant
                t0 <= self.d + 1,
                self.bound() < usize::MAX,
                acc@.len() == t0,
                forall|k: int| 0 <= k < t0 ==> ((#[trigger] acc@[k])@) == 0,
            decreases self.d + 1 - t0,
        {
            acc.push(Fe::zero());
            t0 += 1;
        }
        let mut j: usize = 0;
        proof {
            assert forall|k: int| 0 <= k <= dd implies in_field((#[trigger] acc@[k])@) && fadd(
                acc@[k]@,
                crate::cross::cross_rp_from(es, xs1, xs2, u1@, u2@, dd, 0)[k],
            ) == cr[k] by {
                crate::cross::lemma_cross_rp_in_field(es, xs1, xs2, u1@, u2@, dd, 0, k);
                crate::field::lemma_fadd_zero(cr[k]);
            }
        }
        while j < self.entries.len()
            invariant
                self.wf(),
                es == self.entries@,
                xs1 == x1@.map_values(|f: Fe| f@),
                xs2 == x2@.map_values(|f: Fe| f@),
                dd == self.bound(),
                nn == self.arity(),
                dd < usize::MAX,
                x1@.len() == nn,
                x2@.len() == nn,
                forall|i: int| 0 <= i < x1@.len() ==> in_field((#[trigger] x1@[i])@),
                forall|i: int| 0 <= i < x2@.len() ==> in_field((#[trigger] x2@[i])@),
                in_field(u1@),
                in_field(u2@),
                cr == crate::cross::cross_rp(es, xs1, xs2, u1@, u2@, dd),
                cr.len() == dd + 1,
                j <= es.len(),
                acc@.len() == dd + 1,
                forall|k: int|
                    0 <= k <= dd ==> in_field((#[trigger] acc@[k])@) && fadd(
                        acc@[k]@,
                        crate::cross::cross_rp_from(es, xs1, xs2, u1@, u2@, dd, j as int)[k],
                    ) == cr[k],
            decreases self.entries.len() - j,
        {
            let mon = &self.entries[j].0;
            let c = self.entries[j].1;
            proof {
                lemma_mdeg_nonneg(mon@, 0);
            }
            let mut rp: Vec<Fe> = Vec::new();
            rp.push(Fe::one());
            proof {
                assert(crate::cross::views(rp@) =~= crate::cross::mon_rp(
                    mon@,
                    xs1,
                    xs2,
                    nn as int,
                ));
            }
            proof {
                assert(mon@.len() == nn && mdeg(mon@) <= dd);
            }
            let mut i: usize = self.n;
            while i > 0
                invariant
                    self.wf(),
                    es == self.entries@,
                    j < es.len(),
                    mon@ == es[j as int].0@,
                    mon@.len() == nn,
                    mdeg(mon@) <= dd,
                    dd < usize::MAX,
                    xs1 == x1@.map_values(|f: Fe| f@),
                    xs2 == x2@.map_values(|f: Fe| f@),
                    nn == self.arity(),
                    dd == self.bound(),
                    x1@.len() == nn,
                    x2@.len() == nn,
                    forall|t: int| 0 <= t < x1@.len() ==> in_field((#[trigger] x1@[t])@),
                    forall|t: int| 0 <= t < x2@.len() ==> in_field((#[trigger] x2@[t])@),
                    i <= nn,
                    crate::cross::views(rp@) == crate::cross::mon_rp(mon@, xs1, xs2, i as int),
                    rp@.len() == 1 + crate::monomial::mdeg_from(mon@, i as int),
                    forall|t: int| 0 <= t < rp@.len() ==> in_field((#[trigger] rp@[t])@),
                decreases i,
            {
                i -= 1;
                let e = mon[i];
                let mut k: usize = 0;
                proof {
                    crate::monomial::lemma_mdeg_nonneg(mon@, i as int + 1);
                    lemma_mdeg_nonneg(mon@, 0);
                    crate::monomial::lemma_exp_le_mdeg(mon@, i as int);
                    assert(mdeg(mon@) <= dd);
                }
                while k < e
                    invariant
                        self.wf(),
                        es == self.entries@,
                        j < es.len(),
                        mon@ == es[j as int].0@,
                        xs1 == x1@.map_values(|f: Fe| f@),
                        xs2 == x2@.map_values(|f: Fe| f@),
                        x1@.len() == nn,
                        x2@.len() == nn,
                        dd == self.bound(),
                        forall|t: int| 0 <= t < x1@.len() ==> in_field((#[trigger] x1@[t])@),
                        forall|t: int| 0 <= t < x2@.len() ==> in_field((#[trigger] x2@[t])@),
                        i < nn,
                        k <= e,
                        e == mon@[i as int],
                        mon@.len() == nn,
                        mdeg(mon@) <= dd,
                        dd < usize::MAX,
                        crate::cross::views(rp@) == crate::cross::pow_lin(
                            crate::cross::mon_rp(mon@, xs1, xs2, i as int + 1),
                            xs1[i as int],
                            xs2[i as int],
                            k as nat,
                        ),
                        rp@.len() == 1 + crate::monomial::mdeg_from(mon@, i as int + 1) + k,
                        forall|t: int| 0 <= t < rp@.len() ==> in_field((#[trigger] rp@[t])@),
                    decreases e - k,
                {
                    proof {
                        crate::monomial::lemma_mdeg_nonneg(mon@, i as int + 1);
                        crate::monomial::lemma_exp_le_mdeg(mon@, i as int);
                        crate::monomial::lemma_mdeg_from_le(mon@, i as int);
                        assert(crate::monomial::mdeg_from(mon@, i as int) == mon@[i as int] + crate::monomial::mdeg_from(
                            mon@,
                            i as int + 1,
                        ));
                        assert(rp@.len() < usize::MAX);
                        assert(xs1[i as int] == x1@[i as int]@);
                        assert(xs2[i as int] == x2@[i as int]@);
                    }
                    rp = crate::cross::mul_lin_step(&rp, x1[i], x2[i]);
                    k += 1;
                }
                proof {
                    assert(crate::cross::views(rp@) == crate::cross::mon_rp(
                        mon@,
                        xs1,
                        xs2,
                        i as int,
                    ));
                    assert(rp@.len() == 1 + crate::monomial::mdeg_from(mon@, i as int));
                }
            }
            let degm = crate::monomial::mon_deg(mon);
            let mut k: usize = 0;
            while k < self.d - degm
                invariant
                    self.wf(),
                    es == self.entries@,
                    j < es.len(),
                    mon@ == es[j as int].0@,
                    xs1 == x1@.map_values(|f: Fe| f@),
                    xs2 == x2@.map_values(|f: Fe| f@),
                    dd == self.bound(),
                    in_field(u1@),
                    in_field(u2@),
                    degm == mdeg(mon@),
                    degm <= dd < usize::MAX,
                    k <= dd - degm,
                    crate::cross::views(rp@) == crate::cross::pow_lin(
                        crate::cross::mon_rp(mon@, xs1, xs2, 0),
                        u1@,
                        u2@,
                        k as nat,
                    ),
                    rp@.len() == 1 + degm + k,
                    forall|t: int| 0 <= t < rp@.len() ==> in_field((#[trigger] rp@[t])@),
                decreases self.d - degm - k,
            {
                proof {
                    assert(rp@.len() < usize::MAX);
                }
                rp = crate::cross::mul_lin_step(&rp, u1, u2);
                k += 1;
            }
            proof {
                assert(crate::cross::views(rp@) == crate::cross::hom_rp(
                    mon@,
                    xs1,
                    xs2,
                    u1@,
                    u2@,
                    dd,
                ));
                assert(rp@.len() == dd + 1);
            }
            let mut newacc: Vec<Fe> = Vec::new();
            let mut t2: usize = 0;
            while t2 < acc.len()
                invariant
                    self.wf(),
                    in_field(c@),
                    acc@.len() == dd + 1,
                    rp@.len() == dd + 1,
                    t2 <= dd + 1,
                    forall|t: int| 0 <= t < acc@.len() ==> in_field((#[trigger] acc@[t])@),
                    forall|t: int| 0 <= t < rp@.len() ==> in_field((#[trigger] rp@[t])@),
                    newacc@.len() == t2,
                    forall|t: int|
                        0 <= t < t2 ==> ((#[trigger] newacc@[t])@) == fadd(
                            acc@[t]@,
                            fmul(c@, rp@[t]@),
                        ) && in_field(newacc@[t]@),
                decreases acc.len() - t2,
            {
                let v = acc[t2].add(c.mul(rp[t2]));
                newacc.push(v);
                t2 += 1;
            }
            proof {
                let from_j = crate::cross::cross_rp_from(es, xs1, xs2, u1@, u2@, dd, j as int);
                let from_j1 = crate::cross::cross_rp_from(
                    es,
                    xs1,
                    xs2,
                    u1@,
                    u2@,
                    dd,
                    j as int + 1,
                );
                crate::cross::lemma_cross_rp_len(es, nn, xs1, xs2, u1@, u2@, dd, j as int + 1);
                crate::cross::lemma_hom_rp_len(mon@, xs1, xs2, u1@, u2@, dd);
                assert forall|k2: int| 0 <= k2 <= dd implies in_field((#[trigger] newacc@[k2])@)
                    && fadd(newacc@[k2]@, from_j1[k2]) == cr[k2] by {
                    let hk = crate::cross::hom_rp(mon@, xs1, xs2, u1@, u2@, dd)[k2];
                    assert(crate::cross::views(rp@)[k2] == rp@[k2]@);
                    assert(rp@[k2]@ == hk);
                    assert(from_j[k2] == fadd(fmul(c@, hk), from_j1[k2]));
                    assert(newacc@[k2]@ == fadd(acc@[k2]@, fmul(c@, hk)));
                    crate::field::lemma_fadd_assoc(acc@[k2]@, fmul(c@, hk), from_j1[k2]);
                }
            }
            acc = newacc;
            j += 1;
        }
        proof {
            assert forall|k: int| 0 <= k <= dd implies ((#[trigger] acc@[k])@) == cr[k] by {
                assert(crate::cross::cross_rp_from(es, xs1, xs2, u1@, u2@, dd, es.len() as int)
                    =~= crate::cross::zero_rp(dd));
                assert(crate::cross::zero_rp(dd)[k] == 0);
                crate::field::lemma_fadd_zero(acc@[k]@);
            }
        }
        let mut out: Vec<(usize, Fe)> = Vec::new();
        let mut k: usize = 1;
        while k < self.d
            invariant
                1 <= k <= self.d,
                dd == self.bound(),
                acc@.len() == dd + 1,
                forall|t: int| 0 <= t <= dd ==> ((#[trigger] acc@[t])@) == cr[t],
                forall|t: int| 0 <= t <= dd ==> in_field((#[trigger] acc@[t])@),
                out@.len() == k - 1,
                forall|t: int| 0 <= t < out@.len() ==> (#[trigger] out@[t]).0 == t + 1,
                forall|t: int|
                    0 <= t < out@.len() ==> ((#[trigger] out@[t]).1)@ == cr[t + 1] && in_field(
                        out@[t].1@,
                    ),
            decreases self.d - k,
        {
            out.push((k, acc[k]));
            k += 1;
        }
        out
    }
}

/// The contribution of one entry of the left factor, against the entries
/// of the right factor: the sum of the products whose combined monomial is
/// `m`.
pub open spec fn conv_row(
    e: (Vec<usize>, Fe),
    qs: Seq<(Vec<usize>, Fe)>,
    m: Seq<usize>,
) -> int
    decreases qs.len(),
{
    if qs.len() == 0 {
        0
    } else {
        fadd(
            if m == add_mon(e.0@, qs[0].0@) {
                fmul(e.1@, qs[0].1@)
            } else {
                0
            },
            conv_row(e, qs.drop_first(), m),
        )
    }
}

/// The convolution of two entry lists at a monomial `m`: the sum over all
/// pairs of entries whose monomials add to `m` of the product of their
/// coefficients.
pub open spec fn conv(
    ps: Seq<(Vec<usize>, Fe)>,
    qs: Seq<(Vec<usize>, Fe)>,
    m: Seq<usize>,
) -> int
    decreases ps.len(),
{
    if ps.len() == 0 {
        0
    } else {
        fadd(conv_row(ps[0], qs, m), conv(ps.drop_first(), qs, m))
    }
}

/// Convolution sums are reduced or zero.
proof fn lemma_conv_in_field(ps: Seq<(Vec<usize>, Fe)>, qs: Seq<(Vec<usize>, Fe)>, m: Seq<usize>)
    ensures
        in_field(conv(ps, qs, m)),
    decreases ps.len(),
{
    if ps.len() > 0 {
        crate::field::lemma_field_closed(conv_row(ps[0], qs, m), conv(ps.drop_first(), qs, m));
    }
}

proof fn lemma_conv_row_push(
    e: (Vec<usize>, Fe),
    qs: Seq<(Vec<usize>, Fe)>,
    q: (Vec<usize>, Fe),
    m: Seq<usize>,
)
    ensures
        conv_row(e, qs.push(q), m) == fadd(
            conv_row(e, qs, m),
            if m == add_mon(e.0@, q.0@) {
                fmul(e.1@, q.1@)
            } else {
                0
            },
        ),
    decreases qs.len(),
{
    let t = if m == add_mon(e.0@, q.0@) {
        fmul(e.1@, q.1@)
    } else {
        0
    };
    if qs.len() == 0 {
        assert(qs.push(q)[0] == q);
        assert(qs.push(q).drop_first() =~= qs);
        assert(conv_row(e, qs.push(q).drop_first(), m) == 0);
        assert(conv_row(e, qs.push(q), m) == fadd(t, conv_row(e, qs.push(q).drop_first(), m)));
        crate::field::lemma_field_closed(e.1@, q.1@);
        crate::field::lemma_fadd_zero(0);
        if m == add_mon(e.0@, q.0@) {
            crate::field::lemma_fadd_zero(fmul(e.1@, q.1@));
        }
    } else {
        assert(qs.push(q)[0] == qs[0]);
        assert(qs.push(q).drop_first() =~= qs.drop_first().push(q));
        lemma_conv_row_push(e, qs.drop_first(), q, m);
        let t0 = if m == add_mon(e.0@, qs[0].0@) {
            fmul(e.1@, qs[0].1@)
        } else {
            0
        };
        crate::field::lemma_fadd_assoc(t0, conv_row(e, qs.drop_first(), m), t);
    }
}

proof fn lemma_conv_push(
    ps: Seq<(Vec<usize>, Fe)>,
    e: (Vec<usize>, Fe),
    qs: Seq<(Vec<usize>, Fe)>,
    m: Seq<usize>,
)
    ensures
        conv(ps.push(e), qs, m) == fadd(conv(ps, qs, m), conv_row(e, qs, m)),
    decreases ps.len(),
{
    if ps.len() == 0 {
        assert(ps.push(e)[0] == e);
        assert(ps.push(e).drop_first() =~= ps);
        assert(conv(ps.push(e).drop_first(), qs, m) == 0);
        assert(conv(ps.push(e), qs, m) == fadd(
            conv_row(e, qs, m),
            conv(ps.push(e).drop_first(), qs, m),
        ));
        crate::field::lemma_fadd_zero(0);
        assert(fadd(conv_row(e, qs, m), 0) == fadd(0, conv_row(e, qs, m)));
    } else {
        assert(ps.push(e)[0] == ps[0]);
        assert(ps.push(e).drop_first() =~= ps.drop_first().push(e));
        lemma_conv_push(ps.drop_first(), e, qs, m);
        crate::field::lemma_fadd_assoc(
            conv_row(ps[0], qs, m),
            conv(ps.drop_first(), qs, m),
            conv_row(e, qs, m),
        );
    }
}

/// The largest degree among the first `j` entries.
pub open spec fn poly_deg_upto(es: Seq<(Vec<usize>, Fe)>, j: int) -> int {
    poly_deg(es.take(j))
}

proof fn lemma_poly_deg_upto_step(es: Seq<(Vec<usize>, Fe)>, j: int)
    requires
        0 <= j < es.len(),
    ensures
        poly_deg_upto(es, j + 1) == if mdeg(es[j].0@) >= poly_deg_upto(es, j) {
            mdeg(es[j].0@)
        } else {
            poly_deg_upto(es, j)
        },
{
    assert(es.take(j + 1) =~= es.take(j).push(es[j]));
    lemma_poly_deg_push(es.take(j), es[j]);
}

proof fn lemma_poly_deg_push(s: Seq<(Vec<usize>, Fe)>, e: (Vec<usize>, Fe))
    ensures
        poly_deg(s.push(e)) == if mdeg(e.0@) >= poly_deg(s) {
            mdeg(e.0@)
        } else {
            poly_deg(s)
        },
    decreases s.len(),
{
    if s.len() == 0 {
        assert(s.push(e)[0] == e);
        assert(s.push(e).drop_first() =~= s);
    } else {
        assert(s.push(e)[0] == s[0]);
        assert(s.push(e).drop_first() =~= s.drop_first().push(e));
        lemma_poly_deg_push(s.drop_first(), e);
    }
}

proof fn lemma_poly_deg_upto_full(es: Seq<(Vec<usize>, Fe)>, j: int)
    requires
        j == es.len(),
    ensures
        poly_deg_upto(es, j) == poly_deg(es),
{
    assert(es.take(j) =~= es);
}

/// A monomial of degree zero is the all-zero tuple of its length, so two
/// equal-length degree-zero monomials are equal.
proof fn lemma_deg0_unique(a: Seq<usize>, b: Seq<usize>)
    requires
        a.len() == b.len(),
        mdeg(a) == 0,
        mdeg(b) == 0,
    ensures
        a == b,
{
    assert forall|i: int| 0 <= i < a.len() implies a[i] == 0 && b[i] == 0 by {
        crate::monomial::lemma_exp_le_mdeg(a, i);
        crate::monomial::lemma_exp_le_mdeg(b, i);
    }
    assert(a =~= b);
}

/// A stored entry's monomial has a non-zero coefficient.
proof fn lemma_entry_coeff_nonzero(es: Seq<(Vec<usize>, Fe)>, k: int)
    requires
        0 <= k < es.len(),
        forall|i: int| 0 <= i < es.len() ==> in_field((#[trigger] es[i]).1@) && (es[i]).1@ != 0,
    ensures
        coeff_of(es, es[k].0@) != 0,
    decreases k,
{
    if k == 0 {
    } else {
        if es[0].0@ == es[k].0@ {
        } else {
            assert(es.drop_first()[k - 1] == es[k]);
            assert forall|i: int| 0 <= i < es.drop_first().len() implies in_field(
                (#[trigger] es.drop_first()[i]).1@,
            ) && (es.drop_first()[i]).1@ != 0 by {
                assert(es.drop_first()[i] == es[i + 1]);
            }
            lemma_entry_coeff_nonzero(es.drop_first(), k - 1);
        }
    }
}


/// The total degree of a stored entry list: the largest degree of a stored
/// monomial, zero when nothing is stored.
pub open spec fn poly_deg(es: Seq<(Vec<usize>, Fe)>) -> int
    decreases es.len(),
{
    if es.len() == 0 {
        0
    } else if mdeg(es[0].0@) >= poly_deg(es.drop_first()) {
        mdeg(es[0].0@)
    } else {
        poly_deg(es.drop_first())
    }
}

/// The value of a stored entry list at a point.
pub open spec fn eval_at(es: Seq<(Vec<usize>, Fe)>, xs: Seq<int>) -> int
    decreases es.len(),
{
    if es.len() == 0 {
        0
    } else {
        fadd(
            fmul(es[0].1@, mon_eval(es[0].0@, xs)),
            eval_at(es.drop_first(), xs),
        )
    }
}

/// The value of the degree-`d` homogenization of a stored entry list at a
/// point with slack `u`: each monomial is padded by the power of `u` that
/// brings its degree up to `d`.
pub open spec fn hom_eval_at(es: Seq<(Vec<usize>, Fe)>, xs: Seq<int>, u: int, d: int) -> int
    decreases es.len(),
{
    if es.len() == 0 {
        0
    } else {
        fadd(
            fmul(
                es[0].1@,
                fmul(fpow(u, (d - mdeg(es[0].0@)) as nat), mon_eval(es[0].0@, xs)),
            ),
            hom_eval_at(es.drop_first(), xs, u, d),
        )
    }
}

/// Values of the evaluation sums are reduced field elements.
proof fn lemma_eval_in_field(es: Seq<(Vec<usize>, Fe)>, xs: Seq<int>, u: int, d: int)
    ensures
        in_field(eval_at(es, xs)),
        in_field(hom_eval_at(es, xs, u, d)),
    decreases es.len(),
{
    if es.len() > 0 {
        crate::field::lemma_field_closed(
            fmul(es[0].1@, mon_eval(es[0].0@, xs)),
            eval_at(es.drop_first(), xs),
        );
        crate::field::lemma_field_closed(
            fmul(es[0].1@, fmul(fpow(u, (d - mdeg(es[0].0@)) as nat), mon_eval(es[0].0@, xs))),
            hom_eval_at(es.drop_first(), xs, u, d),
        );
    }
}

/// With slack one, the homogenized value of a list is its plain value.
pub proof fn lemma_hom_eval_unit_slack(es: Seq<(Vec<usize>, Fe)>, xs: Seq<int>, d: int)
    ensures
        hom_eval_at(es, xs, 1, d) == eval_at(es, xs),
    decreases es.len(),
{
    if es.len() > 0 {
        lemma_hom_eval_unit_slack(es.drop_first(), xs, d);
        crate::field::lemma_fpow_one((d - mdeg(es[0].0@)) as nat);
        crate::monomial::lemma_mon_eval_in_field(es[0].0@, xs, 0);
        crate::field::lemma_fmul_one(mon_eval(es[0].0@, xs));
    }
}

/// The term an entry contributes to an evaluation.
pub open spec fn eval_term(e: (Vec<usize>, Fe), xs: Seq<int>) -> int {
    fmul(e.1@, mon_eval(e.0@, xs))
}

/// Appending an entry adds its term to the value.
proof fn lemma_eval_push(es: Seq<(Vec<usize>, Fe)>, e: (Vec<usize>, Fe), xs: Seq<int>)
    ensures
        eval_at(es.push(e), xs) == fadd(eval_at(es, xs), eval_term(e, xs)),
    decreases es.len(),
{
    if es.len() == 0 {
        assert(es.push(e)[0] == e);
        assert(es.push(e).drop_first() =~= es);
        assert(eval_at(es.push(e).drop_first(), xs) == 0);
        assert(eval_at(es.push(e), xs) == fadd(
            eval_term(e, xs),
            eval_at(es.push(e).drop_first(), xs),
        ));
    } else {
        assert(es.push(e)[0] == es[0]);
        assert(es.push(e).drop_first() =~= es.drop_first().push(e));
        lemma_eval_push(es.drop_first(), e, xs);
        crate::field::lemma_fadd_assoc(
            eval_term(es[0], xs),
            eval_at(es.drop_first(), xs),
            eval_term(e, xs),
        );
    }
}

/// Inserting an entry adds its term to the value.
proof fn lemma_eval_insert(es: Seq<(Vec<usize>, Fe)>, k: int, e: (Vec<usize>, Fe), xs: Seq<int>)
    requires
        0 <= k <= es.len(),
    ensures
        eval_at(es.insert(k, e), xs) == fadd(eval_at(es, xs), eval_term(e, xs)),
    decreases k,
{
    let es2 = es.insert(k, e);
    if k == 0 {
        assert(es2[0] == e);
        assert(es2.drop_first() =~= es);
        assert(eval_at(es2, xs) == fadd(eval_term(e, xs), eval_at(es, xs)));
    } else {
        assert(es2[0] == es[0]);
        assert(es2.drop_first() =~= es.drop_first().insert(k - 1, e));
        lemma_eval_insert(es.drop_first(), k - 1, e, xs);
        crate::field::lemma_fadd_assoc(
            eval_term(es[0], xs),
            eval_at(es.drop_first(), xs),
            eval_term(e, xs),
        );
    }
}

/// Removing an entry takes its term out of the value.
proof fn lemma_eval_remove(es: Seq<(Vec<usize>, Fe)>, k: int, xs: Seq<int>)
    requires
        0 <= k < es.len(),
    ensures
        eval_at(es, xs) == fadd(eval_at(es.remove(k), xs), eval_term(es[k], xs)),
    decreases k,
{
    let es2 = es.remove(k);
    if k == 0 {
        assert(es2 =~= es.drop_first());
        assert(eval_at(es, xs) == fadd(eval_term(es[0], xs), eval_at(es.drop_first(), xs)));
    } else {
        assert(es2[0] == es[0]);
        assert(es2.drop_first() =~= es.drop_first().remove(k - 1));
        assert(es.drop_first()[k - 1] == es[k]);
        lemma_eval_remove(es.drop_first(), k - 1, xs);
        crate::field::lemma_fadd_assoc(
            eval_term(es[0], xs),
            eval_at(es.drop_first().remove(k - 1), xs),
            eval_term(es[k], xs),
        );
    }
}

/// Every stored monomial's degree is bounded by the list's degree, and the
/// list's degree is witnessed by a stored monomial when non-zero.
proof fn lemma_poly_deg(es: Seq<(Vec<usize>, Fe)>)
    ensures
        forall|i: int| 0 <= i < es.len() ==> mdeg((#[trigger] es[i]).0@) <= poly_deg(es),
        poly_deg(es) >= 0,
        es.len() > 0 ==> exists|i: int|
            0 <= i < es.len() && mdeg((#[trigger] es[i]).0@) == poly_deg(es),
    decreases es.len(),
{
    if es.len() > 0 {
        lemma_poly_deg(es.drop_first());
        lemma_mdeg_nonneg(es[0].0@, 0);
        assert forall|i: int| 0 <= i < es.len() implies mdeg((#[trigger] es[i]).0@) <= poly_deg(
            es,
        ) by {
            if i > 0 {
                assert(es.drop_first()[i - 1] == es[i]);
            }
        }
        if mdeg(es[0].0@) >= poly_deg(es.drop_first()) {
            assert(mdeg(es[0].0@) == poly_deg(es));
        } else {
            let i = choose|i: int|
                0 <= i < es.drop_first().len() && mdeg(
                    (#[trigger] es.drop_first()[i]).0@,
                ) == poly_deg(es.drop_first());
            assert(es[i + 1] == es.drop_first()[i]);
        }
    }
}

/// A non-zero coefficient means the monomial is stored.
proof fn lemma_coeff_has(es: Seq<(Vec<usize>, Fe)>, m: Seq<usize>)
    requires
        coeff_of(es, m) != 0,
    ensures
        has_mon(es, m),
    decreases es.len(),
{
    if es.len() > 0 {
        if es[0].0@ == m {
        } else {
            lemma_coeff_has(es.drop_first(), m);
            let t = choose|t: int|
                0 <= t < es.drop_first().len() && (#[trigger] es.drop_first()[t]).0@ == m;
            assert(es[t + 1] == es.drop_first()[t]);
        }
    }
}

/// All coefficients that a well-formed list yields are reduced.
proof fn lemma_coeff_of_in_field(es: Seq<(Vec<usize>, Fe)>, n: int, d: int, m: Seq<usize>)
    requires
        entries_wf(es, n, d),
    ensures
        in_field(coeff_of(es, m)),
    decreases es.len(),
{
    if es.len() > 0 {
        assert(entries_wf(es.drop_first(), n, d)) by {
            lemma_entries_wf_drop(es, n, d);
        }
        lemma_coeff_of_in_field(es.drop_first(), n, d, m);
    }
}

/// A non-zero coefficient comes from a stored, valid monomial.
proof fn lemma_coeff_of_support(es: Seq<(Vec<usize>, Fe)>, n: int, d: int, m: Seq<usize>)
    requires
        entries_wf(es, n, d),
        coeff_of(es, m) != 0,
    ensures
        m.len() == n,
        mdeg(m) <= d,
    decreases es.len(),
{
    if es.len() > 0 {
        if es[0].0@ == m {
        } else {
            assert(entries_wf(es.drop_first(), n, d)) by {
                lemma_entries_wf_drop(es, n, d);
            }
            lemma_coeff_of_support(es.drop_first(), n, d, m);
        }
    }
}

/// Dropping the first entry keeps a list well formed.
proof fn lemma_entries_wf_drop(es: Seq<(Vec<usize>, Fe)>, n: int, d: int)
    requires
        entries_wf(es, n, d),
        es.len() > 0,
    ensures
        entries_wf(es.drop_first(), n, d),
{
    let t = es.drop_first();
    assert forall|i: int| 0 <= i < t.len() implies (#[trigger] t[i]).0@.len() == n && mdeg(
        t[i].0@,
    ) <= d && in_field(t[i].1@) && t[i].1@ != 0 by {
        assert(t[i] == es[i + 1]);
    }
    assert forall|i: int| 0 <= i && i + 1 < t.len() implies lex_lt(
        (#[trigger] t[i]).0@,
        t[i + 1].0@,
    ) by {
        assert(t[i] == es[i + 1]);
        assert(t[i + 1] == es[i + 2]);
    }
}

/// Removing an entry keeps a list well formed.
proof fn lemma_sorted_remove(es: Seq<(Vec<usize>, Fe)>, n: int, d: int, k: int)
    requires
        entries_wf(es, n, d),
        0 <= k < es.len(),
    ensures
        entries_wf(es.remove(k), n, d),
{
    let t = es.remove(k);
    assert forall|i: int| 0 <= i < t.len() implies (#[trigger] t[i]).0@.len() == n && mdeg(
        t[i].0@,
    ) <= d && in_field(t[i].1@) && t[i].1@ != 0 by {
        if i < k {
            assert(t[i] == es[i]);
        } else {
            assert(t[i] == es[i + 1]);
        }
    }
    assert forall|i: int| 0 <= i && i + 1 < t.len() implies lex_lt(
        (#[trigger] t[i]).0@,
        t[i + 1].0@,
    ) by {
        if i + 1 < k {
            assert(t[i] == es[i]);
            assert(t[i + 1] == es[i + 1]);
        } else if i + 1 == k {
            assert(t[i] == es[i]);
            assert(t[i + 1] == es[i + 2]);
            lemma_entries_increasing(es, n, d, i, i + 2);
        } else {
            assert(t[i] == es[i + 1]);
            assert(t[i + 1] == es[i + 2]);
        }
    }
}

/// Inserting an entry between its ordered neighbours keeps a list well
/// formed.
proof fn lemma_sorted_insert(
    es: Seq<(Vec<usize>, Fe)>,
    n: int,
    d: int,
    k: int,
    e: (Vec<usize>, Fe),
)
    requires
        entries_wf(es, n, d),
        0 <= k <= es.len(),
        e.0@.len() == n,
        mdeg(e.0@) <= d,
        in_field(e.1@),
        e.1@ != 0,
        k > 0 ==> lex_lt(es[k - 1].0@, e.0@),
        k < es.len() ==> lex_lt(e.0@, es[k].0@),
    ensures
        entries_wf(es.insert(k, e), n, d),
{
    let t = es.insert(k, e);
    assert forall|i: int| 0 <= i < t.len() implies (#[trigger] t[i]).0@.len() == n && mdeg(
        t[i].0@,
    ) <= d && in_field(t[i].1@) && t[i].1@ != 0 by {
        if i < k {
            assert(t[i] == es[i]);
        } else if i == k {
            assert(t[i] == e);
        } else {
            assert(t[i] == es[i - 1]);
        }
    }
    assert forall|i: int| 0 <= i && i + 1 < t.len() implies lex_lt(
        (#[trigger] t[i]).0@,
        t[i + 1].0@,
    ) by {
        if i + 1 < k {
            assert(t[i] == es[i]);
            assert(t[i + 1] == es[i + 1]);
        } else if i + 1 == k {
            assert(t[i] == es[i]);
            assert(t[i + 1] == e);
        } else if i == k {
            assert(t[i] == e);
            assert(t[i + 1] == es[i]);
        } else {
            assert(t[i] == es[i - 1]);
            assert(t[i + 1] == es[i]);
        }
    }
}

/// A list whose coefficients are all zero stores nothing.
proof fn lemma_zero_entries(es: Seq<(Vec<usize>, Fe)>, n: int, d: int)
    requires
        entries_wf(es, n, d),
        forall|m: Seq<usize>| #[trigger] coeff_of(es, m) == 0,
    ensures
        es.len() == 0,
{
    if es.len() > 0 {
        lemma_entry_coeff_nonzero(es, 0);
        assert(coeff_of(es, es[0].0@) == 0);
        assert(false);
    }
}

/// Two well-formed lists with the same coefficients are the same list.
proof fn lemma_entries_unique(es1: Seq<(Vec<usize>, Fe)>, es2: Seq<(Vec<usize>, Fe)>, n: int, d: int)
    requires
        entries_wf(es1, n, d),
        entries_wf(es2, n, d),
        forall|m: Seq<usize>| #[trigger] coeff_of(es1, m) == coeff_of(es2, m),
    ensures
        es1.len() == es2.len(),
        forall|i: int|
            0 <= i < es1.len() ==> (#[trigger] es1[i]).0@ == es2[i].0@ && es1[i].1@ == es2[i].1@,
    decreases es1.len() + es2.len(),
{
    if es1.len() == 0 && es2.len() == 0 {
    } else if es1.len() == 0 {
        lemma_entry_coeff_nonzero(es2, 0);
        assert(coeff_of(es1, es2[0].0@) == 0);
        assert(false);
    } else if es2.len() == 0 {
        lemma_entry_coeff_nonzero(es1, 0);
        assert(coeff_of(es2, es1[0].0@) == 0);
        assert(false);
    } else {
        let m1 = es1[0].0@;
        let m2 = es2[0].0@;
        lemma_lex_trichotomy(m1, m2);
        if lex_lt(m1, m2) {
            lemma_coeff_at(es1, 0);
            assert forall|t: int| 0 <= t < es2.len() implies (#[trigger] es2[t]).0@ != m1 by {
                if t > 0 {
                    lemma_entries_increasing(es2, n, d, 0, t);
                    lemma_lex_trans(m1, m2, es2[t].0@);
                    lemma_lex_trichotomy(m1, es2[t].0@);
                } else {
                    lemma_lex_trichotomy(m1, m2);
                }
            }
            lemma_coeff_absent(es2, m1);
            assert(false);
        }
        if lex_lt(m2, m1) {
            lemma_coeff_at(es2, 0);
            assert forall|t: int| 0 <= t < es1.len() implies (#[trigger] es1[t]).0@ != m2 by {
                if t > 0 {
                    lemma_entries_increasing(es1, n, d, 0, t);
                    lemma_lex_trans(m2, m1, es1[t].0@);
                    lemma_lex_trichotomy(m2, es1[t].0@);
                } else {
                    lemma_lex_trichotomy(m2, m1);
                }
            }
            lemma_coeff_absent(es1, m2);
            assert(false);
        }
        assert(m1 == m2);
        lemma_coeff_at(es1, 0);
        lemma_coeff_at(es2, 0);
        assert(es1[0].1@ == es2[0].1@);
        let t1 = es1.drop_first();
        let t2 = es2.drop_first();
        lemma_entries_wf_drop(es1, n, d);
        lemma_entries_wf_drop(es2, n, d);
        assert forall|m: Seq<usize>| #[trigger] coeff_of(t1, m) == coeff_of(t2, m) by {
            if m == m1 {
                assert forall|t: int| 0 <= t < t1.len() implies (#[trigger] t1[t]).0@ != m by {
                    assert(t1[t] == es1[t + 1]);
                    lemma_entries_increasing(es1, n, d, 0, t + 1);
                    lemma_lex_trichotomy(m1, es1[t + 1].0@);
                }
                assert forall|t: int| 0 <= t < t2.len() implies (#[trigger] t2[t]).0@ != m by {
                    assert(t2[t] == es2[t + 1]);
                    lemma_entries_increasing(es2, n, d, 0, t + 1);
                    lemma_lex_trichotomy(m2, es2[t + 1].0@);
                }
                lemma_coeff_absent(t1, m);
                lemma_coeff_absent(t2, m);
            } else {
                assert(coeff_of(es1, m) == coeff_of(t1, m));
                assert(coeff_of(es2, m) == coeff_of(t2, m));
            }
        }
        lemma_entries_unique(t1, t2, n, d);
        assert forall|i: int|
            0 <= i < es1.len() implies (#[trigger] es1[i]).0@ == es2[i].0@ && es1[i].1@ == es2[
            i].1@ by {
            if i > 0 {
                assert(t1[i - 1] == es1[i]);
                assert(t2[i - 1] == es2[i]);
            }
        }
    }
}

impl Sparse {
    /// Two well-formed polynomials of one shape with the same coefficients
    /// are equal.
    pub proof fn lemma_same_coeffs_equal(&self, other: &Sparse)
        requires
            self.wf(),
            other.wf(),
            self.arity() == other.arity(),
            self.bound() == other.bound(),
            forall|m: Seq<usize>| #[trigger] self.coeff(m) == other.coeff(m),
        ensures
            self.equiv(other),
    {
        assert forall|m: Seq<usize>| #[trigger] coeff_of(self.entries@, m) == coeff_of(
            other.entries@,
            m,
        ) by {
            assert(self.coeff(m) == other.coeff(m));
        }
        lemma_entries_unique(self.entries@, other.entries@, self.n as int, self.d as int);
    }
}

impl PartialEq for Sparse {
    fn eq(&self, o: &Sparse) -> (r: bool) {
        if self.n != o.n || self.d != o.d || self.entries.len() != o.entries.len() {
            return false;
        }
        let mut i: usize = 0;
        while i < self.entries.len()
            invariant
                self.n == o.n,
                self.d == o.d,
                self.entries@.len() == o.entries@.len(),
                i <= self.entries@.len(),
                forall|t: int|
                    0 <= t < i ==> (#[trigger] self.entries@[t]).0@ == o.entries@[t].0@
                        && self.entries@[t].1@ == o.entries@[t].1@,
            decreases self.entries.len() - i,
        {
            if !mon_eq(&self.entries[i].0, &o.entries[i].0) {
                return false;
            }
            if !self.entries[i].1.equals(&o.entries[i].1) {
                return false;
            }
            i += 1;
        }
        true
    }
}

impl vstd::std_specs::cmp::PartialEqSpecImpl for Sparse {
    open spec fn obeys_eq_spec() -> bool {
        true
    }

    open spec fn eq_spec(&self, o: &Sparse) -> bool {
        self.equiv(o)
    }
}

/// A monomial plus the zero monomial is itself.
proof fn lemma_add_mon_zero(a: Seq<usize>, n: int)
    requires
        a.len() == n,
        0 <= n,
    ensures
        add_mon(a, zero_mon(n)) == a,
{
    assert(add_mon(a, zero_mon(n)) =~= a);
}

/// Multiplying a list by the constant-one list leaves the coefficients
/// unchanged.
proof fn lemma_conv_one(ps: Seq<(Vec<usize>, Fe)>, qs: Seq<(Vec<usize>, Fe)>, n: int, d: int)
    requires
        entries_wf(ps, n, d),
        qs.len() == 1,
        qs[0].0@ == zero_mon(n),
        qs[0].1@ == 1,
        0 <= n,
    ensures
        forall|m: Seq<usize>| #[trigger] conv(ps, qs, m) == coeff_of(ps, m),
    decreases ps.len(),
{
    if ps.len() == 0 {
    } else {
        lemma_entries_wf_drop(ps, n, d);
        lemma_conv_one(ps.drop_first(), qs, n, d);
        assert forall|m: Seq<usize>| #[trigger] conv(ps, qs, m) == coeff_of(ps, m) by {
            let e = ps[0];
            assert(conv(ps.drop_first(), qs, m) == coeff_of(ps.drop_first(), m));
            assert(conv(ps, qs, m) == fadd(conv_row(e, qs, m), conv(ps.drop_first(), qs, m)));
            lemma_add_mon_zero(e.0@, n);
            assert(qs.drop_first() =~= Seq::<(Vec<usize>, Fe)>::empty());
            assert(conv_row(e, qs.drop_first(), m) == 0);
            assert(conv_row(e, qs, m) == fadd(
                if m == add_mon(e.0@, qs[0].0@) {
                    fmul(e.1@, qs[0].1@)
                } else {
                    0
                },
                conv_row(e, qs.drop_first(), m),
            ));
            crate::field::lemma_fmul_one(e.1@);
            if m == e.0@ {
                crate::field::lemma_fadd_zero(e.1@);
                assert(conv_row(e, qs, m) == e.1@);
                assert forall|t: int| 0 <= t < ps.drop_first().len() implies (
                #[trigger] ps.drop_first()[t]).0@ != m by {
                    assert(ps.drop_first()[t] == ps[t + 1]);
                    lemma_entries_increasing(ps, n, d, 0, t + 1);
                    lemma_lex_trichotomy(m, ps[t + 1].0@);
                }
                lemma_coeff_absent(ps.drop_first(), m);
                crate::field::lemma_fadd_zero(e.1@);
            } else {
                crate::field::lemma_fadd_zero(0);
                assert(conv_row(e, qs, m) == 0);
                lemma_coeff_of_in_field(ps.drop_first(), n, d, m);
                crate::field::lemma_fadd_zero(coeff_of(ps.drop_first(), m));
            }
        }
    }
}

/// Multiplying by the empty list gives zero everywhere.
proof fn lemma_conv_zero_right(ps: Seq<(Vec<usize>, Fe)>, qs: Seq<(Vec<usize>, Fe)>, m: Seq<usize>)
    requires
        qs.len() == 0,
    ensures
        conv(ps, qs, m) == 0,
    decreases ps.len(),
{
    if ps.len() > 0 {
        lemma_conv_zero_right(ps.drop_first(), qs, m);
    }
}

/// Adding the zero polynomial gives the same polynomial back.
pub proof fn lemma_add_zero_law(p: &Sparse, z: &Sparse, r: &Sparse)
    requires
        p.wf(),
        z.wf(),
        r.wf(),
        z.arity() == p.arity(),
        z.bound() == p.bound(),
        r.arity() == p.arity(),
        r.bound() == p.bound(),
        forall|m: Seq<usize>| #[trigger] z.coeff(m) == 0,
        forall|m: Seq<usize>| #[trigger] r.coeff(m) == fadd(p.coeff(m), z.coeff(m)),
    ensures
        r.equiv(p),
{
    assert forall|m: Seq<usize>| #[trigger] r.coeff(m) == p.coeff(m) by {
        p.lemma_coeff_in_field(m);
        crate::field::lemma_fadd_zero(p.coeff(m));
    }
    r.lemma_same_coeffs_equal(p);
}

/// A polynomial plus its negation is the zero polynomial.
pub proof fn lemma_add_neg_law(p: &Sparse, np: &Sparse, r: &Sparse, z: &Sparse)
    requires
        p.wf(),
        np.wf(),
        r.wf(),
        z.wf(),
        np.arity() == p.arity(),
        np.bound() == p.bound(),
        r.arity() == p.arity(),
        r.bound() == p.bound(),
        z.arity() == p.arity(),
        z.bound() == p.bound(),
        forall|m: Seq<usize>| #[trigger] np.coeff(m) == crate::field::fneg(p.coeff(m)),
        forall|m: Seq<usize>| #[trigger] r.coeff(m) == fadd(p.coeff(m), np.coeff(m)),
        forall|m: Seq<usize>| #[trigger] z.coeff(m) == 0,
    ensures
        r.equiv(z),
{
    assert forall|m: Seq<usize>| #[trigger] r.coeff(m) == z.coeff(m) by {
        p.lemma_coeff_in_field(m);
        crate::field::lemma_fadd_neg(p.coeff(m));
    }
    r.lemma_same_coeffs_equal(z);
}

/// A polynomial minus itself is the zero polynomial.
pub proof fn lemma_sub_self_law(p: &Sparse, r: &Sparse, z: &Sparse)
    requires
        p.wf(),
        r.wf(),
        z.wf(),
        r.arity() == p.arity(),
        r.bound() == p.bound(),
        z.arity() == p.arity(),
        z.bound() == p.bound(),
        forall|m: Seq<usize>| #[trigger] r.coeff(m) == crate::field::fsub(
            p.coeff(m),
            p.coeff(m),
        ),
        forall|m: Seq<usize>| #[trigger] z.coeff(m) == 0,
    ensures
        r.equiv(z),
{
    assert forall|m: Seq<usize>| #[trigger] r.coeff(m) == z.coeff(m) by {
        p.lemma_coeff_in_field(m);
        crate::field::lemma_fsub_self(p.coeff(m));
    }
    r.lemma_same_coeffs_equal(z);
}

/// Negating twice gives the polynomial back.
pub proof fn lemma_neg_neg_law(p: &Sparse, q: &Sparse, r: &Sparse)
    requires
        p.wf(),
        q.wf(),
        r.wf(),
        q.arity() == p.arity(),
        q.bound() == p.bound(),
        r.arity() == p.arity(),
        r.bound() == p.bound(),
        forall|m: Seq<usize>| #[trigger] q.coeff(m) == crate::field::fneg(p.coeff(m)),
        forall|m: Seq<usize>| #[trigger] r.coeff(m) == crate::field::fneg(q.coeff(m)),
    ensures
        r.equiv(p),
{
    assert forall|m: Seq<usize>| #[trigger] r.coeff(m) == p.coeff(m) by {
        p.lemma_coeff_in_field(m);
        crate::field::lemma_fneg_fneg(p.coeff(m));
    }
    r.lemma_same_coeffs_equal(p);
}

/// Multiplying by the constant polynomial one gives the polynomial back.
pub proof fn lemma_mul_one_law(p: &Sparse, o: &Sparse, r: &Sparse)
    requires
        p.wf(),
        o.wf(),
        r.wf(),
        o.arity() == p.arity(),
        o.bound() == p.bound(),
        r.arity() == p.arity(),
        r.bound() == p.bound(),
        forall|m: Seq<usize>| #[trigger] o.coeff(m) == if m == zero_mon(p.arity()) {
            1int
        } else {
            0int
        },
        forall|m: Seq<usize>| #[trigger] r.coeff(m) == conv(p.entry_seq(), o.entry_seq(), m),
    ensures
        r.equiv(p),
{
    let os = o.entry_seq();
    let n = p.arity();
    // the one polynomial stores exactly the zero monomial with value one
    assert(o.coeff(zero_mon(n)) == 1);
    lemma_coeff_has(os, zero_mon(n));
    assert forall|t: int| 0 <= t < os.len() implies (#[trigger] os[t]).0@ == zero_mon(n) by {
        lemma_entry_coeff_nonzero(os, t);
        assert(o.coeff(os[t].0@) != 0);
    }
    if os.len() >= 2 {
        lemma_entries_increasing(os, n, o.bound(), 0, 1);
        lemma_lex_trichotomy(os[0].0@, os[1].0@);
        assert(false);
    }
    assert(os.len() == 1);
    lemma_coeff_at(os, 0);
    assert(os[0].1@ == 1);
    lemma_conv_one(p.entry_seq(), os, n, p.bound());
    assert forall|m: Seq<usize>| #[trigger] r.coeff(m) == p.coeff(m) by {
        assert(conv(p.entry_seq(), os, m) == coeff_of(p.entry_seq(), m));
    }
    r.lemma_same_coeffs_equal(p);
}

/// Multiplying by the zero polynomial gives the zero polynomial, on either
/// side.
pub proof fn lemma_mul_zero_law(p: &Sparse, z: &Sparse, r1: &Sparse, r2: &Sparse)
    requires
        p.wf(),
        z.wf(),
        r1.wf(),
        r2.wf(),
        z.arity() == p.arity(),
        z.bound() == p.bound(),
        r1.arity() == p.arity(),
        r1.bound() == p.bound(),
        r2.arity() == p.arity(),
        r2.bound() == p.bound(),
        forall|m: Seq<usize>| #[trigger] z.coeff(m) == 0,
        forall|m: Seq<usize>| #[trigger] r1.coeff(m) == conv(p.entry_seq(), z.entry_seq(), m),
        forall|m: Seq<usize>| #[trigger] r2.coeff(m) == conv(z.entry_seq(), p.entry_seq(), m),
    ensures
        r1.equiv(z),
        r2.equiv(z),
{
    assert forall|m: Seq<usize>| #[trigger] coeff_of(z.entry_seq(), m) == 0 by {
        assert(z.coeff(m) == 0);
    }
    lemma_zero_entries(z.entry_seq(), z.arity(), z.bound());
    assert forall|m: Seq<usize>| #[trigger] r1.coeff(m) == z.coeff(m) by {
        lemma_conv_zero_right(p.entry_seq(), z.entry_seq(), m);
    }
    assert forall|m: Seq<usize>| #[trigger] r2.coeff(m) == z.coeff(m) by {
        assert(conv(z.entry_seq(), p.entry_seq(), m) == 0);
    }
    r1.lemma_same_coeffs_equal(z);
    r2.lemma_same_coeffs_equal(z);
}

/// Scaling by zero gives the zero polynomial; scaling by one gives the
/// polynomial back.
pub proof fn lemma_scalar_unit_law(p: &Sparse, r0: &Sparse, r1: &Sparse, z: &Sparse)
    requires
        p.wf(),
        r0.wf(),
        r1.wf(),
        z.wf(),
        r0.arity() == p.arity(),
        r0.bound() == p.bound(),
        r1.arity() == p.arity(),
        r1.bound() == p.bound(),
        z.arity() == p.arity(),
        z.bound() == p.bound(),
        forall|m: Seq<usize>| #[trigger] r0.coeff(m) == fmul(0, p.coeff(m)),
        forall|m: Seq<usize>| #[trigger] r1.coeff(m) == fmul(1, p.coeff(m)),
        forall|m: Seq<usize>| #[trigger] z.coeff(m) == 0,
    ensures
        r0.equiv(z),
        r1.equiv(p),
{
    assert forall|m: Seq<usize>| #[trigger] r0.coeff(m) == z.coeff(m) by {
        crate::field::lemma_fmul_zero(p.coeff(m));
    }
    assert forall|m: Seq<usize>| #[trigger] r1.coeff(m) == p.coeff(m) by {
        p.lemma_coeff_in_field(m);
        crate::field::lemma_fmul_one(p.coeff(m));
    }
    r0.lemma_same_coeffs_equal(z);
    r1.lemma_same_coeffs_equal(p);
}

/// Extracting the contribution of the right factor's first entry.
proof fn lemma_conv_head(
    qs: Seq<(Vec<usize>, Fe)>,
    ps: Seq<(Vec<usize>, Fe)>,
    m: Seq<usize>,
    n: int,
)
    requires
        ps.len() >= 1,
        forall|k: int| 0 <= k < ps.len() ==> (#[trigger] ps[k]).0@.len() == n,
        forall|k: int| 0 <= k < qs.len() ==> (#[trigger] qs[k]).0@.len() == n,
    ensures
        conv(qs, ps, m) == fadd(conv_row(ps[0], qs, m), conv(qs, ps.drop_first(), m)),
    decreases qs.len(),
{
    if qs.len() == 0 {
        assert(conv_row(ps[0], qs, m) == 0);
        assert(fadd(0, 0) == 0);
    } else {
        assert forall|k: int| 0 <= k < qs.drop_first().len() implies (#[trigger] qs.drop_first()[
            k]).0@.len() == n by {
            assert(qs.drop_first()[k] == qs[k + 1]);
        }
        lemma_conv_head(qs.drop_first(), ps, m, n);
        let t = if m == add_mon(qs[0].0@, ps[0].0@) {
            fmul(qs[0].1@, ps[0].1@)
        } else {
            0
        };
        let a = conv_row(qs[0], ps.drop_first(), m);
        let b = conv_row(ps[0], qs.drop_first(), m);
        let c = conv(qs.drop_first(), ps.drop_first(), m);
        assert(conv_row(qs[0], ps, m) == fadd(t, a));
        assert(conv(qs, ps, m) == fadd(fadd(t, a), fadd(b, c)));
        // the head contributions are symmetric
        crate::monomial::lemma_add_mon_comm(qs[0].0@, ps[0].0@);
        crate::field::lemma_fmul_comm(qs[0].1@, ps[0].1@);
        assert(conv_row(ps[0], qs, m) == fadd(t, b));
        assert(conv(qs, ps.drop_first(), m) == fadd(a, c));
        crate::field::lemma_fadd_four(t, a, b, c);
    }
}

/// The convolution is symmetric in its two factors.
proof fn lemma_conv_comm(
    ps: Seq<(Vec<usize>, Fe)>,
    qs: Seq<(Vec<usize>, Fe)>,
    m: Seq<usize>,
    n: int,
)
    requires
        forall|k: int| 0 <= k < ps.len() ==> (#[trigger] ps[k]).0@.len() == n,
        forall|k: int| 0 <= k < qs.len() ==> (#[trigger] qs[k]).0@.len() == n,
    ensures
        conv(ps, qs, m) == conv(qs, ps, m),
    decreases ps.len(),
{
    if ps.len() == 0 {
        lemma_conv_zero_right(qs, ps, m);
    } else {
        assert forall|k: int| 0 <= k < ps.drop_first().len() implies (#[trigger] ps.drop_first()[
            k]).0@.len() == n by {
            assert(ps.drop_first()[k] == ps[k + 1]);
        }
        lemma_conv_comm(ps.drop_first(), qs, m, n);
        lemma_conv_head(qs, ps, m, n);
    }
}

/// Multiplication of polynomials is commutative.
pub proof fn lemma_mul_comm_law(p: &Sparse, q: &Sparse, r1: &Sparse, r2: &Sparse)
    requires
        p.wf(),
        q.wf(),
        r1.wf(),
        r2.wf(),
        q.arity() == p.arity(),
        q.bound() == p.bound(),
        r1.arity() == p.arity(),
        r1.bound() == p.bound(),
        r2.arity() == p.arity(),
        r2.bound() == p.bound(),
        forall|m: Seq<usize>| #[trigger] r1.coeff(m) == conv(p.entry_seq(), q.entry_seq(), m),
        forall|m: Seq<usize>| #[trigger] r2.coeff(m) == conv(q.entry_seq(), p.entry_seq(), m),
    ensures
        r1.equiv(r2),
{
    assert forall|m: Seq<usize>| #[trigger] r1.coeff(m) == r2.coeff(m) by {
        lemma_conv_comm(p.entry_seq(), q.entry_seq(), m, p.arity());
    }
    r1.lemma_same_coeffs_equal(r2);
}

/// One row of the convolution, semantically: the entry's coefficient times
/// the coefficient the other factor gives the residual monomial.
proof fn lemma_conv_row_semantic(
    e: (Vec<usize>, Fe),
    es: Seq<(Vec<usize>, Fe)>,
    m: Seq<usize>,
    n: int,
    d: int,
)
    requires
        entries_wf(es, n, d),
        e.0@.len() == n,
        mdeg(e.0@) <= d,
        d + d <= usize::MAX,
        m.len() == n,
    ensures
        conv_row(e, es, m) == if crate::monomial::ge_mon(m, e.0@) {
            fmul(e.1@, coeff_of(es, crate::monomial::sub_mon(m, e.0@)))
        } else {
            0
        },
    decreases es.len(),
{
    let target = crate::monomial::sub_mon(m, e.0@);
    if es.len() == 0 {
        if crate::monomial::ge_mon(m, e.0@) {
            crate::field::lemma_fmul_zero(e.1@);
        }
    } else {
        lemma_entries_wf_drop(es, n, d);
        lemma_conv_row_semantic(e, es.drop_first(), m, n, d);
        lemma_mdeg_nonneg(es[0].0@, 0);
        lemma_mdeg_nonneg(e.0@, 0);
        crate::monomial::lemma_add_sub_mon(m, es[0].0@, e.0@);
        crate::monomial::lemma_add_mon_comm(e.0@, es[0].0@);
        let t = if m == add_mon(e.0@, es[0].0@) {
            fmul(e.1@, es[0].1@)
        } else {
            0
        };
        assert(conv_row(e, es, m) == fadd(t, conv_row(e, es.drop_first(), m)));
        if crate::monomial::ge_mon(m, e.0@) {
            if es[0].0@ == target {
                // no later entry stores the target again
                assert forall|k: int| 0 <= k < es.drop_first().len() implies (
                #[trigger] es.drop_first()[k]).0@ != target by {
                    assert(es.drop_first()[k] == es[k + 1]);
                    lemma_entries_increasing(es, n, d, 0, k + 1);
                    lemma_lex_trichotomy(es[0].0@, es[k + 1].0@);
                }
                lemma_coeff_absent(es.drop_first(), target);
                crate::field::lemma_fmul_zero(e.1@);
                crate::field::lemma_field_closed(e.1@, es[0].1@);
                crate::field::lemma_fadd_zero(fmul(e.1@, es[0].1@));
                assert(m == add_mon(e.0@, es[0].0@));
            } else {
                assert(m != add_mon(e.0@, es[0].0@));
                assert(t == 0);
                crate::field::lemma_field_closed(e.1@, coeff_of(es.drop_first(), target));
                crate::field::lemma_fadd_zero(
                    fmul(e.1@, coeff_of(es.drop_first(), target)),
                );
            }
        } else {
            assert(m != add_mon(e.0@, es[0].0@));
            assert(t == 0);
            crate::field::lemma_fadd_zero(0);
        }
    }
}

/// Scaling one factor scales the convolution.
proof fn lemma_conv_scaled(
    ses: Seq<(Vec<usize>, Fe)>,
    pes: Seq<(Vec<usize>, Fe)>,
    qs: Seq<(Vec<usize>, Fe)>,
    c: int,
    m: Seq<usize>,
    n: int,
    d: int,
)
    requires
        entries_wf(ses, n, d),
        entries_wf(pes, n, d),
        in_field(c),
        m.len() == n,
        d + d <= usize::MAX,
        forall|k: int|
            0 <= k < qs.len() ==> (#[trigger] qs[k]).0@.len() == n && mdeg(qs[k].0@) <= d,
        forall|t: Seq<usize>| #[trigger] coeff_of(ses, t) == fmul(c, coeff_of(pes, t)),
    ensures
        conv(qs, ses, m) == fmul(c, conv(qs, pes, m)),
    decreases qs.len(),
{
    if qs.len() == 0 {
        crate::field::lemma_fmul_zero(c);
    } else {
        assert forall|k: int| 0 <= k < qs.drop_first().len() implies (#[trigger] qs.drop_first()[
            k]).0@.len() == n && mdeg(qs.drop_first()[k].0@) <= d by {
            assert(qs.drop_first()[k] == qs[k + 1]);
        }
        lemma_conv_scaled(ses, pes, qs.drop_first(), c, m, n, d);
        lemma_conv_row_semantic(qs[0], ses, m, n, d);
        lemma_conv_row_semantic(qs[0], pes, m, n, d);
        let target = crate::monomial::sub_mon(m, qs[0].0@);
        if crate::monomial::ge_mon(m, qs[0].0@) {
            assert(coeff_of(ses, target) == fmul(c, coeff_of(pes, target)));
            // pull the scalar through the head term
            let cq = qs[0].1@;
            let cp = coeff_of(pes, target);
            crate::field::lemma_fmul_assoc(cq, c, cp);
            crate::field::lemma_fmul_comm(cq, c);
            crate::field::lemma_fmul_assoc(c, cq, cp);
            assert(conv_row(qs[0], ses, m) == fmul(c, conv_row(qs[0], pes, m)));
        } else {
            crate::field::lemma_fmul_zero(c);
        }
        crate::field::lemma_fmul_distrib(
            c,
            conv_row(qs[0], pes, m),
            conv(qs.drop_first(), pes, m),
        );
    }
}

/// Scaling a factor before a product or scaling the product afterwards
/// gives the same polynomial.
pub proof fn lemma_scalar_mul_assoc_law(
    p: &Sparse,
    q: &Sparse,
    s: &Sparse,
    r1: &Sparse,
    r2pq: &Sparse,
    r2: &Sparse,
    c: int,
)
    requires
        p.wf(),
        q.wf(),
        s.wf(),
        r1.wf(),
        r2pq.wf(),
        r2.wf(),
        in_field(c),
        p.bound() + p.bound() <= usize::MAX,
        q.arity() == p.arity(),
        q.bound() == p.bound(),
        s.arity() == p.arity(),
        s.bound() == p.bound(),
        r1.arity() == p.arity(),
        r1.bound() == p.bound(),
        r2pq.arity() == p.arity(),
        r2pq.bound() == p.bound(),
        r2.arity() == p.arity(),
        r2.bound() == p.bound(),
        forall|m: Seq<usize>| #[trigger] s.coeff(m) == fmul(c, p.coeff(m)),
        forall|m: Seq<usize>| #[trigger] r1.coeff(m) == conv(s.entry_seq(), q.entry_seq(), m),
        forall|m: Seq<usize>| #[trigger] r2pq.coeff(m) == conv(p.entry_seq(), q.entry_seq(), m),
        forall|m: Seq<usize>| #[trigger] r2.coeff(m) == fmul(c, r2pq.coeff(m)),
    ensures
        r1.equiv(r2),
{
    assert forall|m: Seq<usize>| #[trigger] r1.coeff(m) == r2.coeff(m) by {
        if m.len() == p.arity() {
            lemma_conv_comm(s.entry_seq(), q.entry_seq(), m, p.arity());
            assert forall|t: Seq<usize>| #[trigger] coeff_of(s.entry_seq(), t) == fmul(
                c,
                coeff_of(p.entry_seq(), t),
            ) by {
                assert(s.coeff(t) == fmul(c, p.coeff(t)));
            }
            lemma_conv_scaled(
                s.entry_seq(),
                p.entry_seq(),
                q.entry_seq(),
                c,
                m,
                p.arity(),
                p.bound(),
            );
            lemma_conv_comm(q.entry_seq(), p.entry_seq(), m, p.arity());
        } else {
            lemma_conv_wrong_len(s.entry_seq(), q.entry_seq(), m, p.arity(), p.bound());
            lemma_conv_wrong_len(p.entry_seq(), q.entry_seq(), m, p.arity(), p.bound());
            crate::field::lemma_fmul_zero(c);
        }
    }
    r1.lemma_same_coeffs_equal(r2);
}

/// A monomial of the wrong arity has no contribution.
proof fn lemma_conv_wrong_len(
    ps: Seq<(Vec<usize>, Fe)>,
    qs: Seq<(Vec<usize>, Fe)>,
    m: Seq<usize>,
    n: int,
    d: int,
)
    requires
        entries_wf(ps, n, d),
        forall|k: int| 0 <= k < qs.len() ==> (#[trigger] qs[k]).0@.len() == n,
        m.len() != n,
    ensures
        conv(ps, qs, m) == 0,
    decreases ps.len(),
{
    if ps.len() > 0 {
        lemma_entries_wf_drop(ps, n, d);
        lemma_conv_wrong_len(ps.drop_first(), qs, m, n, d);
        lemma_conv_row_wrong_len(ps[0], qs, m, n);
        assert(fadd(0, 0) == 0);
    }
}

proof fn lemma_conv_row_wrong_len(
    e: (Vec<usize>, Fe),
    qs: Seq<(Vec<usize>, Fe)>,
    m: Seq<usize>,
    n: int,
)
    requires
        e.0@.len() == n,
        forall|k: int| 0 <= k < qs.len() ==> (#[trigger] qs[k]).0@.len() == n,
        m.len() != n,
    ensures
        conv_row(e, qs, m) == 0,
    decreases qs.len(),
{
    if qs.len() > 0 {
        assert forall|k: int| 0 <= k < qs.drop_first().len() implies (#[trigger] qs.drop_first()[
            k]).0@.len() == n by {
            assert(qs.drop_first()[k] == qs[k + 1]);
        }
        lemma_conv_row_wrong_len(e, qs.drop_first(), m, n);
        assert(m != add_mon(e.0@, qs[0].0@)) by {
            assert(add_mon(e.0@, qs[0].0@).len() == n);
        }
        assert(fadd(0, 0) == 0);
    }
}

/// Entry lists equal in view give every monomial the same coefficient.
proof fn lemma_coeff_of_congruence(
    es1: Seq<(Vec<usize>, Fe)>,
    es2: Seq<(Vec<usize>, Fe)>,
    m: Seq<usize>,
)
    requires
        es1.len() == es2.len(),
        forall|i: int|
            0 <= i < es1.len() ==> (#[trigger] es1[i]).0@ == es2[i].0@ && es1[i].1@ == es2[i].1@,
    ensures
        coeff_of(es1, m) == coeff_of(es2, m),
    decreases es1.len(),
{
    if es1.len() > 0 {
        assert forall|i: int|
            0 <= i < es1.drop_first().len() implies (#[trigger] es1.drop_first()[i]).0@
                == es2.drop_first()[i].0@ && es1.drop_first()[i].1@ == es2.drop_first()[i].1@ by {
            assert(es1.drop_first()[i] == es1[i + 1]);
            assert(es2.drop_first()[i] == es2[i + 1]);
        }
        lemma_coeff_of_congruence(es1.drop_first(), es2.drop_first(), m);
    }
}

/// Entry lists equal in view evaluate equally, plainly and homogenized.
proof fn lemma_eval_congruence(
    es1: Seq<(Vec<usize>, Fe)>,
    es2: Seq<(Vec<usize>, Fe)>,
    xs: Seq<int>,
    u: int,
    d: int,
)
    requires
        es1.len() == es2.len(),
        forall|i: int|
            0 <= i < es1.len() ==> (#[trigger] es1[i]).0@ == es2[i].0@ && es1[i].1@ == es2[i].1@,
    ensures
        eval_at(es1, xs) == eval_at(es2, xs),
        hom_eval_at(es1, xs, u, d) == hom_eval_at(es2, xs, u, d),
    decreases es1.len(),
{
    if es1.len() > 0 {
        assert forall|i: int|
            0 <= i < es1.drop_first().len() implies (#[trigger] es1.drop_first()[i]).0@
                == es2.drop_first()[i].0@ && es1.drop_first()[i].1@ == es2.drop_first()[i].1@ by {
            assert(es1.drop_first()[i] == es1[i + 1]);
            assert(es2.drop_first()[i] == es2[i + 1]);
        }
        lemma_eval_congruence(es1.drop_first(), es2.drop_first(), xs, u, d);
    }
}

impl Sparse {
    /// Exports the shape facts of a well-formed polynomial, so that callers
    /// outside this module can discharge the hypotheses of the public laws.
    pub proof fn lemma_wf_facts(&self)
        requires
            self.wf(),
        ensures
            entries_wf(self.entry_seq(), self.arity(), self.bound()),
            self.arity() >= 1,
            self.bound() >= 1,
            self.entry_seq().len() >= 0,
    {
    }

    /// Equal polynomials have the same shape and the same coefficients.
    pub proof fn lemma_equiv_coeffs(&self, other: &Sparse)
        requires
            self.equiv(other),
        ensures
            self.arity() == other.arity(),
            self.bound() == other.bound(),
            forall|m: Seq<usize>| #[trigger] self.coeff(m) == other.coeff(m),
    {
        assert forall|m: Seq<usize>| #[trigger] self.coeff(m) == other.coeff(m) by {
            lemma_coeff_of_congruence(self.entries@, other.entries@, m);
        }
    }

    /// The degree of a well-formed polynomial is non-negative, at most the
    /// degree bound, and bounds the degree of every monomial with a
    /// non-zero coefficient.
    pub proof fn lemma_degree_facts(&self)
        requires
            self.wf(),
        ensures
            0 <= self.degree_spec() <= self.bound(),
            forall|m: Seq<usize>| #[trigger] self.coeff(m) != 0 ==> mdeg(m) <= self.degree_spec(),
    {
        let es = self.entries@;
        lemma_poly_deg(es);
        if es.len() > 0 {
            let i = choose|i: int| 0 <= i < es.len() && mdeg((#[trigger] es[i]).0@) == poly_deg(es);
            assert(mdeg(es[i].0@) <= self.bound());
        }
        assert forall|m: Seq<usize>| #[trigger] self.coeff(m) != 0 implies mdeg(m)
            <= self.degree_spec() by {
            lemma_coeff_has(es, m);
            let t = choose|t: int| 0 <= t < es.len() && (#[trigger] es[t]).0@ == m;
        }
    }

    /// A bound on the degrees of all monomials with a non-zero coefficient
    /// bounds the degree, so callers can discharge the degree precondition
    /// of `mul` from the coefficient contracts of the other operations.
    pub proof fn lemma_degree_bounded(&self, b: int)
        requires
            self.wf(),
            b >= 0,
            forall|m: Seq<usize>| #[trigger] self.coeff(m) != 0 ==> mdeg(m) <= b,
        ensures
            self.degree_spec() <= b,
    {
        let es = self.entries@;
        lemma_poly_deg(es);
        if es.len() > 0 {
            let i = choose|i: int| 0 <= i < es.len() && mdeg((#[trigger] es[i]).0@) == poly_deg(es);
            lemma_entry_coeff_nonzero(es, i);
            assert(self.coeff(es[i].0@) != 0);
        }
    }

    /// Polynomials of one shape with the same coefficients have the same
    /// plain and homogenized values and the same challenge polynomial, so
    /// every contract stated over the stored entries transfers between
    /// them.
    pub proof fn lemma_coeffs_determine(&self, other: &Sparse)
        requires
            self.wf(),
            other.wf(),
            self.arity() == other.arity(),
            self.bound() == other.bound(),
            forall|m: Seq<usize>| #[trigger] self.coeff(m) == other.coeff(m),
        ensures
            self.equiv(other),
            forall|xs: Seq<int>| #[trigger] eval_at(self.entry_seq(), xs) == eval_at(
                other.entry_seq(),
                xs,
            ),
            forall|xs: Seq<int>, u: int, dd: int| #[trigger] hom_eval_at(
                self.entry_seq(),
                xs,
                u,
                dd,
            ) == hom_eval_at(other.entry_seq(), xs, u, dd),
            forall|xs1: Seq<int>, xs2: Seq<int>, u1: int, u2: int, dd: int|
                #[trigger] crate::cross::cross_rp(self.entry_seq(), xs1, xs2, u1, u2, dd)
                    == crate::cross::cross_rp(other.entry_seq(), xs1, xs2, u1, u2, dd),
    {
        assert forall|m: Seq<usize>| #[trigger] coeff_of(self.entries@, m) == coeff_of(
            other.entries@,
            m,
        ) by {
            assert(self.coeff(m) == other.coeff(m));
        }
        lemma_entries_unique(self.entries@, other.entries@, self.n as int, self.d as int);
        assert forall|xs: Seq<int>| #[trigger] eval_at(self.entry_seq(), xs) == eval_at(
            other.entry_seq(),
            xs,
        ) by {
            lemma_eval_congruence(self.entries@, other.entries@, xs, 0, 0);
        }
        assert forall|xs: Seq<int>, u: int, dd: int| #[trigger] hom_eval_at(
            self.entry_seq(),
            xs,
            u,
            dd,
        ) == hom_eval_at(other.entry_seq(), xs, u, dd) by {
            lemma_eval_congruence(self.entries@, other.entries@, xs, u, dd);
        }
        assert forall|xs1: Seq<int>, xs2: Seq<int>, u1: int, u2: int, dd: int|
            #[trigger] crate::cross::cross_rp(self.entry_seq(), xs1, xs2, u1, u2, dd)
                == crate::cross::cross_rp(other.entry_seq(), xs1, xs2, u1, u2, dd) by {
            crate::cross::lemma_cross_rp_congruence(
                self.entries@,
                other.entries@,
                xs1,
                xs2,
                u1,
                u2,
                dd,
                0,
            );
        }
    }
}

/// One semantic term of a convolution: an entry of the left factor times
/// the coefficient the right factor gives the residual monomial.
pub open spec fn sem_term(e: (Vec<usize>, Fe), qs: Seq<(Vec<usize>, Fe)>, m: Seq<usize>) -> int {
    if crate::monomial::ge_mon(m, e.0@) {
        fmul(e.1@, coeff_of(qs, crate::monomial::sub_mon(m, e.0@)))
    } else {
        0
    }
}

/// The convolution in semantic form: the sum of the semantic terms of the
/// left factor's entries.
pub open spec fn conv_sem(ps: Seq<(Vec<usize>, Fe)>, qs: Seq<(Vec<usize>, Fe)>, m: Seq<usize>) -> int
    decreases ps.len(),
{
    if ps.len() == 0 {
        0
    } else {
        fadd(sem_term(ps[0], qs, m), conv_sem(ps.drop_first(), qs, m))
    }
}

/// The convolution equals its semantic form.
proof fn lemma_conv_is_sem(
    ps: Seq<(Vec<usize>, Fe)>,
    qs: Seq<(Vec<usize>, Fe)>,
    m: Seq<usize>,
    n: int,
    d: int,
)
    requires
        entries_wf(ps, n, d),
        entries_wf(qs, n, d),
        m.len() == n,
        d + d <= usize::MAX,
    ensures
        conv(ps, qs, m) == conv_sem(ps, qs, m),
    decreases ps.len(),
{
    if ps.len() > 0 {
        lemma_entries_wf_drop(ps, n, d);
        lemma_conv_is_sem(ps.drop_first(), qs, m, n, d);
        lemma_conv_row_semantic(ps[0], qs, m, n, d);
    }
}

/// One term of the three-way product: two entries of the outer factors
/// against the coefficient of the residual monomial in the middle one.
pub open spec fn tri_term(
    a: (Vec<usize>, Fe),
    b: (Vec<usize>, Fe),
    qs: Seq<(Vec<usize>, Fe)>,
    m: Seq<usize>,
) -> int {
    if crate::monomial::ge_mon(m, add_mon(a.0@, b.0@)) {
        fmul(
            a.1@,
            fmul(b.1@, coeff_of(qs, crate::monomial::sub_mon(m, add_mon(a.0@, b.0@)))),
        )
    } else {
        0
    }
}

/// The three-way terms of one outer entry against a list.
pub open spec fn tri_inner(
    a: (Vec<usize>, Fe),
    bs: Seq<(Vec<usize>, Fe)>,
    qs: Seq<(Vec<usize>, Fe)>,
    m: Seq<usize>,
) -> int
    decreases bs.len(),
{
    if bs.len() == 0 {
        0
    } else {
        fadd(tri_term(a, bs[0], qs, m), tri_inner(a, bs.drop_first(), qs, m))
    }
}

/// The sum of all three-way terms over two lists.
pub open spec fn tri_sum(
    aas: Seq<(Vec<usize>, Fe)>,
    bs: Seq<(Vec<usize>, Fe)>,
    qs: Seq<(Vec<usize>, Fe)>,
    m: Seq<usize>,
) -> int
    decreases aas.len(),
{
    if aas.len() == 0 {
        0
    } else {
        fadd(tri_inner(aas[0], bs, qs, m), tri_sum(aas.drop_first(), bs, qs, m))
    }
}

/// The three-way term does not care which outer entry came first.
proof fn lemma_tri_term_sym(
    a: (Vec<usize>, Fe),
    b: (Vec<usize>, Fe),
    qs: Seq<(Vec<usize>, Fe)>,
    m: Seq<usize>,
)
    requires
        a.0@.len() == b.0@.len(),
    ensures
        tri_term(a, b, qs, m) == tri_term(b, a, qs, m),
{
    crate::monomial::lemma_add_mon_comm(a.0@, b.0@);
    if crate::monomial::ge_mon(m, add_mon(a.0@, b.0@)) {
        let x = coeff_of(qs, crate::monomial::sub_mon(m, add_mon(a.0@, b.0@)));
        crate::field::lemma_fmul_assoc(a.1@, b.1@, x);
        crate::field::lemma_fmul_comm(a.1@, b.1@);
        crate::field::lemma_fmul_assoc(b.1@, a.1@, x);
    }
}

/// Extracting the contribution of the second list's first entry.
proof fn lemma_tri_head(
    aas: Seq<(Vec<usize>, Fe)>,
    bs: Seq<(Vec<usize>, Fe)>,
    qs: Seq<(Vec<usize>, Fe)>,
    m: Seq<usize>,
    n: int,
)
    requires
        bs.len() >= 1,
        forall|k: int| 0 <= k < aas.len() ==> (#[trigger] aas[k]).0@.len() == n,
        forall|k: int| 0 <= k < bs.len() ==> (#[trigger] bs[k]).0@.len() == n,
    ensures
        tri_sum(aas, bs, qs, m) == fadd(
            tri_inner(bs[0], aas, qs, m),
            tri_sum(aas, bs.drop_first(), qs, m),
        ),
    decreases aas.len(),
{
    if aas.len() == 0 {
        assert(fadd(0, 0) == 0);
    } else {
        assert forall|k: int| 0 <= k < aas.drop_first().len() implies (
        #[trigger] aas.drop_first()[k]).0@.len() == n by {
            assert(aas.drop_first()[k] == aas[k + 1]);
        }
        lemma_tri_head(aas.drop_first(), bs, qs, m, n);
        let t = tri_term(aas[0], bs[0], qs, m);
        let x = tri_inner(aas[0], bs.drop_first(), qs, m);
        let y = tri_inner(bs[0], aas.drop_first(), qs, m);
        let z = tri_sum(aas.drop_first(), bs.drop_first(), qs, m);
        assert(tri_inner(aas[0], bs, qs, m) == fadd(t, x));
        assert(tri_sum(aas, bs, qs, m) == fadd(fadd(t, x), fadd(y, z)));
        lemma_tri_term_sym(aas[0], bs[0], qs, m);
        assert(tri_inner(bs[0], aas, qs, m) == fadd(t, y));
        assert(tri_sum(aas, bs.drop_first(), qs, m) == fadd(x, z));
        crate::field::lemma_fadd_four(t, x, y, z);
    }
}

/// The three-way sum does not care which outer list came first.
proof fn lemma_tri_sum_sym(
    aas: Seq<(Vec<usize>, Fe)>,
    bs: Seq<(Vec<usize>, Fe)>,
    qs: Seq<(Vec<usize>, Fe)>,
    m: Seq<usize>,
    n: int,
)
    requires
        forall|k: int| 0 <= k < aas.len() ==> (#[trigger] aas[k]).0@.len() == n,
        forall|k: int| 0 <= k < bs.len() ==> (#[trigger] bs[k]).0@.len() == n,
    ensures
        tri_sum(aas, bs, qs, m) == tri_sum(bs, aas, qs, m),
    decreases aas.len(),
{
    if aas.len() == 0 {
        assert(aas =~= Seq::<(Vec<usize>, Fe)>::empty());
        lemma_tri_sum_empty(bs, qs, m);
    } else {
        assert forall|k: int| 0 <= k < aas.drop_first().len() implies (
        #[trigger] aas.drop_first()[k]).0@.len() == n by {
            assert(aas.drop_first()[k] == aas[k + 1]);
        }
        lemma_tri_sum_sym(aas.drop_first(), bs, qs, m, n);
        lemma_tri_head(bs, aas, qs, m, n);
    }
}

/// A three-way sum against an empty second list is zero.
proof fn lemma_tri_sum_empty(
    bs: Seq<(Vec<usize>, Fe)>,
    qs: Seq<(Vec<usize>, Fe)>,
    m: Seq<usize>,
)
    ensures
        tri_sum(bs, Seq::<(Vec<usize>, Fe)>::empty(), qs, m) == 0,
    decreases bs.len(),
{
    if bs.len() > 0 {
        lemma_tri_sum_empty(bs.drop_first(), qs, m);
        assert(fadd(0, 0) == 0);
    }
}

/// The three-way terms of one outer entry are that entry's coefficient
/// times the semantic convolution of the rest at the residual monomial.
proof fn lemma_tri_inner_expand(
    a: (Vec<usize>, Fe),
    bs: Seq<(Vec<usize>, Fe)>,
    qs: Seq<(Vec<usize>, Fe)>,
    m: Seq<usize>,
    n: int,
    d: int,
)
    requires
        a.0@.len() == n,
        mdeg(a.0@) <= d,
        forall|k: int|
            0 <= k < bs.len() ==> (#[trigger] bs[k]).0@.len() == n && mdeg(bs[k].0@) <= d,
        m.len() == n,
        d + d <= usize::MAX,
        0 <= d,
    ensures
        tri_inner(a, bs, qs, m) == if crate::monomial::ge_mon(m, a.0@) {
            fmul(a.1@, conv_sem(bs, qs, crate::monomial::sub_mon(m, a.0@)))
        } else {
            0
        },
    decreases bs.len(),
{
    if bs.len() == 0 {
        crate::field::lemma_fmul_zero(a.1@);
    } else {
        assert forall|k: int| 0 <= k < bs.drop_first().len() implies (
        #[trigger] bs.drop_first()[k]).0@.len() == n && mdeg(bs.drop_first()[k].0@) <= d by {
            assert(bs.drop_first()[k] == bs[k + 1]);
        }
        lemma_tri_inner_expand(a, bs.drop_first(), qs, m, n, d);
        crate::monomial::lemma_mdeg_nonneg(a.0@, 0);
        crate::monomial::lemma_mdeg_nonneg(bs[0].0@, 0);
        crate::monomial::lemma_sub_sub_mon(m, a.0@, bs[0].0@);
        if crate::monomial::ge_mon(m, a.0@) {
            let sm = crate::monomial::sub_mon(m, a.0@);
            assert(conv_sem(bs, qs, sm) == fadd(
                sem_term(bs[0], qs, sm),
                conv_sem(bs.drop_first(), qs, sm),
            ));
            crate::field::lemma_fmul_distrib(
                a.1@,
                sem_term(bs[0], qs, sm),
                conv_sem(bs.drop_first(), qs, sm),
            );
            if crate::monomial::ge_mon(sm, bs[0].0@) {
                assert(crate::monomial::sub_mon(sm, bs[0].0@) == crate::monomial::sub_mon(
                    m,
                    add_mon(a.0@, bs[0].0@),
                ));
                crate::field::lemma_fmul_assoc(
                    a.1@,
                    bs[0].1@,
                    coeff_of(qs, crate::monomial::sub_mon(sm, bs[0].0@)),
                );
            } else {
                crate::field::lemma_fmul_zero(a.1@);
                assert(tri_term(a, bs[0], qs, m) == 0);
            }
        } else {
            assert(tri_term(a, bs[0], qs, m) == 0) by {
                if crate::monomial::ge_mon(m, add_mon(a.0@, bs[0].0@)) {
                    assert(crate::monomial::ge_mon(m, a.0@));
                }
            }
            assert(fadd(0, 0) == 0);
        }
    }
}

/// A semantic convolution against a middle factor whose coefficients are
/// themselves a semantic convolution expands to the three-way sum.
proof fn lemma_sem_expand(
    aas: Seq<(Vec<usize>, Fe)>,
    mid: Seq<(Vec<usize>, Fe)>,
    bs: Seq<(Vec<usize>, Fe)>,
    qs: Seq<(Vec<usize>, Fe)>,
    m: Seq<usize>,
    n: int,
    d: int,
)
    requires
        forall|k: int|
            0 <= k < aas.len() ==> (#[trigger] aas[k]).0@.len() == n && mdeg(aas[k].0@) <= d,
        forall|k: int|
            0 <= k < bs.len() ==> (#[trigger] bs[k]).0@.len() == n && mdeg(bs[k].0@) <= d,
        forall|t: Seq<usize>|
            t.len() == n ==> #[trigger] coeff_of(mid, t) == conv_sem(bs, qs, t),
        m.len() == n,
        d + d <= usize::MAX,
        0 <= d,
    ensures
        conv_sem(aas, mid, m) == tri_sum(aas, bs, qs, m),
    decreases aas.len(),
{
    if aas.len() > 0 {
        assert forall|k: int| 0 <= k < aas.drop_first().len() implies (
        #[trigger] aas.drop_first()[k]).0@.len() == n && mdeg(aas.drop_first()[k].0@) <= d by {
            assert(aas.drop_first()[k] == aas[k + 1]);
        }
        lemma_sem_expand(aas.drop_first(), mid, bs, qs, m, n, d);
        lemma_tri_inner_expand(aas[0], bs, qs, m, n, d);
        if crate::monomial::ge_mon(m, aas[0].0@) {
            assert(crate::monomial::sub_mon(m, aas[0].0@).len() == n);
            assert(coeff_of(mid, crate::monomial::sub_mon(m, aas[0].0@)) == conv_sem(
                bs,
                qs,
                crate::monomial::sub_mon(m, aas[0].0@),
            ));
        }
    }
}

/// Multiplication of polynomials is associative: multiplying by `z` after
/// `q`, or by the product of `q` and `z`, gives the same polynomial, while
/// the degrees stay within the bound.
pub proof fn lemma_mul_assoc_law(
    p: &Sparse,
    q: &Sparse,
    z: &Sparse,
    pq: &Sparse,
    qz: &Sparse,
    r1: &Sparse,
    r2: &Sparse,
)
    requires
        p.wf(),
        q.wf(),
        z.wf(),
        pq.wf(),
        qz.wf(),
        r1.wf(),
        r2.wf(),
        p.bound() + p.bound() <= usize::MAX,
        q.arity() == p.arity(),
        q.bound() == p.bound(),
        z.arity() == p.arity(),
        z.bound() == p.bound(),
        pq.arity() == p.arity(),
        pq.bound() == p.bound(),
        qz.arity() == p.arity(),
        qz.bound() == p.bound(),
        r1.arity() == p.arity(),
        r1.bound() == p.bound(),
        r2.arity() == p.arity(),
        r2.bound() == p.bound(),
        forall|m: Seq<usize>| #[trigger] pq.coeff(m) == conv(p.entry_seq(), q.entry_seq(), m),
        forall|m: Seq<usize>| #[trigger] qz.coeff(m) == conv(q.entry_seq(), z.entry_seq(), m),
        forall|m: Seq<usize>| #[trigger] r1.coeff(m) == conv(pq.entry_seq(), z.entry_seq(), m),
        forall|m: Seq<usize>| #[trigger] r2.coeff(m) == conv(p.entry_seq(), qz.entry_seq(), m),
    ensures
        r1.equiv(r2),
{
    let n = p.arity();
    let d = p.bound();
    let ps = p.entry_seq();
    let qs = q.entry_seq();
    let zs = z.entry_seq();
    assert forall|m: Seq<usize>| #[trigger] r1.coeff(m) == r2.coeff(m) by {
        if m.len() == n {
            // both sides in semantic form
            lemma_conv_comm(pq.entry_seq(), zs, m, n);
            lemma_conv_is_sem(zs, pq.entry_seq(), m, n, d);
            lemma_conv_is_sem(ps, qz.entry_seq(), m, n, d);
            // the middle factors' coefficients are semantic convolutions
            assert forall|t: Seq<usize>|
                t.len() == n implies #[trigger] coeff_of(pq.entry_seq(), t) == conv_sem(
                ps,
                qs,
                t,
            ) by {
                assert(pq.coeff(t) == conv(ps, qs, t));
                lemma_conv_is_sem(ps, qs, t, n, d);
            }
            assert forall|t: Seq<usize>|
                t.len() == n implies #[trigger] coeff_of(qz.entry_seq(), t) == conv_sem(
                zs,
                qs,
                t,
            ) by {
                assert(qz.coeff(t) == conv(qs, zs, t));
                lemma_conv_comm(qs, zs, t, n);
                lemma_conv_is_sem(zs, qs, t, n, d);
            }
            // expand both sides to the three-way sum and swap
            p.lemma_wf_facts();
            q.lemma_wf_facts();
            z.lemma_wf_facts();
            lemma_sem_expand(zs, pq.entry_seq(), ps, qs, m, n, d);
            lemma_sem_expand(ps, qz.entry_seq(), zs, qs, m, n, d);
            lemma_tri_sum_sym(zs, ps, qs, m, n);
        } else {
            lemma_conv_wrong_len(pq.entry_seq(), zs, m, n, d);
            lemma_conv_wrong_len(ps, qz.entry_seq(), m, n, d);
        }
    }
    r1.lemma_same_coeffs_equal(r2);
}

} // verus!
