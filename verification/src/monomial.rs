//! Monomials as exponent tuples.
//!
//! A monomial over `n` variables is a tuple of `n` non-negative exponents;
//! its total degree is the sum of the exponents.  The tuples of one
//! polynomial are kept in strictly increasing lexicographic order, which
//! gives every polynomial a unique stored form.

use crate::field::{fmul, fpow, in_field, lemma_fmul_four, lemma_fpow_adds};
use vstd::prelude::*;

verus! {

/// Total degree of the exponents from position `i` on.
pub open spec fn mdeg_from(m: Seq<usize>, i: int) -> int
    decreases m.len() - i,
{
    if i < 0 || i >= m.len() {
        0
    } else {
        m[i] + mdeg_from(m, i + 1)
    }
}

/// Total degree of a monomial.
pub open spec fn mdeg(m: Seq<usize>) -> int {
    mdeg_from(m, 0)
}

/// The all-zero exponent tuple of length `n`.
pub open spec fn zero_mon(n: int) -> Seq<usize> {
    Seq::new(n as nat, |i: int| 0usize)
}

/// Lexicographic order, comparing from position `i` on.
pub open spec fn lex_lt_from(a: Seq<usize>, b: Seq<usize>, i: int) -> bool
    decreases a.len() - i,
{
    if i < 0 || i >= a.len() || i >= b.len() {
        false
    } else if a[i] < b[i] {
        true
    } else if a[i] > b[i] {
        false
    } else {
        lex_lt_from(a, b, i + 1)
    }
}

/// Strict lexicographic order on equal-length tuples.
pub open spec fn lex_lt(a: Seq<usize>, b: Seq<usize>) -> bool {
    lex_lt_from(a, b, 0)
}

/// The value of a monomial at a point, as the product of the powers of the
/// coordinates from position `i` on.
pub open spec fn mon_eval_from(m: Seq<usize>, xs: Seq<int>, i: int) -> int
    decreases m.len() - i,
{
    if i < 0 || i >= m.len() {
        1
    } else {
        fmul(fpow(xs[i], m[i] as nat), mon_eval_from(m, xs, i + 1))
    }
}

/// The value of a monomial at a point.
pub open spec fn mon_eval(m: Seq<usize>, xs: Seq<int>) -> int {
    mon_eval_from(m, xs, 0)
}

/// Degrees are non-negative.
pub proof fn lemma_mdeg_nonneg(m: Seq<usize>, i: int)
    ensures
        mdeg_from(m, i) >= 0,
    decreases m.len() - i,
{
    if 0 <= i && i < m.len() {
        lemma_mdeg_nonneg(m, i + 1);
    }
}

/// Each exponent is bounded by the total degree.
pub proof fn lemma_exp_le_mdeg(m: Seq<usize>, k: int)
    requires
        0 <= k < m.len(),
    ensures
        m[k] <= mdeg(m),
    decreases k,
{
    lemma_exp_le_mdeg_from(m, k, 0);
}

proof fn lemma_exp_le_mdeg_from(m: Seq<usize>, k: int, i: int)
    requires
        0 <= i <= k < m.len(),
    ensures
        m[k] <= mdeg_from(m, i),
    decreases k - i,
{
    lemma_mdeg_nonneg(m, i + 1);
    if i < k {
        lemma_exp_le_mdeg_from(m, k, i + 1);
    }
}

/// A suffix degree is at most the whole degree.
pub proof fn lemma_mdeg_from_le(m: Seq<usize>, i: int)
    requires
        0 <= i,
    ensures
        mdeg_from(m, i) <= mdeg(m),
    decreases i,
{
    if i > 0 {
        lemma_mdeg_from_le(m, i - 1);
        if i - 1 < m.len() {
            assert(mdeg_from(m, i - 1) == m[i - 1] + mdeg_from(m, i));
        }
    }
}

/// The zero tuple has degree zero.
pub proof fn lemma_zero_mon_deg(n: int, i: int)
    requires
        0 <= i,
        0 <= n,
    ensures
        mdeg_from(zero_mon(n), i) == 0,
    decreases n - i,
{
    assert(zero_mon(n).len() == n);
    if i < n {
        assert(zero_mon(n)[i] == 0);
        lemma_zero_mon_deg(n, i + 1);
        assert(mdeg_from(zero_mon(n), i) == zero_mon(n)[i] + mdeg_from(zero_mon(n), i + 1));
    } else {
        assert(i >= zero_mon(n).len());
    }
}

/// The lexicographic order is a strict total order on equal-length tuples.
pub proof fn lemma_lex_trichotomy(a: Seq<usize>, b: Seq<usize>)
    requires
        a.len() == b.len(),
    ensures
        lex_lt(a, b) || lex_lt(b, a) || a == b,
        lex_lt(a, b) ==> !lex_lt(b, a) && a != b,
        lex_lt(b, a) ==> !lex_lt(a, b) && a != b,
{
    lemma_lex_from_props(a, b, 0);
    lemma_lex_irrefl(a, 0);
    lemma_lex_irrefl(b, 0);
    if !lex_lt(a, b) && !lex_lt(b, a) {
        assert(a =~= b);
    }
    if lex_lt(a, b) && a == b {
        assert(false);
    }
    if lex_lt(b, a) && a == b {
        assert(false);
    }
}

proof fn lemma_lex_irrefl(a: Seq<usize>, i: int)
    requires
        0 <= i,
    ensures
        !lex_lt_from(a, a, i),
    decreases a.len() - i,
{
    if i < a.len() {
        lemma_lex_irrefl(a, i + 1);
    }
}

proof fn lemma_lex_from_props(a: Seq<usize>, b: Seq<usize>, i: int)
    requires
        a.len() == b.len(),
        0 <= i,
    ensures
        lex_lt_from(a, b, i) ==> !lex_lt_from(b, a, i),
        !lex_lt_from(a, b, i) && !lex_lt_from(b, a, i) ==> forall|j: int|
            i <= j < a.len() ==> a[j] == b[j],
    decreases a.len() - i,
{
    if i < a.len() {
        lemma_lex_from_props(a, b, i + 1);
    }
}

/// Prepending one exponent shifts the lexicographic comparison.
pub proof fn lemma_lex_prepend(x: usize, a: Seq<usize>, b: Seq<usize>)
    requires
        a.len() == b.len(),
    ensures
        lex_lt(seq![x].add(a), seq![x].add(b)) == lex_lt(a, b),
{
    lemma_lex_prepend_from(x, a, b, 0);
    assert(seq![x].add(a)[0] == x);
    assert(seq![x].add(b)[0] == x);
}

proof fn lemma_lex_prepend_from(x: usize, a: Seq<usize>, b: Seq<usize>, i: int)
    requires
        a.len() == b.len(),
        0 <= i,
    ensures
        lex_lt_from(seq![x].add(a), seq![x].add(b), i + 1) == lex_lt_from(a, b, i),
    decreases a.len() - i,
{
    let p = seq![x].add(a);
    let q = seq![x].add(b);
    if i < a.len() {
        assert(p[i + 1] == a[i]);
        assert(q[i + 1] == b[i]);
        lemma_lex_prepend_from(x, a, b, i + 1);
    }
}

/// Prepending one exponent adds it to the degree.
pub proof fn lemma_mdeg_prepend(x: usize, a: Seq<usize>)
    ensures
        mdeg(seq![x].add(a)) == x + mdeg(a),
{
    assert(seq![x].add(a)[0] == x);
    lemma_mdeg_prepend_from(x, a, 0);
}

proof fn lemma_mdeg_prepend_from(x: usize, a: Seq<usize>, i: int)
    requires
        0 <= i,
    ensures
        mdeg_from(seq![x].add(a), i + 1) == mdeg_from(a, i),
    decreases a.len() - i,
{
    let p = seq![x].add(a);
    if i < a.len() {
        assert(p[i + 1] == a[i]);
        lemma_mdeg_prepend_from(x, a, i + 1);
    }
}

/// The lexicographic order is transitive.
pub proof fn lemma_lex_trans(a: Seq<usize>, b: Seq<usize>, c: Seq<usize>)
    requires
        a.len() == b.len(),
        b.len() == c.len(),
        lex_lt(a, b),
        lex_lt(b, c),
    ensures
        lex_lt(a, c),
{
    lemma_lex_trans_from(a, b, c, 0);
}

proof fn lemma_lex_trans_from(a: Seq<usize>, b: Seq<usize>, c: Seq<usize>, i: int)
    requires
        a.len() == b.len(),
        b.len() == c.len(),
        0 <= i,
        lex_lt_from(a, b, i),
        lex_lt_from(b, c, i),
    ensures
        lex_lt_from(a, c, i),
    decreases a.len() - i,
{
    if i < a.len() {
        if a[i] == b[i] && b[i] == c[i] {
            lemma_lex_trans_from(a, b, c, i + 1);
        }
    }
}

/// The component-wise sum of two exponent tuples, as a specification.
pub open spec fn add_mon(a: Seq<usize>, b: Seq<usize>) -> Seq<usize> {
    Seq::new(a.len(), |i: int| (a[i] + b[i]) as usize)
}

/// The component-wise sum is symmetric.
pub proof fn lemma_add_mon_comm(a: Seq<usize>, b: Seq<usize>)
    requires
        a.len() == b.len(),
    ensures
        add_mon(a, b) == add_mon(b, a),
{
    assert(add_mon(a, b) =~= add_mon(b, a));
}

/// Whether `m` dominates `b` component-wise.
pub open spec fn ge_mon(m: Seq<usize>, b: Seq<usize>) -> bool {
    forall|i: int| 0 <= i < m.len() ==> (#[trigger] m[i]) >= b[i]
}

/// The component-wise difference of two exponent tuples.
pub open spec fn sub_mon(m: Seq<usize>, b: Seq<usize>) -> Seq<usize> {
    Seq::new(m.len(), |i: int| (m[i] - b[i]) as usize)
}

/// A sum decomposes exactly as domination plus difference.  The degrees
/// must fit the machine word so that no component of the sum wraps.
pub proof fn lemma_add_sub_mon(m: Seq<usize>, a: Seq<usize>, b: Seq<usize>)
    requires
        a.len() == b.len(),
        m.len() == a.len(),
        mdeg(a) + mdeg(b) <= usize::MAX,
    ensures
        (m == add_mon(a, b)) == (ge_mon(m, b) && a == sub_mon(m, b)),
{
    if m == add_mon(a, b) {
        assert forall|i: int| 0 <= i < m.len() implies (#[trigger] m[i]) >= b[i] by {
            lemma_exp_le_mdeg(a, i);
            lemma_exp_le_mdeg(b, i);
            lemma_mdeg_nonneg(a, 0);
            lemma_mdeg_nonneg(b, 0);
            assert(m[i] == add_mon(a, b)[i]);
        }
        assert(a =~= sub_mon(m, b)) by {
            assert forall|i: int| 0 <= i < a.len() implies a[i] == sub_mon(m, b)[i] by {
                lemma_exp_le_mdeg(a, i);
                lemma_exp_le_mdeg(b, i);
                lemma_mdeg_nonneg(a, 0);
                lemma_mdeg_nonneg(b, 0);
                assert(m[i] == add_mon(a, b)[i]);
            }
        }
    }
    if ge_mon(m, b) && a == sub_mon(m, b) {
        assert forall|i: int| 0 <= i < m.len() implies (#[trigger] m[i]) == add_mon(a, b)[i] by {
            assert(a[i] == sub_mon(m, b)[i]);
        }
        assert(m =~= add_mon(a, b));
    }
}

/// Subtracting two tuples in turn is subtracting their sum, and the two
/// domination checks combine, provided the sum does not wrap.
pub proof fn lemma_sub_sub_mon(m: Seq<usize>, a: Seq<usize>, b: Seq<usize>)
    requires
        a.len() == b.len(),
        m.len() == a.len(),
        mdeg(a) + mdeg(b) <= usize::MAX,
    ensures
        (ge_mon(m, a) && ge_mon(sub_mon(m, a), b)) == ge_mon(m, add_mon(a, b)),
        ge_mon(m, add_mon(a, b)) ==> sub_mon(sub_mon(m, a), b) == sub_mon(m, add_mon(a, b)),
{
    assert forall|i: int| 0 <= i < a.len() implies add_mon(a, b)[i] == a[i] + b[i] by {
        lemma_exp_le_mdeg(a, i);
        lemma_exp_le_mdeg(b, i);
        lemma_mdeg_nonneg(a, 0);
        lemma_mdeg_nonneg(b, 0);
    }
    if ge_mon(m, a) && ge_mon(sub_mon(m, a), b) {
        assert forall|i: int| 0 <= i < m.len() implies (#[trigger] m[i]) >= add_mon(a, b)[i] by {
            assert(sub_mon(m, a)[i] == (m[i] - a[i]) as usize);
        }
    }
    if ge_mon(m, add_mon(a, b)) {
        assert forall|i: int| 0 <= i < m.len() implies (#[trigger] m[i]) >= a[i] && sub_mon(
            m,
            a,
        )[i] >= b[i] by {
            assert(m[i] >= add_mon(a, b)[i]);
            assert(sub_mon(m, a)[i] == (m[i] - a[i]) as usize);
        }
        assert(sub_mon(sub_mon(m, a), b) =~= sub_mon(m, add_mon(a, b))) by {
            assert forall|i: int| 0 <= i < m.len() implies sub_mon(sub_mon(m, a), b)[i] == sub_mon(
                m,
                add_mon(a, b),
            )[i] by {
                assert(m[i] >= add_mon(a, b)[i]);
                assert(sub_mon(m, a)[i] == (m[i] - a[i]) as usize);
            }
        }
    }
}

/// The degree of a component-wise sum is the sum of the degrees.
pub proof fn lemma_mdeg_add(a: Seq<usize>, b: Seq<usize>, c: Seq<usize>, i: int)
    requires
        a.len() == b.len() == c.len(),
        forall|j: int| 0 <= j < c.len() ==> (#[trigger] c[j]) == a[j] + b[j],
        0 <= i,
    ensures
        mdeg_from(c, i) == mdeg_from(a, i) + mdeg_from(b, i),
    decreases a.len() - i,
{
    if i < a.len() {
        lemma_mdeg_add(a, b, c, i + 1);
    }
}

/// A monomial's value at a point is multiplicative in the exponents.
pub proof fn lemma_mon_eval_add(a: Seq<usize>, b: Seq<usize>, xs: Seq<int>, i: int)
    requires
        a.len() == b.len(),
        mdeg(a) + mdeg(b) <= usize::MAX,
        0 <= i,
    ensures
        mon_eval_from(add_mon(a, b), xs, i) == fmul(
            mon_eval_from(a, xs, i),
            mon_eval_from(b, xs, i),
        ),
    decreases a.len() - i,
{
    let c = add_mon(a, b);
    if i >= a.len() {
        assert(fmul(1, 1) == 1) by {
            vstd::arithmetic::div_mod::lemma_small_mod(1, crate::field::MODULUS as nat);
        }
    } else {
        lemma_mon_eval_add(a, b, xs, i + 1);
        lemma_exp_le_mdeg(a, i);
        lemma_exp_le_mdeg(b, i);
        lemma_mdeg_nonneg(a, 0);
        lemma_mdeg_nonneg(b, 0);
        assert(c[i] == (a[i] + b[i]) as usize);
        assert(c[i] as nat == a[i] as nat + b[i] as nat);
        lemma_fpow_adds(xs[i], a[i] as nat, b[i] as nat);
        lemma_fmul_four(
            fpow(xs[i], a[i] as nat),
            fpow(xs[i], b[i] as nat),
            mon_eval_from(a, xs, i + 1),
            mon_eval_from(b, xs, i + 1),
        );
    }
}

/// A monomial's value is a reduced field element.
pub proof fn lemma_mon_eval_in_field(m: Seq<usize>, xs: Seq<int>, i: int)
    ensures
        in_field(mon_eval_from(m, xs, i)),
    decreases m.len() - i,
{
    if 0 <= i && i < m.len() {
        lemma_mon_eval_in_field(m, xs, i + 1);
        crate::field::lemma_field_closed(fpow(xs[i], m[i] as nat), mon_eval_from(m, xs, i + 1));
    }
}

/// Copies an exponent tuple.
pub fn copy_mon(a: &Vec<usize>) -> (r: Vec<usize>)
    ensures
        r@ == a@,
{
    let mut out: Vec<usize> = Vec::new();
    let mut i: usize = 0;
    while i < a.len()
        invariant
            i <= a.len(),
            out@ =~= a@.take(i as int),
        decreases a.len() - i,
    {
        out.push(a[i]);
        i += 1;
    }
    proof {
        assert(out@ =~= a@);
    }
    out
}

/// Compares two equal-length exponent tuples lexicographically.
pub fn lex_less(a: &Vec<usize>, b: &Vec<usize>) -> (r: bool)
    requires
        a@.len() == b@.len(),
    ensures
        r == lex_lt(a@, b@),
{
    let mut i: usize = 0;
    while i < a.len()
        invariant
            i <= a.len(),
            a@.len() == b@.len(),
            forall|j: int| 0 <= j < i ==> a@[j] == b@[j],
            lex_lt(a@, b@) == lex_lt_from(a@, b@, i as int),
        decreases a.len() - i,
    {
        if a[i] < b[i] {
            return true;
        }
        if a[i] > b[i] {
            return false;
        }
        i += 1;
    }
    false
}

/// Tests two exponent tuples for equality.
pub fn mon_eq(a: &Vec<usize>, b: &Vec<usize>) -> (r: bool)
    ensures
        r == (a@ == b@),
{
    if a.len() != b.len() {
        proof {
            assert(a@.len() != b@.len());
        }
        return false;
    }
    let mut i: usize = 0;
    while i < a.len()
        invariant
            i <= a.len(),
            a@.len() == b@.len(),
            forall|j: int| 0 <= j < i ==> a@[j] == b@[j],
        decreases a.len() - i,
    {
        if a[i] != b[i] {
            return false;
        }
        i += 1;
    }
    proof {
        assert(a@ =~= b@);
    }
    true
}

/// Component-wise sum of two exponent tuples.
pub fn mon_add(a: &Vec<usize>, b: &Vec<usize>) -> (r: Vec<usize>)
    requires
        a@.len() == b@.len(),
        mdeg(a@) + mdeg(b@) <= usize::MAX,
    ensures
        r@.len() == a@.len(),
        forall|j: int| 0 <= j < r@.len() ==> (#[trigger] r@[j]) == a@[j] + b@[j],
        mdeg(r@) == mdeg(a@) + mdeg(b@),
        r@ == add_mon(a@, b@),
{
    let mut out: Vec<usize> = Vec::new();
    let mut i: usize = 0;
    while i < a.len()
        invariant
            i <= a.len(),
            a@.len() == b@.len(),
            mdeg(a@) + mdeg(b@) <= usize::MAX,
            out@.len() == i,
            forall|j: int| 0 <= j < i ==> (#[trigger] out@[j]) == a@[j] + b@[j],
        decreases a.len() - i,
    {
        proof {
            lemma_exp_le_mdeg(a@, i as int);
            lemma_exp_le_mdeg(b@, i as int);
            lemma_mdeg_nonneg(a@, 0);
            lemma_mdeg_nonneg(b@, 0);
        }
        out.push(a[i] + b[i]);
        i += 1;
    }
    proof {
        lemma_mdeg_add(a@, b@, out@, 0);
        assert(out@ =~= add_mon(a@, b@));
    }
    out
}

/// Total degree of an exponent tuple.
pub fn mon_deg(m: &Vec<usize>) -> (r: usize)
    requires
        mdeg(m@) <= usize::MAX,
    ensures
        r == mdeg(m@),
{
    let mut acc: usize = 0;
    let mut i: usize = 0;
    while i < m.len()
        invariant
            i <= m.len(),
            mdeg(m@) <= usize::MAX,
            acc + mdeg_from(m@, i as int) == mdeg(m@),
        decreases m.len() - i,
    {
        proof {
            lemma_mdeg_nonneg(m@, i as int + 1);
        }
        acc = acc + m[i];
        i += 1;
    }
    acc
}

/// Builds the all-zero exponent tuple.
pub fn zero_mon_exec(n: usize) -> (r: Vec<usize>)
    ensures
        r@ =~= zero_mon(n as int),
        mdeg(r@) == 0,
{
    let mut out: Vec<usize> = Vec::new();
    let mut i: usize = 0;
    while i < n
        invariant
            i <= n,
            out@.len() == i,
            forall|j: int| 0 <= j < i ==> (#[trigger] out@[j]) == 0usize,
        decreases n - i,
    {
        out.push(0);
        i += 1;
    }
    proof {
        assert(out@ =~= zero_mon(n as int));
        lemma_zero_mon_deg(n as int, 0);
        assert(mdeg_from(out@, 0) == mdeg_from(zero_mon(n as int), 0)) by {
            lemma_mdeg_seq_eq(out@, zero_mon(n as int), 0);
        }
    }
    out
}

/// Equal tuples have equal partial degrees.
proof fn lemma_mdeg_seq_eq(a: Seq<usize>, b: Seq<usize>, i: int)
    requires
        a =~= b,
    ensures
        mdeg_from(a, i) == mdeg_from(b, i),
    decreases a.len() - i,
{
    if 0 <= i && i < a.len() {
        lemma_mdeg_seq_eq(a, b, i + 1);
    }
}

/// Evaluates a monomial at a point.
pub fn mon_value(m: &Vec<usize>, x: &Vec<crate::field::Fe>) -> (r: crate::field::Fe)
    requires
        m@.len() <= x@.len(),
        forall|j: int| 0 <= j < x@.len() ==> in_field((#[trigger] x@[j])@),
    ensures
        r@ == mon_eval(m@, x@.map_values(|f: crate::field::Fe| f@)),
        in_field(r@),
{
    let ghost xs = x@.map_values(|f: crate::field::Fe| f@);
    let mut acc = crate::field::Fe::one();
    let mut i: usize = 0;
    while i < m.len()
        invariant
            i <= m.len(),
            m@.len() <= x@.len(),
            xs == x@.map_values(|f: crate::field::Fe| f@),
            forall|j: int| 0 <= j < x@.len() ==> in_field((#[trigger] x@[j])@),
            in_field(acc@),
            fmul(acc@, mon_eval_from(m@, xs, i as int)) == mon_eval(m@, xs),
        decreases m.len() - i,
    {
        let p = x[i].pow(m[i] as u64);
        proof {
            let rest = mon_eval_from(m@, xs, i as int + 1);
            crate::field::lemma_fmul_assoc(acc@, p@, rest);
            assert(mon_eval_from(m@, xs, i as int) == fmul(p@, rest));
        }
        acc = acc.mul(p);
        i += 1;
    }
    proof {
        crate::field::lemma_fmul_one(acc@);
    }
    acc
}

} // verus!
