//! The coefficient field: integers modulo the Mersenne prime 2^31 - 1.
//!
//! Every element is kept reduced, so a value is a single machine word and
//! all sums and products fit comfortably in `u64` arithmetic.

use vstd::prelude::*;
use vstd::arithmetic::div_mod::{
    lemma_add_mod_noop, lemma_mod_bound, lemma_mul_mod_noop_general, lemma_small_mod,
};
use vstd::arithmetic::mul::{
    lemma_mul_is_associative, lemma_mul_is_commutative, lemma_mul_is_distributive_add,
};

verus! {

/// The field modulus, a prime.
pub const MODULUS: u64 = 2147483647;

/// Whether `a` is a reduced representative of a field element.
pub open spec fn in_field(a: int) -> bool {
    0 <= a < MODULUS as int
}

/// Addition in the field.
pub open spec fn fadd(a: int, b: int) -> int {
    (a + b) % (MODULUS as int)
}

/// Negation in the field.
pub open spec fn fneg(a: int) -> int {
    (MODULUS as int - a) % (MODULUS as int)
}

/// Subtraction in the field.
pub open spec fn fsub(a: int, b: int) -> int {
    (a - b + MODULUS as int) % (MODULUS as int)
}

/// Multiplication in the field.
pub open spec fn fmul(a: int, b: int) -> int {
    (a * b) % (MODULUS as int)
}

/// Exponentiation in the field by a natural exponent.
pub open spec fn fpow(a: int, e: nat) -> int
    decreases e,
{
    if e == 0 {
        1
    } else {
        fmul(a, fpow(a, (e - 1) as nat))
    }
}

/// A field element, stored reduced.
#[derive(Clone, Copy, Debug, PartialEq, Eq, Structural, Hash)]
pub struct Fe {
    v: u64,
}

impl View for Fe {
    type V = int;

    closed spec fn view(&self) -> int {
        self.v as int
    }
}

impl Fe {
    /// Builds the field element represented by `x`, reducing it.
    pub fn new(x: u64) -> (r: Fe)
        ensures
            r@ == (x as int) % (MODULUS as int),
            in_field(r@),
    {
        proof {
            lemma_mod_bound(x as int, MODULUS as int);
        }
        Fe { v: x % MODULUS }
    }

    /// The additive identity.
    pub fn zero() -> (r: Fe)
        ensures
            r@ == 0,
            in_field(r@),
    {
        Fe { v: 0 }
    }

    /// The multiplicative identity.
    pub fn one() -> (r: Fe)
        ensures
            r@ == 1,
            in_field(r@),
    {
        Fe { v: 1 }
    }

    /// Whether two elements are equal.
    pub fn equals(&self, o: &Fe) -> (r: bool)
        ensures
            r == (self@ == o@),
    {
        self.v == o.v
    }

    /// Whether this is the additive identity.
    pub fn is_zero(&self) -> (r: bool)
        ensures
            r == (self@ == 0),
    {
        self.v == 0
    }

    /// Field addition.
    pub fn add(self, o: Fe) -> (r: Fe)
        requires
            in_field(self@),
            in_field(o@),
        ensures
            r@ == fadd(self@, o@),
            in_field(r@),
    {
        proof {
            lemma_mod_bound(self@ + o@, MODULUS as int);
        }
        Fe { v: (self.v + o.v) % MODULUS }
    }

    /// Field negation.
    pub fn neg(self) -> (r: Fe)
        requires
            in_field(self@),
        ensures
            r@ == fneg(self@),
            in_field(r@),
    {
        proof {
            lemma_mod_bound(MODULUS as int - self@, MODULUS as int);
        }
        Fe { v: (MODULUS - self.v) % MODULUS }
    }

    /// Field subtraction.
    pub fn sub(self, o: Fe) -> (r: Fe)
        requires
            in_field(self@),
            in_field(o@),
        ensures
            r@ == fsub(self@, o@),
            in_field(r@),
    {
        proof {
            lemma_mod_bound(self@ - o@ + MODULUS as int, MODULUS as int);
        }
        Fe { v: (self.v + MODULUS - o.v) % MODULUS }
    }

    /// Field multiplication.
    pub fn mul(self, o: Fe) -> (r: Fe)
        requires
            in_field(self@),
            in_field(o@),
        ensures
            r@ == fmul(self@, o@),
            in_field(r@),
    {
        proof {
            assert((self.v as int) * (o.v as int) <= 2147483646int * 2147483646int)
                by (nonlinear_arith)
                requires
                    self.v as int <= 2147483646,
                    o.v as int <= 2147483646,
                    0 <= self.v as int,
                    0 <= o.v as int,
            ;
            lemma_mod_bound(self@ * o@, MODULUS as int);
        }
        Fe { v: (self.v * o.v) % MODULUS }
    }

    /// Field exponentiation by a machine-word exponent.
    pub fn pow(self, e: u64) -> (r: Fe)
        requires
            in_field(self@),
        ensures
            r@ == fpow(self@, e as nat),
            in_field(r@),
    {
        let mut acc = Fe::one();
        let mut i: u64 = 0;
        proof {
            lemma_fpow_in_field(self@, 0);
        }
        while i < e
            invariant
                in_field(self@),
                in_field(acc@),
                i <= e,
                acc@ == fpow(self@, i as nat),
            decreases e - i,
        {
            proof {
                lemma_fpow_in_field(self@, (i + 1) as nat);
                lemma_fmul_comm(acc@, self@);
            }
            acc = acc.mul(self);
            i = i + 1;
        }
        acc
    }
}

/// A power of a reduced element is reduced.
pub proof fn lemma_fpow_in_field(a: int, e: nat)
    requires
        in_field(a),
    ensures
        in_field(fpow(a, e)),
    decreases e,
{
    if e > 0 {
        lemma_fpow_in_field(a, (e - 1) as nat);
        lemma_mod_bound(a * fpow(a, (e - 1) as nat), MODULUS as int);
    }
}

/// Adding the additive identity changes nothing.
pub proof fn lemma_fadd_zero(a: int)
    requires
        in_field(a),
    ensures
        fadd(a, 0) == a,
        fadd(0, a) == a,
{
    lemma_small_mod(a as nat, MODULUS as nat);
}

/// Addition in the field is commutative.
pub proof fn lemma_fadd_comm(a: int, b: int)
    ensures
        fadd(a, b) == fadd(b, a),
{
}

/// Addition in the field is associative.
pub proof fn lemma_fadd_assoc(a: int, b: int, c: int)
    ensures
        fadd(fadd(a, b), c) == fadd(a, fadd(b, c)),
{
    let m = MODULUS as int;
    lemma_add_mod_noop(a + b, c, m);
    lemma_add_mod_noop(a, b + c, m);
    lemma_mod_mod_self(a + b + c);
}

/// An element plus its negation is the additive identity.
pub proof fn lemma_fadd_neg(a: int)
    requires
        in_field(a),
    ensures
        fadd(a, fneg(a)) == 0,
{
    let m = MODULUS as int;
    if a == 0 {
        lemma_small_mod(0, m as nat);
    } else {
        lemma_small_mod((m - a) as nat, m as nat);
        assert(fadd(a, fneg(a)) == m % m);
        lemma_small_mod(0, m as nat);
        assert(m % m == 0) by {
            vstd::arithmetic::div_mod::lemma_mod_self_0(m);
        }
    }
}

/// Negating twice gives the element back.
pub proof fn lemma_fneg_fneg(a: int)
    requires
        in_field(a),
    ensures
        fneg(fneg(a)) == a,
{
    let m = MODULUS as int;
    if a == 0 {
        lemma_small_mod(0, m as nat);
        vstd::arithmetic::div_mod::lemma_mod_self_0(m);
    } else {
        lemma_small_mod((m - a) as nat, m as nat);
        lemma_small_mod(a as nat, m as nat);
    }
}

/// Subtraction agrees with adding the negation.
pub proof fn lemma_fsub_is_fadd_fneg(a: int, b: int)
    requires
        in_field(a),
        in_field(b),
    ensures
        fsub(a, b) == fadd(a, fneg(b)),
{
    let m = MODULUS as int;
    if b == 0 {
        lemma_small_mod(0, m as nat);
        assert(fneg(0) == m % m);
        vstd::arithmetic::div_mod::lemma_mod_self_0(m);
    } else {
        lemma_small_mod((m - b) as nat, m as nat);
    }
}

/// Multiplying by the multiplicative identity changes nothing.
pub proof fn lemma_fmul_one(a: int)
    requires
        in_field(a),
    ensures
        fmul(a, 1) == a,
        fmul(1, a) == a,
{
    lemma_small_mod(a as nat, MODULUS as nat);
}

/// Multiplying by the additive identity gives the additive identity.
pub proof fn lemma_fmul_zero(a: int)
    ensures
        fmul(a, 0) == 0,
        fmul(0, a) == 0,
{
    lemma_small_mod(0, MODULUS as nat);
}

/// Multiplication in the field is commutative.
pub proof fn lemma_fmul_comm(a: int, b: int)
    ensures
        fmul(a, b) == fmul(b, a),
{
    lemma_mul_is_commutative(a, b);
}

/// Multiplication in the field is associative.
pub proof fn lemma_fmul_assoc(a: int, b: int, c: int)
    ensures
        fmul(fmul(a, b), c) == fmul(a, fmul(b, c)),
{
    let m = MODULUS as int;
    lemma_mul_mod_noop_general(a * b, c, m);
    lemma_mul_mod_noop_general(a, b * c, m);
    lemma_mul_is_associative(a, b, c);
}

/// Multiplication distributes over addition in the field.
pub proof fn lemma_fmul_distrib(a: int, b: int, c: int)
    ensures
        fmul(a, fadd(b, c)) == fadd(fmul(a, b), fmul(a, c)),
{
    let m = MODULUS as int;
    lemma_mul_mod_noop_general(a, b + c, m);
    lemma_mul_is_distributive_add(a, b, c);
    lemma_add_mod_noop(a * b, a * c, m);
    lemma_mod_mod_self(a * b + a * c);
}

/// Sums and products in the field are reduced.
pub proof fn lemma_field_closed(a: int, b: int)
    ensures
        in_field(fadd(a, b)),
        in_field(fmul(a, b)),
        in_field(fneg(a)),
        in_field(fsub(a, b)),
{
    let m = MODULUS as int;
    lemma_mod_bound(a + b, m);
    lemma_mod_bound(a * b, m);
    lemma_mod_bound(m - a, m);
    lemma_mod_bound(a - b + m, m);
}

/// Multiplying by the negation of one negates.
pub proof fn lemma_fmul_neg_one(x: int)
    requires
        in_field(x),
    ensures
        fmul(fneg(1), x) == fneg(x),
{
    let m = MODULUS as int;
    lemma_small_mod((m - 1) as nat, m as nat);
    assert(fneg(1) == m - 1);
    assert((m - 1) * x == m * x + (-x)) by (nonlinear_arith);
    vstd::arithmetic::div_mod::lemma_mod_multiples_vanish(x, -x, m);
    assert(((m - 1) * x) % m == (-x) % m);
    vstd::arithmetic::div_mod::lemma_mod_multiples_vanish(1, -x, m);
    assert((m * 1 + (-x)) % m == (-x) % m);
    assert(m - x == m * 1 + (-x));
}

/// Subtracting an element from itself gives the additive identity.
pub proof fn lemma_fsub_self(a: int)
    requires
        in_field(a),
    ensures
        fsub(a, a) == 0,
{
    vstd::arithmetic::div_mod::lemma_mod_self_0(MODULUS as int);
}

/// Multiplication distributes over addition on the left factor too.
pub proof fn lemma_fmul_distrib_right(a: int, b: int, c: int)
    ensures
        fmul(fadd(a, b), c) == fadd(fmul(a, c), fmul(b, c)),
{
    lemma_fmul_comm(fadd(a, b), c);
    lemma_fmul_distrib(c, a, b);
    lemma_fmul_comm(a, c);
    lemma_fmul_comm(b, c);
}

/// Regrouping a sum of four field terms.
pub proof fn lemma_fadd_four(a: int, b: int, c: int, d: int)
    ensures
        fadd(fadd(a, b), fadd(c, d)) == fadd(fadd(a, c), fadd(b, d)),
{
    let m = MODULUS as int;
    lemma_add_mod_noop(a + b, c + d, m);
    lemma_mod_mod_self(a + b + c + d);
    lemma_add_mod_noop(a + c, b + d, m);
}

/// Powers of a product split over the exponent sum.
pub proof fn lemma_fpow_adds(a: int, e1: nat, e2: nat)
    ensures
        fpow(a, e1 + e2) == fmul(fpow(a, e1), fpow(a, e2)),
    decreases e1,
{
    if e1 == 0 {
        let m = MODULUS as int;
        if e2 == 0 {
            lemma_small_mod(1, m as nat);
            assert(fmul(1, 1) == 1);
        } else {
            lemma_mod_bound(a * fpow(a, (e2 - 1) as nat), m);
            assert(0 <= fpow(a, e2) < m);
            lemma_small_mod(fpow(a, e2) as nat, m as nat);
            assert(1 * fpow(a, e2) == fpow(a, e2));
            assert(fmul(1, fpow(a, e2)) == fpow(a, e2) % m);
            assert(fmul(fpow(a, e1), fpow(a, e2)) == fpow(a, e2));
        }
        assert(e1 + e2 == e2);
    } else {
        lemma_fpow_adds(a, (e1 - 1) as nat, e2);
        assert((e1 - 1) as nat + e2 == (e1 + e2 - 1) as nat);
        assert(fpow(a, (e1 + e2 - 1) as nat) == fmul(fpow(a, (e1 - 1) as nat), fpow(a, e2)));
        assert(fpow(a, e1 + e2) == fmul(a, fpow(a, (e1 + e2 - 1) as nat)));
        assert(fpow(a, e1) == fmul(a, fpow(a, (e1 - 1) as nat)));
        lemma_fmul_assoc(a, fpow(a, (e1 - 1) as nat), fpow(a, e2));
    }
}

/// Regrouping a product of four field factors.
pub proof fn lemma_fmul_four(a: int, b: int, c: int, d: int)
    ensures
        fmul(fmul(a, b), fmul(c, d)) == fmul(fmul(a, c), fmul(b, d)),
{
    let m = MODULUS as int;
    lemma_mul_mod_noop_general(a * b, c * d, m);
    lemma_mul_mod_noop_general(a * c, b * d, m);
    assert((a * b) * (c * d) == (a * c) * (b * d)) by (nonlinear_arith);
}

/// Every power of one is one.
pub proof fn lemma_fpow_one(e: nat)
    ensures
        fpow(1, e) == 1,
    decreases e,
{
    if e > 0 {
        lemma_fpow_one((e - 1) as nat);
        lemma_small_mod(1, MODULUS as nat);
    }
}

/// Reducing one summand first does not change a field sum.
pub proof fn lemma_fadd_reduce_left(a: int, b: int)
    ensures
        fadd(a % (MODULUS as int), b) == fadd(a, b),
{
    let m = MODULUS as int;
    lemma_add_mod_noop(a, b, m);
    lemma_mod_mod_self(a);
    lemma_add_mod_noop(a % m, b, m);
}

/// Reducing twice is the same as reducing once.
proof fn lemma_mod_mod_self(x: int)
    ensures
        (x % (MODULUS as int)) % (MODULUS as int) == x % (MODULUS as int),
{
    lemma_mod_bound(x, MODULUS as int);
    lemma_small_mod((x % (MODULUS as int)) as nat, MODULUS as nat);
}

} // verus!
