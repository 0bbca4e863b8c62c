//! Prime numbers for the monomial indexer.
//!
//! Monomials are encoded as products of prime powers, so the indexer needs
//! the list of the first N primes.  The generator below extends its table
//! lazily and its contract pins the table to *the* prime sequence: sorted,
//! every entry prime, starting at 2, with no prime skipped.

use vstd::prelude::*;
use vstd::arithmetic::div_mod::{
    lemma_fundamental_div_mod, lemma_fundamental_div_mod_converse_div,
    lemma_fundamental_div_mod_converse_mod,
};
use vstd::arithmetic::power::pow;

verus! {

/// What it means for `n` to be prime.
pub open spec fn is_prime_spec(n: int) -> bool {
    n >= 2 && forall|d: int| 2 <= d < n ==> #[trigger] (n % d) != 0
}

/// Divisibility is transitive: a divisor of a divisor divides.
proof fn lemma_divides_transitive(a: int, b: int, c: int)
    requires
        2 <= a,
        2 <= b,
        0 <= c,
        b % a == 0,
        c % b == 0,
    ensures
        c % a == 0,
{
    lemma_fundamental_div_mod(c, b);
    lemma_fundamental_div_mod(b, a);
    let q1 = c / b;
    let q2 = b / a;
    assert(c == a * (q2 * q1)) by (nonlinear_arith)
        requires
            c == b * q1,
            b == a * q2,
    ;
    assert(q2 * q1 >= 0) by (nonlinear_arith)
        requires
            q1 >= 0,
            q2 >= 0,
    ;
    lemma_fundamental_div_mod_converse_mod(c, a, q2 * q1, 0);
}

/// A composite number has a divisor no larger than its square root.
proof fn lemma_small_divisor(n: int, d: int)
    requires
        2 <= d < n,
        n % d == 0,
    ensures
        exists|e: int| 2 <= e && e * e <= n && #[trigger] (n % e) == 0,
{
    if d * d <= n {
        assert(2 <= d && d * d <= n && n % d == 0);
    } else {
        lemma_fundamental_div_mod(n, d);
        let q = n / d;
        assert(n == d * q);
        assert(q >= 2) by (nonlinear_arith)
            requires
                n == d * q,
                2 <= d < n,
        ;
        assert(q * q <= n) by (nonlinear_arith)
            requires
                n == d * q,
                d * d > n,
                q >= 2,
                d >= 2,
        ;
        lemma_fundamental_div_mod_converse_mod(n, q, d, 0);
        assert(2 <= q && q * q <= n && n % q == 0);
    }
}

/// Every number at least 2 has a prime divisor.
proof fn lemma_prime_divisor(m: int)
    requires
        m >= 2,
    ensures
        exists|p: int| is_prime_spec(p) && p <= m && #[trigger] (m % p) == 0,
    decreases m,
{
    if is_prime_spec(m) {
        vstd::arithmetic::div_mod::lemma_mod_self_0(m);
        assert(is_prime_spec(m) && m <= m && m % m == 0);
    } else {
        let d = choose|d: int| 2 <= d < m && #[trigger] (m % d) == 0;
        lemma_prime_divisor(d);
        let p = choose|p: int| is_prime_spec(p) && p <= d && #[trigger] (d % p) == 0;
        lemma_divides_transitive(p, d, m);
        assert(is_prime_spec(p) && p <= m && m % p == 0);
    }
}

/// Whether the square of `i` exceeds `n`, computed in wide arithmetic.
fn square_above(i: usize, n: usize) -> (r: bool)
    ensures
        r == ((i as int) * (i as int) > n as int),
{
    let ii = i as u128;
    proof {
        assert(ii * ii <= 0xffffffffffffffff_u128 * 0xffffffffffffffff_u128) by (nonlinear_arith)
            requires
                ii <= 0xffffffffffffffff_u128,
        ;
    }
    ii * ii > (n as u128)
}

/// Checks whether `n` is prime by trial division.
pub fn is_prime(n: usize) -> (r: bool)
    ensures
        r == is_prime_spec(n as int),
{
    if n == 2 {
        return true;
    }
    if n < 2 {
        return false;
    }
    if n % 2 == 0 {
        assert(!is_prime_spec(n as int)) by {
            assert(2 <= 2 < n as int && (n as int) % 2 == 0);
        }
        return false;
    }
    let mut i: usize = 3;
    while !square_above(i, n)
        invariant
            3 <= n,
            n % 2 == 1,
            3 <= i,
            i % 2 == 1,
            i <= n + 2,
            forall|j: int| 3 <= j < i && j % 2 == 1 ==> #[trigger] ((n as int) % j) != 0,
        decreases n + 2 - i,
    {
        if n % i == 0 {
            assert(i < n) by (nonlinear_arith)
                requires
                    (i as int) * (i as int) <= n as int,
                    3 <= i,
                    3 <= n,
            ;
            assert(!is_prime_spec(n as int)) by {
                assert(2 <= (i as int) && (i as int) < (n as int) && (n as int) % (i as int) == 0);
            }
            return false;
        }
        assert(i + 2 <= n) by (nonlinear_arith)
            requires
                (i as int) * (i as int) <= n as int,
                3 <= i,
        ;
        i += 2;
    }
    proof {
        if !is_prime_spec(n as int) {
            let d0 = choose|d: int| 2 <= d < n as int && #[trigger] ((n as int) % d) == 0;
            lemma_small_divisor(n as int, d0);
            let e = choose|e: int|
                2 <= e && e * e <= n as int && #[trigger] ((n as int) % e) == 0;
            if e % 2 == 0 {
                // an even divisor would make n even
                lemma_fundamental_div_mod(n as int, e);
                lemma_fundamental_div_mod(e, 2);
                let q1 = (n as int) / e;
                let q2 = e / 2;
                assert(n as int == 2 * (q2 * q1)) by (nonlinear_arith)
                    requires
                        n as int == e * q1,
                        e == 2 * q2,
                ;
                assert(q2 * q1 >= 0) by (nonlinear_arith)
                    requires
                        q1 >= 0,
                        q2 >= 0,
                ;
                lemma_fundamental_div_mod_converse_mod(n as int, 2, q2 * q1, 0);
                assert(false);
            } else {
                assert(e < i) by (nonlinear_arith)
                    requires
                        e * e <= n as int,
                        (i as int) * (i as int) > n as int,
                        e >= 2,
                        i >= 3,
                ;
                assert(3 <= e < i && e % 2 == 1);
                assert((n as int) % e != 0);
                assert(false);
            }
        }
    }
    true
}

/// Scans the odd numbers above `last` for the next prime.  The search is
/// bounded by a prime known to lie above `last`.
fn search_next_prime(last: usize, Ghost(bp): Ghost<int>) -> (r: usize)
    requires
        3 <= last,
        last % 2 == 1,
        is_prime_spec(bp),
        bp % 2 == 1,
        last as int + 2 <= bp,
        bp <= usize::MAX as int,
    ensures
        is_prime_spec(r as int),
        last < r,
        r as int <= bp,
        forall|m: int| (last as int) < m && m < (r as int) ==> !(#[trigger] is_prime_spec(m)),
{
    let mut i: usize = last + 2;
    proof {
        assert(!is_prime_spec(last as int + 1)) by {
            assert((last as int + 1) % 2 == 0);
            assert(2 <= 2 < last as int + 1);
        }
    }
    while !is_prime(i)
        invariant
            3 <= last,
            last % 2 == 1,
            i % 2 == 1,
            last + 2 <= i,
            (i as int) <= bp,
            is_prime_spec(bp),
            bp % 2 == 1,
            bp <= usize::MAX as int,
            forall|m: int| (last as int) < m && m < (i as int) ==> !(#[trigger] is_prime_spec(m)),
        decreases bp - i,
    {
        assert((i as int) < bp);
        assert(i as int + 2 <= bp);
        assert(!is_prime_spec(i + 1)) by {
            assert((i as int + 1) % 2 == 0);
            assert(2 <= 2 < i as int + 1 && (i as int + 1) % 2 == 0);
        }
        i += 2;
    }
    i
}

/// The table of a prime generator: sorted, all prime, starting at 2,
/// with no prime missing between consecutive entries.
pub open spec fn prime_seq(s: Seq<usize>) -> bool {
    &&& forall|i: int| 0 <= i < s.len() ==> is_prime_spec(#[trigger] s[i] as int)
    &&& forall|i: int| 0 <= i && i + 1 < s.len() ==> (#[trigger] s[i]) < s[i + 1]
    &&& (s.len() > 0 ==> s[0] == 2)
    &&& forall|i: int, m: int|
        0 <= i && i + 1 < s.len() && ((#[trigger] s[i]) as int) < m && m < (s[i + 1] as int)
            ==> !(#[trigger] is_prime_spec(m))
}

/// There are at least `n` primes within the machine word range.  This is a
/// machine limit: a table of `n` primes can only exist when the `n`-th prime
/// fits in a `usize`.  It holds for every `n` any real table can reach, but
/// it is not derivable inside the verifier.
pub open spec fn primes_exist(n: nat) -> bool {
    exists|s: Seq<usize>| prime_seq(s) && s.len() >= n
}

/// Entries of a prime table grow at least linearly.
proof fn lemma_prime_seq_lower(s: Seq<usize>, j: int)
    requires
        prime_seq(s),
        0 <= j < s.len(),
    ensures
        s[j] as int >= j + 2,
    decreases j,
{
    if j > 0 {
        lemma_prime_seq_lower(s, j - 1);
    }
}

/// Entries of a prime table are strictly increasing across any distance.
proof fn lemma_prime_seq_increasing(s: Seq<usize>, a: int, b: int)
    requires
        prime_seq(s),
        0 <= a < b < s.len(),
    ensures
        s[a] < s[b],
    decreases b - a,
{
    if a + 1 < b {
        lemma_prime_seq_increasing(s, a + 1, b);
    }
}

/// Two prime tables agree wherever both are defined.
pub proof fn lemma_prime_seq_agree(s1: Seq<usize>, s2: Seq<usize>, i: int)
    requires
        prime_seq(s1),
        prime_seq(s2),
        0 <= i < s1.len(),
        i < s2.len(),
    ensures
        s1[i] == s2[i],
    decreases i,
{
    if i == 0 {
    } else {
        lemma_prime_seq_agree(s1, s2, i - 1);
        if s1[i] < s2[i] {
            assert((s2[i - 1] as int) < (s1[i] as int) && (s1[i] as int) < (s2[i] as int));
            assert(!is_prime_spec(s1[i] as int));
            assert(false);
        }
        if s2[i] < s1[i] {
            assert((s1[i - 1] as int) < (s2[i] as int) && (s2[i] as int) < (s1[i] as int));
            assert(!is_prime_spec(s2[i] as int));
            assert(false);
        }
    }
}

/// Every prime below an entry of a prime table occurs earlier in the table.
proof fn lemma_prime_seq_covers(s: Seq<usize>, q: int, j: int)
    requires
        prime_seq(s),
        is_prime_spec(q),
        0 <= j < s.len(),
        q < s[j] as int,
    ensures
        exists|k: int| 0 <= k < j && (#[trigger] s[k]) as int == q,
    decreases j,
{
    if j == 0 {
        assert(q < 2);
        assert(false);
    } else {
        if q == s[j - 1] as int {
            assert(0 <= j - 1 < j && s[j - 1] as int == q);
        } else if q > s[j - 1] as int {
            assert((s[j - 1] as int) < q && q < (s[j] as int));
            assert(!is_prime_spec(q));
            assert(false);
        } else {
            lemma_prime_seq_covers(s, q, j - 1);
            let k = choose|k: int| 0 <= k < j - 1 && (#[trigger] s[k]) as int == q;
            assert(0 <= k < j && s[k] as int == q);
        }
    }
}

/// Appending the next prime keeps a table well formed.
proof fn lemma_prime_seq_push(s: Seq<usize>, v: usize)
    requires
        prime_seq(s),
        is_prime_spec(v as int),
        s.len() == 0 ==> v == 2,
        s.len() > 0 ==> (s[s.len() - 1] as int) < v as int,
        forall|m: int|
            s.len() > 0 && (s[s.len() - 1] as int) < m && m < v as int ==> !(
            #[trigger] is_prime_spec(m)),
    ensures
        prime_seq(s.push(v)),
{
    let t = s.push(v);
    assert forall|k: int| 0 <= k < t.len() implies is_prime_spec(#[trigger] t[k] as int) by {
        if k < s.len() {
            assert(t[k] == s[k]);
        }
    }
    assert forall|k: int| 0 <= k && k + 1 < t.len() implies (#[trigger] t[k]) < t[k + 1] by {
        if k + 1 < s.len() {
            assert(t[k] == s[k]);
        } else {
            assert(k == s.len() - 1);
            assert(t[k] == s[k]);
        }
    }
    assert forall|k: int, m: int|
        0 <= k && k + 1 < t.len() && ((#[trigger] t[k]) as int) < m && m < (t[k + 1] as int)
        implies !(#[trigger] is_prime_spec(m)) by {
        if k + 1 < s.len() {
            assert(t[k] == s[k]);
            assert(t[k + 1] == s[k + 1]);
        } else {
            assert(k == s.len() - 1);
            assert(t[k] == s[k]);
        }
    }
}

/// A lazily extended table of the first prime numbers.
pub struct PrimeNumberGenerator {
    primes: Vec<usize>,
}

impl View for PrimeNumberGenerator {
    type V = Seq<usize>;

    closed spec fn view(&self) -> Seq<usize> {
        self.primes@
    }
}

impl PrimeNumberGenerator {
    /// A generator with an empty table.
    pub fn new() -> (r: Self)
        ensures
            r@.len() == 0,
            prime_seq(r@),
    {
        PrimeNumberGenerator { primes: Vec::new() }
    }

    /// Extends the table by the next prime.
    fn push_next_prime(&mut self)
        requires
            prime_seq(old(self)@),
            primes_exist((old(self)@.len() + 1) as nat),
        ensures
            prime_seq(final(self)@),
            final(self)@.len() == old(self)@.len() + 1,
            old(self)@.is_prefix_of(final(self)@),
    {
        let ghost gs = choose|s: Seq<usize>| prime_seq(s) && s.len() >= old(self)@.len() + 1;
        let len = self.primes.len();
        proof {
            assert forall|k: int| 0 <= k < len implies self@[k] == gs[k] by {
                lemma_prime_seq_agree(self@, gs, k);
            }
        }
        if len == 0 {
            self.primes.push(2);
            proof {
                assert(forall|d: int| 2 <= d < 2 ==> #[trigger] (2int % d) != 0);
                lemma_prime_seq_push(old(self)@, 2);
            }
        } else if len == 1 {
            self.primes.push(3);
            proof {
                assert(is_prime_spec(3)) by {
                    assert forall|d: int| 2 <= d < 3 implies #[trigger] (3int % d) != 0 by {
                        assert(d == 2);
                        assert(3int % 2 == 1);
                    }
                }
                lemma_prime_seq_push(old(self)@, 3);
            }
        } else {
            let last = self.primes[len - 1];
            let ghost bp = gs[len as int] as int;
            proof {
                // the table's last entry is a prime above 2, hence odd
                assert(last == gs[len - 1]);
                lemma_prime_seq_increasing(gs, 0, len - 1);
                assert(last > 2);
                assert(is_prime_spec(last as int));
                assert((last as int) % 2 != 0) by {
                    assert(2 <= 2 < last as int);
                }
                // the next prime in the ghost table bounds the search
                assert(is_prime_spec(bp));
                assert((last as int) < bp);
                assert(bp % 2 != 0) by {
                    lemma_prime_seq_increasing(gs, 0, len as int);
                    assert(2 <= 2 < bp);
                }
                assert(bp % 2 == 1) by {
                    vstd::arithmetic::div_mod::lemma_mod_bound(bp, 2);
                }
                assert(last as int + 2 <= bp);
                assert(bp <= usize::MAX as int);
            }
            let found = search_next_prime(last, Ghost(bp));
            self.primes.push(found);
            proof {
                lemma_prime_seq_push(old(self)@, found);
            }
        }
    }

    /// Returns the `n`-th prime (1-based), extending the table as needed.
    pub fn get_nth_prime(&mut self, n: usize) -> (r: usize)
        requires
            n >= 1,
            prime_seq(old(self)@),
            primes_exist(n as nat),
        ensures
            prime_seq(final(self)@),
            final(self)@.len() >= n,
            final(self)@.len() == if old(self)@.len() >= n {
                old(self)@.len() as int
            } else {
                n as int
            },
            old(self)@.is_prefix_of(final(self)@),
            r == final(self)@[n - 1],
            forall|s: Seq<usize>| prime_seq(s) && s.len() >= n ==> r == s[n - 1],
    {
        let ghost gs = choose|s: Seq<usize>| prime_seq(s) && s.len() >= n as nat;
        while self.primes.len() < n
            invariant
                old(self)@.len() <= self@.len(),
                self@.len() == old(self)@.len() || self@.len() <= n,
                n >= 1,
                prime_seq(self@),
                prime_seq(gs),
                gs.len() >= n,
                old(self)@.is_prefix_of(self@),
            decreases n - self.primes.len(),
        {
            self.push_next_prime();
        }
        proof {
            assert forall|s: Seq<usize>| prime_seq(s) && s.len() >= n implies self.primes@[n
                - 1] == s[n - 1] by {
                lemma_prime_seq_agree(self@, s, n - 1);
            }
        }
        self.primes[n - 1]
    }

    /// Checks primality using the table of primes, extending it up to the
    /// square root of `n`.
    #[verifier::rlimit(60)]
    pub fn is_prime(&mut self, n: usize) -> (r: bool)
        requires
            prime_seq(old(self)@),
            exists|s: Seq<usize>|
                prime_seq(s) && s.len() >= 1 && (s[s.len() - 1] as int) * (s[s.len() - 1] as int)
                    > n as int,
        ensures
            r == is_prime_spec(n as int),
            prime_seq(final(self)@),
            old(self)@.is_prefix_of(final(self)@),
    {
        if n == 0 || n == 1 {
            return false;
        }
        let ghost gs = choose|s: Seq<usize>|
            prime_seq(s) && s.len() >= 1 && (s[s.len() - 1] as int) * (s[s.len() - 1] as int)
                > n as int;
        let mut i: usize = 1;
        let mut p = self.get_nth_prime(1);
        while !square_above(p, n)
            invariant
                2 <= n,
                prime_seq(self@),
                prime_seq(gs),
                gs.len() >= 1,
                (gs[gs.len() - 1] as int) * (gs[gs.len() - 1] as int) > n as int,
                1 <= i <= gs.len(),
                p == gs[i - 1],
                old(self)@.is_prefix_of(self@),
                forall|j: int| 0 <= j < i - 1 ==> (n as int) % ((#[trigger] gs[j]) as int) != 0,
            decreases gs.len() - i,
        {
            if n % p == 0 {
                assert(p < n) by (nonlinear_arith)
                    requires
                        (p as int) * (p as int) <= n as int,
                        2 <= p,
                        2 <= n,
                ;
                assert(!is_prime_spec(n as int)) by {
                    assert(2 <= (p as int) && (p as int) < (n as int) && (n as int) % (p as int) == 0);
                }
                return false;
            }
            proof {
                // the last table prime squares above n, so the scan stops earlier
                if i == gs.len() {
                    assert(p == gs[gs.len() - 1]);
                    assert(false);
                }
                lemma_prime_seq_lower(gs, i - 1);
            }
            i += 1;
            p = self.get_nth_prime(i);
        }
        proof {
            if !is_prime_spec(n as int) {
                let d0 = choose|d: int| 2 <= d < n as int && #[trigger] ((n as int) % d) == 0;
                lemma_small_divisor(n as int, d0);
                let e = choose|e: int|
                    2 <= e && e * e <= n as int && #[trigger] ((n as int) % e) == 0;
                lemma_prime_divisor(e);
                let q = choose|q: int| is_prime_spec(q) && q <= e && #[trigger] (e % q) == 0;
                lemma_divides_transitive(q, e, n as int);
                assert(q * q <= n as int) by (nonlinear_arith)
                    requires
                        q <= e,
                        e * e <= n as int,
                        2 <= q,
                        2 <= e,
                ;
                assert(q < p as int) by (nonlinear_arith)
                    requires
                        q * q <= n as int,
                        (p as int) * (p as int) > n as int,
                        2 <= q,
                        2 <= p,
                ;
                lemma_prime_seq_covers(gs, q, i - 1);
                let k = choose|k: int| 0 <= k < i - 1 && (#[trigger] gs[k]) as int == q;
                assert((n as int) % q != 0);
                assert(false);
            }
        }
        true
    }

    /// Returns the prime after the last one in the table.
    pub fn get_next_prime(&mut self) -> (r: usize)
        requires
            prime_seq(old(self)@),
            primes_exist((old(self)@.len() + 1) as nat),
        ensures
            prime_seq(final(self)@),
            old(self)@.is_prefix_of(final(self)@),
            final(self)@.len() == old(self)@.len() + 1,
            r == final(self)@[old(self)@.len() as int],
            forall|s: Seq<usize>|
                prime_seq(s) && s.len() >= old(self)@.len() + 1 ==> r == s[old(self)@.len() as int],
    {
        let n = self.primes.len();
        proof {
            let s = choose|s: Seq<usize>| prime_seq(s) && s.len() >= n + 1;
            lemma_prime_seq_lower(s, n as int);
        }
        self.get_nth_prime(n + 1)
    }

    /// Returns the table after making sure it holds at least `n` primes.
    pub fn get_first_nth_primes(&mut self, n: usize) -> (r: Vec<usize>)
        requires
            prime_seq(old(self)@),
            primes_exist(n as nat),
        ensures
            prime_seq(final(self)@),
            old(self)@.is_prefix_of(final(self)@),
            r@ == final(self)@,
            r@.len() >= n,
            r@.len() == if old(self)@.len() >= n {
                old(self)@.len() as int
            } else {
                n as int
            },
            prime_seq(r@),
            forall|s: Seq<usize>, i: int|
                prime_seq(s) && 0 <= i < r@.len() && i < s.len() ==> r@[i] == #[trigger] s[i],
    {
        if n >= 1 {
            let _ = self.get_nth_prime(n);
        }
        let mut out: Vec<usize> = Vec::new();
        let mut k: usize = 0;
        while k < self.primes.len()
            invariant
                k <= self.primes.len(),
                out@ =~= self@.take(k as int),
                prime_seq(self@),
                self@.len() >= n,
                old(self)@.is_prefix_of(self@),
            decreases self.primes.len() - k,
        {
            let v = self.primes[k];
            out.push(v);
            k += 1;
        }
        proof {
            assert(out@ =~= self@);
            assert forall|s: Seq<usize>, i: int|
                prime_seq(s) && 0 <= i < out@.len() && i < s.len() implies out@[i] == #[trigger] s[i] by {
                lemma_prime_seq_agree(self@, s, i);
            }
        }
        out
    }
}

/// The product of the prime powers in a factor list.
pub open spec fn prod_pm(s: Seq<(usize, usize)>) -> int
    decreases s.len(),
{
    if s.len() == 0 {
        1
    } else {
        pow(s[0].0 as int, s[0].1 as nat) * prod_pm(s.drop_first())
    }
}

/// Factors `n` over the given list of primes, returning each prime together
/// with its multiplicity.  Primes that do not divide `n` are left out;
/// whatever part of `n` the listed primes do not cover is left in the
/// (implicit) quotient `n / prod`.
///
/// The list must be strictly increasing with entries at least two, as the
/// generator's table is: on an unordered list the result's order would be
/// unspecified, and an entry below two would make the division spin.
/// Divides out of `m` every factor `p`, returning the quotient and the
/// multiplicity.
fn strip_factor(m: usize, p: usize) -> (r: (usize, usize))
    requires
        1 <= m,
        2 <= p,
    ensures
        1 <= r.0 <= m,
        (m as int) == (r.0 as int) * pow(p as int, r.1 as nat),
        (r.0 as int) % (p as int) != 0,
        r.1 < m,
        (r.1 == 0) == ((m as int) % (p as int) != 0),
        r.1 == 0 ==> r.0 == m,
    decreases m,
{
    let mut q = m;
    let mut c: usize = 0;
    proof {
        vstd::arithmetic::power::lemma_pow0(p as int);
    }
    while q % p == 0
        invariant
            1 <= q <= m,
            2 <= p,
            m as int == (q as int) * pow(p as int, c as nat),
            (c as int) < pow(p as int, c as nat),
            pow(p as int, c as nat) <= m,
            c >= 1 ==> (m as int) % (p as int) == 0,
            c == 0 ==> q == m,
        decreases q,
    {
        assert(q >= p) by {
            if q < p {
                vstd::arithmetic::div_mod::lemma_small_mod(q as nat, p as nat);
            }
        }
        let old_q = q;
        q = q / p;
        proof {
            lemma_fundamental_div_mod(old_q as int, p as int);
            assert(q >= 1 && q < old_q) by (nonlinear_arith)
                requires
                    old_q as int == p as int * (q as int),
                    old_q >= p,
                    p >= 2,
            ;
            vstd::arithmetic::power::lemma_pow1(p as int);
            vstd::arithmetic::power::lemma_pow_adds(p as int, 1nat, c as nat);
            assert(pow(p as int, (c + 1) as nat) == (p as int) * pow(p as int, c as nat));
            assert(m as int == (q as int) * pow(p as int, (c + 1) as nat)) by (nonlinear_arith)
                requires
                    m as int == (old_q as int) * pow(p as int, c as nat),
                    old_q as int == p as int * (q as int),
                    pow(p as int, (c + 1) as nat) == (p as int) * pow(p as int, c as nat),
            ;
            lemma_pow_exceeds(p as int, (c + 1) as nat);
            assert(pow(p as int, (c + 1) as nat) <= m) by (nonlinear_arith)
                requires
                    m as int == (q as int) * pow(p as int, (c + 1) as nat),
                    q >= 1,
                    pow(p as int, (c + 1) as nat) >= 1,
            ;
            if c == 0 {
                assert((m as int) % (p as int) == 0) by {
                    assert(m == old_q);
                }
            }
        }
        c += 1;
    }
    (q, c)
}

#[verifier::rlimit(100)]
pub fn naive_prime_factors(n: usize, primes: Vec<usize>) -> (r: Vec<(usize, usize)>)
    requires
        n >= 1,
        forall|j: int| 0 <= j < primes@.len() ==> (#[trigger] primes@[j]) >= 2,
        forall|j: int| 0 <= j && j + 1 < primes@.len() ==> (#[trigger] primes@[j]) < primes@[j + 1],
    ensures
        forall|t: int| 0 <= t && t + 1 < r@.len() ==> (#[trigger] r@[t]).0 < r@[t + 1].0,
        forall|t: int|
            0 <= t < r@.len() ==> (#[trigger] r@[t]).1 >= 1 && exists|j: int|
                0 <= j < primes@.len() && primes@[j] == r@[t].0,
        prod_pm(r@) >= 1,
        (n as int) % prod_pm(r@) == 0,
        forall|j: int|
            0 <= j < primes@.len() ==> ((n as int) / prod_pm(r@)) % ((#[trigger] primes@[j]) as int)
                != 0,
{
    let mut res: Vec<(usize, usize)> = Vec::new();
    let mut m = n;
    let mut idx: usize = 0;
    let ghost mut last_src: int = 0;
    while idx < primes.len()
        invariant
            1 <= m <= n,
            n >= 1,
            idx <= primes.len(),
            forall|j: int| 0 <= j < primes@.len() ==> (#[trigger] primes@[j]) >= 2,
            forall|j: int|
                0 <= j && j + 1 < primes@.len() ==> (#[trigger] primes@[j]) < primes@[j + 1],
            forall|t: int| 0 <= t && t + 1 < res@.len() ==> (#[trigger] res@[t]).0 < res@[t + 1].0,
            forall|t: int|
                0 <= t < res@.len() ==> (#[trigger] res@[t]).1 >= 1 && exists|j: int|
                    0 <= j < primes@.len() && primes@[j] == res@[t].0,
            res@.len() > 0 ==> 0 <= last_src < idx && primes@[last_src] == res@[res@.len() - 1].0,
            prod_pm(res@) >= 1,
            n as int == m as int * prod_pm(res@),
            forall|j: int| 0 <= j < idx ==> (m as int) % ((#[trigger] primes@[j]) as int) != 0,
        decreases primes.len() - idx,
    {
        let p = primes[idx];
        if m == 1 {
            proof {
                assert forall|j: int| 0 <= j < idx + 1 implies (m as int) % ((
                #[trigger] primes@[j]) as int) != 0 by {
                    if j == idx {
                        vstd::arithmetic::div_mod::lemma_small_mod(1nat, primes@[j] as nat);
                    }
                }
            }
            idx += 1;
            continue;
        }
        let ghost m0 = m as int;
        let sc = strip_factor(m, p);
        m = sc.0;
        let c = sc.1;
        if c > 0 {
            let ghost old_res = res@;
            res.push((p, c));
            proof {
                if old_res.len() > 0 {
                    lemma_sorted_trans(primes@, last_src, idx as int);
                }
                assert forall|t: int| 0 <= t && t + 1 < res@.len() implies (#[trigger] res@[t]).0
                    < res@[t + 1].0 by {
                    if t + 1 < old_res.len() {
                        assert(res@[t] == old_res[t]);
                        assert(res@[t + 1] == old_res[t + 1]);
                    } else {
                        assert(res@[t] == old_res[old_res.len() - 1]);
                        assert(res@[t + 1] == (p, c));
                    }
                }
                last_src = idx as int;
                lemma_prod_pm_push(old_res, (p, c));
                assert(pow(p as int, c as nat) >= 1) by {
                    vstd::arithmetic::power::lemma_pow_positive(p as int, c as nat);
                }
                assert(prod_pm(res@) >= 1) by (nonlinear_arith)
                    requires
                        prod_pm(res@) == prod_pm(old_res) * pow(p as int, c as nat),
                        prod_pm(old_res) >= 1,
                        pow(p as int, c as nat) >= 1,
                ;
                assert(n as int == m as int * prod_pm(res@)) by (nonlinear_arith)
                    requires
                        n as int == (m as int * pow(p as int, c as nat)) * prod_pm(old_res),
                        prod_pm(res@) == prod_pm(old_res) * pow(p as int, c as nat),
                ;
            }
        }
        proof {
            // dividing by later primes keeps earlier primes out of m
            assert forall|j: int| 0 <= j < idx + 1 implies (m as int) % ((#[trigger] primes@[j])
                as int) != 0 by {
                if j < idx {
                    if (m as int) % (primes@[j] as int) == 0 {
                        if m == 1 {
                            vstd::arithmetic::div_mod::lemma_small_mod(1nat, primes@[j] as nat);
                        }
                        assert(m0 == m as int * pow(p as int, c as nat));
                        assert(pow(p as int, c as nat) >= 1) by {
                            vstd::arithmetic::power::lemma_pow_positive(p as int, c as nat);
                        }
                        assert(m0 % (m as int) == 0) by {
                            assert(m0 == pow(p as int, c as nat) * (m as int)) by (nonlinear_arith)
                                requires
                                    m0 == (m as int) * pow(p as int, c as nat),
                            ;
                            lemma_fundamental_div_mod_converse_mod(
                                m0,
                                m as int,
                                pow(p as int, c as nat),
                                0,
                            );
                        }
                        if m >= 2 {
                            lemma_divides_transitive(primes@[j] as int, m as int, m0);
                        }
                        assert(false);
                    }
                }
            }
        }
        idx += 1;
    }
    proof {
        lemma_fundamental_div_mod_converse_div(n as int, prod_pm(res@), m as int, 0);
        assert((n as int) % prod_pm(res@) == 0) by {
            lemma_fundamental_div_mod_converse_mod(n as int, prod_pm(res@), m as int, 0);
        }
        assert forall|j: int| 0 <= j < primes@.len() implies ((n as int) / prod_pm(res@)) % ((
        #[trigger] primes@[j]) as int) != 0 by {
            assert((n as int) / prod_pm(res@) == m as int);
        }
    }
    res
}

/// Transitivity of an adjacent-sorted sequence.
proof fn lemma_sorted_trans(s: Seq<usize>, a: int, b: int)
    requires
        forall|j: int| 0 <= j && j + 1 < s.len() ==> (#[trigger] s[j]) < s[j + 1],
        0 <= a < b < s.len(),
    ensures
        s[a] < s[b],
    decreases b - a,
{
    if a + 1 < b {
        lemma_sorted_trans(s, a + 1, b);
    }
}

/// A power of a base at least 2 exceeds its exponent.
proof fn lemma_pow_exceeds(b: int, e: nat)
    requires
        b >= 2,
    ensures
        pow(b, e) > e,
    decreases e,
{
    if e > 0 {
        lemma_pow_exceeds(b, (e - 1) as nat);
        vstd::arithmetic::power::lemma_pow1(b);
        vstd::arithmetic::power::lemma_pow_adds(b, 1nat, (e - 1) as nat);
        assert(pow(b, e) == b * pow(b, (e - 1) as nat));
        assert(b * pow(b, (e - 1) as nat) > e) by (nonlinear_arith)
            requires
                b >= 2,
                e >= 1,
                pow(b, (e - 1) as nat) >= e,
        ;
    } else {
        vstd::arithmetic::power::lemma_pow0(b);
    }
}

/// Pushing a factor multiplies the product by its prime power.
proof fn lemma_prod_pm_push(s: Seq<(usize, usize)>, e: (usize, usize))
    ensures
        prod_pm(s.push(e)) == prod_pm(s) * pow(e.0 as int, e.1 as nat),
    decreases s.len(),
{
    if s.len() == 0 {
        assert(s.push(e)[0] == e);
        assert(s.push(e).drop_first() =~= s);
        assert(prod_pm(s) == 1);
        assert(prod_pm(s.push(e)) == pow(e.0 as int, e.1 as nat) * 1);
    } else {
        assert(s.push(e)[0] == s[0]);
        assert(s.push(e).drop_first() =~= s.drop_first().push(e));
        lemma_prod_pm_push(s.drop_first(), e);
        assert(prod_pm(s.push(e)) == pow(s[0].0 as int, s[0].1 as nat) * (prod_pm(s.drop_first())
            * pow(e.0 as int, e.1 as nat)));
        assert(pow(s[0].0 as int, s[0].1 as nat) * (prod_pm(s.drop_first()) * pow(
            e.0 as int,
            e.1 as nat,
        )) == (pow(s[0].0 as int, s[0].1 as nat) * prod_pm(s.drop_first())) * pow(
            e.0 as int,
            e.1 as nat,
        )) by (nonlinear_arith);
    }
}

/// Builds the mapping used to name variables: index `i` (0-based) stands for
/// the variable numbered `i + 1` in the first half, and for the `i`-th prime
/// in the second half.
pub fn get_mapping_with_primes<const N: usize>() -> (r: Vec<usize>)
    requires
        N <= usize::MAX / 2,
        primes_exist(N as nat),
    ensures
        r@.len() == 2 * N,
        forall|i: int| 0 <= i < N ==> (#[trigger] r@[i]) as int == i + 1,
        forall|s: Seq<usize>, i: int|
            prime_seq(s) && s.len() >= N && 0 <= i < N ==> r@[N + i] == #[trigger] s[i],
{
    let mut png = PrimeNumberGenerator::new();
    let ps = png.get_first_nth_primes(N);
    let mut out: Vec<usize> = Vec::new();
    let mut i: usize = 0;
    while i < N
        invariant
            i <= N,
            N <= usize::MAX / 2,
            out@.len() == i,
            forall|k: int| 0 <= k < i ==> (#[trigger] out@[k]) as int == k + 1,
        decreases N - i,
    {
        out.push(i + 1);
        i += 1;
    }
    let mut j: usize = 0;
    while j < N
        invariant
            j <= N,
            N <= usize::MAX / 2,
            ps@.len() >= N,
            prime_seq(ps@),
            forall|s: Seq<usize>, k: int|
                prime_seq(s) && 0 <= k < ps@.len() && k < s.len() ==> ps@[k] == #[trigger] s[k],
            out@.len() == N + j,
            forall|k: int| 0 <= k < N ==> (#[trigger] out@[k]) as int == k + 1,
            forall|k: int| 0 <= k < j ==> (#[trigger] out@[N + k]) == ps@[k],
        decreases N - j,
    {
        let v = ps[j];
        out.push(v);
        j += 1;
    }
    proof {
        assert forall|s: Seq<usize>, k: int|
            prime_seq(s) && s.len() >= N && 0 <= k < N implies out@[N + k] == #[trigger] s[k] by {
            assert(out@[N + k] == ps@[k]);
        }
    }
    out
}

} // verus!
