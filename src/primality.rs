use vstd::prelude::*;

verus! {

/// `n` is greater than 1 and has no divisor strictly between 1 and itself.
pub open spec fn is_prime(n: int) -> bool {
    &&& n > 1
    &&& forall|d: int| 1 < d < n ==> #[trigger] (n % d) != 0
}

/// Every prime below `bound` occurs in `s`.
pub open spec fn holds_all_primes_below(s: Seq<u64>, bound: int) -> bool {
    forall|q: int|
        0 <= q < bound && #[trigger] is_prime(q) ==> exists|i: int| 0 <= i < s.len() && s[i] == q
}

/// `s` is strictly increasing and made of primes only.
pub open spec fn increasing_primes(s: Seq<u64>) -> bool {
    &&& forall|i: int| 0 <= i < s.len() ==> #[trigger] is_prime(s[i] as int)
    &&& forall|i: int, j: int| 0 <= i < j < s.len() ==> #[trigger] s[i] < #[trigger] s[j]
}

/// `s` is the sequence of the first `s.len()` primes.
pub open spec fn first_primes(s: Seq<u64>) -> bool {
    &&& increasing_primes(s)
    &&& s.len() > 0 ==> holds_all_primes_below(s, s.last() + 1)
}

} // verus!

verus! {

/// `p` is the value that comes after the record `s`: 2 when `s` is empty,
/// else the least prime above the last element of `s`.
pub open spec fn follows(s: Seq<u64>, p: u64) -> bool {
    if s.len() == 0 {
        p == 2
    } else {
        &&& s.last() < p
        &&& is_prime(p as int)
        &&& forall|q: int| s.last() < q < p ==> !#[trigger] is_prime(q)
    }
}

/// `s` is non-empty and no `u64` above its last element is prime.
pub open spec fn exhausted(s: Seq<u64>) -> bool {
    &&& s.len() > 0
    &&& forall|q: int| s.last() < q <= u64::MAX ==> !#[trigger] is_prime(q)
}

proof fn lemma_divides_trans(p: int, d: int, n: int)
    requires
        p > 0,
        d > 0,
        d % p == 0,
        n % d == 0,
    ensures
        n % p == 0,
{
    let a = d / p;
    let b = n / d;
    vstd::arithmetic::div_mod::lemma_fundamental_div_mod(d, p);
    vstd::arithmetic::div_mod::lemma_fundamental_div_mod(n, d);
    assert(n == (a * b) * p) by (nonlinear_arith)
        requires
            d == p * a,
            n == d * b,
    ;
    vstd::arithmetic::div_mod::lemma_mod_multiples_basic(a * b, p);
}

/// Every integer above 1 has a prime divisor no larger than itself.
proof fn lemma_prime_divisor(n: int)
    requires
        n > 1,
    ensures
        exists|p: int| is_prime(p) && p <= n && #[trigger] (n % p) == 0,
    decreases n,
{
    if is_prime(n) {
        assert(n % n == 0);
    } else {
        let d = choose|d: int| 1 < d < n && #[trigger] (n % d) == 0;
        lemma_prime_divisor(d);
        let p = choose|p: int| is_prime(p) && p <= d && #[trigger] (d % p) == 0;
        lemma_divides_trans(p, d, n);
        assert(is_prime(p) && p <= n && n % p == 0);
    }
}

/// A number above 1 that is not prime has a prime divisor whose square
/// does not exceed it.
proof fn lemma_small_prime_factor(n: int)
    requires
        n > 1,
        !is_prime(n),
    ensures
        exists|p: int| is_prime(p) && p * p <= n && #[trigger] (n % p) == 0,
{
    let d = choose|d: int| 1 < d < n && #[trigger] (n % d) == 0;
    let e = n / d;
    vstd::arithmetic::div_mod::lemma_fundamental_div_mod(n, d);
    assert(n == d * e);
    assert(e > 1) by (nonlinear_arith)
        requires
            n == d * e,
            1 < d < n,
    ;
    let m = if d <= e { d } else { e };
    assert(m * m <= n) by (nonlinear_arith)
        requires
            n == d * e,
            m == d || m == e,
            m <= d,
            m <= e,
            m > 1,
    ;
    assert(n % m == 0) by {
        if m == e {
            assert(n == d * e);
            vstd::arithmetic::div_mod::lemma_mod_multiples_basic(d, e);
        }
    }
    lemma_prime_divisor(m);
    let p = choose|p: int| is_prime(p) && p <= m && #[trigger] (m % p) == 0;
    lemma_divides_trans(p, m, n);
    assert(p * p <= n) by (nonlinear_arith)
        requires
            1 < p <= m,
            m * m <= n,
    ;
    assert(is_prime(p) && p * p <= n && n % p == 0);
}

/// Trial division by the recorded primes decides primality of `n`, once
/// every prime below `n` is recorded: if none of the first `i` of them
/// divides `n`, and either they are all of the record or the next one's
/// square exceeds `n`, then `n` is prime.
pub proof fn lemma_trial_division(s: Seq<u64>, n: int, i: int)
    requires
        increasing_primes(s),
        holds_all_primes_below(s, n),
        n > 1,
        0 <= i <= s.len(),
        forall|j: int| 0 <= j < i ==> #[trigger] (n % (s[j] as int)) != 0,
        i == s.len() || (s[i] as int) * (s[i] as int) > n,
    ensures
        is_prime(n),
{
    if !is_prime(n) {
        lemma_small_prime_factor(n);
        let p = choose|p: int| is_prime(p) && p * p <= n && #[trigger] (n % p) == 0;
        assert(p < n) by (nonlinear_arith)
            requires
                p > 1,
                p * p <= n,
        ;
        let k = choose|k: int| 0 <= k < s.len() && s[k] == p;
        if k < i {
            assert(n % (s[k] as int) != 0);
        } else {
            assert(s[i] <= s[k]);
            let a = s[i] as int;
            assert(a * a <= p * p) by (nonlinear_arith)
                requires
                    0 <= a <= p,
            ;
        }
    }
}

/// Two well-formed records of the same length are equal: what a generator
/// has produced depends on nothing but how many values it has produced.
pub proof fn lemma_deterministic(s: Seq<u64>, t: Seq<u64>)
    requires
        first_primes(s),
        first_primes(t),
        s.len() == t.len(),
    ensures
        s == t,
{
    lemma_agree_below(s, t, s.len() as int);
    assert(s =~= t);
}

proof fn lemma_agree_below(s: Seq<u64>, t: Seq<u64>, k: int)
    requires
        first_primes(s),
        first_primes(t),
        s.len() == t.len(),
        0 <= k <= s.len(),
    ensures
        forall|j: int| 0 <= j < k ==> s[j] == t[j],
    decreases k,
{
    if k > 0 {
        lemma_agree_below(s, t, k - 1);
        lemma_agree_at(s, t, k - 1);
        lemma_agree_at(t, s, k - 1);
    }
}

/// Where two well-formed records agree below `k`, the first does not hold
/// the smaller value at `k`.
proof fn lemma_agree_at(s: Seq<u64>, t: Seq<u64>, k: int)
    requires
        first_primes(s),
        first_primes(t),
        s.len() == t.len(),
        0 <= k < s.len(),
        forall|j: int| 0 <= j < k ==> s[j] == t[j],
    ensures
        s[k] >= t[k],
{
    if s[k] < t[k] {
        assert(t[k] <= t.last());
        assert(is_prime(s[k] as int));
        let m = choose|m: int| 0 <= m < t.len() && t[m] == s[k] as int;
        if m < k {
            assert(s[m] == s[k]);
        } else if m > k {
            assert(t[k] < t[m]);
        }
    }
}

/// At most one value follows a record, so a generator's next output is
/// fixed by what it has produced before.
pub proof fn lemma_follows_unique(s: Seq<u64>, p: u64, q: u64)
    requires
        follows(s, p),
        follows(s, q),
    ensures
        p == q,
{
    if s.len() > 0 {
        if p < q {
            assert(!is_prime(p as int));
        } else if q < p {
            assert(!is_prime(q as int));
        }
    }
}

/// A well-formed record begins 2, 3.
pub proof fn lemma_boundary(s: Seq<u64>)
    requires
        first_primes(s),
    ensures
        s.len() >= 1 ==> s[0] == 2,
        s.len() >= 2 ==> s[1] == 3,
{
    if s.len() >= 1 {
        assert(is_prime(2));
        assert(is_prime(s.last() as int));
        let m = choose|m: int| 0 <= m < s.len() && s[m] == 2;
        if m > 0 {
            assert(s[0] < s[m]);
        }
        assert(is_prime(s[0] as int));
    }
    if s.len() >= 2 {
        assert(is_prime(3)) by {
            assert forall|d: int| 1 < d < 3 implies #[trigger] (3int % d) != 0 by {
                assert(d == 2);
            }
        }
        assert(s[0] < s[1]);
        assert(s[1] <= s.last());
        let m = choose|m: int| 0 <= m < s.len() && s[m] == 3;
        assert(m != 0);
        if m > 1 {
            assert(s[1] < s[m]);
        }
    }
}

} // verus!

verus! {

/// Tests `n` for primality by dividing it by the primes of `found` in
/// increasing order, stopping at the first whose square exceeds `n`.
pub(crate) fn trial_division(found: &Vec<u64>, n: u64) -> (r: bool)
    requires
        increasing_primes(found@),
        holds_all_primes_below(found@, n as int),
        n > 1,
    ensures
        r == is_prime(n as int),
{
    let len = found.len();
    let mut i: usize = 0;
    while i < len
        invariant
            len == found@.len(),
            0 <= i <= len,
            increasing_primes(found@),
            holds_all_primes_below(found@, n as int),
            n > 1,
            forall|j: int| 0 <= j < i ==> #[trigger] ((n as int) % (found@[j] as int)) != 0,
        decreases len - i,
    {
        let p = found[i];
        assert(is_prime(found@[i as int] as int));
        assert((p as u128) * (p as u128) <= u128::MAX) by (nonlinear_arith)
            requires
                p <= u64::MAX,
        ;
        if (p as u128) * (p as u128) > n as u128 {
            proof {
                lemma_trial_division(found@, n as int, i as int);
            }
            return true;
        }
        if n % p == 0 {
            proof {
                assert(is_prime(p as int));
                assert((p as int) < (n as int)) by (nonlinear_arith)
                    requires
                        p > 1,
                        (p as int) * (p as int) <= n as int,
                ;
                assert((n as int) % (p as int) == 0);
            }
            return false;
        }
        i = i + 1;
    }
    proof {
        lemma_trial_division(found@, n as int, i as int);
    }
    true
}

} // verus!
