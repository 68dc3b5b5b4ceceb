//! An endless generator of the prime numbers, in increasing order, as `u64`.
//!
//! The generator keeps every prime it has produced and tests each new
//! candidate by trial division against that record alone.
use vstd::prelude::*;

mod primality;

pub use primality::{
    exhausted, first_primes, follows, holds_all_primes_below, increasing_primes, is_prime,
    lemma_boundary, lemma_deterministic, lemma_follows_unique, lemma_trial_division,
};

verus! {

/// Yields the primes 2, 3, 5, 7, ... one per call of `next`.
pub struct PrimeIter {
    primes: Vec<u64>,
}

impl View for PrimeIter {
    type V = Seq<u64>;

    /// The primes produced so far, in the order they were produced.
    closed spec fn view(&self) -> Seq<u64> {
        self.primes@
    }
}

impl PrimeIter {
    /// The record is the first `n` primes for some `n`.
    pub open spec fn well_formed(&self) -> bool {
        primality::first_primes(self@)
    }

    /// Returns a generator that has produced nothing yet.
    pub fn new() -> (r: PrimeIter)
        ensures
            r.well_formed(),
            r@ == Seq::<u64>::empty(),
    {
        PrimeIter { primes: Vec::new() }
    }

    /// Produces the next prime and records it.
    ///
    /// Returns `None`, leaving the record as it was, only when no prime
    /// above the last one produced fits in a `u64`.
    pub fn next(&mut self) -> (r: Option<u64>)
        requires
            old(self).well_formed(),
        ensures
            final(self).well_formed(),
            match r {
                Some(p) => final(self)@ == old(self)@.push(p) && follows(old(self)@, p),
                None => final(self)@ == old(self)@ && exhausted(old(self)@),
            },
    {
        let len = self.primes.len();
        if len == 0 {
            self.primes.push(2);
            proof {
                let s = self.primes@;
                assert(is_prime(2));
                assert forall|q: int| 0 <= q < 3 && #[trigger] is_prime(q) implies exists|i: int|
                    0 <= i < s.len() && s[i] == q by {
                    assert(s[0] == q);
                }
            }
            return Some(2);
        }
        let last = self.primes[len - 1];
        let ghost s = self.primes@;
        assert(is_prime(s[len - 1] as int));
        let mut c: u64;
        if last % 2 == 0 {
            c = last + 1;
        } else {
            if last > u64::MAX - 2 {
                return None;
            }
            c = last + 2;
            proof {
                assert((last + 1) as int % 2 == 0);
                assert(!is_prime(last + 1));
            }
        }
        proof {
            assert forall|q: int| 0 <= q < c && #[trigger] is_prime(q) implies exists|i: int|
                0 <= i < s.len() && s[i] == q by {
                if q > last {
                    assert(q == last + 1);
                }
            }
        }
        loop
            invariant
                self.primes@ == s,
                s == old(self)@,
                first_primes(s),
                len == s.len(),
                len > 0,
                last == s.last(),
                1 < last < c,
                c % 2 == 1,
                holds_all_primes_below(s, c as int),
                forall|q: int| last < q < c ==> !#[trigger] is_prime(q),
            decreases u64::MAX - c,
        {
            if primality::trial_division(&self.primes, c) {
                self.primes.push(c);
                proof {
                    let t = self.primes@;
                    assert(t == s.push(c));
                    assert forall|i: int| 0 <= i < t.len() implies #[trigger] is_prime(t[i] as int) by {
                        if i < len {
                            assert(t[i] == s[i]);
                        }
                    }
                    assert forall|i: int, j: int| 0 <= i < j < t.len() implies #[trigger] t[i] < #[trigger] t[j] by {
                        if j == len {
                            assert(s[i] <= s.last());
                        }
                    }
                    assert forall|q: int| 0 <= q < c + 1 && #[trigger] is_prime(q) implies exists|i: int|
                        0 <= i < t.len() && t[i] == q by {
                        if q == c {
                            assert(t[len as int] == q);
                        } else {
                            let k = choose|k: int| 0 <= k < s.len() && s[k] == q;
                            assert(t[k] == q);
                        }
                    }
                }
                return Some(c);
            }
            if c > u64::MAX - 2 {
                proof {
                    assert(c == u64::MAX);
                }
                return None;
            }
            c = c + 2;
            proof {
                assert((c - 1) as int % 2 == 0);
                assert(!is_prime(c - 1));
                assert forall|q: int| 0 <= q < c && #[trigger] is_prime(q) implies exists|i: int|
                    0 <= i < s.len() && s[i] == q by {
                    assert(q < c - 2);
                }
            }
        }
    }
}

} // verus!
