use crate::infinite_set::InfiniteSet;
use vstd::prelude::*;

verus! {

/// The positive integers 1, 2, 3, ...
pub struct InfinitePositiveInts {
    /// The last value handed out; zero before the first.
    current: u128,
}

impl InfinitePositiveInts {
    pub fn new() -> (r: Self)
        ensures
            r.wf(),
            r.members() == Set::new(|x: u128| x > 0),
            r.ahead() == r.members(),
    {
        let r = InfinitePositiveInts { current: 0 };
        assert(r.ahead() =~= r.members());
        r
    }
}

impl InfiniteSet for InfinitePositiveInts {
    closed spec fn members(&self) -> Set<u128> {
        Set::new(|x: u128| x > 0)
    }

    closed spec fn ahead(&self) -> Set<u128> {
        Set::new(|x: u128| x > self.current)
    }

    closed spec fn wf(&self) -> bool {
        true
    }

    proof fn lemma_ahead_members(&self) {
    }

    fn contains(&self, x: &u128) -> (r: bool) {
        *x > 0
    }

    fn next(&mut self) -> (r: Option<u128>) {
        if self.current == u128::MAX {
            assert(self.ahead() =~= Set::<u128>::empty());
            None
        } else {
            let ghost before = self.ahead();
            self.current = self.current + 1;
            assert(self.ahead() =~= before.remove(self.current));
            Some(self.current)
        }
    }
}

/// The positive even numbers 2, 4, 6, ...
pub struct InfiniteEvens {
    /// The last value handed out; zero before the first.
    current: u128,
}

impl InfiniteEvens {
    pub fn new() -> (r: Self)
        ensures
            r.wf(),
            r.members() == Set::new(|x: u128| x > 0 && x % 2 == 0),
            r.ahead() == r.members(),
    {
        let r = InfiniteEvens { current: 0 };
        assert(r.ahead() =~= r.members());
        r
    }
}

impl InfiniteSet for InfiniteEvens {
    closed spec fn members(&self) -> Set<u128> {
        Set::new(|x: u128| x > 0 && x % 2 == 0)
    }

    closed spec fn ahead(&self) -> Set<u128> {
        Set::new(|x: u128| x > self.current && x % 2 == 0)
    }

    closed spec fn wf(&self) -> bool {
        self.current % 2 == 0
    }

    proof fn lemma_ahead_members(&self) {
    }

    fn contains(&self, x: &u128) -> (r: bool) {
        *x > 0 && *x % 2 == 0
    }

    fn next(&mut self) -> (r: Option<u128>) {
        if self.current >= u128::MAX - 1 {
            assert(self.ahead() =~= Set::<u128>::empty());
            None
        } else {
            let ghost before = self.ahead();
            self.current = self.current + 2;
            assert(self.ahead() =~= before.remove(self.current));
            Some(self.current)
        }
    }
}

/// The positive odd numbers 1, 3, 5, ...
pub struct InfiniteOdds {
    /// The value to hand out next, unless `exhausted`.
    current: u128,
    /// Set once the largest odd `u128` has been handed out.
    exhausted: bool,
}

impl InfiniteOdds {
    pub fn new() -> (r: Self)
        ensures
            r.wf(),
            r.members() == Set::new(|x: u128| x > 0 && x % 2 == 1),
            r.ahead() == r.members(),
    {
        let r = InfiniteOdds { current: 1, exhausted: false };
        assert(r.ahead() =~= r.members());
        r
    }
}

impl InfiniteSet for InfiniteOdds {
    closed spec fn members(&self) -> Set<u128> {
        Set::new(|x: u128| x > 0 && x % 2 == 1)
    }

    closed spec fn ahead(&self) -> Set<u128> {
        if self.exhausted {
            Set::empty()
        } else {
            Set::new(|x: u128| x >= self.current && x % 2 == 1)
        }
    }

    closed spec fn wf(&self) -> bool {
        self.current % 2 == 1
    }

    proof fn lemma_ahead_members(&self) {
    }

    fn contains(&self, x: &u128) -> (r: bool) {
        *x > 0 && *x % 2 == 1
    }

    fn next(&mut self) -> (r: Option<u128>) {
        if self.exhausted {
            return None;
        }
        let ghost before = self.ahead();
        let r = self.current;
        if self.current > u128::MAX - 2 {
            self.exhausted = true;
        } else {
            self.current = self.current + 2;
        }
        assert(self.ahead() =~= before.remove(r));
        Some(r)
    }
}

/// `x` is a power of two: 1, 2, 4, 8, ...
pub open spec fn is_power_of_two(x: int) -> bool
    decreases x,
{
    if x <= 0 {
        false
    } else if x == 1 {
        true
    } else {
        x % 2 == 0 && is_power_of_two(x / 2)
    }
}

/// The power of two that follows `c` is `2 * c`: none lies in between.
proof fn lemma_next_power(c: int, y: int)
    requires
        is_power_of_two(c),
        is_power_of_two(y),
        c < y,
    ensures
        2 * c <= y,
    decreases c,
{
    if c != 1 {
        lemma_next_power(c / 2, y / 2);
    }
}

/// The powers of two 1, 2, 4, 8, ...
pub struct InfiniteTwoPowers {
    /// The value to hand out next, unless `exhausted`.
    current: u128,
    /// Set once the largest power of two in `u128` has been handed out.
    exhausted: bool,
}

impl InfiniteTwoPowers {
    pub fn new() -> (r: Self)
        ensures
            r.wf(),
            r.members() == Set::new(|x: u128| is_power_of_two(x as int)),
            r.ahead() == r.members(),
    {
        let r = InfiniteTwoPowers { current: 1, exhausted: false };
        assert forall|x: u128| is_power_of_two(x as int) implies x >= 1 by {}
        assert(r.ahead() =~= r.members());
        r
    }
}

impl InfiniteSet for InfiniteTwoPowers {
    closed spec fn members(&self) -> Set<u128> {
        Set::new(|x: u128| is_power_of_two(x as int))
    }

    closed spec fn ahead(&self) -> Set<u128> {
        if self.exhausted {
            Set::empty()
        } else {
            Set::new(|x: u128| x >= self.current && is_power_of_two(x as int))
        }
    }

    closed spec fn wf(&self) -> bool {
        is_power_of_two(self.current as int)
    }

    proof fn lemma_ahead_members(&self) {
    }

    fn contains(&self, x: &u128) -> (r: bool) {
        if *x == 0 {
            return false;
        }
        let mut n: u128 = *x;
        while n % 2 == 0
            invariant
                n > 0,
                is_power_of_two(n as int) == is_power_of_two(*x as int),
            decreases n,
        {
            n = n / 2;
        }
        n == 1
    }

    fn next(&mut self) -> (r: Option<u128>) {
        if self.exhausted {
            return None;
        }
        let ghost before = self.ahead();
        let r = self.current;
        if self.current > u128::MAX / 2 {
            self.exhausted = true;
            assert forall|y: u128| before.contains(y) && y != r implies false by {
                lemma_next_power(r as int, y as int);
            }
        } else {
            self.current = self.current * 2;
            assert(is_power_of_two(self.current as int) ) by {
                assert((self.current as int) / 2 == r as int);
            }
            assert forall|y: u128| before.contains(y) && y != r implies self.ahead().contains(y) by {
                lemma_next_power(r as int, y as int);
            }
        }
        assert(self.ahead() =~= before.remove(r));
        Some(r)
    }
}

/// `n` is a prime number.
pub open spec fn is_prime(n: int) -> bool {
    n >= 2 && forall|d: int| 2 <= d < n ==> #[trigger] (n % d) != 0
}

#[verifier::external_type_specification]
#[verifier::external_body]
pub struct ExPrimes(primal::Primes);

/// The primes that a `primal::Primes` iterator has still to yield.
pub uninterp spec fn primes_to_come(p: primal::Primes) -> Set<int>;

/// Relies on `primal::Primes::all`: a fresh iterator over every prime that fits
/// in `usize`, from 2 on.
#[verifier::external_body]
fn all_primes() -> (r: primal::Primes)
    ensures
        primes_to_come(r) == Set::new(|n: int| is_prime(n) && n <= usize::MAX),
{
    primal::Primes::all()
}

/// Relies on `Iterator::next` of `primal::Primes`: it yields the primes in
/// increasing order, each once, and `None` once none that fits in `usize` is left.
#[verifier::external_body]
fn next_prime(p: &mut primal::Primes) -> (r: Option<usize>)
    ensures
        match r {
            Some(n) => {
                &&& primes_to_come(*old(p)).contains(n as int)
                &&& forall|m: int| #[trigger] primes_to_come(*old(p)).contains(m) ==> n <= m
                &&& primes_to_come(*final(p)) == primes_to_come(*old(p)).remove(n as int)
            },
            None => primes_to_come(*old(p)) == Set::<int>::empty(),
        },
{
    p.next()
}

/// Relies on `primal::is_prime`: a deterministic primality test over all of `u64`.
#[verifier::external_body]
fn prime_test(n: u64) -> (r: bool)
    ensures
        r == is_prime(n as int),
{
    primal::is_prime(n)
}

/// The prime numbers 2, 3, 5, 7, ..., walked by `primal`'s sieve; its values stop
/// where `usize` does.
pub struct InfinitePrimes {
    primes: primal::Primes,
    /// Set once the sieve has run out.
    exhausted: bool,
}

impl InfinitePrimes {
    pub fn new() -> (r: Self)
        ensures
            r.wf(),
            r.members() == Set::new(|x: u128| x <= u64::MAX && is_prime(x as int)),
            r.ahead() == Set::new(|x: u128| x <= usize::MAX && is_prime(x as int)),
    {
        let r = InfinitePrimes { primes: all_primes(), exhausted: false };
        assert(r.ahead() =~= Set::new(|x: u128| x <= usize::MAX && is_prime(x as int)));
        r
    }
}

impl InfiniteSet for InfinitePrimes {
    closed spec fn members(&self) -> Set<u128> {
        Set::new(|x: u128| x <= u64::MAX && is_prime(x as int))
    }

    closed spec fn ahead(&self) -> Set<u128> {
        if self.exhausted {
            Set::empty()
        } else {
            Set::new(|x: u128| primes_to_come(self.primes).contains(x as int))
        }
    }

    closed spec fn wf(&self) -> bool {
        !self.exhausted ==> forall|n: int|
            #[trigger] primes_to_come(self.primes).contains(n) ==> is_prime(n) && n <= usize::MAX
    }

    proof fn lemma_ahead_members(&self) {
    }

    fn contains(&self, x: &u128) -> (r: bool) {
        if *x > u64::MAX as u128 {
            false
        } else {
            prime_test(*x as u64)
        }
    }

    fn next(&mut self) -> (r: Option<u128>) {
        if self.exhausted {
            return None;
        }
        let ghost before = self.ahead();
        match next_prime(&mut self.primes) {
            None => {
                self.exhausted = true;
                assert(before =~= Set::<u128>::empty());
                None
            },
            Some(n) => {
                assert(self.ahead() =~= before.remove(n as u128));
                Some(n as u128)
            },
        }
    }
}

} // verus!
