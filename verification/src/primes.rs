//! Prime numbers by the sieve of Eratosthenes.

use vstd::arithmetic::div_mod::{
    lemma_fundamental_div_mod, lemma_fundamental_div_mod_converse, lemma_mod_multiples_basic,
};
use vstd::prelude::*;

verus! {

/// `n` has no divisor other than one and itself.
pub open spec fn is_prime(n: int) -> bool {
    &&& n >= 2
    &&& forall|d: int| 1 < d < n ==> #[trigger] (n % d) != 0
}

/// The primes up to and including `n`, in increasing order.
pub open spec fn primes_up_to(n: nat) -> Seq<usize>
    decreases n,
{
    if n == 0 {
        seq![]
    } else if is_prime(n as int) {
        primes_up_to((n - 1) as nat).push(n as usize)
    } else {
        primes_up_to((n - 1) as nat)
    }
}

/// `n` is at least two and has no divisor below `p` other than one and itself.
spec fn survives(n: int, p: int) -> bool {
    &&& n >= 2
    &&& forall|d: int| 2 <= d < p && d < n ==> #[trigger] (n % d) != 0
}

proof fn lemma_divides_transitive(a: int, b: int, c: int)
    requires
        a > 0,
        b > 0,
        b % a == 0,
        c % b == 0,
    ensures
        c % a == 0,
{
    lemma_fundamental_div_mod(b, a);
    lemma_fundamental_div_mod(c, b);
    let x = b / a;
    let y = c / b;
    assert(c == a * (x * y)) by (nonlinear_arith)
        requires
            b == a * x,
            c == b * y,
    ;
    assert((x * y) * a == a * (x * y)) by (nonlinear_arith);
    lemma_mod_multiples_basic(x * y, a);
}

/// Every multiple of `p` below `p * p`, other than `p`, has a divisor below `p`.
proof fn lemma_small_multiple(n: int, p: int)
    requires
        p >= 2,
        n % p == 0,
        p < n < p * p,
    ensures
        !survives(n, p),
{
    lemma_fundamental_div_mod(n, p);
    let k = n / p;
    assert(n == p * k);
    assert(2 <= k < p) by (nonlinear_arith)
        requires
            n == p * k,
            p < n < p * p,
            p >= 2,
    ;
    lemma_mod_multiples_basic(p, k);
    assert(n % k == 0);
}

/// Where no divisor below `p` exists and `p * p` lies above `n`, `n` is prime.
proof fn lemma_survivor_is_prime(n: int, p: int)
    requires
        p >= 2,
        n < p * p,
    ensures
        survives(n, p) == is_prime(n),
{
    if survives(n, p) {
        assert forall|d: int| 1 < d < n implies #[trigger] (n % d) != 0 by {
            if n % d == 0 && d >= p {
                lemma_fundamental_div_mod(n, d);
                let e = n / d;
                assert(n == d * e);
                assert(2 <= e < p) by (nonlinear_arith)
                    requires
                        n == d * e,
                        1 < d < n,
                        d >= p,
                        p >= 2,
                        n < p * p,
                ;
                assert(e < n) by (nonlinear_arith)
                    requires
                        n == d * e,
                        d >= 2,
                        e >= 2,
                ;
                lemma_mod_multiples_basic(d, e);
                assert(n % e == 0);
            }
        }
    }
}

/// Going from `p` to `p + 1` drops the multiples of `p` from `p * p` on, and nothing where `p`
/// itself has been dropped.
proof fn lemma_survives_next(n: int, p: int)
    requires
        p >= 2,
    ensures
        !survives(p, p) ==> survives(n, p + 1) == survives(n, p),
        survives(p, p) ==> survives(n, p + 1) == (survives(n, p) && !(n % p == 0 && n >= p * p)),
{
    if !survives(p, p) {
        let d = choose|d: int| 2 <= d < p && #[trigger] (p % d) == 0;
        if survives(n, p) && p < n && n % p == 0 {
            lemma_divides_transitive(d, p, n);
            assert(n % d == 0);
        }
    } else {
        if survives(n, p) && p < n && n % p == 0 && n < p * p {
            lemma_small_multiple(n, p);
        }
        assert(p * p > p) by (nonlinear_arith)
            requires
                p >= 2,
        ;
        if survives(n, p + 1) && n % p == 0 && n >= p * p {
            assert(p < p + 1);
            assert(n % p != 0);
        }
    }
}

/// The list holds exactly the numbers from two up to `n` that no smaller number but one divides, in
/// strictly increasing order.
pub proof fn law_primes_are_the_indivisible_numbers(n: nat)
    requires
        n <= usize::MAX,
    ensures
        forall|x: usize| #[trigger]
            primes_up_to(n).contains(x) <==> 2 <= x <= n && forall|d: int|
                1 < d < x ==> #[trigger] (x as int % d) != 0,
        forall|i: int, j: int|
            0 <= i < j < primes_up_to(n).len() ==> #[trigger] primes_up_to(n)[i]
                < #[trigger] primes_up_to(n)[j],
    decreases n,
{
    let all = primes_up_to(n);
    if n > 0 {
        let rest = primes_up_to((n - 1) as nat);
        law_primes_are_the_indivisible_numbers((n - 1) as nat);
        assert forall|x: usize| #[trigger] all.contains(x) <==> 2 <= x <= n && forall|d: int|
            1 < d < x ==> #[trigger] (x as int % d) != 0 by {
            if rest.contains(x) {
                let i = choose|i: int| 0 <= i < rest.len() && rest[i] == x;
                assert(all[i] == x);
            }
            if all.contains(x) && !rest.contains(x) {
                let i = choose|i: int| 0 <= i < all.len() && all[i] == x;
                if i < rest.len() {
                    assert(rest[i] == x);
                }
            }
            if x == n && is_prime(n as int) {
                assert(all[rest.len() as int] == x);
            }
        }
        assert forall|i: int, j: int| 0 <= i < j < all.len() implies #[trigger] all[i]
            < #[trigger] all[j] by {
            if j < rest.len() {
                assert(rest[i] < rest[j]);
            } else {
                assert(rest.contains(rest[i]));
            }
        }
    }
}

/// The primes up to and including `limit`, in increasing order.
pub fn generate_primes(limit: usize) -> (primes: Vec<usize>)
    requires
        limit < usize::MAX,
    ensures
        primes@ == primes_up_to(limit as nat),
        forall|x: usize| #[trigger]
            primes@.contains(x) <==> 2 <= x <= limit && forall|d: int|
                1 < d < x ==> #[trigger] (x as int % d) != 0,
        forall|i: int, j: int| 0 <= i < j < primes@.len() ==> #[trigger] primes@[i] < #[trigger] primes@[j],
{
    proof {
        law_primes_are_the_indivisible_numbers(limit as nat);
    }
    if limit < 2 {
        proof {
            reveal_with_fuel(primes_up_to, 3);
        }
        return Vec::new();
    }
    let mut is_prime_flag: Vec<bool> = vec![true; limit + 1];
    is_prime_flag[0] = false;
    is_prime_flag[1] = false;
    let mut p: usize = 2;
    while p <= limit / p
        invariant
            2 <= p <= limit,
            limit < usize::MAX,
            is_prime_flag@.len() == limit + 1,
            forall|n: int| 0 <= n <= limit ==> #[trigger] is_prime_flag@[n] == survives(n, p as int),
        decreases limit - p,
    {
        proof {
            lemma_fundamental_div_mod(limit as int, p as int);
            assert(p * p <= limit) by (nonlinear_arith)
                requires
                    p <= limit / p,
                    limit == p * (limit / p) + limit % p,
                    limit % p >= 0,
                    p >= 2,
            ;
            assert(p * 2 <= p * p) by (nonlinear_arith)
                requires
                    p >= 2,
            ;
        }
        let ghost before = is_prime_flag@;
        if is_prime_flag[p] {
            let mut step: usize = p * p;
            assert(step as int % p as int == 0) by {
                lemma_mod_multiples_basic(p as int, p as int);
            }
            loop
                invariant_except_break
                    p * p <= step <= limit,
                    step as int % p as int == 0,
                    forall|n: int|
                        0 <= n <= limit ==> #[trigger] is_prime_flag@[n] == (before[n] && !(n
                            % p as int == 0 && p * p <= n < step)),
                invariant
                    2 <= p <= limit,
                    limit < usize::MAX,
                    is_prime_flag@.len() == limit + 1,
                    before.len() == limit + 1,
                ensures
                    forall|n: int|
                        0 <= n <= limit ==> #[trigger] is_prime_flag@[n] == (before[n] && !(n
                            % p as int == 0 && p * p <= n)),
                decreases limit - step,
            {
                is_prime_flag[step] = false;
                proof {
                    assert forall|n: int| step < n < step + p implies #[trigger] (n % p as int) != 0 by {
                        lemma_fundamental_div_mod(step as int, p as int);
                        let q = step as int / p as int;
                        assert(n == q * p + (n - step)) by (nonlinear_arith)
                            requires
                                step == p * q,
                        ;
                        lemma_fundamental_div_mod_converse(n, p as int, q, n - step);
                    }
                }
                if limit - step < p {
                    break ;
                }
                proof {
                    lemma_fundamental_div_mod(step as int, p as int);
                    let q = step as int / p as int;
                    assert(step + p == (q + 1) * p) by (nonlinear_arith)
                        requires
                            step == p * q,
                    ;
                    lemma_mod_multiples_basic(q + 1, p as int);
                }
                step = step + p;
            }
        }
        proof {
            assert forall|n: int| 0 <= n <= limit implies #[trigger] is_prime_flag@[n] == survives(
                n,
                p + 1,
            ) by {
                assert(before[p as int] == survives(p as int, p as int));
                assert(before[n] == survives(n, p as int));
                lemma_survives_next(n, p as int);
            }
        }
        p = p + 1;
    }
    proof {
        lemma_fundamental_div_mod(limit as int, p as int);
        assert(limit < p * p) by (nonlinear_arith)
            requires
                p > limit / p,
                limit == p * (limit / p) + limit % p,
                limit % p < p,
                p >= 2,
        ;
    }
    let mut primes: Vec<usize> = Vec::new();
    let mut n: usize = 0;
    proof {
        reveal_with_fuel(primes_up_to, 2);
    }
    while n <= limit
        invariant
            2 <= p,
            limit < p * p,
            limit < usize::MAX,
            n <= limit + 1,
            is_prime_flag@.len() == limit + 1,
            forall|k: int| 0 <= k <= limit ==> #[trigger] is_prime_flag@[k] == survives(k, p as int),
            n == 0 ==> primes@ == Seq::<usize>::empty(),
            n > 0 ==> primes@ == primes_up_to((n - 1) as nat),
        decreases limit + 1 - n,
    {
        proof {
            lemma_survivor_is_prime(n as int, p as int);
        }
        if is_prime_flag[n] {
            primes.push(n);
        }
        n = n + 1;
    }
    primes
}

} // verus!
