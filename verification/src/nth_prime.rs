//! Prime numbers by their rank.

use vstd::prelude::*;

verus! {

/// Whether `n` is a prime number.
pub open spec fn is_prime_number(n: nat) -> bool {
    n >= 2 && forall|d: nat| 2 <= d < n ==> #[trigger] (n % d) != 0
}

/// The number of primes below `m`.
pub open spec fn primes_below(m: nat) -> nat
    decreases m,
{
    if m == 0 {
        0
    } else {
        primes_below((m - 1) as nat) + if is_prime_number((m - 1) as nat) {
            1nat
        } else {
            0nat
        }
    }
}

/// A multiple of an even number is even.
proof fn lemma_even_divisor(n: nat, d: nat)
    requires
        d > 0,
        d % 2 == 0,
        n % d == 0,
    ensures
        n % 2 == 0,
{
    let k = n / d;
    let m = d / 2;
    assert(n == d * k) by {
        vstd::arithmetic::div_mod::lemma_fundamental_div_mod(n as int, d as int);
    }
    assert(d == 2 * m);
    assert(n == 2 * (m * k)) by (nonlinear_arith)
        requires
            n == d * k,
            d == 2 * m,
    ;
    vstd::arithmetic::div_mod::lemma_mod_multiples_basic((m * k) as int, 2);
    assert(2 * (m * k) == (m * k) * 2) by (nonlinear_arith);
}

/// Whether `num` is a prime number.
pub fn is_prime(num: u64) -> (prime: bool)
    ensures
        prime == is_prime_number(num as nat),
{
    if num == 0 || num == 1 {
        false
    } else if num == 2 {
        true
    } else if num % 2 == 0 {
        assert((num as nat) % 2nat == 0);
        false
    } else {
        let mut x: u64 = 3;
        while x < num
            invariant
                3 <= x <= num,
                x % 2 == 1,
                num % 2 == 1,
                forall|d: nat| 2 <= d < x ==> #[trigger] ((num as nat) % d) != 0,
            decreases num - x,
        {
            if num % x == 0 {
                assert((num as nat) % (x as nat) == 0);
                return false;
            }
            proof {
                let even = (x + 1) as nat;
                if (num as nat) % even == 0 {
                    lemma_even_divisor(num as nat, even);
                }
            }
            x += 2;
        }
        true
    }
}

/// The `n`th prime number, the first being 2.
pub fn nth_prime(n: u64) -> (prime: u64)
    requires
        n != 0,
        n <= primes_below(u64::MAX as nat),
    ensures
        is_prime_number(prime as nat),
        primes_below(prime as nat) == n - 1,
{
    let mut i: u64 = 0;
    let mut x: u64 = 2;
    assert(primes_below(2) == 0) by {
        reveal_with_fuel(primes_below, 3);
    }
    loop
        invariant
            n <= primes_below(u64::MAX as nat),
            2 <= x,
            i == primes_below(x as nat),
            i < n,
        decreases u64::MAX - x,
    {
        if is_prime(x) {
            i += 1;
            if i == n {
                return x;
            }
        }
        x += 1;
    }
}

} // verus!
