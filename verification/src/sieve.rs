//! The prime numbers up to a bound, by the sieve of Eratosthenes.

use crate::nth_prime::is_prime_number;
use vstd::arithmetic::div_mod::{lemma_fundamental_div_mod, lemma_mod_multiples_basic};
use vstd::prelude::*;

verus! {

/// Whether the numbers of `s` grow from each to the next.
pub open spec fn increasing(s: Seq<u64>) -> bool {
    forall|i: int, j: int| 0 <= i < j < s.len() ==> s[i] < s[j]
}

/// Whether no number from 2 to `h` divides `m`.
pub open spec fn sifted(m: nat, h: nat) -> bool {
    forall|d: nat| 2 <= d <= h ==> #[trigger] (m % d) != 0
}

/// Whether `list` holds, in their order, the numbers above `h` and up to
/// `upper` that no number from 2 to `h` divides.
spec fn is_sieve(list: Seq<u64>, h: nat, upper: nat) -> bool {
    &&& increasing(list)
    &&& forall|i: int| 0 <= i < list.len() ==> h < #[trigger] list[i] <= upper && sifted(list[i] as nat, h)
    &&& forall|m: nat| h < m <= upper && sifted(m, h) ==> list.contains(m as u64)
}

/// Whether `primes` holds, in their order, the prime numbers up to `h`.
spec fn is_primes(primes: Seq<u64>, h: nat) -> bool {
    &&& increasing(primes)
    &&& forall|i: int| 0 <= i < primes.len() ==> #[trigger] primes[i] <= h && is_prime_number(primes[i] as nat)
    &&& forall|p: nat| p <= h && is_prime_number(p) ==> primes.contains(p as u64)
}

/// A divisor of a divisor is a divisor.
proof fn lemma_divides_trans(m: nat, d: nat, e: nat)
    requires
        d > 0,
        e > 0,
        m % d == 0,
        d % e == 0,
    ensures
        m % e == 0,
{
    let a = m / d;
    let b = d / e;
    lemma_fundamental_div_mod(m as int, d as int);
    lemma_fundamental_div_mod(d as int, e as int);
    assert(m == (b * a) * e) by (nonlinear_arith)
        requires
            m == d * a,
            d == e * b,
    ;
    lemma_mod_multiples_basic((b * a) as int, e as int);
}

/// A number of the sieve that is not below the first has no divisor below
/// the first.
proof fn lemma_sifted_up_to_head(list: Seq<u64>, h: nat, upper: nat, m: nat)
    requires
        is_sieve(list, h, upper),
        list.len() > 0,
        list[0] <= m,
        sifted(m, h),
    ensures
        sifted(m, (list[0] - 1) as nat),
{
    let head = list[0] as nat;
    assert forall|d: nat| 2 <= d <= head - 1 implies #[trigger] (m % d) != 0 by {
        if d > h && m % d == 0 {
            if sifted(d, h) {
                assert(list.contains(d as u64));
                let k = choose|k: int| 0 <= k < list.len() && list[k] == d as u64;
                assert(list[0] <= list[k]);
            } else {
                let e = choose|e: nat| 2 <= e <= h && #[trigger] (d % e) == 0;
                lemma_divides_trans(m, d, e);
            }
        }
    }
}

/// A number above `head` whose square root lies below `head` is prime if
/// no number up to `head` divides it.
proof fn lemma_sifted_is_prime(m: nat, head: nat)
    requires
        2 <= head < m,
        m < head * head,
        sifted(m, head),
    ensures
        is_prime_number(m),
{
    assert forall|d: nat| 2 <= d < m implies #[trigger] (m % d) != 0 by {
        if d > head && m % d == 0 {
            let q = m / d;
            lemma_fundamental_div_mod(m as int, d as int);
            assert(m == d * q);
            assert(2 <= q <= head) by (nonlinear_arith)
                requires
                    m == d * q,
                    head < d < m,
                    m < head * head,
                    2 <= head,
            ;
            assert(m == q * d) by (nonlinear_arith)
                requires
                    m == d * q,
            ;
            lemma_mod_multiples_basic(d as int, q as int);
            assert(m % q == 0);
        }
    }
}

/// The numbers of `list` that `head` does not divide.
fn sift(list: &Vec<u64>, head: u64) -> (kept: Vec<u64>)
    requires
        head >= 2,
        increasing(list@),
        forall|i: int| 0 <= i < list@.len() ==> head < #[trigger] list@[i],
    ensures
        increasing(kept@),
        kept@.len() <= list@.len(),
        forall|i: int| 0 <= i < kept@.len() ==> list@.contains(#[trigger] kept@[i]) && kept@[i] % head != 0,
        forall|i: int|
            0 <= i < list@.len() && (#[trigger] list@[i]) % head != 0 ==> kept@.contains(list@[i]),
{
    let mut kept: Vec<u64> = Vec::new();
    let mut k: usize = 0;
    while k < list.len()
        invariant
            head >= 2,
            k <= list@.len(),
            increasing(list@),
            increasing(kept@),
            kept@.len() <= k,
            forall|i: int|
                0 <= i < kept@.len() ==> list@.contains(#[trigger] kept@[i]) && kept@[i] % head != 0,
            forall|i: int| 0 <= i < kept@.len() && k < list@.len() ==> (#[trigger] kept@[i]) < list@[k as int],
            forall|i: int| 0 <= i < k && (#[trigger] list@[i]) % head != 0 ==> kept@.contains(list@[i]),
        decreases list@.len() - k,
    {
        let m = list[k];
        let ghost before = kept@;
        if m % head != 0 {
            kept.push(m);
            proof {
                assert(kept@[kept@.len() - 1] == m);
                assert forall|i: int| 0 <= i < k + 1 && (#[trigger] list@[i]) % head != 0 implies kept@.contains(
                    list@[i],
                ) by {
                    if i < k {
                        let j = choose|j: int| 0 <= j < before.len() && before[j] == list@[i];
                        assert(kept@[j] == list@[i]);
                    }
                }
                assert forall|i: int| 0 <= i < kept@.len() implies list@.contains(#[trigger] kept@[i])
                    && kept@[i] % head != 0 by {
                    if i < before.len() {
                        assert(kept@[i] == before[i]);
                    }
                }
            }
        } else {
            proof {
                assert forall|i: int| 0 <= i < k + 1 && (#[trigger] list@[i]) % head != 0 implies kept@.contains(
                    list@[i],
                ) by {}
            }
        }
        k += 1;
    }
    kept
}

/// The prime numbers up to `upper_bound`, in their order.
pub fn primes_up_to(upper_bound: u64) -> (primes: Vec<u64>)
    ensures
        increasing(primes@),
        forall|i: int|
            0 <= i < primes@.len() ==> #[trigger] primes@[i] <= upper_bound && is_prime_number(
                primes@[i] as nat,
            ),
        forall|p: nat| p <= upper_bound && is_prime_number(p) ==> primes@.contains(p as u64),
{
    if upper_bound < 2 {
        return Vec::new();
    }
    let mut list: Vec<u64> = Vec::new();
    let mut x: u64 = 2;
    while x < upper_bound
        invariant
            2 <= x <= upper_bound,
            list@.len() == x - 2,
            forall|i: int| 0 <= i < list@.len() ==> #[trigger] list@[i] == i + 2,
        decreases upper_bound - x,
    {
        list.push(x);
        x += 1;
    }
    list.push(upper_bound);
    let mut primes: Vec<u64> = Vec::new();
    let ghost mut h: nat = 1;
    proof {
        assert forall|m: nat| 1 < m <= upper_bound && sifted(m, 1) implies list@.contains(m as u64) by {
            assert(list@[m - 2] == m);
        }
        assert(is_sieve(list@, 1, upper_bound as nat));
    }
    while list.len() > 0
        invariant
            1 <= h <= upper_bound,
            is_sieve(list@, h, upper_bound as nat),
            is_primes(primes@, h),
        decreases list@.len(),
    {
        let ghost old_list = list@;
        let ghost old_primes = primes@;
        let head = list.remove(0);
        proof {
            assert(head == old_list[0]);
            assert(list@ =~= old_list.skip(1));
            lemma_sifted_up_to_head(old_list, h, upper_bound as nat, head as nat);
            assert(is_prime_number(head as nat));
        }
        primes.push(head);
        let kept = sift(&list, head);
        proof {
            // the primes up to the new head
            assert(is_primes(primes@, head as nat)) by {
                assert forall|i: int, j: int| 0 <= i < j < primes@.len() implies primes@[i] < primes@[j] by {
                    if j == primes@.len() - 1 {
                        assert(primes@[i] == old_primes[i]);
                    } else {
                        assert(primes@[i] == old_primes[i] && primes@[j] == old_primes[j]);
                    }
                }
                assert forall|i: int| 0 <= i < primes@.len() implies #[trigger] primes@[i] <= head
                    && is_prime_number(primes@[i] as nat) by {
                    if i < old_primes.len() {
                        assert(primes@[i] == old_primes[i]);
                    }
                }
                assert forall|p: nat| p <= head && is_prime_number(p) implies primes@.contains(p as u64) by {
                    if p <= h {
                        let k = choose|k: int| 0 <= k < old_primes.len() && old_primes[k] == p as u64;
                        assert(primes@[k] == p as u64);
                    } else {
                        assert(sifted(p, h));
                        let k = choose|k: int| 0 <= k < old_list.len() && old_list[k] == p as u64;
                        assert(old_list[0] <= old_list[k]);
                        assert(primes@[primes@.len() - 1] == head);
                    }
                }
            }
            // the sieve above the new head
            assert(is_sieve(kept@, head as nat, upper_bound as nat)) by {
                assert forall|i: int| 0 <= i < kept@.len() implies head < #[trigger] kept@[i] <= upper_bound
                    && sifted(kept@[i] as nat, head as nat) by {
                    let m = kept@[i];
                    let k = choose|k: int| 0 <= k < list@.len() && list@[k] == m;
                    assert(old_list[k + 1] == m);
                    assert(old_list[0] < old_list[k + 1]);
                    lemma_sifted_up_to_head(old_list, h, upper_bound as nat, m as nat);
                    assert forall|d: nat| 2 <= d <= head implies #[trigger] ((m as nat) % d) != 0 by {
                        if d == head {
                            assert(m % head != 0);
                        }
                    }
                }
                assert forall|m: nat| head < m <= upper_bound && sifted(m, head as nat) implies kept@.contains(
                    m as u64,
                ) by {
                    assert(sifted(m, h));
                    let k = choose|k: int| 0 <= k < old_list.len() && old_list[k] == m as u64;
                    assert(k > 0);
                    assert(list@[k - 1] == m as u64);
                    assert((m % (head as nat)) != 0);
                }
            }
            h = head as nat;
        }
        list = kept;
        let square_exceeds = match head.checked_mul(head) {
            Some(square) => square > upper_bound,
            None => true,
        };
        if square_exceeds {
            proof {
                assert forall|i: int| 0 <= i < list@.len() implies is_prime_number(
                    #[trigger] list@[i] as nat,
                ) by {
                    assert((list@[i] as nat) < (head as nat) * (head as nat)) by (nonlinear_arith)
                        requires
                            list@[i] <= upper_bound,
                            head * head > upper_bound,
                    ;
                    lemma_sifted_is_prime(list@[i] as nat, head as nat);
                }
            }
            let ghost front = primes@;
            let ghost back = list@;
            primes.append(&mut list);
            proof {
                assert(primes@ =~= front + back);
                assert forall|i: int, j: int| 0 <= i < j < primes@.len() implies primes@[i] < primes@[j] by {
                    if j < front.len() {
                        assert(front[i] < front[j]);
                    } else if i >= front.len() {
                        assert(back[i - front.len()] < back[j - front.len()]);
                    } else {
                        assert(front[i] <= head);
                        assert(head < back[j - front.len()]);
                    }
                }
                assert forall|i: int| 0 <= i < primes@.len() implies #[trigger] primes@[i] <= upper_bound
                    && is_prime_number(primes@[i] as nat) by {
                    if i < front.len() {
                        assert(primes@[i] == front[i]);
                    } else {
                        assert(primes@[i] == back[i - front.len()]);
                    }
                }
                assert forall|p: nat| p <= upper_bound && is_prime_number(p) implies primes@.contains(
                    p as u64,
                ) by {
                    if p <= head {
                        let k = choose|k: int| 0 <= k < front.len() && front[k] == p as u64;
                        assert(primes@[k] == p as u64);
                    } else {
                        assert(sifted(p, head as nat));
                        let k = choose|k: int| 0 <= k < back.len() && back[k] == p as u64;
                        assert(primes@[front.len() + k] == p as u64);
                    }
                }
            }
            return primes;
        }
    }
    proof {
        assert forall|p: nat| p <= upper_bound && is_prime_number(p) implies primes@.contains(p as u64) by {
            if p > h {
                assert(sifted(p, h));
                assert(list@.contains(p as u64));
            }
        }
    }
    primes
}

} // verus!
