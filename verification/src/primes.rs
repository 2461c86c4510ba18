//! Prime numbers: a sieve, a quick divisibility check, and sums of two
//! numbers that pass it.

use crate::numbers::{decimal, to_decimal};
use crate::text::string_of;
use std::collections::HashSet;
use vstd::prelude::*;

verus! {

/// Whether `p` is a prime number.
pub open spec fn is_prime(p: int) -> bool {
    p >= 2 && forall|d: int| 2 <= d < p ==> #[trigger] (p % d) != 0
}

/// Whether `x` has no divisor `d` below `i` with `2 <= d` and `d * d <= x`:
/// what is left of `x` being prime once the sieve has dealt with the numbers
/// below `i`.
spec fn unsieved(x: int, i: int) -> bool {
    forall|d: int| 2 <= d < i && d * d <= x ==> #[trigger] (x % d) != 0
}

proof fn lemma_divides_chain(x: int, i: int, d: int)
    requires
        d > 0,
        i > 0,
        x >= 0,
        i % d == 0,
        x % i == 0,
    ensures
        x % d == 0,
{
    let a = x / i;
    let b = i / d;
    assert(x == i * a) by {
        vstd::arithmetic::div_mod::lemma_fundamental_div_mod(x, i);
    }
    assert(i == d * b) by {
        vstd::arithmetic::div_mod::lemma_fundamental_div_mod(i, d);
    }
    assert(x == d * (b * a)) by (nonlinear_arith)
        requires
            x == i * a,
            i == d * b,
    ;
    vstd::arithmetic::div_mod::lemma_mod_multiples_basic(b * a, d);
    assert(d * (b * a) == (b * a) * d) by (nonlinear_arith);
}

/// A multiple `i * m` of `i` is divisible by `i`, with quotient `m`.
proof fn lemma_multiple(i: int, m: int)
    requires
        i > 0,
        m >= 0,
    ensures
        (i * m) % i == 0,
        (i * m) / i == m,
{
    vstd::arithmetic::div_mod::lemma_mod_multiples_basic(m, i);
    vstd::arithmetic::div_mod::lemma_div_multiples_vanish(m, i);
    assert(i * m == m * i) by (nonlinear_arith);
}

/// A number divisible by `i` is `i` times its quotient.
proof fn lemma_quotient(x: int, i: int)
    requires
        i > 0,
        x >= 0,
        x % i == 0,
    ensures
        x == i * (x / i),
        x / i >= 0,
{
    vstd::arithmetic::div_mod::lemma_fundamental_div_mod(x, i);
    vstd::arithmetic::div_mod::lemma_div_pos_is_pos(x, i);
}

/// Once the sieve has passed every number below `n`, what is left below `n`
/// is prime, and every prime below `n` is left.
proof fn lemma_unsieved_is_prime(x: int, n: int)
    requires
        2 <= x < n,
    ensures
        unsieved(x, n) <==> is_prime(x),
{
    if is_prime(x) {
        assert forall|d: int| 2 <= d < n && d * d <= x implies #[trigger] (x % d) != 0 by {
            assert(d < x) by (nonlinear_arith)
                requires
                    2 <= d,
                    d * d <= x,
            ;
        }
    }
    if unsieved(x, n) {
        assert forall|d: int| 2 <= d < x implies #[trigger] (x % d) != 0 by {
            if x % d == 0 {
                lemma_quotient(x, d);
                let e = x / d;
                assert(e >= 2) by (nonlinear_arith)
                    requires
                        x == d * e,
                        2 <= d < x,
                        e >= 0,
                ;
                assert(e < x) by (nonlinear_arith)
                    requires
                        x == d * e,
                        2 <= d,
                        e >= 0,
                        x >= 2,
                ;
                assert(x == e * d) by (nonlinear_arith)
                    requires
                        x == d * e,
                ;
                lemma_multiple(e, d);
                assert(x % e == 0);
                if d * d <= x {
                    assert(x % d != 0);
                } else {
                    assert(e * e <= x) by (nonlinear_arith)
                        requires
                            x == d * e,
                            d * d > x,
                            d >= 2,
                            e >= 0,
                    ;
                    assert(x % e != 0);
                }
            }
        }
    }
}

/// Passing a number whose multiples were struck out, or that was struck out
/// itself, takes the sieve one number further.
proof fn lemma_sieve_step(x: int, i: int, struck: bool)
    requires
        2 <= i,
        2 <= x,
        unsieved(x, i),
        struck <==> (x % i == 0 && i * i <= x),
    ensures
        unsieved(x, i + 1) <==> !struck,
{
    if !struck {
        assert forall|d: int| 2 <= d < i + 1 && d * d <= x implies #[trigger] (x % d) != 0 by {
            if d == i {
            }
        }
    }
}

/// A number that was struck out before the sieve came to it strikes out
/// nothing more.
proof fn lemma_composite_strikes_nothing(x: int, i: int)
    requires
        2 <= i,
        2 <= x,
        !unsieved(i, i),
        unsieved(x, i),
    ensures
        !(x % i == 0 && i * i <= x),
{
    if x % i == 0 && i * i <= x {
        let d = choose|d: int| 2 <= d < i && d * d <= i && #[trigger] (i % d) == 0;
        lemma_divides_chain(x, i, d);
        assert(d * d <= x) by (nonlinear_arith)
            requires
                d * d <= i,
                i * i <= x,
                i >= 2,
        ;
        assert(x % d != 0);
    }
}

/// Whether `s` holds what the sieve has left below `n` when it comes to `i`.
spec fn sieved_to(s: Set<u32>, n: int, i: int) -> bool {
    forall|y: u32| #[trigger] s.contains(y) <==> (2 <= y < n && unsieved(y as int, i))
}

/// Whether `y` is one of the multiples `i * m` of `i` with `i <= m < mult`.
spec fn multiple_below(y: int, i: int, mult: int) -> bool {
    y % i == 0 && i <= y / i < mult
}

/// Whether `cur` is `before` without the multiples `i * m` of `i` with
/// `i <= m < mult`.
spec fn struck_to(cur: Set<u32>, before: Set<u32>, i: int, mult: int) -> bool {
    forall|y: u32| #[trigger]
        cur.contains(y) <==> (before.contains(y) && !multiple_below(y as int, i, mult))
}

proof fn lemma_sieve_start(s: Set<u32>, n: int)
    requires
        forall|y: u32| #[trigger] s.contains(y) <==> 2 <= y < n,
    ensures
        sieved_to(s, n, 2),
{
}

proof fn lemma_strike(cur: Set<u32>, now: Set<u32>, before: Set<u32>, i: int, mult: int)
    requires
        struck_to(cur, before, i, mult),
        2 <= i <= mult,
        i * mult <= u32::MAX,
        now == cur.remove((i * mult) as u32),
    ensures
        struck_to(now, before, i, mult + 1),
{
    lemma_multiple(i, mult);
    assert forall|y: u32| #[trigger]
        now.contains(y) <==> (before.contains(y) && !multiple_below(y as int, i, mult + 1)) by {
        assert(cur.contains(y) <==> (before.contains(y) && !multiple_below(y as int, i, mult)));
        if (y as int) % i == 0 && (y as int) / i == mult {
            lemma_quotient(y as int, i);
        }
    }
}

proof fn lemma_struck_all(cur: Set<u32>, before: Set<u32>, n: int, i: int, mult: int)
    requires
        sieved_to(before, n, i),
        struck_to(cur, before, i, mult),
        2 <= i <= mult,
        i * mult >= n,
    ensures
        sieved_to(cur, n, i + 1),
{
    assert forall|y: u32| #[trigger]
        cur.contains(y) <==> (2 <= y < n && unsieved(y as int, i + 1)) by {
        assert(cur.contains(y) <==> (before.contains(y) && !multiple_below(y as int, i, mult)));
        assert(before.contains(y) <==> (2 <= y < n && unsieved(y as int, i)));
        if 2 <= y < n && unsieved(y as int, i) {
            let struck = multiple_below(y as int, i, mult);
            if (y as int) % i == 0 {
                lemma_quotient(y as int, i);
                let q = (y as int) / i;
                assert(q >= i <==> i * i <= y) by (nonlinear_arith)
                    requires
                        y == i * q,
                        i >= 2,
                        q >= 0,
                ;
                assert(q < mult) by (nonlinear_arith)
                    requires
                        y == i * q,
                        y < n,
                        n <= i * mult,
                        i >= 2,
                        q >= 0,
                ;
            }
            lemma_sieve_step(y as int, i, struck);
        } else if 2 <= y < n {
            assert(!unsieved(y as int, i + 1));
        }
    }
}

proof fn lemma_sieve_skip(s: Set<u32>, n: int, i: int)
    requires
        sieved_to(s, n, i),
        2 <= i < n,
        i <= u32::MAX,
        !s.contains(i as u32),
    ensures
        sieved_to(s, n, i + 1),
{
    assert forall|y: u32| #[trigger]
        s.contains(y) <==> (2 <= y < n && unsieved(y as int, i + 1)) by {
        assert(s.contains(y) <==> (2 <= y < n && unsieved(y as int, i)));
        if 2 <= y < n && unsieved(y as int, i) {
            lemma_composite_strikes_nothing(y as int, i);
            lemma_sieve_step(y as int, i, false);
        } else if 2 <= y < n {
            assert(!unsieved(y as int, i + 1));
        }
    }
}

proof fn lemma_sieve_done(s: Set<u32>, n: int, i: int)
    requires
        sieved_to(s, n, i),
        i >= n,
    ensures
        forall|p: u32| #[trigger] s.contains(p) <==> (p < n && is_prime(p as int)),
{
    assert forall|p: u32| #[trigger] s.contains(p) <==> (p < n && is_prime(p as int)) by {
        assert(s.contains(p) <==> (2 <= p < n && unsieved(p as int, i)));
        if 2 <= p < n {
            lemma_unsieved_is_prime(p as int, n);
            assert(unsieved(p as int, i) <==> unsieved(p as int, n)) by {
                if unsieved(p as int, n) {
                    assert forall|d: int| 2 <= d < i && d * d <= p implies #[trigger] ((p as int)
                        % d) != 0 by {
                        assert(d < n) by (nonlinear_arith)
                            requires
                                2 <= d,
                                d * d <= p,
                                p < n,
                        ;
                    }
                }
            }
        }
    }
}

/// The product of two 32-bit numbers.
fn product(a: u32, b: u32) -> (p: u64)
    ensures
        p == a * b,
{
    assert(a * b <= 0xFFFF_FFFF * 0xFFFF_FFFF) by (nonlinear_arith)
        requires
            0 <= a <= 0xFFFF_FFFF,
            0 <= b <= 0xFFFF_FFFF,
    ;
    (a as u64) * (b as u64)
}

/// Finds all prime numbers less than `n`, in ascending order.
pub fn sieve(n: u32) -> (primes_vec: Vec<u32>)
    ensures
        forall|a: int, b: int| 0 <= a < b < primes_vec@.len() ==> primes_vec@[a] < primes_vec@[b],
        forall|p: u32| primes_vec@.contains(p) <==> p < n && is_prime(p as int),
{
    let mut primes: HashSet<u32> = HashSet::new();
    let mut x: u32 = 2;
    while x < n
        invariant
            2 <= x,
            x <= n || x == 2,
            forall|y: u32| #[trigger] primes@.contains(y) <==> 2 <= y < x,
        decreases n - x,
    {
        primes.insert(x);
        x += 1;
    }
    proof {
        lemma_sieve_start(primes@, n as int);
    }
    let mut i: u32 = 2;
    while i < n
        invariant
            2 <= i,
            i <= n || i == 2,
            sieved_to(primes@, n as int, i as int),
        decreases n - i,
    {
        if primes.contains(&i) {
            let ghost before = primes@;
            let mut mult: u32 = i;
            while product(i, mult) < n as u64
                invariant
                    2 <= i <= mult,
                    i < n,
                    mult <= n,
                    struck_to(primes@, before, i as int, mult as int),
                decreases n - mult,
            {
                let ghost cur = primes@;
                let gone: u32 = product(i, mult) as u32;
                primes.remove(&gone);
                proof {
                    assert(mult < n) by (nonlinear_arith)
                        requires
                            i * mult < n,
                            i >= 2,
                            mult >= 0,
                    ;
                    lemma_strike(cur, primes@, before, i as int, mult as int);
                }
                mult += 1;
            }
            proof {
                lemma_struck_all(primes@, before, n as int, i as int, mult as int);
            }
        } else {
            proof {
                lemma_sieve_skip(primes@, n as int, i as int);
            }
        }
        i += 1;
    }
    proof {
        lemma_sieve_done(primes@, n as int, i as int);
    }
    let mut primes_vec: Vec<u32> = Vec::new();
    let mut x: u32 = 2;
    while x < n
        invariant
            2 <= x,
            x <= n || x == 2,
            forall|p: u32| #[trigger] primes@.contains(p) <==> (p < n && is_prime(p as int)),
            forall|a: int, b: int|
                0 <= a < b < primes_vec@.len() ==> primes_vec@[a] < primes_vec@[b],
            forall|a: int| 0 <= a < primes_vec@.len() ==> #[trigger] primes_vec@[a] < x,
            forall|p: u32| primes_vec@.contains(p) <==> (p < x && primes@.contains(p)),
        decreases n - x,
    {
        if primes.contains(&x) {
            let ghost before = primes_vec@;
            primes_vec.push(x);
            proof {
                assert forall|p: u32|
                    primes_vec@.contains(p) <==> (p < x + 1 && primes@.contains(p)) by {
                    if before.contains(p) {
                        let k = choose|k: int| 0 <= k < before.len() && before[k] == p;
                        assert(primes_vec@[k] == p);
                    }
                    if p == x {
                        assert(primes_vec@[before.len() as int] == p);
                    }
                    if primes_vec@.contains(p) {
                        let k = choose|k: int| 0 <= k < primes_vec@.len() && primes_vec@[k] == p;
                        if k < before.len() {
                            assert(before[k] == p);
                            assert(before.contains(p));
                        }
                    }
                }
            }
        }
        x += 1;
    }
    primes_vec
}

/// The square of `6k - 1`.
pub open spec fn wheel(k: int) -> int {
    (6 * k - 1) * (6 * k - 1)
}

/// Whether `num` passes the quick check for primes: 2 and 3 pass; 0, 1 and
/// the multiples of 2 and 3 do not; any other number passes unless it is a
/// multiple of `w` or of `w + 2` for one of the squares `w` of 5, 11, 17, ...
/// that are not above it.
///
/// Every prime passes. So do some numbers that are not prime, 35 and 49 being
/// the first.
pub open spec fn passes_check(num: int) -> bool {
    if num <= 3 {
        num > 1
    } else {
        &&& num % 2 != 0
        &&& num % 3 != 0
        &&& forall|k: int|
            k >= 1 && #[trigger] wheel(k) <= num ==> num % wheel(k) != 0 && num % (wheel(k) + 2)
                != 0
    }
}

proof fn lemma_wheel_grows(j: int, k: int)
    requires
        1 <= j <= k,
    ensures
        25 <= wheel(j) <= wheel(k),
        k < wheel(k),
{
    assert(25 <= wheel(j) <= wheel(k) && k < wheel(k)) by (nonlinear_arith)
        requires
            1 <= j <= k,
            wheel(j) == (6 * j - 1) * (6 * j - 1),
            wheel(k) == (6 * k - 1) * (6 * k - 1),
    ;
}

/// Checks a number for being prime, quickly and on one side only: see
/// [`passes_check`].
pub fn check_prime(num: usize) -> (b: bool)
    ensures
        b == passes_check(num as int),
{
    if num <= 3 {
        return num > 1;
    }
    if (num % 2 == 0) || (num % 3 == 0) {
        return false;
    }
    let n: u128 = num as u128;
    let mut k: u128 = 1;
    loop
        invariant
            1 <= k <= n,
            n == num,
            num > 3,
            num % 2 != 0,
            num % 3 != 0,
            k > 1 ==> wheel(k - 1) <= n,
            forall|j: int|
                1 <= j < k ==> (n as int) % (#[trigger] wheel(j)) != 0 && (n as int) % (wheel(j) + 2)
                    != 0,
        decreases n - k,
    {
        proof {
            if k > 1 {
                assert(6 * k - 7 < 0x1_0000_0000) by (nonlinear_arith)
                    requires
                        (6 * (k - 1) - 1) * (6 * (k - 1) - 1) <= n,
                        n <= 0xFFFF_FFFF_FFFF_FFFF,
                        k >= 2,
                ;
            }
            assert((6 * k - 1) * (6 * k - 1) <= 0x1_0000_0006 * 0x1_0000_0006) by (nonlinear_arith)
                requires
                    1 <= 6 * k - 1 <= 0x1_0000_0006,
            ;
            lemma_wheel_grows(k as int, k as int);
        }
        let a: u128 = 6 * k - 1;
        let p: u128 = a * a;
        assert(p == wheel(k as int));
        if p > n {
            proof {
                assert forall|j: int| j >= 1 && #[trigger] wheel(j) <= n implies (n as int)
                    % wheel(j) != 0 && (n as int) % (wheel(j) + 2) != 0 by {
                    if j >= k {
                        lemma_wheel_grows(k as int, j);
                    }
                }
            }
            return true;
        } else if (n % p == 0) || (n % (p + 2) == 0) {
            return false;
        }
        k += 1;
    }
}

/// Every prime number passes the quick check.
pub proof fn law_primes_pass(num: int)
    requires
        is_prime(num),
    ensures
        passes_check(num),
{
    if num > 3 {
        assert(num % 2 != 0);
        assert(num % 3 != 0);
        assert forall|k: int| k >= 1 && #[trigger] wheel(k) <= num implies num % wheel(k) != 0
            && num % (wheel(k) + 2) != 0 by {
            let a = 6 * k - 1;
            let w = wheel(k);
            lemma_wheel_grows(k, k);
            if num % w == 0 {
                if w < num {
                    assert(num % w != 0);
                } else {
                    assert(2 <= a < num) by (nonlinear_arith)
                        requires
                            num == a * a,
                            a == 6 * k - 1,
                            k >= 1,
                    ;
                    lemma_multiple(a, a);
                    assert(num % a != 0);
                }
            }
            if num % (w + 2) == 0 {
                if w + 2 < num {
                    assert(num % (w + 2) != 0);
                } else if w + 2 == num {
                    let third = 12 * k * k - 4 * k + 1;
                    assert(num == 3 * third && third >= 0) by (nonlinear_arith)
                        requires
                            num == (6 * k - 1) * (6 * k - 1) + 2,
                            third == 12 * k * k - 4 * k + 1,
                            k >= 1,
                    ;
                    lemma_multiple(3, third);
                } else {
                    vstd::arithmetic::div_mod::lemma_small_mod(num as nat, (w + 2) as nat);
                }
            }
        }
    }
}

/// The text of one pair: `n + m, `.
pub open spec fn pair_text(n: nat, m: nat) -> Seq<char> {
    decimal(n) + seq![' ', '+', ' '] + decimal(m) + seq![',', ' ']
}

/// The texts, one after the other, of the pairs `n + (num - n)` with
/// `2 <= n < upto` in which both numbers pass the check.
pub open spec fn pairs_text(num: nat, upto: nat) -> Seq<char>
    decreases upto,
{
    if upto <= 2 {
        Seq::empty()
    } else {
        let n = (upto - 1) as nat;
        pairs_text(num, n) + if passes_check(n as int) && passes_check(num - n) {
            pair_text(n, (num - n) as nat)
        } else {
            Seq::empty()
        }
    }
}

/// The line that lists the pairs of `num`: the number, ` = `, and then the
/// pairs up to half of `num`, separated by `, `, or `None` if there is none.
pub open spec fn prime_pairs_text(num: nat) -> Seq<char> {
    let list = pairs_text(num, num / 2 + 1);
    decimal(num) + seq![' ', '=', ' '] + if list.len() == 0 {
        seq!['N', 'o', 'n', 'e']
    } else {
        list.take(list.len() - 2)
    }
}

/// Appends the characters of `more` to `out`.
fn append_chars(out: &mut Vec<char>, more: &Vec<char>)
    ensures
        final(out)@ == old(out)@ + more@,
{
    let mut i: usize = 0;
    while i < more.len()
        invariant
            i <= more.len(),
            out@ == old(out)@ + more@.take(i as int),
        decreases more.len() - i,
    {
        out.push(more[i]);
        assert(out@ =~= old(out)@ + more@.take(i + 1));
        i += 1;
    }
    assert(more@.take(i as int) =~= more@);
}

/// Lists the ways to write `num` as a sum of two numbers that both pass the
/// check for primes, the smaller one first, as in `10 = 3 + 7, 5 + 5`.
pub fn prime_pairs(num: usize) -> (line: String)
    ensures
        line@ == prime_pairs_text(num as nat),
{
    let mut p_string: Vec<char> = to_decimal(num);
    p_string.push(' ');
    p_string.push('=');
    p_string.push(' ');
    let ghost head = decimal(num as nat) + seq![' ', '=', ' '];
    assert(p_string@ =~= head);
    let mut checked: HashSet<usize> = HashSet::new();
    let half: usize = num / 2;
    let mut n: usize = 2;
    let mut found = false;
    assert(p_string@ =~= head + pairs_text(num as nat, 2));
    while n <= half
        invariant
            2 <= n,
            half == num / 2,
            n <= half + 1 || n == 2,
            forall|x: usize| checked@.contains(x) ==> x < n,
            p_string@ == head + pairs_text(num as nat, n as nat),
            found == (pairs_text(num as nat, n as nat).len() > 0),
        decreases half + 1 - n,
    {
        let ghost so_far = pairs_text(num as nat, n as nat);
        if !checked.contains(&n) && check_prime(n) && check_prime(num - n) {
            found = true;
            checked.insert(n);
            let ghost before = p_string@;
            append_chars(&mut p_string, &to_decimal(n));
            p_string.push(' ');
            p_string.push('+');
            p_string.push(' ');
            append_chars(&mut p_string, &to_decimal(num - n));
            p_string.push(',');
            p_string.push(' ');
            proof {
                let pair = pair_text(n as nat, (num - n) as nat);
                assert(p_string@ =~= before + pair);
                assert(head + so_far + pair =~= head + (so_far + pair));
                assert(pair.len() > 0);
            }
        } else {
            proof {
                assert(so_far + Seq::<char>::empty() =~= so_far);
            }
        }
        n += 1;
    }
    let ghost list = pairs_text(num as nat, (half + 1) as nat);
    proof {
        if n == 2 && half < 2 {
            assert(pairs_text(num as nat, (half + 1) as nat) =~= Seq::<char>::empty());
        }
        assert(p_string@ == head + list);
    }
    if found {
        proof {
            lemma_pairs_end(num as nat, (half + 1) as nat);
        }
        p_string.pop();
        p_string.pop();
        assert(p_string@ =~= head + list.take(list.len() - 2));
    } else {
        p_string.push('N');
        p_string.push('o');
        p_string.push('n');
        p_string.push('e');
        assert(p_string@ =~= head + seq!['N', 'o', 'n', 'e']);
    }
    string_of(&p_string)
}

/// A list of pairs that is not empty is at least two characters long.
proof fn lemma_pairs_end(num: nat, upto: nat)
    ensures
        pairs_text(num, upto).len() == 0 || pairs_text(num, upto).len() >= 2,
    decreases upto,
{
    if upto > 2 {
        lemma_pairs_end(num, (upto - 1) as nat);
    }
}

} // verus!
