//! Short exercises on numbers: Fibonacci numbers, rows of a triangle, odd
//! squares, and the hints of a guessing game.

use vstd::prelude::*;

verus! {

/// The Fibonacci numbers, starting 1, 1, 2, 3, 5.
pub open spec fn fib(k: nat) -> nat
    decreases k,
{
    if k < 2 {
        1
    } else {
        fib((k - 1) as nat) + fib((k - 2) as nat)
    }
}

/// The Fibonacci numbers are positive and never shrink.
pub proof fn law_fib_grows(j: nat, k: nat)
    requires
        j <= k,
    ensures
        1 <= fib(j) <= fib(k),
    decreases k,
{
    if k >= 2 {
        if j == k {
            law_fib_grows((k - 1) as nat, (k - 1) as nat);
            law_fib_grows((k - 2) as nat, (k - 2) as nat);
        } else {
            law_fib_grows(j, (k - 1) as nat);
            law_fib_grows((k - 2) as nat, (k - 2) as nat);
        }
    }
}

/// Lists the Fibonacci numbers that are not above `n`, from the first on.
pub fn fib_upto(n: usize) -> (out: Vec<usize>)
    ensures
        forall|k: int| 0 <= k < out@.len() ==> out@[k] == fib(k as nat) && out@[k] <= n,
        fib(out@.len()) > n,
{
    let mut out: Vec<usize> = Vec::new();
    let mut x: usize = 1;
    let mut y: usize = 1;
    while x <= n
        invariant
            x == fib(out@.len()),
            y == fib(out@.len() + 1),
            forall|k: int| 0 <= k < out@.len() ==> out@[k] == fib(k as nat) && out@[k] <= n,
        decreases
                (if x <= n {
                    1int
                } else {
                    0int
                }) + (if y <= n {
                    n + 1 - y
                } else {
                    0int
                }),
    {
        let ghost k = out@.len();
        out.push(x);
        proof {
            law_fib_grows(k, k);
            assert(fib(k + 2) == fib(k + 1) + fib(k));
        }
        match x.checked_add(y) {
            Some(z) => {
                x = y;
                y = z;
            },
            None => {
                if y <= n {
                    out.push(y);
                }
                proof {
                    law_fib_grows(k + 2, k + 3);
                    law_fib_grows(k + 1, k + 2);
                }
                return out;
            },
        }
    }
    out
}

/// The lengths of the rows of the three triangles: from `n` down to 1, from
/// 1 up to `n`, and the odd numbers from 1 up to `n`.
pub fn triangle_rows(n: u32) -> (rows: (Vec<u32>, Vec<u32>, Vec<u32>))
    ensures
        rows.0@ == Seq::new(n as nat, |i: int| (n - i) as u32),
        rows.1@ == Seq::new(n as nat, |i: int| (i + 1) as u32),
        rows.2@ == Seq::new(((n + 1) / 2) as nat, |i: int| (2 * i + 1) as u32),
{
    let mut down: Vec<u32> = Vec::new();
    let mut up: Vec<u32> = Vec::new();
    let mut odd: Vec<u32> = Vec::new();
    let mut i: u32 = 0;
    while i < n
        invariant
            i <= n,
            down@ == Seq::new(i as nat, |j: int| (n - j) as u32),
            up@ == Seq::new(i as nat, |j: int| (j + 1) as u32),
            odd@ == Seq::new(((i + 1) / 2) as nat, |j: int| (2 * j + 1) as u32),
        decreases n - i,
    {
        down.push(n - i);
        up.push(i + 1);
        if i % 2 == 0 {
            odd.push(i + 1);
        }
        i += 1;
        proof {
            assert(down@ =~= Seq::new(i as nat, |j: int| (n - j) as u32));
            assert(up@ =~= Seq::new(i as nat, |j: int| (j + 1) as u32));
            assert(odd@ =~= Seq::new(((i + 1) / 2) as nat, |j: int| (2 * j + 1) as u32));
        }
    }
    (down, up, odd)
}

/// The sum of the squares of the first `count` odd numbers.
pub open spec fn odd_squares(count: nat) -> nat
    decreases count,
{
    if count == 0 {
        0
    } else {
        (odd_squares((count - 1) as nat) + (2 * count - 1) * (2 * count - 1)) as nat
    }
}

/// The sum has a closed form: a third of `count * (2 count - 1) * (2 count + 1)`.
pub proof fn law_odd_squares_closed(count: nat)
    ensures
        3 * odd_squares(count) == count * (2 * count - 1) * (2 * count + 1),
    decreases count,
{
    if count > 0 {
        let m = (count - 1) as nat;
        law_odd_squares_closed(m);
        let square = (2 * count - 1) * (2 * count - 1);
        assert(square >= 0) by (nonlinear_arith)
            requires
                square == (2 * count - 1) * (2 * count - 1),
        ;
        assert(odd_squares(count) == odd_squares(m) + square);
        assert(3 * (odd_squares(m) + square) == count * (2 * count - 1) * (2 * count + 1))
            by (nonlinear_arith)
            requires
                3 * odd_squares(m) == m * (2 * m - 1) * (2 * m + 1),
                m == count - 1,
                square == (2 * count - 1) * (2 * count - 1),
        ;
    } else {
        assert(count * (2 * count - 1) * (2 * count + 1) == 0) by (nonlinear_arith)
            requires
                count == 0,
        ;
    }
}

/// The sums never shrink as the count grows.
pub proof fn law_odd_squares_grow(j: nat, k: nat)
    requires
        j <= k,
    ensures
        odd_squares(j) <= odd_squares(k),
    decreases k,
{
    if j < k {
        law_odd_squares_grow(j, (k - 1) as nat);
        assert((2 * k - 1) * (2 * k - 1) >= 0) by (nonlinear_arith);
    }
}

/// Adds up the squares of the first `count` odd numbers, where the sum fits
/// in `usize`.
pub fn sum_odd_squares(count: usize) -> (sum: usize)
    requires
        odd_squares(count as nat) <= usize::MAX,
    ensures
        sum == odd_squares(count as nat),
{
    let mut sum: usize = 0;
    let mut num: usize = 0;
    while num < count
        invariant
            num <= count,
            odd_squares(count as nat) <= usize::MAX,
            sum == odd_squares(num as nat),
        decreases count - num,
    {
        proof {
            law_odd_squares_grow((num + 1) as nat, count as nat);
            let odd = 2 * num + 1;
            assert(odd_squares((num + 1) as nat) == odd_squares(num as nat) + odd * odd);
            assert(odd <= odd * odd) by (nonlinear_arith)
                requires
                    odd >= 1,
            ;
        }
        let current_number: usize = 2 * num + 1;
        sum += current_number * current_number;
        num += 1;
    }
    sum
}

/// What to tell the player of a guessing game.
#[derive(Clone, Copy, Debug, PartialEq, Eq, Structural)]
pub enum Hint {
    /// The guess is not a number from 1 to 10.
    OutOfRange,
    /// The guess is the number.
    Won,
    /// The number is higher than the guess.
    Higher,
    /// The number is lower than the guess.
    Lower,
}

/// The hint for a guess, given the number to be found.
pub open spec fn hint_for(guess: i32, target: i32) -> Hint {
    if !(1 <= guess <= 10) {
        Hint::OutOfRange
    } else if guess == target {
        Hint::Won
    } else if guess < target {
        Hint::Higher
    } else {
        Hint::Lower
    }
}

/// Judges a guess.
pub fn judge_guess(guess: i32, target: i32) -> (hint: Hint)
    ensures
        hint == hint_for(guess, target),
{
    if guess < 1 || guess > 10 {
        Hint::OutOfRange
    } else if guess == target {
        Hint::Won
    } else if guess < target {
        Hint::Higher
    } else {
        Hint::Lower
    }
}

} // verus!
