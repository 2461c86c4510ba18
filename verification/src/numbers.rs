//! Factorials, and numbers written out in decimal.

use vstd::prelude::*;

verus! {

/// The product of the numbers from 1 to `n`.
pub open spec fn factorial_of(n: nat) -> nat
    decreases n,
{
    if n == 0 {
        1
    } else {
        n * factorial_of((n - 1) as nat)
    }
}

/// Factorials are positive and never shrink as the argument grows.
pub proof fn law_factorial_grows(i: nat, j: nat)
    requires
        i <= j,
    ensures
        1 <= factorial_of(i) <= factorial_of(j),
    decreases j,
{
    if j == 0 {
    } else if i == j {
        law_factorial_grows((i - 1) as nat, (i - 1) as nat);
        assert(factorial_of(i) >= 1) by (nonlinear_arith)
            requires
                factorial_of(i) == i * factorial_of((i - 1) as nat),
                i >= 1,
                factorial_of((i - 1) as nat) >= 1,
        ;
    } else {
        law_factorial_grows(i, (j - 1) as nat);
        assert(factorial_of(j) >= factorial_of((j - 1) as nat)) by (nonlinear_arith)
            requires
                factorial_of(j) == j * factorial_of((j - 1) as nat),
                j >= 1,
                factorial_of((j - 1) as nat) >= 1,
        ;
    }
}

/// Computes the factorial of `num`.
///
/// A negative number is refused, and so is one whose factorial does not fit
/// in `usize`.
pub fn factorial(num: &isize) -> (r: Result<usize, &'static str>)
    ensures
        *num < 0 ==> (r matches Err(msg) && msg@ == "Number must be non-negative!"@),
        *num >= 0 && factorial_of(*num as nat) <= usize::MAX ==> r == Ok::<usize, &'static str>(
            factorial_of(*num as nat) as usize,
        ),
        *num >= 0 && factorial_of(*num as nat) > usize::MAX ==> (r matches Err(msg) && msg@
            == "Overflow!"@),
{
    let n: isize = *num;
    if n < 0 {
        return Err("Number must be non-negative!");
    } else if n == 0 {
        return Ok(1);
    }
    let mut acc: usize = 1;
    let mut i: isize = 1;
    while i <= n
        invariant
            1 <= i <= n + 1,
            n == *num,
            acc == factorial_of((i - 1) as nat),
        decreases n + 1 - i,
    {
        match acc.checked_mul(i as usize) {
            Some(next) => {
                acc = next;
            },
            None => {
                proof {
                    assert(factorial_of(i as nat) == i * acc);
                    law_factorial_grows(i as nat, n as nat);
                }
                return Err("Overflow!");
            },
        }
        if i == n {
            return Ok(acc);
        }
        i += 1;
    }
    Ok(acc)
}

/// Whether `c` is one of the digits `0` to `9`.
pub open spec fn is_digit(c: char) -> bool {
    '0' <= c <= '9'
}

/// Whether every character of `ds` is a digit.
pub open spec fn all_digits(ds: Seq<char>) -> bool {
    forall|i: int| 0 <= i < ds.len() ==> is_digit(#[trigger] ds[i])
}

/// The number that the digits `ds` spell in base ten.
pub open spec fn decimal_value(ds: Seq<char>) -> int
    decreases ds.len(),
{
    if ds.len() == 0 {
        0
    } else {
        decimal_value(ds.drop_last()) * 10 + (ds.last() as int - '0' as int)
    }
}

/// The character that stands for the digit `d`.
pub open spec fn digit_char(d: int) -> char
    recommends
        0 <= d <= 9,
{
    (d + '0' as int) as char
}

/// The digits of `n` in base ten, without leading zeros; `0` for zero.
pub open spec fn decimal(n: nat) -> Seq<char>
    decreases n,
{
    if n < 10 {
        seq![digit_char(n as int)]
    } else {
        decimal(n / 10).push(digit_char((n % 10) as int))
    }
}

/// Writes `n` out in base ten.
pub fn to_decimal(n: usize) -> (out: Vec<char>)
    ensures
        out@ == decimal(n as nat),
{
    let mut rev: Vec<char> = Vec::new();
    let mut m: usize = n;
    assert(decimal(m as nat) + rev@.reverse() =~= decimal(n as nat));
    while m >= 10
        invariant
            decimal(n as nat) == decimal(m as nat) + rev@.reverse(),
        decreases m,
    {
        let d: u8 = (m % 10) as u8;
        let c: char = (d + 48) as char;
        let ghost before = rev@;
        rev.push(c);
        proof {
            assert(c == digit_char((m % 10) as int));
            assert(rev@.reverse() =~= seq![c] + before.reverse());
            assert(decimal((m / 10) as nat).push(c) + before.reverse() =~= decimal(
                (m / 10) as nat,
            ) + rev@.reverse());
        }
        m = m / 10;
    }
    let last: char = ((m as u8) + 48) as char;
    let ghost before = rev@;
    rev.push(last);
    proof {
        assert(last == digit_char(m as int));
        assert(rev@.reverse() =~= seq![last] + before.reverse());
        assert(decimal(n as nat) =~= rev@.reverse());
    }
    let len = rev.len();
    let mut out: Vec<char> = Vec::new();
    let mut i: usize = len;
    while i > 0
        invariant
            i <= len,
            len == rev.len(),
            out.len() == len - i,
            forall|j: int| 0 <= j < out.len() ==> #[trigger] out@[j] == rev@[len - 1 - j],
        decreases i,
    {
        i -= 1;
        out.push(rev[i]);
    }
    assert(out@ =~= rev@.reverse());
    out
}

/// What is written out reads back as the same number.
pub proof fn law_decimal_reads_back(n: nat)
    ensures
        decimal(n).len() > 0,
        all_digits(decimal(n)),
        decimal_value(decimal(n)) == n,
    decreases n,
{
    if n >= 10 {
        law_decimal_reads_back(n / 10);
        let head = decimal(n / 10);
        let c = digit_char((n % 10) as int);
        assert(decimal(n).drop_last() =~= head);
        assert(decimal(n).last() == c);
        assert forall|i: int| 0 <= i < decimal(n).len() implies is_digit(
            #[trigger] decimal(n)[i],
        ) by {
            if i < head.len() {
                assert(decimal(n)[i] == head[i]);
            }
        }
        assert(c as int - '0' as int == n % 10);
        assert(decimal_value(decimal(n)) == decimal_value(head) * 10 + n % 10);
    } else {
        assert(decimal(n).drop_last() =~= Seq::<char>::empty());
        assert(decimal_value(Seq::<char>::empty()) == 0);
        assert(decimal(n).last() as int - '0' as int == n);
    }
}

} // verus!
