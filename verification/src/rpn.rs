//! The value stack of the calculator and the operations that act on it.
//!
//! Every operation is a fixed sequence of pops followed by pushes. A pop that
//! fails ends the operation at once, and whatever was popped before it is
//! gone: nothing is put back.

use crate::numbers::{decimal, to_decimal};
use crate::text::string_of;
use rand::Rng;
use vstd::prelude::*;

verus! {

/// `std::io::Error`, carried through unopened by [`Error::IO`].
#[verifier::external_type_specification]
#[verifier::external_body]
pub struct ExIoError(std::io::Error);

/// An element of the stack: an integer or a boolean.
///
/// Two elements are equal when they have the same variant and the same
/// payload, so an integer never equals a boolean. The order ranks every
/// integer before every boolean, and compares payloads within a variant, with
/// `false` before `true`.
#[derive(Clone, Copy, Debug, PartialEq, Eq, Ord, Structural)]
pub enum Elt {
    Int(i32),
    Bool(bool),
}

/// Whether `a` comes before `b` in the order of elements.
pub open spec fn precedes(a: Elt, b: Elt) -> bool {
    match (a, b) {
        (Elt::Int(x), Elt::Int(y)) => x < y,
        (Elt::Int(_), Elt::Bool(_)) => true,
        (Elt::Bool(_), Elt::Int(_)) => false,
        (Elt::Bool(x), Elt::Bool(y)) => !x && y,
    }
}

impl vstd::std_specs::cmp::PartialOrdSpecImpl for Elt {
    open spec fn obeys_partial_cmp_spec() -> bool {
        true
    }

    open spec fn partial_cmp_spec(&self, other: &Elt) -> Option<std::cmp::Ordering> {
        if *self == *other {
            Some(std::cmp::Ordering::Equal)
        } else if precedes(*self, *other) {
            Some(std::cmp::Ordering::Less)
        } else {
            Some(std::cmp::Ordering::Greater)
        }
    }
}

impl PartialOrd for Elt {
    fn partial_cmp(&self, other: &Elt) -> (r: Option<std::cmp::Ordering>) {
        match (*self, *other) {
            (Elt::Int(x), Elt::Int(y)) => if x < y {
                Some(std::cmp::Ordering::Less)
            } else if x == y {
                Some(std::cmp::Ordering::Equal)
            } else {
                Some(std::cmp::Ordering::Greater)
            },
            (Elt::Int(_), Elt::Bool(_)) => Some(std::cmp::Ordering::Less),
            (Elt::Bool(_), Elt::Int(_)) => Some(std::cmp::Ordering::Greater),
            (Elt::Bool(x), Elt::Bool(y)) => if x == y {
                Some(std::cmp::Ordering::Equal)
            } else if y {
                Some(std::cmp::Ordering::Less)
            } else {
                Some(std::cmp::Ordering::Greater)
            },
        }
    }
}

/// The order of elements is total: of two elements one comes before the
/// other or they are equal, and never two of these at once; and it passes on
/// from pair to pair.
pub proof fn law_elements_ordered(a: Elt, b: Elt, c: Elt)
    ensures
        precedes(a, b) || a == b || precedes(b, a),
        !(precedes(a, b) && precedes(b, a)),
        !precedes(a, a),
        precedes(a, b) && precedes(b, c) ==> precedes(a, c),
        a is Int && b is Bool ==> precedes(a, b),
{
}

/// How an element is written: an integer in decimal, with `-` before it if
/// it is negative, and a boolean as `true` or `false`.
pub open spec fn shown(e: Elt) -> Seq<char> {
    match e {
        Elt::Bool(b) => if b {
            "true"@
        } else {
            "false"@
        },
        Elt::Int(i) => if i < 0 {
            seq!['-'] + decimal((-i) as nat)
        } else {
            decimal(i as nat)
        },
    }
}

impl Elt {
    /// Writes the element out, as it could be typed in again.
    pub fn show(&self) -> (s: String)
        ensures
            s@ == shown(*self),
    {
        match *self {
            Elt::Bool(true) => "true".to_owned(),
            Elt::Bool(false) => "false".to_owned(),
            Elt::Int(i) => {
                if i < 0 {
                    let magnitude: usize = (-(i as i64)) as usize;
                    let digits = to_decimal(magnitude);
                    let mut out: Vec<char> = Vec::new();
                    out.push('-');
                    let mut k: usize = 0;
                    while k < digits.len()
                        invariant
                            k <= digits.len(),
                            out@ == seq!['-'] + digits@.take(k as int),
                        decreases digits.len() - k,
                    {
                        out.push(digits[k]);
                        assert(out@ =~= seq!['-'] + digits@.take(k + 1));
                        k += 1;
                    }
                    assert(digits@.take(k as int) =~= digits@);
                    string_of(&out)
                } else {
                    string_of(&to_decimal(i as usize))
                }
            },
        }
    }
}

/// What can end an operation early.
#[derive(Debug)]
pub enum Error {
    /// A value was wanted from an empty stack.
    Underflow,
    /// An operand had the wrong variant for the operation.
    Type,
    /// A token was neither a literal nor an operator.
    Syntax,
    /// Reading or writing the terminal failed.
    IO(std::io::Error),
    /// The user asked to leave; not a failure, but it travels the same way.
    Quit,
}

/// The operations of the calculator. Their operands come from the stack.
#[derive(Clone, Copy, Debug, PartialEq, Eq, Structural)]
pub enum Op {
    /// Pop two integers, push their sum.
    Add,
    /// Pop two values, push whether they are equal.
    Eq,
    /// Pop one value, push its negation.
    Neg,
    /// Pop two values, push the first popped, then the second.
    Swap,
    /// Pop an integer `n`, push an integer drawn from `0..=n`.
    Rand,
    /// Leave the calculator.
    Quit,
}

/// The stack and result that `Add` leaves behind on `s`.
pub open spec fn add_effect(s: Seq<Elt>) -> (Seq<Elt>, Result<(), Error>) {
    if s.len() == 0 {
        (s, Err(Error::Underflow))
    } else {
        match s.last() {
            Elt::Bool(_) => (s.drop_last(), Err(Error::Type)),
            Elt::Int(one) => {
                let rest = s.drop_last();
                if rest.len() == 0 {
                    (rest, Err(Error::Underflow))
                } else {
                    match rest.last() {
                        Elt::Bool(_) => (rest.drop_last(), Err(Error::Type)),
                        Elt::Int(two) => (
                            rest.drop_last().push(Elt::Int((one + two) as i32)),
                            Ok(()),
                        ),
                    }
                }
            },
        }
    }
}

/// The stack and result that `Eq` leaves behind on `s`.
pub open spec fn eq_effect(s: Seq<Elt>) -> (Seq<Elt>, Result<(), Error>) {
    if s.len() == 0 {
        (s, Err(Error::Underflow))
    } else if s.len() == 1 {
        (s.drop_last(), Err(Error::Underflow))
    } else {
        (s.drop_last().drop_last().push(Elt::Bool(s[s.len() - 1] == s[s.len() - 2])), Ok(()))
    }
}

/// The negation of one element: logical for a boolean, arithmetic for an
/// integer.
pub open spec fn negated(e: Elt) -> Elt {
    match e {
        Elt::Bool(b) => Elt::Bool(!b),
        Elt::Int(i) => Elt::Int((-i) as i32),
    }
}

/// The stack and result that `Neg` leaves behind on `s`.
pub open spec fn neg_effect(s: Seq<Elt>) -> (Seq<Elt>, Result<(), Error>) {
    if s.len() == 0 {
        (s, Err(Error::Underflow))
    } else {
        (s.drop_last().push(negated(s.last())), Ok(()))
    }
}

/// The stack and result that `Swap` leaves behind on `s`: the value popped
/// first goes back first, so it ends up below the other.
pub open spec fn swap_effect(s: Seq<Elt>) -> (Seq<Elt>, Result<(), Error>) {
    if s.len() == 0 {
        (s, Err(Error::Underflow))
    } else if s.len() == 1 {
        (s.drop_last(), Err(Error::Underflow))
    } else {
        (s.drop_last().drop_last().push(s[s.len() - 1]).push(s[s.len() - 2]), Ok(()))
    }
}

/// The stack and result that `Rand` leaves behind on `s` when the number
/// drawn is `draw`.
pub open spec fn rand_effect(s: Seq<Elt>, draw: i32) -> (Seq<Elt>, Result<(), Error>) {
    if s.len() == 0 {
        (s, Err(Error::Underflow))
    } else {
        match s.last() {
            Elt::Bool(_) => (s.drop_last(), Err(Error::Type)),
            Elt::Int(_) => (s.drop_last().push(Elt::Int(draw)), Ok(())),
        }
    }
}

/// The stack and result that `op` leaves behind on `s`. Only `Rand` looks at
/// `draw`.
pub open spec fn effect(s: Seq<Elt>, op: Op, draw: i32) -> (Seq<Elt>, Result<(), Error>) {
    match op {
        Op::Add => add_effect(s),
        Op::Eq => eq_effect(s),
        Op::Neg => neg_effect(s),
        Op::Swap => swap_effect(s),
        Op::Rand => rand_effect(s, draw),
        Op::Quit => (s, Err(Error::Quit)),
    }
}

/// Whether `draw` is a number that `op` may draw on `s`: for `Rand` on an
/// integer `n`, anything in `0..=n`; the other operations draw nothing, which
/// is written as 0.
pub open spec fn draw_allowed(s: Seq<Elt>, op: Op, draw: i32) -> bool {
    match op {
        Op::Rand => if s.len() > 0 {
            match s.last() {
                Elt::Int(n) => 0 <= draw <= n,
                Elt::Bool(_) => draw == 0,
            }
        } else {
            draw == 0
        },
        _ => draw == 0,
    }
}

/// Whether `op` has a defined outcome on `s`. It has none where a sum or a
/// negation would leave the range of `i32`, and where `Rand` would have to
/// draw from `0..=n` with `n` negative.
pub open spec fn defined(s: Seq<Elt>, op: Op) -> bool {
    match op {
        Op::Add => s.len() >= 2 ==> match (s[s.len() - 1], s[s.len() - 2]) {
            (Elt::Int(one), Elt::Int(two)) => i32::MIN <= one + two <= i32::MAX,
            _ => true,
        },
        Op::Neg => s.len() >= 1 ==> s.last() != Elt::Int(i32::MIN),
        Op::Rand => s.len() >= 1 ==> match s.last() {
            Elt::Int(n) => n >= 0,
            Elt::Bool(_) => true,
        },
        _ => true,
    }
}

/// Whether evaluating `op` on `before` can end in `after` with result `r`.
pub open spec fn evaluates(before: Seq<Elt>, op: Op, after: Seq<Elt>, r: Result<(), Error>) -> bool {
    exists|draw: i32|
        (#[trigger] draw_allowed(before, op, draw)) && (after, r) == effect(before, op, draw)
}

/// Draws an integer from `0..=n` with `rand::thread_rng().gen_range(0..=n)`.
///
/// `gen_range` panics on an empty range, so `n` must not be negative. The
/// number returned lies in the range; which one it is differs from call to
/// call.
#[verifier::external_body]
fn draw_up_to(n: i32) -> (r: i32)
    requires
        n >= 0,
    ensures
        0 <= r <= n,
{
    rand::thread_rng().gen_range(0..=n)
}

/// A last-in, first-out stack of elements. The top is the end of its view.
pub struct Stack {
    stack: Vec<Elt>,
}

impl View for Stack {
    type V = Seq<Elt>;

    closed spec fn view(&self) -> Seq<Elt> {
        self.stack@
    }
}

impl Stack {
    /// An empty stack.
    pub fn new() -> (s: Stack)
        ensures
            s@ == Seq::<Elt>::empty(),
    {
        Stack { stack: Vec::new() }
    }

    /// The number of elements on the stack.
    pub fn len(&self) -> (n: usize)
        ensures
            n == self@.len(),
    {
        self.stack.len()
    }

    /// Puts `val` on top. This cannot fail.
    pub fn push(&mut self, val: Elt) -> (r: Result<(), Error>)
        ensures
            r == Ok::<(), Error>(()),
            final(self)@ == old(self)@.push(val),
    {
        self.stack.push(val);
        Ok(())
    }

    /// Takes the top value off, or reports `Underflow` on an empty stack.
    pub fn pop(&mut self) -> (r: Result<Elt, Error>)
        ensures
            old(self)@.len() == 0 ==> r == Err::<Elt, Error>(Error::Underflow) && final(self)@
                == old(self)@,
            old(self)@.len() > 0 ==> r == Ok::<Elt, Error>(old(self)@.last()) && final(self)@
                == old(self)@.drop_last(),
    {
        match self.stack.pop() {
            Some(e) => Ok(e),
            None => Err(Error::Underflow),
        }
    }

    /// Reads the top value and leaves it in place, or reports `Underflow` on
    /// an empty stack.
    pub fn peek(&self) -> (r: Result<Elt, Error>)
        ensures
            self@.len() == 0 ==> r == Err::<Elt, Error>(Error::Underflow),
            self@.len() > 0 ==> r == Ok::<Elt, Error>(self@.last()),
    {
        let n = self.stack.len();
        if n == 0 {
            Err(Error::Underflow)
        } else {
            Ok(self.stack[n - 1])
        }
    }

    /// Whether `op` has a defined outcome on this stack, so that `eval` may be
    /// called with it.
    pub fn can_eval(&self, op: Op) -> (b: bool)
        ensures
            b == defined(self@, op),
    {
        let n = self.stack.len();
        match op {
            Op::Add => {
                if n < 2 {
                    true
                } else {
                    match (self.stack[n - 1], self.stack[n - 2]) {
                        (Elt::Int(one), Elt::Int(two)) => one.checked_add(two).is_some(),
                        _ => true,
                    }
                }
            },
            Op::Neg => {
                if n < 1 {
                    true
                } else {
                    match self.stack[n - 1] {
                        Elt::Int(i) => i != i32::MIN,
                        Elt::Bool(_) => true,
                    }
                }
            },
            Op::Rand => {
                if n < 1 {
                    true
                } else {
                    match self.stack[n - 1] {
                        Elt::Int(i) => i >= 0,
                        Elt::Bool(_) => true,
                    }
                }
            },
            _ => true,
        }
    }

    fn eval_add(&mut self) -> (r: Result<(), Error>)
        requires
            defined(old(self)@, Op::Add),
        ensures
            final(self)@ =~= add_effect(old(self)@).0,
            r == add_effect(old(self)@).1,
    {
        let one: i32 = match self.pop() {
            Err(e) => return Err(e),
            Ok(Elt::Bool(_)) => return Err(Error::Type),
            Ok(Elt::Int(i)) => i,
        };
        let two: i32 = match self.pop() {
            Err(e) => return Err(e),
            Ok(Elt::Bool(_)) => return Err(Error::Type),
            Ok(Elt::Int(i)) => i,
        };
        self.push(Elt::Int(one + two))
    }

    fn eval_eq(&mut self) -> (r: Result<(), Error>)
        ensures
            final(self)@ =~= eq_effect(old(self)@).0,
            r == eq_effect(old(self)@).1,
    {
        let one = match self.pop() {
            Err(e) => return Err(e),
            Ok(v) => v,
        };
        let two = match self.pop() {
            Err(e) => return Err(e),
            Ok(v) => v,
        };
        self.push(Elt::Bool(one == two))
    }

    fn eval_neg(&mut self) -> (r: Result<(), Error>)
        requires
            defined(old(self)@, Op::Neg),
        ensures
            final(self)@ =~= neg_effect(old(self)@).0,
            r == neg_effect(old(self)@).1,
    {
        match self.pop() {
            Err(e) => Err(e),
            Ok(Elt::Bool(b)) => self.push(Elt::Bool(!b)),
            Ok(Elt::Int(i)) => self.push(Elt::Int(-i)),
        }
    }

    fn eval_swap(&mut self) -> (r: Result<(), Error>)
        ensures
            final(self)@ =~= swap_effect(old(self)@).0,
            r == swap_effect(old(self)@).1,
    {
        let one = match self.pop() {
            Err(e) => return Err(e),
            Ok(v) => v,
        };
        let two = match self.pop() {
            Err(e) => return Err(e),
            Ok(v) => v,
        };
        match self.push(one) {
            Err(e) => Err(e),
            Ok(()) => self.push(two),
        }
    }

    fn eval_rand(&mut self) -> (r: Result<(), Error>)
        requires
            defined(old(self)@, Op::Rand),
        ensures
            evaluates(old(self)@, Op::Rand, final(self)@, r),
    {
        match self.pop() {
            Err(e) => {
                proof {
                    assert(draw_allowed(old(self)@, Op::Rand, 0));
                }
                Err(e)
            },
            Ok(Elt::Bool(_)) => {
                proof {
                    assert(draw_allowed(old(self)@, Op::Rand, 0));
                }
                Err(Error::Type)
            },
            Ok(Elt::Int(i)) => {
                let drawn = draw_up_to(i);
                let r = self.push(Elt::Int(drawn));
                proof {
                    assert(draw_allowed(old(self)@, Op::Rand, drawn));
                    assert(self@ =~= rand_effect(old(self)@, drawn).0);
                }
                r
            },
        }
    }

    /// Evaluates `op` on the values at the top of the stack.
    ///
    /// Operands are popped one by one; the first pop that finds the stack
    /// empty ends the operation with `Underflow`, and `Add` and `Rand` end with
    /// `Type` at the first operand that is not an integer. Operands popped
    /// before a failure are not put back. `Quit` leaves the stack alone and
    /// returns `Quit`. What `Rand` pushes is an integer between 0 and the
    /// operand, both included.
    pub fn eval(&mut self, op: Op) -> (r: Result<(), Error>)
        requires
            defined(old(self)@, op),
        ensures
            evaluates(old(self)@, op, final(self)@, r),
            !(op is Rand) ==> (final(self)@, r) == effect(old(self)@, op, 0),
    {
        let r = match op {
            Op::Add => self.eval_add(),
            Op::Eq => self.eval_eq(),
            Op::Neg => self.eval_neg(),
            Op::Swap => self.eval_swap(),
            Op::Rand => self.eval_rand(),
            Op::Quit => Err(Error::Quit),
        };
        proof {
            if !(op is Rand) {
                assert(draw_allowed(old(self)@, op, 0));
            }
        }
        r
    }
}

/// Adding two integers that were pushed one after the other succeeds and
/// leaves their sum on top, in place of the two, provided the sum fits in
/// `i32`.
pub proof fn law_add_sums(base: Seq<Elt>, a: i32, b: i32, after: Seq<Elt>, r: Result<(), Error>)
    requires
        i32::MIN <= a + b <= i32::MAX,
        evaluates(base.push(Elt::Int(a)).push(Elt::Int(b)), Op::Add, after, r),
    ensures
        r == Ok::<(), Error>(()),
        after == base.push(Elt::Int((a + b) as i32)),
        after.last() == Elt::Int((a + b) as i32),
{
    let s = base.push(Elt::Int(a)).push(Elt::Int(b));
    assert(s.drop_last() =~= base.push(Elt::Int(a)));
    assert(s.drop_last().drop_last() =~= base);
}

/// `Add` fails with `Type` when one of the two values on top is a boolean.
pub proof fn law_add_rejects_bool(s: Seq<Elt>, after: Seq<Elt>, r: Result<(), Error>)
    requires
        s.len() >= 2,
        s[s.len() - 1] is Bool || s[s.len() - 2] is Bool,
        evaluates(s, Op::Add, after, r),
    ensures
        r == Err::<(), Error>(Error::Type),
{
}

/// When `Add` fails on a boolean that lies under an integer, both values are
/// gone from the stack, which is shorter by two.
pub proof fn law_add_consumes_both(s: Seq<Elt>, after: Seq<Elt>, r: Result<(), Error>)
    requires
        s.len() >= 2,
        s[s.len() - 1] is Int,
        s[s.len() - 2] is Bool,
        evaluates(s, Op::Add, after, r),
    ensures
        r == Err::<(), Error>(Error::Type),
        after == s.drop_last().drop_last(),
        after.len() == s.len() - 2,
{
}

/// When `Add` fails on a boolean that is on top, it stops there: only that
/// value is gone.
pub proof fn law_add_stops_at_first(s: Seq<Elt>, after: Seq<Elt>, r: Result<(), Error>)
    requires
        s.len() >= 1,
        s[s.len() - 1] is Bool,
        evaluates(s, Op::Add, after, r),
    ensures
        r == Err::<(), Error>(Error::Type),
        after == s.drop_last(),
{
}

/// `Neg` turns a boolean on top into its opposite.
pub proof fn law_neg_bool(base: Seq<Elt>, b: bool, after: Seq<Elt>, r: Result<(), Error>)
    requires
        evaluates(base.push(Elt::Bool(b)), Op::Neg, after, r),
    ensures
        r == Ok::<(), Error>(()),
        after == base.push(Elt::Bool(!b)),
{
    assert(base.push(Elt::Bool(b)).drop_last() =~= base);
}

/// `Neg` turns an integer on top into its negative, provided that fits in
/// `i32`.
pub proof fn law_neg_int(base: Seq<Elt>, i: i32, after: Seq<Elt>, r: Result<(), Error>)
    requires
        i != i32::MIN,
        evaluates(base.push(Elt::Int(i)), Op::Neg, after, r),
    ensures
        r == Ok::<(), Error>(()),
        after == base.push(Elt::Int((-i) as i32)),
{
    assert(base.push(Elt::Int(i)).drop_last() =~= base);
}

/// `Swap` on `a` then `b` leaves `b` then `a`: the value that was on top is
/// now under the other. The stack is as before exactly when the two are
/// equal.
pub proof fn law_swap_order(base: Seq<Elt>, a: Elt, b: Elt, after: Seq<Elt>, r: Result<(), Error>)
    requires
        evaluates(base.push(a).push(b), Op::Swap, after, r),
    ensures
        r == Ok::<(), Error>(()),
        after == base.push(b).push(a),
        after.last() == a,
        after == base.push(a).push(b) <==> a == b,
{
    let s = base.push(a).push(b);
    assert(s.drop_last().drop_last() =~= base);
    if after == s {
        assert(after[after.len() - 1] == s[s.len() - 1]);
    }
}

/// `Eq` on two equal integers leaves `true`.
pub proof fn law_eq_same_int(base: Seq<Elt>, i: i32, after: Seq<Elt>, r: Result<(), Error>)
    requires
        evaluates(base.push(Elt::Int(i)).push(Elt::Int(i)), Op::Eq, after, r),
    ensures
        r == Ok::<(), Error>(()),
        after == base.push(Elt::Bool(true)),
{
    let s = base.push(Elt::Int(i)).push(Elt::Int(i));
    assert(s.drop_last().drop_last() =~= base);
}

/// `Eq` on an integer and a boolean, in either order, leaves `false`.
pub proof fn law_eq_mixed(base: Seq<Elt>, x: Elt, y: Elt, after: Seq<Elt>, r: Result<(), Error>)
    requires
        (x is Int && y is Bool) || (x is Bool && y is Int),
        evaluates(base.push(x).push(y), Op::Eq, after, r),
    ensures
        r == Ok::<(), Error>(()),
        after == base.push(Elt::Bool(false)),
{
    let s = base.push(x).push(y);
    assert(s.drop_last().drop_last() =~= base);
}

/// `Rand` on an integer `n` that is not negative replaces it by an integer
/// between 0 and `n`, both included.
pub proof fn law_rand_in_range(base: Seq<Elt>, n: i32, after: Seq<Elt>, r: Result<(), Error>)
    requires
        n >= 0,
        evaluates(base.push(Elt::Int(n)), Op::Rand, after, r),
    ensures
        r == Ok::<(), Error>(()),
        after.len() == base.len() + 1,
        after.drop_last() == base,
        after.last() matches Elt::Int(x) && 0 <= x <= n,
{
    let s = base.push(Elt::Int(n));
    assert(s.drop_last() =~= base);
    let draw = choose|draw: i32|
        (#[trigger] draw_allowed(s, Op::Rand, draw)) && (after, r) == effect(s, Op::Rand, draw);
    assert(after == base.push(Elt::Int(draw)));
    assert(after.drop_last() =~= base);
}

} // verus!
