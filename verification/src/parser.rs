//! Reading one line of input: splitting it into tokens, telling literals from
//! operators, and applying each token to the stack in turn.

use crate::numbers::{all_digits, decimal, decimal_value, is_digit, law_decimal_reads_back};
use crate::rpn::{defined, evaluates, shown, Elt, Error, Op, Stack};
use crate::text::{chars_of, is_space, is_space_char, vec_views};
use vstd::prelude::*;

verus! {

/// The state of a scan over `s` from left to right: the tokens that have
/// ended, and the characters of the token that has not ended yet.
pub open spec fn scan(s: Seq<char>) -> (Seq<Seq<char>>, Seq<char>)
    decreases s.len(),
{
    if s.len() == 0 {
        (Seq::empty(), Seq::empty())
    } else {
        let (done, cur) = scan(s.drop_last());
        if is_space(s.last()) {
            if cur.len() > 0 {
                (done.push(cur), Seq::empty())
            } else {
                (done, cur)
            }
        } else {
            (done, cur.push(s.last()))
        }
    }
}

/// The tokens of a line: its maximal runs of characters that are not white
/// space, from left to right.
pub open spec fn tokens(s: Seq<char>) -> Seq<Seq<char>> {
    let (done, cur) = scan(s);
    if cur.len() > 0 {
        done.push(cur)
    } else {
        done
    }
}

/// Splits a line into its tokens.
pub fn split_tokens(line: &Vec<char>) -> (toks: Vec<Vec<char>>)
    ensures
        vec_views(toks@) == tokens(line@),
{
    let mut done: Vec<Vec<char>> = Vec::new();
    let mut cur: Vec<char> = Vec::new();
    let mut i: usize = 0;
    assert(vec_views(done@) =~= Seq::<Seq<char>>::empty());
    while i < line.len()
        invariant
            i <= line.len(),
            vec_views(done@) == scan(line@.take(i as int)).0,
            cur@ == scan(line@.take(i as int)).1,
        decreases line.len() - i,
    {
        let c = line[i];
        let ghost before = done@;
        proof {
            assert(line@.take(i + 1).drop_last() =~= line@.take(i as int));
        }
        if is_space_char(c) {
            if cur.len() > 0 {
                let ghost word = cur@;
                done.push(cur);
                cur = Vec::new();
                proof {
                    assert(vec_views(done@) =~= vec_views(before).push(word));
                }
            }
        } else {
            cur.push(c);
        }
        i += 1;
    }
    proof {
        assert(line@.take(i as int) =~= line@);
    }
    if cur.len() > 0 {
        let ghost before = done@;
        let ghost word = cur@;
        done.push(cur);
        proof {
            assert(vec_views(done@) =~= vec_views(before).push(word));
        }
    }
    done
}

/// The integer that `tok` spells, if it spells one: an optional sign `+` or
/// `-`, then at least one digit, with a value that fits in `i32`.
pub open spec fn int_literal(tok: Seq<char>) -> Option<i32> {
    let signed = tok.len() > 0 && (tok[0] == '-' || tok[0] == '+');
    let digits = if signed {
        tok.skip(1)
    } else {
        tok
    };
    let value = if tok.len() > 0 && tok[0] == '-' {
        -decimal_value(digits)
    } else {
        decimal_value(digits)
    };
    if digits.len() > 0 && all_digits(digits) && i32::MIN <= value <= i32::MAX {
        Some(value as i32)
    } else {
        None
    }
}

/// The digits read so far never spell more than all of them do.
proof fn lemma_prefix_value(ds: Seq<char>, k: int)
    requires
        all_digits(ds),
        0 <= k <= ds.len(),
    ensures
        0 <= decimal_value(ds.take(k)) <= decimal_value(ds),
    decreases ds.len() - k,
{
    if k == ds.len() {
        assert(ds.take(k) =~= ds);
        lemma_value_nonnegative(ds);
    } else {
        lemma_prefix_value(ds, k + 1);
        assert(ds.take(k + 1).drop_last() =~= ds.take(k));
        lemma_value_nonnegative(ds.take(k));
        assert(is_digit(ds.take(k + 1).last()));
    }
}

proof fn lemma_value_nonnegative(ds: Seq<char>)
    requires
        all_digits(ds),
    ensures
        0 <= decimal_value(ds),
    decreases ds.len(),
{
    if ds.len() > 0 {
        lemma_value_nonnegative(ds.drop_last());
        assert(is_digit(ds.last()));
    }
}

/// Reads `tok` as a signed decimal integer.
pub fn parse_int(tok: &Vec<char>) -> (r: Option<i32>)
    ensures
        r == int_literal(tok@),
{
    let n = tok.len();
    if n == 0 {
        return None;
    }
    let negative = tok[0] == '-';
    let start: usize = if tok[0] == '-' || tok[0] == '+' {
        1
    } else {
        0
    };
    if start == n {
        return None;
    }
    let ghost digits = tok@.skip(start as int);
    let ghost signed = tok@[0] == '-' || tok@[0] == '+';
    assert(digits =~= if signed {
        tok@.skip(1)
    } else {
        tok@
    });
    let mut acc: i64 = 0;
    let mut i: usize = start;
    assert(digits.take(0) =~= Seq::<char>::empty());
    while i < n
        invariant
            start <= i <= n,
            n == tok.len(),
            digits == tok@.skip(start as int),
            digits == if signed {
                tok@.skip(1)
            } else {
                tok@
            },
            signed == (tok@[0] == '-' || tok@[0] == '+'),
            digits.len() == n - start,
            all_digits(digits.take(i - start)),
            acc == decimal_value(digits.take(i - start)),
            0 <= acc <= 2147483648,
        decreases n - i,
    {
        let c = tok[i];
        if !('0' <= c && c <= '9') {
            assert(!is_digit(digits[i - start]));
            return None;
        }
        let d: i64 = (c as u32 - '0' as u32) as i64;
        proof {
            assert(digits.take(i + 1 - start).drop_last() =~= digits.take(i - start));
            assert(digits.take(i + 1 - start).last() == c);
            assert forall|j: int| 0 <= j < i + 1 - start implies is_digit(
                #[trigger] digits.take(i + 1 - start)[j],
            ) by {
                if j < i - start {
                    assert(digits.take(i + 1 - start)[j] == digits.take(i - start)[j]);
                }
            }
        }
        acc = acc * 10 + d;
        if acc > 2147483648 {
            proof {
                if all_digits(digits) {
                    lemma_prefix_value(digits, i + 1 - start);
                }
            }
            return None;
        }
        i += 1;
    }
    proof {
        assert(digits.take(n - start) =~= digits);
    }
    let value: i64 = if negative {
        -acc
    } else {
        acc
    };
    if value > 2147483647 {
        None
    } else {
        Some(value as i32)
    }
}

/// Compares a token with a word, character by character.
fn spells(tok: &Vec<char>, word: &str) -> (b: bool)
    ensures
        b == (tok@ == word@),
{
    let n = word.unicode_len();
    if tok.len() != n {
        return false;
    }
    let mut i: usize = 0;
    while i < n
        invariant
            i <= n,
            n == tok.len(),
            n == word@.len(),
            forall|j: int| 0 <= j < i ==> tok@[j] == word@[j],
        decreases n - i,
    {
        if tok[i] != word.get_char(i) {
            return false;
        }
        i += 1;
    }
    assert(tok@ =~= word@);
    true
}

/// What a token stands for.
#[derive(Clone, Copy, Debug, PartialEq, Eq, Structural)]
pub enum Token {
    /// A literal, to be pushed.
    Value(Elt),
    /// An operator symbol, to be evaluated.
    Operator(Op),
    /// Neither.
    Unknown,
}

/// The meaning of a token. A token that reads as an integer is one; else
/// `true` and `false` are the booleans; else `+`, `~`, `<->`, `=`, `#` and
/// `quit` are the operators; anything else is unknown.
pub open spec fn classify(tok: Seq<char>) -> Token {
    if let Some(i) = int_literal(tok) {
        Token::Value(Elt::Int(i))
    } else if tok == "true"@ {
        Token::Value(Elt::Bool(true))
    } else if tok == "false"@ {
        Token::Value(Elt::Bool(false))
    } else if tok == "+"@ {
        Token::Operator(Op::Add)
    } else if tok == "~"@ {
        Token::Operator(Op::Neg)
    } else if tok == "<->"@ {
        Token::Operator(Op::Swap)
    } else if tok == "="@ {
        Token::Operator(Op::Eq)
    } else if tok == "#"@ {
        Token::Operator(Op::Rand)
    } else if tok == "quit"@ {
        Token::Operator(Op::Quit)
    } else {
        Token::Unknown
    }
}

/// Finds the meaning of a token.
pub fn read_token(tok: &Vec<char>) -> (t: Token)
    ensures
        t == classify(tok@),
{
    if let Some(i) = parse_int(tok) {
        Token::Value(Elt::Int(i))
    } else if spells(tok, "true") {
        Token::Value(Elt::Bool(true))
    } else if spells(tok, "false") {
        Token::Value(Elt::Bool(false))
    } else if spells(tok, "+") {
        Token::Operator(Op::Add)
    } else if spells(tok, "~") {
        Token::Operator(Op::Neg)
    } else if spells(tok, "<->") {
        Token::Operator(Op::Swap)
    } else if spells(tok, "=") {
        Token::Operator(Op::Eq)
    } else if spells(tok, "#") {
        Token::Operator(Op::Rand)
    } else if spells(tok, "quit") {
        Token::Operator(Op::Quit)
    } else {
        Token::Unknown
    }
}

/// Whether applying `tok` to the stack `s` has a defined outcome: a literal
/// and an unknown token always have one, an operator where its evaluation has.
pub open spec fn token_defined(s: Seq<Elt>, tok: Seq<char>) -> bool {
    match classify(tok) {
        Token::Operator(op) => defined(s, op),
        _ => true,
    }
}

/// Whether applying `tok` to the stack `before` can end in `after` with result
/// `r`. A literal is pushed, an operator is evaluated, and an unknown token
/// leaves the stack alone and is a `Syntax` error.
pub open spec fn applies(
    before: Seq<Elt>,
    tok: Seq<char>,
    after: Seq<Elt>,
    r: Result<(), Error>,
) -> bool {
    match classify(tok) {
        Token::Value(v) => after == before.push(v) && r == Ok::<(), Error>(()),
        Token::Operator(op) => evaluates(before, op, after, r),
        Token::Unknown => after == before && r == Err::<(), Error>(Error::Syntax),
    }
}

/// Whether applying all of `toks` in order, each with success, can lead from
/// the stack `start` to the stack `end`.
pub open spec fn reaches(toks: Seq<Seq<char>>, start: Seq<Elt>, end: Seq<Elt>) -> bool
    decreases toks.len(),
{
    if toks.len() == 0 {
        end == start
    } else {
        exists|mid: Seq<Elt>|
            reaches(toks.drop_last(), start, mid) && #[trigger] applies(
                mid,
                toks.last(),
                end,
                Ok::<(), Error>(()),
            )
    }
}

/// One more token that succeeds extends a run.
proof fn lemma_reaches_next(
    toks: Seq<Seq<char>>,
    start: Seq<Elt>,
    mid: Seq<Elt>,
    end: Seq<Elt>,
)
    requires
        toks.len() > 0,
        reaches(toks.drop_last(), start, mid),
        applies(mid, toks.last(), end, Ok::<(), Error>(())),
    ensures
        reaches(toks, start, end),
{
}

/// Whether evaluating the tokens `toks` from the stack `start` can end in the
/// stack `end` with result `r`. Success means that every token succeeded; a
/// failure is that of the first token that failed, with the stack as that
/// token left it, and the tokens after it untouched.
pub open spec fn line_outcome(
    toks: Seq<Seq<char>>,
    start: Seq<Elt>,
    end: Seq<Elt>,
    r: Result<(), Error>,
) -> bool {
    match r {
        Ok(_) => r == Ok::<(), Error>(()) && reaches(toks, start, end),
        Err(_) => exists|k: int, mid: Seq<Elt>|
            0 <= k < toks.len() && (#[trigger] reaches(toks.take(k), start, mid)) && applies(
                mid,
                toks[k],
                end,
                r,
            ),
    }
}

/// Whether evaluating `toks` from `start` is sure to meet only defined
/// operations, whatever numbers are drawn on the way.
pub open spec fn line_defined(toks: Seq<Seq<char>>, start: Seq<Elt>) -> bool {
    forall|k: int, mid: Seq<Elt>|
        0 <= k < toks.len() && (#[trigger] reaches(toks.take(k), start, mid)) ==> token_defined(
            mid,
            toks[k],
        )
}

/// Whether evaluating `toks` from `start` can come to a token whose operation
/// is not defined, with the stack `end` at that moment.
pub open spec fn line_stuck(toks: Seq<Seq<char>>, start: Seq<Elt>, end: Seq<Elt>) -> bool {
    exists|k: int|
        0 <= k < toks.len() && (#[trigger] reaches(toks.take(k), start, end)) && !token_defined(
            end,
            toks[k],
        )
}

/// Whether the token can be applied to the stack as it is.
pub fn can_apply(stack: &Stack, tok: &Vec<char>) -> (b: bool)
    ensures
        b == token_defined(stack@, tok@),
{
    match read_token(tok) {
        Token::Operator(op) => stack.can_eval(op),
        _ => true,
    }
}

/// Applies one token to the stack.
pub fn apply_token(stack: &mut Stack, tok: &Vec<char>) -> (r: Result<(), Error>)
    requires
        token_defined(old(stack)@, tok@),
    ensures
        applies(old(stack)@, tok@, final(stack)@, r),
{
    match read_token(tok) {
        Token::Value(v) => stack.push(v),
        Token::Operator(op) => stack.eval(op),
        Token::Unknown => Err(Error::Syntax),
    }
}

/// Evaluates a line of input on the stack, token by token from left to
/// right, and stops at the first token that fails.
///
/// Returns `None`, with the stack as it was at that moment, on coming to an
/// operation that is not defined; else the result of the line.
pub fn try_evaluate_line(stack: &mut Stack, buf: &String) -> (r: Option<Result<(), Error>>)
    ensures
        match r {
            Some(res) => line_outcome(tokens(buf@), old(stack)@, final(stack)@, res),
            None => line_stuck(tokens(buf@), old(stack)@, final(stack)@),
        },
{
    let chars = chars_of(buf.as_str());
    let toks = split_tokens(&chars);
    let ghost all = tokens(buf@);
    let ghost start = stack@;
    let mut k: usize = 0;
    proof {
        assert(all.take(0) =~= Seq::<Seq<char>>::empty());
    }
    while k < toks.len()
        invariant
            k <= toks.len(),
            vec_views(toks@) == all,
            all == tokens(buf@),
            start == old(stack)@,
            reaches(all.take(k as int), start, stack@),
        decreases toks.len() - k,
    {
        let tok = &toks[k];
        let ghost mid = stack@;
        proof {
            assert(all[k as int] == tok@);
            assert(all.take(k + 1).drop_last() =~= all.take(k as int));
            assert(all.take(k + 1).last() == all[k as int]);
        }
        if !can_apply(stack, tok) {
            return None;
        }
        match apply_token(stack, tok) {
            Err(e) => {
                return Some(Err(e));
            },
            Ok(()) => {
                proof {
                    let next = all.take(k + 1);
                    assert(all.len() == toks@.len());
                    assert(next.len() == k + 1);
                    assert(reaches(next.drop_last(), start, mid));
                    assert(applies(mid, next.last(), stack@, Ok::<(), Error>(())));
                    lemma_reaches_next(next, start, mid, stack@);
                }
            },
        }
        k += 1;
    }
    proof {
        assert(all.take(k as int) =~= all);
    }
    Some(Ok(()))
}

/// Evaluates a line of input on the stack, token by token from left to
/// right, and stops at the first token that fails.
pub fn evaluate_line(stack: &mut Stack, buf: &String) -> (r: Result<(), Error>)
    requires
        line_defined(tokens(buf@), old(stack)@),
    ensures
        line_outcome(tokens(buf@), old(stack)@, final(stack)@, r),
{
    match try_evaluate_line(stack, buf) {
        Some(res) => res,
        None => vstd::pervasive::unreached(),
    }
}

/// One turn of a session: evaluates the line, then reads the top of the
/// stack, which is the value to show, without taking it off.
///
/// Returns `None` on coming to an operation that is not defined. An error,
/// which ends the session, is that of the line, or `Underflow` where the line
/// succeeded and left the stack empty.
pub fn respond(stack: &mut Stack, line: &String) -> (r: Option<Result<Elt, Error>>)
    ensures
        match r {
            None => line_stuck(tokens(line@), old(stack)@, final(stack)@),
            Some(Ok(top)) => line_outcome(
                tokens(line@),
                old(stack)@,
                final(stack)@,
                Ok::<(), Error>(()),
            ) && final(stack)@.len() > 0 && top == final(stack)@.last(),
            Some(Err(e)) => line_outcome(
                tokens(line@),
                old(stack)@,
                final(stack)@,
                Err::<(), Error>(e),
            ) || (line_outcome(tokens(line@), old(stack)@, final(stack)@, Ok::<(), Error>(()))
                && final(stack)@.len() == 0 && e is Underflow),
        },
{
    match try_evaluate_line(stack, line) {
        None => None,
        Some(Err(e)) => Some(Err(e)),
        Some(Ok(())) => Some(stack.peek()),
    }
}

/// Whether no character of `s` is white space.
pub open spec fn no_space(s: Seq<char>) -> bool {
    forall|i: int| 0 <= i < s.len() ==> !is_space(#[trigger] s[i])
}

/// Every token is a run of at least one character, none of them white space.
pub proof fn law_tokens_are_words(s: Seq<char>)
    ensures
        forall|k: int|
            0 <= k < tokens(s).len() ==> (#[trigger] tokens(s)[k]).len() > 0 && no_space(
                tokens(s)[k],
            ),
{
    lemma_scan_words(s);
}

proof fn lemma_scan_words(s: Seq<char>)
    ensures
        no_space(scan(s).1),
        forall|k: int|
            0 <= k < scan(s).0.len() ==> (#[trigger] scan(s).0[k]).len() > 0 && no_space(
                scan(s).0[k],
            ),
    decreases s.len(),
{
    if s.len() > 0 {
        lemma_scan_words(s.drop_last());
    }
}

/// A line without white space that is not empty is one token: itself.
pub proof fn law_one_word(s: Seq<char>)
    requires
        s.len() > 0,
        no_space(s),
    ensures
        tokens(s) == seq![s],
{
    lemma_scan_word(s);
    assert(tokens(s) =~= seq![s]);
}

proof fn lemma_scan_word(s: Seq<char>)
    requires
        no_space(s),
    ensures
        scan(s) == (Seq::<Seq<char>>::empty(), s),
    decreases s.len(),
{
    if s.len() == 0 {
        assert(s =~= Seq::<char>::empty());
    } else {
        let head = s.drop_last();
        assert forall|i: int| 0 <= i < head.len() implies !is_space(#[trigger] head[i]) by {
            assert(head[i] == s[i]);
        }
        lemma_scan_word(head);
        assert(!is_space(s[s.len() - 1]));
        assert(head.push(s.last()) =~= s);
    }
}

/// A line is sure to meet only defined operations where none of its tokens is
/// `+`, `~` or `#`.
pub proof fn law_plain_line_defined(toks: Seq<Seq<char>>, start: Seq<Elt>)
    requires
        forall|k: int|
            0 <= k < toks.len() ==> !(#[trigger] classify(toks[k]) matches Token::Operator(op)
                && (op is Add || op is Neg || op is Rand)),
    ensures
        line_defined(toks, start),
{
    assert forall|k: int, mid: Seq<Elt>|
        0 <= k < toks.len() && (#[trigger] reaches(toks.take(k), start, mid)) implies token_defined(
        mid,
        toks[k],
    ) by {
        let t = classify(toks[k]);
    }
}

/// The line `quit` has a defined outcome on every stack: it fails with
/// `Quit` and leaves the stack as it was.
pub proof fn law_quit_line(line: Seq<char>, start: Seq<Elt>, end: Seq<Elt>, r: Result<(), Error>)
    requires
        line == "quit"@,
    ensures
        line_defined(tokens(line), start),
        line_outcome(tokens(line), start, end, r) ==> r == Err::<(), Error>(Error::Quit) && end
            == start,
{
    lemma_quit_word(line);
    let toks = tokens(line);
    assert(toks.take(0) =~= Seq::<Seq<char>>::empty());
    assert(toks.drop_last() =~= Seq::<Seq<char>>::empty());
    assert(classify(toks[0]) == Token::Operator(Op::Quit));
    law_plain_line_defined(toks, start);
}

proof fn lemma_quit_word(line: Seq<char>)
    requires
        line == "quit"@,
    ensures
        tokens(line) == seq![line],
        classify(line) == Token::Operator(Op::Quit),
{
    reveal_strlit("quit");
    reveal_strlit("true");
    reveal_strlit("false");
    reveal_strlit("+");
    reveal_strlit("~");
    reveal_strlit("<->");
    reveal_strlit("=");
    reveal_strlit("#");
    assert(!is_digit(line[0]));
    assert(line[0] == 'q' && line[1] == 'u' && line[2] == 'i' && line[3] == 't');
    law_one_word(line);
}

/// A line whose first token is unknown fails with `Syntax` and leaves the
/// stack as it was, whatever follows the token.
pub proof fn law_unknown_token(
    toks: Seq<Seq<char>>,
    start: Seq<Elt>,
    end: Seq<Elt>,
    r: Result<(), Error>,
)
    requires
        toks.len() > 0,
        classify(toks[0]) is Unknown,
        line_outcome(toks, start, end, r),
    ensures
        r == Err::<(), Error>(Error::Syntax),
        end == start,
{
    lemma_stops_at_unknown(toks, toks.len() as int, start, end);
    if r is Err {
        let (k, mid) = choose|k: int, mid: Seq<Elt>|
            0 <= k < toks.len() && (#[trigger] reaches(toks.take(k), start, mid)) && applies(
                mid,
                toks[k],
                end,
                r,
            );
        if k > 0 {
            lemma_stops_at_unknown(toks, k, start, mid);
        } else {
            assert(toks.take(0) =~= Seq::<Seq<char>>::empty());
        }
    } else {
        assert(toks.take(toks.len() as int) =~= toks);
    }
}

/// No run of one or more tokens gets past an unknown first token.
proof fn lemma_stops_at_unknown(toks: Seq<Seq<char>>, k: int, start: Seq<Elt>, end: Seq<Elt>)
    requires
        0 < k <= toks.len(),
        classify(toks[0]) is Unknown,
    ensures
        !reaches(toks.take(k), start, end),
    decreases k,
{
    let run = toks.take(k);
    if reaches(run, start, end) {
        let mid = choose|mid: Seq<Elt>|
            reaches(run.drop_last(), start, mid) && #[trigger] applies(
                mid,
                run.last(),
                end,
                Ok::<(), Error>(()),
            );
        if k == 1 {
            assert(run.last() == toks[0]);
        } else {
            assert(run.drop_last() =~= toks.take(k - 1));
            lemma_stops_at_unknown(toks, k - 1, start, mid);
        }
    }
}

/// An element as it is written out is one token, and that token reads back
/// as a literal for the same element.
pub proof fn law_shown_reads_back(e: Elt)
    ensures
        tokens(shown(e)) == seq![shown(e)],
        classify(shown(e)) == Token::Value(e),
{
    let text = shown(e);
    match e {
        Elt::Bool(b) => {
            reveal_strlit("true");
            reveal_strlit("false");
            assert(!is_digit(text[0]));
            assert(int_literal(text) is None);
            assert(no_space(text)) by {
                assert forall|i: int| 0 <= i < text.len() implies !is_space(#[trigger] text[i]) by {
                    if b {
                        assert(text[i] == 't' || text[i] == 'r' || text[i] == 'u' || text[i]
                            == 'e');
                    } else {
                        assert(text[i] == 'f' || text[i] == 'a' || text[i] == 'l' || text[i] == 's'
                            || text[i] == 'e');
                    }
                }
            }
        },
        Elt::Int(i) => {
            let magnitude = if i < 0 {
                (-i) as nat
            } else {
                i as nat
            };
            let digits = decimal(magnitude);
            law_decimal_reads_back(magnitude);
            assert(is_digit(digits[0]));
            if i < 0 {
                assert(text.skip(1) =~= digits);
                assert(text[0] == '-');
            } else {
                assert(text == digits);
            }
            assert(int_literal(text) == Some(i));
            assert(no_space(text)) by {
                assert forall|k: int| 0 <= k < text.len() implies !is_space(#[trigger] text[k]) by {
                    if i < 0 && k > 0 {
                        assert(text[k] == digits[k - 1]);
                        assert(is_digit(digits[k - 1]));
                    } else if i >= 0 {
                        assert(is_digit(digits[k]));
                    }
                }
            }
        },
    }
    law_one_word(text);
}

/// Whether none of the tokens is `#`, so that nothing is drawn.
pub open spec fn draws_nothing(toks: Seq<Seq<char>>) -> bool {
    forall|k: int| 0 <= k < toks.len() ==> #[trigger] classify(toks[k]) != Token::Operator(Op::Rand)
}

/// A token other than `#` has one outcome only.
proof fn lemma_applies_once(
    before: Seq<Elt>,
    tok: Seq<char>,
    one: Seq<Elt>,
    r1: Result<(), Error>,
    two: Seq<Elt>,
    r2: Result<(), Error>,
)
    requires
        classify(tok) != Token::Operator(Op::Rand),
        applies(before, tok, one, r1),
        applies(before, tok, two, r2),
    ensures
        one == two,
        r1 == r2,
{
}

/// A run over some tokens passes over each shorter run of them.
proof fn lemma_reaches_before(toks: Seq<Seq<char>>, k: int, start: Seq<Elt>, end: Seq<Elt>)
    requires
        0 <= k <= toks.len(),
        reaches(toks, start, end),
    ensures
        exists|mid: Seq<Elt>| #[trigger] reaches(toks.take(k), start, mid),
    decreases toks.len(),
{
    if k == toks.len() {
        assert(toks.take(k) =~= toks);
    } else {
        let mid = choose|mid: Seq<Elt>|
            reaches(toks.drop_last(), start, mid) && #[trigger] applies(
                mid,
                toks.last(),
                end,
                Ok::<(), Error>(()),
            );
        lemma_reaches_before(toks.drop_last(), k, start, mid);
        assert(toks.drop_last().take(k) =~= toks.take(k));
    }
}

/// Runs over tokens that draw nothing end in one and the same stack.
proof fn lemma_reaches_once(toks: Seq<Seq<char>>, start: Seq<Elt>, one: Seq<Elt>, two: Seq<Elt>)
    requires
        draws_nothing(toks),
        reaches(toks, start, one),
        reaches(toks, start, two),
    ensures
        one == two,
    decreases toks.len(),
{
    if toks.len() > 0 {
        let head = toks.drop_last();
        let mid1 = choose|mid: Seq<Elt>|
            reaches(head, start, mid) && #[trigger] applies(
                mid,
                toks.last(),
                one,
                Ok::<(), Error>(()),
            );
        let mid2 = choose|mid: Seq<Elt>|
            reaches(head, start, mid) && #[trigger] applies(
                mid,
                toks.last(),
                two,
                Ok::<(), Error>(()),
            );
        assert forall|k: int| 0 <= k < head.len() implies #[trigger] classify(head[k])
            != Token::Operator(Op::Rand) by {
            assert(head[k] == toks[k]);
        }
        lemma_reaches_once(head, start, mid1, mid2);
        assert(classify(toks[toks.len() - 1]) != Token::Operator(Op::Rand));
        lemma_applies_once(
            mid1,
            toks.last(),
            one,
            Ok::<(), Error>(()),
            two,
            Ok::<(), Error>(()),
        );
    }
}

/// The first `k` of tokens that draw nothing draw nothing.
proof fn lemma_draws_nothing_before(toks: Seq<Seq<char>>, k: int)
    requires
        draws_nothing(toks),
        0 <= k <= toks.len(),
    ensures
        draws_nothing(toks.take(k)),
{
    assert forall|j: int| 0 <= j < toks.take(k).len() implies #[trigger] classify(toks.take(k)[j])
        != Token::Operator(Op::Rand) by {
        assert(toks.take(k)[j] == toks[j]);
    }
}

/// A run that ends in failure at token `k`, with the stack as that token
/// found it.
proof fn lemma_failure_place(
    toks: Seq<Seq<char>>,
    start: Seq<Elt>,
    end: Seq<Elt>,
    r: Result<(), Error>,
) -> (place: (int, Seq<Elt>))
    requires
        r is Err,
        line_outcome(toks, start, end, r),
    ensures
        0 <= place.0 < toks.len(),
        reaches(toks.take(place.0), start, place.1),
        applies(place.1, toks[place.0], end, r),
{
    choose|k: int, mid: Seq<Elt>|
        0 <= k < toks.len() && (#[trigger] reaches(toks.take(k), start, mid)) && applies(
            mid,
            toks[k],
            end,
            r,
        )
}

/// A run that has failed at token `k` cannot have passed it.
proof fn lemma_failed_stays_failed(
    toks: Seq<Seq<char>>,
    k: int,
    start: Seq<Elt>,
    mid: Seq<Elt>,
    end: Seq<Elt>,
    r: Result<(), Error>,
    n: int,
    later: Seq<Elt>,
)
    requires
        draws_nothing(toks),
        0 <= k < n <= toks.len(),
        r is Err,
        reaches(toks.take(k), start, mid),
        applies(mid, toks[k], end, r),
    ensures
        !reaches(toks.take(n), start, later),
{
    let run = toks.take(n);
    if reaches(run, start, later) {
        lemma_reaches_before(run, k + 1, start, later);
        let after = choose|after: Seq<Elt>| #[trigger] reaches(run.take(k + 1), start, after);
        assert(run.take(k + 1) =~= toks.take(k + 1));
        let step = toks.take(k + 1);
        let found = choose|found: Seq<Elt>|
            reaches(step.drop_last(), start, found) && #[trigger] applies(
                found,
                step.last(),
                after,
                Ok::<(), Error>(()),
            );
        assert(step.drop_last() =~= toks.take(k));
        assert(step.last() == toks[k]);
        lemma_draws_nothing_before(toks, k);
        lemma_reaches_once(toks.take(k), start, mid, found);
        assert(classify(toks[k]) != Token::Operator(Op::Rand));
        lemma_applies_once(mid, toks[k], end, r, after, Ok::<(), Error>(()));
    }
}

/// A line that draws nothing has one outcome only: the same tokens on the
/// same stack always end in the same result, with the same stack.
pub proof fn law_line_has_one_outcome(
    toks: Seq<Seq<char>>,
    start: Seq<Elt>,
    end1: Seq<Elt>,
    r1: Result<(), Error>,
    end2: Seq<Elt>,
    r2: Result<(), Error>,
)
    requires
        draws_nothing(toks),
        line_outcome(toks, start, end1, r1),
        line_outcome(toks, start, end2, r2),
    ensures
        end1 == end2,
        r1 == r2,
{
    let n = toks.len() as int;
    assert(toks.take(n) =~= toks);
    if r1 is Ok && r2 is Ok {
        lemma_reaches_once(toks, start, end1, end2);
        assert(r1 == Ok::<(), Error>(()));
        assert(r2 == Ok::<(), Error>(()));
    } else if r1 is Err && r2 is Err {
        let (k1, mid1) = lemma_failure_place(toks, start, end1, r1);
        let (k2, mid2) = lemma_failure_place(toks, start, end2, r2);
        if k1 < k2 {
            lemma_failed_stays_failed(toks, k1, start, mid1, end1, r1, k2, mid2);
        } else if k2 < k1 {
            lemma_failed_stays_failed(toks, k2, start, mid2, end2, r2, k1, mid1);
        } else {
            lemma_draws_nothing_before(toks, k1);
            lemma_reaches_once(toks.take(k1), start, mid1, mid2);
            assert(classify(toks[k1]) != Token::Operator(Op::Rand));
            lemma_applies_once(mid1, toks[k1], end1, r1, end2, r2);
        }
    } else if r1 is Err {
        let (k1, mid1) = lemma_failure_place(toks, start, end1, r1);
        lemma_failed_stays_failed(toks, k1, start, mid1, end1, r1, n, end2);
    } else {
        let (k2, mid2) = lemma_failure_place(toks, start, end2, r2);
        lemma_failed_stays_failed(toks, k2, start, mid2, end2, r2, n, end1);
    }
}

} // verus!
