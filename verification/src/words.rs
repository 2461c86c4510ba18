//! Small routines on words: counting letters, reversing, palindromes,
//! letter rotation and rearrangements.

use crate::numbers::factorial_of;
use crate::text::{chars_of, string_of, string_views, vec_views};
use vstd::multiset::Multiset;
use vstd::prelude::*;

verus! {

/// Whether `c` has the Unicode property `Alphabetic`, as `char::is_alphabetic`
/// tells it.
pub uninterp spec fn alphabetic(c: char) -> bool;

/// Whether `c` is alphabetic or numeric in the sense of Unicode, as
/// `char::is_alphanumeric` tells it.
pub uninterp spec fn alphanumeric(c: char) -> bool;

/// `char::is_alphabetic` looks the character up in the tables of the Unicode
/// property `Alphabetic`; its answer depends on the character alone.
pub assume_specification[ char::is_alphabetic ](c: char) -> (b: bool)
    ensures
        b == alphabetic(c),
;

/// `char::is_alphanumeric` looks the character up in the tables of the Unicode
/// properties `Alphabetic` and `Nd`, `Nl`, `No`; its answer depends on the
/// character alone.
pub assume_specification[ char::is_alphanumeric ](c: char) -> (b: bool)
    ensures
        b == alphanumeric(c),
;

/// Whether `c` is one of the five lower-case vowels.
pub open spec fn is_vowel(c: char) -> bool {
    c == 'a' || c == 'e' || c == 'i' || c == 'o' || c == 'u'
}

/// The number of vowels in `s`.
pub open spec fn vowels_in(s: Seq<char>) -> nat
    decreases s.len(),
{
    if s.len() == 0 {
        0
    } else {
        vowels_in(s.drop_last()) + if is_vowel(s.last()) {
            1nat
        } else {
            0nat
        }
    }
}

/// The length of the run of alphabetic characters that `s` starts with.
pub open spec fn letters_run(s: Seq<char>) -> nat
    decreases s.len(),
{
    if s.len() == 0 || !alphabetic(s[0]) {
        0
    } else {
        1 + letters_run(s.drop_first())
    }
}

/// A run of letters that ends at `k`, at the end of `s` or before a character
/// that is no letter, is the run that `s` starts with.
proof fn lemma_letters_run(s: Seq<char>, k: int)
    requires
        0 <= k <= s.len(),
        forall|j: int| 0 <= j < k ==> alphabetic(#[trigger] s[j]),
        k == s.len() || !alphabetic(s[k]),
    ensures
        letters_run(s) == k,
    decreases k,
{
    if k > 0 {
        let rest = s.drop_first();
        assert(alphabetic(s[0]));
        assert forall|j: int| 0 <= j < k - 1 implies alphabetic(#[trigger] rest[j]) by {
            assert(rest[j] == s[j + 1]);
        }
        if k < s.len() {
            assert(rest[k - 1] == s[k]);
        }
        lemma_letters_run(rest, k - 1);
    }
}

/// Counts the vowels and the consonants in the letters that `s` starts with:
/// counting stops at the first character that is not alphabetic. A vowel is
/// one of `a`, `e`, `i`, `o`, `u`; every other letter counts as a consonant.
pub fn count_vow_cons(s: &str) -> (counts: (usize, usize))
    ensures
        counts.0 == vowels_in(s@.take(letters_run(s@) as int)),
        counts.0 + counts.1 == letters_run(s@),
{
    let chars = chars_of(s);
    let mut v_count: usize = 0;
    let mut c_count: usize = 0;
    let mut i: usize = 0;
    assert(chars@.take(0) =~= Seq::<char>::empty());
    while i < chars.len()
        invariant
            i <= chars.len(),
            chars@ == s@,
            forall|j: int| 0 <= j < i ==> alphabetic(#[trigger] chars@[j]),
            v_count == vowels_in(chars@.take(i as int)),
            v_count + c_count == i,
        decreases chars.len() - i,
    {
        let c = chars[i];
        if !c.is_alphabetic() {
            proof {
                lemma_letters_run(chars@, i as int);
            }
            return (v_count, c_count);
        }
        proof {
            assert(chars@.take(i + 1).drop_last() =~= chars@.take(i as int));
        }
        if c == 'a' || c == 'e' || c == 'i' || c == 'o' || c == 'u' {
            v_count += 1;
        } else {
            c_count += 1;
        }
        i += 1;
    }
    proof {
        lemma_letters_run(chars@, i as int);
    }
    (v_count, c_count)
}

/// Writes a string backwards.
pub fn backwards_string(s: String) -> (r: String)
    ensures
        r@ == s@.reverse(),
{
    let chars = chars_of(s.as_str());
    let n = chars.len();
    let mut out: Vec<char> = Vec::new();
    let mut i: usize = n;
    while i > 0
        invariant
            i <= n,
            n == chars.len(),
            out.len() == n - i,
            forall|j: int| 0 <= j < out.len() ==> #[trigger] out@[j] == chars@[n - 1 - j],
        decreases i,
    {
        i -= 1;
        out.push(chars[i]);
    }
    assert(out@ =~= chars@.reverse());
    string_of(&out)
}

/// The characters of `s` that are alphabetic or numeric, in order.
pub open spec fn letters_and_digits(s: Seq<char>) -> Seq<char> {
    s.filter(|c: char| alphanumeric(c))
}

/// Checks whether a string is a palindrome: whether its alphabetic and
/// numeric characters read the same in both directions. Case counts.
pub fn check_palindrome(s: &str) -> (b: bool)
    ensures
        b == (letters_and_digits(s@) == letters_and_digits(s@).reverse()),
{
    let chars = chars_of(s);
    let mut kept: Vec<char> = Vec::new();
    let mut i: usize = 0;
    proof {
        reveal(Seq::filter);
        assert(chars@.take(0) =~= Seq::<char>::empty());
    }
    while i < chars.len()
        invariant
            i <= chars.len(),
            kept@ == letters_and_digits(chars@.take(i as int)),
        decreases chars.len() - i,
    {
        let c = chars[i];
        proof {
            reveal(Seq::filter);
            assert(chars@.take(i + 1).drop_last() =~= chars@.take(i as int));
        }
        if c.is_alphanumeric() {
            kept.push(c);
        }
        i += 1;
    }
    assert(chars@.take(i as int) =~= chars@);
    let n = kept.len();
    let mut k: usize = 0;
    while k < n
        invariant
            k <= n,
            n == kept.len(),
            kept@ == letters_and_digits(s@),
            forall|j: int| 0 <= j < k ==> #[trigger] kept@[j] == kept@[n - 1 - j],
        decreases n - k,
    {
        if kept[k] != kept[n - 1 - k] {
            assert(kept@.reverse()[k as int] != kept@[k as int]);
            return false;
        }
        k += 1;
    }
    assert(kept@ =~= kept@.reverse());
    true
}

/// The letter thirteen places on in the alphabet, going round from `z` to
/// `a`; a character that is not one of the 52 letters `A` to `Z`, `a` to `z`
/// stays as it is.
pub open spec fn rot13_of(c: char) -> char {
    if ('A' <= c <= 'M') || ('a' <= c <= 'm') {
        ((c as u8) + 13) as char
    } else if ('N' <= c <= 'Z') || ('n' <= c <= 'z') {
        ((c as u8) - 13) as char
    } else {
        c
    }
}

/// Rotates every letter of `text` by thirteen places.
pub fn rot13(text: &str) -> (r: String)
    ensures
        r@ == text@.map_values(|c: char| rot13_of(c)),
{
    let chars = chars_of(text);
    let mut out: Vec<char> = Vec::new();
    let mut i: usize = 0;
    while i < chars.len()
        invariant
            i <= chars.len(),
            out.len() == i,
            forall|j: int| 0 <= j < i ==> out@[j] == rot13_of(chars@[j]),
        decreases chars.len() - i,
    {
        let c = chars[i];
        let turned = if ('A' <= c && c <= 'M') || ('a' <= c && c <= 'm') {
            (c as u8 + 13) as char
        } else if ('N' <= c && c <= 'Z') || ('n' <= c && c <= 'z') {
            (c as u8 - 13) as char
        } else {
            c
        };
        out.push(turned);
        i += 1;
    }
    assert(out@ =~= chars@.map_values(|c: char| rot13_of(c)));
    string_of(&out)
}

/// Rotating twice gives the character back.
pub proof fn law_rot13_twice(c: char)
    ensures
        rot13_of(rot13_of(c)) == c,
{
}

/// The number of bytes that `c` takes in UTF-8.
pub open spec fn utf8_len(c: char) -> nat {
    let u = c as u32;
    if u < 0x80 {
        1
    } else if u < 0x800 {
        2
    } else if u < 0x10000 {
        3
    } else {
        4
    }
}

/// The number of bytes that `s` takes in UTF-8.
pub open spec fn byte_len(s: Seq<char>) -> nat
    decreases s.len(),
{
    if s.len() == 0 {
        0
    } else {
        byte_len(s.drop_last()) + utf8_len(s.last())
    }
}

/// The word `w` with `c` put in before its character number `i`, or at its
/// end where `w` has no more than `i` characters.
pub open spec fn with_char_at(w: Seq<char>, i: int, c: char) -> Seq<char> {
    let k = if i < w.len() {
        i
    } else {
        w.len() as int
    };
    w.take(k).push(c) + w.skip(k)
}

/// The words had from `w` by putting `c` in at each place from 0 up to the
/// length of `w` in bytes. For a word of one-byte characters these are all
/// the places there are, each once; a longer character in `w` adds a copy of
/// the word that ends in `c` for each byte it has beyond the first.
pub open spec fn insertions(w: Seq<char>, c: char) -> Seq<Seq<char>> {
    Seq::new(byte_len(w) + 1, |i: int| with_char_at(w, i, c))
}

/// The insertions of `c` into each of the words `combs`, word after word.
pub open spec fn spread(c: char, combs: Seq<Seq<char>>) -> Seq<Seq<char>>
    decreases combs.len(),
{
    if combs.len() == 0 {
        Seq::empty()
    } else {
        spread(c, combs.drop_last()) + insertions(combs.last(), c)
    }
}

/// The rearrangements of `w`: those of `w` without its first character, with
/// that character put in at every place.
pub open spec fn scrambles(w: Seq<char>) -> Seq<Seq<char>>
    decreases w.len(),
{
    if w.len() == 0 {
        seq![w]
    } else {
        spread(w[0], scrambles(w.drop_first()))
    }
}

/// Counts the bytes that the characters take in UTF-8.
fn count_bytes(w: &Vec<char>) -> (n: u128)
    ensures
        n == byte_len(w@),
        n <= 4 * w.len(),
{
    let mut n: u128 = 0;
    let mut i: usize = 0;
    assert(w@.take(0) =~= Seq::<char>::empty());
    while i < w.len()
        invariant
            i <= w.len(),
            n == byte_len(w@.take(i as int)),
            n <= 4 * i,
        decreases w.len() - i,
    {
        let u = w[i] as u32;
        let width: u128 = if u < 0x80 {
            1
        } else if u < 0x800 {
            2
        } else if u < 0x10000 {
            3
        } else {
            4
        };
        proof {
            assert(w@.take(i + 1).drop_last() =~= w@.take(i as int));
        }
        n = n + width;
        i += 1;
    }
    assert(w@.take(i as int) =~= w@);
    n
}

/// Puts `c` into `w` before its character number `k`.
fn insert_at(w: &Vec<char>, k: usize, c: char) -> (out: Vec<char>)
    requires
        k <= w.len(),
    ensures
        out@ == w@.take(k as int).push(c) + w@.skip(k as int),
{
    let mut out: Vec<char> = Vec::new();
    let mut i: usize = 0;
    while i < k
        invariant
            i <= k <= w.len(),
            out@ == w@.take(i as int),
        decreases k - i,
    {
        out.push(w[i]);
        assert(out@ =~= w@.take(i + 1));
        i += 1;
    }
    out.push(c);
    while i < w.len()
        invariant
            k <= i <= w.len(),
            out@ == w@.take(k as int).push(c) + w@.subrange(k as int, i as int),
        decreases w.len() - i,
    {
        out.push(w[i]);
        assert(out@ =~= w@.take(k as int).push(c) + w@.subrange(k as int, i + 1));
        i += 1;
    }
    assert(w@.subrange(k as int, i as int) =~= w@.skip(k as int));
    out
}

/// The rearrangements of the characters of `w` from number `from` on.
fn scramble_from(w: &Vec<char>, from: usize) -> (out: Vec<Vec<char>>)
    requires
        from <= w.len(),
    ensures
        vec_views(out@) == scrambles(w@.skip(from as int)),
    decreases w.len() - from,
{
    if from == w.len() {
        let mut out: Vec<Vec<char>> = Vec::new();
        out.push(Vec::new());
        assert(vec_views(out@) =~= seq![Seq::<char>::empty()]);
        assert(w@.skip(from as int) =~= Seq::<char>::empty());
        return out;
    }
    let first_letter = w[from];
    let combinations = scramble_from(w, from + 1);
    let ghost word = w@.skip(from as int);
    let ghost combs = scrambles(word.drop_first());
    proof {
        assert(word.drop_first() =~= w@.skip(from + 1));
        assert(word[0] == first_letter);
    }
    let mut new_combinations: Vec<Vec<char>> = Vec::new();
    let mut j: usize = 0;
    proof {
        assert(combs.take(0) =~= Seq::<Seq<char>>::empty());
        assert(vec_views(new_combinations@) =~= Seq::<Seq<char>>::empty());
    }
    while j < combinations.len()
        invariant
            j <= combinations.len(),
            vec_views(combinations@) == combs,
            vec_views(new_combinations@) == spread(first_letter, combs.take(j as int)),
        decreases combinations.len() - j,
    {
        let comb = &combinations[j];
        let places = count_bytes(comb);
        let ghost before = vec_views(new_combinations@);
        proof {
            assert(combs[j as int] == comb@);
            assert(combs.take(j + 1).drop_last() =~= combs.take(j as int));
            assert(combs.take(j + 1).last() == comb@);
        }
        let mut i: u128 = 0;
        while i <= places
            invariant
                i <= places + 1,
                places == byte_len(comb@),
                places <= 4 * comb.len(),
                vec_views(new_combinations@) == before + insertions(comb@, first_letter).take(
                    i as int,
                ),
            decreases places + 1 - i,
        {
            let k: usize = if i < comb.len() as u128 {
                i as usize
            } else {
                comb.len()
            };
            let ghost so_far = new_combinations@;
            let word_i = insert_at(comb, k, first_letter);
            new_combinations.push(word_i);
            proof {
                let all = insertions(comb@, first_letter);
                assert(all[i as int] == with_char_at(comb@, i as int, first_letter));
                assert(all.take(i + 1) =~= all.take(i as int).push(all[i as int]));
                assert(vec_views(new_combinations@) =~= vec_views(so_far).push(word_i@));
                assert(before + all.take(i + 1) =~= (before + all.take(i as int)).push(
                    all[i as int],
                ));
            }
            i += 1;
        }
        proof {
            let all = insertions(comb@, first_letter);
            assert(all.take(i as int) =~= all);
        }
        j += 1;
    }
    proof {
        assert(combs.take(j as int) =~= combs);
    }
    new_combinations
}

/// Lists the rearrangements of a word: the first character put in at every
/// place of every rearrangement of the rest. A word of `n` one-byte
/// characters has `n!` of them; equal characters give equal words more than
/// once.
pub fn word_scramble(w: String) -> (out: Vec<String>)
    ensures
        string_views(out@) == scrambles(w@),
{
    let chars = chars_of(w.as_str());
    let words = scramble_from(&chars, 0);
    assert(chars@.skip(0) =~= chars@);
    let mut out: Vec<String> = Vec::new();
    let mut i: usize = 0;
    while i < words.len()
        invariant
            i <= words.len(),
            out.len() == i,
            forall|j: int| 0 <= j < i ==> (#[trigger] out@[j])@ == words@[j]@,
        decreases words.len() - i,
    {
        out.push(string_of(&words[i]));
        i += 1;
    }
    assert(string_views(out@) =~= vec_views(words@));
    out
}

/// Whether every character of `s` takes one byte in UTF-8.
pub open spec fn one_byte_each(s: Seq<char>) -> bool {
    forall|i: int| 0 <= i < s.len() ==> utf8_len(#[trigger] s[i]) == 1
}

proof fn lemma_byte_len_plain(s: Seq<char>)
    requires
        one_byte_each(s),
    ensures
        byte_len(s) == s.len(),
    decreases s.len(),
{
    if s.len() > 0 {
        assert forall|i: int| 0 <= i < s.drop_last().len() implies utf8_len(
            #[trigger] s.drop_last()[i],
        ) == 1 by {
            assert(s.drop_last()[i] == s[i]);
        }
        lemma_byte_len_plain(s.drop_last());
        assert(utf8_len(s[s.len() - 1]) == 1);
    }
}

/// Putting a character into a word makes it one longer, and a permutation of
/// the word with that character added.
proof fn lemma_with_char_at(w: Seq<char>, i: int, c: char)
    requires
        0 <= i,
    ensures
        with_char_at(w, i, c).len() == w.len() + 1,
        with_char_at(w, i, c).to_multiset() == w.to_multiset().insert(c),
        one_byte_each(w) && utf8_len(c) == 1 ==> one_byte_each(with_char_at(w, i, c)),
{
    let k = if i < w.len() {
        i
    } else {
        w.len() as int
    };
    let left = w.take(k);
    let right = w.skip(k);
    let out = with_char_at(w, i, c);
    assert(left + right =~= w);
    vstd::seq_lib::lemma_multiset_commutative(left, right);
    vstd::seq_lib::lemma_multiset_commutative(left.push(c), right);
    left.to_multiset_ensures();
    assert(left.push(c).to_multiset() =~= left.to_multiset().insert(c));
    assert(out.to_multiset() =~= w.to_multiset().insert(c));
    if one_byte_each(w) && utf8_len(c) == 1 {
        assert forall|j: int| 0 <= j < out.len() implies utf8_len(#[trigger] out[j]) == 1 by {
            if j < k {
                assert(out[j] == w[j]);
            } else if j > k {
                assert(out[j] == w[j - 1]);
            }
        }
    }
}

proof fn lemma_spread(c: char, combs: Seq<Seq<char>>, word: Seq<char>)
    requires
        forall|k: int|
            0 <= k < combs.len() ==> (#[trigger] combs[k]).to_multiset() == word.to_multiset(),
    ensures
        forall|k: int|
            0 <= k < spread(c, combs).len() ==> (#[trigger] spread(c, combs)[k]).to_multiset()
                == word.to_multiset().insert(c),
        one_byte_each(word) && utf8_len(c) == 1 ==> spread(c, combs).len() == combs.len() * (
        word.len() + 1),
    decreases combs.len(),
{
    if combs.len() > 0 {
        let head = combs.drop_last();
        let last = combs.last();
        lemma_spread(c, head, word);
        let more = insertions(last, c);
        assert(last.to_multiset() == word.to_multiset());
        assert forall|k: int| 0 <= k < spread(c, combs).len() implies (#[trigger] spread(
            c,
            combs,
        )[k]).to_multiset() == word.to_multiset().insert(c) by {
            if k >= spread(c, head).len() {
                let i = k - spread(c, head).len();
                assert(spread(c, combs)[k] == more[i]);
                lemma_with_char_at(last, i, c);
            } else {
                assert(spread(c, combs)[k] == spread(c, head)[k]);
            }
        }
        if one_byte_each(word) && utf8_len(c) == 1 {
            lemma_same_letters_same_bytes(last, word);
            lemma_byte_len_plain(word);
            assert(more.len() == word.len() + 1);
            assert(spread(c, combs).len() == combs.len() * (word.len() + 1)) by (nonlinear_arith)
                requires
                    spread(c, combs).len() == head.len() * (word.len() + 1) + (word.len() + 1),
                    combs.len() == head.len() + 1,
            ;
        }
    } else {
        assert(combs.len() * (word.len() + 1) == 0) by (nonlinear_arith)
            requires
                combs.len() == 0,
        ;
    }
}

/// Two words with the same letters, each as often, take the same number of
/// bytes.
proof fn lemma_same_letters_same_bytes(a: Seq<char>, b: Seq<char>)
    requires
        a.to_multiset() == b.to_multiset(),
    ensures
        byte_len(a) == byte_len(b),
        a.len() == b.len(),
    decreases a.len(),
{
    a.to_multiset_ensures();
    b.to_multiset_ensures();
    if a.len() == 0 {
        assert(b.len() == 0);
    } else {
        let x = a.last();
        assert(a.to_multiset().count(x) > 0) by {
            assert(a.contains(x));
        }
        assert(b.contains(x));
        let i = choose|i: int| 0 <= i < b.len() && b[i] == x;
        let rest = b.remove(i);
        assert(a.drop_last().push(x) =~= a);
        assert(a.drop_last().to_multiset().insert(x) =~= a.to_multiset()) by {
            a.drop_last().to_multiset_ensures();
        }
        assert(rest.to_multiset() =~= b.to_multiset().remove(x));
        assert(a.drop_last().to_multiset() =~= a.to_multiset().remove(x));
        lemma_same_letters_same_bytes(a.drop_last(), rest);
        lemma_byte_len_remove(b, i);
    }
}

proof fn lemma_byte_len_remove(b: Seq<char>, i: int)
    requires
        0 <= i < b.len(),
    ensures
        byte_len(b) == byte_len(b.remove(i)) + utf8_len(b[i]),
    decreases b.len(),
{
    if i == b.len() - 1 {
        assert(b.remove(i) =~= b.drop_last());
    } else {
        lemma_byte_len_remove(b.drop_last(), i);
        assert(b.remove(i).drop_last() =~= b.drop_last().remove(i));
        assert(b.remove(i).last() == b.last());
    }
}

/// Every rearrangement of a word is a permutation of it: it has the same
/// letters, each as often. A word of `n` one-byte characters has `n!`
/// rearrangements.
pub proof fn law_scrambles_permute(w: Seq<char>)
    ensures
        forall|k: int|
            0 <= k < scrambles(w).len() ==> (#[trigger] scrambles(w)[k]).to_multiset()
                == w.to_multiset(),
        one_byte_each(w) ==> scrambles(w).len() == factorial_of(w.len()),
    decreases w.len(),
{
    if w.len() > 0 {
        let rest = w.drop_first();
        law_scrambles_permute(rest);
        lemma_spread(w[0], scrambles(rest), rest);
        assert(seq![w[0]] + rest =~= w);
        vstd::seq_lib::lemma_multiset_commutative(seq![w[0]], rest);
        assert(seq![w[0]].to_multiset() =~= Multiset::<char>::empty().insert(w[0])) by {
            Seq::<char>::empty().to_multiset_ensures();
            assert(Seq::<char>::empty().push(w[0]) =~= seq![w[0]]);
        }
        assert(rest.to_multiset().insert(w[0]) =~= w.to_multiset());
        if one_byte_each(w) {
            assert forall|i: int| 0 <= i < rest.len() implies utf8_len(#[trigger] rest[i])
                == 1 by {
                assert(rest[i] == w[i + 1]);
            }
            assert(utf8_len(w[0]) == 1);
            assert(factorial_of(rest.len()) * (rest.len() + 1) == factorial_of(w.len()))
                by (nonlinear_arith)
                requires
                    factorial_of(w.len()) == w.len() * factorial_of(rest.len()),
                    w.len() == rest.len() + 1,
            ;
        }
    } else {
        assert(w =~= Seq::<char>::empty());
    }
}

} // verus!
