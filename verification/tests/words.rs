use rpn_calc::numbers::{factorial, to_decimal};
use rpn_calc::primes::{check_prime, prime_pairs};
use rpn_calc::text::{chars_of, string_of, trim};
use rpn_calc::words::{
    backwards_string, check_palindrome, count_vow_cons, rot13, word_scramble,
};

#[test]
fn test_factorial() {
    assert_eq!(Ok(362_880), factorial(&9));
    assert_eq!(Err("Overflow!"), factorial(&999));
}

#[test]
fn test_count_vow_cons() {
    let cases = ["this", "what", "no1qw"];
    let results = [(1, 3), (1, 3), (1, 1)];
    for it in cases.iter().zip(results.iter()) {
        let (case, result) = it;
        assert_eq!(*result, count_vow_cons(*case));
    }
}

#[test]
fn test_word_scramble() {
    assert_eq!(24, word_scramble(String::from("test")).len()); // 4!
    assert_eq!(5040, word_scramble(String::from("amazing")).len()); // 7!
}

#[test]
fn test_backwards_string() {
    assert_eq!(String::from("tset"), backwards_string(String::from("test")));
    assert_eq!(String::from("gnizama"), backwards_string(String::from("amazing")));
    assert_eq!(String::new(), backwards_string(String::new()));
}

#[test]
fn test_check_palindrome() {
    assert!(check_palindrome("racecar"));
    assert!(check_palindrome(""));
    assert!(check_palindrome("2002"));
    assert_eq!(check_palindrome("2004"), false);
    assert_eq!(check_palindrome("not a palindrome"), false);
}

#[test]
fn test_rot13() {
    assert_eq!("Uryyb Jbeyq!", rot13("Hello World!"));
}

#[test]
fn test_check_prime() {
    assert!(check_prime(59));
    assert!(check_prime(97));
    assert!(check_prime(271));
    assert_eq!(false, check_prime(68));
    assert_eq!(false, check_prime(267));
}

#[test]
fn test_prime_pairs() {
    assert_eq!("10 = 3 + 7, 5 + 5", prime_pairs(10));
    assert_eq!("1 = None", prime_pairs(1));
    assert_eq!("11 = None", prime_pairs(11));
    assert_eq!("17 = None", prime_pairs(17));
    assert_eq!("21 = 2 + 19", prime_pairs(21));
    println!("{}", prime_pairs(5678));
}

#[test]
fn factorial_edges() {
    assert_eq!(factorial(&0), Ok(1));
    assert_eq!(factorial(&1), Ok(1));
    assert_eq!(factorial(&5), Ok(120));
    assert_eq!(factorial(&-1), Err("Number must be non-negative!"));
    assert_eq!(factorial(&isize::MIN), Err("Number must be non-negative!"));
    assert_eq!(factorial(&20), Ok(2_432_902_008_176_640_000));
    assert_eq!(factorial(&21), Err("Overflow!"));
    assert_eq!(factorial(&isize::MAX), Err("Overflow!"));
}

#[test]
fn decimal_is_what_std_prints() {
    for n in [0usize, 1, 9, 10, 11, 99, 100, 101, 12345, 4294967295, usize::MAX] {
        assert_eq!(string_of(&to_decimal(n)), n.to_string());
    }
}

#[test]
fn text_round_trips_through_characters() {
    for s in ["", "a", "héllo wörld", "日本語", "a\u{10ffff}b"] {
        assert_eq!(string_of(&chars_of(s)), s);
        assert_eq!(chars_of(s), s.chars().collect::<Vec<char>>());
    }
}

#[test]
fn trim_is_what_std_trims() {
    for s in ["", " ", "a", " a", "a ", "  a b  ", "\t\n x \r\n", "\u{a0}x\u{3000}", "x\u{200b} "] {
        assert_eq!(string_of(&trim(&chars_of(s))), s.trim());
    }
}

#[test]
fn count_vow_cons_stops_at_first_non_letter() {
    assert_eq!(count_vow_cons(""), (0, 0));
    assert_eq!(count_vow_cons("1abc"), (0, 0));
    assert_eq!(count_vow_cons("aeiou"), (5, 0));
    assert_eq!(count_vow_cons("AEIOU"), (0, 5));
    assert_eq!(count_vow_cons("hello world"), (2, 3));
    assert_eq!(count_vow_cons("été!"), (0, 3));
}

#[test]
fn backwards_handles_wide_characters() {
    assert_eq!(backwards_string(String::from("añb")), "bña");
    assert_eq!(backwards_string(String::from("日本")), "本日");
    assert_eq!(backwards_string(String::from("x")), "x");
}

#[test]
fn palindromes_ignore_what_is_not_letter_or_digit() {
    assert!(check_palindrome("a man, a plan, a canal: panama"));
    assert!(check_palindrome("!!"));
    assert!(check_palindrome("a"));
    assert!(check_palindrome("été"));
    assert!(!check_palindrome("Racecar"));
    assert!(!check_palindrome("ab"));
    assert!(!check_palindrome("1 2 3 1"));
}

#[test]
fn rot13_rotates_letters_only() {
    assert_eq!(rot13(""), "");
    assert_eq!(rot13("AMNZ amnz"), "NZAM nzam");
    assert_eq!(rot13("0123 [`{@ é"), "0123 [`{@ é");
    let text = "The Quick Brown Fox Jumps Over The Lazy Dog.";
    assert_eq!(rot13(&rot13(text)), text);
    assert_eq!(rot13("abcdefghijklmnopqrstuvwxyz"), "nopqrstuvwxyzabcdefghijklm");
}

#[test]
fn scramble_lists_insertions_in_order() {
    assert_eq!(word_scramble(String::new()), vec![""]);
    assert_eq!(word_scramble(String::from("a")), vec!["a"]);
    assert_eq!(word_scramble(String::from("ab")), vec!["ab", "ba"]);
    assert_eq!(
        word_scramble(String::from("abc")),
        vec!["abc", "bac", "bca", "acb", "cab", "cba"]
    );
    assert_eq!(word_scramble(String::from("aa")), vec!["aa", "aa"]);
}

#[test]
fn scramble_counts_places_in_bytes() {
    // `é` takes two bytes, so `a` goes in at places 0, 1 and 2, the last
    // of which is past the end and means the end too.
    assert_eq!(word_scramble(String::from("aé")), vec!["aé", "éa", "éa"]);
    assert_eq!(word_scramble(String::from("éa")), vec!["éa", "aé"]);
}

#[test]
fn check_prime_on_small_numbers() {
    let passing: Vec<usize> = (0..60).filter(|n| check_prime(*n)).collect();
    assert_eq!(
        passing,
        vec![2, 3, 5, 7, 11, 13, 17, 19, 23, 29, 31, 35, 37, 41, 43, 47, 49, 53, 55, 59]
    );
    assert!(!check_prime(25));
    assert!(!check_prime(27));
    assert!(!check_prime(121));
    assert!(!check_prime(123 * 3));
    assert!(check_prime(usize::MAX - 58));
}

#[test]
fn check_prime_passes_every_prime() {
    for p in 2..5000usize {
        if (2..p).all(|d| p % d != 0) {
            assert!(check_prime(p));
        }
    }
}

#[test]
fn prime_pairs_lines() {
    assert_eq!(prime_pairs(0), "0 = None");
    assert_eq!(prime_pairs(3), "3 = None");
    assert_eq!(prime_pairs(4), "4 = 2 + 2");
    assert_eq!(prime_pairs(5), "5 = 2 + 3");
    assert_eq!(prime_pairs(24), "24 = 5 + 19, 7 + 17, 11 + 13");
    // 35, 65, 77 and 95 pass the check, so they show up as partners.
    assert_eq!(
        prime_pairs(100),
        "100 = 3 + 97, 5 + 95, 11 + 89, 17 + 83, 23 + 77, 29 + 71, 35 + 65, 41 + 59, 47 + 53"
    );
    assert_eq!(prime_pairs(37), "37 = 2 + 35");
}
