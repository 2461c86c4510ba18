use rpn_calc::parser::{
    apply_token, can_apply, evaluate_line, parse_int, read_token, respond, split_tokens,
    try_evaluate_line, Token,
};
use rpn_calc::rpn::{Elt, Error, Op, Stack};
use rpn_calc::text::is_space_char;

fn chars(s: &str) -> Vec<char> {
    s.chars().collect()
}

fn words(s: &str) -> Vec<String> {
    split_tokens(&chars(s)).iter().map(|t| t.iter().collect()).collect()
}

#[test]
fn test_evaluate_line_bool() {
    let mut stack = Stack::new();
    let s = "true".to_string();
    assert!(evaluate_line(&mut stack, &s).is_ok());
    assert_eq!(stack.pop().unwrap(), Elt::Bool(true));
    let s = "false".to_string();
    assert!(evaluate_line(&mut stack, &s).is_ok());
    assert_eq!(stack.pop().unwrap(), Elt::Bool(false));
}

#[test]
fn test_evaluate_line_int() {
    let mut stack = Stack::new();
    let s = "12".to_string();
    assert!(evaluate_line(&mut stack, &s).is_ok());
    assert_eq!(stack.pop().unwrap(), Elt::Int(12));
}

#[test]
fn test_evaluate_line_plus() {
    let mut stack = Stack::new();
    let s = "12".to_string();
    assert!(evaluate_line(&mut stack, &s).is_ok());
    let s = "13".to_string();
    assert!(evaluate_line(&mut stack, &s).is_ok());
    let s = "+".to_string();
    assert!(evaluate_line(&mut stack, &s).is_ok());
    assert_eq!(stack.pop().unwrap(), Elt::Int(25));
}

#[test]
fn test_evaluate_line_neg() {
    let mut stack = Stack::new();
    let s = "false".to_string();
    assert!(evaluate_line(&mut stack, &s).is_ok());
    let s = "~".to_string();
    assert!(evaluate_line(&mut stack, &s).is_ok());
    assert_eq!(stack.pop().unwrap(), Elt::Bool(true));
}

#[test]
fn test_evaluate_line_swap() {
    let mut stack = Stack::new();
    let s = "false".to_string();
    assert!(evaluate_line(&mut stack, &s).is_ok());
    let s = "15".to_string();
    assert!(evaluate_line(&mut stack, &s).is_ok());
    let s = "<->".to_string();
    assert!(evaluate_line(&mut stack, &s).is_ok());
    assert_eq!(stack.pop().unwrap(), Elt::Bool(false));
    assert_eq!(stack.pop().unwrap(), Elt::Int(15));
}

#[test]
fn test_evaluate_line_eq() {
    let mut stack = Stack::new();
    let s = "12".to_string();
    assert!(evaluate_line(&mut stack, &s).is_ok());
    let s = "15".to_string();
    assert!(evaluate_line(&mut stack, &s).is_ok());
    let s = "=".to_string();
    assert!(evaluate_line(&mut stack, &s).is_ok());
    assert_eq!(stack.pop().unwrap(), Elt::Bool(false));
}

#[test]
fn test_evaluate_line_rand() {
    let mut stack = Stack::new();
    let s = "12".to_string();
    assert!(evaluate_line(&mut stack, &s).is_ok());
    let s = "#".to_string();
    assert!(evaluate_line(&mut stack, &s).is_ok());
    let res = stack.pop();
    assert!(res.is_ok());
    // The draw is from 0..=12, so the bound itself may come out.
    let res = res.unwrap();
    assert!(res >= Elt::Int(0));
    assert!(res <= Elt::Int(12));
}

#[test]
fn test_evaluate_line_quit() {
    let mut stack = Stack::new();
    let s = "quit".to_string();
    let res = evaluate_line(&mut stack, &s);
    assert!(res.is_err());
    if let Err(Error::Quit) = res {} else { assert!(false); }
}

#[test]
fn test_evaluate_line_bad_parse() {
    let mut stack = Stack::new();
    let s = "~false".to_string();
    let res = evaluate_line(&mut stack, &s);
    assert!(res.is_err());
    if let Err(Error::Syntax) = res {} else { assert!(false); }
}

#[test]
fn quit_line_leaves_any_stack_alone() {
    let mut stack = Stack::new();
    stack.push(Elt::Int(4)).unwrap();
    stack.push(Elt::Bool(true)).unwrap();
    let res = evaluate_line(&mut stack, &"quit".to_string());
    assert!(matches!(res, Err(Error::Quit)));
    assert_eq!(stack.len(), 2);
    assert_eq!(stack.pop().unwrap(), Elt::Bool(true));
    assert_eq!(stack.pop().unwrap(), Elt::Int(4));
}

#[test]
fn unknown_token_leaves_the_stack_alone() {
    let mut stack = Stack::new();
    stack.push(Elt::Int(4)).unwrap();
    let res = evaluate_line(&mut stack, &"~false 1 2".to_string());
    assert!(matches!(res, Err(Error::Syntax)));
    assert_eq!(stack.len(), 1);
    assert_eq!(stack.pop().unwrap(), Elt::Int(4));
}

#[test]
fn whole_expression_on_one_line() {
    let mut stack = Stack::new();
    assert!(evaluate_line(&mut stack, &"  12\t13 +   -5 + ~ \n".to_string()).is_ok());
    assert_eq!(stack.len(), 1);
    assert_eq!(stack.pop().unwrap(), Elt::Int(-20));
}

#[test]
fn evaluation_stops_at_first_error() {
    let mut stack = Stack::new();
    let res = evaluate_line(&mut stack, &"1 true + 7 8".to_string());
    assert!(matches!(res, Err(Error::Type)));
    // `true` was popped by `+`; 7 and 8 were never pushed.
    assert_eq!(stack.len(), 1);
    assert_eq!(stack.pop().unwrap(), Elt::Int(1));
}

#[test]
fn later_tokens_are_not_read_after_an_error() {
    let mut stack = Stack::new();
    let res = evaluate_line(&mut stack, &"1 quit bogus".to_string());
    assert!(matches!(res, Err(Error::Quit)));
    assert_eq!(stack.len(), 1);
    let res = evaluate_line(&mut stack, &"bogus quit".to_string());
    assert!(matches!(res, Err(Error::Syntax)));
}

#[test]
fn empty_and_blank_lines_do_nothing() {
    let mut stack = Stack::new();
    assert!(evaluate_line(&mut stack, &String::new()).is_ok());
    assert!(evaluate_line(&mut stack, &" \t \r\n".to_string()).is_ok());
    assert_eq!(stack.len(), 0);
}

#[test]
fn tokens_are_runs_between_white_space() {
    assert_eq!(words(""), Vec::<String>::new());
    assert_eq!(words("   "), Vec::<String>::new());
    assert_eq!(words("a"), vec!["a"]);
    assert_eq!(words(" a  bc\td\n"), vec!["a", "bc", "d"]);
    assert_eq!(words("1\u{a0}2\u{2003}3\u{3000}4\u{85}5"), vec!["1", "2", "3", "4", "5"]);
    assert_eq!(words("x\u{200b}y"), vec!["x\u{200b}y"]);
}

#[test]
fn white_space_is_what_std_says() {
    for u in 0..0x11_0000u32 {
        if let Some(c) = char::from_u32(u) {
            assert_eq!(is_space_char(c), c.is_whitespace());
        }
    }
}

#[test]
fn tokens_agree_with_std_split() {
    for line in ["", " ", "1 2 +", "\t1\t\t2  ", "quit", "a\u{1680}b \u{2028} c", "  x"] {
        let expected: Vec<String> = line.split_whitespace().map(|w| w.to_string()).collect();
        assert_eq!(words(line), expected);
    }
}

#[test]
fn integers_are_read_as_std_reads_them() {
    let cases = [
        "0", "7", "-7", "+7", "007", "-0", "+0", "2147483647", "2147483648", "-2147483648",
        "-2147483649", "99999999999999999999999", "-99999999999999999999999", "", "+", "-", "+-1",
        "--1", "1-", "1a", "a1", "1 ", "１２", "0x10", "1_000", "000000000000000000000000012",
    ];
    for text in cases {
        assert_eq!(parse_int(&chars(text)), text.parse::<i32>().ok());
    }
    assert_eq!(parse_int(&chars("-2147483648")), Some(i32::MIN));
    assert_eq!(parse_int(&chars("2147483647")), Some(i32::MAX));
    assert_eq!(parse_int(&chars("2147483648")), None);
    assert_eq!(parse_int(&chars("+42")), Some(42));
}

#[test]
fn tokens_are_classified_in_order() {
    assert_eq!(read_token(&chars("12")), Token::Value(Elt::Int(12)));
    assert_eq!(read_token(&chars("-12")), Token::Value(Elt::Int(-12)));
    assert_eq!(read_token(&chars("true")), Token::Value(Elt::Bool(true)));
    assert_eq!(read_token(&chars("false")), Token::Value(Elt::Bool(false)));
    assert_eq!(read_token(&chars("+")), Token::Operator(Op::Add));
    assert_eq!(read_token(&chars("~")), Token::Operator(Op::Neg));
    assert_eq!(read_token(&chars("<->")), Token::Operator(Op::Swap));
    assert_eq!(read_token(&chars("=")), Token::Operator(Op::Eq));
    assert_eq!(read_token(&chars("#")), Token::Operator(Op::Rand));
    assert_eq!(read_token(&chars("quit")), Token::Operator(Op::Quit));
    for bad in ["", "True", "FALSE", "Quit", "++", "<-", "->", "==", "~false", "2147483648", "q"] {
        assert_eq!(read_token(&chars(bad)), Token::Unknown);
    }
}

#[test]
fn a_token_is_applied_to_the_stack() {
    let mut stack = Stack::new();
    assert!(apply_token(&mut stack, &chars("3")).is_ok());
    assert!(apply_token(&mut stack, &chars("4")).is_ok());
    assert!(can_apply(&stack, &chars("+")));
    assert!(apply_token(&mut stack, &chars("+")).is_ok());
    assert_eq!(stack.peek().unwrap(), Elt::Int(7));
    assert!(matches!(apply_token(&mut stack, &chars("?")), Err(Error::Syntax)));
    assert_eq!(stack.len(), 1);
}

#[test]
fn undefined_operation_is_reported_not_run() {
    let mut stack = Stack::new();
    let r = try_evaluate_line(&mut stack, &"1 -3 # 5".to_string());
    assert!(r.is_none());
    assert_eq!(stack.len(), 2);
    assert_eq!(stack.pop().unwrap(), Elt::Int(-3));
    assert!(!can_apply(&stack, &chars("#")) || stack.peek().unwrap() >= Elt::Int(0));

    let mut stack = Stack::new();
    let r = try_evaluate_line(&mut stack, &"2147483647 1 +".to_string());
    assert!(r.is_none());
    assert_eq!(stack.len(), 2);

    let mut stack = Stack::new();
    let r = try_evaluate_line(&mut stack, &"-2147483648 ~".to_string());
    assert!(r.is_none());
    assert_eq!(stack.peek().unwrap(), Elt::Int(i32::MIN));
}

#[test]
fn defined_lines_give_the_same_result_either_way() {
    let mut one = Stack::new();
    let mut two = Stack::new();
    let line = "1 2 + 3 = ~ 4 <->".to_string();
    assert!(evaluate_line(&mut one, &line).is_ok());
    assert!(matches!(try_evaluate_line(&mut two, &line), Some(Ok(()))));
    assert_eq!(one.len(), 2);
    assert_eq!(two.len(), 2);
    assert_eq!(one.pop().unwrap(), Elt::Bool(false));
    assert_eq!(two.pop().unwrap(), Elt::Bool(false));
    assert_eq!(one.pop().unwrap(), Elt::Int(4));
    assert_eq!(two.pop().unwrap(), Elt::Int(4));
}

#[test]
fn a_turn_shows_the_top_without_removing_it() {
    let mut stack = Stack::new();
    assert!(matches!(respond(&mut stack, &"12 13".to_string()), Some(Ok(Elt::Int(13)))));
    assert_eq!(stack.len(), 2);
    assert!(matches!(respond(&mut stack, &"+".to_string()), Some(Ok(Elt::Int(25)))));
    assert_eq!(stack.len(), 1);
    assert!(matches!(respond(&mut stack, &"".to_string()), Some(Ok(Elt::Int(25)))));
    assert!(matches!(respond(&mut stack, &"quit".to_string()), Some(Err(Error::Quit))));
    assert_eq!(stack.len(), 1);
}

#[test]
fn a_turn_on_an_empty_stack_underflows() {
    let mut stack = Stack::new();
    assert!(matches!(respond(&mut stack, &"".to_string()), Some(Err(Error::Underflow))));
    assert!(matches!(respond(&mut stack, &"1 2 =".to_string()), Some(Ok(Elt::Bool(false)))));
    assert!(matches!(respond(&mut stack, &"-1 #".to_string()), None));
}
