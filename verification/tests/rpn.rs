use rpn_calc::rpn::{Elt, Error, Op, Stack};

#[test]
fn test_pop_empty1() {
    let mut s = Stack::new();

    let res = s.pop();
    assert!(res.is_err());
    if let Err(Error::Underflow) = res {} else { assert!(false); }
}

#[test]
fn test_pop_empty2() {
    let mut s = Stack::new();
    s.push(Elt::Int(0)).unwrap();

    let res = s.pop();
    assert!(res.is_ok());

    let res = s.pop();
    assert!(res.is_err());
    if let Err(Error::Underflow) = res {} else { assert!(false); }
}

#[test]
fn test_eval_add1() {
    let mut s = Stack::new();
    s.push(Elt::Int(1)).unwrap();
    s.push(Elt::Int(1)).unwrap();

    assert!(s.eval(Op::Add).is_ok());
    assert_eq!(s.pop().unwrap(), Elt::Int(2));
}

#[test]
fn test_eval_add2() {
    let mut s = Stack::new();
    s.push(Elt::Int(1)).unwrap();
    s.push(Elt::Bool(false)).unwrap();

    let res = s.eval(Op::Add);
    assert!(res.is_err());
    if let Err(Error::Type) = res {} else { assert!(false); }
}

#[test]
fn test_eval_add3() {
    let mut s = Stack::new();
    s.push(Elt::Bool(true)).unwrap();
    s.push(Elt::Bool(false)).unwrap();

    let res = s.eval(Op::Add);
    assert!(res.is_err());
    if let Err(Error::Type) = res {} else { assert!(false); }
}

#[test]
fn test_eval_eq1() {
    let mut s = Stack::new();
    s.push(Elt::Int(1)).unwrap();
    s.push(Elt::Int(1)).unwrap();

    assert!(s.eval(Op::Eq).is_ok());
    assert_eq!(s.pop().unwrap(), Elt::Bool(true));
}

#[test]
fn test_eval_eq2() {
    let mut s = Stack::new();
    s.push(Elt::Int(1)).unwrap();
    s.push(Elt::Bool(false)).unwrap();

    let res = s.eval(Op::Add);
    assert!(res.is_err());
    if let Err(Error::Type) = res {} else { assert!(false); }
}

#[test]
fn test_eval_neg1() {
    let mut s = Stack::new();
    s.push(Elt::Int(1)).unwrap();
    assert!(s.eval(Op::Neg).is_ok());
    assert_eq!(s.pop().unwrap(), Elt::Int(-1));
}

#[test]
fn test_eval_neg2() {
    let mut s = Stack::new();
    s.push(Elt::Bool(false)).unwrap();
    assert!(s.eval(Op::Neg).is_ok());
    assert_eq!(s.pop().unwrap(), Elt::Bool(true));
}

#[test]
fn test_eval_swap1() {
    let mut s = Stack::new();
    s.push(Elt::Int(1)).unwrap();
    s.push(Elt::Bool(false)).unwrap();

    assert!(s.eval(Op::Swap).is_ok());
    assert_eq!(s.pop().unwrap(), Elt::Int(1));
    assert_eq!(s.pop().unwrap(), Elt::Bool(false));

    let res = s.pop();
    assert!(res.is_err());
    if let Err(Error::Underflow) = res {} else { assert!(false); }
}

#[test]
fn test_eval_swap2() {
    let mut s = Stack::new();
    s.push(Elt::Bool(false)).unwrap();

    let res = s.eval(Op::Swap);
    assert!(res.is_err());
    if let Err(Error::Underflow) = res {} else { assert!(false); }
}

#[test]
fn test_eval_rand1() {
    let mut s = Stack::new();
    let i = 20;
    s.push(Elt::Int(i)).unwrap();

    assert!(s.eval(Op::Rand).is_ok());

    // The draw is from 0..=i, so the bound itself may come out.
    let rand_val = s.pop().unwrap();
    assert!(rand_val >= Elt::Int(0));
    assert!(rand_val <= Elt::Int(i));
}

#[test]
fn test_eval_rand2() {
    let mut s = Stack::new();
    s.push(Elt::Bool(false)).unwrap();

    let res = s.eval(Op::Rand);
    assert!(res.is_err());
    if let Err(Error::Type) = res {} else { assert!(false); }
}

#[test]
fn test_eval_quit() {
    let mut s = Stack::new();

    let res = s.eval(Op::Quit);
    assert!(res.is_err());
    if let Err(Error::Quit) = res {} else { assert!(false); }
}

#[test]
fn new_stack_is_empty() {
    let s = Stack::new();
    assert_eq!(s.len(), 0);
    assert!(matches!(s.peek(), Err(Error::Underflow)));
}

#[test]
fn peek_reads_without_removing() {
    let mut s = Stack::new();
    s.push(Elt::Int(7)).unwrap();
    s.push(Elt::Bool(true)).unwrap();
    assert_eq!(s.peek().unwrap(), Elt::Bool(true));
    assert_eq!(s.len(), 2);
    assert_eq!(s.pop().unwrap(), Elt::Bool(true));
    assert_eq!(s.peek().unwrap(), Elt::Int(7));
}

#[test]
fn add_sums_for_many_pairs() {
    for (a, b) in [(0, 0), (-5, 5), (1000, -2000), (i32::MAX, 0), (i32::MIN, 1), (i32::MAX - 1, 1)] {
        let mut s = Stack::new();
        s.push(Elt::Bool(true)).unwrap();
        s.push(Elt::Int(a)).unwrap();
        s.push(Elt::Int(b)).unwrap();
        assert!(s.can_eval(Op::Add));
        assert!(s.eval(Op::Add).is_ok());
        assert_eq!(s.len(), 2);
        assert_eq!(s.pop().unwrap(), Elt::Int(a + b));
        assert_eq!(s.pop().unwrap(), Elt::Bool(true));
    }
}

#[test]
fn add_on_bool_under_int_consumes_both() {
    let mut s = Stack::new();
    s.push(Elt::Int(9)).unwrap();
    s.push(Elt::Bool(true)).unwrap();
    s.push(Elt::Int(1)).unwrap();
    assert!(matches!(s.eval(Op::Add), Err(Error::Type)));
    assert_eq!(s.len(), 1);
    assert_eq!(s.pop().unwrap(), Elt::Int(9));
}

#[test]
fn add_on_bool_on_top_stops_there() {
    let mut s = Stack::new();
    s.push(Elt::Int(9)).unwrap();
    s.push(Elt::Int(1)).unwrap();
    s.push(Elt::Bool(true)).unwrap();
    assert!(matches!(s.eval(Op::Add), Err(Error::Type)));
    assert_eq!(s.len(), 2);
    assert_eq!(s.pop().unwrap(), Elt::Int(1));
}

#[test]
fn add_underflows_without_rollback() {
    let mut s = Stack::new();
    assert!(matches!(s.eval(Op::Add), Err(Error::Underflow)));
    assert_eq!(s.len(), 0);
    s.push(Elt::Int(3)).unwrap();
    assert!(matches!(s.eval(Op::Add), Err(Error::Underflow)));
    assert_eq!(s.len(), 0);
}

#[test]
fn eq_compares_across_variants() {
    let cases = [
        (Elt::Int(4), Elt::Int(4), true),
        (Elt::Int(4), Elt::Int(5), false),
        (Elt::Int(1), Elt::Bool(true), false),
        (Elt::Bool(false), Elt::Int(0), false),
        (Elt::Bool(false), Elt::Bool(false), true),
        (Elt::Bool(false), Elt::Bool(true), false),
    ];
    for (x, y, same) in cases {
        let mut s = Stack::new();
        s.push(x).unwrap();
        s.push(y).unwrap();
        assert!(s.eval(Op::Eq).is_ok());
        assert_eq!(s.len(), 1);
        assert_eq!(s.pop().unwrap(), Elt::Bool(same));
    }
}

#[test]
fn eq_underflows_after_one_pop() {
    let mut s = Stack::new();
    s.push(Elt::Int(3)).unwrap();
    assert!(matches!(s.eval(Op::Eq), Err(Error::Underflow)));
    assert_eq!(s.len(), 0);
}

#[test]
fn neg_on_both_variants() {
    let mut s = Stack::new();
    s.push(Elt::Bool(true)).unwrap();
    assert!(s.eval(Op::Neg).is_ok());
    assert_eq!(s.pop().unwrap(), Elt::Bool(false));
    s.push(Elt::Int(-17)).unwrap();
    assert!(s.eval(Op::Neg).is_ok());
    assert_eq!(s.pop().unwrap(), Elt::Int(17));
    s.push(Elt::Int(0)).unwrap();
    assert!(s.eval(Op::Neg).is_ok());
    assert_eq!(s.pop().unwrap(), Elt::Int(0));
    assert!(matches!(s.eval(Op::Neg), Err(Error::Underflow)));
}

#[test]
fn swap_puts_first_popped_underneath() {
    let mut s = Stack::new();
    s.push(Elt::Int(5)).unwrap();
    s.push(Elt::Int(1)).unwrap();
    s.push(Elt::Int(2)).unwrap();
    assert!(s.eval(Op::Swap).is_ok());
    assert_eq!(s.len(), 3);
    assert_eq!(s.pop().unwrap(), Elt::Int(1));
    assert_eq!(s.pop().unwrap(), Elt::Int(2));
    assert_eq!(s.pop().unwrap(), Elt::Int(5));
}

#[test]
fn swap_of_equal_values_changes_nothing() {
    let mut s = Stack::new();
    s.push(Elt::Bool(true)).unwrap();
    s.push(Elt::Bool(true)).unwrap();
    assert!(s.eval(Op::Swap).is_ok());
    assert_eq!(s.pop().unwrap(), Elt::Bool(true));
    assert_eq!(s.pop().unwrap(), Elt::Bool(true));
    assert_eq!(s.len(), 0);
}

#[test]
fn rand_stays_in_range() {
    for n in [0, 1, 2, 7, 1000] {
        for _ in 0..50 {
            let mut s = Stack::new();
            s.push(Elt::Bool(false)).unwrap();
            s.push(Elt::Int(n)).unwrap();
            assert!(s.can_eval(Op::Rand));
            assert!(s.eval(Op::Rand).is_ok());
            assert_eq!(s.len(), 2);
            match s.pop().unwrap() {
                Elt::Int(r) => assert!(0 <= r && r <= n),
                Elt::Bool(_) => panic!("a draw is an integer"),
            }
            assert_eq!(s.pop().unwrap(), Elt::Bool(false));
        }
    }
}

#[test]
fn rand_draws_more_than_its_bound() {
    // Over 200 draws from 0..=1000 some number other than 1000 comes out.
    let mut other = false;
    for _ in 0..200 {
        let mut s = Stack::new();
        s.push(Elt::Int(1000)).unwrap();
        s.eval(Op::Rand).unwrap();
        if s.pop().unwrap() != Elt::Int(1000) {
            other = true;
        }
    }
    assert!(other);
}

#[test]
fn rand_on_empty_stack_underflows() {
    let mut s = Stack::new();
    assert!(matches!(s.eval(Op::Rand), Err(Error::Underflow)));
}

#[test]
fn quit_leaves_the_stack_alone() {
    let mut s = Stack::new();
    s.push(Elt::Int(1)).unwrap();
    s.push(Elt::Bool(true)).unwrap();
    assert!(matches!(s.eval(Op::Quit), Err(Error::Quit)));
    assert_eq!(s.len(), 2);
    assert_eq!(s.pop().unwrap(), Elt::Bool(true));
    assert_eq!(s.pop().unwrap(), Elt::Int(1));
}

#[test]
fn can_eval_tells_undefined_operations() {
    let mut s = Stack::new();
    assert!(s.can_eval(Op::Add) && s.can_eval(Op::Neg) && s.can_eval(Op::Rand));
    s.push(Elt::Int(i32::MAX)).unwrap();
    s.push(Elt::Int(1)).unwrap();
    assert!(!s.can_eval(Op::Add));
    assert!(s.can_eval(Op::Eq) && s.can_eval(Op::Swap) && s.can_eval(Op::Quit));
    s.push(Elt::Int(i32::MIN)).unwrap();
    assert!(!s.can_eval(Op::Neg));
    assert!(!s.can_eval(Op::Rand));
    assert!(s.can_eval(Op::Add));
    s.push(Elt::Int(-1)).unwrap();
    assert!(!s.can_eval(Op::Add));
    assert!(s.can_eval(Op::Neg));
    assert!(!s.can_eval(Op::Rand));
    s.push(Elt::Bool(true)).unwrap();
    assert!(s.can_eval(Op::Add) && s.can_eval(Op::Neg) && s.can_eval(Op::Rand));
}

#[test]
fn elements_order_by_variant_then_payload() {
    assert!(Elt::Int(-3) < Elt::Int(2));
    assert!(Elt::Bool(false) < Elt::Bool(true));
    assert!(Elt::Int(i32::MAX) < Elt::Bool(false));
    assert!(Elt::Int(0) != Elt::Bool(false));
    assert!(Elt::Int(1) != Elt::Bool(true));
}

#[test]
fn an_io_failure_is_carried_as_it_is() {
    let failure = std::io::Error::new(std::io::ErrorKind::UnexpectedEof, "no more input");
    let carried: Result<(), Error> = Err(Error::IO(failure));
    match carried {
        Err(Error::IO(e)) => assert_eq!(e.kind(), std::io::ErrorKind::UnexpectedEof),
        _ => panic!("the failure was lost"),
    }
}
