use rpn_calc::bank::{CoinType, PiggyBank};
use rpn_calc::quiz::{Question, Quiz};
use rpn_calc::scores::Scores;

#[test]
fn test_piggy_bank() {
    let mut bank = PiggyBank::new();
    bank.push_coin(CoinType::FiftyCents, 2);
    bank.push_coin(CoinType::TwoDollar, 3);
    assert!((7.0 - bank.worth_in_cents() as f64 / 100.0).abs() < 0.00000001);

    bank.push_coin(CoinType::TenCents, 5);
    assert!((7.5 - bank.worth_in_cents() as f64 / 100.0).abs() < 0.00000001);
}

#[test]
fn bank_counts_each_kind_apart() {
    let mut bank = PiggyBank::new();
    assert_eq!(bank.worth_in_cents(), 0);
    bank.push_coin(CoinType::FiveCents, 1);
    bank.push_coin(CoinType::TwentyCents, 2);
    bank.push_coin(CoinType::OneDollar, 3);
    bank.push_coin(CoinType::FiveCents, 4);
    assert_eq!(bank.coins_of(CoinType::FiveCents), 5);
    assert_eq!(bank.coins_of(CoinType::TwentyCents), 2);
    assert_eq!(bank.coins_of(CoinType::OneDollar), 3);
    assert_eq!(bank.coins_of(CoinType::TwoDollar), 0);
    assert_eq!(bank.coins_of(CoinType::FiftyCents), 0);
    assert_eq!(bank.coins_of(CoinType::TenCents), 0);
    assert_eq!(bank.worth_in_cents(), 25 + 40 + 300);
}

#[test]
fn bank_counts_stop_at_the_largest_number() {
    let mut bank = PiggyBank::new();
    bank.push_coin(CoinType::TenCents, usize::MAX - 1);
    bank.push_coin(CoinType::TenCents, 5);
    assert_eq!(bank.coins_of(CoinType::TenCents), usize::MAX);
    assert_eq!(bank.worth_in_cents(), usize::MAX);
    let mut bank = PiggyBank::new();
    bank.push_coin(CoinType::TwoDollar, usize::MAX / 200);
    assert_eq!(bank.worth_in_cents(), usize::MAX / 200 * 200);
    bank.push_coin(CoinType::OneDollar, 1);
    assert_eq!(bank.worth_in_cents(), usize::MAX);
}

#[test]
fn coin_values() {
    assert_eq!(CoinType::TwoDollar.cents(), 200);
    assert_eq!(CoinType::OneDollar.cents(), 100);
    assert_eq!(CoinType::FiftyCents.cents(), 50);
    assert_eq!(CoinType::TwentyCents.cents(), 20);
    assert_eq!(CoinType::TenCents.cents(), 10);
    assert_eq!(CoinType::FiveCents.cents(), 5);
}

#[test]
fn scores_hold_their_marks() {
    let s = Scores::new(70, 80, 90);
    assert_eq!(s.mid_term(), 70);
    assert_eq!(s.homework(), 80);
    assert_eq!(s.finals(), 90);
}

fn sample_quiz() -> Quiz {
    Quiz::from_questions(vec![
        Question::new("2 + 2?".to_string(), "4".to_string()),
        Question::new("Capital of France?".to_string(), "Paris".to_string()),
        Question::new("Say nothing.".to_string(), "".to_string()),
    ])
}

#[test]
fn quiz_counts_its_questions() {
    assert_eq!(Quiz::from_questions(vec![]).num_questions(), 0);
    let quiz = sample_quiz();
    assert_eq!(quiz.num_questions(), 3);
    assert_eq!(quiz.question(1).question(), "Capital of France?");
    assert_eq!(quiz.question(1).answer(), "Paris");
}

#[test]
fn replies_are_trimmed_before_marking() {
    let quiz = sample_quiz();
    assert!(quiz.question(0).is_correct("4"));
    assert!(quiz.question(0).is_correct("  4\n"));
    assert!(!quiz.question(0).is_correct("four"));
    assert!(!quiz.question(0).is_correct("4 4"));
    assert!(quiz.question(1).is_correct("Paris\r\n"));
    assert!(!quiz.question(1).is_correct("paris"));
    assert!(quiz.question(2).is_correct(" \t"));
}

#[test]
fn score_counts_correct_replies() {
    let quiz = sample_quiz();
    let all = vec!["4\n".to_string(), " Paris ".to_string(), "\n".to_string()];
    assert_eq!(quiz.score(&all), 3);
    let some = vec!["5\n".to_string(), "Paris\n".to_string(), "x\n".to_string()];
    assert_eq!(quiz.score(&some), 1);
    let short = vec!["4".to_string()];
    assert_eq!(quiz.score(&short), 1);
    let long = vec!["4".to_string(), "Rome".to_string(), "".to_string(), "4".to_string()];
    assert_eq!(quiz.score(&long), 2);
    assert_eq!(quiz.score(&vec![]), 0);
}
