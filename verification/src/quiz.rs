//! A quiz: questions with their answers, and the marking of replies.

use crate::text::{chars_of, trim, trimmed};
use vstd::prelude::*;

verus! {

/// A question and the answer that is expected to it.
#[derive(Debug)]
pub struct Question {
    question: String,
    answer: String,
}

impl Question {
    /// The text of the question.
    pub closed spec fn text(&self) -> Seq<char> {
        self.question@
    }

    /// The answer that is expected.
    pub closed spec fn expected(&self) -> Seq<char> {
        self.answer@
    }

    /// A question with its answer.
    pub fn new(question: String, answer: String) -> (q: Self)
        ensures
            q.text() == question@,
            q.expected() == answer@,
    {
        Question { question, answer }
    }

    /// The text of the question.
    pub fn question(&self) -> (t: &str)
        ensures
            t@ == self.text(),
    {
        self.question.as_str()
    }

    /// The answer that is expected.
    pub fn answer(&self) -> (t: &str)
        ensures
            t@ == self.expected(),
    {
        self.answer.as_str()
    }

    /// Whether `reply`, without the white space around it, is the expected
    /// answer, letter for letter.
    pub open spec fn accepts(&self, reply: Seq<char>) -> bool {
        trimmed(reply) == self.expected()
    }

    /// Marks one reply.
    pub fn is_correct(&self, reply: &str) -> (b: bool)
        ensures
            b == self.accepts(reply@),
    {
        let given = trim(&chars_of(reply));
        let wanted = chars_of(self.answer.as_str());
        if given.len() != wanted.len() {
            return false;
        }
        let mut i: usize = 0;
        while i < given.len()
            invariant
                i <= given.len(),
                given.len() == wanted.len(),
                given@ == trimmed(reply@),
                wanted@ == self.expected(),
                forall|j: int| 0 <= j < i ==> given@[j] == wanted@[j],
            decreases given.len() - i,
        {
            if given[i] != wanted[i] {
                return false;
            }
            i += 1;
        }
        assert(given@ =~= wanted@);
        true
    }
}

/// A list of questions.
#[derive(Debug)]
pub struct Quiz {
    questions: Vec<Question>,
}

impl View for Quiz {
    type V = Seq<Question>;

    closed spec fn view(&self) -> Seq<Question> {
        self.questions@
    }
}

/// The number of the first `k` questions to which the reply with the same
/// number is correct. A question without a reply counts as missed.
pub open spec fn correct_among(questions: Seq<Question>, replies: Seq<String>, k: nat) -> nat
    decreases k,
{
    if k == 0 {
        0
    } else {
        let i = (k - 1) as int;
        correct_among(questions, replies, (k - 1) as nat) + if i < questions.len() && i
            < replies.len() && questions[i].accepts(replies[i]@) {
            1nat
        } else {
            0nat
        }
    }
}

impl Quiz {
    /// A quiz made of the given questions, in their order.
    pub fn from_questions(questions: Vec<Question>) -> (quiz: Self)
        ensures
            quiz@ == questions@,
    {
        Quiz { questions }
    }

    /// The number of questions.
    pub fn num_questions(&self) -> (n: usize)
        ensures
            n == self@.len(),
    {
        self.questions.len()
    }

    /// The question with the given number, counted from 0.
    pub fn question(&self, index: usize) -> (q: &Question)
        requires
            index < self@.len(),
        ensures
            *q == self@[index as int],
    {
        &self.questions[index]
    }

    /// The score of a round: the number of questions to which the reply with
    /// the same number is correct.
    pub fn score(&self, replies: &Vec<String>) -> (points: usize)
        ensures
            points == correct_among(self@, replies@, self@.len()),
    {
        let mut points: usize = 0;
        let mut i: usize = 0;
        while i < self.questions.len()
            invariant
                i <= self.questions.len(),
                points <= i,
                points == correct_among(self@, replies@, i as nat),
            decreases self.questions.len() - i,
        {
            if i < replies.len() && self.questions[i].is_correct(replies[i].as_str()) {
                points += 1;
            }
            i += 1;
        }
        points
    }
}

} // verus!
