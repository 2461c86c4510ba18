//! The three marks of a course.

use vstd::prelude::*;

verus! {

/// The marks of the mid-term, the homework and the finals.
pub struct Scores {
    mid_term: usize,
    homework: usize,
    finals: usize,
}

impl Scores {
    /// The mid-term mark, as a specification.
    pub closed spec fn spec_mid_term(&self) -> usize {
        self.mid_term
    }

    /// The homework mark, as a specification.
    pub closed spec fn spec_homework(&self) -> usize {
        self.homework
    }

    /// The finals mark, as a specification.
    pub closed spec fn spec_finals(&self) -> usize {
        self.finals
    }

    /// Holds the three marks.
    pub fn new(mid_term: usize, homework: usize, finals: usize) -> (s: Self)
        ensures
            s.spec_mid_term() == mid_term,
            s.spec_homework() == homework,
            s.spec_finals() == finals,
    {
        Scores { mid_term, homework, finals }
    }

    /// The mid-term mark.
    #[verifier::when_used_as_spec(spec_mid_term)]
    pub fn mid_term(&self) -> (m: usize)
        ensures
            m == self.spec_mid_term(),
    {
        self.mid_term
    }

    /// The homework mark.
    #[verifier::when_used_as_spec(spec_homework)]
    pub fn homework(&self) -> (m: usize)
        ensures
            m == self.spec_homework(),
    {
        self.homework
    }

    /// The finals mark.
    #[verifier::when_used_as_spec(spec_finals)]
    pub fn finals(&self) -> (m: usize)
        ensures
            m == self.spec_finals(),
    {
        self.finals
    }
}

} // verus!
