//! The question record and its score counters.

use vstd::prelude::*;

verus! {

/// `a + b`, held at `u16::MAX` where it would pass it.
pub open spec fn saturating_sum(a: u16, b: u16) -> u16 {
    if a + b > u16::MAX {
        u16::MAX
    } else {
        (a + b) as u16
    }
}

/// The characters of each string of `v`, in order.
pub open spec fn strings_view(v: Seq<String>) -> Seq<Seq<char>> {
    v.map_values(|s: String| s@)
}

/// A prompt with its accepted answers, the files it came from, and its score
/// for the current round and for the whole run.
///
/// Two questions are equal when their texts are equal: answers, locations
/// and counters never take part in identity. The counters only grow, through
/// the increment methods, until `reset_round_stats` zeroes those of the round.
#[derive(Debug, Clone)]
pub struct Question {
    pub question: String,
    pub answers: Vec<String>,
    pub locations: Vec<String>,
    pub correct_count_round: u16,
    pub error_count_round: u16,
    pub correct_count_sum: u16,
    pub error_count_sum: u16,
}

impl Question {
    /// The accepted answers, in the order in which they were gathered.
    pub open spec fn answer_seq(&self) -> Seq<Seq<char>> {
        strings_view(self.answers@)
    }

    /// The accepted answers as a set.
    pub open spec fn answer_set(&self) -> Set<Seq<char>> {
        self.answer_seq().to_set()
    }

    /// The files the question was read from, in the order in which they came.
    pub open spec fn location_seq(&self) -> Seq<Seq<char>> {
        strings_view(self.locations@)
    }

    /// The files the question was read from, as a set.
    pub open spec fn location_set(&self) -> Set<Seq<char>> {
        self.location_seq().to_set()
    }

    /// Answers and locations each hold every value at most once.
    pub open spec fn wf(&self) -> bool {
        self.answer_seq().no_duplicates() && self.location_seq().no_duplicates()
    }

    /// All four counters are zero.
    pub open spec fn unscored(&self) -> bool {
        self.correct_count_round == 0 && self.error_count_round == 0 && self.correct_count_sum == 0
            && self.error_count_sum == 0
    }

    /// The counters of `self` and `other` agree.
    pub open spec fn same_score(&self, other: &Question) -> bool {
        self.correct_count_round == other.correct_count_round && self.error_count_round
            == other.error_count_round && self.correct_count_sum == other.correct_count_sum
            && self.error_count_sum == other.error_count_sum
    }

    /// `self` and `other` differ at most in their counters.
    pub open spec fn same_content(&self, other: &Question) -> bool {
        self.question@ == other.question@ && self.answers@ == other.answers@
            && self.locations@ == other.locations@
    }

    /// A question read from `location`, with one accepted answer and no score.
    pub fn new(location: String, question: String, answer: String) -> (r: Question)
        ensures
            r.question@ == question@,
            r.answer_seq() == seq![answer@],
            r.location_seq() == seq![location@],
            r.unscored(),
            r.wf(),
    {
        let r = Question {
            question,
            answers: vec![answer],
            locations: vec![location],
            correct_count_round: 0,
            error_count_round: 0,
            correct_count_sum: 0,
            error_count_sum: 0,
        };
        assert(r.answer_seq() =~= seq![r.answers@[0]@]);
        assert(r.location_seq() =~= seq![r.locations@[0]@]);
        r
    }

    /// Adds `amount` to the correct counters of the round and of the run,
    /// each held at `u16::MAX`.
    pub fn increment_correct_count(&mut self, amount: u16)
        ensures
            final(self).same_content(old(self)),
            final(self).correct_count_round == saturating_sum(old(self).correct_count_round, amount),
            final(self).correct_count_sum == saturating_sum(old(self).correct_count_sum, amount),
            final(self).error_count_round == old(self).error_count_round,
            final(self).error_count_sum == old(self).error_count_sum,
    {
        self.correct_count_round = self.correct_count_round.saturating_add(amount);
        self.correct_count_sum = self.correct_count_sum.saturating_add(amount);
    }

    /// Adds `amount` to the error counters of the round and of the run, each
    /// held at `u16::MAX`.
    pub fn increment_error_count(&mut self, amount: u16)
        ensures
            final(self).same_content(old(self)),
            final(self).error_count_round == saturating_sum(old(self).error_count_round, amount),
            final(self).error_count_sum == saturating_sum(old(self).error_count_sum, amount),
            final(self).correct_count_round == old(self).correct_count_round,
            final(self).correct_count_sum == old(self).correct_count_sum,
    {
        self.error_count_round = self.error_count_round.saturating_add(amount);
        self.error_count_sum = self.error_count_sum.saturating_add(amount);
    }

    /// Zeroes the round counters; the counters of the run stay.
    pub fn reset_round_stats(&mut self)
        ensures
            final(self).same_content(old(self)),
            final(self).correct_count_round == 0,
            final(self).error_count_round == 0,
            final(self).correct_count_sum == old(self).correct_count_sum,
            final(self).error_count_sum == old(self).error_count_sum,
    {
        self.correct_count_round = 0;
        self.error_count_round = 0;
    }

    pub fn get_error_count_for_round(&self) -> (r: u16)
        ensures
            r == self.error_count_round,
    {
        self.error_count_round
    }

    pub fn get_correct_count_for_round(&self) -> (r: u16)
        ensures
            r == self.correct_count_round,
    {
        self.correct_count_round
    }

    pub fn get_error_count_sum(&self) -> (r: u16)
        ensures
            r == self.error_count_sum,
    {
        self.error_count_sum
    }

    pub fn get_correct_count_sum(&self) -> (r: u16)
        ensures
            r == self.correct_count_sum,
    {
        self.correct_count_sum
    }
}

impl PartialEq for Question {
    fn eq(&self, other: &Question) -> (r: bool)
        ensures
            r == (self.question@ == other.question@),
    {
        self.question == other.question
    }
}

impl vstd::std_specs::cmp::PartialEqSpecImpl for Question {
    open spec fn obeys_eq_spec() -> bool {
        true
    }

    open spec fn eq_spec(&self, other: &Question) -> bool {
        self.question@ == other.question@
    }
}

impl Eq for Question {

}

} // verus!
