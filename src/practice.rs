//! Drilling: shuffling, hardest-subset selection, answer validation and the
//! penalised reveals.

use vstd::prelude::*;
use crate::question::{Question, saturating_sum};
use crate::text::{
    push_char,
    string_of,
    chars_of,
    clean_lowercased,
    trim_and_lowercase,
    cleaned,
    cleaned_lowercase,
    lower_of,
    trimmed,
    is_white_space_spec,
    lemma_trimmed_ignores_surrounding_space,
};

verus! {

/// Relies on `rand::seq::SliceRandom::shuffle` with the thread-local
/// generator: the items are only swapped, so the result is a rearrangement of
/// them.
#[verifier::external_body]
pub(crate) fn shuffle_in_place<T>(v: &mut Vec<T>)
    ensures
        final(v)@.to_multiset() == old(v)@.to_multiset(),
{
    rand::seq::SliceRandom::shuffle(v.as_mut_slice(), &mut rand::rng());
}

/// The questions that `refs` point to.
pub open spec fn derefs(refs: Seq<&Question>) -> Seq<Question> {
    refs.map_values(|q: &Question| *q)
}

proof fn lemma_derefs_multiset(a: Seq<&Question>, b: Seq<&Question>)
    requires
        a.to_multiset() == b.to_multiset(),
    ensures
        derefs(a).to_multiset() == derefs(b).to_multiset(),
    decreases a.len(),
{
    broadcast use vstd::seq_lib::group_to_multiset_ensures;

    if a.len() == 0 {
        assert(a.to_multiset().len() == 0);
        assert(b.len() == b.to_multiset().len());
        assert(derefs(a) =~= derefs(b));
    } else {
        let x = a.last();
        let rest = a.drop_last();
        assert(rest.push(x) =~= a);
        assert(a.to_multiset().count(x) > 0);
        assert(b.contains(x));
        let j = choose|j: int| 0 <= j < b.len() && b[j] == x;
        let brest = b.remove(j);
        assert(rest.to_multiset() =~= a.to_multiset().remove(x));
        assert(brest.to_multiset() =~= b.to_multiset().remove(x));
        lemma_derefs_multiset(rest, brest);
        assert(derefs(rest).push(*x) =~= derefs(a));
        assert(derefs(b).remove(j) =~= derefs(brest));
        assert(derefs(b)[j] == *x);
        assert(derefs(b).to_multiset().count(*x) > 0);
        assert(derefs(brest).to_multiset() =~= derefs(b).to_multiset().remove(*x));
        assert(derefs(a).to_multiset() =~= derefs(b).to_multiset());
    }
}

/// References to the questions, in a random order.
pub fn randomize_questions(questions: &Vec<Question>) -> (r: Vec<&Question>)
    ensures
        r@.len() == questions@.len(),
        derefs(r@).to_multiset() == questions@.to_multiset(),
{
    let mut refs: Vec<&Question> = Vec::new();
    let mut i: usize = 0;
    while i < questions.len()
        invariant
            i <= questions@.len(),
            derefs(refs@) == questions@.subrange(0, i as int),
        decreases questions@.len() - i,
    {
        let ghost prev = refs@;
        let q = &questions[i];
        refs.push(q);
        assert(derefs(refs@) =~= derefs(prev).push(*q));
        i = i + 1;
        assert(derefs(refs@) =~= questions@.subrange(0, i as int));
    }
    let ghost before = refs@;
    shuffle_in_place(&mut refs);
    proof {
        broadcast use vstd::seq_lib::group_to_multiset_ensures;
        assert(derefs(before) == questions@);
        lemma_derefs_multiset(before, refs@);
        assert(refs@.len() == refs@.to_multiset().len());
        assert(before.len() == before.to_multiset().len());
    }
    refs
}

/// The round errors of the questions, in order.
pub open spec fn round_errors(questions: Seq<Question>) -> Seq<u16> {
    questions.map_values(|q: Question| q.error_count_round)
}

/// How many leading entries of `order` have a key of at least `k`.
pub open spec fn slot(order: Seq<int>, keys: Seq<u16>, k: u16) -> nat
    decreases order.len(),
{
    if order.len() > 0 && keys[order[0]] >= k {
        1 + slot(order.drop_first(), keys, k)
    } else {
        0
    }
}

/// The positions `0..n` of `keys` ordered by descending key, positions with
/// equal keys in ascending order: each position in turn goes after every
/// earlier one whose key is at least its own.
pub open spec fn by_descending_key(keys: Seq<u16>, n: nat) -> Seq<int>
    decreases n,
{
    if n == 0 {
        Seq::empty()
    } else {
        let order = by_descending_key(keys, (n - 1) as nat);
        order.insert(slot(order, keys, keys[n - 1]) as int, n - 1)
    }
}

/// The entries of `v` as integers.
pub open spec fn as_ints(v: Seq<usize>) -> Seq<int> {
    v.map_values(|x: usize| x as int)
}

proof fn lemma_slot_props(order: Seq<int>, keys: Seq<u16>, k: u16)
    ensures
        slot(order, keys, k) <= order.len(),
        forall|j: int| 0 <= j < slot(order, keys, k) ==> keys[#[trigger] order[j]] >= k,
        slot(order, keys, k) < order.len() ==> keys[order[slot(order, keys, k) as int]] < k,
    decreases order.len(),
{
    if order.len() > 0 && keys[order[0]] >= k {
        let rest = order.drop_first();
        lemma_slot_props(rest, keys, k);
        assert forall|j: int| 0 <= j < slot(order, keys, k) implies keys[#[trigger] order[j]]
            >= k by {
            if j > 0 {
                assert(order[j] == rest[j - 1]);
            }
        }
    }
}

proof fn lemma_slot(order: Seq<int>, keys: Seq<u16>, k: u16, p: int)
    requires
        0 <= p <= order.len(),
        forall|j: int| 0 <= j < p ==> keys[#[trigger] order[j]] >= k,
        p == order.len() || keys[order[p]] < k,
    ensures
        slot(order, keys, k) == p,
    decreases p,
{
    if p > 0 {
        let rest = order.drop_first();
        assert forall|j: int| 0 <= j < p - 1 implies keys[#[trigger] rest[j]] >= k by {
            assert(rest[j] == order[j + 1]);
        }
        lemma_slot(rest, keys, k, p - 1);
    }
}

/// The order holds each position below `n` once, and its keys never grow.
pub proof fn lemma_by_descending_key(keys: Seq<u16>, n: nat)
    requires
        n <= keys.len(),
    ensures
        by_descending_key(keys, n).len() == n,
        forall|i: int|
            0 <= i < n ==> 0 <= #[trigger] by_descending_key(keys, n)[i] < n,
        forall|i: int, j: int|
            0 <= i < j < n ==> by_descending_key(keys, n)[i] != by_descending_key(keys, n)[j],
        forall|i: int, j: int|
            0 <= i < j < n ==> keys[by_descending_key(keys, n)[i]] >= keys[by_descending_key(
                keys,
                n,
            )[j]],
    decreases n,
{
    if n > 0 {
        let m = (n - 1) as nat;
        let order = by_descending_key(keys, m);
        let k = keys[n - 1];
        lemma_by_descending_key(keys, m);
        lemma_slot_props(order, keys, k);
        let s = slot(order, keys, k) as int;
        assert forall|j: int| s <= j < m implies keys[#[trigger] order[j]] < k by {
            if j > s {
                assert(keys[order[s]] >= keys[order[j]]);
            }
        }
    }
}

/// The positions of `keys` ordered by descending key, positions with equal
/// keys in ascending order.
pub(crate) fn descending_order(keys: &Vec<u16>) -> (r: Vec<usize>)
    ensures
        as_ints(r@) == by_descending_key(keys@, keys@.len()),
{
    let mut order: Vec<usize> = Vec::new();
    let mut i: usize = 0;
    while i < keys.len()
        invariant
            i <= keys@.len(),
            as_ints(order@) == by_descending_key(keys@, i as nat),
            order@.len() == i,
            forall|j: int| 0 <= j < order@.len() ==> #[trigger] order@[j] < i,
        decreases keys@.len() - i,
    {
        let k = keys[i];
        let mut p: usize = 0;
        while p < order.len() && keys[order[p]] >= k
            invariant
                i < keys@.len(),
                p <= order@.len(),
                forall|j: int| 0 <= j < order@.len() ==> #[trigger] order@[j] < i,
                forall|j: int| 0 <= j < p ==> keys@[#[trigger] order@[j] as int] >= k,
            decreases order@.len() - p,
        {
            p = p + 1;
        }
        proof {
            let o = as_ints(order@);
            assert forall|j: int| 0 <= j < p implies keys@[#[trigger] o[j]] >= k by {
                assert(o[j] == order@[j] as int);
            }
            lemma_slot(o, keys@, k, p as int);
        }
        let ghost prev = order@;
        order.insert(p, i);
        proof {
            assert(as_ints(order@) =~= as_ints(prev).insert(p as int, i as int));
        }
        i = i + 1;
    }
    order
}

/// At most `limit` questions, by descending round error; questions with
/// equal round errors keep their order.
pub fn get_hardest_questions_in_round(questions: &Vec<Question>, limit: usize) -> (r: Vec<
    &Question,
>)
    ensures
        r@.len() == if limit < questions@.len() {
            limit as int
        } else {
            questions@.len() as int
        },
        forall|i: int|
            0 <= i < r@.len() ==> *r@[i] == questions@[by_descending_key(
                round_errors(questions@),
                questions@.len(),
            )[i]],
        forall|i: int, j: int|
            0 <= i < j < r@.len() ==> r@[i].error_count_round >= r@[j].error_count_round,
{
    let mut keys: Vec<u16> = Vec::new();
    let mut i: usize = 0;
    while i < questions.len()
        invariant
            i <= questions@.len(),
            keys@ == round_errors(questions@).subrange(0, i as int),
        decreases questions@.len() - i,
    {
        keys.push(questions[i].error_count_round);
        i = i + 1;
        assert(keys@ =~= round_errors(questions@).subrange(0, i as int));
    }
    assert(keys@ =~= round_errors(questions@));
    let order = descending_order(&keys);
    proof {
        lemma_by_descending_key(keys@, keys@.len());
    }
    let ghost o = by_descending_key(keys@, keys@.len());
    let n = if limit < questions.len() {
        limit
    } else {
        questions.len()
    };
    let mut r: Vec<&Question> = Vec::new();
    let mut j: usize = 0;
    while j < n
        invariant
            n <= questions@.len(),
            keys@ == round_errors(questions@),
            as_ints(order@) == o,
            o == by_descending_key(keys@, keys@.len()),
            o.len() == questions@.len(),
            forall|x: int| 0 <= x < o.len() ==> 0 <= #[trigger] o[x] < o.len(),
            j <= n,
            r@.len() == j,
            forall|x: int| 0 <= x < j ==> *r@[x] == questions@[#[trigger] o[x]],
        decreases n - j,
    {
        assert(o[j as int] == order@[j as int] as int);
        r.push(&questions[order[j]]);
        j = j + 1;
    }
    proof {
        assert forall|x: int, y: int| 0 <= x < y < r@.len() implies r@[x].error_count_round
            >= r@[y].error_count_round by {
            assert(keys@[o[x]] == questions@[o[x]].error_count_round);
            assert(keys@[o[y]] == questions@[o[y]].error_count_round);
        }
    }
    r
}

/// The error penalty for revealing a clue.
pub const CLUE_REVEAL_PENALTY: u16 = 5;

/// The error penalty for revealing the answer.
pub const ANSWER_REVEAL_PENALTY: u16 = 10;

/// What a reveal gives for a question without accepted answers.
pub const NO_ANSWER_MESSAGE: &'static str = "Cannot generate clue: the question has no accepted answer";

/// `s` with every character at an odd position replaced by a block.
pub open spec fn masked(s: Seq<char>) -> Seq<char> {
    Seq::new(s.len(), |i: int| if i % 2 == 0 { s[i] } else { '\u{25a0}' })
}

/// The parts, in order, separated by `" or "`.
pub open spec fn joined_with_or(parts: Seq<Seq<char>>) -> Seq<char>
    decreases parts.len(),
{
    if parts.len() == 0 {
        Seq::empty()
    } else if parts.len() == 1 {
        parts[0]
    } else {
        joined_with_or(parts.drop_last()) + " or "@ + parts.last()
    }
}

/// The parts separated by `" or "`, or the message for a question without
/// answers when there are none.
pub open spec fn listing(parts: Seq<Seq<char>>) -> Seq<char> {
    if parts.len() == 0 {
        NO_ANSWER_MESSAGE@
    } else {
        joined_with_or(parts)
    }
}

/// Each answer masked.
pub open spec fn masked_all(answers: Seq<Seq<char>>) -> Seq<Seq<char>> {
    answers.map_values(|a: Seq<char>| masked(a))
}

/// `s` with every character at an odd position replaced by a block.
pub fn mask_alternate_characters(s: &str) -> (r: String)
    ensures
        r@ == masked(s@),
{
    let cs = chars_of(s);
    let mut r = String::new();
    let mut i: usize = 0;
    while i < cs.len()
        invariant
            cs@ == s@,
            i <= cs@.len(),
            r@ == masked(s@).subrange(0, i as int),
        decreases cs@.len() - i,
    {
        let c = if i % 2 == 0 {
            cs[i]
        } else {
            '\u{25a0}'
        };
        push_char(&mut r, c);
        i = i + 1;
        assert(r@ =~= masked(s@).subrange(0, i as int));
    }
    assert(r@ =~= masked(s@));
    r
}

/// The answers, masked when `mask` holds, separated by `" or "`.
fn list_answers(answers: &Vec<String>, mask: bool) -> (r: String)
    ensures
        r@ == listing(
            if mask {
                masked_all(crate::question::strings_view(answers@))
            } else {
                crate::question::strings_view(answers@)
            },
        ),
{
    let ghost all = if mask {
        masked_all(crate::question::strings_view(answers@))
    } else {
        crate::question::strings_view(answers@)
    };
    if answers.len() == 0 {
        return string_of(NO_ANSWER_MESSAGE);
    }
    let mut r = String::new();
    let mut i: usize = 0;
    while i < answers.len()
        invariant
            all.len() == answers@.len(),
            forall|j: int|
                0 <= j < all.len() ==> #[trigger] all[j] == if mask {
                    masked(answers@[j]@)
                } else {
                    answers@[j]@
                },
            i <= answers@.len(),
            i == 0 ==> r@.len() == 0,
            i > 0 ==> r@ == joined_with_or(all.subrange(0, i as int)),
        decreases answers@.len() - i,
    {
        if i > 0 {
            r.append(" or ");
        }
        if mask {
            let m = mask_alternate_characters(answers[i].as_str());
            r.append(m.as_str());
        } else {
            r.append(answers[i].as_str());
        }
        proof {
            let part = all.subrange(0, i + 1);
            assert(part.drop_last() =~= all.subrange(0, i as int));
            if i == 0 {
                assert(r@ =~= part[0]);
            }
        }
        i = i + 1;
    }
    assert(all.subrange(0, i as int) =~= all);
    r
}

/// A clue for every accepted answer, at the cost of the clue penalty: each
/// answer with its odd-positioned characters masked, joined with `" or "`.
pub fn reveal_clue_for_penalty(question: &mut Question) -> (r: String)
    ensures
        r@ == listing(masked_all(old(question).answer_seq())),
        final(question).same_content(old(question)),
        final(question).error_count_round == saturating_sum(
            old(question).error_count_round,
            CLUE_REVEAL_PENALTY,
        ),
        final(question).error_count_sum == saturating_sum(
            old(question).error_count_sum,
            CLUE_REVEAL_PENALTY,
        ),
        final(question).correct_count_round == old(question).correct_count_round,
        final(question).correct_count_sum == old(question).correct_count_sum,
{
    question.increment_error_count(CLUE_REVEAL_PENALTY);
    list_answers(&question.answers, true)
}

/// Every accepted answer, joined with `" or "`, at the cost of the answer
/// penalty.
pub fn reveal_answer_for_penalty(question: &mut Question) -> (r: String)
    ensures
        r@ == listing(old(question).answer_seq()),
        final(question).same_content(old(question)),
        final(question).error_count_round == saturating_sum(
            old(question).error_count_round,
            ANSWER_REVEAL_PENALTY,
        ),
        final(question).error_count_sum == saturating_sum(
            old(question).error_count_sum,
            ANSWER_REVEAL_PENALTY,
        ),
        final(question).correct_count_round == old(question).correct_count_round,
        final(question).correct_count_sum == old(question).correct_count_sum,
{
    question.increment_error_count(ANSWER_REVEAL_PENALTY);
    list_answers(&question.answers, false)
}

/// A clue for every accepted answer, at the cost of the clue penalty: the
/// same as `reveal_clue_for_penalty`.
pub fn reveal_clue(question: &mut Question) -> (r: String)
    ensures
        r@ == listing(masked_all(old(question).answer_seq())),
        final(question).same_content(old(question)),
        final(question).error_count_round == saturating_sum(
            old(question).error_count_round,
            CLUE_REVEAL_PENALTY,
        ),
        final(question).error_count_sum == saturating_sum(
            old(question).error_count_sum,
            CLUE_REVEAL_PENALTY,
        ),
        final(question).correct_count_round == old(question).correct_count_round,
        final(question).correct_count_sum == old(question).correct_count_sum,
{
    question.increment_error_count(CLUE_REVEAL_PENALTY);
    list_answers(&question.answers, true)
}

/// Every accepted answer, joined with `" or "`, at the cost of the answer
/// penalty: the same as `reveal_answer_for_penalty`.
pub fn reveal_answer(question: &mut Question) -> (r: String)
    ensures
        r@ == listing(old(question).answer_seq()),
        final(question).same_content(old(question)),
        final(question).error_count_round == saturating_sum(
            old(question).error_count_round,
            ANSWER_REVEAL_PENALTY,
        ),
        final(question).error_count_sum == saturating_sum(
            old(question).error_count_sum,
            ANSWER_REVEAL_PENALTY,
        ),
        final(question).correct_count_round == old(question).correct_count_round,
        final(question).correct_count_sum == old(question).correct_count_sum,
{
    question.increment_error_count(ANSWER_REVEAL_PENALTY);
    list_answers(&question.answers, false)
}

/// Some accepted answer has the attempt's comparison form.
pub open spec fn accepts(answers: Seq<Seq<char>>, attempt: Seq<char>) -> bool {
    exists|i: int| 0 <= i < answers.len() && cleaned(#[trigger] answers[i]) == cleaned(attempt)
}

/// Compares a trimmed, lower-cased attempt with trimmed, lower-cased answers:
/// true when one of them has the attempt's comparison form.
pub fn matches_any_lowercased(attempt: &str, answers: &Vec<String>) -> (r: bool)
    ensures
        r == exists|i: int|
            0 <= i < answers@.len() && cleaned_lowercase(#[trigger] answers@[i]@)
                == cleaned_lowercase(attempt@),
{
    let target = clean_lowercased(attempt);
    let mut i: usize = 0;
    while i < answers.len()
        invariant
            i <= answers@.len(),
            target@ == cleaned_lowercase(attempt@),
            forall|j: int|
                0 <= j < i ==> cleaned_lowercase(#[trigger] answers@[j]@) != cleaned_lowercase(
                    attempt@,
                ),
        decreases answers@.len() - i,
    {
        let candidate = clean_lowercased(answers[i].as_str());
        if candidate == target {
            return true;
        }
        i = i + 1;
    }
    false
}

/// Tells whether the attempt matches an accepted answer once both are put
/// in comparison form; the score is left alone.
pub fn is_attempt_successful(attempt: &str, question: &Question) -> (r: bool)
    ensures
        r == accepts(question.answer_seq(), attempt@),
{
    let mut lowered: Vec<String> = Vec::new();
    let mut i: usize = 0;
    while i < question.answers.len()
        invariant
            i <= question.answers@.len(),
            lowered@.len() == i,
            forall|j: int|
                0 <= j < i ==> (#[trigger] lowered@[j])@ == lower_of(
                    trimmed(question.answers@[j]@),
                ),
        decreases question.answers@.len() - i,
    {
        let l = trim_and_lowercase(question.answers[i].as_str());
        lowered.push(l);
        i = i + 1;
    }
    let attempt_lowered = trim_and_lowercase(attempt);
    let r = matches_any_lowercased(attempt_lowered.as_str(), &lowered);
    proof {
        if r {
            let j = choose|j: int|
                0 <= j < lowered@.len() && cleaned_lowercase(#[trigger] lowered@[j]@)
                    == cleaned_lowercase(attempt_lowered@);
            assert(cleaned(question.answer_seq()[j]) == cleaned(attempt@));
        } else {
            assert forall|j: int| 0 <= j < question.answer_seq().len() implies cleaned(
                #[trigger] question.answer_seq()[j],
            ) != cleaned(attempt@) by {
                assert(cleaned_lowercase(lowered@[j]@) != cleaned_lowercase(attempt_lowered@));
            }
        }
    }
    r
}

/// Whether an attempt is accepted depends on its comparison form alone:
/// attempts that differ only in what that form removes (case, runs of white
/// space, the ignored symbols) get the same outcome.
pub proof fn lemma_outcome_depends_on_form(answers: Seq<Seq<char>>, x: Seq<char>, y: Seq<char>)
    requires
        cleaned(x) == cleaned(y),
    ensures
        accepts(answers, x) == accepts(answers, y),
{
}

/// White space around an attempt never changes whether it is accepted.
pub proof fn lemma_outcome_ignores_surrounding_space(
    answers: Seq<Seq<char>>,
    w1: Seq<char>,
    x: Seq<char>,
    w2: Seq<char>,
)
    requires
        forall|i: int| 0 <= i < w1.len() ==> is_white_space_spec(#[trigger] w1[i]),
        forall|i: int| 0 <= i < w2.len() ==> is_white_space_spec(#[trigger] w2[i]),
    ensures
        accepts(answers, w1 + x + w2) == accepts(answers, x),
{
    lemma_trimmed_ignores_surrounding_space(w1, x, w2);
}

/// Checks the attempt against the accepted answers and scores it: one
/// correct on a match, one error otherwise.
pub fn validate_attempt(attempt: &String, question: &mut Question) -> (r: bool)
    ensures
        r == accepts(old(question).answer_seq(), attempt@),
        final(question).same_content(old(question)),
        r ==> final(question).correct_count_round == saturating_sum(
            old(question).correct_count_round,
            1,
        ) && final(question).correct_count_sum == saturating_sum(
            old(question).correct_count_sum,
            1,
        ) && final(question).error_count_round == old(question).error_count_round
            && final(question).error_count_sum == old(question).error_count_sum,
        !r ==> final(question).error_count_round == saturating_sum(
            old(question).error_count_round,
            1,
        ) && final(question).error_count_sum == saturating_sum(old(question).error_count_sum, 1)
            && final(question).correct_count_round == old(question).correct_count_round
            && final(question).correct_count_sum == old(question).correct_count_sum,
{
    let is_success = is_attempt_successful(attempt.as_str(), question);
    if is_success {
        question.increment_correct_count(1);
    } else {
        question.increment_error_count(1);
    }
    is_success
}

} // verus!
