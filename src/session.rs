//! The practice session: the groups found at start, the pool of questions
//! of the active groups, the round drawn from it, and the phase the caller
//! is in.

use vstd::prelude::*;
use crate::groups::{QuestionGroupDetails, ScannedFile, collect_groups_from_multiple_paths, is_grouping_of};
use crate::parser::{SourceFile, read_all_questions_from_paths, is_merge_of, records_of_sources};
use crate::practice::{by_descending_key, as_ints, descending_order, shuffle_in_place, lemma_by_descending_key};
use crate::question::Question;
use crate::text::push_char;

verus! {

/// The two phases of a session.
#[derive(Debug, Clone, Copy, PartialEq, Eq, Structural)]
pub enum AppPhase {
    Setup,
    Practice,
}

/// The part of the screen that takes the keys.
#[derive(Debug, Clone, Copy, PartialEq, Eq, Structural)]
pub enum UiComponent {
    GroupSelector,
    QuestionSelector,
    PracticeControls,
    PracticeMain,
    ExitPopup,
}

/// The controls offered while practising, in the order in which they are
/// listed.
#[derive(Debug, Clone, Copy, PartialEq, Eq, Structural)]
pub enum PracticeControlOptions {
    EndPractice,
    ResetStats,
    TryAll,
    TryHardest5,
    TryHardest10,
}

/// The control listed at `index`.
pub open spec fn control_at(index: int) -> Option<PracticeControlOptions> {
    if index == 0 {
        Some(PracticeControlOptions::EndPractice)
    } else if index == 1 {
        Some(PracticeControlOptions::ResetStats)
    } else if index == 2 {
        Some(PracticeControlOptions::TryAll)
    } else if index == 3 {
        Some(PracticeControlOptions::TryHardest5)
    } else if index == 4 {
        Some(PracticeControlOptions::TryHardest10)
    } else {
        None
    }
}

impl PracticeControlOptions {
    /// The control listed at `index`, if there is one.
    pub fn from_index(index: usize) -> (r: Option<PracticeControlOptions>)
        ensures
            r == control_at(index as int),
    {
        if index == 0 {
            Some(PracticeControlOptions::EndPractice)
        } else if index == 1 {
            Some(PracticeControlOptions::ResetStats)
        } else if index == 2 {
            Some(PracticeControlOptions::TryAll)
        } else if index == 3 {
            Some(PracticeControlOptions::TryHardest5)
        } else if index == 4 {
            Some(PracticeControlOptions::TryHardest10)
        } else {
            None
        }
    }

    /// The controls in the order in which they are listed.
    pub fn variants() -> (r: Vec<PracticeControlOptions>)
        ensures
            r@.len() == 5,
            forall|i: int| 0 <= i < 5 ==> control_at(i) == Some(#[trigger] r@[i]),
    {
        vec![
            PracticeControlOptions::EndPractice,
            PracticeControlOptions::ResetStats,
            PracticeControlOptions::TryAll,
            PracticeControlOptions::TryHardest5,
            PracticeControlOptions::TryHardest10,
        ]
    }

    /// The label under which the control is listed.
    pub fn message(&self) -> (r: &'static str)
        ensures
            r@ == match self {
                PracticeControlOptions::EndPractice => "End Practice"@,
                PracticeControlOptions::ResetStats => "Reset Stats"@,
                PracticeControlOptions::TryAll => "Try All"@,
                PracticeControlOptions::TryHardest5 => "Try Hardest 5"@,
                PracticeControlOptions::TryHardest10 => "Try Hardest 10"@,
            },
    {
        match self {
            PracticeControlOptions::EndPractice => "End Practice",
            PracticeControlOptions::ResetStats => "Reset Stats",
            PracticeControlOptions::TryAll => "Try All",
            PracticeControlOptions::TryHardest5 => "Try Hardest 5",
            PracticeControlOptions::TryHardest10 => "Try Hardest 10",
        }
    }
}

/// A question of a group: the group's position and the question's position
/// in it.
pub type Handle = (usize, usize);

/// The handle points at a question.
pub open spec fn handle_valid(groups: Seq<QuestionGroupDetails>, h: Handle) -> bool {
    h.0 < groups.len() && h.1 < groups[h.0 as int].questions@.len()
}

/// The question the handle points at.
pub open spec fn question_at(groups: Seq<QuestionGroupDetails>, h: Handle) -> Question {
    groups[h.0 as int].questions@[h.1 as int]
}

/// The handles of the questions of the active groups among the first `n`,
/// group by group, each group's questions in order.
pub open spec fn active_handles(groups: Seq<QuestionGroupDetails>, n: nat) -> Seq<Handle>
    decreases n,
{
    if n == 0 {
        Seq::empty()
    } else {
        let g = groups[n - 1];
        active_handles(groups, (n - 1) as nat) + if g.is_active {
            Seq::new(g.questions@.len(), |q: int| (((n - 1) as int) as usize, q as usize))
        } else {
            Seq::empty()
        }
    }
}

/// The round errors of the questions the handles point at.
pub open spec fn round_error_keys(groups: Seq<QuestionGroupDetails>, hs: Seq<Handle>) -> Seq<u16> {
    hs.map_values(|h: Handle| question_at(groups, h).error_count_round)
}

/// At most `limit` handles of the pool, by descending round error, ties in
/// pool order.
pub open spec fn hardest_handles(
    groups: Seq<QuestionGroupDetails>,
    pool: Seq<Handle>,
    limit: nat,
) -> Seq<Handle> {
    let order = by_descending_key(round_error_keys(groups, pool), pool.len());
    order.take(if limit < pool.len() { limit as int } else { pool.len() as int }).map_values(
        |p: int| pool[p],
    )
}

/// `g1` is `g0` with the round counters of its questions zeroed when it is
/// active, and `g0` unchanged otherwise.
pub open spec fn group_stats_reset(g0: QuestionGroupDetails, g1: QuestionGroupDetails) -> bool {
    if g0.is_active {
        &&& g1.group_name == g0.group_name
        &&& g1.paths == g0.paths
        &&& g1.is_active
        &&& g1.questions@.len() == g0.questions@.len()
        &&& forall|i: int|
            0 <= i < g0.questions@.len() ==> {
                let q0 = #[trigger] g0.questions@[i];
                let q1 = g1.questions@[i];
                &&& q1.same_content(&q0)
                &&& q1.correct_count_round == 0
                &&& q1.error_count_round == 0
                &&& q1.correct_count_sum == q0.correct_count_sum
                &&& q1.error_count_sum == q0.error_count_sum
            }
    } else {
        g1 == g0
    }
}

/// Each group of `g1` is the one of `g0`, with the round counters of the
/// questions of the active groups zeroed.
pub open spec fn round_stats_reset(
    g0: Seq<QuestionGroupDetails>,
    g1: Seq<QuestionGroupDetails>,
) -> bool {
    g1.len() == g0.len() && forall|k: int| 0 <= k < g0.len() ==> group_stats_reset(#[trigger] g0[k], g1[k])
}

/// Zeroes the round counters of every question.
fn reset_round_stats_of_all(questions: &mut Vec<Question>)
    ensures
        final(questions)@.len() == old(questions)@.len(),
        forall|i: int|
            0 <= i < old(questions)@.len() ==> {
                let q0 = #[trigger] old(questions)@[i];
                let q1 = final(questions)@[i];
                &&& q1.same_content(&q0)
                &&& q1.correct_count_round == 0
                &&& q1.error_count_round == 0
                &&& q1.correct_count_sum == q0.correct_count_sum
                &&& q1.error_count_sum == q0.error_count_sum
            },
{
    let ghost start = questions@;
    let mut i: usize = 0;
    while i < questions.len()
        invariant
            i <= questions@.len(),
            questions@.len() == start.len(),
            forall|k: int|
                0 <= k < i ==> {
                    let q0 = #[trigger] start[k];
                    let q1 = questions@[k];
                    &&& q1.same_content(&q0)
                    &&& q1.correct_count_round == 0
                    &&& q1.error_count_round == 0
                    &&& q1.correct_count_sum == q0.correct_count_sum
                    &&& q1.error_count_sum == q0.error_count_sum
                },
            forall|k: int| i <= k < start.len() ==> #[trigger] questions@[k] == start[k],
        decreases start.len() - i,
    {
        let mut q = questions.remove(i);
        q.reset_round_stats();
        questions.insert(i, q);
        i = i + 1;
    }
}

/// The digit that stands for `d`.
pub open spec fn digit_char(d: nat) -> char {
    if d == 0 {
        '0'
    } else if d == 1 {
        '1'
    } else if d == 2 {
        '2'
    } else if d == 3 {
        '3'
    } else if d == 4 {
        '4'
    } else if d == 5 {
        '5'
    } else if d == 6 {
        '6'
    } else if d == 7 {
        '7'
    } else if d == 8 {
        '8'
    } else {
        '9'
    }
}

/// `n` written in decimal.
pub open spec fn decimal(n: nat) -> Seq<char>
    decreases n,
{
    if n < 10 {
        seq![digit_char(n)]
    } else {
        decimal(n / 10).push(digit_char(n % 10))
    }
}

fn digit(d: usize) -> (r: char)
    requires
        d < 10,
    ensures
        r == digit_char(d as nat),
{
    if d == 0 {
        '0'
    } else if d == 1 {
        '1'
    } else if d == 2 {
        '2'
    } else if d == 3 {
        '3'
    } else if d == 4 {
        '4'
    } else if d == 5 {
        '5'
    } else if d == 6 {
        '6'
    } else if d == 7 {
        '7'
    } else if d == 8 {
        '8'
    } else {
        '9'
    }
}

/// `n` written in decimal.
pub fn decimal_string(n: usize) -> (r: String)
    ensures
        r@ == decimal(n as nat),
    decreases n,
{
    if n < 10 {
        let mut r = String::new();
        push_char(&mut r, digit(n));
        r
    } else {
        let mut r = decimal_string(n / 10);
        push_char(&mut r, digit(n % 10));
        r
    }
}

/// A copy of the handles.
fn copy_handles(v: &Vec<Handle>) -> (r: Vec<Handle>)
    ensures
        r@ == v@,
{
    let mut r: Vec<Handle> = Vec::new();
    let mut i: usize = 0;
    while i < v.len()
        invariant
            i <= v@.len(),
            r@ == v@.subrange(0, i as int),
        decreases v@.len() - i,
    {
        r.push(v[i]);
        i = i + 1;
        assert(r@ =~= v@.subrange(0, i as int));
    }
    assert(v@.subrange(0, i as int) =~= v@);
    r
}

/// The session's state apart from what is drawn on screen.
pub struct AppState {
    pub active_component: UiComponent,
    pub last_active_component: UiComponent,
    pub question_groups: Vec<QuestionGroupDetails>,
    pub active_questions: Vec<Handle>,
    pub round_questions: Vec<Handle>,
    pub current_question_index: usize,
}

impl AppState {
    /// Every handle of the pool and of the round points at a question, and
    /// the cursor stays within the round.
    pub open spec fn wf(&self) -> bool {
        &&& forall|i: int|
            0 <= i < self.active_questions@.len() ==> handle_valid(
                self.question_groups@,
                #[trigger] self.active_questions@[i],
            )
        &&& forall|i: int|
            0 <= i < self.round_questions@.len() ==> handle_valid(
                self.question_groups@,
                #[trigger] self.round_questions@[i],
            )
        &&& (self.current_question_index < self.round_questions@.len()
            || self.current_question_index == 0)
    }

    /// The phase a component belongs to; the exit popup belongs to the
    /// phase of the component it was opened from.
    pub open spec fn phase_of(&self, component: UiComponent) -> AppPhase {
        match component {
            UiComponent::GroupSelector | UiComponent::QuestionSelector => AppPhase::Setup,
            UiComponent::PracticeControls | UiComponent::PracticeMain => AppPhase::Practice,
            UiComponent::ExitPopup => match self.last_active_component {
                UiComponent::PracticeControls | UiComponent::PracticeMain => AppPhase::Practice,
                _ => AppPhase::Setup,
            },
        }
    }

    /// A session over the groups of the scanned files, in the setup phase,
    /// with no group active.
    pub fn new(files: &Vec<ScannedFile>) -> (r: AppState)
        ensures
            r.wf(),
            is_grouping_of(r.question_groups@, files@),
            r.active_component == UiComponent::GroupSelector,
            r.last_active_component == UiComponent::GroupSelector,
            r.active_questions@.len() == 0,
            r.round_questions@.len() == 0,
            r.current_question_index == 0,
    {
        AppState {
            active_component: UiComponent::GroupSelector,
            last_active_component: UiComponent::GroupSelector,
            question_groups: collect_groups_from_multiple_paths(files),
            active_questions: Vec::new(),
            round_questions: Vec::new(),
            current_question_index: 0,
        }
    }

    pub fn get_app_phase_for_active_component(&self) -> (r: AppPhase)
        ensures
            r == self.phase_of(self.active_component),
    {
        self.get_app_phase_for_component(self.active_component)
    }

    fn get_app_phase_for_component(&self, component: UiComponent) -> (r: AppPhase)
        ensures
            r == self.phase_of(component),
    {
        match component {
            UiComponent::GroupSelector | UiComponent::QuestionSelector => AppPhase::Setup,
            UiComponent::PracticeControls | UiComponent::PracticeMain => AppPhase::Practice,
            UiComponent::ExitPopup => match self.last_active_component {
                UiComponent::PracticeControls | UiComponent::PracticeMain => AppPhase::Practice,
                _ => AppPhase::Setup,
            },
        }
    }

    /// Gives the keys to `component`, remembering the one that had them.
    pub fn set_active_component(&mut self, component: UiComponent)
        ensures
            final(self).active_component == component,
            final(self).last_active_component == old(self).active_component,
            final(self).question_groups == old(self).question_groups,
            final(self).active_questions == old(self).active_questions,
            final(self).round_questions == old(self).round_questions,
            final(self).current_question_index == old(self).current_question_index,
    {
        self.last_active_component = self.active_component;
        self.active_component = component;
    }

    pub fn get_active_component(&self) -> (r: UiComponent)
        ensures
            r == self.active_component,
    {
        self.active_component
    }

    /// The handles of the questions of the active groups, group by group.
    fn practice_get_all_active_questions(&self) -> (r: Vec<Handle>)
        ensures
            r@ == active_handles(self.question_groups@, self.question_groups@.len()),
            forall|i: int| 0 <= i < r@.len() ==> handle_valid(self.question_groups@, #[trigger] r@[i]),
    {
        let ghost groups = self.question_groups@;
        let mut r: Vec<Handle> = Vec::new();
        let mut g: usize = 0;
        while g < self.question_groups.len()
            invariant
                groups == self.question_groups@,
                g <= groups.len(),
                r@ == active_handles(groups, g as nat),
                forall|i: int| 0 <= i < r@.len() ==> handle_valid(groups, #[trigger] r@[i]),
            decreases groups.len() - g,
        {
            let group = &self.question_groups[g];
            if group.is_active {
                let ghost base = r@;
                let mut q: usize = 0;
                while q < group.questions.len()
                    invariant
                        groups == self.question_groups@,
                        g < groups.len(),
                        *group == groups[g as int],
                        q <= group.questions@.len(),
                        r@ == base + Seq::new(q as nat, |k: int| (g, k as usize)),
                        forall|i: int| 0 <= i < r@.len() ==> handle_valid(groups, #[trigger] r@[i]),
                    decreases group.questions@.len() - q,
                {
                    r.push((g, q));
                    q = q + 1;
                    assert(r@ =~= base + Seq::new(q as nat, |k: int| (g, k as usize)));
                }
                assert(r@ =~= active_handles(groups, (g + 1) as nat));
            } else {
                assert(r@ =~= active_handles(groups, (g + 1) as nat));
            }
            g = g + 1;
        }
        r
    }

    /// Shuffles the round and puts the cursor back on its first question.
    fn practice_shuffle_questions(&mut self)
        requires
            old(self).wf(),
        ensures
            final(self).wf(),
            final(self).round_questions@.to_multiset() == old(self).round_questions@.to_multiset(),
            final(self).round_questions@.len() == old(self).round_questions@.len(),
            final(self).current_question_index == 0,
            final(self).question_groups == old(self).question_groups,
            final(self).active_questions == old(self).active_questions,
            final(self).active_component == old(self).active_component,
            final(self).last_active_component == old(self).last_active_component,
    {
        self.current_question_index = 0;
        let ghost before = self.round_questions@;
        shuffle_in_place(&mut self.round_questions);
        proof {
            broadcast use vstd::seq_lib::group_to_multiset_ensures;

            assert(self.round_questions@.len() == self.round_questions@.to_multiset().len());
            assert(before.len() == before.to_multiset().len());
            assert forall|i: int| 0 <= i < self.round_questions@.len() implies handle_valid(
                self.question_groups@,
                #[trigger] self.round_questions@[i],
            ) by {
                let h = self.round_questions@[i];
                assert(self.round_questions@.to_multiset().count(h) > 0);
                assert(before.contains(h));
            }
        }
    }

    /// Starts practising: the pool becomes every question of the active
    /// groups, and the round a shuffle of the pool.
    pub fn setup_navigate_to_practice(&mut self)
        requires
            old(self).wf(),
        ensures
            final(self).wf(),
            final(self).active_questions@ == active_handles(
                old(self).question_groups@,
                old(self).question_groups@.len(),
            ),
            final(self).round_questions@.to_multiset() == final(self).active_questions@.to_multiset(),
            final(self).current_question_index == 0,
            final(self).question_groups == old(self).question_groups,
            final(self).active_component == UiComponent::PracticeControls,
            final(self).last_active_component == old(self).active_component,
    {
        self.active_questions = self.practice_get_all_active_questions();
        self.round_questions = copy_handles(&self.active_questions);
        self.current_question_index = 0;
        self.practice_shuffle_questions();
        self.set_active_component(UiComponent::PracticeControls);
    }

    /// Ends practising: back to the group list, and the pool and round are
    /// dropped.
    pub fn practice_navigate_to_setup(&mut self)
        ensures
            final(self).wf(),
            final(self).active_component == UiComponent::GroupSelector,
            final(self).last_active_component == old(self).active_component,
            final(self).question_groups == old(self).question_groups,
            final(self).active_questions@.len() == 0,
            final(self).round_questions@.len() == 0,
            final(self).current_question_index == 0,
    {
        self.set_active_component(UiComponent::GroupSelector);
        self.active_questions = Vec::new();
        self.round_questions = Vec::new();
        self.current_question_index = 0;
    }

    /// Moves to the next question of the round; past the last one, the
    /// round is shuffled again and starts over.
    pub fn practice_set_next_question_in_round(&mut self)
        requires
            old(self).wf(),
        ensures
            final(self).wf(),
            final(self).question_groups == old(self).question_groups,
            final(self).active_questions == old(self).active_questions,
            final(self).active_component == old(self).active_component,
            old(self).current_question_index + 1 < old(self).round_questions@.len() ==> {
                &&& final(self).current_question_index == old(self).current_question_index + 1
                &&& final(self).round_questions == old(self).round_questions
            },
            old(self).current_question_index + 1 >= old(self).round_questions@.len() ==> {
                &&& final(self).current_question_index == 0
                &&& final(self).round_questions@.to_multiset()
                    == old(self).round_questions@.to_multiset()
            },
    {
        if self.round_questions.len() > 0 && self.current_question_index
            < self.round_questions.len() - 1 {
            self.current_question_index = self.current_question_index + 1;
        } else {
            self.practice_shuffle_questions();
        }
    }

    /// The question under the cursor, if the round has any.
    pub fn practice_get_current_question_in_round(&self) -> (r: Option<&Question>)
        requires
            self.wf(),
        ensures
            self.round_questions@.len() == 0 ==> r is None,
            self.round_questions@.len() > 0 ==> r == Some(
                &question_at(
                    self.question_groups@,
                    self.round_questions@[self.current_question_index as int],
                ),
            ),
    {
        if self.current_question_index < self.round_questions.len() {
            let h = self.round_questions[self.current_question_index];
            Some(&self.question_groups[h.0].questions[h.1])
        } else {
            None
        }
    }

    /// Switches the keys between the group list and the question table.
    pub fn setup_toggle_panes(&mut self)
        ensures
            final(self).active_component == if old(self).active_component
                == UiComponent::GroupSelector {
                UiComponent::QuestionSelector
            } else {
                UiComponent::GroupSelector
            },
            final(self).last_active_component == old(self).active_component,
            final(self).question_groups == old(self).question_groups,
            final(self).active_questions == old(self).active_questions,
            final(self).round_questions == old(self).round_questions,
            final(self).current_question_index == old(self).current_question_index,
    {
        if self.active_component == UiComponent::GroupSelector {
            self.set_active_component(UiComponent::QuestionSelector);
        } else {
            self.set_active_component(UiComponent::GroupSelector);
        }
    }

    /// Switches the keys between the controls and the question pane.
    pub fn practice_toggle_panes(&mut self)
        ensures
            final(self).active_component == if old(self).active_component
                == UiComponent::PracticeControls {
                UiComponent::PracticeMain
            } else {
                UiComponent::PracticeControls
            },
            final(self).last_active_component == old(self).active_component,
            final(self).question_groups == old(self).question_groups,
            final(self).active_questions == old(self).active_questions,
            final(self).round_questions == old(self).round_questions,
            final(self).current_question_index == old(self).current_question_index,
    {
        if self.active_component == UiComponent::PracticeControls {
            self.set_active_component(UiComponent::PracticeMain);
        } else {
            self.set_active_component(UiComponent::PracticeControls);
        }
    }

    /// Opens the exit question over the current component.
    pub fn open_exit_popup(&mut self)
        ensures
            final(self).active_component == UiComponent::ExitPopup,
            final(self).last_active_component == old(self).active_component,
            final(self).question_groups == old(self).question_groups,
            final(self).active_questions == old(self).active_questions,
            final(self).round_questions == old(self).round_questions,
            final(self).current_question_index == old(self).current_question_index,
    {
        self.set_active_component(UiComponent::ExitPopup);
    }

    /// Closes the exit question, giving the keys back to the component it
    /// was opened from.
    pub fn close_exit_popup(&mut self)
        ensures
            final(self).active_component == old(self).last_active_component,
            final(self).last_active_component == old(self).active_component,
            final(self).question_groups == old(self).question_groups,
            final(self).active_questions == old(self).active_questions,
            final(self).round_questions == old(self).round_questions,
            final(self).current_question_index == old(self).current_question_index,
    {
        let back = self.last_active_component;
        self.set_active_component(back);
    }

    /// Turns the group listed at `selected` on or off. Turning it on appends
    /// the questions read from `sources`, the contents of the group's files;
    /// turning it off drops its questions. The pool and the round are
    /// dropped either way: they are drawn again when practice starts. An
    /// index past the list changes nothing.
    pub fn setup_toggle_group_active_status_and_load_questions(
        &mut self,
        selected: usize,
        sources: &Vec<SourceFile>,
    )
        requires
            old(self).wf(),
        ensures
            final(self).wf(),
            final(self).active_component == old(self).active_component,
            final(self).last_active_component == old(self).last_active_component,
            selected >= old(self).question_groups@.len() ==> *final(self) == *old(self),
            selected < old(self).question_groups@.len() ==> {
                let g0 = old(self).question_groups@[selected as int];
                let g1 = final(self).question_groups@[selected as int];
                &&& final(self).question_groups@.len() == old(self).question_groups@.len()
                &&& forall|j: int|
                    0 <= j < old(self).question_groups@.len() && j != selected
                        ==> #[trigger] final(self).question_groups@[j]
                        == old(self).question_groups@[j]
                &&& g1.group_name == g0.group_name
                &&& g1.paths == g0.paths
                &&& g1.is_active == !g0.is_active
                &&& g1.is_active ==> {
                    &&& g1.questions@.take(g0.questions@.len() as int) == g0.questions@
                    &&& is_merge_of(
                        g1.questions@.skip(g0.questions@.len() as int),
                        records_of_sources(sources@),
                    )
                }
                &&& !g1.is_active ==> g1.questions@.len() == 0
                &&& final(self).active_questions@.len() == 0
                &&& final(self).round_questions@.len() == 0
                &&& final(self).current_question_index == 0
            },
    {
        if selected >= self.question_groups.len() {
            return;
        }
        let ghost g0 = self.question_groups@;
        let mut group = self.question_groups.remove(selected);
        group.is_active = !group.is_active;
        if group.is_active {
            let mut loaded = read_all_questions_from_paths(sources);
            let ghost before = group.questions@;
            let ghost fresh = loaded@;
            group.questions.append(&mut loaded);
            proof {
                assert(group.questions@.take(before.len() as int) =~= before);
                assert(group.questions@.skip(before.len() as int) =~= fresh);
            }
        } else {
            group.questions.clear();
        }
        self.question_groups.insert(selected, group);
        self.active_questions = Vec::new();
        self.round_questions = Vec::new();
        self.current_question_index = 0;
        proof {
            assert(self.question_groups@ =~= g0.update(selected as int, group));
        }
    }

    /// The questions of the group listed at `selected`, when it is active;
    /// none otherwise.
    pub fn setup_get_questions_for_selected_group(&self, selected: usize) -> (r: Vec<&Question>)
        ensures
            selected < self.question_groups@.len() && self.question_groups@[selected as int].is_active
                ==> crate::practice::derefs(r@) == self.question_groups@[selected as int].questions@,
            !(selected < self.question_groups@.len() && self.question_groups@[
                selected as int
            ].is_active) ==> r@.len() == 0,
    {
        let mut r: Vec<&Question> = Vec::new();
        if selected >= self.question_groups.len() || !self.question_groups[selected].is_active {
            return r;
        }
        let questions = &self.question_groups[selected].questions;
        let mut i: usize = 0;
        while i < questions.len()
            invariant
                i <= questions@.len(),
                crate::practice::derefs(r@) == questions@.subrange(0, i as int),
            decreases questions@.len() - i,
        {
            let ghost prev = r@;
            let q = &questions[i];
            r.push(q);
            assert(crate::practice::derefs(r@) =~= crate::practice::derefs(prev).push(*q));
            i = i + 1;
            assert(crate::practice::derefs(r@) =~= questions@.subrange(0, i as int));
        }
        assert(questions@.subrange(0, i as int) =~= questions@);
        r
    }

    /// The round becomes the whole pool again, shuffled.
    fn practice_reset_round_question_filters(&mut self)
        requires
            old(self).wf(),
        ensures
            final(self).wf(),
            final(self).round_questions@.to_multiset() == old(self).active_questions@.to_multiset(),
            final(self).current_question_index == 0,
            final(self).question_groups == old(self).question_groups,
            final(self).active_questions == old(self).active_questions,
            final(self).active_component == old(self).active_component,
            final(self).last_active_component == old(self).last_active_component,
    {
        self.round_questions = copy_handles(&self.active_questions);
        self.current_question_index = 0;
        self.practice_shuffle_questions();
    }

    /// The round becomes the `limit` hardest questions of the pool, by
    /// round error, shuffled.
    fn practice_filter_data_to_hardest_in_round(&mut self, limit: usize)
        requires
            old(self).wf(),
        ensures
            final(self).wf(),
            final(self).round_questions@.to_multiset() == hardest_handles(
                old(self).question_groups@,
                old(self).active_questions@,
                limit as nat,
            ).to_multiset(),
            final(self).current_question_index == 0,
            final(self).question_groups == old(self).question_groups,
            final(self).active_questions == old(self).active_questions,
            final(self).active_component == old(self).active_component,
            final(self).last_active_component == old(self).last_active_component,
    {
        let ghost groups = self.question_groups@;
        let ghost pool = self.active_questions@;
        let mut keys: Vec<u16> = Vec::new();
        let mut i: usize = 0;
        while i < self.active_questions.len()
            invariant
                groups == self.question_groups@,
                pool == self.active_questions@,
                forall|k: int| 0 <= k < pool.len() ==> handle_valid(groups, #[trigger] pool[k]),
                i <= pool.len(),
                keys@ == round_error_keys(groups, pool).subrange(0, i as int),
            decreases pool.len() - i,
        {
            let h = self.active_questions[i];
            assert(handle_valid(groups, pool[i as int]));
            keys.push(self.question_groups[h.0].questions[h.1].error_count_round);
            i = i + 1;
            assert(keys@ =~= round_error_keys(groups, pool).subrange(0, i as int));
        }
        assert(keys@ =~= round_error_keys(groups, pool));
        let order = descending_order(&keys);
        proof {
            lemma_by_descending_key(keys@, keys@.len());
        }
        let ghost o = by_descending_key(keys@, keys@.len());
        let n = if limit < keys.len() {
            limit
        } else {
            keys.len()
        };
        let mut chosen: Vec<Handle> = Vec::new();
        let mut j: usize = 0;
        while j < n
            invariant
                groups == self.question_groups@,
                pool == self.active_questions@,
                forall|k: int| 0 <= k < pool.len() ==> handle_valid(groups, #[trigger] pool[k]),
                n <= pool.len(),
                keys@.len() == pool.len(),
                as_ints(order@) == o,
                o.len() == pool.len(),
                forall|x: int| 0 <= x < o.len() ==> 0 <= #[trigger] o[x] < o.len(),
                j <= n,
                chosen@ == o.take(j as int).map_values(|p: int| pool[p]),
                forall|k: int| 0 <= k < chosen@.len() ==> handle_valid(groups, #[trigger] chosen@[k]),
            decreases n - j,
        {
            assert(o[j as int] == order@[j as int] as int);
            let p = order[j];
            chosen.push(self.active_questions[p]);
            j = j + 1;
            assert(chosen@ =~= o.take(j as int).map_values(|p: int| pool[p]));
        }
        assert(chosen@ == hardest_handles(groups, pool, limit as nat));
        self.round_questions = chosen;
        self.current_question_index = 0;
        self.practice_shuffle_questions();
    }

    /// The round becomes the whole pool again, shuffled, and the round
    /// counters of every question of the active groups are zeroed.
    fn practice_reset_round_question_filters_and_stats(&mut self)
        requires
            old(self).wf(),
        ensures
            final(self).wf(),
            final(self).round_questions@.to_multiset() == old(self).active_questions@.to_multiset(),
            final(self).current_question_index == 0,
            round_stats_reset(old(self).question_groups@, final(self).question_groups@),
            final(self).active_questions == old(self).active_questions,
            final(self).active_component == old(self).active_component,
            final(self).last_active_component == old(self).last_active_component,
    {
        self.practice_reset_round_question_filters();
        let ghost g0 = self.question_groups@;
        let ghost round0 = self.round_questions@;
        let ghost pool0 = self.active_questions;
        let ghost component0 = self.active_component;
        let ghost last0 = self.last_active_component;
        let mut g: usize = 0;
        while g < self.question_groups.len()
            invariant
                self.wf(),
                self.round_questions@ == round0,
                self.active_questions == pool0,
                self.current_question_index == 0,
                self.active_component == component0,
                self.last_active_component == last0,
                g <= self.question_groups@.len(),
                self.question_groups@.len() == g0.len(),
                forall|k: int|
                    0 <= k < g ==> group_stats_reset(
                        #[trigger] g0[k],
                        self.question_groups@[k],
                    ),
                forall|k: int| g <= k < g0.len() ==> #[trigger] self.question_groups@[k] == g0[k],
            decreases g0.len() - g,
        {
            if self.question_groups[g].is_active {
                let ghost before = self.question_groups@;
                let mut group = self.question_groups.remove(g);
                reset_round_stats_of_all(&mut group.questions);
                self.question_groups.insert(g, group);
                proof {
                    assert(self.question_groups@ =~= before.update(g as int, group));
                    assert forall|i: int| 0 <= i < self.active_questions@.len() implies handle_valid(
                        self.question_groups@,
                        #[trigger] self.active_questions@[i],
                    ) by {
                        assert(handle_valid(before, self.active_questions@[i]));
                    }
                    assert forall|i: int| 0 <= i < self.round_questions@.len() implies handle_valid(
                        self.question_groups@,
                        #[trigger] self.round_questions@[i],
                    ) by {
                        assert(handle_valid(before, self.round_questions@[i]));
                    }
                }
            }
            g = g + 1;
        }
    }

    /// Carries out the control listed at `selected`; an index past the list
    /// does nothing.
    pub fn practice_activate_selected_control(&mut self, selected: usize)
        requires
            old(self).wf(),
        ensures
            final(self).wf(),
            control_at(selected as int) is None ==> *final(self) == *old(self),
            control_at(selected as int) == Some(PracticeControlOptions::EndPractice) ==> {
                &&& final(self).active_component == UiComponent::GroupSelector
                &&& final(self).active_questions@.len() == 0
                &&& final(self).round_questions@.len() == 0
                &&& final(self).question_groups == old(self).question_groups
            },
            control_at(selected as int) == Some(PracticeControlOptions::ResetStats) ==> {
                &&& final(self).round_questions@.to_multiset()
                    == old(self).active_questions@.to_multiset()
                &&& round_stats_reset(old(self).question_groups@, final(self).question_groups@)
                &&& final(self).active_questions == old(self).active_questions
            },
            control_at(selected as int) == Some(PracticeControlOptions::TryAll) ==> {
                &&& final(self).round_questions@.to_multiset()
                    == old(self).active_questions@.to_multiset()
                &&& final(self).question_groups == old(self).question_groups
                &&& final(self).active_questions == old(self).active_questions
            },
            control_at(selected as int) == Some(PracticeControlOptions::TryHardest5) ==> {
                &&& final(self).round_questions@.to_multiset() == hardest_handles(
                    old(self).question_groups@,
                    old(self).active_questions@,
                    5,
                ).to_multiset()
                &&& final(self).question_groups == old(self).question_groups
                &&& final(self).active_questions == old(self).active_questions
            },
            control_at(selected as int) == Some(PracticeControlOptions::TryHardest10) ==> {
                &&& final(self).round_questions@.to_multiset() == hardest_handles(
                    old(self).question_groups@,
                    old(self).active_questions@,
                    10,
                ).to_multiset()
                &&& final(self).question_groups == old(self).question_groups
                &&& final(self).active_questions == old(self).active_questions
            },
            control_at(selected as int) is Some && control_at(selected as int)
                != Some(PracticeControlOptions::EndPractice) ==> final(self).current_question_index
                == 0,
    {
        match PracticeControlOptions::from_index(selected) {
            None => {},
            Some(PracticeControlOptions::EndPractice) => self.practice_navigate_to_setup(),
            Some(PracticeControlOptions::ResetStats) => {
                self.practice_reset_round_question_filters_and_stats()
            },
            Some(PracticeControlOptions::TryHardest5) => {
                self.practice_filter_data_to_hardest_in_round(5)
            },
            Some(PracticeControlOptions::TryHardest10) => {
                self.practice_filter_data_to_hardest_in_round(10)
            },
            Some(PracticeControlOptions::TryAll) => self.practice_reset_round_question_filters(),
        }
    }

    /// Where the cursor stands in the round: `position/length`, counting
    /// from one.
    pub fn practice_get_round_status_string(&self) -> (r: String)
        requires
            self.wf(),
        ensures
            r@ == decimal((self.current_question_index + 1) as nat) + seq!['/'] + decimal(
                self.round_questions@.len(),
            ),
    {
        let n = self.round_questions.len();
        assert(self.current_question_index < n || self.current_question_index == 0);
        let mut r = decimal_string(self.current_question_index + 1);
        push_char(&mut r, '/');
        let len = decimal_string(n);
        r.append(len.as_str());
        r
    }

    /// The name of the group listed at `index`, if there is one.
    pub fn setup_get_group_name(&self, index: usize) -> (r: Option<&String>)
        ensures
            index < self.question_groups@.len() ==> r == Some(
                &self.question_groups@[index as int].group_name,
            ),
            index >= self.question_groups@.len() ==> r is None,
    {
        if index < self.question_groups.len() {
            Some(&self.question_groups[index].group_name)
        } else {
            None
        }
    }
}

} // verus!
