use vstd::prelude::*;

use crate::heuristic::{is_next, next_heuristic, none_fires, rules_fit, Heuristic};
use crate::solvestate::{
    lemma_admitted_holds, lemma_apply_keeps_consistent, lemma_consistent_is_valid,
    lemma_step_settles_a_square, open_count, SolveState, SolveStateView, SolveStrategy,
};

verus! {

/// A stage of a solution: the state at that stage, and the rule that the
/// solver uses next. Where the board is complete there is no next rule.
pub struct SolveIterItem<'h, 'ss, H: Heuristic> {
    /// The state at this stage.
    pub solve_state: SolveState<'ss>,
    /// The rule that is used next, or `None` where the board is complete.
    pub next_heuristic: Option<&'h H>,
}

/// Whether a state follows from a stage: the rule of the stage is the one
/// to use next in the state of the stage, and its changes lead to the
/// state that follows.
pub open spec fn follows<'h, 'ss, H: Heuristic>(
    strategy: SolveStrategy,
    rules: Seq<H>,
    stage: SolveIterItem<'h, 'ss, H>,
    next: SolveStateView,
) -> bool {
    &&& stage.next_heuristic matches Some(rule)
    &&& exists|index: int|
        is_next(stage.solve_state@, strategy, rules, index) && rules[index] == *rule
    &&& rule.spec_changes(stage.solve_state@) matches Some(changes)
    &&& next == stage.solve_state@.apply(changes)
}

/// Whether some stages are the whole course of a solution from a state to
/// the state at which it ends.
///
/// Each stage but the last leads to the next. Where the course ends with
/// the board complete, the last stage is the complete board, with no next
/// rule. Where it ends because no rule proposes changes, the last stage
/// leads to the state at which the solver is stuck, which is no stage; a
/// solver that is stuck from the start has no stage at all. A course has
/// at most one stage more than there were open squares at its start.
pub open spec fn is_course<'h, 'ss, H: Heuristic>(
    start: SolveStateView,
    strategy: SolveStrategy,
    rules: Seq<H>,
    stages: Seq<SolveIterItem<'h, 'ss, H>>,
    end: SolveStateView,
) -> bool {
    &&& stages.len() <= open_count(start.squares) + 1
    &&& forall|k: int|
        0 <= k < stages.len() - 1 ==> follows(
            strategy,
            rules,
            #[trigger] stages[k],
            stages[k + 1].solve_state@,
        )
    &&& if stages.len() == 0 {
        end == start && !start.complete() && none_fires(start, rules)
    } else {
        &&& stages[0].solve_state@ == start
        &&& if end.complete() {
            stages.last().solve_state@ == end && stages.last().next_heuristic is None
        } else {
            follows(strategy, rules, stages.last(), end) && none_fires(end, rules)
        }
    }
}

/// The course of a solution, stage by stage: each call of
/// [`SolveIter::next`] gives the next stage.
pub struct SolveIter<'h, 'ss, H: Heuristic> {
    solve_state: SolveState<'ss>,
    solve_strategy: SolveStrategy,
    heuristics: &'h [H],
    done: bool,
}

impl<'h, 'ss, H: Heuristic> SolveIter<'h, 'ss, H> {
    #[verifier::type_invariant]
    spec fn inv(&self) -> bool {
        self.solve_state@.wf() && rules_fit(self.heuristics@, self.solve_state@.board)
    }

    /// The state that the solver has reached.
    pub closed spec fn state(&self) -> SolveStateView {
        self.solve_state@
    }

    /// How the solver picks the next rule.
    pub closed spec fn strategy(&self) -> SolveStrategy {
        self.solve_strategy
    }

    /// The rules that the solver picks from.
    pub closed spec fn rules(&self) -> Seq<H> {
        self.heuristics@
    }

    /// Whether the solver has handed out the complete board.
    pub closed spec fn done(&self) -> bool {
        self.done
    }

    /// The next stage of the solution.
    ///
    /// Once the complete board has been handed out, there is none. Where
    /// the board is complete, the stage is the complete board, with no next
    /// rule. Else the solver picks the rule to use next: where no rule
    /// proposes changes, the solver is stuck and there is no stage; where
    /// one does, the stage is the state as it is, with that rule, and the
    /// solver then makes the rule's changes to its state.
    ///
    /// A solver that starts from a consistent state stays in consistent
    /// states, and every stage that it hands out is valid.
    pub fn next(&mut self) -> (item: Option<SolveIterItem<'h, 'ss, H>>)
        ensures
            final(self).rules() == old(self).rules(),
            final(self).strategy() == old(self).strategy(),
            final(self).state().board == old(self).state().board,
            if old(self).done() {
                &&& item is None
                &&& final(self).done()
                &&& final(self).state() == old(self).state()
            } else if old(self).state().complete() {
                &&& item matches Some(stage)
                &&& stage.solve_state@ == old(self).state()
                &&& stage.next_heuristic is None
                &&& final(self).done()
                &&& final(self).state() == old(self).state()
            } else {
                match item {
                    None => {
                        &&& none_fires(old(self).state(), old(self).rules())
                        &&& !final(self).done()
                        &&& final(self).state() == old(self).state()
                    },
                    Some(stage) => {
                        &&& stage.solve_state@ == old(self).state()
                        &&& stage.next_heuristic matches Some(rule)
                        &&& exists|index: int|
                            is_next(
                                old(self).state(),
                                old(self).strategy(),
                                old(self).rules(),
                                index,
                            ) && old(self).rules()[index] == *rule
                        &&& rule.spec_changes(old(self).state()) matches Some(changes)
                        &&& final(self).state() == old(self).state().apply(changes)
                        &&& !final(self).done()
                    },
                }
            },
            old(self).state().consistent() ==> final(self).state().consistent(),
            old(self).state().consistent() ==> (item matches Some(stage)
                ==> stage.solve_state@.is_valid()),
    {
        proof {
            use_type_invariant(&*self);
            if self.solve_state@.consistent() {
                lemma_consistent_is_valid(self.solve_state@);
            }
        }
        if self.done {
            return None;
        }
        if self.solve_state.complete() {
            self.done = true;
            return Some(
                SolveIterItem { solve_state: self.solve_state.clone(), next_heuristic: None },
            );
        }
        let rule = match next_heuristic(&self.solve_state, self.solve_strategy, self.heuristics) {
            None => {
                return None;
            },
            Some(rule) => rule,
        };
        let changes = match rule.changes(&self.solve_state) {
            None => {
                return None;
            },
            Some(changes) => changes,
        };
        let old_solve_state = self.solve_state.clone();
        proof {
            rule.lemma_changes_admitted(self.solve_state@);
            if self.solve_state@.consistent() {
                lemma_apply_keeps_consistent(self.solve_state@, changes@);
            }
        }
        let mut new_solve_state = self.solve_state.clone();
        proof {
            assert(rule.spec_changes(self.solve_state@) == Some(changes@));
            assert(self.solve_state@.admits(changes@));
            lemma_admitted_holds(self.solve_state@, changes@);
        }
        new_solve_state.apply_changes(&changes);
        self.solve_state = new_solve_state;
        Some(SolveIterItem { solve_state: old_solve_state, next_heuristic: Some(rule) })
    }

    /// All the stages that are left of the course, from the state that the
    /// solver has reached to the end.
    ///
    /// The solver always comes to an end: every step settles a square. A
    /// solver that starts from a consistent state hands out valid stages
    /// only.
    pub fn collect(&mut self) -> (stages: Vec<SolveIterItem<'h, 'ss, H>>)
        ensures
            final(self).rules() == old(self).rules(),
            final(self).strategy() == old(self).strategy(),
            if old(self).done() {
                stages@.len() == 0 && final(self).state() == old(self).state()
            } else {
                is_course(
                    old(self).state(),
                    old(self).strategy(),
                    old(self).rules(),
                    stages@,
                    final(self).state(),
                )
            },
            old(self).state().consistent() ==> final(self).state().consistent(),
            old(self).state().consistent() ==> forall|k: int|
                0 <= k < stages@.len() ==> (#[trigger] stages@[k]).solve_state@.is_valid(),
    {
        let ghost start = self.state();
        let ghost strategy = self.strategy();
        let ghost rules = self.rules();
        let mut stages: Vec<SolveIterItem<'h, 'ss, H>> = Vec::new();
        let mut ended = false;
        while !ended
            invariant
                self.rules() == rules,
                self.strategy() == strategy,
                start == old(self).state(),
                strategy == old(self).strategy(),
                rules == old(self).rules(),
                start.consistent() ==> self.state().consistent(),
                start.consistent() ==> forall|k: int|
                    0 <= k < stages@.len() ==> (#[trigger] stages@[k]).solve_state@.is_valid(),
                old(self).done() ==> stages@.len() == 0 && self.state() == start && self.done(),
                forall|k: int|
                    0 <= k < stages@.len() - 1 ==> follows(
                        strategy,
                        rules,
                        #[trigger] stages@[k],
                        stages@[k + 1].solve_state@,
                    ),
                stages@.len() > 0 ==> stages@[0].solve_state@ == start,
                !ended && !self.done() ==> {
                    &&& stages@.len() == 0 ==> self.state() == start
                    &&& stages@.len() > 0 ==> follows(
                        strategy,
                        rules,
                        stages@.last(),
                        self.state(),
                    )
                    &&& stages@.len() + open_count(self.state().squares) <= open_count(
                        start.squares,
                    )
                },
                !old(self).done() && self.done() ==> {
                    &&& stages@.len() > 0
                    &&& stages@.last().solve_state@ == self.state()
                    &&& stages@.last().next_heuristic is None
                    &&& self.state().complete()
                    &&& stages@.len() <= open_count(start.squares) + 1
                },
                ended && !old(self).done() ==> is_course(
                    start,
                    strategy,
                    rules,
                    stages@,
                    self.state(),
                ),
            decreases
                    if ended {
                        0
                    } else if self.done() {
                        1
                    } else {
                        2 + open_count(self.state().squares)
                    },
        {
            let ghost before = self.state();
            let ghost was_done = self.done();
            proof {
                use_type_invariant(&*self);
            }
            match self.next() {
                None => {
                    ended = true;
                },
                Some(stage) => {
                    proof {
                        if let Some(rule) = stage.next_heuristic {
                            rule.lemma_changes_admitted(before);
                            lemma_step_settles_a_square(
                                before,
                                rule.spec_changes(before).unwrap(),
                            );
                        }
                    }
                    stages.push(stage);
                },
            }
        }
        stages
    }
}

/// The course of the solution of a board from a state, by a strategy and
/// with a list of rules.
pub fn solve_iter<'h, 'b, H: Heuristic>(
    solve_state: SolveState<'b>,
    solve_strategy: SolveStrategy,
    heuristics: &'h [H],
) -> (course: SolveIter<'h, 'b, H>)
    requires
        rules_fit(heuristics@, solve_state@.board),
    ensures
        course.state() == solve_state@,
        course.strategy() == solve_strategy,
        course.rules() == heuristics@,
        !course.done(),
{
    proof {
        use_type_invariant(&solve_state);
    }
    SolveIter { solve_state, solve_strategy, heuristics, done: false }
}

} // verus!
