//! A second form of the rules engine: a flat chain of rules that the engine runs by index, where a
//! composite rule runs its own chain of sub-rules in its place.

use vstd::prelude::*;

verus! {

/// The possible results of a [Rule] being applied or consuming a game event.
#[derive(Debug, PartialEq)]
pub enum RuleResult {
    /// The rule has completed successfully, and the engine can proceed to the next rule.
    Complete,
    /// The rule is waiting for an event to be consumed before it can proceed.
    WaitingForEvent,
    /// The game is over, and no further rules can be processed.
    GameOver,
}

/// A game state, which must implement `Default` to allow for initialization.
pub trait GameState: Default {}

/// A game event, which must implement `Debug`.
pub trait GameEvent: std::fmt::Debug {}

/// A rule that can be applied to a game state. It consumes game events and modifies the game
/// state accordingly. Rules are written by the users of the engine; the engine is verified for
/// whatever `apply` and `consume` return and do. A rule may state what its methods give, by the
/// specification functions below; the engine's contracts then say what comes of it.
pub trait Rule<GameStateT: GameState, GameEventT: GameEvent>: Send + Sync {
    /// Whether this rule states, by [Rule::apply_outcome] and [Rule::consume_outcome], what
    /// [Rule::apply] and [Rule::consume] return and leave in the game state. A rule that states
    /// nothing is taken for whatever it does.
    open spec fn states_outcomes(&self) -> bool {
        false
    }

    /// What [Rule::apply] returns for this rule, as it stands, from `state`, and the state it
    /// leaves, where the rule states them.
    open spec fn apply_outcome(&self, state: GameStateT) -> (RuleResult, GameStateT) {
        (RuleResult::Complete, state)
    }

    /// What [Rule::consume] returns for this rule, as it stands, from `state` and `event`, and
    /// the state it leaves, where the rule states them.
    open spec fn consume_outcome(&self, state: GameStateT, event: GameEventT) -> (
        RuleResult,
        GameStateT,
    ) {
        (RuleResult::Complete, state)
    }

    /// Whether [Rule::apply] may be called on this rule as it stands. Every rule may be applied
    /// unless it says otherwise.
    open spec fn can_apply(&self) -> bool {
        true
    }

    /// Whether [Rule::consume] may be called on this rule as it stands. Every rule may be passed
    /// events unless it says otherwise.
    open spec fn can_consume(&self) -> bool {
        true
    }

    /// Applies the initial state of the rule to the game state, modifying it as necessary.
    fn apply(&mut self, state: &mut GameStateT) -> (r: RuleResult)
        requires
            old(self).can_apply(),
        ensures
            old(self).states_outcomes() ==> (r, *final(state)) == old(self).apply_outcome(
                *old(state),
            ) && final(self).states_outcomes(),
            final(self).can_consume(),
    ;

    /// Whether this rule states, by [Rule::validates], what [Rule::validate] answers. A rule
    /// that states nothing is taken for whatever it answers.
    open spec fn states_validation(&self) -> bool {
        false
    }

    /// What [Rule::validate] answers for this rule, as it stands, where the rule states it.
    open spec fn validates(&self, state: GameStateT, event: GameEventT) -> bool {
        false
    }

    /// Validates whether a given game event is applicable to the current game state and rule.
    fn validate(&self, state: &GameStateT, event: &GameEventT) -> (r: bool)
        ensures
            self.states_validation() ==> r == self.validates(*state, *event),
    ;

    /// Consumes a game event, modifying the game state and returning the outcome.
    fn consume(&mut self, state: &mut GameStateT, event: &GameEventT) -> (r: RuleResult)
        requires
            old(self).can_consume(),
        ensures
            old(self).states_outcomes() ==> (r, *final(state)) == old(self).consume_outcome(
                *old(state),
                *event,
            ) && final(self).states_outcomes(),
            final(self).can_consume(),
    ;
}

/// Every rule of `rules` from index `lo` on may be applied.
pub open spec fn can_apply_from<S: GameState, E: GameEvent>(
    rules: Seq<Box<dyn Rule<S, E>>>,
    lo: int,
) -> bool {
    forall|j: int| lo <= j < rules.len() ==> #[trigger] rules[j].can_apply()
}

/// A chain may be applied from its start exactly when its first rule may be applied and the
/// rules after it may be.
pub proof fn lemma_can_apply_from_first<S: GameState, E: GameEvent>(rules: Seq<Box<dyn Rule<S, E>>>)
    ensures
        can_apply_from(rules, 0) == (can_apply_from(rules, 1) && (rules.len() > 0
            ==> rules[0].can_apply())),
{
    if can_apply_from(rules, 1) && (rules.len() > 0 ==> rules[0].can_apply()) {
        assert forall|j: int| 0 <= j < rules.len() implies #[trigger] rules[j].can_apply() by {
            if j > 0 {
                assert(1 <= j < rules.len());
            }
        }
    }
}

/// Every rule of `rules` states what it does.
pub open spec fn all_state_outcomes<S: GameState, E: GameEvent>(
    rules: Seq<Box<dyn Rule<S, E>>>,
) -> bool {
    forall|j: int| 0 <= j < rules.len() ==> #[trigger] rules[j].states_outcomes()
}

/// Where a chain goes from a rule that gave `result`, leaving `state`, with `rest` the rules
/// after it: on completion, the next rule is applied, and so on, until a rule waits for an
/// event, the game is over, or the rules run out. Gives how many rules the chain moved on, the
/// last result, and the state then.
pub open spec fn settle<S: GameState, E: GameEvent>(
    rest: Seq<Box<dyn Rule<S, E>>>,
    result: RuleResult,
    state: S,
) -> (nat, RuleResult, S)
    decreases rest.len(),
{
    match result {
        RuleResult::Complete => {
            if rest.len() == 0 {
                (1, RuleResult::Complete, state)
            } else {
                let (r, s) = rest[0].apply_outcome(state);
                let (k, r2, s2) = settle(rest.drop_first(), r, s);
                (k + 1, r2, s2)
            }
        },
        RuleResult::WaitingForEvent => (0, RuleResult::WaitingForEvent, state),
        RuleResult::GameOver => (0, RuleResult::GameOver, state),
    }
}

/// Where a composite stands after the sub-rule at `index` gave `result` and left `state`, with
/// `rest` the sub-rules after it and `waiting` whether the composite waited before: the index
/// that the chain settles at, and whether the composite then waits. It waits where the last
/// result is a wait; it keeps waiting as it was where the sub-rule itself ended the game; and it
/// has stopped waiting where it moved on.
pub open spec fn settle_position<S: GameState, E: GameEvent>(
    index: nat,
    waiting: bool,
    rest: Seq<Box<dyn Rule<S, E>>>,
    result: RuleResult,
    state: S,
) -> (nat, bool) {
    let (k, r, s) = settle(rest, result, state);
    (
        index + k,
        r == RuleResult::WaitingForEvent || (r == RuleResult::GameOver && k == 0 && waiting),
    )
}

/// A rule that waits for an event or ends the game stops the chain on itself: the chain moves
/// on by no rule, and gives that result and the state the rule left.
pub proof fn law_chain_stops_where_a_rule_stops<S: GameState, E: GameEvent>(
    rest: Seq<Box<dyn Rule<S, E>>>,
    result: RuleResult,
    state: S,
)
    requires
        result != RuleResult::Complete,
    ensures
        settle(rest, result, state) == (0nat, result, state),
{
}

/// The rules from index `i` on state what they do exactly when rule `i` does and the rules after
/// it do; the rules after rule `i` are the rules from `i + 1` on.
pub proof fn lemma_all_state_outcomes_skip<S: GameState, E: GameEvent>(
    rules: Seq<Box<dyn Rule<S, E>>>,
    i: int,
)
    requires
        0 <= i < rules.len(),
    ensures
        rules.skip(i)[0] == rules[i],
        rules.skip(i).drop_first() == rules.skip(i + 1),
        all_state_outcomes(rules.skip(i)) ==> rules[i].states_outcomes() && all_state_outcomes(
            rules.skip(i + 1),
        ),
{
    assert(rules.skip(i).drop_first() =~= rules.skip(i + 1));
    if all_state_outcomes(rules.skip(i)) {
        assert(rules.skip(i)[0].states_outcomes());
        assert forall|j: int| 0 <= j < rules.skip(i + 1).len() implies #[trigger] rules.skip(
            i + 1,
        )[j].states_outcomes() by {
            assert(rules.skip(i + 1)[j] == rules.skip(i)[j + 1]);
        }
    }
}

/// The rules from index `i` on state what they do exactly when each of them does.
pub proof fn lemma_all_state_outcomes_from<S: GameState, E: GameEvent>(
    rules: Seq<Box<dyn Rule<S, E>>>,
    i: int,
)
    requires
        0 <= i <= rules.len(),
    ensures
        all_state_outcomes(rules.skip(i)) <==> forall|j: int|
            i <= j < rules.len() ==> #[trigger] rules[j].states_outcomes(),
{
    if all_state_outcomes(rules.skip(i)) {
        assert forall|j: int| i <= j < rules.len() implies #[trigger] rules[j].states_outcomes() by {
            assert(rules.skip(i)[j - i] == rules[j]);
        }
    }
    if forall|j: int| i <= j < rules.len() ==> #[trigger] rules[j].states_outcomes() {
        assert forall|j: int| 0 <= j < rules.skip(i).len() implies #[trigger] rules.skip(
            i,
        )[j].states_outcomes() by {
            assert(rules.skip(i)[j] == rules[i + j]);
        }
    }
}

/// The engine status that a rule's result leaves: ready after completion, waiting, or over.
pub open spec fn status_of(r: RuleResult) -> EngineStatus {
    match r {
        RuleResult::Complete => EngineStatus::Ready,
        RuleResult::WaitingForEvent => EngineStatus::WaitingForEvent,
        RuleResult::GameOver => EngineStatus::GameOver,
    }
}

/// A list of rules.
pub type RuleList<S, E> = Vec<Box<dyn Rule<S, E>>>;

/// The rules of `new` that may differ from those of `old`: those from index `lo` to index `hi`;
/// all others are the same, and there are as many rules as before.
pub open spec fn same_outside<S: GameState, E: GameEvent>(
    old: Seq<Box<dyn Rule<S, E>>>,
    new: Seq<Box<dyn Rule<S, E>>>,
    lo: int,
    hi: int,
) -> bool {
    &&& new.len() == old.len()
    &&& forall|j: int| 0 <= j < old.len() && (j < lo || j > hi) ==> #[trigger] new[j] == old[j]
}

/// A composite rule that processes a chain of rules in order. It applies each rule to the game
/// state, waiting for events as necessary; once a rule completes, it moves on to the next. While
/// a rule waits for an event, it does not proceed.
#[verifier::reject_recursive_types(GameStateT)]
#[verifier::reject_recursive_types(GameEventT)]
pub struct CompositeRule<GameStateT: GameState, GameEventT: GameEvent> {
    rules: RuleList<GameStateT, GameEventT>,
    current_rule_index: usize,
    is_waiting_for_event: bool,
}

impl<GameStateT: GameState, GameEventT: GameEvent> CompositeRule<GameStateT, GameEventT> {
    /// The sub-rules, as they now stand.
    pub closed spec fn sub_rules(&self) -> Seq<Box<dyn Rule<GameStateT, GameEventT>>> {
        self.rules@
    }

    /// The index of the sub-rule that the composite stands on.
    pub closed spec fn index(&self) -> nat {
        self.current_rule_index as nat
    }

    /// Whether the composite waits for an event.
    pub closed spec fn waiting(&self) -> bool {
        self.is_waiting_for_event
    }

    /// The composite stands on a sub-rule or just past the last one, and it waits only while it
    /// stands on a sub-rule.
    pub open spec fn wf(&self) -> bool {
        &&& self.index() <= self.sub_rules().len()
        &&& self.waiting() ==> self.index() < self.sub_rules().len()
    }

    /// What a step of the composite gives back, for the state it reached: it completes once it
    /// stands past its last sub-rule, and otherwise waits, or reports the game over.
    pub open spec fn settled_with(&self, r: RuleResult) -> bool {
        &&& r == RuleResult::Complete <==> self.index() >= self.sub_rules().len()
        &&& r == RuleResult::WaitingForEvent ==> self.waiting()
    }

    /// What processing from the current sub-rule gives from `state`: completion once the
    /// sub-rules have run out, waiting while the composite waits, and otherwise the current
    /// sub-rule applied and the chain settled from there. Gives the result and the state.
    pub open spec fn process_outcome(&self, state: GameStateT) -> (RuleResult, GameStateT) {
        if self.index() >= self.sub_rules().len() {
            (RuleResult::Complete, state)
        } else if self.waiting() {
            (RuleResult::WaitingForEvent, state)
        } else {
            let (r, s) = self.sub_rules()[self.index() as int].apply_outcome(state);
            let (k, r2, s2) = settle(self.sub_rules().skip(self.index() + 1int), r, s);
            (r2, s2)
        }
    }

    /// Where processing from the current sub-rule leaves the composite from `state`: the index
    /// it then stands on and whether it waits. It stays put once the sub-rules have run out or
    /// while it waits.
    pub open spec fn process_position(&self, state: GameStateT) -> (nat, bool) {
        if self.index() >= self.sub_rules().len() || self.waiting() {
            (self.index(), self.waiting())
        } else {
            let (r, s) = self.sub_rules()[self.index() as int].apply_outcome(state);
            settle_position(self.index(), false, self.sub_rules().skip(self.index() + 1int), r, s)
        }
    }

    /// Where applying the composite leaves it from `state`: the index it then stands on and
    /// whether it waits.
    pub open spec fn apply_position(&self, state: GameStateT) -> (nat, bool) {
        let (r, s) = self.sub_rules()[0].apply_outcome(state);
        settle_position(0, self.waiting(), self.sub_rules().skip(1), r, s)
    }

    /// Where passing the composite `event` leaves it from `state`: the index it then stands on
    /// and whether it waits. It stays put once the sub-rules have run out.
    pub open spec fn consume_position(&self, state: GameStateT, event: GameEventT) -> (nat, bool) {
        if self.index() >= self.sub_rules().len() {
            (self.index(), self.waiting())
        } else {
            let (r, s) = self.sub_rules()[self.index() as int].consume_outcome(state, event);
            settle_position(
                self.index(),
                self.waiting(),
                self.sub_rules().skip(self.index() + 1int),
                r,
                s,
            )
        }
    }

    /// Creates a new [CompositeRule] with the given list of rules.
    pub fn new(rule_chain: RuleList<GameStateT, GameEventT>) -> (r: Self)
        ensures
            r.sub_rules() == rule_chain@,
            r.index() == 0,
            !r.waiting(),
            r.wf(),
    {
        CompositeRule { rules: rule_chain, current_rule_index: 0, is_waiting_for_event: false }
    }

    /// Applies sub-rules from the current one on, until one waits for an event, the game is
    /// over, or the sub-rules run out. Nothing happens while the composite waits for an event.
    fn process_rules(&mut self, state: &mut GameStateT) -> (r: RuleResult)
        requires
            can_apply_from(old(self).sub_rules(), old(self).index() as int),
        ensures
            !old(self).waiting() ==> final(self).can_consume(),
            final(self).sub_rules().len() == old(self).sub_rules().len(),
            final(self).index() >= old(self).index(),
            same_outside(
                old(self).sub_rules(),
                final(self).sub_rules(),
                old(self).index() as int,
                final(self).index() as int,
            ),
            old(self).wf() ==> final(self).wf(),
            old(self).wf() ==> final(self).settled_with(r),
            old(self).index() >= old(self).sub_rules().len() ==> r == RuleResult::Complete,
            (old(self).index() >= old(self).sub_rules().len() || old(self).waiting()) ==> (
            *final(self) == *old(self) && *final(state) == *old(state)),
            r == RuleResult::GameOver ==> final(self).index() < final(self).sub_rules().len(),
            all_state_outcomes(old(self).sub_rules().skip(old(self).index() as int)) ==> (r, *final(state))
                == old(self).process_outcome(*old(state)),
            all_state_outcomes(old(self).sub_rules().skip(old(self).index() as int)) ==> (
            final(self).index(),
            final(self).waiting(),
            ) == old(self).process_position(*old(state)),
            old(self).waiting() && old(self).index() < old(self).sub_rules().len() ==> r
                == RuleResult::WaitingForEvent,
            old(self).states_outcomes() ==> final(self).states_outcomes(),
            !old(self).waiting() && old(self).index() < old(self).sub_rules().len() && old(
                self,
            ).sub_rules()[old(self).index() as int].states_outcomes() ==> ({
                let (r0, s0) = old(self).sub_rules()[old(self).index() as int].apply_outcome(*old(state));
                r0 != RuleResult::Complete ==> r == r0 && final(self).index() == old(self).index()
                    && *final(state) == s0
            }),
        decreases old(self).sub_rules().len() - old(self).index(), 1nat,
    {
        if self.current_rule_index >= self.rules.len() {
            return RuleResult::Complete;
        }
        if self.is_waiting_for_event {
            return RuleResult::WaitingForEvent;
        }
        let ghost subs = self.rules@;
        let ghost i = self.current_rule_index as int;
        proof {
            lemma_all_state_outcomes_skip(subs, i);
        }
        let rule = &mut self.rules[self.current_rule_index];
        let result = rule.apply(state);
        proof {
            assert(self.rules@.skip(i + 1) =~= subs.skip(i + 1));
            lemma_all_state_outcomes_from(subs, i);
            lemma_all_state_outcomes_from(self.rules@, i);
        }
        self.consume_rule_result(state, result)
    }

    /// Takes the result of the current sub-rule: on completion the composite moves on to the
    /// next sub-rule and keeps processing; otherwise it stays on this sub-rule.
    fn consume_rule_result(&mut self, state: &mut GameStateT, result: RuleResult) -> (r:
        RuleResult)
        requires
            old(self).index() < old(self).sub_rules().len(),
            old(self).sub_rules()[old(self).index() as int].can_consume(),
            can_apply_from(old(self).sub_rules(), old(self).index() + 1int),
        ensures
            final(self).can_consume(),
            final(self).sub_rules().len() == old(self).sub_rules().len(),
            final(self).index() >= old(self).index(),
            same_outside(
                old(self).sub_rules(),
                final(self).sub_rules(),
                old(self).index() as int,
                final(self).index() as int,
            ),
            final(self).wf(),
            final(self).settled_with(r),
            r == RuleResult::GameOver ==> final(self).index() < final(self).sub_rules().len(),
            result == RuleResult::Complete ==> final(self).index() > old(self).index(),
            result == RuleResult::WaitingForEvent ==> r == RuleResult::WaitingForEvent && *final(self) == (CompositeRule { is_waiting_for_event: true, ..*old(self) }) && *final(state)
                == *old(state),
            result == RuleResult::GameOver ==> r == RuleResult::GameOver && *final(self) == *old(self) && *final(state) == *old(state),
            all_state_outcomes(old(self).sub_rules().skip(old(self).index() + 1int)) ==> ({
                let (k, r2, s2) = settle(old(self).sub_rules().skip(old(self).index() + 1int), result, *old(state));
                r == r2 && *final(state) == s2
            }),
            all_state_outcomes(old(self).sub_rules().skip(old(self).index() + 1int)) ==> (
            final(self).index(),
            final(self).waiting(),
            ) == settle_position(
                old(self).index(),
                old(self).waiting(),
                old(self).sub_rules().skip(old(self).index() + 1int),
                result,
                *old(state),
            ),
            old(self).states_outcomes() ==> final(self).states_outcomes(),
            result == RuleResult::Complete && old(self).index() + 1 == old(self).sub_rules().len()
                ==> r == RuleResult::Complete && final(self).index() == old(self).sub_rules().len()
                && *final(state) == *old(state),
            result == RuleResult::Complete && old(self).index() + 1 < old(self).sub_rules().len()
                && old(self).sub_rules()[old(self).index() + 1int].states_outcomes() ==> ({
                let (r1, s1) = old(self).sub_rules()[old(self).index() + 1int].apply_outcome(*old(state));
                r1 != RuleResult::Complete ==> r == r1 && final(self).index() == old(self).index() + 1
                    && *final(state) == s1
            }),
        decreases old(self).sub_rules().len() - old(self).index(), 0nat,
    {
        match result {
            RuleResult::Complete => {
                proof {
                    assert(self.rules@.len() == self.rules.len());
                    let subs = self.rules@;
                    let i = self.current_rule_index as int;
                    lemma_all_state_outcomes_from(subs, i);
                    lemma_all_state_outcomes_from(subs, i + 1);
                    if i + 1 < subs.len() {
                        lemma_all_state_outcomes_skip(subs, i + 1);
                    } else {
                        assert(subs.skip(i + 1) =~= Seq::<Box<dyn Rule<GameStateT, GameEventT>>>::empty());
                    }
                }
                self.is_waiting_for_event = false;
                self.current_rule_index = self.current_rule_index + 1;
                self.process_rules(state)
            },
            RuleResult::WaitingForEvent => {
                self.is_waiting_for_event = true;
                RuleResult::WaitingForEvent
            },
            RuleResult::GameOver => RuleResult::GameOver,
        }
    }
}

impl<GameStateT: GameState, GameEventT: GameEvent> Rule<GameStateT, GameEventT> for CompositeRule<
    GameStateT,
    GameEventT,
> {
    /// The composite states what it does where its sub-rules from the current one on do.
    open spec fn states_outcomes(&self) -> bool {
        all_state_outcomes(self.sub_rules().skip(self.index() as int))
    }

    /// Applying starts with the first sub-rule and settles the chain from there.
    open spec fn apply_outcome(&self, state: GameStateT) -> (RuleResult, GameStateT) {
        let (r, s) = self.sub_rules()[0].apply_outcome(state);
        let (k, r2, s2) = settle(self.sub_rules().skip(1), r, s);
        (r2, s2)
    }

    /// A composite is applied once, from its first sub-rule, and only if it has sub-rules that
    /// may all be applied.
    open spec fn can_apply(&self) -> bool {
        &&& self.index() == 0
        &&& self.sub_rules().len() > 0
        &&& can_apply_from(self.sub_rules(), 0)
    }

    /// A composite may be passed events while the sub-rule it stands on may be, and the
    /// sub-rules after it may still be applied.
    open spec fn can_consume(&self) -> bool {
        &&& self.index() < self.sub_rules().len() ==> self.sub_rules()[self.index() as int].can_consume()
        &&& can_apply_from(self.sub_rules(), self.index() + 1int)
    }

    /// Consuming passes the event to the current sub-rule and settles the chain from there;
    /// once the sub-rules have run out, it completes and leaves the state.
    open spec fn consume_outcome(&self, state: GameStateT, event: GameEventT) -> (
        RuleResult,
        GameStateT,
    ) {
        if self.index() >= self.sub_rules().len() {
            (RuleResult::Complete, state)
        } else {
            let (r, s) = self.sub_rules()[self.index() as int].consume_outcome(state, event);
            let (k, r2, s2) = settle(self.sub_rules().skip(self.index() + 1int), r, s);
            (r2, s2)
        }
    }

    /// Starts the composite: applies its first sub-rule and goes on as far as the sub-rules
    /// allow.
    fn apply(&mut self, state: &mut GameStateT) -> (r: RuleResult)
        ensures
            final(self).sub_rules().len() == old(self).sub_rules().len(),
            same_outside(
                old(self).sub_rules(),
                final(self).sub_rules(),
                0,
                final(self).index() as int,
            ),
            final(self).wf(),
            final(self).settled_with(r),
            old(self).states_outcomes() ==> (final(self).index(), final(self).waiting())
                == old(self).apply_position(*old(state)),
            old(self).sub_rules()[0].states_outcomes() ==> ({
                let (r0, s0) = old(self).sub_rules()[0].apply_outcome(*old(state));
                &&& r0 != RuleResult::Complete ==> r == r0 && final(self).index() == 0 && *final(state)
                    == s0 && (r0 == RuleResult::WaitingForEvent ==> final(self).waiting())
                &&& r0 == RuleResult::Complete && old(self).sub_rules().len() == 1 ==> r
                    == RuleResult::Complete && final(self).index() == 1 && *final(state) == s0
                &&& r0 == RuleResult::Complete && old(self).sub_rules().len() > 1 && old(
                    self,
                ).sub_rules()[1].states_outcomes() ==> ({
                    let (r1, s1) = old(self).sub_rules()[1].apply_outcome(s0);
                    r1 != RuleResult::Complete ==> r == r1 && final(self).index() == 1
                        && *final(state) == s1
                })
            }),
    {
        let ghost subs = self.rules@;
        proof {
            lemma_all_state_outcomes_skip(subs, 0);
        }
        let rule = &mut self.rules[0];
        let result = rule.apply(state);
        proof {
            assert(self.rules@.skip(1) =~= subs.skip(1));
            lemma_all_state_outcomes_from(subs, 0);
            lemma_all_state_outcomes_from(self.rules@, 0);
        }
        self.consume_rule_result(state, result)
    }

    /// The composite states what it validates where its current sub-rule does, and once its
    /// sub-rules have run out.
    open spec fn states_validation(&self) -> bool {
        self.index() < self.sub_rules().len() ==> self.sub_rules()[self.index() as int].states_validation()
    }

    /// The composite accepts what its current sub-rule accepts; once the sub-rules have run
    /// out, it accepts no event.
    open spec fn validates(&self, state: GameStateT, event: GameEventT) -> bool {
        if self.index() < self.sub_rules().len() {
            self.sub_rules()[self.index() as int].validates(state, event)
        } else {
            false
        }
    }

    /// Validates an event against the current sub-rule; once the sub-rules have run out, no
    /// event is valid.
    fn validate(&self, state: &GameStateT, event: &GameEventT) -> (r: bool)
        ensures
            self.index() >= self.sub_rules().len() ==> !r,
            self.index() < self.sub_rules().len() && self.sub_rules()[self.index() as int].states_validation()
                ==> r == self.sub_rules()[self.index() as int].validates(*state, *event),
    {
        if self.current_rule_index >= self.rules.len() {
            return false;
        }
        let rule = &self.rules[self.current_rule_index];
        rule.validate(state, event)
    }

    /// Passes an event to the current sub-rule and goes on as its result allows; once the
    /// sub-rules have run out, the composite completes at once.
    fn consume(&mut self, state: &mut GameStateT, event: &GameEventT) -> (r: RuleResult)
        ensures
            final(self).sub_rules().len() == old(self).sub_rules().len(),
            final(self).index() >= old(self).index(),
            same_outside(
                old(self).sub_rules(),
                final(self).sub_rules(),
                old(self).index() as int,
                final(self).index() as int,
            ),
            old(self).wf() ==> final(self).wf() && final(self).settled_with(r),
            old(self).index() >= old(self).sub_rules().len() ==> r == RuleResult::Complete
                && *final(self) == *old(self) && *final(state) == *old(state),
            old(self).states_outcomes() ==> (final(self).index(), final(self).waiting())
                == old(self).consume_position(*old(state), *event),
            old(self).index() < old(self).sub_rules().len() && old(self).sub_rules()[old(
                self,
            ).index() as int].states_outcomes() ==> ({
                let (r0, s0) = old(self).sub_rules()[old(self).index() as int].consume_outcome(
                    *old(state),
                    *event,
                );
                &&& r0 != RuleResult::Complete ==> r == r0 && final(self).index() == old(
                    self,
                ).index() && *final(state) == s0 && (r0 == RuleResult::WaitingForEvent
                    ==> final(self).waiting())
                &&& r0 == RuleResult::Complete && old(self).index() + 1 == old(self).sub_rules().len()
                    ==> r == RuleResult::Complete && final(self).index() == old(
                    self,
                ).sub_rules().len() && *final(state) == s0
                &&& r0 == RuleResult::Complete && old(self).index() + 1 < old(self).sub_rules().len()
                    && old(self).sub_rules()[old(self).index() + 1int].states_outcomes() ==> ({
                    let (r1, s1) = old(self).sub_rules()[old(self).index() + 1int].apply_outcome(s0);
                    r1 != RuleResult::Complete ==> r == r1 && final(self).index() == old(
                        self,
                    ).index() + 1 && *final(state) == s1
                })
            }),
    {
        if self.current_rule_index >= self.rules.len() {
            return RuleResult::Complete;
        }
        let ghost subs = self.rules@;
        let ghost i = self.current_rule_index as int;
        proof {
            lemma_all_state_outcomes_skip(subs, i);
        }
        let rule = &mut self.rules[self.current_rule_index];
        let result = rule.consume(state, event);
        proof {
            assert(self.rules@.skip(i + 1) =~= subs.skip(i + 1));
            lemma_all_state_outcomes_from(subs, i);
            lemma_all_state_outcomes_from(self.rules@, i);
        }
        self.consume_rule_result(state, result)
    }
}

/// The status of the rules engine.
#[derive(Clone, Copy, Debug, PartialEq)]
pub enum EngineStatus {
    /// The engine is ready to process rules.
    Ready,
    /// The engine is waiting for an event to be consumed before proceeding with the next rule.
    WaitingForEvent,
    /// The engine has reached a game-over state, and no further rules can be processed.
    GameOver,
}

/// A rules engine that processes a chain of rules against a game state and handles game events.
#[verifier::reject_recursive_types(GameStateT)]
#[verifier::reject_recursive_types(GameEventT)]
pub struct RulesEngine<GameStateT: GameState, GameEventT: GameEvent> {
    game_state: GameStateT,
    current_rule_chain: RuleList<GameStateT, GameEventT>,
    current_rule_index: usize,
    engine_status: EngineStatus,
}

impl<GameStateT: GameState, GameEventT: GameEvent> RulesEngine<GameStateT, GameEventT> {
    /// The game state.
    pub closed spec fn state(&self) -> GameStateT {
        self.game_state
    }

    /// The rule chain, with the rules as they now stand.
    pub closed spec fn chain(&self) -> Seq<Box<dyn Rule<GameStateT, GameEventT>>> {
        self.current_rule_chain@
    }

    /// The index of the current rule.
    pub closed spec fn index(&self) -> nat {
        self.current_rule_index as nat
    }

    /// The engine's status.
    pub closed spec fn status(&self) -> EngineStatus {
        self.engine_status
    }

    /// `self` and `other` differ at most in their status.
    pub open spec fn same_but_status(&self, other: Self) -> bool {
        &&& self.state() == other.state()
        &&& self.chain() == other.chain()
        &&& self.index() == other.index()
    }

    /// The engine stands where the chain settles after the rule at `index` gave `result` and left
    /// `state`, with `rest` the rules after that rule: at the rule that stopped it, or past the
    /// last rule, with the status that the last result leaves and the state then.
    pub open spec fn settled_at(
        &self,
        index: nat,
        rest: Seq<Box<dyn Rule<GameStateT, GameEventT>>>,
        result: RuleResult,
        state: GameStateT,
    ) -> bool {
        let (k, r, s) = settle(rest, result, state);
        &&& self.index() == index + k
        &&& self.status() == status_of(r)
        &&& self.state() == s
    }

    /// The engine's invariant: it stands on a rule or just past the last one, and where it waits
    /// for an event or the game is over, it stands on a rule.
    pub open spec fn wf(&self) -> bool {
        &&& self.index() <= self.chain().len()
        &&& self.status() != EngineStatus::Ready ==> self.index() < self.chain().len()
    }

    /// The rules can run on from where the engine stands: the rules after the current one may be
    /// applied, and the current rule may be applied while the engine is ready, and passed events
    /// otherwise.
    pub open spec fn rules_ready(&self) -> bool {
        &&& can_apply_from(self.chain(), self.index() + 1int)
        &&& self.index() < self.chain().len() ==> if self.status() == EngineStatus::Ready {
            self.chain()[self.index() as int].can_apply()
        } else {
            self.chain()[self.index() as int].can_consume()
        }
    }

    /// The rules from the current one on state what they do.
    pub open spec fn rules_state_outcomes(&self) -> bool {
        all_state_outcomes(self.chain().skip(self.index() as int))
    }

    /// The engine has nothing to do until something changes: it waits for an event, the game is
    /// over, or the rules have run out.
    pub open spec fn is_idle(&self) -> bool {
        self.status() != EngineStatus::Ready || self.index() >= self.chain().len()
    }

    /// After processing, the engine is ready only once the rules have run out.
    pub open spec fn is_settled(&self) -> bool {
        self.status() == EngineStatus::Ready ==> self.index() == self.chain().len()
    }

    /// Creates a new [RulesEngine] with default game state and a specified rule chain.
    pub fn new(rule_chain: RuleList<GameStateT, GameEventT>) -> (r: Self)
        ensures
            r.chain() == rule_chain@,
            r.index() == 0,
            r.status() == EngineStatus::Ready,
            r.wf(),
            r.rules_ready() == can_apply_from(rule_chain@, 0),
    {
        proof {
            lemma_can_apply_from_first(rule_chain@);
        }
        RulesEngine {
            game_state: GameStateT::default(),
            current_rule_chain: rule_chain,
            current_rule_index: 0,
            engine_status: EngineStatus::Ready,
        }
    }

    /// Creates a new [RulesEngine] with an initial game state and a rule chain.
    pub fn new_with_state(
        rule_chain: RuleList<GameStateT, GameEventT>,
        initial_state: GameStateT,
    ) -> (r: Self)
        ensures
            r.state() == initial_state,
            r.chain() == rule_chain@,
            r.index() == 0,
            r.status() == EngineStatus::Ready,
            r.wf(),
            r.rules_ready() == can_apply_from(rule_chain@, 0),
    {
        proof {
            lemma_can_apply_from_first(rule_chain@);
        }
        RulesEngine {
            game_state: initial_state,
            current_rule_chain: rule_chain,
            current_rule_index: 0,
            engine_status: EngineStatus::Ready,
        }
    }

    /// Returns a reference to the current game state.
    pub fn game_state(&self) -> (r: &GameStateT)
        ensures
            *r == self.state(),
    {
        &self.game_state
    }

    /// Returns the index of the current rule being processed.
    pub fn current_rule_index(&self) -> (r: usize)
        ensures
            r == self.index(),
    {
        self.current_rule_index
    }

    /// Returns true if the engine is waiting for an event to be consumed, false otherwise.
    pub fn is_waiting_for_event(&self) -> (r: bool)
        ensures
            r == (self.status() == EngineStatus::WaitingForEvent),
    {
        match self.engine_status {
            EngineStatus::WaitingForEvent => true,
            _ => false,
        }
    }

    /// Returns the current status of the rules engine.
    pub fn engine_status(&self) -> (r: EngineStatus)
        ensures
            r == self.status(),
    {
        self.engine_status
    }

    /// Processes the rules in the rule chain, as many as possible, until either all rules are
    /// processed, or a rule waits for an event, or the game is over. Nothing happens while the
    /// engine waits for an event or once the game is over. A composite in the chain is applied
    /// once, from its start, and must have sub-rules.
    pub fn process_rules(&mut self)
        requires
            old(self).wf(),
            !old(self).is_idle() ==> old(self).rules_ready(),
        ensures
            final(self).wf(),
            !old(self).is_idle() ==> final(self).rules_ready(),
            final(self).is_settled(),
            final(self).index() >= old(self).index(),
            same_outside(
                old(self).chain(),
                final(self).chain(),
                old(self).index() as int,
                final(self).index() as int,
            ),
            old(self).is_idle() ==> *final(self) == *old(self),
            !old(self).is_idle() && all_state_outcomes(old(self).chain().skip(old(self).index() as int))
                ==> ({
                let (r, st) = old(self).chain()[old(self).index() as int].apply_outcome(old(self).state());
                final(self).settled_at(
                    old(self).index(),
                    old(self).chain().skip(old(self).index() + 1int),
                    r,
                    st,
                )
            }),
            old(self).rules_state_outcomes() ==> final(self).rules_state_outcomes(),
            !old(self).is_idle() && old(self).chain()[old(self).index() as int].states_outcomes()
                ==> ({
                let (r0, s0) = old(self).chain()[old(self).index() as int].apply_outcome(
                    old(self).state(),
                );
                r0 != RuleResult::Complete ==> final(self).index() == old(self).index() && final(self).status() == status_of(r0) && final(self).state() == s0
            }),
        decreases old(self).chain().len() - old(self).index(), 1nat,
    {
        if self.current_rule_index >= self.current_rule_chain.len() {
            return;
        }
        match self.engine_status {
            EngineStatus::Ready => {},
            _ => {
                return;
            },
        }
        let ghost rules = self.current_rule_chain@;
        let ghost i = self.current_rule_index as int;
        proof {
            lemma_all_state_outcomes_skip(rules, i);
        }
        let rule = &mut self.current_rule_chain[self.current_rule_index];
        let result = rule.apply(&mut self.game_state);
        proof {
            assert(self.current_rule_chain@.skip(i + 1) =~= rules.skip(i + 1));
            lemma_all_state_outcomes_from(rules, i);
            lemma_all_state_outcomes_from(self.current_rule_chain@, i);
        }
        self.consume_rule_result(result);
    }

    /// Returns true if the event is valid for the current rule, false otherwise; once the rules
    /// have run out, no event is valid.
    pub fn validate(&self, event: &GameEventT) -> (r: bool)
        ensures
            self.index() >= self.chain().len() ==> !r,
            self.index() < self.chain().len() && self.chain()[self.index() as int].states_validation()
                ==> r == self.chain()[self.index() as int].validates(self.state(), *event),
    {
        if self.current_rule_index >= self.current_rule_chain.len() {
            return false;
        }
        let current_rule = &self.current_rule_chain[self.current_rule_index];
        current_rule.validate(&self.game_state, event)
    }

    /// Consumes a game event: the current rule processes it and updates the game state. If the
    /// rule completes, the engine goes on processing as many rules as possible. An event that
    /// arrives while the engine does not wait for one is ignored.
    pub fn consume(&mut self, event: &GameEventT)
        requires
            old(self).wf(),
            old(self).status() == EngineStatus::WaitingForEvent ==> old(self).rules_ready(),
        ensures
            final(self).wf(),
            old(self).status() == EngineStatus::WaitingForEvent ==> final(self).rules_ready(),
            old(self).rules_state_outcomes() ==> final(self).rules_state_outcomes(),
            old(self).status() == EngineStatus::WaitingForEvent && old(self).chain()[old(
                self,
            ).index() as int].states_outcomes() ==> ({
                let (r0, s0) = old(self).chain()[old(self).index() as int].consume_outcome(
                    old(self).state(),
                    *event,
                );
                r0 != RuleResult::Complete ==> final(self).index() == old(self).index() && final(self).status() == status_of(r0) && final(self).state() == s0
            }),
            final(self).index() >= old(self).index(),
            same_outside(
                old(self).chain(),
                final(self).chain(),
                old(self).index() as int,
                final(self).index() as int,
            ),
            old(self).status() != EngineStatus::WaitingForEvent ==> *final(self) == *old(self),
            old(self).status() == EngineStatus::WaitingForEvent ==> final(self).is_settled(),
            old(self).status() == EngineStatus::WaitingForEvent && all_state_outcomes(
                old(self).chain().skip(old(self).index() as int),
            ) ==> ({
                let (r, st) = old(self).chain()[old(self).index() as int].consume_outcome(
                    old(self).state(),
                    *event,
                );
                final(self).settled_at(
                    old(self).index(),
                    old(self).chain().skip(old(self).index() + 1int),
                    r,
                    st,
                )
            }),
    {
        if !self.is_waiting_for_event() {
            return;
        }
        let ghost rules = self.current_rule_chain@;
        let ghost i = self.current_rule_index as int;
        proof {
            lemma_all_state_outcomes_skip(rules, i);
        }
        let rule = &mut self.current_rule_chain[self.current_rule_index];
        let result = rule.consume(&mut self.game_state, event);
        proof {
            assert(self.current_rule_chain@.skip(i + 1) =~= rules.skip(i + 1));
            lemma_all_state_outcomes_from(rules, i);
            lemma_all_state_outcomes_from(self.current_rule_chain@, i);
        }
        self.consume_rule_result(result);
    }

    /// Takes the result of the current rule: on completion the engine moves on to the next rule
    /// and keeps processing; otherwise it stays on this rule, waiting for an event or with the
    /// game over. This is the decision that [Self::process_rules] and [Self::consume] make on
    /// what a rule returns.
    pub fn consume_rule_result(&mut self, result: RuleResult)
        requires
            old(self).index() < old(self).chain().len(),
            old(self).chain()[old(self).index() as int].can_consume(),
            can_apply_from(old(self).chain(), old(self).index() + 1int),
        ensures
            final(self).wf(),
            final(self).rules_ready(),
            final(self).is_settled(),
            final(self).index() >= old(self).index(),
            same_outside(
                old(self).chain(),
                final(self).chain(),
                old(self).index() as int,
                final(self).index() as int,
            ),
            result == RuleResult::Complete ==> final(self).index() > old(self).index(),
            result == RuleResult::Complete && old(self).index() + 1 == old(self).chain().len()
                ==> final(self).index() == old(self).index() + 1 && final(self).status()
                == EngineStatus::Ready && final(self).state() == old(self).state() && final(self).chain()
                == old(self).chain(),
            result == RuleResult::WaitingForEvent ==> final(self).status() == EngineStatus::WaitingForEvent
                && final(self).same_but_status(*old(self)),
            result == RuleResult::GameOver ==> final(self).status() == EngineStatus::GameOver
                && final(self).same_but_status(*old(self)),
            all_state_outcomes(old(self).chain().skip(old(self).index() + 1int))
                ==> final(self).settled_at(
                old(self).index(),
                old(self).chain().skip(old(self).index() + 1int),
                result,
                old(self).state(),
            ),
            old(self).rules_state_outcomes() ==> final(self).rules_state_outcomes(),
            result == RuleResult::Complete && old(self).index() + 1 < old(self).chain().len() && old(
                self,
            ).chain()[old(self).index() + 1int].states_outcomes() ==> ({
                let (r1, s1) = old(self).chain()[old(self).index() + 1int].apply_outcome(
                    old(self).state(),
                );
                r1 != RuleResult::Complete ==> final(self).index() == old(self).index() + 1 && final(self).status() == status_of(r1) && final(self).state() == s1
            }),
        decreases old(self).chain().len() - old(self).index(), 0nat,
    {
        match result {
            RuleResult::Complete => {
                proof {
                    assert(self.current_rule_chain@.len() == self.current_rule_chain.len());
                    let rules = self.current_rule_chain@;
                    let i = self.current_rule_index as int;
                    lemma_all_state_outcomes_from(rules, i);
                    lemma_all_state_outcomes_from(rules, i + 1);
                    if i + 1 < rules.len() {
                        lemma_all_state_outcomes_skip(rules, i + 1);
                    } else {
                        assert(rules.skip(i + 1) =~= Seq::<Box<dyn Rule<GameStateT, GameEventT>>>::empty());
                    }
                }
                self.engine_status = EngineStatus::Ready;
                self.current_rule_index = self.current_rule_index + 1;
                self.process_rules();
            },
            RuleResult::WaitingForEvent => {
                self.engine_status = EngineStatus::WaitingForEvent;
            },
            RuleResult::GameOver => {
                self.engine_status = EngineStatus::GameOver;
            },
        }
    }
}

/// Once processing has settled, processing again does nothing: the engine then waits for an
/// event, the game is over, or its rules have run out.
pub proof fn law_settled_engine_is_idle<GameStateT: GameState, GameEventT: GameEvent>(
    e: RulesEngine<GameStateT, GameEventT>,
)
    requires
        e.wf(),
        e.is_settled(),
    ensures
        e.is_idle(),
{
}

/// A composite answers for an event what the sub-rule it stands on answers, and states its
/// answer wherever that sub-rule does.
pub proof fn law_composite_validates_with_its_current_sub_rule<GameStateT: GameState, GameEventT: GameEvent>(
    c: CompositeRule<GameStateT, GameEventT>,
    state: GameStateT,
    event: GameEventT,
)
    requires
        c.index() < c.sub_rules().len(),
        c.sub_rules()[c.index() as int].states_validation(),
    ensures
        c.states_validation(),
        c.validates(state, event) == c.sub_rules()[c.index() as int].validates(state, event),
{
}

/// Where the sub-rule that a composite applies or passes an event to waits or ends the game, the
/// composite gives that same result and the state that sub-rule left, and stays on it: no later
/// sub-rule runs.
pub proof fn law_composite_stops_where_its_sub_rule_stops<GameStateT: GameState, GameEventT: GameEvent>(
    c: CompositeRule<GameStateT, GameEventT>,
    state: GameStateT,
    event: GameEventT,
)
    ensures
        c.sub_rules().len() > 0 ==> ({
            let (r0, s0) = c.sub_rules()[0].apply_outcome(state);
            r0 != RuleResult::Complete ==> c.apply_outcome(state) == (r0, s0) && c.apply_position(
                state,
            ).0 == 0 && (r0 == RuleResult::WaitingForEvent ==> c.apply_position(state).1)
        }),
        c.index() < c.sub_rules().len() ==> ({
            let (r0, s0) = c.sub_rules()[c.index() as int].consume_outcome(state, event);
            r0 != RuleResult::Complete ==> c.consume_outcome(state, event) == (r0, s0)
                && c.consume_position(state, event).0 == c.index() && (r0
                == RuleResult::WaitingForEvent ==> c.consume_position(state, event).1)
        }),
{
}

/// A composite reports completion exactly when it stands past its last sub-rule, so a composite
/// that completed validates no further event and completes again at once.
pub proof fn law_completed_composite_is_done<GameStateT: GameState, GameEventT: GameEvent>(
    c: CompositeRule<GameStateT, GameEventT>,
    r: RuleResult,
)
    requires
        c.wf(),
        c.settled_with(r),
        r == RuleResult::Complete,
    ensures
        c.index() == c.sub_rules().len(),
        !c.waiting(),
{
}

} // verus!
