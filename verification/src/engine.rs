//! The rules engine: it walks a tree of rules depth first, applies each rule to the game state,
//! and stops where a rule waits for an event, where the game ends, or where the rules run out.

use vstd::prelude::*;

use crate::rule::{
    Action, forest_ok, GameEvent, GameState, RuleId, RuleList, RuleNode, RuleResult, RuleSlice, act_at,
    lemma_rule_at_valid, lemma_rules_kept_trans, lemma_skels, node_apply_outcome, node_at_path,
    node_consume_outcome, leaves_state_from, leaves_state_after, lemma_leaves_state_after_kept,
    leaf_states, rule_at, leaf_id_ok,
    lemma_rule_at_node_at_path, node_list, node_states_validation, node_validates, only_at,
    rules_kept, skel, skels,
};
use crate::shape::{
    Shape, advance_path, children_list, descend_path, first_leaf, forest_nonempty, forest_size,
    lemma_composite_has_first_child, lemma_descend, lemma_first_leaf_is_leaf, lemma_first_leaf_descend,
    lemma_first_leaf_stays, lemma_parent_valid, lemma_remaining_advance,
    lemma_next_leaf_progress, lemma_remaining_descend, walkable, lemma_walkable,
    lemma_children_list_empty_extends, lemma_walk_succ, next_leaf, node_at, path_of, remaining,
    sibling_count, start_path, valid_path, walk,
};

verus! {

/// The status of the rules engine.
#[derive(Clone, Copy, Debug, PartialEq)]
pub enum EngineStatus {
    /// The engine is ready to process rules.
    Ready,
    /// The engine is waiting for an event to be consumed before proceeding with the next rule.
    WaitingForEvent,
    /// The engine has reached a game-over state, and no further rules can be processed.
    GameOver,
}

/// The ids recorded on the stack agree with the path: where the path passes through a
/// composite, the id recorded at that level is the composite's id.
pub open spec fn ids_match(l: Seq<Shape>, p: Seq<int>, ids: Seq<RuleId>) -> bool {
    forall|k: int|
        0 <= k < p.len() ==> (#[trigger] node_at(l, p.take(k + 1)) matches Shape::Composite(
            id,
            _,
        ) ==> ids[k] == id)
}

/// `p` is one of the first `n + 1` stops of the walk over the single rules from `start`.
pub open spec fn on_walk(l: Seq<Shape>, start: Seq<int>, n: nat, p: Seq<int>) -> bool {
    exists|i: nat| i <= n && #[trigger] walk(l, start, i) == p
}

/// The walk over the single rules from `start` has made `n` steps and stands at `after_path`,
/// and every single rule that the walk did not stop at is in `after_chain` as it was in
/// `before`.
pub open spec fn walked<S: GameState, E: GameEvent>(
    l: Seq<Shape>,
    start: Seq<int>,
    n: nat,
    before: Seq<RuleNode<S, E>>,
    after_path: Seq<int>,
    after_chain: Seq<RuleNode<S, E>>,
) -> bool {
    &&& after_path == walk(l, start, n)
    &&& rules_kept(before, after_chain, |p: Seq<int>| on_walk(l, start, n, p))
}

/// The engine status that a rule's result leaves: ready after completion, waiting, or over.
pub open spec fn status_of(r: RuleResult) -> EngineStatus {
    match r {
        RuleResult::Complete => EngineStatus::Ready,
        RuleResult::WaitingForEvent => EngineStatus::WaitingForEvent,
        RuleResult::GameOver => EngineStatus::GameOver,
    }
}

/// Where processing goes from the single rule at `p` of `chain` that gave `result` and left
/// `state`: on completion, the next single rule in depth-first order is applied, and so on,
/// until a rule waits for an event, the game is over, or the rules run out. Gives the path the
/// engine stands on then, the last result, and the state. The rules are taken as they stand in
/// `chain`, each with what it states it does.
pub open spec fn settle_tree<S: GameState, E: GameEvent>(
    chain: Seq<RuleNode<S, E>>,
    p: Seq<int>,
    result: RuleResult,
    state: S,
) -> (Seq<int>, RuleResult, S)
    decreases remaining(skels(chain), p),
{
    let l = skels(chain);
    if !(forest_nonempty(l) && valid_path(l, p) && node_at(l, p) is Leaf) {
        (p, result, state)
    } else {
        match result {
            RuleResult::Complete => {
                let q = next_leaf(l, p);
                proof {
                    lemma_next_leaf_progress(l, p);
                }
                if q.len() == 0 {
                    (q, RuleResult::Complete, state)
                } else {
                    let (r, s) = node_apply_outcome(rule_at(chain, q)->0, state);
                    settle_tree(chain, q, r, s)
                }
            },
            RuleResult::WaitingForEvent => (p, RuleResult::WaitingForEvent, state),
            RuleResult::GameOver => (p, RuleResult::GameOver, state),
        }
    }
}

/// Where processing goes from the stop `q` of the walk, with `state`: nowhere at the end of the
/// walk; otherwise the single rule at `q` is applied and processing settles from its result.
pub open spec fn run_from<S: GameState, E: GameEvent>(
    chain: Seq<RuleNode<S, E>>,
    q: Seq<int>,
    state: S,
) -> (Seq<int>, RuleResult, S) {
    if q.len() == 0 {
        (q, RuleResult::Complete, state)
    } else {
        let (r, s) = node_apply_outcome(rule_at(chain, q)->0, state);
        settle_tree(chain, q, r, s)
    }
}

/// Processing from a rule reads only the rules after it in depth-first order: a tree that
/// differs from another at most in the single rule at `x`, which comes no later than `p`, gives
/// the same outcome from `p`.
pub proof fn lemma_settle_tree_frame<S: GameState, E: GameEvent>(
    c: Seq<RuleNode<S, E>>,
    c1: Seq<RuleNode<S, E>>,
    x: Seq<int>,
    p: Seq<int>,
    result: RuleResult,
    state: S,
)
    requires
        skels(c1) == skels(c),
        rules_kept(c, c1, only_at(x)),
        remaining(skels(c), p) <= remaining(skels(c), x),
    ensures
        settle_tree(c1, p, result, state) == settle_tree(c, p, result, state),
    decreases remaining(skels(c), p),
{
    let l = skels(c);
    if forest_nonempty(l) && valid_path(l, p) && node_at(l, p) is Leaf {
        if result == RuleResult::Complete {
            let q = next_leaf(l, p);
            lemma_next_leaf_progress(l, p);
            if q.len() > 0 {
                lemma_rule_at_valid(c, q);
                assert(q != x);
                assert(rule_at(c1, q) == rule_at(c, q));
                let (r, s) = node_apply_outcome(rule_at(c, q)->0, state);
                lemma_settle_tree_frame(c, c1, x, q, r, s);
            }
        }
    }
}

/// A rule that waits for an event or ends the game stops processing on itself: the engine stays
/// on that rule, with that result and the state the rule left.
pub proof fn law_processing_stops_where_a_rule_stops<S: GameState, E: GameEvent>(
    chain: Seq<RuleNode<S, E>>,
    p: Seq<int>,
    result: RuleResult,
    state: S,
)
    requires
        result != RuleResult::Complete,
    ensures
        settle_tree(chain, p, result, state) == (p, result, state),
{
}

/// A walk of no steps stands where it started and keeps every rule.
pub proof fn lemma_walked_stay<S: GameState, E: GameEvent>(
    l: Seq<Shape>,
    p: Seq<int>,
    chain: Seq<RuleNode<S, E>>,
)
    ensures
        walked(l, p, 0, chain, p, chain),
{
    assert(walk(l, p, 0) == p);
}

/// Touching at most the rule at `p`, then walking on from the stop after `p`, is walking from
/// `p` one step more.
pub proof fn lemma_walked_step<S: GameState, E: GameEvent>(
    l: Seq<Shape>,
    p: Seq<int>,
    n: nat,
    c0: Seq<RuleNode<S, E>>,
    c1: Seq<RuleNode<S, E>>,
    touched: spec_fn(Seq<int>) -> bool,
    path: Seq<int>,
    c2: Seq<RuleNode<S, E>>,
)
    requires
        rules_kept(c0, c1, touched),
        forall|q: Seq<int>| #[trigger] touched(q) ==> q == p,
        walked(l, next_leaf(l, p), n, c1, path, c2),
    ensures
        walked(l, p, n + 1, c0, path, c2),
{
    lemma_walk_succ(l, p, n);
    let t_next = |q: Seq<int>| on_walk(l, next_leaf(l, p), n, q);
    let t_all = |q: Seq<int>| on_walk(l, p, n + 1, q);
    assert forall|q: Seq<int>| #[trigger] t_next(q) implies t_all(q) by {
        let i = choose|i: nat| i <= n && #[trigger] walk(l, next_leaf(l, p), i) == q;
        lemma_walk_succ(l, p, i);
        assert(walk(l, p, i + 1) == q);
    }
    assert forall|q: Seq<int>| #[trigger] touched(q) implies t_all(q) by {
        assert(walk(l, p, 0) == p);
    }
    lemma_rules_kept_trans(c1, c2, c2, t_next, t_all);
    lemma_rules_kept_trans(c0, c1, c2, touched, t_all);
}

/// A rules engine that processes a tree of rules against a game state and handles game events.
#[verifier::reject_recursive_types(GameStateT)]
#[verifier::reject_recursive_types(GameEventT)]
pub struct RulesEngine<GameStateT: GameState, GameEventT: GameEvent> {
    game_state: GameStateT,
    current_rule_chain: RuleList<GameStateT, GameEventT>,
    rule_stack: Vec<usize>,
    rule_stack_ids: Vec<RuleId>,
    started: bool,
    engine_status: EngineStatus,
}

impl<GameStateT: GameState, GameEventT: GameEvent> RulesEngine<GameStateT, GameEventT> {
    /// The game state.
    pub closed spec fn state(&self) -> GameStateT {
        self.game_state
    }

    /// The rule chain, with the rules as they now stand.
    pub closed spec fn chain(&self) -> Seq<RuleNode<GameStateT, GameEventT>> {
        self.current_rule_chain@
    }

    /// The rule stack: the path through the rule tree to the current rule.
    pub closed spec fn stack(&self) -> Seq<usize> {
        self.rule_stack@
    }

    /// The ids recorded along the rule stack, one per level.
    pub closed spec fn ids(&self) -> Seq<RuleId> {
        self.rule_stack_ids@
    }

    /// Whether processing has started.
    pub closed spec fn is_started(&self) -> bool {
        self.started
    }

    /// The engine's status.
    pub closed spec fn status(&self) -> EngineStatus {
        self.engine_status
    }

    /// The shape of the rule tree.
    pub open spec fn shape(&self) -> Seq<Shape> {
        skels(self.chain())
    }

    /// The rule stack as a path of integers.
    pub open spec fn path(&self) -> Seq<int> {
        path_of(self.stack())
    }

    /// The stack is empty or a path to a rule, with one recorded id per level that agrees with
    /// every composite on the path, and, where the path ends at a single rule that states its
    /// id, with that rule's id.
    pub open spec fn path_ok(&self) -> bool {
        &&& self.ids().len() == self.stack().len()
        &&& (self.stack().len() == 0 || valid_path(self.shape(), self.path()))
        &&& ids_match(self.shape(), self.path(), self.ids())
        &&& self.stack().len() > 0 ==> leaf_id_ok(rule_at(self.chain(), self.path()), self.ids().last())
    }

    /// The engine's invariant: the stack is a well-kept path; before processing starts it is
    /// empty and the engine ready; and where the engine waits or the game is over, it stands on
    /// a single rule, never on a composite.
    pub open spec fn wf(&self) -> bool {
        &&& self.path_ok()
        &&& !self.is_started() ==> self.stack().len() == 0 && self.status()
            == EngineStatus::Ready
        &&& self.status() != EngineStatus::Ready ==> self.stack().len() > 0 && node_at(
            self.shape(),
            self.path(),
        ) is Leaf
    }

    /// The engine has nothing to do until something changes: it has started, and it waits for
    /// an event, the game is over, or it has run out of rules.
    pub open spec fn is_idle(&self) -> bool {
        self.is_started() && (self.status() != EngineStatus::Ready || self.stack().len() == 0)
    }

    /// After processing, the engine is ready only once the rules have run out.
    pub open spec fn is_settled(&self) -> bool {
        &&& self.is_started()
        &&& self.status() == EngineStatus::Ready ==> self.stack().len() == 0
    }

    /// The number of rule-tree nodes that processing has still to visit; one more than the whole
    /// tree before processing starts.
    pub open spec fn remaining_work(&self) -> nat {
        if self.is_started() {
            remaining(self.shape(), self.path())
        } else {
            forest_size(self.shape()) + 1
        }
    }

    /// `self` and `other` differ at most in their status.
    pub open spec fn same_but_status(&self, other: Self) -> bool {
        &&& self.state() == other.state()
        &&& self.chain() == other.chain()
        &&& self.stack() == other.stack()
        &&& self.ids() == other.ids()
        &&& self.is_started() == other.is_started()
    }

    /// The engine stands where processing settles from the single rule at `p` of `chain` that
    /// gave `result` and left `state`, with the status that the last result leaves and the state
    /// then.
    pub open spec fn settled_at(
        &self,
        chain: Seq<RuleNode<GameStateT, GameEventT>>,
        p: Seq<int>,
        result: RuleResult,
        state: GameStateT,
    ) -> bool {
        let (q, r, st) = settle_tree(chain, p, result, state);
        &&& self.path() == q
        &&& self.status() == status_of(r)
        &&& self.state() == st
    }

    /// Where processing goes on from: the first single rule at or below the current rule; before
    /// processing starts, the first single rule of the chain.
    pub open spec fn resume_path(&self) -> Seq<int> {
        if self.is_started() {
            first_leaf(self.shape(), self.path())
        } else {
            start_path(self.shape())
        }
    }

    /// Creates a new [RulesEngine] with default game state and a specified rule chain.
    pub fn new(rule_chain: RuleList<GameStateT, GameEventT>) -> (r: Self)
        ensures
            r.chain() == rule_chain@,
            r.stack().len() == 0,
            r.ids().len() == 0,
            !r.is_started(),
            r.status() == EngineStatus::Ready,
            r.wf(),
    {
        RulesEngine {
            game_state: GameStateT::default(),
            current_rule_chain: rule_chain,
            rule_stack: Vec::new(),
            rule_stack_ids: Vec::new(),
            started: false,
            engine_status: EngineStatus::Ready,
        }
    }

    /// Creates a new [RulesEngine] with an initial game state and a rule chain.
    pub fn new_with_state(
        rule_chain: RuleList<GameStateT, GameEventT>,
        initial_state: GameStateT,
    ) -> (r: Self)
        ensures
            r.state() == initial_state,
            r.chain() == rule_chain@,
            r.stack().len() == 0,
            r.ids().len() == 0,
            !r.is_started(),
            r.status() == EngineStatus::Ready,
            r.wf(),
    {
        RulesEngine {
            game_state: initial_state,
            current_rule_chain: rule_chain,
            rule_stack: Vec::new(),
            rule_stack_ids: Vec::new(),
            started: false,
            engine_status: EngineStatus::Ready,
        }
    }

    /// Returns a reference to the current game state.
    pub fn game_state(&self) -> (r: &GameStateT)
        ensures
            *r == self.state(),
    {
        &self.game_state
    }

    /// Returns the current rule stack: the path through the rule tree to the current rule.
    pub fn rule_stack(&self) -> (r: &[usize])
        ensures
            r@ == self.stack(),
    {
        self.rule_stack.as_slice()
    }

    /// Returns the [RuleId]s recorded along the path to the current rule.
    pub fn current_rule_id(&self) -> (r: &Vec<RuleId>)
        ensures
            r@ == self.ids(),
    {
        &self.rule_stack_ids
    }

    /// Returns true if the engine has started processing rules.
    pub fn started(&self) -> (r: bool)
        ensures
            r == self.is_started(),
    {
        self.started
    }

    /// Returns true if the engine is waiting for an event to be consumed, false otherwise.
    pub fn is_waiting_for_event(&self) -> (r: bool)
        ensures
            r == (self.status() == EngineStatus::WaitingForEvent),
    {
        match self.engine_status {
            EngineStatus::WaitingForEvent => true,
            _ => false,
        }
    }

    /// Returns true if no composite in the rule chain, at any depth, is without sub-rules; the
    /// engine can process and consume only on such a chain.
    pub fn rules_well_formed(&self) -> (r: bool)
        ensures
            r == forest_nonempty(self.shape()),
    {
        forest_ok(self.current_rule_chain.as_slice())
    }

    /// Returns the current status of the rules engine.
    pub fn engine_status(&self) -> (r: EngineStatus)
        ensures
            r == self.status(),
    {
        self.engine_status
    }

    /// Follows every index of `rule_stack` but the last, and returns the list of rules that the
    /// last index picks from; `None` where the walk meets a single rule.
    fn parent_list<'a>(
        rule_chain: &'a RuleSlice<GameStateT, GameEventT>,
        rule_stack: &'a [usize],
    ) -> (r: Option<&'a RuleSlice<GameStateT, GameEventT>>)
        requires
            rule_stack@.len() > 0,
            walkable(skels(rule_chain@), path_of(rule_stack@)),
        ensures
            r matches Some(s) ==> skels(s@) == children_list(
                skels(rule_chain@),
                path_of(rule_stack@).drop_last(),
            ) && s@ == node_list(rule_chain@, path_of(rule_stack@).drop_last()),
            r is None ==> children_list(
                skels(rule_chain@),
                path_of(rule_stack@).drop_last(),
            ).len() == 0,
    {
        let ghost l = skels(rule_chain@);
        let ghost p = path_of(rule_stack@);
        let ghost q = p.drop_last();
        let n = rule_stack.len();
        let mut rules = rule_chain;
        let mut k: usize = 0;
        proof {
            assert(p.take(0) =~= Seq::<int>::empty());
        }
        while k + 1 < n
            invariant
                n == rule_stack@.len(),
                n > 0,
                p == path_of(rule_stack@),
                q == p.drop_last(),
                l == skels(rule_chain@),
                walkable(l, p),
                k + 1 <= n,
                k == 0 || (valid_path(l, p.take(k as int)) && node_at(l, p.take(k as int))
                    is Composite),
                skels(rules@) == children_list(l, p.take(k as int)),
                rules@ == node_list(rule_chain@, p.take(k as int)),
            decreases n - k,
        {
            let idx = rule_stack[k];
            proof {
                assert(valid_path(l, p.take(k + 1)));
                assert(p.take(k + 1).drop_last() =~= p.take(k as int));
                assert(p.take(k + 1).last() == idx);
                lemma_skels(rules@);
            }
            let node = &rules[idx];
            match node.children() {
                Some(children) => {
                    rules = children;
                },
                None => {
                    proof {
                        assert(q.take(k + 1) =~= p.take(k + 1));
                        lemma_children_list_empty_extends(l, q, k + 1);
                    }
                    return None;
                },
            }
            k = k + 1;
        }
        proof {
            assert(p.take(k as int) =~= q);
        }
        Some(rules)
    }

    /// Returns the node that the rule stack leads to, or `None` where it leads to no rule.
    fn current_rule<'a>(
        rule_chain: &'a RuleSlice<GameStateT, GameEventT>,
        rule_stack: &'a [usize],
    ) -> (r: Option<&'a RuleNode<GameStateT, GameEventT>>)
        requires
            walkable(skels(rule_chain@), path_of(rule_stack@)),
        ensures
            r is Some <==> valid_path(skels(rule_chain@), path_of(rule_stack@)),
            r matches Some(n) ==> skel(*n) == node_at(skels(rule_chain@), path_of(rule_stack@)),
            r matches Some(n) ==> *n == node_at_path(rule_chain@, path_of(rule_stack@)),
    {
        let n = rule_stack.len();
        if n == 0 {
            return None;
        }
        let ghost l = skels(rule_chain@);
        let ghost p = path_of(rule_stack@);
        match Self::parent_list(rule_chain, rule_stack) {
            None => None,
            Some(rules) => {
                let index = rule_stack[n - 1];
                proof {
                    lemma_skels(rules@);
                    assert(p.last() == index);
                }
                if index < rules.len() {
                    Some(&rules[index])
                } else {
                    None
                }
            },
        }
    }

    /// Returns the number of rules in the list that holds the current rule.
    fn current_sibling_count(
        rule_chain: &RuleSlice<GameStateT, GameEventT>,
        rule_stack: &[usize],
    ) -> (r: usize)
        requires
            walkable(skels(rule_chain@), path_of(rule_stack@)),
        ensures
            r == sibling_count(skels(rule_chain@), path_of(rule_stack@)),
    {
        proof {
            lemma_skels(rule_chain@);
        }
        if rule_stack.len() == 0 {
            return rule_chain.len();
        }
        match Self::parent_list(rule_chain, rule_stack) {
            None => 0,
            Some(rules) => {
                proof {
                    lemma_skels(rules@);
                }
                rules.len()
            },
        }
    }

    /// Steps one level down, to the first child of the current rule (at the start: to the first
    /// rule of the chain), where there is one.
    fn descend_into_rulechain(&mut self)
        requires
            old(self).path_ok(),
        ensures
            final(self).path() == descend_path(old(self).shape(), old(self).path()),
            final(self).path_ok(),
            final(self).chain() == old(self).chain(),
            final(self).state() == old(self).state(),
            final(self).is_started() == old(self).is_started(),
            final(self).status() == old(self).status(),
    {
        let ghost l = self.shape();
        let ghost p = self.path();
        self.rule_stack.push(0);
        proof {
            assert(path_of(self.rule_stack@) =~= p.push(0));
            lemma_descend(l, p);
            assert(p.push(0).drop_last() =~= p);
            lemma_walkable(self.shape(), self.path());
        }
        match Self::current_rule(self.current_rule_chain.as_slice(), self.rule_stack.as_slice()) {
            Some(new_rule) => {
                let id = new_rule.id();
                self.rule_stack_ids.push(id);
                proof {
                    let p2 = p.push(0);
                    lemma_rule_at_node_at_path(self.chain(), p2);
                    assert forall|k: int| 0 <= k < p2.len() implies (#[trigger] node_at(
                        l,
                        p2.take(k + 1),
                    ) matches Shape::Composite(cid, _) ==> self.ids()[k] == cid) by {
                        if k < p.len() {
                            assert(p2.take(k + 1) =~= p.take(k + 1));
                        } else {
                            assert(p2.take(k + 1) =~= p2);
                        }
                    }
                }
            },
            None => {
                self.rule_stack.pop();
                proof {
                    assert(path_of(self.rule_stack@) =~= p);
                }
            },
        }
    }

    /// Moves the rule stack on to the next rule: the next sibling of the current rule, or else,
    /// level by level upwards, the next sibling of an ancestor; the stack ends empty when there
    /// is no next rule.
    fn advance(&mut self)
        requires
            old(self).path_ok(),
        ensures
            final(self).path() == advance_path(old(self).shape(), old(self).path()),
            final(self).path_ok(),
            final(self).chain() == old(self).chain(),
            final(self).state() == old(self).state(),
            final(self).is_started() == old(self).is_started(),
            final(self).status() == old(self).status(),
        decreases old(self).rule_stack@.len(),
    {
        let ghost l = self.shape();
        let ghost p = self.path();
        let n = self.rule_stack.len();
        if n == 0 {
            return;
        }
        proof {
            if n > 1 {
                lemma_parent_valid(l, p);
            }
            lemma_walkable(self.shape(), self.path());
        }
        let siblings = Self::current_sibling_count(
            self.current_rule_chain.as_slice(),
            self.rule_stack.as_slice(),
        );
        let last = self.rule_stack[n - 1] + 1;
        self.rule_stack.set(n - 1, last);
        if last < siblings {
            let ghost p2 = p.update(p.len() - 1, p.last() + 1);
            proof {
                assert(path_of(self.rule_stack@) =~= p2);
                assert(p2.drop_last() =~= p.drop_last());
                assert(advance_path(l, p) == p2);
                lemma_walkable(self.shape(), self.path());
            }
            let next_id = match Self::current_rule(
                self.current_rule_chain.as_slice(),
                self.rule_stack.as_slice(),
            ) {
                Some(rule) => rule.id(),
                None => {
                    assert(false);
                    RuleId("")
                },
            };
            self.rule_stack_ids.set(n - 1, next_id);
            proof {
                lemma_rule_at_node_at_path(self.chain(), p2);
                assert forall|k: int| 0 <= k < p2.len() implies (#[trigger] node_at(
                    l,
                    p2.take(k + 1),
                ) matches Shape::Composite(cid, _) ==> self.ids()[k] == cid) by {
                    if k < p.len() - 1 {
                        assert(p2.take(k + 1) =~= p.take(k + 1));
                    } else {
                        assert(p2.take(k + 1) =~= p2);
                    }
                }
            }
            return;
        }
        let ghost q = p.drop_last();
        self.rule_stack.pop();
        self.rule_stack_ids.pop();
        proof {
            assert(path_of(self.rule_stack@) =~= q);
            assert(advance_path(l, p) == advance_path(l, q));
            if q.len() > 0 {
                lemma_rule_at_valid(self.chain(), q);
            }
            assert forall|k: int| 0 <= k < q.len() implies (#[trigger] node_at(
                l,
                q.take(k + 1),
            ) matches Shape::Composite(cid, _) ==> self.ids()[k] == cid) by {
                assert(q.take(k + 1) =~= p.take(k + 1));
                assert(node_at(l, p.take(k + 1)) matches Shape::Composite(cid, _) ==> self.ids()[k]
                    == cid);
            }
        }
        self.advance();
    }

    /// Processes the rules in the rule chain, as many as possible, until either all rules are
    /// processed, or a rule waits for an event, or the game is over. Composites are entered and
    /// their sub-rules processed in their place. Nothing happens while the engine waits for an
    /// event or once the game is over.
    pub fn process_rules(&mut self)
        requires
            old(self).wf(),
            !old(self).is_idle() ==> forest_nonempty(old(self).shape()),
        ensures
            final(self).wf(),
            final(self).shape() == old(self).shape(),
            final(self).is_settled(),
            old(self).is_idle() ==> *final(self) == *old(self),
            final(self).remaining_work() <= old(self).remaining_work(),
            exists|n: nat|
                walked(
                    old(self).shape(),
                    old(self).resume_path(),
                    n,
                    old(self).chain(),
                    final(self).path(),
                    final(self).chain(),
                ),
            !old(self).is_idle() ==> (match rule_at(old(self).chain(), old(self).resume_path()) {
                Some(RuleNode::Leaf(rule)) => rule.states_outcomes() ==> ({
                    let (r0, s0) = rule.apply_outcome(old(self).state());
                    r0 != RuleResult::Complete ==> final(self).path() == old(self).resume_path()
                        && final(self).status() == status_of(r0) && final(self).state() == s0
                }),
                _ => true,
            }),
            !old(self).is_idle() && leaves_state_from(old(self).chain(), old(self).resume_path()) ==> ({
                let (q, r, st) = run_from(old(self).chain(), old(self).resume_path(), old(self).state());
                &&& final(self).path() == q
                &&& final(self).status() == status_of(r)
                &&& final(self).state() == st
            }),
        decreases old(self).remaining_work(), 1nat,
    {
        let ghost l = self.shape();
        let ghost start = self.resume_path();
        if !self.started {
            proof {
                assert(self.path() =~= Seq::<int>::empty());
                assert(children_list(l, Seq::<int>::empty()) == l);
                assert(Seq::<int>::empty().push(0) =~= seq![0int]);
                if l.len() > 0 {
                    lemma_remaining_descend(l, Seq::<int>::empty());
                }
            }
            self.descend_into_rulechain();
            self.started = true;
        }
        match self.engine_status {
            EngineStatus::Ready => {},
            _ => {
                proof {
                    lemma_first_leaf_stays(l, self.path());
                    lemma_walked_stay(l, start, self.chain());
                }
                return;
            },
        }
        proof {
            if self.path().len() > 1 {
                lemma_parent_valid(l, self.path());
            }
            lemma_walkable(self.shape(), self.path());
        }
        let is_composite = match Self::current_rule(
            self.current_rule_chain.as_slice(),
            self.rule_stack.as_slice(),
        ) {
            None => {
                proof {
                    lemma_first_leaf_stays(l, self.path());
                    lemma_walked_stay(l, start, self.chain());
                    if !old(self).is_started() && l.len() == 0 {
                        assert(start =~= Seq::<int>::empty());
                    }
                }
                return;
            },
            Some(rule) => rule.children().is_some(),
        };
        if is_composite {
            let ghost p = self.path();
            proof {
                lemma_composite_has_first_child(l, p);
                lemma_remaining_descend(l, p);
                lemma_first_leaf_descend(l, p);
            }
            self.descend_into_rulechain();
            self.process_rules();
        } else {
            let ghost p = self.path();
            let ghost c0 = self.chain();
            proof {
                assert(p.skip(0) =~= p);
                lemma_first_leaf_stays(l, p);
            }
            let result = act_at(
                &mut self.current_rule_chain,
                &self.rule_stack,
                0,
                &mut self.game_state,
                &Action::Apply,
            );
            let ghost c1 = self.chain();
            let ghost s1 = self.state();
            proof {
                lemma_rule_at_valid(c0, p);
                if leaves_state_from(c0, p) {
                    assert(leaf_states(rule_at(c0, p)));
                    lemma_leaves_state_after_kept(c0, c1, p);
                }
                lemma_settle_tree_frame(c0, c1, p, p, result, s1);
            }
            self.consume_rule_result(result);
            proof {
                let n = choose|n: nat| walked(l, p, n, c1, self.path(), self.chain());
                let t_act = only_at(p);
                let t_walk = |q: Seq<int>| on_walk(l, p, n, q);
                assert forall|q: Seq<int>| #[trigger] t_act(q) implies t_walk(q) by {
                    assert(walk(l, p, 0) == p);
                }
                lemma_rules_kept_trans(c0, c1, self.chain(), t_act, t_walk);
                assert(walked(l, start, n, c0, self.path(), self.chain()));
            }
        }
    }

    /// Returns true if the event is valid for the current rule, false otherwise. There is no
    /// current rule before processing starts and after the rules run out; a composite validates
    /// no event.
    pub fn validate(&self, event: &GameEventT) -> (r: bool)
        requires
            self.wf(),
        ensures
            self.stack().len() == 0 ==> !r,
            self.stack().len() > 0 ==> (match node_at_path(self.chain(), self.path()) {
                RuleNode::Leaf(rule) => rule.states_validation() ==> r == rule.validates(
                    self.state(),
                    *event,
                ),
                RuleNode::Composite(_) => !r,
            }),
            self.stack().len() > 0 && node_states_validation(node_at_path(self.chain(), self.path()))
                ==> r == node_validates(node_at_path(self.chain(), self.path()), self.state(), *event),
    {
        proof {
            if self.path().len() > 1 {
                lemma_parent_valid(self.shape(), self.path());
            }
            lemma_walkable(self.shape(), self.path());
        }
        match Self::current_rule(self.current_rule_chain.as_slice(), self.rule_stack.as_slice()) {
            Some(current_rule) => current_rule.validate(&self.game_state, event),
            None => false,
        }
    }

    /// Consumes a game event: the rule that waits for it processes it and updates the game state.
    /// If the rule completes, the engine goes on processing as many rules as possible. An event
    /// that arrives while the engine does not wait for one is ignored.
    pub fn consume(&mut self, event: &GameEventT)
        requires
            old(self).wf(),
            old(self).status() == EngineStatus::WaitingForEvent ==> forest_nonempty(old(self).shape()),
        ensures
            final(self).wf(),
            final(self).shape() == old(self).shape(),
            old(self).status() != EngineStatus::WaitingForEvent ==> *final(self) == *old(self),
            old(self).status() == EngineStatus::WaitingForEvent ==> final(self).is_settled(),
            old(self).status() == EngineStatus::WaitingForEvent ==> (match rule_at(
                old(self).chain(),
                old(self).path(),
            ) {
                Some(RuleNode::Leaf(rule)) => rule.states_outcomes() ==> ({
                    let (r0, s0) = rule.consume_outcome(old(self).state(), *event);
                    &&& r0 != RuleResult::Complete ==> final(self).status() == status_of(r0)
                        && final(self).path() == old(self).path() && final(self).ids() == old(
                        self,
                    ).ids() && final(self).state() == s0
                    &&& r0 == RuleResult::Complete ==> final(self).remaining_work() < old(
                        self,
                    ).remaining_work()
                }),
                _ => true,
            }),
            old(self).status() == EngineStatus::WaitingForEvent && leaves_state_from(
                old(self).chain(),
                old(self).path(),
            )
                ==> ({
                let (r, s) = node_consume_outcome(
                    rule_at(old(self).chain(), old(self).path())->0,
                    old(self).state(),
                    *event,
                );
                final(self).settled_at(old(self).chain(), old(self).path(), r, s)
            }),
            final(self).remaining_work() <= old(self).remaining_work(),
            exists|n: nat|
                walked(
                    old(self).shape(),
                    old(self).path(),
                    n,
                    old(self).chain(),
                    final(self).path(),
                    final(self).chain(),
                ),
    {
        if !self.is_waiting_for_event() {
            proof {
                lemma_walked_stay(self.shape(), self.path(), self.chain());
            }
            return;
        }
        let ghost l = self.shape();
        let ghost p = self.path();
        let ghost c0 = self.chain();
        proof {
            assert(p.skip(0) =~= p);
        }
        let result = act_at(
            &mut self.current_rule_chain,
            &self.rule_stack,
            0,
            &mut self.game_state,
            &Action::Consume(event),
        );
        let ghost c1 = self.chain();
        let ghost s1 = self.state();
        proof {
            lemma_rule_at_valid(c0, p);
            if leaves_state_from(c0, p) {
                assert(leaf_states(rule_at(c0, p)));
                lemma_leaves_state_after_kept(c0, c1, p);
            }
            lemma_settle_tree_frame(c0, c1, p, p, result, s1);
        }
        self.consume_rule_result(result);
        proof {
            let n = choose|n: nat| walked(l, p, n, c1, self.path(), self.chain());
            let t_act = only_at(p);
            let t_walk = |q: Seq<int>| on_walk(l, p, n, q);
            assert forall|q: Seq<int>| #[trigger] t_act(q) implies t_walk(q) by {
                assert(walk(l, p, 0) == p);
            }
            lemma_rules_kept_trans(c0, c1, self.chain(), t_act, t_walk);
            assert(walked(l, p, n, c0, self.path(), self.chain()));
        }
    }

    /// Takes the result of applying the current rule or of passing it an event: on completion
    /// the engine moves on to the next rule and keeps processing from there; otherwise it stays
    /// on this rule, waiting for an event or with the game over. This is the decision that
    /// [Self::process_rules] and [Self::consume] make on what a rule returns.
    pub fn consume_rule_result(&mut self, result: RuleResult)
        requires
            old(self).wf(),
            forest_nonempty(old(self).shape()),
            old(self).is_started(),
            old(self).stack().len() > 0,
            node_at(old(self).shape(), old(self).path()) is Leaf,
        ensures
            final(self).wf(),
            final(self).shape() == old(self).shape(),
            final(self).is_settled(),
            result == RuleResult::Complete ==> final(self).remaining_work() < old(self).remaining_work(),
            result == RuleResult::Complete ==> exists|n: nat|
                walked(
                    old(self).shape(),
                    next_leaf(old(self).shape(), old(self).path()),
                    n,
                    old(self).chain(),
                    final(self).path(),
                    final(self).chain(),
                ),
            result == RuleResult::WaitingForEvent ==> final(self).status() == EngineStatus::WaitingForEvent
                && final(self).same_but_status(*old(self)),
            result == RuleResult::GameOver ==> final(self).status() == EngineStatus::GameOver
                && final(self).same_but_status(*old(self)),
            final(self).remaining_work() <= old(self).remaining_work(),
            exists|n: nat|
                walked(
                    old(self).shape(),
                    old(self).path(),
                    n,
                    old(self).chain(),
                    final(self).path(),
                    final(self).chain(),
                ),
            leaves_state_after(old(self).chain(), old(self).path()) ==> final(self).settled_at(
                old(self).chain(),
                old(self).path(),
                result,
                old(self).state(),
            ),
            result == RuleResult::Complete && next_leaf(old(self).shape(), old(self).path()).len() > 0
                ==> (match rule_at(old(self).chain(), next_leaf(old(self).shape(), old(self).path())) {
                Some(RuleNode::Leaf(rule)) => rule.states_outcomes() ==> ({
                    let (r1, s1) = rule.apply_outcome(old(self).state());
                    r1 != RuleResult::Complete ==> final(self).path() == next_leaf(
                        old(self).shape(),
                        old(self).path(),
                    ) && final(self).status() == status_of(r1) && final(self).state() == s1
                }),
                _ => true,
            }),
            result == RuleResult::Complete && next_leaf(old(self).shape(), old(self).path()).len()
                == 0 ==> final(self).stack().len() == 0 && final(self).status() == EngineStatus::Ready
                && final(self).state() == old(self).state() && final(self).chain() == old(self).chain(),
        decreases old(self).remaining_work(), 0nat,
    {
        let ghost l = self.shape();
        let ghost p = self.path();
        let ghost c0 = self.chain();
        match result {
            RuleResult::Complete => {
                self.engine_status = EngineStatus::Ready;
                self.advance();
                proof {
                    lemma_remaining_advance(l, p);
                    assert(self.resume_path() == next_leaf(l, p));
                }
                proof {
                    if self.stack().len() == 0 {
                        lemma_first_leaf_stays(l, self.path());
                    } else {
                        lemma_first_leaf_is_leaf(l, self.path());
                    }
                }
                self.process_rules();
                proof {
                    lemma_next_leaf_progress(l, p);
                    let n = choose|n: nat|
                        walked(l, next_leaf(l, p), n, c0, self.path(), self.chain());
                    lemma_walked_step(l, p, n, c0, c0, |q: Seq<int>| false, self.path(), self.chain());
                }
            },
            RuleResult::WaitingForEvent => {
                self.engine_status = EngineStatus::WaitingForEvent;
                proof {
                    lemma_walked_stay(l, p, c0);
                }
            },
            RuleResult::GameOver => {
                self.engine_status = EngineStatus::GameOver;
                proof {
                    lemma_walked_stay(l, p, c0);
                }
            },
        }
    }
}

/// Once processing has settled, processing again does nothing: the engine then waits for an
/// event, the game is over, or its rules have run out.
pub proof fn law_settled_engine_is_idle<GameStateT: GameState, GameEventT: GameEvent>(
    e: RulesEngine<GameStateT, GameEventT>,
)
    requires
        e.wf(),
        e.is_settled(),
    ensures
        e.is_idle(),
{
}

/// The engine stands on a single rule wherever it waits for an event or the game is over, so
/// validating and consuming events always reach a rule written by the user, never a composite.
pub proof fn law_engine_rests_on_single_rules<GameStateT: GameState, GameEventT: GameEvent>(
    e: RulesEngine<GameStateT, GameEventT>,
)
    requires
        e.wf(),
        e.status() != EngineStatus::Ready,
    ensures
        e.stack().len() > 0,
        valid_path(e.shape(), e.path()),
        node_at(e.shape(), e.path()) is Leaf,
        first_leaf(e.shape(), e.path()) == e.path(),
{
}

impl<GameStateT: GameState, GameEventT: GameEvent> Default for RulesEngine<GameStateT, GameEventT> {
    /// An engine with the default game state and no rules.
    fn default() -> (r: Self)
        ensures
            r.chain().len() == 0,
            r.stack().len() == 0,
            r.ids().len() == 0,
            !r.is_started(),
            r.status() == EngineStatus::Ready,
            r.wf(),
    {
        RulesEngine::new(Vec::new())
    }
}

} // verus!
