//! Rules, their identities, and the trees that composite rules build out of them.

use vstd::prelude::*;

use crate::shape::{
    Shape, children_list, forest_nonempty, lemma_forest_nonempty_all, lemma_valid_path_cons,
    node_at, path_of, remaining, tree_nonempty, valid_path,
};

verus! {

/// An identifier for a rule, which can be used for debugging, logging, and other purposes.
#[derive(Clone, Copy, Debug, PartialEq, Eq, Hash)]
pub struct RuleId(pub &'static str);

/// The identity of a rule: a static id for the rule's type, and the id of a rule value.
pub trait RuleIdentity {
    /// The static [RuleId] for this rule.
    fn static_id() -> RuleId
        where Self: Sized;

    /// Whether this rule states, by [RuleIdentity::stated_id], what [RuleIdentity::id] returns.
    /// A rule that states nothing is taken for whatever id it gives.
    open spec fn states_id(&self) -> bool {
        false
    }

    /// The id that this rule gives, where it states it.
    open spec fn stated_id(&self) -> RuleId {
        RuleId("")
    }

    /// The [RuleId] for this rule.
    fn id(&self) -> (r: RuleId)
        ensures
            self.states_id() ==> r == self.stated_id(),
    ;
}

/// The possible results of a [Rule] being applied or consuming a game event.
#[derive(Debug, PartialEq)]
pub enum RuleResult {
    /// The rule has completed successfully, and the engine can proceed to the next rule.
    Complete,
    /// The rule is waiting for an event to be consumed before it can proceed.
    WaitingForEvent,
    /// The game is over, and no further rules can be processed.
    GameOver,
}

/// A game state, which must implement `Default` to allow for initialization.
pub trait GameState: Default {}

/// A game event, which must implement `Debug`.
pub trait GameEvent: std::fmt::Debug {}

/// A rule that can be applied to a game state. It consumes game events and modifies the game
/// state accordingly. Rules are written by the users of the engine; the engine is verified for
/// whatever `apply` and `consume` return and do. A rule may state what its methods give, by the
/// specification functions below; the engine's contracts then say what comes of it.
pub trait Rule<GameStateT: GameState, GameEventT: GameEvent>: RuleIdentity + Send + Sync {
    /// Whether this rule states, by [Rule::apply_outcome] and [Rule::consume_outcome], what
    /// [Rule::apply] and [Rule::consume] return and leave in the game state, and goes on stating
    /// it after each call. A rule that states nothing is taken for whatever it does.
    open spec fn states_outcomes(&self) -> bool {
        false
    }

    /// What [Rule::apply] returns for this rule, as it stands, from `state`, and the state it
    /// leaves, where the rule states them.
    open spec fn apply_outcome(&self, state: GameStateT) -> (RuleResult, GameStateT) {
        (RuleResult::Complete, state)
    }

    /// What [Rule::consume] returns for this rule, as it stands, from `state` and `event`, and
    /// the state it leaves, where the rule states them.
    open spec fn consume_outcome(&self, state: GameStateT, event: GameEventT) -> (
        RuleResult,
        GameStateT,
    ) {
        (RuleResult::Complete, state)
    }

    /// Applies the initial state of the rule to the game state, modifying it as necessary.
    fn apply(&mut self, state: &mut GameStateT) -> (r: RuleResult)
        ensures
            old(self).states_outcomes() ==> (r, *final(state)) == old(self).apply_outcome(
                *old(state),
            ) && final(self).states_outcomes(),
            final(self).states_id() == old(self).states_id(),
            old(self).states_id() ==> final(self).stated_id() == old(self).stated_id(),
    ;

    /// Whether this rule states, by [Rule::validates], what [Rule::validate] answers. A rule
    /// that states nothing is taken for whatever it answers.
    open spec fn states_validation(&self) -> bool {
        false
    }

    /// What [Rule::validate] answers for this rule, as it stands, where the rule states it.
    open spec fn validates(&self, state: GameStateT, event: GameEventT) -> bool {
        false
    }

    /// Validates whether a given game event is applicable to the current game state and rule.
    fn validate(&self, state: &GameStateT, event: &GameEventT) -> (r: bool)
        ensures
            self.states_validation() ==> r == self.validates(*state, *event),
    ;

    /// Consumes a game event, modifying the game state and returning the outcome.
    fn consume(&mut self, state: &mut GameStateT, event: &GameEventT) -> (r: RuleResult)
        ensures
            old(self).states_outcomes() ==> (r, *final(state)) == old(self).consume_outcome(
                *old(state),
                *event,
            ) && final(self).states_outcomes(),
            final(self).states_id() == old(self).states_id(),
            old(self).states_id() ==> final(self).stated_id() == old(self).stated_id(),
    ;
}

/// A list of rule nodes: the rule chain that an engine runs, or the children of a composite.
pub type RuleList<S, E> = Vec<RuleNode<S, E>>;

/// A slice into a [RuleList].
pub type RuleSlice<S, E> = [RuleNode<S, E>];

/// A composite rule that contains a chain of sub-rules, so that a rule made of several steps can
/// stand as one. The composite itself has no behavior: it is a container for its sub-rules.
#[verifier::reject_recursive_types(GameStateT)]
#[verifier::reject_recursive_types(GameEventT)]
pub struct CompositeRule<GameStateT: GameState, GameEventT: GameEvent> {
    id: RuleId,
    rules: RuleList<GameStateT, GameEventT>,
}

/// A node of a rule tree: a rule written by the user, or a composite of further nodes.
#[verifier::reject_recursive_types(GameStateT)]
#[verifier::reject_recursive_types(GameEventT)]
pub enum RuleNode<GameStateT: GameState, GameEventT: GameEvent> {
    /// A single rule.
    Leaf(Box<dyn Rule<GameStateT, GameEventT>>),
    /// A composite rule, whose sub-rules run one after another in its place.
    Composite(CompositeRule<GameStateT, GameEventT>),
}

impl<GameStateT: GameState, GameEventT: GameEvent> CompositeRule<GameStateT, GameEventT> {
    /// The id that this composite was made with.
    pub closed spec fn rule_id(&self) -> RuleId {
        self.id
    }

    /// The sub-rules of this composite, in order.
    pub closed spec fn sub_rules(&self) -> Seq<RuleNode<GameStateT, GameEventT>> {
        self.rules@
    }

    /// Creates a new [CompositeRule] with the given id and list of rules.
    pub fn new(id: RuleId, rule_chain: RuleList<GameStateT, GameEventT>) -> (r: Self)
        ensures
            r.rule_id() == id,
            r.sub_rules() == rule_chain@,
    {
        CompositeRule { id, rules: rule_chain }
    }

    /// Returns the child rules which make up the composite rule.
    pub fn children(&self) -> (r: Option<&RuleSlice<GameStateT, GameEventT>>)
        ensures
            r matches Some(s) && s@ == self.sub_rules(),
    {
        Some(self.rules.as_slice())
    }

    /// Like [Self::children], but returns a mutable reference to the child rules; the composite
    /// keeps its id and holds the children as they are left.
    pub fn children_mut(&mut self) -> (r: Option<&mut RuleSlice<GameStateT, GameEventT>>)
        ensures
            r matches Some(s) && s@ == old(self).sub_rules() && final(s)@ == final(self).sub_rules()
                && final(self).rule_id() == old(self).rule_id(),
    {
        Some(self.rules.as_mut_slice())
    }
}

impl<GameStateT: GameState, GameEventT: GameEvent> RuleIdentity for CompositeRule<
    GameStateT,
    GameEventT,
> {
    fn static_id() -> (r: RuleId)
        ensures
            r == RuleId("CompositeRule"),
    {
        RuleId("CompositeRule")
    }

    /// The composite states its id.
    open spec fn states_id(&self) -> bool {
        true
    }

    /// The id that the composite was made with.
    open spec fn stated_id(&self) -> RuleId {
        self.rule_id()
    }

    fn id(&self) -> (r: RuleId)
        ensures
            r == self.rule_id(),
    {
        self.id
    }
}

impl<GameStateT: GameState, GameEventT: GameEvent> Rule<GameStateT, GameEventT> for CompositeRule<
    GameStateT,
    GameEventT,
> {
    /// The composite states what it does.
    open spec fn states_outcomes(&self) -> bool {
        true
    }

    /// Applying the composite itself completes at once and leaves the state.
    open spec fn apply_outcome(&self, state: GameStateT) -> (RuleResult, GameStateT) {
        (RuleResult::Complete, state)
    }

    /// Passing the composite itself an event completes at once and leaves the state.
    open spec fn consume_outcome(&self, state: GameStateT, event: GameEventT) -> (
        RuleResult,
        GameStateT,
    ) {
        (RuleResult::Complete, state)
    }

    /// The composite itself has no behavior, so applying it completes at once and changes
    /// nothing.
    fn apply(&mut self, state: &mut GameStateT) -> (r: RuleResult)
        ensures
            r == RuleResult::Complete,
            *final(self) == *old(self),
            *final(state) == *old(state),
    {
        RuleResult::Complete
    }

    /// The composite states what it validates.
    open spec fn states_validation(&self) -> bool {
        true
    }

    /// The composite itself accepts no event; its sub-rules do.
    open spec fn validates(&self, state: GameStateT, event: GameEventT) -> bool {
        false
    }

    /// The composite itself validates no event; its sub-rules do.
    fn validate(&self, state: &GameStateT, event: &GameEventT) -> (r: bool)
        ensures
            !r,
    {
        false
    }

    /// The composite itself consumes no event: it completes at once and changes nothing.
    fn consume(&mut self, state: &mut GameStateT, event: &GameEventT) -> (r: RuleResult)
        ensures
            r == RuleResult::Complete,
            *final(self) == *old(self),
            *final(state) == *old(state),
    {
        RuleResult::Complete
    }
}

/// The shape of a node: a leaf for a single rule, or the composite's id and the shapes of its
/// sub-rules.
pub open spec fn skel<S: GameState, E: GameEvent>(n: RuleNode<S, E>) -> Shape
    decreases n,
{
    match n {
        RuleNode::Leaf(_) => Shape::Leaf,
        RuleNode::Composite(c) => Shape::Composite(c.rule_id(), skels(c.sub_rules())),
    }
}

/// The shapes of a list of nodes, in order.
pub open spec fn skels<S: GameState, E: GameEvent>(s: Seq<RuleNode<S, E>>) -> Seq<Shape>
    decreases s,
{
    if s.len() == 0 {
        Seq::empty()
    } else {
        proof {
            assert(decreases_to!(s => s.last()));
            assert(decreases_to!(s => s.drop_last()));
        }
        skels(s.drop_last()).push(skel(s.last()))
    }
}

/// The shapes of a list are the shapes of its nodes, one for one.
pub proof fn lemma_skels<S: GameState, E: GameEvent>(s: Seq<RuleNode<S, E>>)
    ensures
        skels(s).len() == s.len(),
        forall|i: int| 0 <= i < s.len() ==> #[trigger] skels(s)[i] == skel(s[i]),
    decreases s.len(),
{
    if s.len() > 0 {
        lemma_skels(s.drop_last());
    }
}

/// Replacing a node by one of the same shape keeps the shape of the list.
pub proof fn lemma_skels_update<S: GameState, E: GameEvent>(
    s: Seq<RuleNode<S, E>>,
    i: int,
    n: RuleNode<S, E>,
)
    requires
        0 <= i < s.len(),
        skel(n) == skel(s[i]),
    ensures
        skels(s.update(i, n)) == skels(s),
{
    lemma_skels(s);
    lemma_skels(s.update(i, n));
    assert(skels(s.update(i, n)) =~= skels(s));
}

/// The node that path `p` leads to in a list of nodes, if it leads to one.
pub open spec fn rule_at<S: GameState, E: GameEvent>(
    nodes: Seq<RuleNode<S, E>>,
    p: Seq<int>,
) -> Option<RuleNode<S, E>>
    decreases p.len(),
{
    if p.len() == 0 || !(0 <= p[0] < nodes.len()) {
        None
    } else if p.len() == 1 {
        Some(nodes[p[0]])
    } else {
        match nodes[p[0]] {
            RuleNode::Composite(c) => rule_at(c.sub_rules(), p.drop_first()),
            RuleNode::Leaf(_) => None,
        }
    }
}

/// Replacing the node at index `i` changes only what paths through that index lead to.
pub proof fn lemma_rule_at_update<S: GameState, E: GameEvent>(
    s: Seq<RuleNode<S, E>>,
    i: int,
    n: RuleNode<S, E>,
    q: Seq<int>,
)
    requires
        0 <= i < s.len(),
    ensures
        q.len() > 0 && q[0] != i ==> rule_at(s.update(i, n), q) == rule_at(s, q),
        q.len() == 1 && q[0] == i ==> rule_at(s.update(i, n), q) == Some(n),
        q.len() > 1 && q[0] == i ==> rule_at(s.update(i, n), q) == match n {
            RuleNode::Composite(c) => rule_at(c.sub_rules(), q.drop_first()),
            RuleNode::Leaf(_) => None,
        },
{
}

/// Every single rule of `old` whose path is not `touched` is the same in `new`.
pub open spec fn rules_kept<S: GameState, E: GameEvent>(
    old: Seq<RuleNode<S, E>>,
    new: Seq<RuleNode<S, E>>,
    touched: spec_fn(Seq<int>) -> bool,
) -> bool {
    forall|p: Seq<int>|
        #![trigger rule_at(new, p)]
        (rule_at(old, p) matches Some(RuleNode::Leaf(_)) && !touched(p)) ==> rule_at(new, p)
            == rule_at(old, p)
}

/// The set of paths that holds `p` alone.
pub open spec fn only_at(p: Seq<int>) -> spec_fn(Seq<int>) -> bool {
    |q: Seq<int>| q == p
}

/// Keeping the rules outside a set of paths, then outside a larger set, keeps the rules
/// outside the larger set.
pub proof fn lemma_rules_kept_trans<S: GameState, E: GameEvent>(
    a: Seq<RuleNode<S, E>>,
    b: Seq<RuleNode<S, E>>,
    c: Seq<RuleNode<S, E>>,
    t1: spec_fn(Seq<int>) -> bool,
    t2: spec_fn(Seq<int>) -> bool,
)
    requires
        rules_kept(a, b, t1),
        rules_kept(b, c, t2),
        forall|q: Seq<int>| #[trigger] t1(q) ==> t2(q),
    ensures
        rules_kept(a, c, t2),
{
    assert forall|q: Seq<int>|
        #![trigger rule_at(c, q)]
        (rule_at(a, q) matches Some(RuleNode::Leaf(_)) && !t2(q)) implies rule_at(c, q) == rule_at(
        a,
        q,
    ) by {
        assert(!t1(q));
        assert(rule_at(b, q) == rule_at(a, q));
    }
}

/// Whether a node states what it does: a single rule where it says so, a composite always.
pub open spec fn node_states_outcomes<S: GameState, E: GameEvent>(n: RuleNode<S, E>) -> bool {
    match n {
        RuleNode::Leaf(rule) => rule.states_outcomes(),
        RuleNode::Composite(_) => true,
    }
}

/// What applying a node returns from `state` and the state it leaves, where the node states it:
/// a composite completes at once.
pub open spec fn node_apply_outcome<S: GameState, E: GameEvent>(n: RuleNode<S, E>, state: S) -> (
    RuleResult,
    S,
) {
    match n {
        RuleNode::Leaf(rule) => rule.apply_outcome(state),
        RuleNode::Composite(_) => (RuleResult::Complete, state),
    }
}

/// What passing a node an event returns and the state it leaves, where the node states it: a
/// composite completes at once.
pub open spec fn node_consume_outcome<S: GameState, E: GameEvent>(
    n: RuleNode<S, E>,
    state: S,
    event: E,
) -> (RuleResult, S) {
    match n {
        RuleNode::Leaf(rule) => rule.consume_outcome(state, event),
        RuleNode::Composite(_) => (RuleResult::Complete, state),
    }
}

/// A single rule as a node of a tree does exactly what the rule itself states: the node states
/// its outcomes when the rule does, and applying it or passing it an event returns the rule's
/// own result and leaves the rule's own state.
pub proof fn law_leaf_does_what_its_rule_does<S: GameState, E: GameEvent>(
    n: RuleNode<S, E>,
    state: S,
    event: E,
)
    ensures
        match n {
            RuleNode::Leaf(rule) => {
                &&& node_states_outcomes(n) == rule.states_outcomes()
                &&& node_apply_outcome(n, state) == rule.apply_outcome(state)
                &&& node_consume_outcome(n, state, event) == rule.consume_outcome(state, event)
                &&& node_states_validation(n) == rule.states_validation()
                &&& node_validates(n, state, event) == rule.validates(state, event)
            },
            RuleNode::Composite(_) => true,
        },
{
}

/// A node found at a path, if it is a single rule, states what it does.
pub open spec fn leaf_states<S: GameState, E: GameEvent>(found: Option<RuleNode<S, E>>) -> bool {
    found matches Some(RuleNode::Leaf(rule)) ==> rule.states_outcomes()
}

/// Every single rule of the tree states what it does.
pub open spec fn all_leaves_state<S: GameState, E: GameEvent>(nodes: Seq<RuleNode<S, E>>) -> bool {
    forall|q: Seq<int>| #[trigger] leaf_states(rule_at(nodes, q))
}

/// Every single rule that comes no earlier than the rule at `p` in depth-first order, that is,
/// every rule still to be visited from `p`, states what it does.
pub open spec fn leaves_state_from<S: GameState, E: GameEvent>(nodes: Seq<RuleNode<S, E>>, p: Seq<int>) -> bool {
    forall|q: Seq<int>|
        remaining(skels(nodes), q) <= remaining(skels(nodes), p) ==> #[trigger] leaf_states(
            rule_at(nodes, q),
        )
}

/// Every single rule that comes after the rule at `p` in depth-first order states what it does.
pub open spec fn leaves_state_after<S: GameState, E: GameEvent>(nodes: Seq<RuleNode<S, E>>, p: Seq<int>) -> bool {
    forall|q: Seq<int>|
        remaining(skels(nodes), q) < remaining(skels(nodes), p) ==> #[trigger] leaf_states(
            rule_at(nodes, q),
        )
}

/// Where a node found at a path is a single rule that states its id, `id` is that id.
pub open spec fn leaf_id_ok<S: GameState, E: GameEvent>(found: Option<RuleNode<S, E>>, id: RuleId) -> bool {
    match found {
        Some(RuleNode::Leaf(rule)) => rule.states_id() ==> id == rule.stated_id(),
        _ => true,
    }
}

/// A single rule stays a single rule that states its id as it did, and the same id.
pub open spec fn id_kept<S: GameState, E: GameEvent>(a: RuleNode<S, E>, b: RuleNode<S, E>) -> bool {
    match (a, b) {
        (RuleNode::Leaf(r0), RuleNode::Leaf(r1)) => r1.states_id() == r0.states_id() && (
        r0.states_id() ==> r1.stated_id() == r0.stated_id()),
        (RuleNode::Leaf(_), _) => false,
        _ => true,
    }
}

/// Whether a node states what it validates: a single rule where it says so, a composite always.
pub open spec fn node_states_validation<S: GameState, E: GameEvent>(n: RuleNode<S, E>) -> bool {
    match n {
        RuleNode::Leaf(rule) => rule.states_validation(),
        RuleNode::Composite(_) => true,
    }
}

/// Whether a node accepts `event` in `state`: a single rule as it validates, a composite never.
pub open spec fn node_validates<S: GameState, E: GameEvent>(n: RuleNode<S, E>, state: S, event: E) -> bool {
    match n {
        RuleNode::Leaf(rule) => rule.validates(state, event),
        RuleNode::Composite(_) => false,
    }
}

/// The list of nodes that path `q` leads into: `nodes` itself for the empty path, the sub-rules
/// of the composite that `q` leads to otherwise, and nothing where `q` leads nowhere.
pub open spec fn node_list<S: GameState, E: GameEvent>(
    nodes: Seq<RuleNode<S, E>>,
    q: Seq<int>,
) -> Seq<RuleNode<S, E>>
    decreases q.len(),
{
    if q.len() == 0 {
        nodes
    } else {
        let parent = node_list(nodes, q.drop_last());
        if 0 <= q.last() < parent.len() {
            match parent[q.last()] {
                RuleNode::Composite(c) => c.sub_rules(),
                RuleNode::Leaf(_) => Seq::empty(),
            }
        } else {
            Seq::empty()
        }
    }
}

/// The node that a path to a rule leads to.
pub open spec fn node_at_path<S: GameState, E: GameEvent>(
    nodes: Seq<RuleNode<S, E>>,
    p: Seq<int>,
) -> RuleNode<S, E> {
    node_list(nodes, p.drop_last())[p.last()]
}

/// Extending a path by one index leads into the sub-rules of the composite that the path leads
/// to.
pub proof fn lemma_rule_at_push<S: GameState, E: GameEvent>(
    nodes: Seq<RuleNode<S, E>>,
    q: Seq<int>,
    i: int,
)
    requires
        q.len() > 0,
    ensures
        rule_at(nodes, q.push(i)) == match rule_at(nodes, q) {
            Some(RuleNode::Composite(c)) => if 0 <= i < c.sub_rules().len() {
                Some(c.sub_rules()[i])
            } else {
                None
            },
            _ => None,
        },
    decreases q.len(),
{
    let q2 = q.push(i);
    assert(q2[0] == q[0]);
    if q.len() == 1 {
        assert(q2.drop_first() =~= seq![i]);
        if 0 <= q[0] < nodes.len() {
            if let RuleNode::Composite(c) = nodes[q[0]] {
                assert(rule_at(c.sub_rules(), seq![i]) == if 0 <= i < c.sub_rules().len() {
                    Some(c.sub_rules()[i])
                } else {
                    None
                });
            }
        }
    } else {
        assert(q2.drop_first() =~= q.drop_first().push(i));
        if 0 <= q[0] < nodes.len() {
            if let RuleNode::Composite(c) = nodes[q[0]] {
                lemma_rule_at_push(c.sub_rules(), q.drop_first(), i);
            }
        }
    }
}

/// The node that a path leads to, where it leads to one, is the node at its last index in the
/// list that the rest of the path leads into.
pub proof fn lemma_rule_at_node_list<S: GameState, E: GameEvent>(
    nodes: Seq<RuleNode<S, E>>,
    q: Seq<int>,
    i: int,
)
    ensures
        rule_at(nodes, q.push(i)) == if 0 <= i < node_list(nodes, q).len() {
            Some(node_list(nodes, q)[i])
        } else {
            None
        },
    decreases q.len(),
{
    if q.len() == 0 {
        assert(q.push(i) =~= seq![i]);
    } else {
        lemma_rule_at_push(nodes, q, i);
        let q1 = q.drop_last();
        assert(q1.push(q.last()) =~= q);
        lemma_rule_at_node_list(nodes, q1, q.last());
    }
}

/// A path that leads to a node of a tree is a path to a rule in the tree's shape, and the node
/// has the shape found there.
pub proof fn lemma_rule_at_shape<S: GameState, E: GameEvent>(nodes: Seq<RuleNode<S, E>>, q: Seq<int>)
    requires
        rule_at(nodes, q) is Some,
    ensures
        valid_path(skels(nodes), q),
        skel(rule_at(nodes, q)->0) == node_at(skels(nodes), q),
{
    if q.len() == 0 {
    } else {
        let q1 = q.drop_last();
        assert(q1.push(q.last()) =~= q);
        lemma_rule_at_node_list(nodes, q1, q.last());
        lemma_node_list_shape(nodes, q1);
        lemma_skels(node_list(nodes, q1));
    }
}

/// Where two trees have the same shape and every single rule of the first but the one at `x`
/// is kept in the second, the rules after `x` in the second state what they do where those of
/// the first do.
pub proof fn lemma_leaves_state_after_kept<S: GameState, E: GameEvent>(
    a: Seq<RuleNode<S, E>>,
    b: Seq<RuleNode<S, E>>,
    x: Seq<int>,
)
    requires
        skels(a) == skels(b),
        rules_kept(a, b, only_at(x)),
        leaves_state_after(a, x),
    ensures
        leaves_state_after(b, x),
{
    assert forall|q: Seq<int>| remaining(skels(b), q) < remaining(skels(b), x) implies #[trigger] leaf_states(
        rule_at(b, q),
    ) by {
        if rule_at(b, q) matches Some(RuleNode::Leaf(_)) {
            lemma_rule_at_shape(b, q);
            lemma_rule_at_valid(a, q);
            assert(leaf_states(rule_at(a, q)));
            assert(rule_at(b, q) == rule_at(a, q));
        }
    }
}

/// A path to a rule leads to the node that [node_at_path] gives.
pub proof fn lemma_rule_at_node_at_path<S: GameState, E: GameEvent>(
    nodes: Seq<RuleNode<S, E>>,
    p: Seq<int>,
)
    requires
        valid_path(skels(nodes), p),
    ensures
        rule_at(nodes, p) == Some(node_at_path(nodes, p)),
{
    lemma_rule_at_valid(nodes, p);
    assert(p.drop_last().push(p.last()) =~= p);
    lemma_rule_at_node_list(nodes, p.drop_last(), p.last());
}

/// The lists that a path leads into have, as shapes, the lists that the shape of the tree
/// leads into.
pub proof fn lemma_node_list_shape<S: GameState, E: GameEvent>(
    nodes: Seq<RuleNode<S, E>>,
    q: Seq<int>,
)
    ensures
        skels(node_list(nodes, q)) == children_list(skels(nodes), q),
    decreases q.len(),
{
    if q.len() > 0 {
        lemma_node_list_shape(nodes, q.drop_last());
        let parent = node_list(nodes, q.drop_last());
        lemma_skels(parent);
        if 0 <= q.last() < parent.len() {
            match parent[q.last()] {
                RuleNode::Composite(c) => {},
                RuleNode::Leaf(_) => {
                    assert(skels(Seq::<RuleNode<S, E>>::empty()) =~= Seq::<Shape>::empty());
                },
            }
        } else {
            assert(skels(Seq::<RuleNode<S, E>>::empty()) =~= Seq::<Shape>::empty());
        }
    }
}

impl<GameStateT: GameState, GameEventT: GameEvent> RuleNode<GameStateT, GameEventT> {
    /// The [RuleId] of this node: the user rule's own id, or the id the composite was made with.
    pub fn id(&self) -> (r: RuleId)
        ensures
            self matches RuleNode::Composite(c) ==> r == c.rule_id(),
            leaf_id_ok(Some(*self), r),
    {
        match self {
            RuleNode::Leaf(rule) => rule.id(),
            RuleNode::Composite(c) => c.id(),
        }
    }

    /// The child rules of this node: those of a composite, and none for a single rule.
    pub fn children(&self) -> (r: Option<&RuleSlice<GameStateT, GameEventT>>)
        ensures
            match self {
                RuleNode::Leaf(_) => r is None,
                RuleNode::Composite(c) => r matches Some(s) && s@ == c.sub_rules(),
            },
    {
        match self {
            RuleNode::Leaf(_) => None,
            RuleNode::Composite(c) => c.children(),
        }
    }

    /// Like [Self::children], but returns a mutable reference to the child rules of a
    /// composite, which keeps its id and holds the children as they are left.
    pub fn children_mut(&mut self) -> (r: Option<&mut RuleSlice<GameStateT, GameEventT>>)
        ensures
            *old(self) is Leaf ==> r is None && *final(self) == *old(self),
            *old(self) matches RuleNode::Composite(c0) ==> {
                &&& r matches Some(s) && s@ == c0.sub_rules()
                &&& *final(self) matches RuleNode::Composite(c1) && c1.rule_id() == c0.rule_id()
                    && (r matches Some(s) && c1.sub_rules() == final(s)@)
            },
    {
        match self {
            RuleNode::Leaf(_) => None,
            RuleNode::Composite(c) => c.children_mut(),
        }
    }

    /// Applies the rule of this node; a composite completes at once and changes nothing.
    pub fn apply(&mut self, state: &mut GameStateT) -> (r: RuleResult)
        ensures
            (match *old(self) {
                RuleNode::Leaf(rule) => rule.states_outcomes() ==> (r, *final(state))
                    == rule.apply_outcome(*old(state)),
                RuleNode::Composite(_) => true,
            }),
            skel(*final(self)) == skel(*old(self)),
            node_states_outcomes(*old(self)) ==> (r, *final(state)) == node_apply_outcome(
                *old(self),
                *old(state),
            ) && node_states_outcomes(*final(self)),
            *old(self) is Composite ==> r == RuleResult::Complete && *final(state) == *old(state)
                && *final(self) == *old(self),
            id_kept(*old(self), *final(self)),
    {
        match self {
            RuleNode::Leaf(rule) => {
                let res = rule.apply(state);
                assert(*final(self) is Leaf);
                res
            },
            RuleNode::Composite(c) => c.apply(state),
        }
    }

    /// Validates an event against the rule of this node; a composite validates none.
    pub fn validate(&self, state: &GameStateT, event: &GameEventT) -> (r: bool)
        ensures
            (match *self {
                RuleNode::Leaf(rule) => rule.states_validation() ==> r == rule.validates(*state, *event),
                RuleNode::Composite(_) => true,
            }),
            node_states_validation(*self) ==> r == node_validates(*self, *state, *event),
            self is Composite ==> !r,
    {
        match self {
            RuleNode::Leaf(rule) => rule.validate(state, event),
            RuleNode::Composite(c) => c.validate(state, event),
        }
    }

    /// Passes an event to the rule of this node; a composite completes at once and changes
    /// nothing.
    pub fn consume(&mut self, state: &mut GameStateT, event: &GameEventT) -> (r: RuleResult)
        ensures
            (match *old(self) {
                RuleNode::Leaf(rule) => rule.states_outcomes() ==> (r, *final(state))
                    == rule.consume_outcome(*old(state), *event),
                RuleNode::Composite(_) => true,
            }),
            skel(*final(self)) == skel(*old(self)),
            node_states_outcomes(*old(self)) ==> (r, *final(state)) == node_consume_outcome(
                *old(self),
                *old(state),
                *event,
            ) && node_states_outcomes(*final(self)),
            *old(self) is Composite ==> r == RuleResult::Complete && *final(state) == *old(state)
                && *final(self) == *old(self),
            id_kept(*old(self), *final(self)),
    {
        match self {
            RuleNode::Leaf(rule) => {
                let res = rule.consume(state, event);
                assert(*final(self) is Leaf);
                res
            },
            RuleNode::Composite(c) => c.consume(state, event),
        }
    }
}

/// Whether no composite in the list of nodes, at any depth, is without sub-rules.
pub(crate) fn forest_ok<S: GameState, E: GameEvent>(rules: &RuleSlice<S, E>) -> (r: bool)
    ensures
        r == forest_nonempty(skels(rules@)),
    decreases rules@,
{
    proof {
        lemma_skels(rules@);
        lemma_forest_nonempty_all(skels(rules@));
    }
    let mut i: usize = 0;
    while i < rules.len()
        invariant
            i <= rules@.len(),
            skels(rules@).len() == rules@.len(),
            forall|j: int| 0 <= j < rules@.len() ==> #[trigger] skels(rules@)[j] == skel(rules@[j]),
            forall|j: int| 0 <= j < i ==> #[trigger] tree_nonempty(skels(rules@)[j]),
        decreases rules@.len() - i,
    {
        let ok = match &rules[i] {
            RuleNode::Leaf(_) => true,
            RuleNode::Composite(c) => {
                proof {
                    assert(decreases_to!(rules@ => rules@[i as int]));
                    assert(decreases_to!(rules@[i as int] => c.rules@));
                    lemma_skels(c.rules@);
                }
                c.rules.len() > 0 && forest_ok(c.rules.as_slice())
            },
        };
        assert(ok == tree_nonempty(skels(rules@)[i as int]));
        if !ok {
            proof {
                lemma_forest_nonempty_all(skels(rules@));
            }
            return false;
        }
        i = i + 1;
    }
    true
}

/// What to do with the rule at the end of a path: apply it, or pass it an event.
pub(crate) enum Action<'a, GameEventT> {
    Apply,
    Consume(&'a GameEventT),
}

/// What an action on a node returns and leaves, where the node states it.
pub(crate) open spec fn action_outcome<'a, S: GameState, E: GameEvent>(
    n: RuleNode<S, E>,
    state: S,
    action: Action<'a, E>,
) -> (RuleResult, S) {
    match action {
        Action::Apply => node_apply_outcome(n, state),
        Action::Consume(event) => node_consume_outcome(n, state, *event),
    }
}

/// A path to a rule in the shape of a tree leads to a node of that tree, of that shape.
pub proof fn lemma_rule_at_valid<S: GameState, E: GameEvent>(
    nodes: Seq<RuleNode<S, E>>,
    q: Seq<int>,
)
    requires
        valid_path(skels(nodes), q),
    ensures
        rule_at(nodes, q) is Some,
        skel(rule_at(nodes, q)->0) == node_at(skels(nodes), q),
    decreases q.len(),
{
    let l = skels(nodes);
    lemma_skels(nodes);
    if q.len() == 1 {
        assert(q.drop_last() =~= Seq::<int>::empty());
    } else {
        lemma_valid_path_cons(l, q);
        let a = q[0];
        match nodes[a] {
            RuleNode::Composite(c) => {
                lemma_rule_at_valid(c.sub_rules(), q.drop_first());
            },
            RuleNode::Leaf(_) => {},
        }
    }
}

/// The sub-rules of a composite in a tree whose single rules all state what they do state it
/// too.
pub proof fn lemma_all_leaves_state_sub<S: GameState, E: GameEvent>(
    nodes: Seq<RuleNode<S, E>>,
    i: int,
)
    requires
        all_leaves_state(nodes),
        0 <= i < nodes.len(),
        nodes[i] is Composite,
    ensures
        all_leaves_state(nodes[i]->Composite_0.sub_rules()),
{
    let subs = nodes[i]->Composite_0.sub_rules();
    assert forall|q: Seq<int>| #[trigger] leaf_states(rule_at(subs, q)) by {
        if q.len() > 0 {
            let q2 = seq![i] + q;
            assert(q2[0] == i);
            assert(q2.drop_first() =~= q);
            assert(rule_at(nodes, q2) == rule_at(subs, q));
            assert(leaf_states(rule_at(nodes, q2)));
        }
    }
}

/// Replacing a node by a single rule that states what it does, or by a composite whose single
/// rules all state it, keeps every single rule stating what it does.
pub proof fn lemma_all_leaves_state_update<S: GameState, E: GameEvent>(
    nodes: Seq<RuleNode<S, E>>,
    i: int,
    n: RuleNode<S, E>,
)
    requires
        all_leaves_state(nodes),
        0 <= i < nodes.len(),
        n matches RuleNode::Leaf(rule) ==> rule.states_outcomes(),
        n matches RuleNode::Composite(c) ==> all_leaves_state(c.sub_rules()),
    ensures
        all_leaves_state(nodes.update(i, n)),
{
    let new_nodes = nodes.update(i, n);
    assert forall|q: Seq<int>| #[trigger] leaf_states(rule_at(new_nodes, q)) by {
        lemma_rule_at_update(nodes, i, n, q);
        if q.len() > 1 && q[0] == i {
            if let RuleNode::Composite(c) = n {
                assert(rule_at(c.sub_rules(), q.drop_first()) == rule_at(new_nodes, q));
            }
        }
    }
}

/// Walks `path`, from its index `depth` on, down the tree of `nodes` and applies the rule it
/// leads to, or passes that rule the event. The shape of the tree stays as it was; the rule it
/// leads to gives what it states, where it states it.
pub(crate) fn act_at<S: GameState, E: GameEvent>(
    nodes: &mut RuleList<S, E>,
    path: &Vec<usize>,
    depth: usize,
    state: &mut S,
    action: &Action<E>,
) -> (r: RuleResult)
    requires
        depth < path.len(),
        valid_path(skels(old(nodes)@), path_of(path@).skip(depth as int)),
    ensures
        skels(final(nodes)@) == skels(old(nodes)@),
        node_at(skels(old(nodes)@), path_of(path@).skip(depth as int)) is Composite ==> r
            == RuleResult::Complete && *final(state) == *old(state),
        rules_kept(old(nodes)@, final(nodes)@, only_at(path_of(path@).skip(depth as int))),
        rule_at(old(nodes)@, path_of(path@).skip(depth as int)) matches Some(n) ==> (
        node_states_outcomes(n) ==> (r, *final(state)) == action_outcome(n, *old(state), *action)),
        all_leaves_state(old(nodes)@) ==> all_leaves_state(final(nodes)@),
        rule_at(old(nodes)@, path_of(path@).skip(depth as int)) matches Some(a) ==> (rule_at(
            final(nodes)@,
            path_of(path@).skip(depth as int),
        ) matches Some(b) && id_kept(a, b)),
    decreases path.len() - depth,
{
    let ghost l = skels(old(nodes)@);
    let ghost p = path_of(path@).skip(depth as int);
    proof {
        lemma_skels(old(nodes)@);
    }
    let idx = path[depth];
    if depth + 1 == path.len() {
        proof {
            assert(p.drop_last() =~= Seq::<int>::empty());
            assert(p.last() == idx);
        }
        let node = &mut nodes[idx];
        let r = match action {
            Action::Apply => node.apply(state),
            Action::Consume(event) => node.consume(state, *event),
        };
        proof {
            lemma_skels_update(old(nodes)@, idx as int, *final(node));
            let old_nodes = old(nodes)@;
            let new_nodes = old_nodes.update(idx as int, *final(node));
            assert(p.len() == 1);
            assert(rule_at(old_nodes, p) == Some(old_nodes[idx as int]));
            if all_leaves_state(old_nodes) {
                assert(rule_at(old_nodes, seq![idx as int]) == Some(old_nodes[idx as int]));
                assert(leaf_states(rule_at(old_nodes, seq![idx as int])));
                assert(node_states_outcomes(old_nodes[idx as int]));
                if old_nodes[idx as int] is Composite {
                    lemma_all_leaves_state_sub(old_nodes, idx as int);
                }
                lemma_all_leaves_state_update(old_nodes, idx as int, *final(node));
            }
            assert forall|q: Seq<int>|
                #![trigger rule_at(new_nodes, q)]
                (rule_at(old_nodes, q) matches Some(RuleNode::Leaf(_)) && q != p) implies rule_at(
                new_nodes,
                q,
            ) == rule_at(old_nodes, q) by {
                lemma_rule_at_update(old_nodes, idx as int, *final(node), q);
                if q.len() == 1 && q[0] == idx {
                    assert(q =~= p);
                }
            }
        }
        r
    } else {
        proof {
            lemma_valid_path_cons(l, p);
            assert(p[0] == idx);
            assert(p.drop_first() =~= path_of(path@).skip(depth + 1));
        }
        let node = &mut nodes[idx];
        match node {
            RuleNode::Composite(c) => {
                let ghost old_c = *c;
                proof {
                    if all_leaves_state(old(nodes)@) {
                        lemma_all_leaves_state_sub(old(nodes)@, idx as int);
                    }
                }
                let r = act_at(&mut c.rules, path, depth + 1, state, action);
                proof {
                    lemma_skels_update(old(nodes)@, idx as int, *final(node));
                    let old_nodes = old(nodes)@;
                    let new_nodes = old_nodes.update(idx as int, *final(node));
                    assert(rule_at(old_nodes, p) == rule_at(old_c.rules@, p.drop_first()));
                    if all_leaves_state(old_nodes) {
                        lemma_all_leaves_state_update(old_nodes, idx as int, *final(node));
                    }
                    assert forall|q: Seq<int>|
                        #![trigger rule_at(new_nodes, q)]
                        (rule_at(old_nodes, q) matches Some(RuleNode::Leaf(_)) && q != p) implies rule_at(
                        new_nodes,
                        q,
                    ) == rule_at(old_nodes, q) by {
                        lemma_rule_at_update(old_nodes, idx as int, *final(node), q);
                        if q.len() > 1 && q[0] == idx {
                            assert(q =~= seq![q[0]] + q.drop_first());
                            assert(p =~= seq![p[0]] + p.drop_first());
                            assert(q.drop_first() != p.drop_first());
                            assert(rule_at(c.rules@, q.drop_first()) == rule_at(
                                old_c.rules@,
                                q.drop_first(),
                            ));
                        }
                    }
                }
                r
            },
            RuleNode::Leaf(_) => {
                assert(false);
                RuleResult::Complete
            },
        }
    }
}

} // verus!
