use rules_engine::{
    CompositeRule, EngineStatus, GameEvent, GameState, Rule, RuleId, RuleIdentity, RuleList,
    RuleNode, RuleResult, RulesEngine,
};

#[derive(Default)]
struct TestGameState {
    sum: i32,
    waiting_for_event: Option<TestWaitingFor>,
}

impl GameState for TestGameState {}

#[derive(Debug)]
enum TestGameEvent {
    AddNumber { number: i32 },
    PlaceholderEvent,
}

impl GameEvent for TestGameEvent {}

#[derive(Debug, PartialEq)]
enum TestWaitingFor {
    AddNumber,
}

type TestRuleList = RuleList<TestGameState, TestGameEvent>;

/// Adds even numbers to the sum: it waits for an `AddNumber` event, accepts even numbers, and
/// adds the number to the sum.
#[derive(Debug)]
struct AddEvenNumbersRule;

impl RuleIdentity for AddEvenNumbersRule {
    fn id(&self) -> RuleId {
        Self::static_id()
    }

    fn static_id() -> RuleId
    where
        Self: Sized,
    {
        RuleId("AddEvenNumbersRule")
    }
}

impl Rule<TestGameState, TestGameEvent> for AddEvenNumbersRule {
    fn apply(&mut self, state: &mut TestGameState) -> RuleResult {
        assert!(state.waiting_for_event.is_none());
        assert_eq!(state.sum, 0);
        state.waiting_for_event = Some(TestWaitingFor::AddNumber);
        RuleResult::WaitingForEvent
    }

    fn validate(&self, _state: &TestGameState, event: &TestGameEvent) -> bool {
        let TestGameEvent::AddNumber { number } = event else {
            return false;
        };

        *number % 2 == 0
    }

    fn consume(&mut self, state: &mut TestGameState, event: &TestGameEvent) -> RuleResult {
        let TestGameEvent::AddNumber { number } = event else {
            panic!("{:?} received unexpected event: {:?}", self, event);
        };

        state.sum += number;
        state.waiting_for_event = None;
        RuleResult::Complete
    }
}

/// Subtracts 10 from the sum as soon as it is applied.
#[derive(Debug)]
struct SubtractTenRule;

impl RuleIdentity for SubtractTenRule {
    fn id(&self) -> RuleId {
        Self::static_id()
    }

    fn static_id() -> RuleId
    where
        Self: Sized,
    {
        RuleId("SubtractTenRuleId")
    }
}

impl Rule<TestGameState, TestGameEvent> for SubtractTenRule {
    fn apply(&mut self, state: &mut TestGameState) -> RuleResult {
        assert!(state.waiting_for_event.is_none());
        state.sum -= 10;
        RuleResult::Complete
    }

    fn validate(&self, _state: &TestGameState, _event: &TestGameEvent) -> bool {
        false
    }

    fn consume(&mut self, _state: &mut TestGameState, event: &TestGameEvent) -> RuleResult {
        panic!("{:?} received unexpected event: {:?}", self, event);
    }
}

/// Ends the game as soon as it is applied.
#[derive(Debug)]
struct GameOverRule;

impl RuleIdentity for GameOverRule {
    fn id(&self) -> RuleId {
        Self::static_id()
    }

    fn static_id() -> RuleId
    where
        Self: Sized,
    {
        RuleId("GameOverRule")
    }
}

impl Rule<TestGameState, TestGameEvent> for GameOverRule {
    fn apply(&mut self, state: &mut TestGameState) -> RuleResult {
        state.sum += 100;
        RuleResult::GameOver
    }

    fn validate(&self, _state: &TestGameState, _event: &TestGameEvent) -> bool {
        true
    }

    fn consume(&mut self, _state: &mut TestGameState, event: &TestGameEvent) -> RuleResult {
        panic!("{:?} received unexpected event: {:?}", self, event);
    }
}

/// A composite of [AddEvenNumbersRule] and [SubtractTenRule].
struct AddEvenNumbersThenSubtractTenRule;

impl RuleIdentity for AddEvenNumbersThenSubtractTenRule {
    fn id(&self) -> RuleId {
        Self::static_id()
    }

    fn static_id() -> RuleId
    where
        Self: Sized,
    {
        RuleId("AddEvenNumbersThenSubtractTenRule")
    }
}

impl AddEvenNumbersThenSubtractTenRule {
    pub fn new() -> CompositeRule<TestGameState, TestGameEvent> {
        CompositeRule::new(
            Self::static_id(),
            vec![
                RuleNode::Leaf(Box::new(AddEvenNumbersRule)),
                RuleNode::Leaf(Box::new(SubtractTenRule)),
            ],
        )
    }
}

#[test]
fn verify_rule_id_macro() {
    assert_eq!(
        AddEvenNumbersRule::static_id(),
        RuleId("AddEvenNumbersRule")
    );

    let rule = AddEvenNumbersRule;
    assert_eq!(rule.id(), AddEvenNumbersRule::static_id());

    let rule: &dyn Rule<TestGameState, TestGameEvent> = &rule;
    assert_eq!(rule.id(), AddEvenNumbersRule::static_id());
}

#[test]
fn verify_rule_id_macro_with_custom_id() {
    assert_eq!(SubtractTenRule::static_id(), RuleId("SubtractTenRuleId"));

    let rule = SubtractTenRule;
    assert_eq!(rule.id(), SubtractTenRule::static_id());

    let rule: &dyn Rule<TestGameState, TestGameEvent> = &rule;
    assert_eq!(rule.id(), SubtractTenRule::static_id());
}

#[test]
fn verify_composite_rule_id() {
    assert_eq!(
        CompositeRule::<TestGameState, TestGameEvent>::static_id(),
        RuleId("CompositeRule")
    );

    assert_eq!(
        AddEvenNumbersThenSubtractTenRule::static_id(),
        RuleId("AddEvenNumbersThenSubtractTenRule")
    );

    let composite_rule = AddEvenNumbersThenSubtractTenRule::new();
    assert_eq!(
        composite_rule.id(),
        AddEvenNumbersThenSubtractTenRule::static_id()
    );

    let rule: &dyn Rule<TestGameState, TestGameEvent> = &composite_rule;
    assert_eq!(rule.id(), AddEvenNumbersThenSubtractTenRule::static_id());
}

#[test]
fn lib_verify_rules_engine_initial_state() {
    let rule_chain: TestRuleList = vec![RuleNode::Leaf(Box::new(AddEvenNumbersRule))];
    let engine = RulesEngine::new(rule_chain);

    assert!(engine.rule_stack().is_empty());
    assert!(engine.current_rule_id().is_empty());
    assert_eq!(engine.started(), false);
    assert_eq!(engine.engine_status(), EngineStatus::Ready);
    assert_eq!(engine.is_waiting_for_event(), false);
    assert_eq!(engine.game_state().sum, 0);
    assert!(engine.game_state().waiting_for_event.is_none());
}

#[test]
fn lib_verify_test_game_state_initial_state() {
    let state: TestGameState = TestGameState::default();
    assert_eq!(state.sum, 0);
    assert!(state.waiting_for_event.is_none());
}

#[test]
fn lib_process_rules_only_calls_apply_once() {
    let rule_chain: TestRuleList = vec![RuleNode::Leaf(Box::new(AddEvenNumbersRule))];
    let mut engine = RulesEngine::new(rule_chain);

    // Begin processing rules
    engine.process_rules();

    // Verify that we are now waiting for an event
    assert_eq!(engine.rule_stack(), [0]);
    assert_eq!(*engine.current_rule_id(), [AddEvenNumbersRule::static_id()]);
    assert_eq!(engine.started(), true);
    assert_eq!(engine.engine_status(), EngineStatus::WaitingForEvent);
    assert_eq!(engine.is_waiting_for_event(), true);

    // Verify that calling process_rules again does not call apply again
    engine.process_rules();

    // We should still be waiting for an event, and the rule should not have been applied again
    assert_eq!(engine.rule_stack(), [0]);
    assert_eq!(*engine.current_rule_id(), [AddEvenNumbersRule::static_id()]);
    assert_eq!(engine.started(), true);
    assert_eq!(engine.engine_status(), EngineStatus::WaitingForEvent);
    assert_eq!(engine.is_waiting_for_event(), true);
}

#[test]
fn lib_apply_may_complete_a_rule() {
    let rule_chain: TestRuleList = vec![RuleNode::Leaf(Box::new(SubtractTenRule))];
    apply_may_complete_a_rule_impl(rule_chain);
}

#[test]
fn lib_apply_may_complete_a_rule_composite() {
    let rule_chain: TestRuleList = vec![RuleNode::Composite(CompositeRule::new(
        RuleId("TestCompositeRule"),
        vec![RuleNode::Leaf(Box::new(SubtractTenRule))],
    ))];
    apply_may_complete_a_rule_impl(rule_chain);
}

fn apply_may_complete_a_rule_impl(rule_chain: TestRuleList) {
    let mut engine = RulesEngine::new(rule_chain);

    // Begin processing rules
    engine.process_rules();

    // Verify that the rule was applied and completed
    assert!(engine.rule_stack().is_empty());
    assert_eq!(engine.started(), true);
    assert_eq!(engine.engine_status(), EngineStatus::Ready);
    assert_eq!(engine.is_waiting_for_event(), false);
    assert_eq!(engine.game_state().sum, -10); // Default state is 0, so it should be -10 now
}

#[test]
fn lib_test_rules_engine() {
    let rule_chain: TestRuleList = vec![
        RuleNode::Leaf(Box::new(AddEvenNumbersRule)),
        RuleNode::Leaf(Box::new(SubtractTenRule)),
    ];
    test_rules_engine_impl(rule_chain, vec![0], vec![AddEvenNumbersRule::static_id()]);
}

#[test]
fn lib_test_rules_engine_composite() {
    let inner_rule_chain: TestRuleList = vec![
        RuleNode::Leaf(Box::new(AddEvenNumbersRule)),
        RuleNode::Leaf(Box::new(SubtractTenRule)),
    ];
    let composite_rule_id = RuleId("TestCompositeRule");
    let rule_chain: TestRuleList = vec![RuleNode::Composite(CompositeRule::new(
        composite_rule_id,
        inner_rule_chain,
    ))];
    test_rules_engine_impl(
        rule_chain,
        vec![0, 0],
        vec![composite_rule_id, AddEvenNumbersRule::static_id()],
    );
}

#[test]
fn test_rules_engine_nested_composite() {
    let inner_rule_chain: TestRuleList = vec![
        RuleNode::Leaf(Box::new(AddEvenNumbersRule)),
        RuleNode::Leaf(Box::new(SubtractTenRule)),
    ];
    let inner_composite_rule_id = RuleId("TestInnerCompositeRule");
    let inner_rule_chain: TestRuleList = vec![RuleNode::Composite(CompositeRule::new(
        inner_composite_rule_id,
        inner_rule_chain,
    ))];
    let outer_composite_rule_id = RuleId("TestOuterCompositeRule");
    let rule_chain: TestRuleList = vec![RuleNode::Composite(CompositeRule::new(
        outer_composite_rule_id,
        inner_rule_chain,
    ))];
    test_rules_engine_impl(
        rule_chain,
        vec![0, 0, 0],
        vec![
            outer_composite_rule_id,
            inner_composite_rule_id,
            AddEvenNumbersRule::static_id(),
        ],
    );
}

#[test]
fn lib_test_rules_engine_named_composite() {
    let rule_chain: TestRuleList = vec![RuleNode::Composite(
        AddEvenNumbersThenSubtractTenRule::new(),
    )];
    test_rules_engine_impl(
        rule_chain,
        vec![0, 0],
        vec![
            AddEvenNumbersThenSubtractTenRule::static_id(),
            AddEvenNumbersRule::static_id(),
        ],
    );
}

fn test_rules_engine_impl(
    rule_chain: TestRuleList,
    expected_rule_stack: Vec<usize>,
    exected_rule_id: Vec<RuleId>,
) {
    let mut engine = RulesEngine::new(rule_chain);

    engine.process_rules();

    let verify_rule_0_is_waiting_for_event = || {
        assert_eq!(engine.rule_stack(), expected_rule_stack);
        assert_eq!(*engine.current_rule_id(), exected_rule_id);
        assert_eq!(engine.started(), true);
        assert_eq!(engine.engine_status(), EngineStatus::WaitingForEvent);
        assert_eq!(engine.is_waiting_for_event(), true);
    };
    verify_rule_0_is_waiting_for_event();

    // Expect that an invalid event is rejected by the engine, and does not modify the game state
    let invalid_event = TestGameEvent::AddNumber { number: 1 };
    assert_eq!(engine.validate(&invalid_event), false);
    assert_eq!(engine.game_state().sum, 0);

    verify_rule_0_is_waiting_for_event();

    // Expect that a valid event is accepted by the engine, but does not modify the game state
    let valid_event = TestGameEvent::AddNumber { number: 2 };
    assert_eq!(engine.validate(&valid_event), true);
    assert_eq!(engine.game_state().sum, 0);

    verify_rule_0_is_waiting_for_event();

    // Expect that consuming a valid event updates the game state and progresses to the next rule
    engine.consume(&valid_event);
    assert!(engine.game_state().waiting_for_event.is_none());

    // Expect that the SubtractTenRule has been applied
    assert_eq!(engine.game_state().sum, -8);

    // Verify that the engine has moved to the next rule
    assert!(engine.rule_stack().is_empty());
    assert!(engine.current_rule_id().is_empty());
    assert_eq!(engine.engine_status(), EngineStatus::Ready);
    assert_eq!(engine.is_waiting_for_event(), false);
}

// Tests of the engine's promises beyond the scenarios above.

#[test]
fn consume_is_ignored_when_not_waiting() {
    let rule_chain: TestRuleList = vec![RuleNode::Leaf(Box::new(AddEvenNumbersRule))];
    let mut engine = RulesEngine::new(rule_chain);

    engine.consume(&TestGameEvent::AddNumber { number: 2 });
    assert!(engine.rule_stack().is_empty());
    assert_eq!(engine.started(), false);
    assert_eq!(engine.engine_status(), EngineStatus::Ready);
    assert_eq!(engine.game_state().sum, 0);
    assert!(engine.game_state().waiting_for_event.is_none());
}

#[test]
fn validate_before_start_and_after_the_end_is_false() {
    let rule_chain: TestRuleList = vec![RuleNode::Leaf(Box::new(GameOverRule))];
    let engine = RulesEngine::new(rule_chain);
    // GameOverRule validates every event, but there is no current rule yet.
    assert_eq!(engine.validate(&TestGameEvent::PlaceholderEvent), false);

    let rule_chain: TestRuleList = vec![RuleNode::Leaf(Box::new(SubtractTenRule))];
    let mut engine = RulesEngine::new(rule_chain);
    engine.process_rules();
    assert!(engine.rule_stack().is_empty());
    assert_eq!(engine.validate(&TestGameEvent::AddNumber { number: 2 }), false);
}

#[test]
fn empty_chain_completes_at_once() {
    let rule_chain: TestRuleList = vec![];
    let mut engine = RulesEngine::new(rule_chain);
    engine.process_rules();
    assert!(engine.rule_stack().is_empty());
    assert!(engine.current_rule_id().is_empty());
    assert_eq!(engine.started(), true);
    assert_eq!(engine.engine_status(), EngineStatus::Ready);
    // A second call finds nothing more to do.
    engine.process_rules();
    assert!(engine.rule_stack().is_empty());
    assert_eq!(engine.engine_status(), EngineStatus::Ready);
}

#[test]
fn game_over_stops_on_the_rule() {
    let rule_chain: TestRuleList = vec![
        RuleNode::Leaf(Box::new(SubtractTenRule)),
        RuleNode::Composite(CompositeRule::new(
            RuleId("Final"),
            vec![RuleNode::Leaf(Box::new(GameOverRule))],
        )),
        RuleNode::Leaf(Box::new(SubtractTenRule)),
    ];
    let mut engine = RulesEngine::new(rule_chain);
    engine.process_rules();
    assert_eq!(engine.rule_stack(), [1, 0]);
    assert_eq!(
        *engine.current_rule_id(),
        [RuleId("Final"), GameOverRule::static_id()]
    );
    assert_eq!(engine.engine_status(), EngineStatus::GameOver);
    assert_eq!(engine.is_waiting_for_event(), false);
    assert_eq!(engine.game_state().sum, 90);
    // The rule after the game-over rule was not applied.
    assert_eq!(engine.validate(&TestGameEvent::PlaceholderEvent), true);
}

#[test]
fn process_rules_does_nothing_once_the_game_is_over() {
    let rule_chain: TestRuleList = vec![
        RuleNode::Leaf(Box::new(SubtractTenRule)),
        RuleNode::Composite(CompositeRule::new(
            RuleId("Final"),
            vec![RuleNode::Leaf(Box::new(GameOverRule))],
        )),
        RuleNode::Leaf(Box::new(SubtractTenRule)),
    ];
    let mut engine = RulesEngine::new(rule_chain);
    engine.process_rules();
    assert_eq!(engine.engine_status(), EngineStatus::GameOver);
    engine.process_rules();
    assert_eq!(engine.rule_stack(), [1, 0]);
    assert_eq!(
        *engine.current_rule_id(),
        [RuleId("Final"), GameOverRule::static_id()]
    );
    assert_eq!(engine.engine_status(), EngineStatus::GameOver);
    assert_eq!(engine.game_state().sum, 90);
}

#[test]
fn advance_moves_to_next_sibling_and_pops_levels() {
    // Two composites side by side: completing the first moves the stack up and over to the
    // second, whose id replaces the first one's.
    let rule_chain: TestRuleList = vec![
        RuleNode::Composite(CompositeRule::new(
            RuleId("First"),
            vec![RuleNode::Leaf(Box::new(SubtractTenRule))],
        )),
        RuleNode::Composite(CompositeRule::new(
            RuleId("Second"),
            vec![
                RuleNode::Leaf(Box::new(SubtractTenRule)),
                RuleNode::Leaf(Box::new(AddEvenNumbersRuleAfterStart)),
            ],
        )),
    ];
    let mut engine = RulesEngine::new(rule_chain);
    engine.process_rules();
    assert_eq!(engine.rule_stack(), [1, 1]);
    assert_eq!(
        *engine.current_rule_id(),
        [RuleId("Second"), AddEvenNumbersRuleAfterStart::static_id()]
    );
    assert_eq!(engine.engine_status(), EngineStatus::WaitingForEvent);
    assert_eq!(engine.game_state().sum, -20);

    engine.consume(&TestGameEvent::AddNumber { number: 4 });
    assert!(engine.rule_stack().is_empty());
    assert!(engine.current_rule_id().is_empty());
    assert_eq!(engine.engine_status(), EngineStatus::Ready);
    assert_eq!(engine.game_state().sum, -16);
}

#[test]
fn new_with_state_keeps_the_state() {
    let rule_chain: TestRuleList = vec![RuleNode::Leaf(Box::new(SubtractTenRule))];
    let mut engine = RulesEngine::new_with_state(
        rule_chain,
        TestGameState {
            sum: 5,
            waiting_for_event: None,
        },
    );
    assert_eq!(engine.game_state().sum, 5);
    engine.process_rules();
    assert_eq!(engine.game_state().sum, -5);
}

#[test]
fn composite_rule_itself_has_no_behavior() {
    let mut composite = AddEvenNumbersThenSubtractTenRule::new();
    let mut state = TestGameState::default();
    assert_eq!(composite.apply(&mut state), RuleResult::Complete);
    assert_eq!(
        composite.validate(&state, &TestGameEvent::AddNumber { number: 2 }),
        false
    );
    assert_eq!(
        composite.consume(&mut state, &TestGameEvent::AddNumber { number: 2 }),
        RuleResult::Complete
    );
    assert_eq!(state.sum, 0);
    assert_eq!(composite.children().map(|c| c.len()), Some(2));
    assert_eq!(composite.children_mut().map(|c| c.len()), Some(2));

    let mut node: RuleNode<TestGameState, TestGameEvent> = RuleNode::Composite(composite);
    assert_eq!(node.id(), AddEvenNumbersThenSubtractTenRule::static_id());
    assert_eq!(node.children().map(|c| c.len()), Some(2));
    if let Some(children) = node.children_mut() {
        children.swap(0, 1);
    }
    assert_eq!(
        node.children().map(|c| c[0].id()),
        Some(SubtractTenRule::static_id())
    );

    let mut leaf: RuleNode<TestGameState, TestGameEvent> =
        RuleNode::Leaf(Box::new(SubtractTenRule));
    assert!(leaf.children().is_none());
    assert!(leaf.children_mut().is_none());
    assert_eq!(leaf.id(), SubtractTenRule::static_id());
    assert_eq!(leaf.apply(&mut state), RuleResult::Complete);
    assert_eq!(state.sum, -10);
}

/// Like [AddEvenNumbersRule], but may be applied when the sum is not zero.
#[derive(Debug)]
struct AddEvenNumbersRuleAfterStart;

impl RuleIdentity for AddEvenNumbersRuleAfterStart {
    fn id(&self) -> RuleId {
        Self::static_id()
    }

    fn static_id() -> RuleId
    where
        Self: Sized,
    {
        RuleId("AddEvenNumbersRuleAfterStart")
    }
}

impl Rule<TestGameState, TestGameEvent> for AddEvenNumbersRuleAfterStart {
    fn apply(&mut self, state: &mut TestGameState) -> RuleResult {
        state.waiting_for_event = Some(TestWaitingFor::AddNumber);
        RuleResult::WaitingForEvent
    }

    fn validate(&self, _state: &TestGameState, event: &TestGameEvent) -> bool {
        matches!(event, TestGameEvent::AddNumber { number } if number % 2 == 0)
    }

    fn consume(&mut self, state: &mut TestGameState, event: &TestGameEvent) -> RuleResult {
        if let TestGameEvent::AddNumber { number } = event {
            state.sum += number;
        }
        state.waiting_for_event = None;
        RuleResult::Complete
    }
}

#[test]
fn consume_rule_result_decides_on_each_result() {
    let rule_chain: TestRuleList = vec![
        RuleNode::Composite(CompositeRule::new(
            RuleId("Outer"),
            vec![RuleNode::Leaf(Box::new(AddEvenNumbersRule))],
        )),
        RuleNode::Leaf(Box::new(GameOverRule)),
    ];
    let mut engine = RulesEngine::new(rule_chain);
    engine.process_rules();
    assert_eq!(engine.rule_stack(), [0, 0]);
    assert_eq!(engine.engine_status(), EngineStatus::WaitingForEvent);

    engine.consume_rule_result(RuleResult::GameOver);
    assert_eq!(engine.rule_stack(), [0, 0]);
    assert_eq!(engine.engine_status(), EngineStatus::GameOver);
    assert_eq!(engine.game_state().sum, 0);

    engine.consume_rule_result(RuleResult::WaitingForEvent);
    assert_eq!(engine.rule_stack(), [0, 0]);
    assert_eq!(engine.engine_status(), EngineStatus::WaitingForEvent);

    // Completing the waiting rule moves on, out of the composite, to the next rule.
    engine.consume_rule_result(RuleResult::Complete);
    assert_eq!(engine.rule_stack(), [1]);
    assert_eq!(*engine.current_rule_id(), [GameOverRule::static_id()]);
    assert_eq!(engine.engine_status(), EngineStatus::GameOver);
    assert_eq!(engine.game_state().sum, 100);
}

#[test]
fn rules_well_formed_finds_empty_composites() {
    let rule_chain: TestRuleList = vec![
        RuleNode::Leaf(Box::new(SubtractTenRule)),
        RuleNode::Composite(CompositeRule::new(
            RuleId("Outer"),
            vec![RuleNode::Composite(CompositeRule::new(
                RuleId("Inner"),
                vec![],
            ))],
        )),
    ];
    let engine = RulesEngine::new(rule_chain);
    assert_eq!(engine.rules_well_formed(), false);

    let rule_chain: TestRuleList = vec![
        RuleNode::Leaf(Box::new(SubtractTenRule)),
        RuleNode::Composite(CompositeRule::new(
            RuleId("Outer"),
            vec![RuleNode::Leaf(Box::new(SubtractTenRule))],
        )),
    ];
    let engine = RulesEngine::new(rule_chain);
    assert_eq!(engine.rules_well_formed(), true);

    let engine: RulesEngine<TestGameState, TestGameEvent> = RulesEngine::new(vec![]);
    assert_eq!(engine.rules_well_formed(), true);
}
