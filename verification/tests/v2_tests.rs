use rules_engine::v2::{
    CompositeRule, EngineStatus, GameEvent, GameState, Rule, RuleList, RuleResult, RulesEngine,
};

#[derive(Default)]
struct TestGameState {
    sum: i32,
    waiting_for_event: Option<TestWaitingFor>,
}

impl GameState for TestGameState {}

#[derive(Debug)]
enum TestGameEvent {
    AddNumber { number: i32 },
    PlaceholderEvent,
}

impl GameEvent for TestGameEvent {}

#[derive(Debug, PartialEq)]
enum TestWaitingFor {
    AddNumber,
}

type TestRuleList = RuleList<TestGameState, TestGameEvent>;

/// Adds even numbers to the sum: it waits for an `AddNumber` event, accepts even numbers, and
/// adds the number to the sum.
#[derive(Debug)]
struct AddEvenNumbersRule;

impl Rule<TestGameState, TestGameEvent> for AddEvenNumbersRule {
    fn apply(&mut self, state: &mut TestGameState) -> RuleResult {
        assert!(state.waiting_for_event.is_none());
        assert_eq!(state.sum, 0);
        state.waiting_for_event = Some(TestWaitingFor::AddNumber);
        RuleResult::WaitingForEvent
    }

    fn validate(&self, _state: &TestGameState, event: &TestGameEvent) -> bool {
        let TestGameEvent::AddNumber { number } = event else {
            return false;
        };

        *number % 2 == 0
    }

    fn consume(&mut self, state: &mut TestGameState, event: &TestGameEvent) -> RuleResult {
        let TestGameEvent::AddNumber { number } = event else {
            panic!("{:?} received unexpected event: {:?}", self, event);
        };

        state.sum += number;
        state.waiting_for_event = None;
        RuleResult::Complete
    }
}

/// Subtracts 10 from the sum as soon as it is applied.
#[derive(Debug)]
struct SubtractTenRule;

impl Rule<TestGameState, TestGameEvent> for SubtractTenRule {
    fn apply(&mut self, state: &mut TestGameState) -> RuleResult {
        assert!(state.waiting_for_event.is_none());
        state.sum -= 10;
        RuleResult::Complete
    }

    fn validate(&self, _state: &TestGameState, _event: &TestGameEvent) -> bool {
        false
    }

    fn consume(&mut self, _state: &mut TestGameState, event: &TestGameEvent) -> RuleResult {
        panic!("{:?} received unexpected event: {:?}", self, event);
    }
}

/// Ends the game as soon as it is applied.
#[derive(Debug)]
struct GameOverRule;

impl Rule<TestGameState, TestGameEvent> for GameOverRule {
    fn apply(&mut self, state: &mut TestGameState) -> RuleResult {
        state.sum += 100;
        RuleResult::GameOver
    }

    fn validate(&self, _state: &TestGameState, _event: &TestGameEvent) -> bool {
        true
    }

    fn consume(&mut self, _state: &mut TestGameState, event: &TestGameEvent) -> RuleResult {
        panic!("{:?} received unexpected event: {:?}", self, event);
    }
}

/// A composite of [AddEvenNumbersRule] and [SubtractTenRule].
struct AddEvenNumbersThenSubtractTenRule;

impl AddEvenNumbersThenSubtractTenRule {
    pub fn new() -> CompositeRule<TestGameState, TestGameEvent> {
        CompositeRule::new(vec![
            Box::new(AddEvenNumbersRule),
            Box::new(SubtractTenRule),
        ])
    }
}

#[test]
fn v2_verify_rules_engine_initial_state() {
    let rule_chain: TestRuleList = vec![Box::new(AddEvenNumbersRule)];
    let engine = RulesEngine::new(rule_chain);

    assert_eq!(engine.current_rule_index(), 0);
    assert_eq!(engine.engine_status(), EngineStatus::Ready);
    assert_eq!(engine.is_waiting_for_event(), false);
    assert_eq!(engine.game_state().sum, 0);
    assert!(engine.game_state().waiting_for_event.is_none());
}

#[test]
fn v2_verify_test_game_state_initial_state() {
    let state: TestGameState = TestGameState::default();
    assert_eq!(state.sum, 0);
    assert!(state.waiting_for_event.is_none());
}

#[test]
fn v2_process_rules_only_calls_apply_once() {
    let rule_chain: TestRuleList = vec![Box::new(AddEvenNumbersRule)];
    let mut engine = RulesEngine::new(rule_chain);

    // Begin processing rules
    engine.process_rules();

    // Verify that we are now waiting for an event
    assert_eq!(engine.current_rule_index(), 0);
    assert_eq!(engine.engine_status(), EngineStatus::WaitingForEvent);
    assert_eq!(engine.is_waiting_for_event(), true);

    // Verify that calling process_rules again does not call apply again
    engine.process_rules();

    // We should still be waiting for an event, and the rule should not have been applied again
    assert_eq!(engine.current_rule_index(), 0);
    assert_eq!(engine.engine_status(), EngineStatus::WaitingForEvent);
    assert_eq!(engine.is_waiting_for_event(), true);
}

#[test]
fn v2_apply_may_complete_a_rule() {
    let rule_chain: TestRuleList = vec![Box::new(SubtractTenRule)];
    apply_may_complete_a_rule_impl(rule_chain);
}

#[test]
fn v2_apply_may_complete_a_rule_composite() {
    let rule_chain: TestRuleList = vec![Box::new(CompositeRule::new(vec![Box::new(
        SubtractTenRule,
    )]))];
    apply_may_complete_a_rule_impl(rule_chain);
}

fn apply_may_complete_a_rule_impl(rule_chain: TestRuleList) {
    let mut engine = RulesEngine::new(rule_chain);

    // Begin processing rules
    engine.process_rules();

    // Verify that the rule was applied and completed
    assert_eq!(engine.current_rule_index(), 1);
    assert_eq!(engine.engine_status(), EngineStatus::Ready);
    assert_eq!(engine.is_waiting_for_event(), false);
    assert_eq!(engine.game_state().sum, -10); // Default state is 0, so it should be -10 now
}

#[test]
fn v2_test_rules_engine() {
    let rule_chain: TestRuleList =
        vec![Box::new(AddEvenNumbersRule), Box::new(SubtractTenRule)];
    test_rules_engine_impl(rule_chain);
}

#[test]
fn v2_test_rules_engine_composite() {
    let inner_rule_chain: TestRuleList =
        vec![Box::new(AddEvenNumbersRule), Box::new(SubtractTenRule)];
    let rule_chain: TestRuleList = vec![Box::new(CompositeRule::new(inner_rule_chain))];
    test_rules_engine_impl(rule_chain);
}

#[test]
fn v2_test_rules_engine_named_composite() {
    let rule_chain: TestRuleList = vec![Box::new(AddEvenNumbersThenSubtractTenRule::new())];
    test_rules_engine_impl(rule_chain);
}

fn test_rules_engine_impl(rule_chain: TestRuleList) {
    let rule_chanin_end = rule_chain.len();
    let mut engine = RulesEngine::new(rule_chain);

    engine.process_rules();

    let verify_rule_0_is_waiting_for_event = || {
        assert_eq!(engine.current_rule_index(), 0);
        assert_eq!(engine.engine_status(), EngineStatus::WaitingForEvent);
        assert_eq!(engine.is_waiting_for_event(), true);
    };
    verify_rule_0_is_waiting_for_event();

    // Expect that an invalid event is rejected by the engine, and does not modify the game state
    let invalid_event = TestGameEvent::AddNumber { number: 1 };
    assert_eq!(engine.validate(&invalid_event), false);
    assert_eq!(engine.game_state().sum, 0);

    verify_rule_0_is_waiting_for_event();

    // Expect that a valid event is accepted by the engine, but does not modify the game state
    let valid_event = TestGameEvent::AddNumber { number: 2 };
    assert_eq!(engine.validate(&valid_event), true);
    assert_eq!(engine.game_state().sum, 0);

    verify_rule_0_is_waiting_for_event();

    // Expect that consuming a valid event updates the game state and progresses to the next rule
    engine.consume(&valid_event);
    assert!(engine.game_state().waiting_for_event.is_none());

    // Expect that the SubtractTenRule has been applied
    assert_eq!(engine.game_state().sum, -8);

    // Verify that the engine has moved to the next rule
    assert_eq!(engine.current_rule_index(), rule_chanin_end);
    assert_eq!(engine.engine_status(), EngineStatus::Ready);
    assert_eq!(engine.is_waiting_for_event(), false);
}

// Tests of the engine's promises beyond the scenarios above.

#[test]
fn v2_consume_is_ignored_when_not_waiting() {
    let rule_chain: TestRuleList = vec![Box::new(AddEvenNumbersRule)];
    let mut engine = RulesEngine::new(rule_chain);
    engine.consume(&TestGameEvent::AddNumber { number: 2 });
    assert_eq!(engine.current_rule_index(), 0);
    assert_eq!(engine.engine_status(), EngineStatus::Ready);
    assert_eq!(engine.game_state().sum, 0);
    assert!(engine.game_state().waiting_for_event.is_none());
}

#[test]
fn v2_validate_after_the_end_is_false() {
    let rule_chain: TestRuleList = vec![Box::new(SubtractTenRule)];
    let mut engine = RulesEngine::new(rule_chain);
    engine.process_rules();
    assert_eq!(engine.current_rule_index(), 1);
    assert_eq!(engine.validate(&TestGameEvent::PlaceholderEvent), false);
}

#[test]
fn v2_game_over_stops_on_the_rule() {
    let rule_chain: TestRuleList = vec![
        Box::new(SubtractTenRule),
        Box::new(GameOverRule),
        Box::new(SubtractTenRule),
    ];
    let mut engine = RulesEngine::new(rule_chain);
    engine.process_rules();
    assert_eq!(engine.current_rule_index(), 1);
    assert_eq!(engine.engine_status(), EngineStatus::GameOver);
    assert_eq!(engine.game_state().sum, 90);
    assert_eq!(engine.validate(&TestGameEvent::PlaceholderEvent), true);
}

#[test]
fn v2_process_rules_does_nothing_once_the_game_is_over() {
    let rule_chain: TestRuleList = vec![
        Box::new(SubtractTenRule),
        Box::new(GameOverRule),
        Box::new(SubtractTenRule),
    ];
    let mut engine = RulesEngine::new(rule_chain);
    engine.process_rules();
    assert_eq!(engine.engine_status(), EngineStatus::GameOver);
    engine.process_rules();
    assert_eq!(engine.current_rule_index(), 1);
    assert_eq!(engine.engine_status(), EngineStatus::GameOver);
    assert_eq!(engine.game_state().sum, 90);
}

#[test]
fn v2_empty_chain_completes_at_once() {
    let rule_chain: TestRuleList = vec![];
    let mut engine = RulesEngine::new(rule_chain);
    engine.process_rules();
    assert_eq!(engine.current_rule_index(), 0);
    assert_eq!(engine.engine_status(), EngineStatus::Ready);
    assert_eq!(engine.validate(&TestGameEvent::PlaceholderEvent), false);
}

#[test]
fn v2_composite_runs_its_rules_in_order() {
    let mut composite = AddEvenNumbersThenSubtractTenRule::new();
    let mut state = TestGameState::default();
    assert_eq!(composite.apply(&mut state), RuleResult::WaitingForEvent);
    assert_eq!(
        composite.validate(&state, &TestGameEvent::AddNumber { number: 3 }),
        false
    );
    assert_eq!(
        composite.validate(&state, &TestGameEvent::AddNumber { number: 4 }),
        true
    );
    assert_eq!(
        composite.consume(&mut state, &TestGameEvent::AddNumber { number: 4 }),
        RuleResult::Complete
    );
    assert_eq!(state.sum, -6);
    // Once its rules have run out, the composite validates nothing and completes at once.
    assert_eq!(
        composite.validate(&state, &TestGameEvent::AddNumber { number: 4 }),
        false
    );
    assert_eq!(
        composite.consume(&mut state, &TestGameEvent::AddNumber { number: 4 }),
        RuleResult::Complete
    );
    assert_eq!(state.sum, -6);
}

#[test]
fn v2_composite_reports_game_over() {
    let rule_chain: TestRuleList = vec![Box::new(CompositeRule::new(vec![
        Box::new(SubtractTenRule),
        Box::new(GameOverRule),
    ]))];
    let mut engine = RulesEngine::new(rule_chain);
    engine.process_rules();
    assert_eq!(engine.current_rule_index(), 0);
    assert_eq!(engine.engine_status(), EngineStatus::GameOver);
    assert_eq!(engine.game_state().sum, 90);
}

#[test]
fn v2_consume_rule_result_decides_on_each_result() {
    let rule_chain: TestRuleList = vec![Box::new(AddEvenNumbersRule), Box::new(GameOverRule)];
    let mut engine = RulesEngine::new(rule_chain);
    engine.process_rules();
    assert_eq!(engine.engine_status(), EngineStatus::WaitingForEvent);

    engine.consume_rule_result(RuleResult::WaitingForEvent);
    assert_eq!(engine.current_rule_index(), 0);
    assert_eq!(engine.engine_status(), EngineStatus::WaitingForEvent);

    engine.consume_rule_result(RuleResult::GameOver);
    assert_eq!(engine.current_rule_index(), 0);
    assert_eq!(engine.engine_status(), EngineStatus::GameOver);
    assert_eq!(engine.game_state().sum, 0);

    // Completing the waiting rule moves on to the next rule.
    engine.consume_rule_result(RuleResult::Complete);
    assert_eq!(engine.current_rule_index(), 1);
    assert_eq!(engine.engine_status(), EngineStatus::GameOver);
    assert_eq!(engine.game_state().sum, 100);
}
