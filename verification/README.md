# rules_engine

A rules engine for games, verified with Verus. The engine applies a chain of game rules to a game
state, waits where a rule waits for an event, and hands each event to the rule that waits for it.

- `src/rule.rs`: rule ids, the `Rule` trait that users implement, composite rules, and the rule
  tree (`RuleNode`) with its shape.
- `src/shape.rs`: the shape of a rule tree and the paths through it: depth-first order, the walk
  over the single rules, and the lemmas about them.
- `src/engine.rs`: the engine over a rule tree, with its rule stack.
- `src/v2.rs`: a second engine over a flat chain, where composites run their own sub-chains.
- `app/lib.rs`: the `impl_rule_id!` macro.

Rules are written by the users of the engines. A rule may state what it does through the
specification hooks of its traits (`states_outcomes` with `apply_outcome` and `consume_outcome`,
`states_validation` with `validates`, `states_id` with `stated_id`, and in `v2` also `can_apply`
and `can_consume`); the engines' contracts then say which rules are applied or passed events, in
what order, and what game state, position and status come of it.

The tree engine processes only a tree in which no composite is without sub-rules;
`RulesEngine::rules_well_formed` checks that at run time.
