//! Tests for the fixed-point value update, the termination strategies,
//! the best-action policy and the training loops.

use snake_ai::Action;
use snake_ai::AgentTrainer;
use snake_ai::AiComponents;
use snake_ai::Arena;
use snake_ai::Config;
use snake_ai::FixedIterations;
use snake_ai::MyState;
use snake_ai::NumGames;
use snake_ai::QLearning;
use snake_ai::Store;
use snake_ai::Table;
use snake_ai::TerminationStrategy;
use snake_ai::TimePassed;
use snake_ai::VALUE_LIMIT_CENTI;
use snake_ai::q_update;

#[test]
fn q_update_applies_the_bootstrapped_formula() {
    // q' = q + alpha * (r + gamma * m - q), all rates in hundredths.
    // q = 0.10, r = 4.00, m = 0.20, alpha = 0.5, gamma = 2.0:
    // gamma * m = 0.40; inner = 4.00 + 0.40 - 0.10 = 4.30;
    // q' = 0.10 + 0.5 * 4.30 = 2.25.
    let l = QLearning::new(50, 200);
    assert_eq!(q_update(10, 400, 20, &l), 225);
}

#[test]
fn q_update_with_full_learning_rate_is_the_target() {
    // alpha = 1, gamma = 0: the update jumps straight to the reward.
    let l = QLearning::new(100, 0);
    assert_eq!(q_update(0, -1, 777, &l), -1);
    assert_eq!(q_update(55, 400, 0, &l), 400);
}

#[test]
fn q_update_rounds_towards_zero() {
    // alpha = 0.5 on a reward of -0.01: the delta -0.005 truncates to 0.
    let l = QLearning::new(50, 0);
    assert_eq!(q_update(0, -1, 0, &l), 0);
    // And on +0.01 likewise.
    assert_eq!(q_update(0, 1, 0, &l), 0);
}

#[test]
fn q_update_saturates_at_the_value_limit() {
    let l = QLearning::new(100, 1000);
    let v = q_update(VALUE_LIMIT_CENTI, 400, VALUE_LIMIT_CENTI, &l);
    assert_eq!(v, VALUE_LIMIT_CENTI);
    let w = q_update(-VALUE_LIMIT_CENTI, -400, -VALUE_LIMIT_CENTI, &l);
    assert_eq!(w, -VALUE_LIMIT_CENTI);
}

#[test]
fn num_games_stops_after_the_target_deaths() {
    // A death is any reward below -0.5 (-50 centi).
    let mut t = TerminationStrategy::Games(NumGames::new(2));
    assert!(!t.should_stop(-400));
    assert!(!t.should_stop(-1));
    assert!(!t.should_stop(400));
    assert!(t.should_stop(-400));
}

#[test]
fn fixed_iterations_stops_after_the_target_ticks() {
    let mut t = TerminationStrategy::Iterations(FixedIterations::new(2));
    assert!(!t.should_stop(-1));
    assert!(t.should_stop(-1));
    assert!(t.should_stop(-400));
}

#[test]
fn time_passed_stops_once_the_deadline_is_reached() {
    let mut t = TerminationStrategy::Time(TimePassed::new(0));
    assert!(t.should_stop(-1));
}

#[test]
fn best_action_breaks_ties_in_enumeration_order() {
    // Enumeration order is +X, +Y, -X, -Y; the first maximal recorded
    // value wins.
    let mut table = Table::new();
    let s = MyState::new(3);
    table.set_value(&s, Action::XPos, 100);
    table.set_value(&s, Action::YPos, 500);
    table.set_value(&s, Action::XNeg, 500);
    let mut trainer = AgentTrainer::new();
    trainer.import_state(table);
    assert_eq!(trainer.best_action(&s), Some(Action::YPos));
}

#[test]
fn best_action_is_none_for_unseen_states() {
    let trainer = AgentTrainer::new();
    let s = MyState::new(3);
    assert_eq!(trainer.best_action(&s), None);
}

#[test]
fn learn_step_writes_the_exact_update() {
    // With alpha = 1, gamma = 0 the learned value of the taken action is
    // exactly the observed reward.
    for _ in 0..1000 {
        let mut agent = Arena::new((16, 16), 3);
        if a_apple_at(&agent, (9, 8)) {
            continue;
        }
        let mut trainer = AgentTrainer::new();
        let s0 = agent.current_state().clone();
        let l = QLearning::new(100, 0);
        let out = trainer.learn_step(&mut agent, &l, Action::XPos).unwrap();
        assert!(!out.died);
        assert_eq!(out.reward_centi, -1);
        assert_eq!(trainer.learned_value(&s0, Action::XPos), Some(-1));
        assert_eq!(trainer.learned_value(&s0, Action::YPos), None);
        return;
    }
    panic!("the apple kept spawning next to the head");
}

fn a_apple_at(a: &Arena, p: (i32, i32)) -> bool {
    a.apple_pos.2 && (a.apple_pos.0, a.apple_pos.1) == p
}

#[test]
fn train_records_states_in_the_table() {
    let mut agent = Arena::new((16, 16), 3);
    let mut trainer = AgentTrainer::new();
    let l = QLearning::new(20, 10);
    let mut term = TerminationStrategy::Iterations(FixedIterations::new(50));
    let steps = trainer.train(&mut agent, &l, &mut term, 1000).unwrap();
    assert_eq!(steps, 50);
    let delta = trainer.export_learned_values();
    assert!(delta.len() > 0);
}

#[test]
fn train_cycle_merges_results_into_the_store() {
    let mut store = Store::new();
    let config = Config { bound: 3, arena_size: (16, 16), learning: QLearning::new(20, 10) };
    let mut ai = AiComponents::new(config, &store);
    let mut term = TerminationStrategy::Iterations(FixedIterations::new(25));
    ai.train_cycle(&mut store, &mut term, 1000).unwrap();
    assert_eq!(store.len(), 1);
    let table = store.read(3);
    assert!(table.len() > 0);
    // An unseen radius reads back empty.
    let other = store.read(5);
    assert_eq!(other.len(), 0);
}

#[test]
fn serve_tick_trains_on_unknown_states() {
    let mut store = Store::new();
    let config = Config { bound: 3, arena_size: (16, 16), learning: QLearning::new(20, 10) };
    let mut ai = AiComponents::new(config, &store);
    // The table is empty, so the first serving tick falls back to a single
    // on-policy training step and merge-writes it.
    let r = ai.serve_tick(&mut store);
    assert!(r.is_ok());
    assert_eq!(store.len(), 1);
    assert!(store.read(3).len() > 0);
}

#[test]
fn workers_for_different_radii_share_one_store() {
    let mut store = Store::new();
    for bound in [3usize, 5, 7, 9] {
        let config = Config { bound, arena_size: (16, 16), learning: QLearning::new(10, 10) };
        let mut ai = AiComponents::new(config, &store);
        let mut term = TerminationStrategy::Iterations(FixedIterations::new(10));
        ai.train_cycle(&mut store, &mut term, 1000).unwrap();
    }
    assert_eq!(store.len(), 4);
    for bound in [3u32, 5, 7, 9] {
        assert!(store.read(bound).len() > 0);
    }
}
