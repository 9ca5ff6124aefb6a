//! The training and serving loops: pure random exploration driving the
//! simulation, bootstrapped value updates into an in-memory table, the
//! pluggable termination strategies, and periodic synchronization with the
//! shared store.
//!
//! Every loop carries an explicit step budget, so each is provably
//! terminating; the budgets are large enough never to fire before the
//! termination strategies in practice.

use vstd::prelude::*;

use crate::snake::initial_snake;
use crate::snake::Action;
use crate::snake::Arena;
use crate::snake::ArenaError;
use crate::snake::TickOutcome;
use crate::snake::MAX_ARENA_SIDE;
use crate::snake::MAX_BOUND;
use crate::state::Fake;
use crate::state::MapState;
use crate::state::MyState;
use crate::store::lemma_store_evolves_refl;
use crate::store::lemma_store_evolves_trans;
use crate::store::store_evolves;
use crate::store::Store;
use crate::sys::now_millis;
use crate::sys::random_below;
use crate::table::empty_slot;
use crate::table::learning_ok;
use crate::table::lemma_spec_set_preserves_recorded;
use crate::table::lemma_table_pairs_preserved_trans;
use crate::table::table_pairs_match;
use crate::table::table_pairs_preserved;
use crate::table::max_q;
use crate::table::max_q_value;
use crate::table::q_of;
use crate::table::q_update;
use crate::table::spec_q_update;
use crate::table::ActionValues;
use crate::table::ObsKey;
use crate::table::QLearning;
use crate::table::Table;
use crate::table::VALUE_LIMIT_CENTI;

verus! {

/// Safety bound on the steps of one training cycle; the cycle's
/// termination strategy is expected to fire long before it.
pub const TRAIN_STEP_BUDGET: u64 = 1_000_000_000;

/// Safety bound on the greedy-play steps of one test-and-train pass.
pub const TEST_PLAY_BUDGET: u64 = 1_000_000;

/// How long the serving loop waits between reloads from the store.
pub const RELOAD_INTERVAL_MS: u64 = 60_000;

/// Time-boxed termination: stop once a wall-clock deadline has passed.
pub struct TimePassed {
    /// The deadline, in milliseconds since the epoch.
    pub termination_time_ms: u64,
}

impl TimePassed {
    /// Starts a time box ending the given number of milliseconds from now
    /// (saturating at the largest representable deadline).
    pub fn new(time_to_train_ms: u64) -> (t: TimePassed)
        ensures
            t.termination_time_ms >= time_to_train_ms,
    {
        let now: u64 = now_millis();
        let deadline: u64 = if now <= u64::MAX - time_to_train_ms {
            now + time_to_train_ms
        } else {
            u64::MAX
        };
        TimePassed { termination_time_ms: deadline }
    }

    /// Whether the wall clock has reached the deadline.
    fn should_stop(&mut self) -> (r: bool)
        ensures
            *final(self) == *old(self),
    {
        now_millis() >= self.termination_time_ms
    }
}

/// Game-count termination: stop after observing a number of deaths.
pub struct NumGames {
    /// Deaths observed so far in this cycle.
    pub curr_game: u32,
    /// Deaths after which the cycle stops.
    pub target_games: u32,
}

impl NumGames {
    /// A counter that stops the cycle after this many deaths.
    pub fn new(target_games: u32) -> (n: NumGames)
        ensures
            n.curr_game == 0,
            n.target_games == target_games,
    {
        NumGames { curr_game: 0, target_games }
    }

    /// Counts a death (any reward below -0.5) and stops on the target.
    fn should_stop(&mut self, reward_centi: i64) -> (r: bool)
        ensures
            final(self).target_games == old(self).target_games,
            final(self).curr_game == if reward_centi < -50 {
                if old(self).curr_game < u32::MAX {
                    (old(self).curr_game + 1) as u32
                } else {
                    u32::MAX
                }
            } else {
                old(self).curr_game
            },
            r == (final(self).curr_game == final(self).target_games),
    {
        if reward_centi < -50 {
            if self.curr_game < u32::MAX {
                self.curr_game = self.curr_game + 1;
            }
        }
        self.curr_game == self.target_games
    }
}

/// Fixed-iteration termination: stop after exactly a number of ticks.
pub struct FixedIterations {
    /// Ticks taken so far in this cycle.
    pub curr_iter: u64,
    /// Ticks after which the cycle stops.
    pub target_iters: u64,
}

impl FixedIterations {
    /// A counter that stops the cycle after this many ticks.
    pub fn new(target_iters: u64) -> (f: FixedIterations)
        ensures
            f.curr_iter == 0,
            f.target_iters == target_iters,
    {
        FixedIterations { curr_iter: 0, target_iters }
    }

    /// Counts a tick and stops once the target is reached.
    fn should_stop(&mut self) -> (r: bool)
        ensures
            final(self).target_iters == old(self).target_iters,
            final(self).curr_iter == if old(self).curr_iter < u64::MAX {
                (old(self).curr_iter + 1) as u64
            } else {
                u64::MAX
            },
            r == (final(self).curr_iter >= final(self).target_iters),
    {
        if self.curr_iter < u64::MAX {
            self.curr_iter = self.curr_iter + 1;
        }
        self.curr_iter >= self.target_iters
    }
}

/// The closed set of stopping rules for one training cycle, behind the one
/// capability "should this cycle stop, given the latest reward".
pub enum TerminationStrategy {
    /// Stop once a wall-clock deadline has passed.
    Time(TimePassed),
    /// Stop after a number of deaths.
    Games(NumGames),
    /// Stop after a number of ticks.
    Iterations(FixedIterations),
}

impl TerminationStrategy {
    /// Whether the training cycle should stop, given the reward of the
    /// latest tick (in centi-units).
    pub fn should_stop(&mut self, reward_centi: i64) -> (r: bool)
        ensures
            (*old(self)) matches TerminationStrategy::Time(t) ==> *final(self) == *old(self),
            (*old(self)) matches TerminationStrategy::Games(g0) ==> ((*final(self)) matches
                TerminationStrategy::Games(g1) && g1.target_games == g0.target_games
                && g1.curr_game == (if reward_centi < -50 {
                if g0.curr_game < u32::MAX {
                    (g0.curr_game + 1) as u32
                } else {
                    u32::MAX
                }
            } else {
                g0.curr_game
            }) && r == (g1.curr_game == g1.target_games)),
            (*old(self)) matches TerminationStrategy::Iterations(f0) ==> ((*final(self)) matches
                TerminationStrategy::Iterations(f1) && f1.target_iters == f0.target_iters
                && f1.curr_iter == (if f0.curr_iter < u64::MAX {
                (f0.curr_iter + 1) as u64
            } else {
                u64::MAX
            }) && r == (f1.curr_iter >= f1.target_iters)),
    {
        match self {
            TerminationStrategy::Time(t) => t.should_stop(),
            TerminationStrategy::Games(g) => g.should_stop(reward_centi),
            TerminationStrategy::Iterations(f) => f.should_stop(),
        }
    }
}

/// Folds one candidate action into the running best: a recorded value
/// replaces the current best only when strictly larger, so earlier
/// candidates win ties.
pub open spec fn spec_better(cur: Option<(Action, i64)>, a: Action, v: Option<i64>) -> Option<
    (Action, i64),
> {
    match v {
        None => cur,
        Some(x) => match cur {
            None => Some((a, x)),
            Some((b, y)) => if x > y {
                Some((a, x))
            } else {
                cur
            },
        },
    }
}

/// The best recorded action of a slot: the first action of maximal
/// recorded value in the fixed enumeration order +X, +Y, -X, -Y; `None`
/// when nothing is recorded.
pub open spec fn spec_best_of(av: ActionValues) -> Option<(Action, i64)> {
    spec_better(
        spec_better(
            spec_better(spec_better(None, Action::XPos, av.x_pos), Action::YPos, av.y_pos),
            Action::XNeg,
            av.x_neg,
        ),
        Action::YNeg,
        av.y_neg,
    )
}

/// The best known action for an observation key, or `None` when the table
/// records nothing for it.
pub open spec fn spec_best_action(t: Table, k: ObsKey) -> Option<Action> {
    match t.spec_slot(k) {
        None => None,
        Some(av) => match spec_best_of(av) {
            None => None,
            Some((a, v)) => Some(a),
        },
    }
}

/// The best-action policy is sound: when it picks an action, that action's
/// value is recorded and no recorded value exceeds it; it returns nothing
/// only when the slot records nothing.
pub proof fn lemma_best_action_maximal(av: ActionValues)
    ensures
        match spec_best_of(av) {
            None => forall|a: Action| #[trigger] av.spec_get(a) is None,
            Some((a, v)) => av.spec_get(a) == Some(v) && forall|b: Action|
                #[trigger] av.spec_get(b) matches Some(w) ==> w <= v,
        },
{
    assert(av.spec_get(Action::XPos) == av.x_pos);
    assert(av.spec_get(Action::XNeg) == av.x_neg);
    assert(av.spec_get(Action::YPos) == av.y_pos);
    assert(av.spec_get(Action::YNeg) == av.y_neg);
    match spec_best_of(av) {
        None => {
            assert forall|a: Action| #[trigger] av.spec_get(a) is None by {
                match a {
                    Action::XPos => {},
                    Action::XNeg => {},
                    Action::YPos => {},
                    Action::YNeg => {},
                }
            }
        },
        Some((a, v)) => {
            assert forall|b: Action| #[trigger] av.spec_get(b) matches Some(w) ==> w <= v by {
                match b {
                    Action::XPos => {},
                    Action::XNeg => {},
                    Action::YPos => {},
                    Action::YNeg => {},
                }
            }
        },
    }
}

/// Folds one candidate action into the running best.
fn better(cur: Option<(Action, i64)>, a: Action, v: Option<i64>) -> (r: Option<(Action, i64)>)
    ensures
        r == spec_better(cur, a, v),
{
    match v {
        None => cur,
        Some(x) => match cur {
            None => Some((a, x)),
            Some((b, y)) => if x > y {
                Some((a, x))
            } else {
                Some((b, y))
            },
        },
    }
}

/// A uniformly random action, for pure random exploration.
fn random_action() -> Action {
    let k: i32 = random_below(4);
    if k == 0 {
        Action::XPos
    } else if k == 1 {
        Action::YPos
    } else if k == 2 {
        Action::XNeg
    } else {
        Action::YNeg
    }
}

/// The in-memory learner: a working action-value table updated by
/// explore-and-learn steps.
pub struct AgentTrainer {
    table: Table,
}

impl AgentTrainer {
    /// The learner's working table.
    pub closed spec fn spec_table(self) -> Table {
        self.table
    }

    /// The learner's invariant: a well-formed table with every value
    /// within the saturation limit.
    pub open spec fn wf(self) -> bool {
        &&& self.spec_table().wf()
        &&& self.spec_table().bounded()
    }

    /// A learner with an empty table.
    pub fn new() -> (t: AgentTrainer)
        ensures
            t.wf(),
            t.spec_table().as_map() == Map::<ObsKey, ActionValues>::empty(),
    {
        AgentTrainer { table: Table::new() }
    }

    /// Replaces the working table with the given one.
    pub fn import_state(&mut self, table: Table)
        requires
            table.wf(),
            table.bounded(),
        ensures
            final(self).wf(),
            final(self).spec_table() == table,
    {
        self.table = table;
    }

    /// A snapshot copy of the working table.
    pub fn export_learned_values(&self) -> (t: Table)
        requires
            self.wf(),
        ensures
            t.wf(),
            t.bounded(),
            t.as_map() == self.spec_table().as_map(),
    {
        let t = self.table.clone();
        proof {
            assert forall|k: ObsKey| #[trigger] t.as_map().contains_key(k) implies t.as_map()[k].bounded() by {
                assert(self.spec_table().as_map().contains_key(k));
            }
        }
        t
    }

    /// The recorded value of one observation/action pair.
    pub fn learned_value(&self, state: &MyState, action: Action) -> (r: Option<i64>)
        requires
            self.wf(),
        ensures
            r == match self.spec_table().spec_slot(state.key_view()) {
                None => None::<i64>,
                Some(av) => av.spec_get(action),
            },
    {
        self.table.get_value(state, action)
    }

    /// The best known action for an observation: the first action of
    /// maximal recorded value in the fixed order +X, +Y, -X, -Y, or `None`
    /// when the observation (or every action of it) is unrecorded.
    pub fn best_action(&self, state: &MyState) -> (r: Option<Action>)
        requires
            self.wf(),
        ensures
            r == spec_best_action(self.spec_table(), state.key_view()),
    {
        match self.table.get_values(state) {
            None => None,
            Some(av) => {
                let c1 = better(None, Action::XPos, av.x_pos);
                let c2 = better(c1, Action::YPos, av.y_pos);
                let c3 = better(c2, Action::XNeg, av.x_neg);
                let c4 = better(c3, Action::YNeg, av.y_neg);
                match c4 {
                    None => None,
                    Some((a, _)) => Some(a),
                }
            },
        }
    }

    /// One explore-and-learn step: applies the given action, observes the
    /// resulting observation and reward, and applies the bootstrapped
    /// update `Q[s][a] += alpha * (r + gamma * max Q[s'] - Q[s][a])` to the
    /// pre-move observation's slot (unknown entries default to 0).  The
    /// engine moves exactly as `tick` says; the only failure is `tick`'s
    /// `ArenaExhausted`, with the table left untouched.
    pub fn learn_step(&mut self, agent: &mut Arena, learning: &QLearning, action: Action) -> (r:
        Result<TickOutcome, ArenaError>)
        requires
            old(self).wf(),
            old(agent).wf(),
            learning_ok(*learning),
        ensures
            final(self).wf(),
            final(agent).wf(),
            final(agent).arena_size == old(agent).arena_size,
            final(agent).bound == old(agent).bound,
            Arena::tick_rel(*old(agent), *final(agent), action, r),
            r matches Ok(out) ==> ({
                let s0 = old(agent).state.key_view();
                let s1 = final(agent).state.key_view();
                let base = match old(self).spec_table().spec_slot(s0) {
                    Some(av) => av,
                    None => empty_slot(),
                };
                let q0 = q_of(old(self).spec_table().spec_slot(s0), action);
                let m = max_q(old(self).spec_table().spec_slot(s1));
                let nv = spec_q_update(
                    q0 as int,
                    out.reward_centi as int,
                    m as int,
                    learning.alpha_centi as int,
                    learning.gamma_centi as int,
                );
                final(self).spec_table().as_map() == old(self).spec_table().as_map().insert(
                    s0,
                    base.spec_set(action, nv as i64),
                )
            }),
            r is Err ==> final(self).spec_table() == old(self).spec_table(),
            forall|k: ObsKey|
                old(self).spec_table().as_map().contains_key(k)
                    ==> #[trigger] final(self).spec_table().as_map().contains_key(k),
            table_pairs_preserved(
                old(self).spec_table().as_map(),
                final(self).spec_table().as_map(),
            ),
            r is Ok ==> final(self).spec_table().as_map().contains_key(
                old(agent).state.key_view(),
            ),
    {
        let s0: MyState = agent.current_state().clone();
        let out: TickOutcome = match agent.tick(action) {
            Ok(o) => o,
            Err(e) => {
                return Err(e);
            },
        };
        let slot0: Option<ActionValues> = self.table.get_values(&s0);
        let q0: i64 = match slot0 {
            None => 0,
            Some(av) => match av.get(action) {
                None => 0,
                Some(v) => v,
            },
        };
        let slot1: Option<ActionValues> = self.table.get_values(agent.current_state());
        let m: i64 = max_q_value(&slot1);
        proof {
            assert(-400 <= out.reward_centi <= 400);
            assert(-VALUE_LIMIT_CENTI <= q0 <= VALUE_LIMIT_CENTI) by {
                match slot0 {
                    None => {},
                    Some(av) => {
                        assert(self.spec_table().as_map().contains_key(s0.key_view()));
                        assert(av.spec_get(action) == av.spec_get(action));
                    },
                }
            }
            assert(-VALUE_LIMIT_CENTI <= m <= VALUE_LIMIT_CENTI) by {
                match slot1 {
                    None => {},
                    Some(av) => {
                        assert(self.spec_table().as_map().contains_key(agent.state.key_view()));
                        assert(av.spec_get(Action::XPos) == av.x_pos);
                        assert(av.spec_get(Action::XNeg) == av.x_neg);
                        assert(av.spec_get(Action::YPos) == av.y_pos);
                        assert(av.spec_get(Action::YNeg) == av.y_neg);
                    },
                }
            }
        }
        let nv: i64 = q_update(q0, out.reward_centi, m, learning);
        self.table.set_value(&s0, action, nv);
        proof {
            let s0k = old(agent).state.key_view();
            assert(s0.key_view() == s0k);
            let base = match old(self).spec_table().spec_slot(s0k) {
                Some(av) => av,
                None => empty_slot(),
            };
            lemma_spec_set_preserves_recorded(base, action, nv);
            assert forall|k: ObsKey, a2: Action|
                old(self).spec_table().as_map().contains_key(k) && (#[trigger] old(self).spec_table().as_map()[k].spec_get(
                    a2,
                )) is Some implies self.spec_table().as_map().contains_key(k)
                && self.spec_table().as_map()[k].spec_get(a2) is Some by {
                if k == s0k {
                    assert(base == old(self).spec_table().as_map()[k]);
                    assert(self.spec_table().as_map()[k] == base.spec_set(action, nv));
                }
            }
        }
        Ok(out)
    }

    /// Explore-and-learn until the termination strategy fires or the step
    /// budget runs out: each step applies a uniformly random action (pure
    /// random exploration) and performs one bootstrapped update; returns
    /// the number of steps taken.  Whatever the draws, the table only
    /// gains observations, every pair recorded before stays recorded, and
    /// after at least one step the starting observation is in the table.
    pub fn train(
        &mut self,
        agent: &mut Arena,
        learning: &QLearning,
        termination: &mut TerminationStrategy,
        max_steps: u64,
    ) -> (r: Result<u64, ArenaError>)
        requires
            old(self).wf(),
            old(agent).wf(),
            learning_ok(*learning),
        ensures
            final(self).wf(),
            final(agent).wf(),
            final(agent).arena_size == old(agent).arena_size,
            final(agent).bound == old(agent).bound,
            r matches Ok(n) ==> n <= max_steps,
            max_steps > 0 ==> (r matches Ok(n) ==> n >= 1),
            forall|k: ObsKey|
                old(self).spec_table().as_map().contains_key(k)
                    ==> #[trigger] final(self).spec_table().as_map().contains_key(k),
            table_pairs_preserved(
                old(self).spec_table().as_map(),
                final(self).spec_table().as_map(),
            ),
            r matches Ok(n) && n > 0 ==> final(self).spec_table().as_map().contains_key(
                old(agent).state.key_view(),
            ),
    {
        let mut steps: u64 = 0;
        while steps < max_steps
            invariant
                self.wf(),
                agent.wf(),
                learning_ok(*learning),
                steps <= max_steps,
                agent.arena_size == old(agent).arena_size,
                agent.bound == old(agent).bound,
                forall|k: ObsKey|
                    old(self).spec_table().as_map().contains_key(k) ==> #[trigger] self
                        .spec_table().as_map().contains_key(k),
                table_pairs_preserved(
                    old(self).spec_table().as_map(),
                    self.spec_table().as_map(),
                ),
                steps == 0 ==> agent.state == old(agent).state,
                steps > 0 ==> self.spec_table().as_map().contains_key(
                    old(agent).state.key_view(),
                ),
            decreases max_steps - steps,
        {
            let ghost pre_table = self.spec_table().as_map();
            let ghost pre_state_key = agent.state.key_view();
            let action: Action = random_action();
            let out: TickOutcome = match self.learn_step(agent, learning, action) {
                Ok(o) => o,
                Err(e) => {
                    proof {
                        lemma_table_pairs_preserved_trans(
                            old(self).spec_table().as_map(),
                            pre_table,
                            self.spec_table().as_map(),
                        );
                    }
                    return Err(e);
                },
            };
            proof {
                lemma_table_pairs_preserved_trans(
                    old(self).spec_table().as_map(),
                    pre_table,
                    self.spec_table().as_map(),
                );
                if steps == 0 {
                    assert(self.spec_table().as_map().contains_key(old(agent).state.key_view()));
                }
            }
            steps = steps + 1;
            if termination.should_stop(out.reward_centi) {
                return Ok(steps);
            }
        }
        Ok(steps)
    }
}

/// One worker's fixed configuration: observation radius, arena size and
/// learning parameters.
pub struct Config {
    /// The observation window side (odd).
    pub bound: usize,
    /// Arena width and height.
    pub arena_size: (i32, i32),
    /// The bootstrapped-update parameters.
    pub learning: QLearning,
}

/// The accepted configurations: an odd window side and arena dimensions
/// within machine limits, with learning rates in range.
pub open spec fn config_ok(c: Config) -> bool {
    &&& 1 <= c.arena_size.0 <= MAX_ARENA_SIDE
    &&& 4 <= c.arena_size.1 <= MAX_ARENA_SIDE
    &&& 3 <= c.bound <= MAX_BOUND
    &&& c.bound % 2 == 1
    &&& learning_ok(c.learning)
}

/// One worker: a configuration, an in-memory learner, its own simulation
/// engine, and the serving loop's reload timer.
pub struct AiComponents {
    config: Config,
    trainer: AgentTrainer,
    agent: Arena,
    last_reload_ms: u64,
}

impl AiComponents {
    /// The worker's fixed configuration.
    pub closed spec fn spec_config(self) -> Config {
        self.config
    }

    /// The worker's simulation engine.
    pub closed spec fn spec_agent(self) -> Arena {
        self.agent
    }

    /// The learner's working table.
    pub closed spec fn spec_table(self) -> Table {
        self.trainer.spec_table()
    }

    /// This worker's configuration key in the store.
    pub open spec fn spec_radius(self) -> int {
        self.spec_config().bound as int
    }

    /// The table map the store holds for this worker's radius (empty when
    /// the radius has never been written).
    pub open spec fn stored_table(self, store: Store) -> Map<ObsKey, ActionValues> {
        if store.as_map().contains_key(self.spec_radius()) {
            store.as_map()[self.spec_radius()]
        } else {
            Map::<ObsKey, ActionValues>::empty()
        }
    }

    /// The worker invariant: an accepted configuration, a well-formed
    /// learner, and a well-formed engine built to the configuration.
    pub closed spec fn wf(self) -> bool {
        &&& config_ok(self.config)
        &&& self.trainer.wf()
        &&& self.agent.wf()
        &&& self.agent.arena_size == self.config.arena_size
        &&& self.agent.bound == self.config.bound
    }

    /// Builds one worker: a fresh engine built to the configuration, and a
    /// learner holding the store's table for the configured radius (empty
    /// when unseen).  The store is untouched.
    pub fn new(config: Config, store: &Store) -> (ai: AiComponents)
        requires
            config_ok(config),
            store.wf(),
            store.bounded(),
        ensures
            ai.wf(),
            ai.spec_config() == config,
            ai.spec_agent().arena_size == config.arena_size,
            ai.spec_agent().bound == config.bound,
            ai.spec_agent().spec_snake() == initial_snake(
                config.arena_size.0 as int,
                config.arena_size.1 as int,
            ),
            ai.spec_agent().apple_pos.2,
            ai.spec_agent().apple_ok(),
            ai.spec_agent().reward_for_last_action == 0,
            forall|i: int, j: int|
                0 <= i < config.bound && 0 <= j < config.bound ==> ai.spec_agent().state.map_view()[i][j]
                    == MapState::Empty,
            ai.spec_agent().state.curr_apple == (0i32, 0i32),
            ai.spec_agent().state.reward == (Fake::Val(0i64)),
            ai.spec_table().as_map() == ai.stored_table(*store),
    {
        let agent = Arena::new(config.arena_size, config.bound);
        let mut out = AiComponents {
            config,
            trainer: AgentTrainer::new(),
            agent,
            last_reload_ms: now_millis(),
        };
        out.reload_db_to_trainer(store);
        out
    }

    /// The latest observation of this worker's engine.
    pub fn current_state(&self) -> (r: &MyState)
        requires
            self.wf(),
        ensures
            *r == self.spec_agent().state,
    {
        self.agent.current_state()
    }

    /// Read-only access to this worker's simulation engine, for a
    /// rendering collaborator.
    pub fn arena(&self) -> (r: &Arena)
        requires
            self.wf(),
        ensures
            *r == self.spec_agent(),
            r.wf(),
    {
        &self.agent
    }

    /// Pulls the persisted table for this worker's radius into the
    /// learner; nothing else changes.
    fn reload_db_to_trainer(&mut self, store: &Store)
        requires
            old(self).wf(),
            store.wf(),
            store.bounded(),
        ensures
            final(self).wf(),
            final(self).spec_config() == old(self).spec_config(),
            final(self).spec_agent() == old(self).spec_agent(),
            final(self).spec_table().as_map() == old(self).stored_table(*store),
    {
        let t: Table = store.read(self.config.bound as u32);
        self.trainer.import_state(t);
    }

    /// Merge-writes the learner's table into the store under this
    /// worker's radius: the store keeps every pair the delta does not
    /// record, the learner's recorded pairs land with their exact values,
    /// and every other radius is untouched.
    fn save_to_db_from_trainer(&mut self, store: &mut Store)
        requires
            old(self).wf(),
            old(store).wf(),
            old(store).bounded(),
        ensures
            *final(self) == *old(self),
            final(self).wf(),
            final(store).wf(),
            final(store).bounded(),
            store_evolves(
                old(store).as_map(),
                final(store).as_map(),
                old(self).spec_radius(),
            ),
            final(store).as_map().contains_key(old(self).spec_radius()),
            table_pairs_match(
                old(self).spec_table().as_map(),
                final(store).as_map()[old(self).spec_radius()],
            ),
    {
        let delta: Table = self.trainer.export_learned_values();
        store.merge_write(self.config.bound as u32, &delta);
        proof {
            assert(self.config.bound as u32 as int == self.spec_radius());
        }
    }

    /// One training cycle: reload from the store, explore-and-learn until
    /// the termination strategy fires (or the safety budget runs out), and
    /// merge-write the learned table back.  On success the store holds
    /// this radius, with every pair the learner recorded at its exact
    /// value; in every case the store changed only by merge-writes under
    /// this radius.
    pub fn train_cycle(
        &mut self,
        store: &mut Store,
        termination: &mut TerminationStrategy,
        max_steps: u64,
    ) -> (r: Result<(), ArenaError>)
        requires
            old(self).wf(),
            old(store).wf(),
            old(store).bounded(),
        ensures
            final(self).wf(),
            final(self).spec_config() == old(self).spec_config(),
            final(store).wf(),
            final(store).bounded(),
            store_evolves(
                old(store).as_map(),
                final(store).as_map(),
                old(self).spec_radius(),
            ),
            r is Ok ==> final(store).as_map().contains_key(old(self).spec_radius()),
            r is Ok ==> table_pairs_match(
                final(self).spec_table().as_map(),
                final(store).as_map()[old(self).spec_radius()],
            ),
    {
        self.reload_db_to_trainer(store);
        match self.trainer.train(&mut self.agent, &self.config.learning, termination, max_steps) {
            Ok(_) => {},
            Err(e) => {
                proof {
                    lemma_store_evolves_refl(store.as_map(), old(self).spec_radius());
                }
                return Err(e);
            },
        }
        self.save_to_db_from_trainer(store);
        Ok(())
    }

    /// Runs time-boxed training cycles, one per minute, each followed by a
    /// greedy test-and-train pass.  On success the store holds this
    /// radius; in every case it changed only by merge-writes under this
    /// radius.
    pub fn train_for_time(&mut self, store: &mut Store, minutes: u32) -> (r: Result<
        (),
        ArenaError,
    >)
        requires
            minutes >= 1,
            old(self).wf(),
            old(store).wf(),
            old(store).bounded(),
        ensures
            final(self).wf(),
            final(self).spec_config() == old(self).spec_config(),
            final(store).wf(),
            final(store).bounded(),
            store_evolves(
                old(store).as_map(),
                final(store).as_map(),
                old(self).spec_radius(),
            ),
            r is Ok ==> final(store).as_map().contains_key(old(self).spec_radius()),
    {
        let ghost radius = old(self).spec_radius();
        proof {
            lemma_store_evolves_refl(store.as_map(), radius);
        }
        let mut i: u32 = 0;
        while i < minutes
            invariant
                self.wf(),
                self.spec_config() == old(self).spec_config(),
                radius == old(self).spec_radius(),
                store.wf(),
                store.bounded(),
                i <= minutes,
                store_evolves(old(store).as_map(), store.as_map(), radius),
                i > 0 ==> store.as_map().contains_key(radius),
            decreases minutes - i,
        {
            let ghost pre_cycle = store.as_map();
            let mut termination = TerminationStrategy::Time(TimePassed::new(60_000));
            match self.train_cycle(store, &mut termination, TRAIN_STEP_BUDGET) {
                Ok(_) => {},
                Err(e) => {
                    proof {
                        lemma_store_evolves_trans(
                            old(store).as_map(),
                            pre_cycle,
                            store.as_map(),
                            radius,
                        );
                    }
                    return Err(e);
                },
            }
            proof {
                lemma_store_evolves_trans(old(store).as_map(), pre_cycle, store.as_map(), radius);
            }
            let ghost pre_play = store.as_map();
            match self.test_and_train(store) {
                Ok(_) => {},
                Err(e) => {
                    proof {
                        lemma_store_evolves_trans(
                            old(store).as_map(),
                            pre_play,
                            store.as_map(),
                            radius,
                        );
                    }
                    return Err(e);
                },
            }
            proof {
                lemma_store_evolves_trans(old(store).as_map(), pre_play, store.as_map(), radius);
                assert(pre_play.contains_key(radius));
            }
            i = i + 1;
        }
        Ok(())
    }

    /// Continuous background training: time-boxed cycles, for all
    /// practical purposes without end (the cycle count is bounded only so
    /// that every loop provably terminates).
    pub fn train(&mut self, store: &mut Store) -> (r: Result<(), ArenaError>)
        requires
            old(self).wf(),
            old(store).wf(),
            old(store).bounded(),
        ensures
            final(self).wf(),
            final(self).spec_config() == old(self).spec_config(),
            final(store).wf(),
            final(store).bounded(),
            store_evolves(
                old(store).as_map(),
                final(store).as_map(),
                old(self).spec_radius(),
            ),
            r is Ok ==> final(store).as_map().contains_key(old(self).spec_radius()),
    {
        self.train_for_time(store, u32::MAX)
    }

    /// Plays greedily until death; on the first unknown observation,
    /// trains for exactly one more game instead and merge-writes the
    /// result.  The store is either untouched (greedy play to death) or
    /// received exactly one merge-write of this worker's learner table
    /// under this radius.
    fn test_and_train(&mut self, store: &mut Store) -> (r: Result<(), ArenaError>)
        requires
            old(self).wf(),
            old(store).wf(),
            old(store).bounded(),
        ensures
            final(self).wf(),
            final(self).spec_config() == old(self).spec_config(),
            final(store).wf(),
            final(store).bounded(),
            store_evolves(
                old(store).as_map(),
                final(store).as_map(),
                old(self).spec_radius(),
            ),
            final(store).as_map() == old(store).as_map() || (final(store).as_map().contains_key(
                old(self).spec_radius(),
            ) && table_pairs_match(
                final(self).spec_table().as_map(),
                final(store).as_map()[old(self).spec_radius()],
            )),
    {
        let ghost radius = old(self).spec_radius();
        let mut steps: u64 = 0;
        while steps < TEST_PLAY_BUDGET
            invariant
                self.wf(),
                self.spec_config() == old(self).spec_config(),
                radius == old(self).spec_radius(),
                store.wf(),
                store.bounded(),
                store.as_map() == old(store).as_map(),
            decreases TEST_PLAY_BUDGET - steps,
        {
            let choice: Option<Action> = self.trainer.best_action(self.agent.current_state());
            match choice {
                Some(action) => {
                    let out: TickOutcome = match self.agent.tick(action) {
                        Ok(o) => o,
                        Err(e) => {
                            proof {
                                lemma_store_evolves_refl(store.as_map(), radius);
                            }
                            return Err(e);
                        },
                    };
                    if out.died {
                        proof {
                            lemma_store_evolves_refl(store.as_map(), radius);
                        }
                        return Ok(());
                    }
                },
                None => {
                    let mut termination = TerminationStrategy::Games(NumGames::new(1));
                    match self.trainer.train(
                        &mut self.agent,
                        &self.config.learning,
                        &mut termination,
                        TRAIN_STEP_BUDGET,
                    ) {
                        Ok(_) => {},
                        Err(e) => {
                            proof {
                                lemma_store_evolves_refl(store.as_map(), radius);
                            }
                            return Err(e);
                        },
                    }
                    self.save_to_db_from_trainer(store);
                    return Ok(());
                },
            }
            steps = steps + 1;
        }
        proof {
            lemma_store_evolves_refl(store.as_map(), radius);
        }
        Ok(())
    }

    /// One serving tick, per the serving loop's policy: apply the best
    /// known action for the current observation; when the observation is
    /// unknown, train for a single on-policy step, merge-write the result,
    /// and apply the fixed default action +Y.  After a death (or once the
    /// reload interval has passed) the learner reloads the store's table
    /// for this radius.  Returns whether the snake died this tick.
    pub fn serve_tick(&mut self, store: &mut Store) -> (r: Result<bool, ArenaError>)
        requires
            old(self).wf(),
            old(store).wf(),
            old(store).bounded(),
        ensures
            final(self).wf(),
            final(self).spec_config() == old(self).spec_config(),
            final(store).wf(),
            final(store).bounded(),
            store_evolves(
                old(store).as_map(),
                final(store).as_map(),
                old(self).spec_radius(),
            ),
            spec_best_action(old(self).spec_table(), old(self).spec_agent().state.key_view())
                matches Some(a) ==> {
                &&& final(store).as_map() == old(store).as_map()
                &&& (r matches Ok(d) ==> d == old(self).spec_agent().spec_died(a))
            },
            spec_best_action(old(self).spec_table(), old(self).spec_agent().state.key_view())
                is None && r is Ok ==> final(store).as_map().contains_key(
                old(self).spec_radius(),
            ),
            r matches Ok(d) && d ==> final(self).spec_table().as_map()
                == final(self).stored_table(*final(store)),
    {
        let ghost radius = old(self).spec_radius();
        let choice: Option<Action> = self.trainer.best_action(self.agent.current_state());
        let action: Action = match choice {
            Some(a) => a,
            None => {
                let mut termination = TerminationStrategy::Iterations(FixedIterations::new(1));
                match self.trainer.train(
                    &mut self.agent,
                    &self.config.learning,
                    &mut termination,
                    1,
                ) {
                    Ok(_) => {},
                    Err(e) => {
                        proof {
                            lemma_store_evolves_refl(store.as_map(), radius);
                        }
                        return Err(e);
                    },
                }
                self.save_to_db_from_trainer(store);
                Action::YPos
            },
        };
        let out: TickOutcome = match self.agent.tick(action) {
            Ok(o) => o,
            Err(e) => {
                proof {
                    if store.as_map() == old(store).as_map() {
                        lemma_store_evolves_refl(old(store).as_map(), radius);
                    }
                }
                return Err(e);
            },
        };
        let now: u64 = now_millis();
        let elapsed: u64 = if now >= self.last_reload_ms {
            now - self.last_reload_ms
        } else {
            0
        };
        if out.died || elapsed >= RELOAD_INTERVAL_MS {
            self.reload_db_to_trainer(store);
            self.last_reload_ms = now;
        }
        proof {
            if store.as_map() == old(store).as_map() {
                lemma_store_evolves_refl(old(store).as_map(), radius);
            }
        }
        Ok(out.died)
    }
}

} // verus!
