//! A tabular reinforcement-learning agent for a grid-based snake game.
//!
//! The crate is organised around five pieces: a deterministic grid
//! simulation (`snake`), an egocentric state encoder producing bounded
//! observations (`state`), an action-value table with a fixed-point value
//! representation (`table`), a persisted store of per-radius tables
//! (`store`, `codec`), and the training and serving loops (`trainer`).
//! All reward and action-value arithmetic is carried out in hundredths
//! ("centi" units), so that the reward signal (-4.0, +4.0, -0.01) and the
//! bootstrapped value updates are exact integers.

pub mod codec;
pub mod snake;
pub mod store;
pub mod table;
pub mod state;
mod sys;
pub mod trainer;

pub use state::MapState;
pub use state::MyState;
pub use state::Fake;
pub use snake::Action;
pub use snake::Arena;
pub use snake::ArenaError;
pub use snake::TickOutcome;
pub use snake::observe;
pub use table::q_update;
pub use table::max_q_value;
pub use table::VALUE_LIMIT_CENTI;
pub use table::ActionValues;
pub use table::QLearning;
pub use table::Table;
pub use store::Store;
pub use trainer::AgentTrainer;
pub use trainer::AiComponents;
pub use trainer::Config;
pub use trainer::FixedIterations;
pub use trainer::NumGames;
pub use trainer::TerminationStrategy;
pub use trainer::TimePassed;
