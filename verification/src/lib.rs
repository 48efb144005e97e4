//! A recurring, capacity-bounded tournament among contenders.
//!
//! Contenders are either programs run by an execution engine or built-in
//! strategies. On a fixed cadence the arena matches them against each other in
//! an iterated three-choice game, scores the matches, and evolves a bounded
//! roster: waiting entrants are admitted, winners are promoted, and the lowest
//! scorers are evicted.
//!
//! The engine is not part of this crate. A [`Tournament`] says which call it
//! needs next and is handed the reply; [`Pallet::on_initialize`] does so in a loop
//! for an engine given as a function. What the arena does is stated over its
//! model, [`ArenaView`], and the module [`laws`] proves what holds of the
//! model whatever happens.

pub mod address;
pub mod admission;
pub mod arena;
pub mod contender;
pub mod engine;
pub mod evolution;
pub mod game;
pub mod laws;
pub mod mock;
pub mod scoring;
pub mod tick;
pub mod tournament;
pub mod weights;
pub mod word;

pub use address::{AccountId, Address};
pub use arena::{ArenaView, Pallet};
pub use contender::{Config, Contender, ContractInfo, Error, RosterEntry, Winner};
pub use engine::{Action, EngineCall, ExecutionFailure, ExecutionMode, Reply};
pub use evolution::RosterChanges;
pub use game::{MatchResult, PlayStatus, Turn};
pub use mock::{AuthorGiven, DefaultTransactionPayment, GasToWeight, MockBlockNumberProvider};
pub use tick::{TickResult, TickRun};
pub use tournament::{MatchReport, TickStep, Tournament};
pub use weights::WeightInfo;
pub use word::Word;
