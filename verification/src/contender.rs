//! The players of the tournament and the records kept about them.

use crate::address::Address;
use vstd::prelude::*;

verus! {

/// A player: a program run by the execution engine, or one of the built-in
/// strategies.
#[derive(Clone, Copy, Debug, PartialEq, Eq)]
pub enum Contender {
    /// The program at this address.
    Contract(Address),
    /// Always plays zero.
    AlwaysZero,
    /// Plays the number of the round.
    Rotate,
    /// Answers the opponent's previous move.
    Smart,
}

impl Contender {
    /// Whether the contender is a program. Only programs score points, keep
    /// statistics and count against the per-program cap.
    pub open spec fn spec_is_contract(&self) -> bool {
        *self is Contract
    }

    #[verifier::when_used_as_spec(spec_is_contract)]
    pub fn is_contract(&self) -> (r: bool)
        ensures
            r == (*self is Contract),
    {
        match self {
            Contender::Contract(_) => true,
            _ => false,
        }
    }
}

/// What the arena remembers about a program for as long as it runs.
#[derive(Clone, Copy, Debug, PartialEq, Eq)]
pub struct ContractInfo {
    /// The reputation: points earned over all ticks. It never goes down.
    pub point: u128,
    /// How many roster entries hold this program now.
    pub instance_count: u32,
    /// How often an entry of this program was among the winners of a tick.
    pub wins: u32,
}

impl ContractInfo {
    /// The record of a program that the arena has not met yet.
    pub open spec fn fresh() -> ContractInfo {
        ContractInfo { point: 0, instance_count: 0, wins: 0 }
    }
}

impl Default for ContractInfo {
    fn default() -> (info: ContractInfo)
        ensures
            info == ContractInfo::fresh(),
    {
        ContractInfo { point: 0, instance_count: 0, wins: 0 }
    }
}

/// One slot of the roster: an id that is never used twice, and the contender
/// that holds it.
#[derive(Clone, Copy, Debug, PartialEq, Eq)]
pub struct RosterEntry {
    pub id: u32,
    pub contender: Contender,
}

/// The side that wins a match or a round: `A` is the first contender of the
/// pair, `B` the second.
#[derive(Clone, Copy, Debug, PartialEq, Eq, Structural)]
pub enum Winner {
    A,
    B,
}

/// The limits that shape a tournament.
#[derive(Clone, Copy, Debug, PartialEq, Eq)]
pub struct Config {
    /// How many rounds two contenders play in one match.
    pub play_per_round: u32,
    /// The largest number of entries that the roster holds after a tick.
    pub max_contender_instances_count: u32,
    /// The largest number of contenders that may wait for admission.
    pub max_queue_size: u32,
    /// How many of the best entries of a tick are promoted.
    pub winner_count: u32,
    /// How many waiting contenders are admitted per tick.
    pub enqueue_count: u32,
    /// The largest number of roster entries that one program may hold.
    pub max_instances_per_contender: u32,
    /// The address from which the arena calls the programs.
    pub contract_invoker: Address,
}

/// Why a request is turned down.
#[derive(Clone, Copy, Debug, PartialEq, Eq, Structural)]
pub enum Error {
    /// The admission queue is at capacity.
    QueueFull,
    /// The program does not name the requester as its owner.
    InvalidOwner,
    /// The arena already knows the program.
    AlreadyRegistered,
}

} // verus!
