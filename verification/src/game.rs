//! The iterated three-choice game between two contenders.
//!
//! A match runs a fixed number of rounds. In each round both sides move at
//! once: each sees only what was played in the round before. A built-in
//! strategy computes its move; a program is asked for it through the engine.
//! The match itself is a function of the replies handed to it so far: with
//! too few it names the next call to make, with enough it is decided.

use crate::address::Address;
use crate::arena::Pallet;
use crate::contender::{Config, Contender, Winner};
use crate::engine::{
    decode_move, move_of_reply, play_call, play_call_spec, reply_output, EngineCall,
    EngineCallView, Reply,
};
use crate::word::{u256_add, u256_div_mod, Word};
use vstd::prelude::*;

verus! {

/// What a contender does when it is its turn: it moves, or the engine has to
/// be asked.
#[derive(Debug)]
pub enum Turn {
    Move(Word),
    Ask(EngineCall),
}

/// The model of a [`Turn`].
pub enum TurnView {
    Move(nat),
    Ask(EngineCallView),
}

impl View for Turn {
    type V = TurnView;

    open spec fn view(&self) -> TurnView {
        match *self {
            Turn::Move(word) => TurnView::Move(word@),
            Turn::Ask(call) => TurnView::Ask(call@),
        }
    }
}

/// The turn of `contender` in `round`, after it played `prev_play` and its
/// opponent `other_prev_play`.
pub open spec fn turn_spec(
    invoker: Address,
    contender: Contender,
    round: u32,
    prev_play: nat,
    other_prev_play: nat,
) -> TurnView {
    match contender {
        Contender::Contract(contract) => TurnView::Ask(
            play_call_spec(invoker, contract, round, prev_play, other_prev_play),
        ),
        Contender::AlwaysZero => TurnView::Move(0),
        Contender::Rotate => TurnView::Move(round as nat),
        Contender::Smart => TurnView::Move(other_prev_play % 3 + 2),
    }
}

/// Who takes a round in which the first side plays `a` and the second `b`.
/// Both moves count by their remainder on division by three: 0 beats 1, 1
/// beats 2, 2 beats 0, and equal remainders give the round to nobody.
pub open spec fn round_winner(a: nat, b: nat) -> Option<Winner> {
    let x = a % 3;
    let y = b % 3;
    if (x == 0 && y == 1) || (x == 1 && y == 2) || (x == 2 && y == 0) {
        Some(Winner::A)
    } else if x == y {
        None
    } else {
        Some(Winner::B)
    }
}

/// How many of `rounds` the side `side` took.
pub open spec fn rounds_won(rounds: Seq<(nat, nat)>, side: Winner) -> nat
    decreases rounds.len(),
{
    if rounds.len() == 0 {
        0
    } else {
        rounds_won(rounds.drop_last(), side) + if round_winner(rounds.last().0, rounds.last().1)
            == Some(side) {
            1nat
        } else {
            0nat
        }
    }
}

/// Who wins a match with these rounds: the side that took more of them.
pub open spec fn match_winner(rounds: Seq<(nat, nat)>) -> Option<Winner> {
    if rounds_won(rounds, Winner::A) > rounds_won(rounds, Winner::B) {
        Some(Winner::A)
    } else if rounds_won(rounds, Winner::A) < rounds_won(rounds, Winner::B) {
        Some(Winner::B)
    } else {
        None
    }
}

/// What both sides played last: the moves of the latest round, or zero for
/// both before the first.
pub open spec fn previous_plays(rounds: Seq<(nat, nat)>) -> (nat, nat) {
    if rounds.len() == 0 {
        (0, 0)
    } else {
        rounds.last()
    }
}

/// A match under way.
pub struct MatchView {
    /// The moves of the rounds played so far, the first side's first.
    pub rounds: Seq<(nat, nat)>,
    /// How many replies these rounds consumed.
    pub used: nat,
}

/// How far a match gets on the replies at hand.
pub enum Progress {
    /// The rounds asked for were played.
    Played(MatchView),
    /// The match needs the reply to this call to go on.
    Waiting(EngineCallView),
}

/// The move that a turn comes to: its own move, or the next unused reply.
/// Where no reply is left, the call to make.
pub open spec fn resolve(turn: TurnView, replies: Seq<nat>, used: nat) -> Result<
    (nat, nat),
    EngineCallView,
> {
    match turn {
        TurnView::Move(play) => Ok((play, used)),
        TurnView::Ask(call) => if used < replies.len() {
            Ok((replies[used as int], used + 1))
        } else {
            Err(call)
        },
    }
}

/// One more round after `state`: the first side's turn, then the second's,
/// both on the moves of the round before.
pub open spec fn next_round(
    invoker: Address,
    a: Contender,
    b: Contender,
    replies: Seq<nat>,
    state: MatchView,
) -> Progress {
    let round = state.rounds.len() as u32;
    let (prev_a, prev_b) = previous_plays(state.rounds);
    match resolve(turn_spec(invoker, a, round, prev_a, prev_b), replies, state.used) {
        Err(call) => Progress::Waiting(call),
        Ok((play_a, used_a)) => match resolve(
            turn_spec(invoker, b, round, prev_b, prev_a),
            replies,
            used_a,
        ) {
            Err(call) => Progress::Waiting(call),
            Ok((play_b, used_b)) => Progress::Played(
                MatchView { rounds: state.rounds.push((play_a, play_b)), used: used_b },
            ),
        },
    }
}

/// The first `n` rounds of the match between `a` and `b`, where the programs'
/// moves are `replies`, in the order in which they were asked for.
pub open spec fn play_rounds(
    invoker: Address,
    a: Contender,
    b: Contender,
    replies: Seq<nat>,
    n: nat,
) -> Progress
    decreases n,
{
    if n == 0 {
        Progress::Played(MatchView { rounds: Seq::empty(), used: 0 })
    } else {
        match play_rounds(invoker, a, b, replies, (n - 1) as nat) {
            Progress::Waiting(call) => Progress::Waiting(call),
            Progress::Played(state) => next_round(invoker, a, b, replies, state),
        }
    }
}

/// How a match stands.
pub enum PlayView {
    /// The match is over: who won, `None` for a tie, and what was played.
    Decided { winner: Option<Winner>, rounds: Seq<(nat, nat)> },
    /// The match needs the reply to this call.
    Pending(EngineCallView),
}

/// The match between `a` and `b` on the replies at hand.
pub open spec fn replay_spec(config: Config, a: Contender, b: Contender, replies: Seq<nat>) -> PlayView {
    match play_rounds(config.contract_invoker, a, b, replies, config.play_per_round as nat) {
        Progress::Played(state) => PlayView::Decided {
            winner: match_winner(state.rounds),
            rounds: state.rounds,
        },
        Progress::Waiting(call) => PlayView::Pending(call),
    }
}

/// How many replies one round of a match between `a` and `b` takes: one for
/// each side that is a program.
pub open spec fn calls_per_round(a: Contender, b: Contender) -> nat {
    (if a is Contract {
        1nat
    } else {
        0nat
    }) + (if b is Contract {
        1nat
    } else {
        0nat
    })
}

/// The numbers that a list of words holds.
pub open spec fn words_view(words: Seq<Word>) -> Seq<nat> {
    words.map_values(|w: Word| w@)
}

/// The numbers that a list of pairs of words holds.
pub open spec fn rounds_view(rounds: Seq<(Word, Word)>) -> Seq<(nat, nat)> {
    rounds.map_values(|r: (Word, Word)| (r.0@, r.1@))
}

/// A finished match.
#[derive(Debug)]
pub struct MatchResult {
    /// The side that took more rounds; `None` for a tie.
    pub winner: Option<Winner>,
    /// What both sides played, round by round.
    pub rounds: Vec<(Word, Word)>,
}

/// How a match stands on the replies at hand.
#[derive(Debug)]
pub enum PlayStatus {
    Decided(MatchResult),
    Pending(EngineCall),
}

impl View for PlayStatus {
    type V = PlayView;

    open spec fn view(&self) -> PlayView {
        match *self {
            PlayStatus::Decided(result) => PlayView::Decided {
                winner: result.winner,
                rounds: rounds_view(result.rounds@),
            },
            PlayStatus::Pending(call) => PlayView::Pending(call@),
        }
    }
}

/// Whether `play` is a move of `contender` in `round`, after it played
/// `prev_play` and its opponent `other_prev_play`: the move of a built-in
/// strategy, or the move that a reply of `engine` to the program's call
/// stands for.
pub open spec fn moves<F: Fn(&EngineCall) -> Reply>(
    engine: F,
    invoker: Address,
    contender: Contender,
    round: u32,
    prev_play: nat,
    other_prev_play: nat,
    play: nat,
) -> bool {
    match turn_spec(invoker, contender, round, prev_play, other_prev_play) {
        TurnView::Move(own) => play == own,
        TurnView::Ask(asked) => exists|call: EngineCall, reply: Reply|
            answers(engine, call, reply) && call@ == asked && play == move_of_reply(
                reply_output(reply),
            ),
    }
}

/// Whether `reply` is a reply that `engine` may give to `call`.
pub open spec fn answers<F: Fn(&EngineCall) -> Reply>(
    engine: F,
    call: EngineCall,
    reply: Reply,
) -> bool {
    call_ensures(engine, (&call,), reply)
}

/// The moves that the replies of a list of exchanges with the engine stand
/// for.
pub open spec fn moves_of(exchanges: Seq<(EngineCall, Reply)>) -> Seq<nat> {
    exchanges.map_values(|e: (EngineCall, Reply)| move_of_reply(reply_output(e.1)))
}

/// Whether `exchanges` are the exchanges of the match between `a` and `b`
/// with `engine`: each call is the call that the match needs on the replies
/// before it, and each reply is one that the engine may give to its call.
pub open spec fn match_answered_by<F: Fn(&EngineCall) -> Reply>(
    engine: F,
    config: Config,
    a: Contender,
    b: Contender,
    exchanges: Seq<(EngineCall, Reply)>,
) -> bool {
    forall|i: int|
        0 <= i < exchanges.len() ==> {
            &&& answers(engine, (#[trigger] exchanges[i]).0, exchanges[i].1)
            &&& replay_spec(config, a, b, moves_of(exchanges).take(i)) == PlayView::Pending(
                exchanges[i].0@,
            )
        }
}

/// Whether `result` is the match between `a` and `b` on the exchanges
/// `exchanges` with `engine`.
pub open spec fn plays_on<F: Fn(&EngineCall) -> Reply>(
    engine: F,
    config: Config,
    a: Contender,
    b: Contender,
    result: MatchResult,
    exchanges: Seq<(EngineCall, Reply)>,
) -> bool {
    &&& match_answered_by(engine, config, a, b, exchanges)
    &&& replay_spec(config, a, b, moves_of(exchanges)) == PlayView::Decided {
        winner: result.winner,
        rounds: rounds_view(result.rounds@),
    }
}

/// Whether `result` is the match between `a` and `b` for some exchanges with
/// `engine`.
pub open spec fn plays<F: Fn(&EngineCall) -> Reply>(
    engine: F,
    config: Config,
    a: Contender,
    b: Contender,
    result: MatchResult,
) -> bool {
    exists|exchanges: Seq<(EngineCall, Reply)>| plays_on(engine, config, a, b, result, exchanges)
}

/// A match that waits for a reply before round `m` is over still waits for
/// it, whatever number of rounds is asked for beyond.
pub proof fn lemma_waiting_persists(
    invoker: Address,
    a: Contender,
    b: Contender,
    replies: Seq<nat>,
    m: nat,
    n: nat,
)
    requires
        m <= n,
        play_rounds(invoker, a, b, replies, m) is Waiting,
    ensures
        play_rounds(invoker, a, b, replies, n) == play_rounds(invoker, a, b, replies, m),
    decreases n,
{
    if m < n {
        lemma_waiting_persists(invoker, a, b, replies, m, (n - 1) as nat);
    }
}

/// After `n` rounds a match has consumed `n` replies for each side that is a
/// program, and it waits exactly when fewer are at hand.
pub proof fn lemma_replies_used(
    invoker: Address,
    a: Contender,
    b: Contender,
    replies: Seq<nat>,
    n: nat,
)
    ensures
        match play_rounds(invoker, a, b, replies, n) {
            Progress::Played(state) => state.rounds.len() == n && state.used == n
                * calls_per_round(a, b) && state.used <= replies.len(),
            Progress::Waiting(_) => replies.len() < n * calls_per_round(a, b),
        },
    decreases n,
{
    let k = calls_per_round(a, b);
    if n > 0 {
        lemma_replies_used(invoker, a, b, replies, (n - 1) as nat);
        assert((n - 1) * k + k == n * k) by (nonlinear_arith);
        assert((n - 1) * k <= n * k) by (nonlinear_arith)
            requires
                n >= 1,
                k >= 0,
        ;
    } else {
        assert(0 * k == 0) by (nonlinear_arith);
    }
}

impl Pallet {
    /// The turn of `contender` in `round`, after it played `prev_play` and its
    /// opponent `other_prev_play`. A built-in strategy moves at once; for a
    /// program the turn is the call that asks it, made from the arena's
    /// invoker address.
    pub fn turn(
        &self,
        contender: &Contender,
        round: u32,
        prev_play: Word,
        other_prev_play: Word,
    ) -> (turn: Turn)
        ensures
            turn@ == turn_spec(
                self@.config.contract_invoker,
                *contender,
                round,
                prev_play@,
                other_prev_play@,
            ),
    {
        match contender {
            Contender::Contract(contract) => Turn::Ask(
                play_call(self.config.contract_invoker, *contract, round, prev_play, other_prev_play),
            ),
            Contender::AlwaysZero => Turn::Move(Word::zero()),
            Contender::Rotate => Turn::Move(Word::from_u32(round)),
            Contender::Smart => {
                let (_, remainder) = u256_div_mod(other_prev_play, Word::from_u32(3));
                Turn::Move(u256_add(remainder, Word::from_u32(2)))
            },
        }
    }

    /// The move of `contender` in `round`, after it played `prev_play` and
    /// its opponent `other_prev_play`. A built-in strategy moves by itself.
    /// A program is asked through `engine`, and whatever the engine replies
    /// is a move: a failed call is the move zero.
    pub fn contender_play<F: Fn(&EngineCall) -> Reply>(
        &self,
        contender: &Contender,
        round: u32,
        prev_play: Word,
        other_prev_play: Word,
        engine: F,
    ) -> (play: Word)
        requires
            forall|call: &EngineCall| call_requires(engine, (call,)),
        ensures
            moves(
                engine,
                self@.config.contract_invoker,
                *contender,
                round,
                prev_play@,
                other_prev_play@,
                play@,
            ),
    {
        match self.turn(contender, round, prev_play, other_prev_play) {
            Turn::Move(play) => play,
            Turn::Ask(call) => {
                let reply = engine(&call);
                let play = decode_move(&reply);
                assert(answers(engine, call, reply));
                play
            },
        }
    }

    /// Plays the match between `a` and `b`, with `engine` to ask the
    /// programs: every call that the match needs is made, and whatever the
    /// engine replies is a move, until all rounds are played.
    pub fn play<F: Fn(&EngineCall) -> Reply>(&self, a: &Contender, b: &Contender, engine: F) -> (result:
        MatchResult)
        requires
            forall|call: &EngineCall| call_requires(engine, (call,)),
        ensures
            plays(engine, self@.config, *a, *b, result),
    {
        let mut replies: Vec<Word> = Vec::new();
        let ghost mut exchanges: Seq<(EngineCall, Reply)> = Seq::empty();
        proof {
            assert(words_view(replies@) =~= moves_of(exchanges));
        }
        loop
            invariant
                forall|call: &EngineCall| call_requires(engine, (call,)),
                words_view(replies@) == moves_of(exchanges),
                match_answered_by(engine, self@.config, *a, *b, exchanges),
            decreases
                    self@.config.play_per_round * calls_per_round(*a, *b) - replies@.len(),
        {
            match self.replay(a, b, &replies) {
                PlayStatus::Decided(result) => {
                    proof {
                        assert(plays_on(engine, self@.config, *a, *b, result, exchanges));
                    }
                    return result;
                },
                PlayStatus::Pending(call) => {
                    let reply = engine(&call);
                    let ghost before = words_view(replies@);
                    let word = decode_move(&reply);
                    replies.push(word);
                    proof {
                        let longer = exchanges.push((call, reply));
                        assert(answers(engine, call, reply));
                        assert(words_view(replies@) =~= before.push(word@));
                        assert(moves_of(longer) =~= moves_of(exchanges).push(
                            move_of_reply(reply_output(reply)),
                        ));
                        assert forall|i: int| 0 <= i < longer.len() implies {
                            &&& answers(engine, (#[trigger] longer[i]).0, longer[i].1)
                            &&& replay_spec(self@.config, *a, *b, moves_of(longer).take(i))
                                == PlayView::Pending(longer[i].0@)
                        } by {
                            if i < exchanges.len() {
                                assert(longer[i] == exchanges[i]);
                                assert(moves_of(longer).take(i) =~= moves_of(exchanges).take(i));
                            } else {
                                assert(moves_of(longer).take(i) =~= before);
                            }
                        }
                        exchanges = longer;
                    }
                },
            }
        }
    }

    /// Plays the match between `a` and `b` as far as `replies` reach: the
    /// moves read from the engine's replies to the calls of this match, in
    /// the order in which the calls were asked for. The match is decided
    /// exactly when there is a reply for each round and each side that is a
    /// program; until then the result is the next call to make.
    pub fn replay(&self, a: &Contender, b: &Contender, replies: &Vec<Word>) -> (status: PlayStatus)
        ensures
            status@ == replay_spec(self@.config, *a, *b, words_view(replies@)),
            status is Decided <==> replies@.len() >= self@.config.play_per_round * calls_per_round(
                *a,
                *b,
            ),
    {
        let ghost invoker = self@.config.contract_invoker;
        let ghost plays = words_view(replies@);
        let mut prev_play_a = Word::zero();
        let mut prev_play_b = Word::zero();
        let mut point_a: u32 = 0;
        let mut point_b: u32 = 0;
        let mut used: usize = 0;
        let mut rounds: Vec<(Word, Word)> = Vec::new();
        let mut round: u32 = 0;
        proof {
            assert(rounds_view(rounds@) =~= Seq::<(nat, nat)>::empty());
            lemma_replies_used(invoker, *a, *b, plays, self@.config.play_per_round as nat);
        }
        while round < self.config.play_per_round
            invariant
                round <= self.config.play_per_round,
                invoker == self@.config.contract_invoker,
                plays == words_view(replies@),
                used <= replies@.len(),
                play_rounds(invoker, *a, *b, plays, round as nat) == Progress::Played(
                    MatchView { rounds: rounds_view(rounds@), used: used as nat },
                ),
                rounds@.len() == round,
                (prev_play_a@, prev_play_b@) == previous_plays(rounds_view(rounds@)),
                point_a == rounds_won(rounds_view(rounds@), Winner::A),
                point_b == rounds_won(rounds_view(rounds@), Winner::B),
                point_a <= round,
                point_b <= round,
                match play_rounds(invoker, *a, *b, plays, self@.config.play_per_round as nat) {
                    Progress::Played(_) => replies@.len() >= self@.config.play_per_round
                        * calls_per_round(*a, *b),
                    Progress::Waiting(_) => replies@.len() < self@.config.play_per_round
                        * calls_per_round(*a, *b),
                },
            decreases self.config.play_per_round - round,
        {
            let play_a = if a.is_contract() && used < replies.len() {
                used += 1;
                replies[used - 1]
            } else {
                match self.turn(a, round, prev_play_a, prev_play_b) {
                    Turn::Move(play) => play,
                    Turn::Ask(call) => {
                        proof {
                            lemma_waiting_persists(
                                invoker,
                                *a,
                                *b,
                                plays,
                                (round + 1) as nat,
                                self@.config.play_per_round as nat,
                            );
                        }
                        return PlayStatus::Pending(call);
                    },
                }
            };
            let play_b = if b.is_contract() && used < replies.len() {
                used += 1;
                replies[used - 1]
            } else {
                match self.turn(b, round, prev_play_b, prev_play_a) {
                    Turn::Move(play) => play,
                    Turn::Ask(call) => {
                        proof {
                            lemma_waiting_persists(
                                invoker,
                                *a,
                                *b,
                                plays,
                                (round + 1) as nat,
                                self@.config.play_per_round as nat,
                            );
                        }
                        return PlayStatus::Pending(call);
                    },
                }
            };
            let ghost before = rounds_view(rounds@);
            rounds.push((play_a, play_b));
            proof {
                assert(rounds_view(rounds@) =~= before.push((play_a@, play_b@)));
                assert(rounds_view(rounds@).drop_last() =~= before);
            }
            prev_play_a = play_a;
            prev_play_b = play_b;
            let reduced_a = play_a.rem3();
            let reduced_b = play_b.rem3();
            if (reduced_a == 0 && reduced_b == 1) || (reduced_a == 1 && reduced_b == 2) || (
            reduced_a == 2 && reduced_b == 0) {
                point_a += 1;
            } else if reduced_a != reduced_b {
                point_b += 1;
            }
            round += 1;
        }
        let winner = if point_a > point_b {
            Some(Winner::A)
        } else if point_a < point_b {
            Some(Winner::B)
        } else {
            None
        };
        PlayStatus::Decided(MatchResult { winner, rounds })
    }
}

} // verus!
