//! The tournament of a tick: every program entry of the roster meets every
//! entry, itself included, in a match of its own.
//!
//! The tournament cannot make the engine's calls itself. It is a machine that
//! is driven from outside: [`Tournament::advance`] says what happens next, a
//! call to make or a match that ended, and [`Tournament::deliver`] takes the
//! reply to a call. What it does is a function of the roster and of the
//! replies alone.

use crate::arena::Pallet;
use crate::contender::{Config, RosterEntry, Winner};
use crate::engine::{decode_move, move_of_reply, reply_output, EngineCall, EngineCallView, Reply};
use crate::game::{replay_spec, rounds_view, words_view, MatchResult, PlayStatus, PlayView};
use crate::word::Word;
use vstd::prelude::*;

verus! {

/// The ticks on which a tournament is held: every tenth unit of time.
pub const CADENCE: u128 = 10;

/// The tournament of one tick.
#[derive(Clone, Debug)]
pub struct Tournament {
    /// The place in the roster of the first contender of the pair at play.
    pub(crate) first: usize,
    /// The place in the roster of the second contender of that pair.
    pub(crate) second: usize,
    /// The points of the tick, one score for each place of the roster.
    pub(crate) scores: Vec<i64>,
    /// The moves delivered so far for the match at play.
    pub(crate) replies: Vec<Word>,
}

/// The model of a [`Tournament`].
pub struct TournamentView {
    pub first: nat,
    pub second: nat,
    pub scores: Seq<i64>,
    pub replies: Seq<nat>,
}

impl View for Tournament {
    type V = TournamentView;

    open(crate) spec fn view(&self) -> TournamentView {
        TournamentView {
            first: self.first as nat,
            second: self.second as nat,
            scores: self.scores@,
            replies: words_view(self.replies@),
        }
    }
}

/// What a tournament does next.
#[derive(Debug)]
pub enum TickStep {
    /// The match at play needs the reply to this call.
    Call(EngineCall),
    /// The match at play ended and its points are awarded.
    MatchEnded(MatchReport),
    /// All matches are played.
    Finished,
}

/// The account of a match that ended.
#[derive(Debug)]
pub struct MatchReport {
    /// The id of the first contender's entry.
    pub first: u32,
    /// The id of the second contender's entry.
    pub second: u32,
    /// What both sides played, round by round.
    pub rounds: Vec<(Word, Word)>,
    /// The id of the entry that won; `None` for a tie.
    pub winner: Option<u32>,
}

/// The model of a [`TickStep`].
pub enum StepView {
    Call(EngineCallView),
    MatchEnded { first: u32, second: u32, rounds: Seq<(nat, nat)>, winner: Option<u32> },
    Finished,
}

impl View for TickStep {
    type V = StepView;

    open spec fn view(&self) -> StepView {
        match *self {
            TickStep::Call(call) => StepView::Call(call@),
            TickStep::MatchEnded(report) => StepView::MatchEnded {
                first: report.first,
                second: report.second,
                rounds: rounds_view(report.rounds@),
                winner: report.winner,
            },
            TickStep::Finished => StepView::Finished,
        }
    }
}

/// The first place from `from` on that holds a program; the length of the
/// roster where there is none.
pub open spec fn next_contract(contenders: Seq<RosterEntry>, from: nat) -> nat
    decreases contenders.len() - from,
{
    if from >= contenders.len() {
        contenders.len()
    } else if contenders[from as int].contender is Contract {
        from
    } else {
        next_contract(contenders, from + 1)
    }
}

/// The points that a match brings the first and the second contender: two
/// for the winner and one off for the loser, or one each for a tie.
pub open spec fn match_points(winner: Option<Winner>) -> (int, int) {
    match winner {
        Some(Winner::A) => (2, -1),
        Some(Winner::B) => (-1, 2),
        None => (1, 1),
    }
}

/// The scores after the match between the entries at `first` and `second`.
/// The first contender is a program and always scores; the second scores
/// only if it is a program too.
pub open spec fn award(
    scores: Seq<i64>,
    first: int,
    second: int,
    second_scores: bool,
    winner: Option<Winner>,
) -> Seq<i64> {
    let (first_points, second_points) = match_points(winner);
    let after_first = scores.update(first, (scores[first] + first_points) as i64);
    if second_scores {
        after_first.update(second, (after_first[second] + second_points) as i64)
    } else {
        after_first
    }
}

/// The id of the entry that won the match between `a` and `b`.
pub open spec fn winner_id(a: RosterEntry, b: RosterEntry, winner: Option<Winner>) -> Option<u32> {
    match winner {
        Some(Winner::A) => Some(a.id),
        Some(Winner::B) => Some(b.id),
        None => None,
    }
}

impl TournamentView {
    /// The tournament before its first match: at the first program of the
    /// roster, against the first entry, all scores zero.
    pub open spec fn start(contenders: Seq<RosterEntry>) -> TournamentView {
        TournamentView {
            first: next_contract(contenders, 0),
            second: 0,
            scores: Seq::new(contenders.len(), |k: int| 0i64),
            replies: Seq::empty(),
        }
    }

    /// Whether all matches are played.
    pub open spec fn finished(self, contenders: Seq<RosterEntry>) -> bool {
        self.first >= contenders.len()
    }

    /// How many matches the entry at `k` has played as the first contender.
    pub open spec fn played_first(self, contenders: Seq<RosterEntry>, k: int) -> int {
        if k < self.first {
            contenders.len() as int
        } else if k == self.first {
            self.second as int
        } else {
            0
        }
    }

    /// How many matches the entry at `k` has played as the second contender,
    /// at most.
    pub open spec fn played_second(self, contenders: Seq<RosterEntry>, k: int) -> int {
        self.first + if k < self.second {
            1int
        } else {
            0int
        }
    }

    /// The invariant of a tournament on the roster `contenders`: a score for
    /// each place, the pair at play led by a program, and no score beyond
    /// what the matches played so far can have brought.
    pub open spec fn wf(self, contenders: Seq<RosterEntry>) -> bool {
        &&& self.scores.len() == contenders.len()
        &&& self.first <= contenders.len()
        &&& self.first < contenders.len() ==> contenders[self.first as int].contender is Contract
            && self.second < contenders.len()
        &&& self.first == contenders.len() ==> self.second == 0
        &&& forall|k: int|
            0 <= k < self.scores.len() ==> -2 * (self.played_first(contenders, k)
                + self.played_second(contenders, k)) <= #[trigger] self.scores[k] <= 2 * (
            self.played_first(contenders, k) + self.played_second(contenders, k))
    }

    /// The pair after the one at play: the next entry for the same first
    /// contender, or the next program against the first entry.
    pub open spec fn next_pair(self, contenders: Seq<RosterEntry>) -> (nat, nat) {
        if self.second + 1 < contenders.len() {
            (self.first, self.second + 1)
        } else {
            (next_contract(contenders, self.first + 1), 0)
        }
    }

    /// One step of the tournament. When all matches are played, nothing
    /// changes. Else the match at play is held on the moves delivered so far:
    /// if it needs another, nothing changes and the step is the call to make;
    /// if it is decided, its points are awarded, the moves are dropped and
    /// the next pair is up.
    pub open spec fn advance(self, contenders: Seq<RosterEntry>, config: Config) -> (
        TournamentView,
        StepView,
    ) {
        if self.finished(contenders) {
            (self, StepView::Finished)
        } else {
            let a = contenders[self.first as int];
            let b = contenders[self.second as int];
            match replay_spec(config, a.contender, b.contender, self.replies) {
                PlayView::Pending(call) => (self, StepView::Call(call)),
                PlayView::Decided { winner, rounds } => (
                    TournamentView {
                        first: self.next_pair(contenders).0,
                        second: self.next_pair(contenders).1,
                        scores: award(
                            self.scores,
                            self.first as int,
                            self.second as int,
                            b.contender is Contract,
                            winner,
                        ),
                        replies: Seq::empty(),
                    },
                    StepView::MatchEnded {
                        first: a.id,
                        second: b.id,
                        rounds,
                        winner: winner_id(a, b, winner),
                    },
                ),
            }
        }
    }

    /// The tournament after the reply `reply` to its latest call came in:
    /// the move read from it joins the moves of the match at play.
    pub open spec fn deliver(self, reply: Option<Seq<u8>>) -> TournamentView {
        TournamentView { replies: self.replies.push(move_of_reply(reply)), ..self }
    }
}

impl MatchReport {
    /// The step that gave the report.
    pub open spec fn step(self) -> StepView {
        StepView::MatchEnded {
            first: self.first,
            second: self.second,
            rounds: rounds_view(self.rounds@),
            winner: self.winner,
        }
    }
}

impl TournamentView {
    /// The tournament after all the matches that the moves at hand decide:
    /// steps are taken for as long as they end a match. The tournament then
    /// is finished or needs the reply to a call.
    pub open spec fn settle(self, contenders: Seq<RosterEntry>, config: Config) -> TournamentView
        decreases contenders.len() - self.first, contenders.len() - self.second,
        when self.wf(contenders)
    {
        let (after, step) = self.advance(contenders, config);
        if step is MatchEnded {
            proof {
                lemma_advance_wf(self, contenders, config);
                lemma_next_contract(contenders, self.first + 1);
            }
            after.settle(contenders, config)
        } else {
            self
        }
    }

    /// The matches that end while the tournament settles, in their order.
    pub open spec fn settled_matches(self, contenders: Seq<RosterEntry>, config: Config) -> Seq<
        StepView,
    >
        decreases contenders.len() - self.first, contenders.len() - self.second,
        when self.wf(contenders)
    {
        let (after, step) = self.advance(contenders, config);
        if step is MatchEnded {
            proof {
                lemma_advance_wf(self, contenders, config);
                lemma_next_contract(contenders, self.first + 1);
            }
            seq![step] + after.settled_matches(contenders, config)
        } else {
            Seq::empty()
        }
    }

    /// The tournament right after the engine gave the replies `replies`,
    /// each in answer to the call that the tournament needed once it had
    /// settled on the replies before.
    pub open spec fn driven(
        self,
        contenders: Seq<RosterEntry>,
        config: Config,
        replies: Seq<Option<Seq<u8>>>,
    ) -> TournamentView
        decreases replies.len(),
    {
        if replies.len() == 0 {
            self
        } else {
            self.driven(contenders, config, replies.drop_last()).settle(contenders, config).deliver(
                replies.last(),
            )
        }
    }

    /// The matches that ended by the time the tournament has settled on the
    /// replies `replies`, in their order.
    pub open spec fn driven_matches(
        self,
        contenders: Seq<RosterEntry>,
        config: Config,
        replies: Seq<Option<Seq<u8>>>,
    ) -> Seq<StepView>
        decreases replies.len(),
    {
        if replies.len() == 0 {
            self.settled_matches(contenders, config)
        } else {
            self.driven_matches(contenders, config, replies.drop_last()) + self.driven(
                contenders,
                config,
                replies,
            ).settled_matches(contenders, config)
        }
    }

    /// The step that the tournament takes once it has settled on the replies
    /// `replies`: it is finished, or it asks for the next call.
    pub open spec fn driven_step(
        self,
        contenders: Seq<RosterEntry>,
        config: Config,
        replies: Seq<Option<Seq<u8>>>,
    ) -> StepView {
        self.driven(contenders, config, replies).settle(contenders, config).advance(
            contenders,
            config,
        ).1
    }
}

/// Delivering a reply keeps the tournament's invariant.
pub proof fn lemma_deliver_wf(
    tournament: TournamentView,
    contenders: Seq<RosterEntry>,
    reply: Option<Seq<u8>>,
)
    requires
        tournament.wf(contenders),
    ensures
        tournament.deliver(reply).wf(contenders),
{
    let after = tournament.deliver(reply);
    assert forall|k: int| 0 <= k < after.scores.len() implies -2 * (after.played_first(
        contenders,
        k,
    ) + after.played_second(contenders, k)) <= #[trigger] after.scores[k] <= 2 * (
    after.played_first(contenders, k) + after.played_second(contenders, k)) by {
        assert(-2 * (tournament.played_first(contenders, k) + tournament.played_second(
            contenders,
            k,
        )) <= tournament.scores[k] <= 2 * (tournament.played_first(contenders, k)
            + tournament.played_second(contenders, k)));
    }
}

/// A settled tournament keeps its invariant and ends no match with its next
/// step.
pub proof fn lemma_settle(tournament: TournamentView, contenders: Seq<RosterEntry>, config: Config)
    requires
        tournament.wf(contenders),
    ensures
        tournament.settle(contenders, config).wf(contenders),
        !(tournament.settle(contenders, config).advance(contenders, config).1 is MatchEnded),
    decreases contenders.len() - tournament.first, contenders.len() - tournament.second,
{
    let (after, step) = tournament.advance(contenders, config);
    if step is MatchEnded {
        lemma_advance_wf(tournament, contenders, config);
        lemma_next_contract(contenders, tournament.first + 1);
        lemma_settle(after, contenders, config);
    }
}

/// The points of the tick up to place `n` of the roster: the id and the score
/// of each program entry, in the order of the roster.
pub open spec fn points_upto(contenders: Seq<RosterEntry>, scores: Seq<i64>, n: nat) -> Seq<
    (u32, i64),
>
    decreases n,
{
    if n == 0 {
        Seq::empty()
    } else {
        let before = points_upto(contenders, scores, (n - 1) as nat);
        if contenders[n - 1].contender is Contract {
            before.push((contenders[n - 1].id, scores[n - 1]))
        } else {
            before
        }
    }
}

/// The points of the tick: the id and the score of each program entry, in
/// the order of the roster.
pub open spec fn tick_points(contenders: Seq<RosterEntry>, scores: Seq<i64>) -> Seq<(u32, i64)> {
    points_upto(contenders, scores, contenders.len())
}

/// The place that `next_contract` finds lies in the roster's bounds, holds a
/// program if it is a place at all, and no place before it does.
pub proof fn lemma_next_contract(contenders: Seq<RosterEntry>, from: nat)
    requires
        from <= contenders.len(),
    ensures
        from <= next_contract(contenders, from) <= contenders.len(),
        next_contract(contenders, from) < contenders.len() ==> contenders[next_contract(
            contenders,
            from,
        ) as int].contender is Contract,
        forall|k: int|
            from <= k < next_contract(contenders, from) ==> !((
            #[trigger] contenders[k]).contender is Contract),
    decreases contenders.len() - from,
{
    if from < contenders.len() && !(contenders[from as int].contender is Contract) {
        lemma_next_contract(contenders, from + 1);
    }
}

/// A step keeps the tournament's invariant.
pub proof fn lemma_advance_wf(
    tournament: TournamentView,
    contenders: Seq<RosterEntry>,
    config: Config,
)
    requires
        tournament.wf(contenders),
    ensures
        tournament.advance(contenders, config).0.wf(contenders),
{
    let after = tournament.advance(contenders, config).0;
    if !tournament.finished(contenders) {
        let a = contenders[tournament.first as int];
        let b = contenders[tournament.second as int];
        match replay_spec(config, a.contender, b.contender, tournament.replies) {
            PlayView::Pending(_) => {},
            PlayView::Decided { winner, rounds } => {
                lemma_next_contract(contenders, tournament.first + 1);
                assert forall|k: int| 0 <= k < after.scores.len() implies -2 * (after.played_first(
                    contenders,
                    k,
                ) + after.played_second(contenders, k)) <= #[trigger] after.scores[k] <= 2 * (
                after.played_first(contenders, k) + after.played_second(contenders, k)) by {
                    assert(-2 * (tournament.played_first(contenders, k)
                        + tournament.played_second(contenders, k)) <= tournament.scores[k] <= 2
                        * (tournament.played_first(contenders, k) + tournament.played_second(
                        contenders,
                        k,
                    )));
                }
            },
        }
    }
}

/// The first place from `from` on that holds a program.
fn find_next_contract(contenders: &Vec<RosterEntry>, from: usize) -> (place: usize)
    requires
        from <= contenders@.len(),
    ensures
        place == next_contract(contenders@, from as nat),
{
    let mut place = from;
    while place < contenders.len() && !contenders[place].contender.is_contract()
        invariant
            from <= place <= contenders@.len(),
            next_contract(contenders@, place as nat) == next_contract(contenders@, from as nat),
        decreases contenders@.len() - place,
    {
        place += 1;
    }
    place
}

impl Pallet {
    /// Begins the tick at time `n`. A tournament is held only when `n` is a
    /// multiple of ten; at any other time nothing happens.
    pub fn begin_tick(&self, n: u128) -> (tournament: Option<Tournament>)
        requires
            self.wf(),
        ensures
            tournament is Some <==> n % CADENCE == 0,
            tournament matches Some(t) ==> t@ == TournamentView::start(self@.contenders) && t.wf(
                self,
            ),
    {
        if n % CADENCE != 0 {
            return None;
        }
        let mut scores: Vec<i64> = Vec::new();
        let mut k: usize = 0;
        while k < self.contenders.len()
            invariant
                k <= self.contenders@.len(),
                scores@ == Seq::new(k as nat, |j: int| 0i64),
            decreases self.contenders@.len() - k,
        {
            scores.push(0);
            k += 1;
            assert(scores@ =~= Seq::new(k as nat, |j: int| 0i64));
        }
        let first = find_next_contract(&self.contenders, 0);
        proof {
            lemma_next_contract(self.contenders@, 0);
        }
        let tournament = Tournament { first, second: 0, scores, replies: Vec::new() };
        assert(tournament@.replies =~= Seq::<nat>::empty());
        Some(tournament)
    }
}

impl Tournament {
    /// The invariant of a tournament held in `arena`.
    pub open spec fn wf(&self, arena: &Pallet) -> bool {
        self@.wf(arena@.contenders)
    }

    /// Whether all matches are played.
    pub fn finished(&self, arena: &Pallet) -> (done: bool)
        ensures
            done == self@.finished(arena@.contenders),
    {
        self.first >= arena.contenders.len()
    }

    /// Takes the engine's reply to the call that the tournament asked for
    /// last. Whatever the reply, the tournament goes on: a failed call counts
    /// as the move zero.
    pub fn deliver(&mut self, reply: &Reply)
        ensures
            final(self)@ == old(self)@.deliver(reply_output(*reply)),
    {
        let word = decode_move(reply);
        self.replies.push(word);
        assert(words_view(self.replies@) =~= words_view(old(self).replies@).push(word@));
    }

    /// Takes one step: see [`TournamentView::advance`].
    pub fn advance(&mut self, arena: &Pallet) -> (step: TickStep)
        requires
            arena.wf(),
            old(self).wf(arena),
        ensures
            final(self).wf(arena),
            (final(self)@, step@) == old(self)@.advance(arena@.contenders, arena@.config),
    {
        let len = arena.contenders.len();
        if self.first >= len {
            return TickStep::Finished;
        }
        proof {
            lemma_advance_wf(self@, arena@.contenders, arena@.config);
        }
        let ghost before = self@;
        let a = arena.contenders[self.first];
        let b = arena.contenders[self.second];
        match arena.replay(&a.contender, &b.contender, &self.replies) {
            PlayStatus::Pending(call) => TickStep::Call(call),
            PlayStatus::Decided(result) => {
                let MatchResult { winner, rounds } = result;
                let (first_points, second_points): (i64, i64) = match winner {
                    Some(Winner::A) => (2, -1),
                    Some(Winner::B) => (-1, 2),
                    None => (1, 1),
                };
                assert(-2 * (before.played_first(arena@.contenders, self.first as int)
                    + before.played_second(arena@.contenders, self.first as int))
                    <= self.scores[self.first as int]);
                let first_score = self.scores[self.first] + first_points;
                self.scores.set(self.first, first_score);
                if b.contender.is_contract() {
                    assert(-2 * (before.played_first(arena@.contenders, self.second as int)
                        + before.played_second(arena@.contenders, self.second as int))
                        <= before.scores[self.second as int]);
                    let second_score = self.scores[self.second] + second_points;
                    self.scores.set(self.second, second_score);
                }
                let winner_entry = match winner {
                    Some(Winner::A) => Some(a.id),
                    Some(Winner::B) => Some(b.id),
                    None => None,
                };
                self.replies.clear();
                if self.second + 1 < len {
                    self.second = self.second + 1;
                } else {
                    self.first = find_next_contract(&arena.contenders, self.first + 1);
                    self.second = 0;
                }
                proof {
                    assert(self@.replies =~= Seq::<nat>::empty());
                    assert(self@.scores =~= before.advance(
                        arena@.contenders,
                        arena@.config,
                    ).0.scores);
                }
                TickStep::MatchEnded(
                    MatchReport { first: a.id, second: b.id, rounds, winner: winner_entry },
                )
            },
        }
    }

    /// The points of the tick: the id and the score of each program entry, in
    /// the order of the roster, which is the ascending order of ids.
    pub fn points(&self, arena: &Pallet) -> (points: Vec<(u32, i64)>)
        requires
            self.wf(arena),
        ensures
            points@ == tick_points(arena@.contenders, self@.scores),
    {
        let mut points: Vec<(u32, i64)> = Vec::new();
        let mut k: usize = 0;
        while k < arena.contenders.len()
            invariant
                k <= arena.contenders@.len(),
                self.scores@.len() == arena.contenders@.len(),
                points@ == points_upto(arena@.contenders, self@.scores, k as nat),
            decreases arena.contenders@.len() - k,
        {
            if arena.contenders[k].contender.is_contract() {
                points.push((arena.contenders[k].id, self.scores[k]));
            }
            k += 1;
        }
        points
    }
}

} // verus!
