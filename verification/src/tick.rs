//! The end of a tick: the tournament's points become reputation and a
//! ranking, and the roster evolves on it.

use crate::arena::{ids_ascend, ArenaView, Pallet};
use crate::contender::{Config, RosterEntry};
use crate::engine::{reply_output, EngineCall, Reply};
use crate::game::calls_per_round;
use crate::laws::law_tournament_goes_on;
use crate::scoring::{ids_ascending, is_ranking, lemma_credit, rank};
use crate::tournament::{
    lemma_advance_wf, points_upto, tick_points, MatchReport, StepView, TickStep, Tournament,
    TournamentView, CADENCE,
};
use vstd::prelude::*;

verus! {

/// The outcome of a tick.
#[derive(Debug)]
pub struct TickResult {
    /// The id and the points of each program entry that played, best first.
    pub ranked_points: Vec<(u32, i64)>,
    /// The entries that joined the roster, in the order of their ids.
    pub registered: Vec<RosterEntry>,
    /// The entries that left the roster, in the order of their ids.
    pub removed: Vec<RosterEntry>,
}

/// A tick that was run from its begin to its end.
#[derive(Debug)]
pub struct TickRun {
    /// The matches of the tournament, in the order in which they were played.
    pub matches: Vec<MatchReport>,
    /// The outcome of the tick.
    pub result: TickResult,
}

/// How many entries of a roster hold a program.
pub open spec fn program_entries(contenders: Seq<RosterEntry>) -> nat {
    tick_points(contenders, Seq::new(contenders.len(), |k: int| 0i64)).len()
}

/// Whether `after` and `result` are the arena and the outcome of the tick at
/// time `n` that began in the arena `before` and whose tournament ended with
/// the scores `scores`.
pub open spec fn concludes(
    before: ArenaView,
    scores: Seq<i64>,
    n: u128,
    result: TickResult,
    after: ArenaView,
) -> bool {
    let points = tick_points(before.contenders, scores);
    let credited = before.credit(points, n);
    let grown = credited.drain_queue().promote_winners(result.ranked_points@);
    &&& scores.len() == before.contenders.len()
    &&& is_ranking(result.ranked_points@, points)
    &&& after == credited.evolve(result.ranked_points@)
    &&& result.registered@ == grown.contenders.skip(before.contenders.len() as int)
    &&& result.removed@ == grown.contenders.filter(grown.leaves(result.ranked_points@))
}

/// The replies of a list of exchanges with the engine: each a call and the
/// reply to it.
pub open spec fn replies_of(exchanges: Seq<(EngineCall, Reply)>) -> Seq<Option<Seq<u8>>> {
    exchanges.map_values(|e: (EngineCall, Reply)| reply_output(e.1))
}

/// The steps that a list of reports accounts for.
pub open spec fn reports_view(reports: Seq<MatchReport>) -> Seq<StepView> {
    reports.map_values(|r: MatchReport| r.step())
}

/// Whether `exchanges` are the exchanges of a tournament on `contenders`
/// with `engine`: each call is the call that the tournament asks for once it
/// has settled on the replies before, and each reply is one that the engine
/// may give to its call.
pub open spec fn answered_by<F: Fn(&EngineCall) -> Reply>(
    engine: F,
    contenders: Seq<RosterEntry>,
    config: Config,
    exchanges: Seq<(EngineCall, Reply)>,
) -> bool {
    forall|i: int|
        0 <= i < exchanges.len() ==> {
            &&& call_ensures(engine, (&(#[trigger] exchanges[i]).0,), exchanges[i].1)
            &&& TournamentView::start(contenders).driven_step(
                contenders,
                config,
                replies_of(exchanges).take(i),
            ) == StepView::Call(exchanges[i].0@)
        }
}

/// Whether `run` and `after` are the account and the arena of the tick at
/// time `n` that began in the arena `before` and had the exchanges
/// `exchanges` with `engine`: the tournament, driven by the replies, is
/// finished, the matches are those that ended on the way, and the tick is
/// concluded on the tournament's scores.
pub open spec fn runs_on<F: Fn(&EngineCall) -> Reply>(
    engine: F,
    before: ArenaView,
    n: u128,
    run: TickRun,
    after: ArenaView,
    exchanges: Seq<(EngineCall, Reply)>,
) -> bool {
    let start = TournamentView::start(before.contenders);
    let replies = replies_of(exchanges);
    let end = start.driven(before.contenders, before.config, replies).settle(
        before.contenders,
        before.config,
    );
    &&& answered_by(engine, before.contenders, before.config, exchanges)
    &&& end.finished(before.contenders)
    &&& reports_view(run.matches@) == start.driven_matches(
        before.contenders,
        before.config,
        replies,
    )
    &&& concludes(before, end.scores, n, run.result, after)
}

/// Whether `run` and `after` are the account and the arena of the tick at
/// time `n` that began in the arena `before`, for some exchanges with
/// `engine`.
pub open spec fn runs<F: Fn(&EngineCall) -> Reply>(
    engine: F,
    before: ArenaView,
    n: u128,
    run: TickRun,
    after: ArenaView,
) -> bool {
    exists|exchanges: Seq<(EngineCall, Reply)>| runs_on(engine, before, n, run, after, exchanges)
}

/// How many replies the match at play still lacks.
pub open spec fn missing_replies(arena: ArenaView, tournament: TournamentView) -> int {
    if tournament.finished(arena.contenders) {
        0
    } else {
        arena.config.play_per_round * calls_per_round(
            arena.contenders[tournament.first as int].contender,
            arena.contenders[tournament.second as int].contender,
        ) - tournament.replies.len()
    }
}

/// There are as many points in a tick as the roster has program entries,
/// whatever the scores.
pub proof fn lemma_points_len(contenders: Seq<RosterEntry>, a: Seq<i64>, b: Seq<i64>, n: nat)
    ensures
        points_upto(contenders, a, n).len() == points_upto(contenders, b, n).len(),
    decreases n,
{
    if n > 0 {
        lemma_points_len(contenders, a, b, (n - 1) as nat);
    }
}

/// The points of a tick come in the ascending order of ids, each below the
/// ids of the places not yet counted.
pub proof fn lemma_points_ascending(contenders: Seq<RosterEntry>, scores: Seq<i64>, n: nat)
    requires
        n <= contenders.len(),
        ids_ascend(contenders),
    ensures
        ids_ascending(points_upto(contenders, scores, n)),
        points_upto(contenders, scores, n).len() <= n,
        forall|i: int, m: int|
            0 <= i < points_upto(contenders, scores, n).len() && n <= m < contenders.len() ==> (
            #[trigger] points_upto(contenders, scores, n)[i]).0 < (#[trigger] contenders[m]).id,
    decreases n,
{
    if n > 0 {
        lemma_points_ascending(contenders, scores, (n - 1) as nat);
        let before = points_upto(contenders, scores, (n - 1) as nat);
        let points = points_upto(contenders, scores, n);
        assert forall|i: int, m: int|
            0 <= i < points.len() && n <= m < contenders.len() implies (#[trigger] points[i]).0 < (
        #[trigger] contenders[m]).id by {
            if i < before.len() {
                assert(before[i].0 < contenders[m].id);
            } else {
                assert(contenders[n - 1].id < contenders[m].id);
            }
        }
        assert forall|i: int, j: int| 0 <= i < j < points.len() implies (#[trigger] points[i]).0 < (
        #[trigger] points[j]).0 by {
            if j < before.len() {
                assert(before[i].0 < before[j].0);
            } else {
                assert(before[i].0 < contenders[n - 1].id);
            }
        }
    }
}

impl Pallet {
    /// How many entries of the roster hold a program: the number of entries
    /// that a tick ranks.
    pub fn program_entries(&self) -> (count: usize)
        ensures
            count == program_entries(self@.contenders),
    {
        let ghost zeros = Seq::new(self@.contenders.len(), |k: int| 0i64);
        let mut count: usize = 0;
        let mut k: usize = 0;
        while k < self.contenders.len()
            invariant
                k <= self.contenders@.len(),
                count <= k,
                zeros == Seq::new(self@.contenders.len(), |k: int| 0i64),
                count == points_upto(self@.contenders, zeros, k as nat).len(),
            decreases self.contenders@.len() - k,
        {
            if self.contenders[k].contender.is_contract() {
                count += 1;
            }
            k += 1;
        }
        count
    }

    /// Concludes the tick at time `n` once its tournament is finished: the
    /// points are credited to the programs' reputations and ranked, and the
    /// roster evolves on the ranking. While the tournament is not finished
    /// there is no result and the arena stays as it is.
    pub fn conclude(&mut self, n: u128, tournament: &Tournament) -> (result: Option<TickResult>)
        requires
            old(self).wf(),
            tournament.wf(old(self)),
            old(self)@.next_id + old(self)@.tick_ids(program_entries(old(self)@.contenders))
                <= u32::MAX,
        ensures
            final(self).wf(),
            result is Some <==> tournament@.finished(old(self)@.contenders),
            result is None ==> final(self)@ == old(self)@,
            result matches Some(tick) ==> concludes(
                old(self)@,
                tournament@.scores,
                n,
                tick,
                final(self)@,
            ),
    {
        if !tournament.finished(self) {
            return None;
        }
        proof {
            lemma_points_len(
                self@.contenders,
                tournament@.scores,
                Seq::new(self@.contenders.len(), |k: int| 0i64),
                self@.contenders.len(),
            );
        }
        let points = tournament.points(self);
        proof {
            lemma_points_ascending(self@.contenders, tournament@.scores, self@.contenders.len());
            lemma_credit(self@, points@, n);
        }
        self.credit(&points, n);
        let ranked_points = rank(&points);
        proof {
            ranked_points@.to_multiset_ensures();
            points@.to_multiset_ensures();
        }
        let changes = self.evolve(&ranked_points);
        Some(
            TickResult {
                ranked_points,
                registered: changes.registered,
                removed: changes.removed,
            },
        )
    }

    /// Runs the tick at time `n` from its begin to its end, with `engine` to
    /// make the calls. At a time off the cadence nothing happens. Else the
    /// tournament is held: every call that it asks for is made, and whatever
    /// the engine replies is delivered, until all matches are played; then
    /// the tick is concluded.
    #[verifier::rlimit(40)]
    pub fn on_initialize<F: Fn(&EngineCall) -> Reply>(&mut self, n: u128, engine: F) -> (run: Option<
        TickRun,
    >)
        requires
            old(self).wf(),
            forall|call: &EngineCall| call_requires(engine, (call,)),
            old(self)@.next_id + old(self)@.tick_ids(program_entries(old(self)@.contenders))
                <= u32::MAX,
        ensures
            final(self).wf(),
            run is Some <==> n % CADENCE == 0,
            run is None ==> final(self)@ == old(self)@,
            run matches Some(tick) ==> runs(engine, old(self)@, n, tick, final(self)@),
    {
        let mut tournament = match self.begin_tick(n) {
            Some(tournament) => tournament,
            None => return None,
        };
        let mut matches: Vec<MatchReport> = Vec::new();
        let ghost arena = self@;
        let ghost start = tournament@;
        let ghost mut exchanges: Seq<(EngineCall, Reply)> = Seq::empty();
        proof {
            assert(replies_of(exchanges) =~= Seq::<Option<Seq<u8>>>::empty());
            assert(reports_view(matches@) =~= Seq::<StepView>::empty());
        }
        loop
            invariant
                self.wf(),
                self@ == arena,
                tournament.wf(self),
                start == TournamentView::start(arena.contenders),
                forall|call: &EngineCall| call_requires(engine, (call,)),
                answered_by(engine, arena.contenders, arena.config, exchanges),
                tournament@.settle(arena.contenders, arena.config) == start.driven(
                    arena.contenders,
                    arena.config,
                    replies_of(exchanges),
                ).settle(arena.contenders, arena.config),
                reports_view(matches@) + tournament@.settled_matches(
                    arena.contenders,
                    arena.config,
                ) == start.driven_matches(arena.contenders, arena.config, replies_of(exchanges)),
            ensures
                tournament@.finished(arena.contenders),
                tournament@.settle(arena.contenders, arena.config) == tournament@,
                tournament@.settled_matches(arena.contenders, arena.config) == Seq::<
                    StepView,
                >::empty(),
            decreases
                    arena.contenders.len() - tournament@.first,
                    arena.contenders.len() - tournament@.second,
                    missing_replies(arena, tournament@),
        {
            let ghost before = tournament@;
            let ghost reported = reports_view(matches@);
            proof {
                if !before.finished(arena.contenders) {
                    law_tournament_goes_on(before, arena.contenders, arena.config);
                }
                lemma_advance_wf(before, arena.contenders, arena.config);
            }
            match tournament.advance(self) {
                TickStep::Call(call) => {
                    let reply = engine(&call);
                    tournament.deliver(&reply);
                    proof {
                        let log = replies_of(exchanges);
                        let longer = exchanges.push((call, reply));
                        assert(before.settle(arena.contenders, arena.config) == before);
                        assert(before.settled_matches(arena.contenders, arena.config) =~= Seq::<
                            StepView,
                        >::empty());
                        assert(replies_of(longer) =~= log.push(reply_output(reply)));
                        assert(replies_of(longer).drop_last() =~= log);
                        assert forall|i: int| 0 <= i < longer.len() implies {
                            &&& call_ensures(engine, (&(#[trigger] longer[i]).0,), longer[i].1)
                            &&& start.driven_step(
                                arena.contenders,
                                arena.config,
                                replies_of(longer).take(i),
                            ) == StepView::Call(longer[i].0@)
                        } by {
                            if i < exchanges.len() {
                                assert(longer[i] == exchanges[i]);
                                assert(replies_of(longer).take(i) =~= log.take(i));
                            } else {
                                assert(replies_of(longer).take(i) =~= log);
                            }
                        }
                        assert(reported + before.settled_matches(arena.contenders, arena.config)
                            =~= reported);
                        exchanges = longer;
                    }
                },
                TickStep::MatchEnded(report) => {
                    let ghost step = report.step();
                    matches.push(report);
                    proof {
                        assert(reports_view(matches@) =~= reported.push(step));
                        assert(reports_view(matches@) + tournament@.settled_matches(
                            arena.contenders,
                            arena.config,
                        ) =~= reported + before.settled_matches(arena.contenders, arena.config));
                    }
                },
                TickStep::Finished => {
                    proof {
                        assert(before.settle(arena.contenders, arena.config) == before);
                        assert(before.settled_matches(arena.contenders, arena.config) =~= Seq::<
                            StepView,
                        >::empty());
                    }
                    break ;
                },
            }
        }
        match self.conclude(n, &tournament) {
            Some(result) => {
                let run = TickRun { matches, result };
                proof {
                    assert(reports_view(run.matches@) + Seq::<StepView>::empty() =~= reports_view(
                        run.matches@,
                    ));
                    assert(runs_on(engine, old(self)@, n, run, self@, exchanges));
                }
                Some(run)
            },
            None => None,
        }
    }
}

} // verus!
