//! What holds of the arena whatever happens: the laws of its model, proved
//! from the definitions that the contracts of the other modules use.

use crate::address::{AccountId, Address};
use crate::admission::{lemma_add_contender_keeps, lemma_add_contender_wf, JOINING_INSTANCES};
use crate::arena::{has_id, ids_ascend, index_of_id, instances, ArenaView};
use crate::contender::{Config, Contender, Error, RosterEntry};
use crate::evolution::WINNER_INSTANCES;
use crate::game::{
    calls_per_round, turn_spec, lemma_replies_used, play_rounds, replay_spec,
    previous_plays, TurnView,
};
use crate::scoring::{is_ranking, lemma_credit, multiplier_spec, outranks, ranked};
use crate::tick::lemma_points_ascending;
use crate::tournament::{
    lemma_deliver_wf, lemma_next_contract, lemma_settle, points_upto, tick_points, StepView,
    TournamentView,
};
use vstd::prelude::*;

verus! {

/// No id occurs twice in a ranking.
pub open spec fn ids_distinct(ranking: Seq<(u32, i64)>) -> bool {
    forall|i: int, j: int|
        0 <= i < j < ranking.len() ==> (#[trigger] ranking[i]).0 != (#[trigger] ranking[j]).0
}

/// The entries that pass a test come in the order in which the roster has
/// them, so their ids ascend as the roster's do, and each is an entry of the
/// roster.
pub proof fn lemma_filter_ascending(
    contenders: Seq<RosterEntry>,
    test: spec_fn(RosterEntry) -> bool,
)
    requires
        ids_ascend(contenders),
    ensures
        ids_ascend(contenders.filter(test)),
        forall|j: int|
            0 <= j < contenders.filter(test).len() ==> contenders.contains(
                #[trigger] contenders.filter(test)[j],
            ),
    decreases contenders.len(),
{
    reveal(Seq::filter);
    if contenders.len() > 0 {
        let rest = contenders.drop_last();
        let last = contenders.last();
        lemma_filter_ascending(rest, test);
        let passed = contenders.filter(test);
        let before = rest.filter(test);
        assert forall|j: int| 0 <= j < passed.len() implies contenders.contains(
            #[trigger] passed[j],
        ) by {
            if j < before.len() {
                assert(rest.contains(before[j]));
                let i = choose|i: int| 0 <= i < rest.len() && rest[i] == before[j];
                assert(contenders[i] == passed[j]);
            } else {
                assert(contenders[contenders.len() - 1] == passed[j]);
            }
        }
        assert forall|j: int, k: int| 0 <= j < k < passed.len() implies (#[trigger] passed[j]).id
            < (#[trigger] passed[k]).id by {
            if k < before.len() {
                assert(before[j].id < before[k].id);
            } else {
                assert(rest.contains(before[j]));
                let i = choose|i: int| 0 <= i < rest.len() && rest[i] == before[j];
                assert(contenders[i].id < contenders[contenders.len() - 1].id);
            }
        }
    }
}

/// A test and its opposite part a sequence in two.
pub proof fn lemma_filter_partition<A>(s: Seq<A>, test: spec_fn(A) -> bool, other: spec_fn(A) -> bool)
    requires
        forall|e: A| #[trigger] other(e) == !test(e),
    ensures
        s.filter(test).len() + s.filter(other).len() == s.len(),
    decreases s.len(),
{
    reveal(Seq::filter);
    if s.len() > 0 {
        lemma_filter_partition(s.drop_last(), test, other);
        assert(other(s.last()) == !test(s.last()));
    }
}

/// Among the entries that pass a test, a program has no more instances than
/// in the whole roster.
pub proof fn lemma_instances_filter(
    contenders: Seq<RosterEntry>,
    test: spec_fn(RosterEntry) -> bool,
    address: Address,
)
    ensures
        instances(contenders.filter(test), address) <= instances(contenders, address),
    decreases contenders.len(),
{
    let holds = |e: RosterEntry| e.contender == Contender::Contract(address);
    if contenders.len() == 0 {
        reveal(Seq::filter);
    } else {
        let rest = contenders.drop_last();
        let last = contenders.last();
        lemma_instances_filter(rest, test, address);
        assert(contenders =~= rest.push(last));
        rest.lemma_filter_push(last, test);
        rest.lemma_filter_push(last, holds);
        rest.filter(test).lemma_filter_push(last, holds);
    }
}

/// Draining contenders from the queue keeps the arena's invariant.
pub proof fn lemma_admit_all(arena: ArenaView, waiting: Seq<Contender>)
    requires
        arena.wf(),
        arena.next_id + JOINING_INSTANCES * waiting.len() <= u32::MAX,
    ensures
        arena.admit_all(waiting).wf(),
        arena.admit_all(waiting).config == arena.config,
        arena.admit_all(waiting).queue == arena.queue,
        arena.admit_all(waiting).next_id >= arena.next_id,
        arena.admit_all(waiting).next_id <= arena.next_id + JOINING_INSTANCES * waiting.len(),
        arena.admit_all(waiting).contenders.len() >= arena.contenders.len(),
        forall|k: int|
            0 <= k < arena.contenders.len() ==> (#[trigger] arena.admit_all(
                waiting,
            ).contenders[k]) == arena.contenders[k],
        forall|address: Address|
            {
                &&& (#[trigger] arena.admit_all(waiting).info(address)).point == arena.info(
                    address,
                ).point
                &&& arena.admit_all(waiting).info(address).wins == arena.info(address).wins
            },
    decreases waiting.len(),
{
    if waiting.len() > 0 {
        let before = arena.admit_all(waiting.drop_last());
        lemma_admit_all(arena, waiting.drop_last());
        lemma_add_contender_keeps(before, waiting.last(), JOINING_INSTANCES);
        lemma_add_contender_wf(before, waiting.last(), JOINING_INSTANCES);
        let after = arena.admit_all(waiting);
        assert forall|address: Address|
            {
                &&& (#[trigger] after.info(address)).point == arena.info(address).point
                &&& after.info(address).wins == arena.info(address).wins
            } by {
            assert(before.info(address).point == arena.info(address).point);
        }
        assert forall|k: int| 0 <= k < arena.contenders.len() implies (
        #[trigger] after.contenders[k]) == arena.contenders[k] by {
            assert(before.contenders[k] == arena.contenders[k]);
        }
    }
}

/// Draining the queue keeps the arena's invariant and changes no
/// reputation.
pub proof fn lemma_drain_queue(arena: ArenaView)
    requires
        arena.wf(),
        arena.next_id + JOINING_INSTANCES * arena.drain_count() <= u32::MAX,
    ensures
        arena.drain_queue().wf(),
        arena.drain_queue().config == arena.config,
        arena.drain_queue().queue.len() <= arena.queue.len(),
        arena.drain_queue().next_id >= arena.next_id,
        arena.drain_queue().next_id <= arena.next_id + JOINING_INSTANCES * arena.drain_count(),
        arena.drain_queue().contenders.len() >= arena.contenders.len(),
        forall|k: int|
            0 <= k < arena.contenders.len() ==> (#[trigger] arena.drain_queue().contenders[k])
                == arena.contenders[k],
        forall|address: Address|
            (#[trigger] arena.drain_queue().info(address)).point == arena.info(address).point,
{
    let admitted = arena.admit_all(arena.queue.take(arena.drain_count() as int));
    lemma_admit_all(arena, arena.queue.take(arena.drain_count() as int));
    let after = arena.drain_queue();
    assert forall|address: Address| #[trigger] after.info(address) == admitted.info(address) by {}
    assert(after.instances_counted()) by {
        assert forall|address: Address|
            {
                &&& (#[trigger] after.info(address)).instance_count == instances(
                    after.contenders,
                    address,
                )
                &&& after.info(address).instance_count
                    <= after.config.max_instances_per_contender
            } by {
            assert(admitted.info(address).instance_count == instances(
                admitted.contenders,
                address,
            ));
        }
    }
}

/// Promoting an entry keeps the arena's invariant and changes no
/// reputation.
pub proof fn lemma_promote_one(arena: ArenaView, id: u32)
    requires
        arena.wf(),
        arena.next_id + WINNER_INSTANCES <= u32::MAX,
    ensures
        arena.promote_one(id).wf(),
        arena.promote_one(id).config == arena.config,
        arena.promote_one(id).queue == arena.queue,
        arena.promote_one(id).next_id >= arena.next_id,
        arena.promote_one(id).next_id <= arena.next_id + WINNER_INSTANCES,
        arena.promote_one(id).contenders.len() >= arena.contenders.len(),
        forall|k: int|
            0 <= k < arena.contenders.len() ==> (#[trigger] arena.promote_one(id).contenders[k])
                == arena.contenders[k],
        forall|address: Address|
            (#[trigger] arena.promote_one(id).info(address)).point == arena.info(address).point,
{
    if let Some(contender) = arena.contender(id) {
        let grown = arena.add_contender(contender, WINNER_INSTANCES);
        lemma_add_contender_keeps(arena, contender, WINNER_INSTANCES);
        lemma_add_contender_wf(arena, contender, WINNER_INSTANCES);
        let after = arena.promote_one(id);
        assert forall|address: Address|
            {
                &&& (#[trigger] after.info(address)).instance_count == instances(
                    after.contenders,
                    address,
                )
                &&& after.info(address).instance_count
                    <= after.config.max_instances_per_contender
                &&& after.info(address).point == arena.info(address).point
            } by {
            assert(grown.info(address).instance_count == instances(grown.contenders, address));
            assert(grown.info(address).point == arena.info(address).point);
        }
    }
}

/// Promoting a list of entries keeps the arena's invariant and changes no
/// reputation.
pub proof fn lemma_promote_all(arena: ArenaView, winners: Seq<(u32, i64)>)
    requires
        arena.wf(),
        arena.next_id + WINNER_INSTANCES * winners.len() <= u32::MAX,
    ensures
        arena.promote_all(winners).wf(),
        arena.promote_all(winners).config == arena.config,
        arena.promote_all(winners).queue == arena.queue,
        arena.promote_all(winners).next_id >= arena.next_id,
        arena.promote_all(winners).next_id <= arena.next_id + WINNER_INSTANCES * winners.len(),
        arena.promote_all(winners).contenders.len() >= arena.contenders.len(),
        forall|k: int|
            0 <= k < arena.contenders.len() ==> (#[trigger] arena.promote_all(
                winners,
            ).contenders[k]) == arena.contenders[k],
        forall|address: Address|
            (#[trigger] arena.promote_all(winners).info(address)).point == arena.info(
                address,
            ).point,
    decreases winners.len(),
{
    if winners.len() > 0 {
        let before = arena.promote_all(winners.drop_last());
        lemma_promote_all(arena, winners.drop_last());
        lemma_promote_one(before, winners.last().0);
        let after = arena.promote_all(winners);
        assert forall|address: Address|
            (#[trigger] after.info(address)).point == arena.info(address).point by {
            assert(before.info(address).point == arena.info(address).point);
        }
        assert forall|k: int| 0 <= k < arena.contenders.len() implies (
        #[trigger] after.contenders[k]) == arena.contenders[k] by {
            assert(before.contenders[k] == arena.contenders[k]);
        }
    }
}

/// Eviction keeps the arena's invariant, changes no reputation, and leaves
/// the limits, the queue and the next id as they are.
pub proof fn lemma_evict(arena: ArenaView, ranking: Seq<(u32, i64)>)
    requires
        arena.wf(),
    ensures
        arena.evict(ranking).wf(),
        arena.evict(ranking).config == arena.config,
        arena.evict(ranking).queue == arena.queue,
        arena.evict(ranking).next_id == arena.next_id,
        arena.evict(ranking).contenders.len() <= arena.contenders.len(),
        forall|address: Address|
            (#[trigger] arena.evict(ranking).info(address)).point == arena.info(address).point,
{
    let after = arena.evict(ranking);
    let kept = arena.contenders.filter(arena.stays(ranking));
    lemma_filter_ascending(arena.contenders, arena.stays(ranking));
    arena.contenders.lemma_filter_len(arena.stays(ranking));
    assert forall|i: int| 0 <= i < kept.len() implies (#[trigger] kept[i]).id < after.next_id by {
        assert(arena.contenders.contains(kept[i]));
        let j = choose|j: int| 0 <= j < arena.contenders.len() && arena.contenders[j] == kept[i];
        assert(arena.contenders[j].id < arena.next_id);
    }
    assert forall|address: Address|
        {
            &&& (#[trigger] after.info(address)).instance_count == instances(
                after.contenders,
                address,
            )
            &&& after.info(address).instance_count <= after.config.max_instances_per_contender
            &&& after.info(address).point == arena.info(address).point
        } by {
        lemma_instances_filter(arena.contenders, arena.stays(ranking), address);
        assert(arena.info(address).instance_count == instances(arena.contenders, address));
    }
}

/// The invariant of the arena survives a request to join, and so does every
/// reputation.
pub proof fn law_joining_keeps_invariant(arena: ArenaView, contender: Contender)
    requires
        arena.wf(),
        arena.ids_suffice(contender, JOINING_INSTANCES),
    ensures
        match arena.do_register_contender(contender) {
            Ok(after) => after.wf() && forall|address: Address|
                (#[trigger] after.info(address)).point == arena.info(address).point,
            Err(error) => error == Error::QueueFull,
        },
{
    if let Ok(after) = arena.do_register_contender(contender) {
        if arena.config.max_contender_instances_count > arena.instances_count {
            lemma_add_contender_wf(arena, contender, JOINING_INSTANCES);
            lemma_add_contender_keeps(arena, contender, JOINING_INSTANCES);
        } else {
            assert forall|address: Address| #[trigger]
                after.info(address) == arena.info(address) by {}
            assert(after.instances_counted()) by {
                assert forall|address: Address|
                    {
                        &&& (#[trigger] after.info(address)).instance_count == instances(
                            after.contenders,
                            address,
                        )
                        &&& after.info(address).instance_count
                            <= after.config.max_instances_per_contender
                    } by {
                    assert(arena.info(address).instance_count == instances(
                        arena.contenders,
                        address,
                    ));
                }
            }
        }
    }
}

/// The admission queue never grows beyond its limit: a request that finds
/// the roster and the queue full is turned down, and only such a request is;
/// any other leaves the queue within its limit.
pub proof fn law_queue_stays_bounded(arena: ArenaView, contender: Contender)
    requires
        arena.queue.len() <= arena.config.max_queue_size,
    ensures
        arena.do_register_contender(contender) is Err <==> arena.instances_count
            >= arena.config.max_contender_instances_count && arena.queue.len()
            >= arena.config.max_queue_size,
        arena.do_register_contender(contender) matches Ok(after) ==> after.queue.len()
            <= after.config.max_queue_size,
        arena.do_register_contender(contender) matches Err(error) ==> error == Error::QueueFull,
{
}

/// A registration that is turned down is turned down for one reason: the
/// program is known, else the requester is not its owner, else the roster
/// and the queue are full.
pub proof fn law_registration_outcomes(
    arena: ArenaView,
    who: AccountId,
    contract: Address,
    owner: AccountId,
)
    ensures
        arena.complete_registration(who, contract, owner) == Err::<ArenaView, Error>(Error::AlreadyRegistered)
            <==> arena.known(contract),
        arena.complete_registration(who, contract, owner) == Err::<ArenaView, Error>(Error::InvalidOwner)
            <==> !arena.known(contract) && owner != who,
        arena.complete_registration(who, contract, owner) == Err::<ArenaView, Error>(Error::QueueFull)
            <==> !arena.known(contract) && owner == who && arena.instances_count
            >= arena.config.max_contender_instances_count && arena.queue.len()
            >= arena.config.max_queue_size,
{
}

/// The invariant of the arena survives a tick. After the points are credited
/// and the roster has evolved on any ranking at all, the counter of entries
/// is the length of the roster, every program's count of instances is the
/// number of its entries and within its cap, the ids ascend below the next
/// id, and the queue is within its limit.
pub proof fn law_tick_keeps_invariant(
    arena: ArenaView,
    points: Seq<(u32, i64)>,
    n: u128,
    ranking: Seq<(u32, i64)>,
)
    requires
        arena.wf(),
        arena.next_id + arena.tick_ids(ranking.len()) <= u32::MAX,
    ensures
        arena.credit(points, n).evolve(ranking).wf(),
        arena.credit(points, n).evolve(ranking).instances_count == arena.credit(points, n).evolve(
            ranking,
        ).contenders.len(),
        arena.credit(points, n).evolve(ranking).next_id >= arena.next_id,
{
    let credited = arena.credit(points, n);
    lemma_credit(arena, points, n);
    lemma_evolve(credited, ranking);
}

/// The evolution of the roster keeps the arena's invariant and changes no
/// reputation.
pub proof fn lemma_evolve(arena: ArenaView, ranking: Seq<(u32, i64)>)
    requires
        arena.wf(),
        arena.next_id + arena.tick_ids(ranking.len()) <= u32::MAX,
    ensures
        arena.drain_queue().promote_winners(ranking).wf(),
        arena.evolve(ranking).wf(),
        arena.evolve(ranking).config == arena.config,
        arena.evolve(ranking).next_id >= arena.next_id,
        arena.evolve(ranking).queue.len() <= arena.queue.len(),
        forall|address: Address|
            (#[trigger] arena.evolve(ranking).info(address)).point == arena.info(address).point,
{
    let drained = arena.drain_queue();
    lemma_drain_queue(arena);
    let winners = ranking.take(drained.winner_count(ranking.len()) as int);
    let grown = drained.promote_winners(ranking);
    lemma_promote_all(drained, winners);
    lemma_evict(grown, ranking);
    let after = arena.evolve(ranking);
    assert forall|address: Address|
        (#[trigger] after.info(address)).point == arena.info(address).point by {
        assert(grown.info(address).point == drained.info(address).point);
        assert(drained.info(address).point == arena.info(address).point);
    }
}

/// Reputation never falls. Whatever the points of a tick and whatever the
/// ranking, no program has less reputation after the tick than before it.
pub proof fn law_reputation_never_falls(
    arena: ArenaView,
    points: Seq<(u32, i64)>,
    n: u128,
    ranking: Seq<(u32, i64)>,
    address: Address,
)
    requires
        arena.wf(),
        arena.next_id + arena.tick_ids(ranking.len()) <= u32::MAX,
    ensures
        arena.credit(points, n).evolve(ranking).info(address).point >= arena.info(address).point,
{
    let credited = arena.credit(points, n);
    lemma_credit(arena, points, n);
    lemma_evolve(credited, ranking);
    assert(credited.info(address).point >= arena.info(address).point);
    assert(credited.evolve(ranking).info(address).point == credited.info(address).point);
}

/// What the entries of the program at `address` earned in a tick: the sum of
/// the positive points of those entries of `points` that the roster holds
/// for the program.
pub open spec fn earned(arena: ArenaView, points: Seq<(u32, i64)>, address: Address) -> int
    decreases points.len(),
{
    if points.len() == 0 {
        0
    } else {
        earned(arena, points.drop_last(), address) + if points.last().1 > 0 && arena.contender(
            points.last().0,
        ) == Some(Contender::Contract(address)) {
            points.last().1 as int
        } else {
            0
        }
    }
}

/// Reputation grows by what was earned. After the points of a tick are
/// credited, the reputation of every program is its reputation from before
/// plus the factor of the time times what its entries earned, or the largest
/// number that a reputation can be if that is less.
pub proof fn law_credit_is_the_sum(
    arena: ArenaView,
    points: Seq<(u32, i64)>,
    n: u128,
    address: Address,
)
    requires
        arena.wf(),
    ensures
        earned(arena, points, address) >= 0,
        arena.credit(points, n).info(address).point == if arena.info(address).point + earned(
            arena,
            points,
            address,
        ) * multiplier_spec(n) > u128::MAX {
            u128::MAX as int
        } else {
            arena.info(address).point + earned(arena, points, address) * multiplier_spec(n)
        },
    decreases points.len(),
{
    let factor = multiplier_spec(n);
    if points.len() == 0 {
        assert(0 * factor == 0) by (nonlinear_arith);
    } else {
        let rest = points.drop_last();
        let (id, gain) = points.last();
        let before = arena.credit(rest, n);
        law_credit_is_the_sum(arena, rest, n, address);
        lemma_credit(arena, rest, n);
        assert(before.contender(id) == arena.contender(id));
        let sum = earned(arena, rest, address);
        assert(sum * factor >= 0) by (nonlinear_arith)
            requires
                sum >= 0,
                factor >= 1,
        ;
        if gain > 0 && arena.contender(id) == Some(Contender::Contract(address)) {
            assert((sum + gain) * factor == sum * factor + gain * factor) by (nonlinear_arith);
            assert(gain * factor >= 0) by (nonlinear_arith)
                requires
                    gain > 0,
                    factor >= 1,
            ;
        } else {
            assert(arena.credit(points, n).info(address) == before.info(address));
        }
    }
}

/// Eviction takes the lowest of the ranking. In a ranking without repeated
/// ids, every ranked entry that stays comes before every entry that is up
/// for eviction.
pub proof fn law_eviction_takes_lowest(arena: ArenaView, ranking: Seq<(u32, i64)>, i: int, j: int)
    requires
        ranked(ranking),
        ids_distinct(ranking),
        0 <= i < ranking.len(),
        0 <= j < ranking.len(),
        !arena.doomed(ranking, ranking[i].0),
        arena.doomed(ranking, ranking[j].0),
    ensures
        outranks(ranking[i], ranking[j]),
        i < j,
{
    let first_doomed = ranking.len() - arena.eviction_count(ranking);
    if i >= first_doomed {
        assert(ranking[i].0 == ranking[i].0);
    }
    let m = choose|m: int|
        ranking.len() - arena.eviction_count(ranking) <= m < ranking.len() && (
        #[trigger] ranking[m]).0 == ranking[j].0;
    if m < j {
        assert(ranking[m].0 != ranking[j].0);
    } else if j < m {
        assert(ranking[j].0 != ranking[m].0);
    }
}

/// Eviction brings the roster down to its limit. Where the roster exceeds
/// its limit by no more than the ranking has entries, and the entries at the
/// end of the ranking, as many as the roster exceeds its limit by, are
/// entries of the roster, none of them named twice, the roster has after
/// eviction as many entries as before or as its limit allows, whichever is
/// less.
pub proof fn law_eviction_fits_limit(arena: ArenaView, ranking: Seq<(u32, i64)>)
    requires
        arena.wf(),
        arena.overflow() <= ranking.len(),
        forall|i: int, j: int|
            ranking.len() - arena.overflow() <= i < j < ranking.len() ==> (
            #[trigger] ranking[i]).0 != (#[trigger] ranking[j]).0,
        forall|j: int|
            ranking.len() - arena.overflow() <= j < ranking.len() ==> has_id(
                arena.contenders,
                (#[trigger] ranking[j]).0,
            ),
    ensures
        arena.evict(ranking).contenders.len() == if arena.contenders.len()
            <= arena.config.max_contender_instances_count {
            arena.contenders.len()
        } else {
            arena.config.max_contender_instances_count as nat
        },
        arena.evict(ranking).instances_count == arena.evict(ranking).contenders.len(),
        arena.evict(ranking).contenders.len() <= arena.config.max_contender_instances_count
            || arena.evict(ranking).contenders.len() == arena.contenders.len(),
{
    let count = arena.eviction_count(ranking);
    let first = ranking.len() - count;
    let kept = arena.contenders.filter(arena.stays(ranking));
    let left = arena.contenders.filter(arena.leaves(ranking));
    lemma_filter_partition(arena.contenders, arena.stays(ranking), arena.leaves(ranking));
    lemma_filter_ascending(arena.contenders, arena.leaves(ranking));
    lemma_evict(arena, ranking);
    let left_ids = left.map_values(|e: RosterEntry| e.id);
    let doomed_ids = ranking.skip(first).map_values(|p: (u32, i64)| p.0);
    assert(left_ids.no_duplicates()) by {
        assert forall|a: int, b: int|
            0 <= a < left_ids.len() && 0 <= b < left_ids.len() && a != b implies left_ids[a]
            != left_ids[b] by {
            if a < b {
                assert(left[a].id < left[b].id);
            } else {
                assert(left[b].id < left[a].id);
            }
        }
    }
    assert(doomed_ids.no_duplicates()) by {
        assert forall|a: int, b: int|
            0 <= a < doomed_ids.len() && 0 <= b < doomed_ids.len() && a != b implies doomed_ids[a]
            != doomed_ids[b] by {
            if a < b {
                assert(ranking[first + a].0 != ranking[first + b].0);
            } else {
                assert(ranking[first + b].0 != ranking[first + a].0);
            }
        }
    }
    assert(left_ids.to_set() =~= doomed_ids.to_set()) by {
        assert forall|id: u32| left_ids.contains(id) implies doomed_ids.contains(id) by {
            let a = choose|a: int| 0 <= a < left_ids.len() && left_ids[a] == id;
            arena.contenders.lemma_filter_pred(arena.leaves(ranking), a);
            assert(arena.doomed(ranking, left[a].id));
            let m = choose|m: int|
                ranking.len() - arena.eviction_count(ranking) <= m < ranking.len() && (
                #[trigger] ranking[m]).0 == id;
            assert(doomed_ids[m - first] == id);
        }
        assert forall|id: u32| doomed_ids.contains(id) implies left_ids.contains(id) by {
            let b = choose|b: int| 0 <= b < doomed_ids.len() && doomed_ids[b] == id;
            assert(ranking[first + b].0 == id);
            assert(has_id(arena.contenders, id));
            let i = index_of_id(arena.contenders, id);
            assert(arena.doomed(ranking, arena.contenders[i].id));
            arena.contenders.lemma_filter_contains(arena.leaves(ranking), i);
            let a = choose|a: int| 0 <= a < left.len() && left[a] == arena.contenders[i];
            assert(left_ids[a] == id);
        }
    }
    left_ids.unique_seq_to_set();
    doomed_ids.unique_seq_to_set();
    assert(left.len() == count);
}

/// Every id among the points of a tick is the id of a program entry of the
/// roster.
pub proof fn lemma_points_are_entries(
    contenders: Seq<RosterEntry>,
    scores: Seq<i64>,
    n: nat,
    i: int,
)
    requires
        n <= contenders.len(),
        0 <= i < points_upto(contenders, scores, n).len(),
    ensures
        has_id(contenders, points_upto(contenders, scores, n)[i].0),
    decreases n,
{
    if n > 0 {
        let before = points_upto(contenders, scores, (n - 1) as nat);
        if i < before.len() {
            lemma_points_are_entries(contenders, scores, (n - 1) as nat, i);
        } else {
            assert(contenders[n - 1].id == points_upto(contenders, scores, n)[i].0);
        }
    }
}

/// A tick brings the roster down to its limit where it can. The entries
/// that a tick may evict are the program entries that played in it. If the
/// roster, after the queue is drained and the winners are promoted, exceeds
/// its limit by no more than there are such entries, then after the tick it
/// is exactly at its limit; and if it does not exceed the limit, nothing is
/// evicted. Either way the counter of entries is the length of the roster.
pub proof fn law_tick_fits_limit(
    arena: ArenaView,
    scores: Seq<i64>,
    n: u128,
    ranking: Seq<(u32, i64)>,
)
    requires
        arena.wf(),
        scores.len() == arena.contenders.len(),
        is_ranking(ranking, tick_points(arena.contenders, scores)),
        arena.next_id + arena.tick_ids(ranking.len()) <= u32::MAX,
        arena.credit(tick_points(arena.contenders, scores), n).drain_queue().promote_winners(
            ranking,
        ).overflow() <= ranking.len(),
    ensures
        ({
            let points = tick_points(arena.contenders, scores);
            let grown = arena.credit(points, n).drain_queue().promote_winners(ranking);
            let after = arena.credit(points, n).evolve(ranking);
            &&& after.instances_count == after.contenders.len()
            &&& after.contenders.len() <= arena.config.max_contender_instances_count
            &&& after.contenders.len() == if grown.contenders.len()
                <= arena.config.max_contender_instances_count {
                grown.contenders.len()
            } else {
                arena.config.max_contender_instances_count as nat
            }
        }),
{
    let points = tick_points(arena.contenders, scores);
    let credited = arena.credit(points, n);
    lemma_credit(arena, points, n);
    let drained = credited.drain_queue();
    lemma_drain_queue(credited);
    let winners = ranking.take(drained.winner_count(ranking.len()) as int);
    let grown = drained.promote_winners(ranking);
    lemma_promote_all(drained, winners);
    lemma_points_ascending(arena.contenders, scores, arena.contenders.len());
    ranking.to_multiset_ensures();
    points.to_multiset_ensures();
    assert forall|j: int| 0 <= j < ranking.len() implies has_id(
        grown.contenders,
        (#[trigger] ranking[j]).0,
    ) by {
        assert(ranking.to_multiset().count(ranking[j]) > 0);
        assert(points.contains(ranking[j]));
        let i = choose|i: int| 0 <= i < points.len() && points[i] == ranking[j];
        lemma_points_are_entries(arena.contenders, scores, arena.contenders.len(), i);
        let k = index_of_id(arena.contenders, ranking[j].0);
        assert(drained.contenders[k] == credited.contenders[k]);
        assert(grown.contenders[k] == drained.contenders[k]);
        assert(grown.contenders[k].id == ranking[j].0);
    }
    assert(ids_distinct(ranking)) by {
        assert forall|i: int, j: int| 0 <= i < j < ranking.len() implies (#[trigger] ranking[i]).0
            != (#[trigger] ranking[j]).0 by {
            assert(ranking.to_multiset().count(ranking[i]) > 0);
            assert(ranking.to_multiset().count(ranking[j]) > 0);
            assert(points.contains(ranking[i]));
            assert(points.contains(ranking[j]));
            let a = choose|a: int| 0 <= a < points.len() && points[a] == ranking[i];
            let b = choose|b: int| 0 <= b < points.len() && points[b] == ranking[j];
            assert(outranks(ranking[i], ranking[j]));
            if a < b {
                assert(points[a].0 < points[b].0);
            } else if b < a {
                assert(points[b].0 < points[a].0);
            }
        }
    }
    law_eviction_fits_limit(grown, ranking);
    lemma_evict(grown, ranking);
}

/// A decided match does not hang on what comes after it: replies beyond
/// those that the match used change neither its rounds nor its winner.
pub proof fn law_match_ignores_later_replies(
    config: Config,
    a: Contender,
    b: Contender,
    replies: Seq<nat>,
    later: Seq<nat>,
)
    requires
        replay_spec(config, a, b, replies) is Decided,
    ensures
        replay_spec(config, a, b, replies + later) == replay_spec(config, a, b, replies),
{
    lemma_rounds_ignore_later_replies(
        config.contract_invoker,
        a,
        b,
        replies,
        later,
        config.play_per_round as nat,
    );
}

/// The rounds that the replies at hand suffice for are the same with more
/// replies at hand.
pub proof fn lemma_rounds_ignore_later_replies(
    invoker: Address,
    a: Contender,
    b: Contender,
    replies: Seq<nat>,
    later: Seq<nat>,
    n: nat,
)
    requires
        play_rounds(invoker, a, b, replies, n) is Played,
    ensures
        play_rounds(invoker, a, b, replies + later, n) == play_rounds(invoker, a, b, replies, n),
    decreases n,
{
    if n > 0 {
        lemma_rounds_ignore_later_replies(invoker, a, b, replies, later, (n - 1) as nat);
        let state = play_rounds(invoker, a, b, replies, (n - 1) as nat)->Played_0;
        lemma_replies_used(invoker, a, b, replies, (n - 1) as nat);
        lemma_replies_used(invoker, a, b, replies, n);
        assert(forall|i: int| 0 <= i < replies.len() ==> (replies + later)[i] == replies[i]);
    }
}

/// A tournament goes on, whatever the programs do. A step of a tournament
/// that is not finished either ends the match at play and moves to a later
/// pair, or asks for a call because the match lacks a reply; it never stops
/// for another reason.
pub proof fn law_tournament_goes_on(
    tournament: TournamentView,
    contenders: Seq<RosterEntry>,
    config: Config,
)
    requires
        tournament.wf(contenders),
        !tournament.finished(contenders),
    ensures
        match tournament.advance(contenders, config).1 {
            StepView::Call(_) => tournament.advance(contenders, config).0 == tournament
                && tournament.replies.len() < config.play_per_round * calls_per_round(
                contenders[tournament.first as int].contender,
                contenders[tournament.second as int].contender,
            ),
            StepView::MatchEnded { .. } => {
                let after = tournament.advance(contenders, config).0;
                &&& after.replies.len() == 0
                &&& after.first > tournament.first || (after.first == tournament.first
                    && after.second == tournament.second + 1)
            },
            StepView::Finished => false,
        },
{
    let a = contenders[tournament.first as int].contender;
    let b = contenders[tournament.second as int].contender;
    lemma_replies_used(
        config.contract_invoker,
        a,
        b,
        tournament.replies,
        config.play_per_round as nat,
    );
    lemma_next_contract(contenders, tournament.first + 1);
}

/// A tournament begins within its invariant, whatever the roster.
pub proof fn law_tournament_begins_well(contenders: Seq<RosterEntry>)
    ensures
        TournamentView::start(contenders).wf(contenders),
{
    lemma_next_contract(contenders, 0);
}

/// Driving a tournament keeps its invariant. Whatever the engine replies, a
/// tournament that is driven by the replies has a score for each place of the
/// roster, a program at the head of the pair at play, and no score beyond
/// what the matches played can have brought.
pub proof fn law_driving_keeps_invariant(
    tournament: TournamentView,
    contenders: Seq<RosterEntry>,
    config: Config,
    replies: Seq<Option<Seq<u8>>>,
)
    requires
        tournament.wf(contenders),
    ensures
        tournament.driven(contenders, config, replies).wf(contenders),
    decreases replies.len(),
{
    if replies.len() > 0 {
        let before = tournament.driven(contenders, config, replies.drop_last());
        law_driving_keeps_invariant(tournament, contenders, config, replies.drop_last());
        lemma_settle(before, contenders, config);
        lemma_deliver_wf(before.settle(contenders, config), contenders, replies.last());
    }
}

/// The ranking of a tick is settled by its points: two rankings of the same
/// points are the same ranking.
pub proof fn law_ranking_is_unique(
    first: Seq<(u32, i64)>,
    second: Seq<(u32, i64)>,
    points: Seq<(u32, i64)>,
)
    requires
        is_ranking(first, points),
        is_ranking(second, points),
    ensures
        first == second,
{
    lemma_ranked_same_entries(first, second);
}

/// Two sequences that are both ranked and hold the same entries are equal.
pub proof fn lemma_ranked_same_entries(first: Seq<(u32, i64)>, second: Seq<(u32, i64)>)
    requires
        ranked(first),
        ranked(second),
        first.to_multiset() == second.to_multiset(),
    ensures
        first == second,
    decreases first.len(),
{
    first.to_multiset_ensures();
    second.to_multiset_ensures();
    if first.len() == 0 {
        assert(first =~= second);
    } else {
        let top = first[0];
        let other = second[0];
        if top != other {
            // each is somewhere behind the other's head
            assert(second.to_multiset().count(top) > 0);
            assert(second.contains(top));
            let j = choose|j: int| 0 <= j < second.len() && second[j] == top;
            assert(outranks(second[0], second[j]));
            assert(first.to_multiset().count(other) > 0);
            assert(first.contains(other));
            let i = choose|i: int| 0 <= i < first.len() && first[i] == other;
            assert(outranks(first[0], first[i]));
        }
        vstd::seq_lib::to_multiset_remove(first, 0);
        vstd::seq_lib::to_multiset_remove(second, 0);
        assert(first.remove(0) =~= first.drop_first());
        assert(second.remove(0) =~= second.drop_first());
        assert(ranked(first.drop_first())) by {
            assert forall|i: int, j: int| 0 <= i < j < first.drop_first().len() implies outranks(
                #[trigger] first.drop_first()[i],
                #[trigger] first.drop_first()[j],
            ) by {
                assert(outranks(first[i + 1], first[j + 1]));
            }
        }
        assert(ranked(second.drop_first())) by {
            assert forall|i: int, j: int| 0 <= i < j < second.drop_first().len() implies outranks(
                #[trigger] second.drop_first()[i],
                #[trigger] second.drop_first()[j],
            ) by {
                assert(outranks(second[i + 1], second[j + 1]));
            }
        }
        lemma_ranked_same_entries(first.drop_first(), second.drop_first());
        assert(first =~= seq![top] + first.drop_first());
        assert(second =~= seq![other] + second.drop_first());
    }
}

/// What a side plays in a round after the rounds `before`: a built-in
/// strategy plays its move on the round before, a program plays the reply at
/// `place`.
pub open spec fn side_plays(
    invoker: Address,
    side: Contender,
    before: Seq<(nat, nat)>,
    own_first: bool,
    replies: Seq<nat>,
    place: int,
) -> nat {
    let (first, second) = previous_plays(before);
    let (own, other) = if own_first {
        (first, second)
    } else {
        (second, first)
    };
    match turn_spec(invoker, side, before.len() as u32, own, other) {
        TurnView::Move(play) => play,
        TurnView::Ask(_) => replies[place],
    }
}

/// The rounds of a match are what its sides play. In every round that a
/// match got through, each built-in strategy played its move on the round
/// before, and each program played the reply to its call: with the programs
/// asked in the order of the rounds, the first side before the second. So
/// the move of a program whose call failed is the zero that stands for the
/// failure, in that round and in no other.
pub proof fn law_rounds_are_what_sides_play(
    invoker: Address,
    a: Contender,
    b: Contender,
    replies: Seq<nat>,
    n: nat,
    round: int,
)
    requires
        play_rounds(invoker, a, b, replies, n) is Played,
        n <= u32::MAX,
        0 <= round < n,
    ensures
        ({
            let rounds = play_rounds(invoker, a, b, replies, n)->Played_0.rounds;
            let place = round * calls_per_round(a, b);
            &&& rounds.len() == n
            &&& rounds[round].0 == side_plays(invoker, a, rounds.take(round), true, replies, place)
            &&& rounds[round].1 == side_plays(
                invoker,
                b,
                rounds.take(round),
                false,
                replies,
                place + if a is Contract {
                    1int
                } else {
                    0int
                },
            )
        }),
    decreases n,
{
    let k = calls_per_round(a, b);
    let rounds = play_rounds(invoker, a, b, replies, n)->Played_0.rounds;
    let earlier = play_rounds(invoker, a, b, replies, (n - 1) as nat)->Played_0;
    lemma_replies_used(invoker, a, b, replies, n);
    lemma_replies_used(invoker, a, b, replies, (n - 1) as nat);
    assert(rounds.drop_last() =~= earlier.rounds);
    if round < n - 1 {
        law_rounds_are_what_sides_play(invoker, a, b, replies, (n - 1) as nat, round);
        assert(rounds.take(round) =~= earlier.rounds.take(round));
    } else {
        assert(rounds.take(round) =~= earlier.rounds);
    }
}

} // verus!
