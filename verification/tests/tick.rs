use module_arena::scoring::{multiplier, rank};
use module_arena::{
    Address, Config, Contender, ContractInfo, EngineCall, ExecutionFailure, MatchReport, Pallet,
    Reply, RosterEntry, TickResult, TickStep, Tournament, Word,
};

fn address(byte: u8) -> Address {
    Address { bytes: [byte; 20] }
}

fn config(max_contender_instances_count: u32) -> Config {
    Config {
        play_per_round: 3,
        max_contender_instances_count,
        max_queue_size: 2,
        winner_count: 1,
        enqueue_count: 1,
        max_instances_per_contender: 3,
        contract_invoker: address(9),
    }
}

fn entry(id: u32, contender: Contender) -> RosterEntry {
    RosterEntry { id, contender }
}

fn output(value: u8) -> Reply {
    let mut bytes = vec![0u8; 32];
    bytes[31] = value;
    Ok(bytes)
}

struct Run {
    result: Option<TickResult>,
    calls: Vec<EngineCall>,
    reports: Vec<MatchReport>,
}

fn drive(
    arena: &mut Pallet,
    tournament: &mut Tournament,
    engine: &mut dyn FnMut(&EngineCall) -> Reply,
) -> (Vec<EngineCall>, Vec<MatchReport>) {
    let mut calls = Vec::new();
    let mut reports = Vec::new();
    loop {
        match tournament.advance(arena) {
            TickStep::Call(call) => {
                let reply = engine(&call);
                tournament.deliver(&reply);
                calls.push(call);
            }
            TickStep::MatchEnded(report) => reports.push(report),
            TickStep::Finished => break,
        }
    }
    (calls, reports)
}

fn run_tick(arena: &mut Pallet, n: u128, engine: &mut dyn FnMut(&EngineCall) -> Reply) -> Run {
    match arena.begin_tick(n) {
        None => Run { result: None, calls: Vec::new(), reports: Vec::new() },
        Some(mut tournament) => {
            let (calls, reports) = drive(arena, &mut tournament, engine);
            let result = arena.conclude(n, &tournament);
            Run { result, calls, reports }
        }
    }
}

/// Two built-in strategies and one program with two instances.
fn small_arena(max_contender_instances_count: u32) -> Pallet {
    let mut arena = Pallet::new(config(max_contender_instances_count));
    arena.register_contender(Contender::AlwaysZero, 1);
    arena.register_contender(Contender::Rotate, 1);
    arena.add_contender(&Contender::Contract(address(1)), 2);
    arena
}

#[test]
fn the_multiplier_is_one_until_it_grows() {
    assert_eq!(multiplier(0), 1);
    assert_eq!(multiplier(10), 1);
    assert_eq!(multiplier(1800 * 7200), 1);
    assert_eq!(multiplier(1800 * 7200 + 1799), 1);
    assert_eq!(multiplier(1800 * 7201), 2);
    assert_eq!(multiplier(1800 * 7202), 3);
    assert_eq!(multiplier(1800 * 7202 + 1799), 3);
    assert_eq!(multiplier(1800 * 17199), 10_000);
    assert_eq!(multiplier(u128::MAX), u128::MAX / 1800 - 7200 + 1);
}

#[test]
fn a_ranking_has_the_most_points_first_and_the_smaller_id_among_equals() {
    assert_eq!(rank(&vec![]), vec![]);
    assert_eq!(rank(&vec![(4, -3)]), vec![(4, -3)]);
    assert_eq!(
        rank(&vec![(1, 0), (2, 5), (3, -1), (4, 5), (7, 0), (9, 6)]),
        vec![(9, 6), (2, 5), (4, 5), (1, 0), (7, 0), (3, -1)]
    );
    assert_eq!(rank(&vec![(1, 2), (2, 2), (3, 2)]), vec![(1, 2), (2, 2), (3, 2)]);
    assert_eq!(rank(&vec![(1, 1), (2, 2), (3, 3)]), vec![(3, 3), (2, 2), (1, 1)]);
}

#[test]
fn nothing_happens_off_the_cadence() {
    let mut arena = small_arena(10);
    for n in [1u128, 5, 9, 11, 19, 1801] {
        assert_eq!(arena.begin_tick(n).is_none(), true);
    }
    for n in [0u128, 10, 20, 1800, 12_961_800] {
        assert_eq!(arena.begin_tick(n).is_some(), true);
    }
    let run = run_tick(&mut arena, 7, &mut |_| output(1));
    assert_eq!(run.result.is_none(), true);
    assert_eq!(run.calls.len(), 0);
    assert_eq!(arena.contenders().len(), 4);
}

#[test]
fn a_tick_without_programs_plays_no_match() {
    let mut arena = Pallet::new(config(10));
    arena.register_contender(Contender::AlwaysZero, 2);
    arena.register_contender(Contender::Smart, 1);
    let run = run_tick(&mut arena, 10, &mut |_| output(1));
    let result = run.result.unwrap();
    assert_eq!(run.calls.len(), 0);
    assert_eq!(run.reports.len(), 0);
    assert_eq!(result.ranked_points, vec![]);
    assert_eq!(result.registered, vec![]);
    assert_eq!(result.removed, vec![]);
    assert_eq!(arena.contenders().len(), 3);
}

#[test]
fn a_tick_of_an_empty_arena_is_finished_at_once() {
    let mut arena = Pallet::new(config(10));
    let mut tournament = arena.begin_tick(0).unwrap();
    assert_eq!(tournament.finished(&arena), true);
    assert_eq!(matches!(tournament.advance(&arena), TickStep::Finished), true);
    let result = arena.conclude(0, &tournament).unwrap();
    assert_eq!(result.ranked_points, vec![]);
}

#[test]
fn a_tick_is_not_concluded_before_its_tournament_is_finished() {
    let mut arena = small_arena(10);
    let mut tournament = arena.begin_tick(10).unwrap();
    assert_eq!(tournament.finished(&arena), false);
    assert_eq!(arena.conclude(10, &tournament).is_none(), true);
    assert_eq!(matches!(tournament.advance(&arena), TickStep::Call(_)), true);
    tournament.deliver(&output(1));
    assert_eq!(arena.conclude(10, &tournament).is_none(), true);
    assert_eq!(arena.contenders().len(), 4);
    assert_eq!(arena.contract_infos(&address(1)).point, 0);
    drive(&mut arena, &mut tournament, &mut |_| output(1));
    assert_eq!(tournament.finished(&arena), true);
    assert_eq!(arena.conclude(10, &tournament).is_some(), true);
}

#[test]
fn one_program_against_the_built_in_strategies() {
    // The program always plays 1.
    //   against always-zero: (1,0) three times, all to the second side: -1
    //   against rotate: (1,0) second, (1,1) nobody, (1,2) first: a tie, +1
    //   against itself or its other instance: all ties, +1 each
    // Entry 2 leads against 0, 1, 2, 3: -1 +1 +(1+1) +1 = 3, and entry 3 gains 1.
    // Entry 3 leads against 0, 1, 2, 3: -1 +1 +1 +(1+1) = 3, and entry 2 gains 1.
    let mut arena = small_arena(10);
    let run = run_tick(&mut arena, 10, &mut |_| output(1));
    let result = run.result.unwrap();
    assert_eq!(result.ranked_points, vec![(2, 4), (3, 4)]);
    // three calls against each built-in strategy, six against a program
    assert_eq!(run.calls.len(), 2 * (3 + 3 + 6 + 6));
    assert_eq!(run.reports.len(), 8);
    let pairs: Vec<(u32, u32, Option<u32>)> =
        run.reports.iter().map(|r| (r.first, r.second, r.winner)).collect();
    assert_eq!(
        pairs,
        vec![
            (2, 0, Some(0)),
            (2, 1, None),
            (2, 2, None),
            (2, 3, None),
            (3, 0, Some(0)),
            (3, 1, None),
            (3, 2, None),
            (3, 3, None),
        ]
    );
    assert_eq!(
        run.reports[1].rounds,
        vec![
            (Word::from_u32(1), Word::from_u32(0)),
            (Word::from_u32(1), Word::from_u32(1)),
            (Word::from_u32(1), Word::from_u32(2)),
        ]
    );
    // the reputation grows by 4 + 4 at the factor 1; the best entry is promoted
    assert_eq!(
        arena.contract_infos(&address(1)),
        ContractInfo { point: 8, instance_count: 3, wins: 1 }
    );
    assert_eq!(result.registered, vec![entry(4, Contender::Contract(address(1)))]);
    assert_eq!(result.removed, vec![]);
    assert_eq!(arena.contender_instances_count(), 5);
    assert_eq!(arena.next_contender_instance_id(), 5);
    assert_eq!(
        arena.contenders(),
        &vec![
            entry(0, Contender::AlwaysZero),
            entry(1, Contender::Rotate),
            entry(2, Contender::Contract(address(1))),
            entry(3, Contender::Contract(address(1))),
            entry(4, Contender::Contract(address(1))),
        ]
    );
}

#[test]
fn the_calls_of_a_tick_come_from_the_invoker_in_the_order_of_the_pairs() {
    let mut arena = small_arena(10);
    let run = run_tick(&mut arena, 10, &mut |_| output(1));
    for call in run.calls.iter() {
        assert_eq!(call.contract, address(1));
        assert_eq!(call.sender, address(9));
        assert_eq!(call.origin, address(9));
        assert_eq!(call.gas_limit, 10_000_000);
    }
    // the first match is entry 2 against always-zero
    assert_eq!(
        run.calls[0],
        module_arena::engine::play_call(address(9), address(1), 0, Word::zero(), Word::zero())
    );
    assert_eq!(
        run.calls[1],
        module_arena::engine::play_call(address(9), address(1), 1, Word::from_u32(1), Word::zero())
    );
    // the second is against rotate, which played 1 in round 1
    assert_eq!(
        run.calls[5],
        module_arena::engine::play_call(
            address(9),
            address(1),
            2,
            Word::from_u32(1),
            Word::from_u32(1)
        )
    );
}

#[test]
fn a_failing_program_plays_zero_and_the_tick_goes_on() {
    // The program always fails, so it always plays 0.
    //   against always-zero: all ties, +1
    //   against rotate: (0,0) nobody, (0,1) first, (0,2) second: a tie, +1
    //   against itself: ties
    let mut arena = small_arena(10);
    let run = run_tick(&mut arena, 10, &mut |_| Err(ExecutionFailure));
    let result = run.result.unwrap();
    assert_eq!(run.reports.len(), 8);
    for report in run.reports.iter() {
        assert_eq!(report.winner, None);
        for (first, _) in report.rounds.iter() {
            assert_eq!(*first, Word::zero());
        }
    }
    // each entry: +1 +1 +2 +1 as the first, +1 as the second
    assert_eq!(result.ranked_points, vec![(2, 6), (3, 6)]);
    assert_eq!(arena.contract_infos(&address(1)).point, 12);
}

#[test]
fn a_program_that_fails_once_plays_zero_that_once() {
    let mut arena = Pallet::new(config(10));
    arena.register_contender(Contender::AlwaysZero, 1);
    arena.add_contender(&Contender::Contract(address(1)), 1);
    // against always-zero the program plays 2, fails, plays 2: it wins two rounds
    // against itself it plays 2 all the time: a tie
    let mut count = 0;
    let run = run_tick(&mut arena, 10, &mut |_| {
        count += 1;
        if count == 2 {
            Err(ExecutionFailure)
        } else {
            output(2)
        }
    });
    assert_eq!(
        run.reports[0].rounds,
        vec![
            (Word::from_u32(2), Word::zero()),
            (Word::zero(), Word::zero()),
            (Word::from_u32(2), Word::zero()),
        ]
    );
    assert_eq!(run.reports[0].winner, Some(1));
    assert_eq!(run.reports[1].winner, None);
    assert_eq!(run.result.unwrap().ranked_points, vec![(1, 4)]);
}

#[test]
fn a_pair_of_an_entry_with_itself_scores_twice_for_the_same_entry() {
    // one program alone: its only match is against itself, a tie: +1 and +1
    let mut arena = Pallet::new(config(10));
    arena.add_contender(&Contender::Contract(address(1)), 1);
    let run = run_tick(&mut arena, 10, &mut |_| output(1));
    assert_eq!(run.reports.len(), 1);
    assert_eq!((run.reports[0].first, run.reports[0].second), (0, 0));
    assert_eq!(run.result.unwrap().ranked_points, vec![(0, 2)]);
    assert_eq!(run.calls.len(), 6);
}

#[test]
fn a_pair_of_an_entry_with_itself_that_one_side_wins() {
    // The program plays 0, 1, 1, 2, 2, 0 in turn: as the first side 0, 1, 2 and
    // as the second 1, 2, 0. The first side takes every round: +2 and -1.
    let mut arena = Pallet::new(config(10));
    arena.add_contender(&Contender::Contract(address(1)), 1);
    let moves = [0u8, 1, 1, 2, 2, 0];
    let mut count = 0;
    let run = run_tick(&mut arena, 10, &mut |_| {
        count += 1;
        output(moves[count - 1])
    });
    assert_eq!(run.reports[0].winner, Some(0));
    assert_eq!(run.result.unwrap().ranked_points, vec![(0, 1)]);
    assert_eq!(arena.contract_infos(&address(1)).point, 1);
}

#[test]
fn the_second_side_of_a_match_scores_when_it_wins() {
    // Two programs: the first plays 1, the second plays 0; 0 beats 1.
    //   entry 0 leads: against itself a tie (+2), against entry 1 it loses (-1, +2)
    //   entry 1 leads: against entry 0 it wins (+2, -1), against itself a tie (+2)
    let mut arena = Pallet::new(config(10));
    arena.add_contender(&Contender::Contract(address(1)), 1);
    arena.add_contender(&Contender::Contract(address(2)), 1);
    let run = run_tick(&mut arena, 10, &mut |call: &EngineCall| {
        if call.contract == address(1) {
            output(1)
        } else {
            output(0)
        }
    });
    let winners: Vec<Option<u32>> = run.reports.iter().map(|r| r.winner).collect();
    assert_eq!(winners, vec![None, Some(1), Some(1), None]);
    assert_eq!(run.result.unwrap().ranked_points, vec![(1, 6), (0, 0)]);
    assert_eq!(arena.contract_infos(&address(1)).point, 0);
    assert_eq!(arena.contract_infos(&address(2)).point, 6);
    assert_eq!(arena.contract_infos(&address(2)).wins, 1);
    assert_eq!(arena.contract_infos(&address(1)).wins, 0);
}

#[test]
fn negative_points_leave_the_reputation_alone() {
    // The program plays 1 and meets always-zero three times more than itself.
    let mut arena = Pallet::new(config(10));
    arena.register_contender(Contender::AlwaysZero, 4);
    arena.add_contender(&Contender::Contract(address(1)), 1);
    let run = run_tick(&mut arena, 10, &mut |_| output(1));
    // -1 four times, +2 against itself
    assert_eq!(run.result.unwrap().ranked_points, vec![(4, -2)]);
    assert_eq!(arena.contract_infos(&address(1)).point, 0);
    // it is still the best entry of the tick
    assert_eq!(arena.contract_infos(&address(1)).wins, 1);
    assert_eq!(arena.contract_infos(&address(1)).instance_count, 2);
}

#[test]
fn points_count_by_the_multiplier_of_the_time() {
    let mut arena = small_arena(10);
    let n = 1800 * 7202;
    let run = run_tick(&mut arena, n, &mut |_| output(1));
    assert_eq!(run.result.unwrap().ranked_points, vec![(2, 4), (3, 4)]);
    assert_eq!(arena.contract_infos(&address(1)).point, 24);
    let run = run_tick(&mut arena, 1800 * 7201, &mut |_| Err(ExecutionFailure));
    // three entries now: each +1 +1 as the leader against the strategies,
    // +2 against itself, +1 +1 against the others and +1 +1 from the others
    assert_eq!(run.result.unwrap().ranked_points, vec![(2, 8), (3, 8), (4, 8)]);
    assert_eq!(arena.contract_infos(&address(1)).point, 24 + 2 * 24);
}

#[test]
fn the_reputation_stops_at_the_largest_number() {
    let mut arena = small_arena(10);
    let run = run_tick(&mut arena, u128::MAX - 5, &mut |_| output(1));
    assert_eq!(run.result.is_some(), true);
    // 4 times the multiplier fits, twice that does not
    assert_eq!(multiplier(u128::MAX - 5) > u128::MAX / 8, false);
    let first = arena.contract_infos(&address(1)).point;
    assert_eq!(first, 8 * multiplier(u128::MAX - 5));
    for _ in 0..300 {
        run_tick(&mut arena, u128::MAX - 5, &mut |_| output(1));
    }
    assert_eq!(arena.contract_infos(&address(1)).point, u128::MAX);
}

#[test]
fn the_queue_is_drained_at_the_front() {
    let mut arena = Pallet::new(config(2));
    arena.register_contender(Contender::AlwaysZero, 2);
    assert_eq!(arena.do_register_contender(Contender::Contract(address(1))), Ok(()));
    assert_eq!(arena.do_register_contender(Contender::Smart), Ok(()));
    assert_eq!(arena.contender_queue().len(), 2);
    let run = run_tick(&mut arena, 10, &mut |_| output(1));
    let result = run.result.unwrap();
    assert_eq!(result.ranked_points, vec![]);
    assert_eq!(
        result.registered,
        vec![
            entry(2, Contender::Contract(address(1))),
            entry(3, Contender::Contract(address(1))),
        ]
    );
    // nothing is ranked, so nothing can be evicted
    assert_eq!(result.removed, vec![]);
    assert_eq!(arena.contender_queue(), &vec![Contender::Smart]);
    assert_eq!(arena.contender_instances_count(), 4);
    assert_eq!(arena.contenders().len(), 4);
    assert_eq!(arena.contract_infos(&address(1)).instance_count, 2);
    assert_eq!(arena.is_known(&address(1)), true);
}

#[test]
fn the_lowest_entries_make_room() {
    // as in the tick above, with room for four entries only
    let mut arena = small_arena(4);
    let run = run_tick(&mut arena, 10, &mut |_| output(1));
    let result = run.result.unwrap();
    assert_eq!(result.ranked_points, vec![(2, 4), (3, 4)]);
    assert_eq!(result.registered, vec![entry(4, Contender::Contract(address(1)))]);
    assert_eq!(result.removed, vec![entry(3, Contender::Contract(address(1)))]);
    assert_eq!(arena.contender_instances_count(), 4);
    assert_eq!(
        arena.contenders(),
        &vec![
            entry(0, Contender::AlwaysZero),
            entry(1, Contender::Rotate),
            entry(2, Contender::Contract(address(1))),
            entry(4, Contender::Contract(address(1))),
        ]
    );
    assert_eq!(
        arena.contract_infos(&address(1)),
        ContractInfo { point: 8, instance_count: 2, wins: 1 }
    );
    assert_eq!(arena.next_contender_instance_id(), 5);
}

#[test]
fn eviction_takes_the_worst_first() {
    // Program 1 plays 1, program 2 plays 0 and beats it; room for two.
    let mut arena = Pallet::new(config(2));
    arena.add_contender(&Contender::Contract(address(1)), 2);
    arena.add_contender(&Contender::Contract(address(2)), 2);
    let run = run_tick(&mut arena, 10, &mut |call: &EngineCall| {
        if call.contract == address(1) {
            output(1)
        } else {
            output(0)
        }
    });
    let result = run.result.unwrap();
    // entries 0 and 1: +2 +1 -1 -1 as leaders, +1 -1 -1 as seconds = 0
    // entries 2 and 3: +2 +2 +2 +1 as leaders, +2 +2 +1 as seconds = 12
    assert_eq!(result.ranked_points, vec![(2, 12), (3, 12), (0, 0), (1, 0)]);
    // entry 2 is promoted: five entries, three too many
    assert_eq!(result.registered, vec![entry(4, Contender::Contract(address(2)))]);
    assert_eq!(
        result.removed,
        vec![
            entry(0, Contender::Contract(address(1))),
            entry(1, Contender::Contract(address(1))),
            entry(3, Contender::Contract(address(2))),
        ]
    );
    assert_eq!(
        arena.contenders(),
        &vec![
            entry(2, Contender::Contract(address(2))),
            entry(4, Contender::Contract(address(2))),
        ]
    );
    assert_eq!(arena.contender_instances_count(), 2);
    assert_eq!(arena.contract_infos(&address(1)).instance_count, 0);
    assert_eq!(arena.contract_infos(&address(2)).instance_count, 2);
    // a program without entries is still known
    assert_eq!(arena.is_known(&address(1)), true);
    assert_eq!(arena.owner_query(address(1)).is_err(), true);
}

#[test]
fn built_in_strategies_above_the_limit_cannot_be_evicted() {
    let mut arena = Pallet::new(config(2));
    arena.register_contender(Contender::Rotate, 5);
    let run = run_tick(&mut arena, 10, &mut |_| output(1));
    let result = run.result.unwrap();
    assert_eq!(result.removed, vec![]);
    assert_eq!(arena.contenders().len(), 5);
    assert_eq!(arena.contender_instances_count(), 5);
}

#[test]
fn ids_are_never_used_again() {
    let mut arena = small_arena(4);
    run_tick(&mut arena, 10, &mut |_| output(1));
    assert_eq!(arena.next_contender_instance_id(), 5);
    run_tick(&mut arena, 20, &mut |_| output(1));
    // entry 2 is best again; the program is at two instances and gains one
    assert_eq!(arena.next_contender_instance_id(), 6);
    let ids: Vec<u32> = arena.contenders().iter().map(|e| e.id).collect();
    assert_eq!(ids, vec![0, 1, 2, 5]);
    assert_eq!(arena.contender_instances_count(), 4);
    assert_eq!(arena.contract_infos(&address(1)).instance_count, 2);
    assert_eq!(arena.contract_infos(&address(1)).wins, 2);
}

#[test]
fn evolution_on_a_ranking_of_ones_own() {
    let mut arena = Pallet::new(config(3));
    arena.add_contender(&Contender::Contract(address(1)), 2);
    arena.add_contender(&Contender::Contract(address(2)), 2);
    arena.register_contender(Contender::Smart, 1);
    assert_eq!(arena.do_register_contender(Contender::Rotate), Ok(()));
    // the winner 7 is no entry; among the last three, 9 is none either
    let changes = arena.evolve(&vec![(7, 9), (1, 5), (2, 4), (9, 3), (3, 1)]);
    assert_eq!(
        changes.registered,
        vec![entry(5, Contender::Rotate), entry(6, Contender::Rotate)]
    );
    // seven entries, four too many: the last four of the ranking go, as far as they exist
    assert_eq!(
        changes.removed,
        vec![
            entry(1, Contender::Contract(address(1))),
            entry(2, Contender::Contract(address(2))),
            entry(3, Contender::Contract(address(2))),
        ]
    );
    assert_eq!(arena.contender_instances_count(), 4);
    assert_eq!(arena.contenders().len(), 4);
    assert_eq!(arena.contract_infos(&address(1)).instance_count, 1);
    assert_eq!(arena.contract_infos(&address(2)).instance_count, 0);
    assert_eq!(arena.contract_infos(&address(1)).wins, 0);
    assert_eq!(arena.contender_queue().len(), 0);
}

#[test]
fn a_built_in_winner_is_promoted_without_a_win() {
    let mut arena = Pallet::new(config(10));
    arena.register_contender(Contender::Smart, 1);
    arena.add_contender(&Contender::Contract(address(1)), 1);
    arena.promote_winners(&vec![(0, 3), (1, 2)]);
    assert_eq!(
        arena.contenders(),
        &vec![
            entry(0, Contender::Smart),
            entry(1, Contender::Contract(address(1))),
            entry(2, Contender::Smart),
        ]
    );
    assert_eq!(arena.contract_infos(&address(1)).wins, 0);
}

#[test]
fn credit_skips_what_is_no_program_entry() {
    let mut arena = Pallet::new(config(10));
    arena.register_contender(Contender::Smart, 1);
    arena.add_contender(&Contender::Contract(address(1)), 1);
    arena.credit(&vec![(0, 5), (1, 3), (1, -2), (1, 0), (6, 4)], 1800 * 7201);
    assert_eq!(arena.contract_infos(&address(1)).point, 6);
    assert_eq!(arena.contenders().len(), 2);
}

#[test]
fn a_short_queue_is_drained_whole() {
    let mut limits = config(2);
    limits.enqueue_count = 5;
    limits.max_queue_size = 3;
    let mut arena = Pallet::new(limits);
    arena.register_contender(Contender::AlwaysZero, 2);
    assert_eq!(arena.do_register_contender(Contender::Smart), Ok(()));
    assert_eq!(arena.do_register_contender(Contender::Contract(address(1))), Ok(()));
    assert_eq!(arena.contender_queue().len(), 2);
    arena.drain_queue();
    assert_eq!(arena.contender_queue().len(), 0);
    assert_eq!(
        arena.contenders(),
        &vec![
            entry(0, Contender::AlwaysZero),
            entry(1, Contender::AlwaysZero),
            entry(2, Contender::Smart),
            entry(3, Contender::Smart),
            entry(4, Contender::Contract(address(1))),
            entry(5, Contender::Contract(address(1))),
        ]
    );
    assert_eq!(arena.contender_instances_count(), 6);
}

#[test]
fn no_contender_leaves_the_queue_when_none_may() {
    let mut limits = config(1);
    limits.enqueue_count = 0;
    let mut arena = Pallet::new(limits);
    arena.register_contender(Contender::AlwaysZero, 1);
    assert_eq!(arena.do_register_contender(Contender::Smart), Ok(()));
    arena.drain_queue();
    assert_eq!(arena.contender_queue(), &vec![Contender::Smart]);
    assert_eq!(arena.contenders().len(), 1);
}

#[test]
fn the_roster_is_looked_up_by_id() {
    let arena = small_arena(10);
    assert_eq!(arena.contender(0), Some(Contender::AlwaysZero));
    assert_eq!(arena.contender(1), Some(Contender::Rotate));
    assert_eq!(arena.contender(3), Some(Contender::Contract(address(1))));
    assert_eq!(arena.contender(4), None);
    assert_eq!(arena.contender(u32::MAX), None);
}

#[test]
fn the_points_of_a_tournament_under_way() {
    let mut arena = small_arena(10);
    let mut tournament = arena.begin_tick(10).unwrap();
    assert_eq!(tournament.points(&arena), vec![(2, 0), (3, 0)]);
    // the first match: entry 2 loses to always-zero
    for _ in 0..3 {
        assert_eq!(matches!(tournament.advance(&arena), TickStep::Call(_)), true);
        // asking again without a reply asks the same
        assert_eq!(matches!(tournament.advance(&arena), TickStep::Call(_)), true);
        tournament.deliver(&output(1));
    }
    assert_eq!(matches!(tournament.advance(&arena), TickStep::MatchEnded(_)), true);
    assert_eq!(tournament.points(&arena), vec![(2, -1), (3, 0)]);
    assert_eq!(tournament.finished(&arena), false);
    drive(&mut arena, &mut tournament, &mut |_| output(1));
    assert_eq!(tournament.points(&arena), vec![(2, 4), (3, 4)]);
    assert_eq!(matches!(tournament.advance(&arena), TickStep::Finished), true);
    assert_eq!(tournament.points(&arena), vec![(2, 4), (3, 4)]);
}

#[test]
fn there_are_ids_for_a_tick() {
    let arena = small_arena(10);
    assert_eq!(arena.has_ids_for_tick(0), true);
    assert_eq!(arena.has_ids_for_tick(2), true);
    assert_eq!(arena.has_ids_for_tick(usize::MAX), true);
    assert_eq!(arena.has_ids_for(&Contender::Smart, 5), true);
    assert_eq!(arena.has_ids_for(&Contender::Smart, u32::MAX - 4), true);
    assert_eq!(arena.has_ids_for(&Contender::Smart, u32::MAX - 3), false);
    // a program is granted three instances at most
    assert_eq!(arena.has_ids_for(&Contender::Contract(address(1)), u32::MAX), true);
    assert_eq!(arena.has_ids_for(&Contender::Contract(address(2)), u32::MAX), true);
}

#[test]
fn over_many_ticks_the_invariants_hold_and_reputation_never_falls() {
    let mut limits = config(6);
    limits.winner_count = 2;
    limits.max_queue_size = 3;
    let mut arena = Pallet::new(limits);
    arena.register_contender(Contender::Smart, 1);
    arena.register_contender(Contender::Rotate, 1);
    for byte in 1..=4u8 {
        assert_eq!(arena.do_register_contender(Contender::Contract(address(byte))), Ok(()));
    }
    let mut reputations = [0u128; 5];
    for tick in 0..12u128 {
        let n = 1800 * 7200 + tick * 1800;
        let mut calls = 0u32;
        let run = run_tick(&mut arena, n, &mut |call: &EngineCall| {
            calls += 1;
            if calls % 7 == 0 {
                Err(ExecutionFailure)
            } else {
                output((call.contract.bytes[0] as u32 * 5 + calls % 3) as u8)
            }
        });
        assert_eq!(run.result.is_some(), true);
        // the counter is the length of the roster, within the limit
        assert_eq!(arena.contender_instances_count() as usize, arena.contenders().len());
        assert_eq!(arena.contenders().len() <= 6, true);
        assert_eq!(arena.contender_queue().len() <= 3, true);
        // the ids ascend below the next id
        let ids: Vec<u32> = arena.contenders().iter().map(|e| e.id).collect();
        for pair in ids.windows(2) {
            assert_eq!(pair[0] < pair[1], true);
        }
        for id in ids.iter() {
            assert_eq!(*id < arena.next_contender_instance_id(), true);
        }
        for byte in 1..=4u8 {
            let info = arena.contract_infos(&address(byte));
            let held = arena
                .contenders()
                .iter()
                .filter(|e| e.contender == Contender::Contract(address(byte)))
                .count();
            assert_eq!(info.instance_count as usize, held);
            assert_eq!(info.instance_count <= 3, true);
            assert_eq!(info.point >= reputations[byte as usize], true);
            reputations[byte as usize] = info.point;
        }
    }
    assert_eq!(reputations.iter().any(|r| *r > 0), true);
}

#[test]
fn a_tick_run_in_one_go_is_the_tick_driven_step_by_step() {
    let mut driven = small_arena(4);
    let stepwise = run_tick(&mut driven, 10, &mut |_| output(1));
    let mut arena = small_arena(4);
    let calls = std::cell::Cell::new(0u32);
    let run = arena
        .on_initialize(10, |_call: &EngineCall| {
            calls.set(calls.get() + 1);
            output(1)
        })
        .unwrap();
    assert_eq!(calls.get(), 36);
    let result = stepwise.result.unwrap();
    assert_eq!(run.result.ranked_points, result.ranked_points);
    assert_eq!(run.result.ranked_points, vec![(2, 4), (3, 4)]);
    assert_eq!(run.result.registered, result.registered);
    assert_eq!(run.result.removed, vec![entry(3, Contender::Contract(address(1)))]);
    assert_eq!(run.matches.len(), 8);
    assert_eq!(run.matches[0].winner, Some(0));
    assert_eq!(arena.contenders(), driven.contenders());
    assert_eq!(arena.contract_infos(&address(1)), driven.contract_infos(&address(1)));
}

#[test]
fn a_tick_run_in_one_go_does_nothing_off_the_cadence() {
    let mut arena = small_arena(4);
    assert_eq!(arena.on_initialize(11, |_call: &EngineCall| output(1)).is_none(), true);
    assert_eq!(arena.contenders().len(), 4);
    assert_eq!(arena.contract_infos(&address(1)).point, 0);
}

#[test]
fn a_tick_run_in_one_go_outlasts_an_engine_that_always_fails() {
    let mut arena = small_arena(10);
    let run = arena.on_initialize(20, |_call: &EngineCall| Err(ExecutionFailure)).unwrap();
    assert_eq!(run.matches.len(), 8);
    assert_eq!(run.result.ranked_points, vec![(2, 6), (3, 6)]);
}

#[test]
fn the_entries_that_a_tick_ranks_are_the_programs_entries() {
    assert_eq!(Pallet::new(config(10)).program_entries(), 0);
    let mut arena = small_arena(10);
    assert_eq!(arena.program_entries(), 2);
    arena.add_contender(&Contender::Contract(address(2)), 3);
    arena.register_contender(Contender::Smart, 4);
    assert_eq!(arena.program_entries(), 5);
    assert_eq!(arena.has_ids_for_tick(arena.program_entries()), true);
}
