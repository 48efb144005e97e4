use module_arena::{
    Address, Config, Contender, EngineCall, Pallet, PlayStatus, Turn, Winner, Word,
};

fn address(byte: u8) -> Address {
    Address { bytes: [byte; 20] }
}

fn arena(play_per_round: u32) -> Pallet {
    Pallet::new(Config {
        play_per_round,
        max_contender_instances_count: 10,
        max_queue_size: 2,
        winner_count: 1,
        enqueue_count: 1,
        max_instances_per_contender: 3,
        contract_invoker: address(9),
    })
}

fn words(values: &[u32]) -> Vec<Word> {
    values.iter().map(|v| Word::from_u32(*v)).collect()
}

fn the_move(turn: Turn) -> Word {
    match turn {
        Turn::Move(word) => word,
        Turn::Ask(_) => panic!("a built-in strategy asks nobody"),
    }
}

fn the_call(turn: Turn) -> EngineCall {
    match turn {
        Turn::Ask(call) => call,
        Turn::Move(_) => panic!("a program does not move by itself"),
    }
}

fn decided(status: PlayStatus) -> (Option<Winner>, Vec<(Word, Word)>) {
    match status {
        PlayStatus::Decided(result) => (result.winner, result.rounds),
        PlayStatus::Pending(_) => panic!("the match is not decided"),
    }
}

fn pending(status: PlayStatus) -> EngineCall {
    match status {
        PlayStatus::Pending(call) => call,
        PlayStatus::Decided(_) => panic!("the match is decided"),
    }
}

#[test]
fn always_zero_plays_zero() {
    let arena = arena(3);
    for round in 0..5 {
        let turn = arena.turn(
            &Contender::AlwaysZero,
            round,
            Word::from_u32(4),
            Word::from_u32(5),
        );
        assert_eq!(the_move(turn), Word::zero());
    }
}

#[test]
fn rotate_plays_the_round() {
    let arena = arena(3);
    for round in [0u32, 1, 2, 3, 77, u32::MAX] {
        let turn =
            arena.turn(&Contender::Rotate, round, Word::from_u32(4), Word::from_u32(5));
        assert_eq!(the_move(turn), Word::from_u32(round));
    }
}

#[test]
fn smart_answers_the_opponents_previous_move() {
    let arena = arena(3);
    for (other, expected) in [(0u32, 2u32), (1, 3), (2, 4), (3, 2), (4, 3), (5, 4), (100, 3)] {
        let turn =
            arena.turn(&Contender::Smart, 1, Word::from_u32(9), Word::from_u32(other));
        assert_eq!(the_move(turn), Word::from_u32(expected));
    }
    // 2^256 - 1 is a multiple of three
    let turn =
        arena.turn(&Contender::Smart, 1, Word::zero(), Word { limbs: [u64::MAX; 4] });
    assert_eq!(the_move(turn), Word::from_u32(2));
}

#[test]
fn a_program_is_asked_through_the_engine() {
    let arena = arena(3);
    let turn = arena.turn(
        &Contender::Contract(address(4)),
        2,
        Word::from_u32(1),
        Word::from_u32(6),
    );
    let call = the_call(turn);
    assert_eq!(
        call,
        module_arena::engine::play_call(
            address(9),
            address(4),
            2,
            Word::from_u32(1),
            Word::from_u32(6)
        )
    );
    assert_eq!(call.sender, address(9));
    assert_eq!(call.contract, address(4));
}

#[test]
fn always_zero_against_rotate_is_a_tie() {
    let arena = arena(3);
    let (winner, rounds) =
        decided(arena.replay(&Contender::AlwaysZero, &Contender::Rotate, &Vec::new()));
    assert_eq!(winner, None);
    assert_eq!(
        rounds,
        vec![
            (Word::zero(), Word::from_u32(0)),
            (Word::zero(), Word::from_u32(1)),
            (Word::zero(), Word::from_u32(2)),
        ]
    );
}

#[test]
fn rotate_against_always_zero_is_a_tie() {
    let arena = arena(3);
    let (winner, _) = decided(arena.replay(&Contender::Rotate, &Contender::AlwaysZero, &Vec::new()));
    assert_eq!(winner, None);
}

#[test]
fn two_rounds_of_always_zero_against_rotate_go_to_rotate() {
    // (0,0) is nobody's, (0,1) is the first side's: 0 beats 1
    let arena = arena(2);
    let (winner, rounds) =
        decided(arena.replay(&Contender::AlwaysZero, &Contender::Rotate, &Vec::new()));
    assert_eq!(rounds.len(), 2);
    assert_eq!(winner, Some(Winner::A));
}

#[test]
fn the_beats_relation() {
    // one round between two programs, each pair of moves
    let arena = arena(1);
    let a = Contender::Contract(address(1));
    let b = Contender::Contract(address(2));
    let cases = [
        (0u32, 0u32, None),
        (0, 1, Some(Winner::A)),
        (0, 2, Some(Winner::B)),
        (1, 0, Some(Winner::B)),
        (1, 1, None),
        (1, 2, Some(Winner::A)),
        (2, 0, Some(Winner::A)),
        (2, 1, Some(Winner::B)),
        (2, 2, None),
        (3, 4, Some(Winner::A)),
        (5, 3, Some(Winner::A)),
        (7, 9, Some(Winner::B)),
        (6, 9, None),
    ];
    for (play_a, play_b, expected) in cases {
        let (winner, rounds) = decided(arena.replay(&a, &b, &words(&[play_a, play_b])));
        assert_eq!(winner, expected, "{} against {}", play_a, play_b);
        assert_eq!(rounds, vec![(Word::from_u32(play_a), Word::from_u32(play_b))]);
    }
}

#[test]
fn smart_against_rotate() {
    // smart: 2, 0%3+2=2, 1%3+2=3; rotate: 0, 1, 2
    // (2,0): first; (2,1): second; (3,2) = (0,2): second
    let arena = arena(3);
    let (winner, rounds) = decided(arena.replay(&Contender::Smart, &Contender::Rotate, &Vec::new()));
    assert_eq!(
        rounds,
        vec![
            (Word::from_u32(2), Word::from_u32(0)),
            (Word::from_u32(2), Word::from_u32(1)),
            (Word::from_u32(3), Word::from_u32(2)),
        ]
    );
    assert_eq!(winner, Some(Winner::B));
}

#[test]
fn no_rounds_no_winner() {
    let arena = arena(0);
    let (winner, rounds) = decided(arena.replay(
        &Contender::Contract(address(1)),
        &Contender::Smart,
        &Vec::new(),
    ));
    assert_eq!(winner, None);
    assert_eq!(rounds, Vec::new());
}

#[test]
fn a_match_with_a_program_waits_for_each_reply() {
    let arena = arena(3);
    let program = Contender::Contract(address(4));
    // round 0: both previous moves are zero
    let call = pending(arena.replay(&program, &Contender::Rotate, &Vec::new()));
    assert_eq!(
        call,
        module_arena::engine::play_call(address(9), address(4), 0, Word::zero(), Word::zero())
    );
    // round 1: the program played 5, rotate played 0
    let call = pending(arena.replay(&program, &Contender::Rotate, &words(&[5])));
    assert_eq!(
        call,
        module_arena::engine::play_call(address(9), address(4), 1, Word::from_u32(5), Word::zero())
    );
    // round 2: the program played 7, rotate played 1
    let call = pending(arena.replay(&program, &Contender::Rotate, &words(&[5, 7])));
    assert_eq!(
        call,
        module_arena::engine::play_call(
            address(9),
            address(4),
            2,
            Word::from_u32(7),
            Word::from_u32(1)
        )
    );
    // (5,0) = (2,0): first; (7,1) = (1,1): nobody; (1,2): first
    let (winner, rounds) = decided(arena.replay(&program, &Contender::Rotate, &words(&[5, 7, 1])));
    assert_eq!(winner, Some(Winner::A));
    assert_eq!(
        rounds,
        vec![
            (Word::from_u32(5), Word::from_u32(0)),
            (Word::from_u32(7), Word::from_u32(1)),
            (Word::from_u32(1), Word::from_u32(2)),
        ]
    );
}

#[test]
fn the_second_side_sees_the_previous_round_only() {
    let arena = arena(2);
    let a = Contender::Contract(address(1));
    let b = Contender::Contract(address(2));
    // round 0: the second program is asked with both previous moves zero,
    // though the first has already moved in this round
    let call = pending(arena.replay(&a, &b, &words(&[8])));
    assert_eq!(
        call,
        module_arena::engine::play_call(address(9), address(2), 0, Word::zero(), Word::zero())
    );
    // round 1: the first is asked with its own move first
    let call = pending(arena.replay(&a, &b, &words(&[8, 6])));
    assert_eq!(
        call,
        module_arena::engine::play_call(
            address(9),
            address(1),
            1,
            Word::from_u32(8),
            Word::from_u32(6)
        )
    );
    // round 1: the second is asked with its own move first
    let call = pending(arena.replay(&a, &b, &words(&[8, 6, 1])));
    assert_eq!(
        call,
        module_arena::engine::play_call(
            address(9),
            address(2),
            1,
            Word::from_u32(6),
            Word::from_u32(8)
        )
    );
}

#[test]
fn replies_beyond_the_match_change_nothing() {
    let arena = arena(1);
    let a = Contender::Contract(address(1));
    let (winner, rounds) = decided(arena.replay(&a, &Contender::AlwaysZero, &words(&[2, 1, 1, 1])));
    assert_eq!(winner, Some(Winner::A));
    assert_eq!(rounds, vec![(Word::from_u32(2), Word::zero())]);
}

#[test]
fn a_match_is_the_same_whenever_it_is_played() {
    let arena = arena(3);
    let a = Contender::Contract(address(1));
    let b = Contender::Contract(address(2));
    let replies = words(&[1, 2, 2, 2, 0, 1]);
    let first = decided(arena.replay(&a, &b, &replies));
    let second = decided(arena.replay(&a, &b, &replies));
    assert_eq!(first, second);
    // (1,2): first; (2,2): nobody; (0,1): first
    assert_eq!(first.0, Some(Winner::A));
}

fn output(value: u8) -> module_arena::Reply {
    let mut bytes = vec![0u8; 32];
    bytes[31] = value;
    Ok(bytes)
}

fn no_engine(_call: &EngineCall) -> module_arena::Reply {
    panic!("no program is at play")
}

#[test]
fn always_zero_against_rotate_over_three_rounds() {
    let arena = arena(3);
    let result = arena.play(&Contender::AlwaysZero, &Contender::Rotate, no_engine);
    assert_eq!(result.winner, None);
    assert_eq!(
        result.rounds,
        vec![
            (Word::zero(), Word::from_u32(0)),
            (Word::zero(), Word::from_u32(1)),
            (Word::zero(), Word::from_u32(2)),
        ]
    );
}

#[test]
fn a_built_in_strategy_moves_without_the_engine() {
    let arena = arena(3);
    let play =
        arena.contender_play(&Contender::Smart, 2, Word::from_u32(1), Word::from_u32(7), no_engine);
    assert_eq!(play, Word::from_u32(3));
    let play =
        arena.contender_play(&Contender::Rotate, 9, Word::from_u32(1), Word::from_u32(7), no_engine);
    assert_eq!(play, Word::from_u32(9));
    let play = arena.contender_play(
        &Contender::AlwaysZero,
        9,
        Word::from_u32(1),
        Word::from_u32(7),
        no_engine,
    );
    assert_eq!(play, Word::zero());
}

#[test]
fn a_program_moves_as_the_engine_replies() {
    let arena = arena(3);
    let program = Contender::Contract(address(4));
    let asked = std::cell::RefCell::new(Vec::new());
    let play = arena.contender_play(
        &program,
        2,
        Word::from_u32(1),
        Word::from_u32(6),
        |call: &EngineCall| {
            asked.borrow_mut().push(call.clone());
            output(8)
        },
    );
    assert_eq!(play, Word::from_u32(8));
    assert_eq!(
        *asked.borrow(),
        vec![module_arena::engine::play_call(
            address(9),
            address(4),
            2,
            Word::from_u32(1),
            Word::from_u32(6)
        )]
    );
    let failed = arena.contender_play(
        &program,
        2,
        Word::from_u32(1),
        Word::from_u32(6),
        |_call: &EngineCall| Err(module_arena::ExecutionFailure),
    );
    assert_eq!(failed, Word::zero());
}

#[test]
fn a_match_between_programs_with_an_engine() {
    // the first program plays 1, 2, 0 and the second 2, 2, 1:
    // (1,2): first; (2,2): nobody; (0,1): first
    let arena = arena(3);
    let a = Contender::Contract(address(1));
    let b = Contender::Contract(address(2));
    let count = std::cell::Cell::new(0usize);
    let moves = [1u8, 2, 2, 2, 0, 1];
    let result = arena.play(&a, &b, |call: &EngineCall| {
        let turn = count.get();
        count.set(turn + 1);
        // the first side is asked first in every round
        assert_eq!(call.contract, if turn % 2 == 0 { address(1) } else { address(2) });
        output(moves[turn])
    });
    assert_eq!(count.get(), 6);
    assert_eq!(result.winner, Some(Winner::A));
    assert_eq!(
        result.rounds,
        vec![
            (Word::from_u32(1), Word::from_u32(2)),
            (Word::from_u32(2), Word::from_u32(2)),
            (Word::from_u32(0), Word::from_u32(1)),
        ]
    );
}

#[test]
fn a_match_with_a_program_that_always_fails() {
    // the program plays 0 throughout; smart answers 2, 2, 2: 2 beats 0
    let arena = arena(3);
    let program = Contender::Contract(address(1));
    let result =
        arena.play(&program, &Contender::Smart, |_call: &EngineCall| Err(module_arena::ExecutionFailure));
    assert_eq!(result.winner, Some(Winner::B));
    assert_eq!(
        result.rounds,
        vec![
            (Word::zero(), Word::from_u32(2)),
            (Word::zero(), Word::from_u32(2)),
            (Word::zero(), Word::from_u32(2)),
        ]
    );
}
