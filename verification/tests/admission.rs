use module_arena::{
    AccountId, Address, Config, Contender, ContractInfo, Error, ExecutionMode, Pallet, RosterEntry,
};

fn address(byte: u8) -> Address {
    Address { bytes: [byte; 20] }
}

fn account(byte: u8) -> AccountId {
    AccountId { bytes: [byte; 32] }
}

fn config() -> Config {
    Config {
        play_per_round: 3,
        max_contender_instances_count: 4,
        max_queue_size: 2,
        winner_count: 1,
        enqueue_count: 1,
        max_instances_per_contender: 3,
        contract_invoker: address(9),
    }
}

fn entry(id: u32, contender: Contender) -> RosterEntry {
    RosterEntry { id, contender }
}

#[test]
fn a_new_arena_is_empty() {
    let arena = Pallet::new(config());
    assert_eq!(arena.config(), config());
    assert_eq!(arena.contenders().len(), 0);
    assert_eq!(arena.contender_queue().len(), 0);
    assert_eq!(arena.contender_instances_count(), 0);
    assert_eq!(arena.next_contender_instance_id(), 0);
    assert_eq!(arena.is_known(&address(1)), false);
    assert_eq!(arena.contract_infos(&address(1)), ContractInfo::default());
    assert_eq!(
        ContractInfo::default(),
        ContractInfo { point: 0, instance_count: 0, wins: 0 }
    );
}

#[test]
fn built_in_strategies_get_what_they_ask_for() {
    let mut arena = Pallet::new(config());
    assert_eq!(arena.add_contender(&Contender::Rotate, 5), 5);
    assert_eq!(arena.contender_instances_count(), 5);
    assert_eq!(arena.next_contender_instance_id(), 5);
    assert_eq!(
        arena.contenders(),
        &vec![
            entry(0, Contender::Rotate),
            entry(1, Contender::Rotate),
            entry(2, Contender::Rotate),
            entry(3, Contender::Rotate),
            entry(4, Contender::Rotate),
        ]
    );
    arena.register_contender(Contender::Smart, 1);
    assert_eq!(arena.contenders().len(), 6);
    assert_eq!(arena.contenders()[5], entry(5, Contender::Smart));
    assert_eq!(arena.contender_instances_count(), 6);
}

#[test]
fn a_program_is_held_to_its_cap() {
    let mut arena = Pallet::new(config());
    let program = Contender::Contract(address(1));
    assert_eq!(arena.add_contender(&program, 2), 2);
    assert_eq!(
        arena.contract_infos(&address(1)),
        ContractInfo { point: 0, instance_count: 2, wins: 0 }
    );
    assert_eq!(arena.add_contender(&program, 2), 1);
    assert_eq!(arena.contract_infos(&address(1)).instance_count, 3);
    assert_eq!(arena.contenders().len(), 3);
    assert_eq!(arena.next_contender_instance_id(), 3);
    // at the cap nothing is created and no id is used
    assert_eq!(arena.add_contender(&program, 1), 0);
    assert_eq!(arena.contract_infos(&address(1)).instance_count, 3);
    assert_eq!(arena.contenders().len(), 3);
    assert_eq!(arena.contender_instances_count(), 3);
    assert_eq!(arena.next_contender_instance_id(), 3);
    // another program has a cap of its own
    assert_eq!(arena.add_contender(&Contender::Contract(address(2)), 7), 3);
    assert_eq!(arena.contract_infos(&address(2)).instance_count, 3);
    assert_eq!(arena.contenders()[3], entry(3, Contender::Contract(address(2))));
    assert_eq!(arena.contenders()[5], entry(5, Contender::Contract(address(2))));
}

#[test]
fn asking_for_nothing_changes_nothing() {
    let mut arena = Pallet::new(config());
    assert_eq!(arena.add_contender(&Contender::AlwaysZero, 0), 0);
    assert_eq!(arena.contenders().len(), 0);
    assert_eq!(arena.next_contender_instance_id(), 0);
    assert_eq!(arena.add_contender(&Contender::Contract(address(1)), 0), 0);
    assert_eq!(arena.contenders().len(), 0);
    assert_eq!(arena.next_contender_instance_id(), 0);
    // the program is known from its first admission on
    assert_eq!(arena.is_known(&address(1)), true);
    assert_eq!(arena.contract_infos(&address(1)), ContractInfo::default());
}

#[test]
fn with_room_a_contender_joins_with_two_instances() {
    let mut arena = Pallet::new(config());
    assert_eq!(arena.do_register_contender(Contender::Contract(address(1))), Ok(()));
    assert_eq!(arena.contender_instances_count(), 2);
    assert_eq!(arena.contender_queue().len(), 0);
    assert_eq!(arena.do_register_contender(Contender::Smart), Ok(()));
    assert_eq!(arena.contender_instances_count(), 4);
    assert_eq!(
        arena.contenders(),
        &vec![
            entry(0, Contender::Contract(address(1))),
            entry(1, Contender::Contract(address(1))),
            entry(2, Contender::Smart),
            entry(3, Contender::Smart),
        ]
    );
}

#[test]
fn one_free_place_is_room_for_two() {
    let mut arena = Pallet::new(config());
    arena.register_contender(Contender::Rotate, 3);
    assert_eq!(arena.do_register_contender(Contender::Smart), Ok(()));
    assert_eq!(arena.contender_instances_count(), 5);
    assert_eq!(arena.contender_queue().len(), 0);
}

#[test]
fn without_room_a_contender_waits_and_a_full_queue_turns_it_down() {
    let mut arena = Pallet::new(config());
    arena.register_contender(Contender::Rotate, 4);
    assert_eq!(arena.do_register_contender(Contender::Contract(address(1))), Ok(()));
    assert_eq!(arena.do_register_contender(Contender::Contract(address(2))), Ok(()));
    assert_eq!(
        arena.contender_queue(),
        &vec![Contender::Contract(address(1)), Contender::Contract(address(2))]
    );
    assert_eq!(arena.contender_instances_count(), 4);
    assert_eq!(arena.is_known(&address(1)), false);
    assert_eq!(
        arena.do_register_contender(Contender::Contract(address(3))),
        Err(Error::QueueFull)
    );
    assert_eq!(
        arena.contender_queue(),
        &vec![Contender::Contract(address(1)), Contender::Contract(address(2))]
    );
    assert_eq!(arena.contender_instances_count(), 4);
    assert_eq!(arena.contenders().len(), 4);
    assert_eq!(arena.next_contender_instance_id(), 4);
}

#[test]
fn the_owner_query_is_for_unknown_programs() {
    let mut arena = Pallet::new(config());
    let call = arena.owner_query(address(1)).unwrap();
    assert_eq!(call, module_arena::engine::owner_call(address(1)));
    assert_eq!(call.mode, ExecutionMode::View);
    arena.add_contender(&Contender::Contract(address(1)), 1);
    assert_eq!(arena.owner_query(address(1)), Err(Error::AlreadyRegistered));
    assert_eq!(arena.owner_query(address(2)).is_ok(), true);
}

#[test]
fn the_owner_registers_a_program() {
    let mut arena = Pallet::new(config());
    assert_eq!(arena.complete_registration(&account(5), address(1), &account(5)), Ok(()));
    assert_eq!(arena.is_known(&address(1)), true);
    assert_eq!(arena.contract_infos(&address(1)).instance_count, 2);
    assert_eq!(
        arena.contenders(),
        &vec![
            entry(0, Contender::Contract(address(1))),
            entry(1, Contender::Contract(address(1))),
        ]
    );
}

#[test]
fn a_stranger_registers_nothing() {
    let mut arena = Pallet::new(config());
    assert_eq!(arena.complete_registration(&account(5), address(1), &account(6)), Err(Error::InvalidOwner));
    assert_eq!(arena.is_known(&address(1)), false);
    assert_eq!(arena.contenders().len(), 0);
    assert_eq!(arena.contender_queue().len(), 0);
    let mut other = [5u8; 32];
    other[31] = 4;
    assert_eq!(
        arena.complete_registration(&account(5), address(1), &AccountId { bytes: other }),
        Err(Error::InvalidOwner)
    );
}

#[test]
fn a_known_program_is_not_registered_again() {
    let mut arena = Pallet::new(config());
    assert_eq!(arena.complete_registration(&account(5), address(1), &account(5)), Ok(()));
    assert_eq!(
        arena.complete_registration(&account(5), address(1), &account(5)),
        Err(Error::AlreadyRegistered)
    );
    // known comes before the owner
    assert_eq!(
        arena.complete_registration(&account(5), address(1), &account(6)),
        Err(Error::AlreadyRegistered)
    );
    assert_eq!(arena.contender_instances_count(), 2);
    assert_eq!(arena.contract_infos(&address(1)).instance_count, 2);
}

#[test]
fn registration_waits_in_the_queue_and_fails_when_it_is_full() {
    let mut arena = Pallet::new(config());
    arena.register_contender(Contender::Rotate, 4);
    assert_eq!(arena.complete_registration(&account(5), address(1), &account(5)), Ok(()));
    // a program that waits is not known yet
    assert_eq!(arena.complete_registration(&account(5), address(1), &account(5)), Ok(()));
    assert_eq!(arena.complete_registration(&account(5), address(2), &account(5)), Err(Error::QueueFull));
    assert_eq!(
        arena.contender_queue(),
        &vec![Contender::Contract(address(1)), Contender::Contract(address(1))]
    );
}

fn owner_reply(owner: Address) -> module_arena::Reply {
    let mut output = vec![0u8; 12];
    output.extend_from_slice(&owner.bytes);
    Ok(output)
}

/// The account of an address: its first byte, 32 times.
fn account_of(address: &Address) -> AccountId {
    account(address.bytes[0])
}

#[test]
fn registration_asks_the_program_for_its_owner() {
    let mut arena = Pallet::new(config());
    let asked = std::cell::RefCell::new(Vec::new());
    let result = arena.register(
        &account(7),
        address(1),
        |call: &module_arena::EngineCall| {
            asked.borrow_mut().push(call.clone());
            owner_reply(address(7))
        },
        account_of,
    );
    assert_eq!(result, Ok(()));
    assert_eq!(asked.borrow().len(), 1);
    assert_eq!(asked.borrow()[0], module_arena::engine::owner_call(address(1)));
    assert_eq!(arena.is_known(&address(1)), true);
    assert_eq!(arena.contract_infos(&address(1)).instance_count, 2);
    assert_eq!(arena.contenders().len(), 2);
}

#[test]
fn registration_by_another_than_the_owner_fails() {
    let mut arena = Pallet::new(config());
    let result = arena.register(
        &account(7),
        address(1),
        |_call: &module_arena::EngineCall| owner_reply(address(8)),
        account_of,
    );
    assert_eq!(result, Err(Error::InvalidOwner));
    assert_eq!(arena.is_known(&address(1)), false);
    assert_eq!(arena.contenders().len(), 0);
}

#[test]
fn registration_fails_when_the_program_names_no_owner() {
    let mut arena = Pallet::new(config());
    let failed: module_arena::Reply = Err(module_arena::ExecutionFailure);
    for reply in [failed, Ok(vec![]), Ok(vec![7; 31])] {
        let result = arena.register(
            &account(7),
            address(1),
            |_call: &module_arena::EngineCall| reply.clone(),
            account_of,
        );
        assert_eq!(result, Err(Error::InvalidOwner));
        assert_eq!(arena.is_known(&address(1)), false);
        assert_eq!(arena.contender_queue().len(), 0);
    }
}

#[test]
fn registration_of_a_known_program_asks_nobody() {
    let mut arena = Pallet::new(config());
    arena.add_contender(&Contender::Contract(address(1)), 1);
    let asked = std::cell::Cell::new(0u32);
    let result = arena.register(
        &account(7),
        address(1),
        |_call: &module_arena::EngineCall| {
            asked.set(asked.get() + 1);
            owner_reply(address(7))
        },
        account_of,
    );
    assert_eq!(result, Err(Error::AlreadyRegistered));
    assert_eq!(asked.get(), 0);
    assert_eq!(arena.contenders().len(), 1);
}

#[test]
fn registration_fails_on_a_full_queue() {
    let mut limits = config();
    limits.max_queue_size = 1;
    let mut arena = Pallet::new(limits);
    arena.register_contender(Contender::Rotate, 4);
    let engine = |_call: &module_arena::EngineCall| owner_reply(address(7));
    assert_eq!(arena.register(&account(7), address(1), engine, account_of), Ok(()));
    assert_eq!(arena.contender_queue(), &vec![Contender::Contract(address(1))]);
    assert_eq!(
        arena.register(&account(7), address(2), engine, account_of),
        Err(Error::QueueFull)
    );
    assert_eq!(arena.contender_queue(), &vec![Contender::Contract(address(1))]);
}
