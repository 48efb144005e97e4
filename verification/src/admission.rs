//! Admission to the roster: directly while there is room, through the queue
//! when there is none.

use crate::address::{AccountId, Address};
use crate::arena::{
    addresses_distinct, ids_ascend, index_of_address, infos_map, instances, lemma_infos_map_at,
    listed, ArenaView, Pallet,
};
use crate::contender::{Contender, ContractInfo, Error, RosterEntry};
use crate::engine::{
    decode_owner, owner_call, owner_call_spec, owner_of_reply, reply_output, EngineCall, Reply,
};
use vstd::prelude::*;

verus! {

/// The number of instances with which a contender joins the roster.
pub const JOINING_INSTANCES: u32 = 2;

/// `count` entries for `contender` with the ids from `first` on.
pub open spec fn fresh_entries(first: nat, count: nat, contender: Contender) -> Seq<RosterEntry> {
    Seq::new(count, |k: int| RosterEntry { id: (first + k) as u32, contender })
}

impl ArenaView {
    /// How many instances of `contender` are admitted when `count` are asked
    /// for: a program gets no more than its cap leaves; a built-in strategy
    /// gets them all.
    pub open spec fn grant(self, contender: Contender, count: u32) -> nat {
        match contender {
            Contender::Contract(address) => {
                let room = self.config.max_instances_per_contender - self.info(
                    address,
                ).instance_count;
                if count <= room {
                    count as nat
                } else if room >= 0 {
                    room as nat
                } else {
                    0
                }
            },
            _ => count as nat,
        }
    }

    /// The arena after `contender` asked for `count` instances: the granted
    /// number of entries joins the end of the roster under fresh consecutive
    /// ids, and a program's statistics count them.
    pub open spec fn add_contender(self, contender: Contender, count: u32) -> ArenaView {
        let granted = self.grant(contender, count);
        ArenaView {
            infos: match contender {
                Contender::Contract(address) => self.infos.insert(
                    address,
                    ContractInfo {
                        instance_count: (self.info(address).instance_count + granted) as u32,
                        ..self.info(address)
                    },
                ),
                _ => self.infos,
            },
            contenders: self.contenders + fresh_entries(self.next_id, granted, contender),
            instances_count: self.instances_count + granted,
            next_id: self.next_id + granted,
            ..self
        }
    }

    /// The arena after `contender` asked to join: with room in the roster it
    /// is admitted with two instances, else it joins the queue, and with a
    /// full queue it is turned down.
    pub open spec fn do_register_contender(self, contender: Contender) -> Result<ArenaView, Error> {
        if self.config.max_contender_instances_count > self.instances_count {
            Ok(self.add_contender(contender, JOINING_INSTANCES))
        } else if self.queue.len() >= self.config.max_queue_size {
            Err(Error::QueueFull)
        } else {
            Ok(ArenaView { queue: self.queue.push(contender), ..self })
        }
    }

    /// The arena after the account `who` asked to register its program at
    /// `contract`, which names `owner` as its owner.
    pub open spec fn complete_registration(
        self,
        who: AccountId,
        contract: Address,
        owner: AccountId,
    ) -> Result<
        ArenaView,
        Error,
    > {
        if self.known(contract) {
            Err(Error::AlreadyRegistered)
        } else if owner != who {
            Err(Error::InvalidOwner)
        } else {
            self.do_register_contender(Contender::Contract(contract))
        }
    }

    /// Whether the ids left suffice to admit `count` instances of
    /// `contender`.
    pub open spec fn ids_suffice(self, contender: Contender, count: u32) -> bool {
        self.next_id + self.grant(contender, count) <= u32::MAX
    }
}

/// Whether `result` and `after` are the outcome of the registration of
/// `contract` for `who` in the arena `before`, where the program names the
/// account `owner` as its owner.
pub open spec fn registered_as(
    before: ArenaView,
    who: AccountId,
    contract: Address,
    owner: AccountId,
    result: Result<(), Error>,
    after: ArenaView,
) -> bool {
    match before.complete_registration(who, contract, owner) {
        Ok(arena) => result is Ok && after == arena,
        Err(error) => result == Err::<(), Error>(error) && after == before,
    }
}

/// Whether `address` is the owner that the reply names and `owner` an
/// account that `account_of` gives for it, and `result` and `after` are the
/// outcome of the registration for that owner.
pub open spec fn registers_for_owner<M: Fn(&Address) -> AccountId>(
    account_of: M,
    before: ArenaView,
    who: AccountId,
    contract: Address,
    result: Result<(), Error>,
    after: ArenaView,
    named: Seq<u8>,
    address: Address,
    owner: AccountId,
) -> bool {
    &&& address.bytes@ == named
    &&& call_ensures(account_of, (&address,), owner)
    &&& registered_as(before, who, contract, owner, result, after)
}

/// Whether `call` is the owner query for `contract` and `reply` a reply
/// that `engine` may give to it, and `result` and `after` are the outcome of
/// the registration on that reply: a reply that names no owner fails the
/// registration, and one that names an owner registers for the account that
/// `account_of` gives for the owner.
pub open spec fn registers_on_reply<F: Fn(&EngineCall) -> Reply, M: Fn(&Address) -> AccountId>(
    engine: F,
    account_of: M,
    before: ArenaView,
    who: AccountId,
    contract: Address,
    result: Result<(), Error>,
    after: ArenaView,
    call: EngineCall,
    reply: Reply,
) -> bool {
    &&& call@ == owner_call_spec(contract)
    &&& call_ensures(engine, (&call,), reply)
    &&& match owner_of_reply(reply_output(reply)) {
        None => result == Err::<(), Error>(Error::InvalidOwner) && after == before,
        Some(named) => exists|address: Address, owner: AccountId|
            registers_for_owner(
                account_of,
                before,
                who,
                contract,
                result,
                after,
                named,
                address,
                owner,
            ),
    }
}

/// Whether `result` and `after` are the outcome of the request of `who` to
/// register the program at `contract` in the arena `before`: a known
/// program is refused without a call; for any other the engine is asked
/// who owns it, and the registration goes by the reply.
pub open spec fn registers<F: Fn(&EngineCall) -> Reply, M: Fn(&Address) -> AccountId>(
    engine: F,
    account_of: M,
    before: ArenaView,
    who: AccountId,
    contract: Address,
    result: Result<(), Error>,
    after: ArenaView,
) -> bool {
    if before.known(contract) {
        result == Err::<(), Error>(Error::AlreadyRegistered) && after == before
    } else {
        exists|call: EngineCall, reply: Reply|
            registers_on_reply(
                engine,
                account_of,
                before,
                who,
                contract,
                result,
                after,
                call,
                reply,
            )
    }
}

/// Among fresh entries for one contender, a program has all of them or none.
pub proof fn lemma_instances_fresh(first: nat, count: nat, contender: Contender, address: Address)
    ensures
        instances(fresh_entries(first, count, contender), address) == if contender
            == Contender::Contract(address) {
            count
        } else {
            0
        },
    decreases count,
{
    let pred = |e: RosterEntry| e.contender == Contender::Contract(address);
    let entries = fresh_entries(first, count, contender);
    if count == 0 {
        assert(entries.filter(pred) =~= Seq::<RosterEntry>::empty());
    } else {
        lemma_instances_fresh(first, (count - 1) as nat, contender, address);
        assert(entries.drop_last() =~= fresh_entries(first, (count - 1) as nat, contender));
        reveal(Seq::filter);
    }
}

/// The instances of a program in two rosters put together add up.
pub proof fn lemma_instances_add(a: Seq<RosterEntry>, b: Seq<RosterEntry>, address: Address)
    ensures
        instances(a + b, address) == instances(a, address) + instances(b, address),
{
    let pred = |e: RosterEntry| e.contender == Contender::Contract(address);
    Seq::filter_distributes_over_add(a, b, pred);
}

/// Replacing the statistics at one place of a list replaces them in the map.
pub proof fn lemma_infos_map_update(
    infos: Seq<(Address, ContractInfo)>,
    i: int,
    info: ContractInfo,
)
    requires
        addresses_distinct(infos),
        0 <= i < infos.len(),
    ensures
        addresses_distinct(infos.update(i, (infos[i].0, info))),
        infos_map(infos.update(i, (infos[i].0, info))) == infos_map(infos).insert(infos[i].0, info),
{
    let updated = infos.update(i, (infos[i].0, info));
    assert(addresses_distinct(updated)) by {
        assert forall|j: int, k: int| 0 <= j < k < updated.len() implies (#[trigger] updated[j]).0
            != (#[trigger] updated[k]).0 by {
            assert(infos[j].0 != infos[k].0);
        }
    }
    assert forall|address: Address| listed(updated, address) == listed(infos, address) by {
        if listed(infos, address) {
            let j = index_of_address(infos, address);
            assert(updated[j].0 == address);
        }
        if listed(updated, address) {
            let j = index_of_address(updated, address);
            assert(infos[j].0 == address);
        }
    }
    assert forall|address: Address| listed(updated, address) implies #[trigger] infos_map(
        updated,
    )[address] == infos_map(infos).insert(infos[i].0, info)[address] by {
        let j = index_of_address(updated, address);
        lemma_infos_map_at(updated, j);
        lemma_infos_map_at(infos, j);
    }
    assert(infos_map(updated) =~= infos_map(infos).insert(infos[i].0, info));
}

/// Listing a new address adds it to the map.
pub proof fn lemma_infos_map_push(
    infos: Seq<(Address, ContractInfo)>,
    address: Address,
    info: ContractInfo,
)
    requires
        addresses_distinct(infos),
        !listed(infos, address),
    ensures
        addresses_distinct(infos.push((address, info))),
        infos_map(infos.push((address, info))) == infos_map(infos).insert(address, info),
{
    let pushed = infos.push((address, info));
    assert(addresses_distinct(pushed)) by {
        assert forall|j: int, k: int| 0 <= j < k < pushed.len() implies (#[trigger] pushed[j]).0
            != (#[trigger] pushed[k]).0 by {
            if k < infos.len() {
                assert(infos[j].0 != infos[k].0);
            } else {
                assert(infos[j].0 != address);
            }
        }
    }
    assert forall|other: Address| listed(pushed, other) == (listed(infos, other) || other
        == address) by {
        if listed(infos, other) {
            let j = index_of_address(infos, other);
            assert(pushed[j].0 == other);
        }
        if other == address {
            assert(pushed[infos.len() as int].0 == other);
        }
        if listed(pushed, other) {
            let j = index_of_address(pushed, other);
            if j < infos.len() {
                assert(infos[j].0 == other);
            }
        }
    }
    assert forall|other: Address| listed(pushed, other) implies #[trigger] infos_map(pushed)[other]
        == infos_map(infos).insert(address, info)[other] by {
        let j = index_of_address(pushed, other);
        lemma_infos_map_at(pushed, j);
        if j < infos.len() {
            lemma_infos_map_at(infos, j);
        }
    }
    assert(infos_map(pushed) =~= infos_map(infos).insert(address, info));
}

/// A roster has no more entries than ids were given out.
pub proof fn lemma_roster_len(arena: ArenaView)
    requires
        arena.ids_ordered(),
    ensures
        arena.contenders.len() <= arena.next_id,
{
    if arena.contenders.len() > 0 {
        lemma_id_at_least(arena.contenders, arena.contenders.len() - 1);
    }
}

/// In a roster of ascending ids, the id at a place is at least the place.
pub proof fn lemma_id_at_least(contenders: Seq<RosterEntry>, i: int)
    requires
        ids_ascend(contenders),
        0 <= i < contenders.len(),
    ensures
        contenders[i].id >= i,
    decreases i,
{
    if i > 0 {
        lemma_id_at_least(contenders, i - 1);
        assert(contenders[i - 1].id < contenders[i].id);
    }
}

/// Admission changes neither the limits nor the queue nor any reputation or
/// count of wins, and keeps every entry where it is.
pub proof fn lemma_add_contender_keeps(arena: ArenaView, contender: Contender, count: u32)
    ensures
        arena.add_contender(contender, count).config == arena.config,
        arena.add_contender(contender, count).queue == arena.queue,
        arena.add_contender(contender, count).next_id >= arena.next_id,
        arena.add_contender(contender, count).next_id <= arena.next_id + count,
        arena.add_contender(contender, count).contenders.len() >= arena.contenders.len(),
        forall|k: int|
            0 <= k < arena.contenders.len() ==> (#[trigger] arena.add_contender(
                contender,
                count,
            ).contenders[k]) == arena.contenders[k],
        forall|address: Address|
            {
                &&& (#[trigger] arena.add_contender(contender, count).info(address)).point
                    == arena.info(address).point
                &&& arena.add_contender(contender, count).info(address).wins == arena.info(
                    address,
                ).wins
            },
        forall|address: Address| #[trigger]
            arena.known(address) ==> arena.add_contender(contender, count).known(address),
{
}

/// Admission keeps the arena's invariant.
pub proof fn lemma_add_contender_wf(arena: ArenaView, contender: Contender, count: u32)
    requires
        arena.wf(),
        arena.ids_suffice(contender, count),
    ensures
        arena.add_contender(contender, count).wf(),
{
    let granted = arena.grant(contender, count);
    let after = arena.add_contender(contender, count);
    let fresh = fresh_entries(arena.next_id, granted, contender);
    assert(after.ids_ordered());
    assert forall|address: Address|
        {
            &&& (#[trigger] after.info(address)).instance_count == instances(
                after.contenders,
                address,
            )
            &&& after.info(address).instance_count <= after.config.max_instances_per_contender
        } by {
        lemma_instances_add(arena.contenders, fresh, address);
        lemma_instances_fresh(arena.next_id, granted, contender, address);
        assert(arena.info(address).instance_count == instances(arena.contenders, address));
    }
}

impl Pallet {
    /// Whether the ids left suffice to admit `count` instances of
    /// `contender`: what [`Pallet::add_contender`] asks of its caller.
    pub fn has_ids_for(&self, contender: &Contender, count: u32) -> (enough: bool)
        requires
            self.wf(),
        ensures
            enough == self@.ids_suffice(*contender, count),
    {
        let granted = match contender {
            Contender::Contract(contract) => {
                let info = self.contract_infos(contract);
                let room = self.config.max_instances_per_contender - info.instance_count;
                if count <= room {
                    count
                } else {
                    room
                }
            },
            _ => count,
        };
        granted <= u32::MAX - self.next_contender_instance_id
    }

    /// Admits `contender` with up to `count` instances and returns how many
    /// were granted. A program is granted no more than its cap leaves, and it
    /// is known to the arena from then on even when that is none.
    pub fn add_contender(&mut self, contender: &Contender, count: u32) -> (granted: u32)
        requires
            old(self).wf(),
            old(self)@.ids_suffice(*contender, count),
        ensures
            final(self).wf(),
            final(self)@ == old(self)@.add_contender(*contender, count),
            granted == old(self)@.grant(*contender, count),
    {
        let ghost before = self@;
        let mut count = count;
        if let Contender::Contract(contract) = contender {
            match self.find_info(contract) {
                Some(i) => {
                    let info = self.contract_infos[i].1;
                    proof {
                        assert(before.info(*contract) == info);
                    }
                    let max = self.config.max_instances_per_contender - info.instance_count;
                    if max < count {
                        count = max;
                    }
                    proof {
                        lemma_infos_map_update(
                            self.contract_infos@,
                            i as int,
                            ContractInfo {
                                instance_count: (info.instance_count + count) as u32,
                                ..info
                            },
                        );
                    }
                    self.contract_infos.set(
                        i,
                        (*contract, ContractInfo { instance_count: info.instance_count + count, ..info }),
                    );
                },
                None => {
                    if self.config.max_instances_per_contender < count {
                        count = self.config.max_instances_per_contender;
                    }
                    proof {
                        lemma_infos_map_push(
                            self.contract_infos@,
                            *contract,
                            ContractInfo { point: 0, instance_count: count, wins: 0 },
                        );
                    }
                    self.contract_infos.push(
                        (*contract, ContractInfo { point: 0, instance_count: count, wins: 0 }),
                    );
                },
            }
        }
        let id = self.next_contender_instance_id;
        let mut fresh: Vec<RosterEntry> = Vec::new();
        let mut i: u32 = 0;
        while i < count
            invariant
                i <= count,
                id + count <= u32::MAX,
                fresh@ == fresh_entries(id as nat, i as nat, *contender),
            decreases count - i,
        {
            fresh.push(RosterEntry { id: id + i, contender: *contender });
            i += 1;
            assert(fresh@ =~= fresh_entries(id as nat, i as nat, *contender));
        }
        proof {
            lemma_roster_len(before);
            lemma_add_contender_wf(before, *contender, count);
        }
        self.contenders.append(&mut fresh);
        self.next_contender_instance_id = id + count;
        self.contender_instances_count = self.contender_instances_count + count;
        proof {
            assert(self@.infos =~= before.add_contender(*contender, count).infos);
            assert(self@.contenders =~= before.add_contender(*contender, count).contenders);
        }
        count
    }

    /// Admits `contender` with up to `count` instances, whatever the state of
    /// the roster and the queue: the way in for the built-in strategies.
    pub fn register_contender(&mut self, contender: Contender, count: u32)
        requires
            old(self).wf(),
            old(self)@.ids_suffice(contender, count),
        ensures
            final(self).wf(),
            final(self)@ == old(self)@.add_contender(contender, count),
    {
        self.add_contender(&contender, count);
    }

    /// Takes the request of `contender` to join. While the roster has room
    /// the contender is admitted with two instances; else it joins the end of
    /// the queue; and with the queue at capacity the request fails and the
    /// arena stays as it was.
    pub fn do_register_contender(&mut self, contender: Contender) -> (result: Result<(), Error>)
        requires
            old(self).wf(),
            old(self)@.config.max_contender_instances_count > old(self)@.instances_count
                ==> old(self)@.ids_suffice(contender, JOINING_INSTANCES),
        ensures
            final(self).wf(),
            match old(self)@.do_register_contender(contender) {
                Ok(arena) => result is Ok && final(self)@ == arena,
                Err(error) => result == Err::<(), Error>(error) && final(self)@ == old(self)@,
            },
            result is Err <==> old(self)@.instances_count
                >= old(self)@.config.max_contender_instances_count && old(self)@.queue.len()
                >= old(self)@.config.max_queue_size,
    {
        if self.config.max_contender_instances_count > self.contender_instances_count {
            self.add_contender(&contender, JOINING_INSTANCES);
        } else {
            if self.contender_queue.len() >= self.config.max_queue_size as usize {
                return Err(Error::QueueFull);
            }
            let ghost before = self@;
            self.contender_queue.push(contender);
            proof {
                assert(self@.infos == before.infos);
                assert forall|address: Address| #[trigger]
                    self@.info(address) == before.info(address) by {}
                assert(self@.instances_counted());
            }
        }
        Ok(())
    }

    /// The call that finds out who owns the program at `contract`, for a
    /// program that the arena does not know yet; a known program cannot be
    /// registered again.
    pub fn owner_query(&self, contract: Address) -> (call: Result<EngineCall, Error>)
        requires
            self.wf(),
        ensures
            match call {
                Ok(c) => !self@.known(contract) && c@ == owner_call_spec(contract),
                Err(error) => self@.known(contract) && error == Error::AlreadyRegistered,
            },
    {
        if self.find_info(&contract).is_some() {
            Err(Error::AlreadyRegistered)
        } else {
            Ok(owner_call(contract))
        }
    }

    /// Completes the registration of the program at `contract` for the
    /// account `who`, where `owner` is the account that the program names as
    /// its owner. A known
    /// program is refused before anything else, then a requester who is not
    /// the owner; the request then goes the way of any contender that asks to
    /// join. A refused request leaves the arena as it was.
    pub fn complete_registration(
        &mut self,
        who: &AccountId,
        contract: Address,
        owner: &AccountId,
    ) -> (result: Result<(), Error>)
        requires
            old(self).wf(),
            old(self)@.config.max_contender_instances_count > old(self)@.instances_count
                ==> old(self)@.ids_suffice(Contender::Contract(contract), JOINING_INSTANCES),
        ensures
            final(self).wf(),
            match old(self)@.complete_registration(*who, contract, *owner) {
                Ok(arena) => result is Ok && final(self)@ == arena,
                Err(error) => result == Err::<(), Error>(error) && final(self)@ == old(self)@,
            },
    {
        if self.find_info(&contract).is_some() {
            return Err(Error::AlreadyRegistered);
        }
        if *owner != *who {
            return Err(Error::InvalidOwner);
        }
        self.do_register_contender(Contender::Contract(contract))
    }

    /// Registers the program at `contract` for the account `who`. A program
    /// that the arena knows is refused. Else `engine` is asked who owns the
    /// program, and `account_of` for the account of that owner: the request
    /// fails if the reply names no owner or the owner is not `who`; else
    /// the program asks to join like any contender. A request that fails
    /// leaves the arena as it was.
    pub fn register<F: Fn(&EngineCall) -> Reply, M: Fn(&Address) -> AccountId>(
        &mut self,
        who: &AccountId,
        contract: Address,
        engine: F,
        account_of: M,
    ) -> (result: Result<(), Error>)
        requires
            old(self).wf(),
            forall|call: &EngineCall| call_requires(engine, (call,)),
            forall|address: &Address| call_requires(account_of, (address,)),
            old(self)@.config.max_contender_instances_count > old(self)@.instances_count
                ==> old(self)@.ids_suffice(Contender::Contract(contract), JOINING_INSTANCES),
        ensures
            final(self).wf(),
            registers(engine, account_of, old(self)@, *who, contract, result, final(self)@),
    {
        let call = match self.owner_query(contract) {
            Ok(call) => call,
            Err(error) => {
                return Err(error);
            },
        };
        let reply = engine(&call);
        let address = match decode_owner(&reply) {
            Ok(address) => address,
            Err(error) => {
                assert(registers_on_reply(
                    engine,
                    account_of,
                    old(self)@,
                    *who,
                    contract,
                    Err::<(), Error>(error),
                    self@,
                    call,
                    reply,
                ));
                return Err(error);
            },
        };
        let owner = account_of(&address);
        let result = self.complete_registration(who, contract, &owner);
        proof {
            let named = owner_of_reply(reply_output(reply))->Some_0;
            assert(owner_of_reply(reply_output(reply)) == Some(address.bytes@));
            assert(registers_for_owner(
                account_of,
                old(self)@,
                *who,
                contract,
                result,
                self@,
                named,
                address,
                owner,
            ));
            assert(registers_on_reply(
                engine,
                account_of,
                old(self)@,
                *who,
                contract,
                result,
                self@,
                call,
                reply,
            ));
        }
        result
    }
}

} // verus!
