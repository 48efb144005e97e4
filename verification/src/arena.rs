//! The arena's state and its mathematical model.
//!
//! [`Pallet`] owns everything that outlives a call: the roster of active
//! entries, the queue of contenders that wait for a place, the statistics of
//! each program, and the two counters. Its view, [`ArenaView`], is the model
//! that the contracts of this crate speak of.

use crate::address::Address;
use crate::contender::{Config, Contender, ContractInfo, RosterEntry};
use vstd::prelude::*;

verus! {

/// The arena: its limits and its whole state.
#[derive(Clone, Debug)]
pub struct Pallet {
    pub(crate) config: Config,
    /// The statistics of every program that was ever admitted, each address
    /// once.
    pub(crate) contract_infos: Vec<(Address, ContractInfo)>,
    /// The roster, in ascending order of id.
    pub(crate) contenders: Vec<RosterEntry>,
    /// The number of entries in the roster.
    pub(crate) contender_instances_count: u32,
    /// The contenders that wait for admission, first come first.
    pub(crate) contender_queue: Vec<Contender>,
    /// The id that the next admitted entry gets.
    pub(crate) next_contender_instance_id: u32,
}

/// The model of the arena.
pub struct ArenaView {
    pub config: Config,
    /// The statistics of the programs that the arena knows.
    pub infos: Map<Address, ContractInfo>,
    /// The roster, in ascending order of id.
    pub contenders: Seq<RosterEntry>,
    /// The counter of active entries.
    pub instances_count: nat,
    /// The admission queue, first come first.
    pub queue: Seq<Contender>,
    /// The id that the next admitted entry gets.
    pub next_id: nat,
}

/// How many entries of `contenders` hold the program at `address`.
pub open spec fn instances(contenders: Seq<RosterEntry>, address: Address) -> nat {
    contenders.filter(|e: RosterEntry| e.contender == Contender::Contract(address)).len()
}

/// The ids of a roster ascend.
pub open spec fn ids_ascend(contenders: Seq<RosterEntry>) -> bool {
    forall|i: int, j: int|
        0 <= i < j < contenders.len() ==> (#[trigger] contenders[i]).id < (
        #[trigger] contenders[j]).id
}

/// Whether some entry of `contenders` has the id `id`.
pub open spec fn has_id(contenders: Seq<RosterEntry>, id: u32) -> bool {
    exists|i: int| 0 <= i < contenders.len() && (#[trigger] contenders[i]).id == id
}

/// The position of the entry with the id `id`, where there is one.
pub open spec fn index_of_id(contenders: Seq<RosterEntry>, id: u32) -> int {
    choose|i: int| 0 <= i < contenders.len() && (#[trigger] contenders[i]).id == id
}

impl ArenaView {
    /// The statistics of the program at `address`; those of a program that the
    /// arena does not know are all zero.
    pub open spec fn info(self, address: Address) -> ContractInfo {
        if self.infos.dom().contains(address) {
            self.infos[address]
        } else {
            ContractInfo::fresh()
        }
    }

    /// Whether the arena knows the program at `address`.
    pub open spec fn known(self, address: Address) -> bool {
        self.infos.dom().contains(address)
    }

    /// The ids of the roster ascend, and all lie below the next id.
    pub open spec fn ids_ordered(self) -> bool {
        &&& ids_ascend(self.contenders)
        &&& forall|i: int|
            0 <= i < self.contenders.len() ==> (#[trigger] self.contenders[i]).id < self.next_id
    }

    /// Every program's count of instances is the number of roster entries
    /// that hold it, and stays within the cap.
    pub open spec fn instances_counted(self) -> bool {
        forall|address: Address|
            {
                &&& (#[trigger] self.info(address)).instance_count == instances(
                    self.contenders,
                    address,
                )
                &&& self.info(address).instance_count
                    <= self.config.max_instances_per_contender
            }
    }

    /// The invariant of the arena.
    pub open spec fn wf(self) -> bool {
        &&& self.ids_ordered()
        &&& self.instances_counted()
        &&& self.instances_count == self.contenders.len()
        &&& self.next_id <= u32::MAX
        &&& self.queue.len() <= self.config.max_queue_size
    }
}

/// Whether some pair of `infos` is about `address`.
pub open spec fn listed(infos: Seq<(Address, ContractInfo)>, address: Address) -> bool {
    exists|i: int| 0 <= i < infos.len() && (#[trigger] infos[i]).0 == address
}

/// The position of the pair about `address`, where there is one.
pub open spec fn index_of_address(infos: Seq<(Address, ContractInfo)>, address: Address) -> int {
    choose|i: int| 0 <= i < infos.len() && (#[trigger] infos[i]).0 == address
}

/// The map that a list of statistics stands for.
pub open spec fn infos_map(infos: Seq<(Address, ContractInfo)>) -> Map<Address, ContractInfo> {
    Map::new(
        |address: Address| listed(infos, address),
        |address: Address| infos[index_of_address(infos, address)].1,
    )
}

/// No address is listed twice.
pub open spec fn addresses_distinct(infos: Seq<(Address, ContractInfo)>) -> bool {
    forall|i: int, j: int|
        0 <= i < j < infos.len() ==> (#[trigger] infos[i]).0 != (#[trigger] infos[j]).0
}

/// In a list without repeated addresses, the map holds each pair.
pub proof fn lemma_infos_map_at(infos: Seq<(Address, ContractInfo)>, i: int)
    requires
        addresses_distinct(infos),
        0 <= i < infos.len(),
    ensures
        infos_map(infos).dom().contains(infos[i].0),
        infos_map(infos)[infos[i].0] == infos[i].1,
{
    let address = infos[i].0;
    assert(listed(infos, address));
    let j = index_of_address(infos, address);
    assert(infos[j].0 == infos[i].0);
    if i < j {
        assert(infos[i].0 != infos[j].0);
    } else if j < i {
        assert(infos[j].0 != infos[i].0);
    }
}

impl View for Pallet {
    type V = ArenaView;

    open(crate) spec fn view(&self) -> ArenaView {
        ArenaView {
            config: self.config,
            infos: infos_map(self.contract_infos@),
            contenders: self.contenders@,
            instances_count: self.contender_instances_count as nat,
            queue: self.contender_queue@,
            next_id: self.next_contender_instance_id as nat,
        }
    }
}

impl Pallet {
    /// The statistics hold each program once.
    pub open(crate) spec fn listed_once(&self) -> bool {
        addresses_distinct(self.contract_infos@)
    }

    /// The invariant of the arena: that of its model, and each program's
    /// statistics held once.
    pub open spec fn wf(&self) -> bool {
        &&& self.listed_once()
        &&& self@.wf()
    }

    /// An arena with the limits `config`, an empty roster and an empty queue.
    pub fn new(config: Config) -> (arena: Pallet)
        ensures
            arena.wf(),
            arena@.config == config,
            arena@.infos == Map::<Address, ContractInfo>::empty(),
            arena@.contenders == Seq::<RosterEntry>::empty(),
            arena@.instances_count == 0,
            arena@.queue == Seq::<Contender>::empty(),
            arena@.next_id == 0,
    {
        let arena = Pallet {
            config,
            contract_infos: Vec::new(),
            contenders: Vec::new(),
            contender_instances_count: 0,
            contender_queue: Vec::new(),
            next_contender_instance_id: 0,
        };
        assert(arena@.infos =~= Map::<Address, ContractInfo>::empty());
        assert forall|address: Address| instances(arena@.contenders, address) == 0 by {
            assert(arena@.contenders.filter(
                |e: RosterEntry| e.contender == Contender::Contract(address),
            ) =~= Seq::<RosterEntry>::empty());
        }
        arena
    }

    /// The limits of the arena.
    pub fn config(&self) -> (config: Config)
        ensures
            config == self@.config,
    {
        self.config
    }

    /// The statistics of the program at `address`; all zero for a program
    /// that the arena does not know.
    pub fn contract_infos(&self, address: &Address) -> (info: ContractInfo)
        requires
            self.wf(),
        ensures
            info == self@.info(*address),
    {
        match self.find_info(address) {
            Some(i) => self.contract_infos[i].1,
            None => ContractInfo { point: 0, instance_count: 0, wins: 0 },
        }
    }

    /// Whether the arena knows the program at `address`.
    pub fn is_known(&self, address: &Address) -> (known: bool)
        requires
            self.wf(),
        ensures
            known == self@.known(*address),
    {
        self.find_info(address).is_some()
    }

    /// The roster, in ascending order of id.
    pub fn contenders(&self) -> (contenders: &Vec<RosterEntry>)
        ensures
            contenders@ == self@.contenders,
    {
        &self.contenders
    }

    /// The number of entries in the roster.
    pub fn contender_instances_count(&self) -> (count: u32)
        ensures
            count == self@.instances_count,
    {
        self.contender_instances_count
    }

    /// The contenders that wait for admission, first come first.
    pub fn contender_queue(&self) -> (queue: &Vec<Contender>)
        ensures
            queue@ == self@.queue,
    {
        &self.contender_queue
    }

    /// The id that the next admitted entry gets.
    pub fn next_contender_instance_id(&self) -> (id: u32)
        ensures
            id == self@.next_id,
    {
        self.next_contender_instance_id
    }

    /// Where the statistics of `address` are listed, if they are.
    pub(crate) fn find_info(&self, address: &Address) -> (found: Option<usize>)
        requires
            addresses_distinct(self.contract_infos@),
        ensures
            found is Some <==> self@.known(*address),
            found matches Some(i) ==> i < self.contract_infos@.len() && self.contract_infos@[i as int].0
                == *address && self@.infos[*address] == self.contract_infos@[i as int].1,
    {
        let mut i: usize = 0;
        while i < self.contract_infos.len()
            invariant
                i <= self.contract_infos@.len(),
                addresses_distinct(self.contract_infos@),
                forall|k: int| 0 <= k < i ==> self.contract_infos@[k].0 != *address,
            decreases self.contract_infos@.len() - i,
        {
            if self.contract_infos[i].0 == *address {
                proof {
                    lemma_infos_map_at(self.contract_infos@, i as int);
                }
                return Some(i);
            }
            i += 1;
        }
        None
    }
}

} // verus!
