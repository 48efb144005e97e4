//! The evolution of the roster at the end of a tick: the queue is drained,
//! the winners are promoted, and the lowest-ranked entries make room.

use crate::address::Address;
use crate::admission::{lemma_add_contender_keeps, lemma_infos_map_update, JOINING_INSTANCES};
use crate::arena::{instances, ArenaView, Pallet};
use crate::contender::{Contender, ContractInfo, RosterEntry};
use crate::scoring::lemma_rostered_is_known;
use vstd::prelude::*;

verus! {

/// The number of instances that a winner gains.
pub const WINNER_INSTANCES: u32 = 1;

impl ArenaView {
    /// The arena after the contenders `waiting` are admitted in their order,
    /// each with two instances.
    pub open spec fn admit_all(self, waiting: Seq<Contender>) -> ArenaView
        decreases waiting.len(),
    {
        if waiting.len() == 0 {
            self
        } else {
            self.admit_all(waiting.drop_last()).add_contender(waiting.last(), JOINING_INSTANCES)
        }
    }

    /// How many contenders leave the queue in a tick: as many as the limit
    /// allows, or all that wait if they are fewer.
    pub open spec fn drain_count(self) -> nat {
        if self.queue.len() < self.config.enqueue_count {
            self.queue.len()
        } else {
            self.config.enqueue_count as nat
        }
    }

    /// The arena after the queue is drained: the contenders at its front are
    /// admitted, first come first, and the others move up.
    pub open spec fn drain_queue(self) -> ArenaView {
        ArenaView {
            queue: self.queue.skip(self.drain_count() as int),
            ..self.admit_all(self.queue.take(self.drain_count() as int))
        }
    }

    /// The arena after the entry `id` is promoted: its contender gains an
    /// instance, as far as its cap allows, and a program is credited with a
    /// win. An id that the roster does not hold changes nothing.
    pub open spec fn promote_one(self, id: u32) -> ArenaView {
        match self.contender(id) {
            Some(contender) => {
                let grown = self.add_contender(contender, WINNER_INSTANCES);
                match contender {
                    Contender::Contract(address) => ArenaView {
                        infos: grown.infos.insert(
                            address,
                            ContractInfo {
                                wins: if grown.info(address).wins < u32::MAX {
                                    (grown.info(address).wins + 1) as u32
                                } else {
                                    u32::MAX
                                },
                                ..grown.info(address)
                            },
                        ),
                        ..grown
                    },
                    _ => grown,
                }
            },
            None => self,
        }
    }

    /// The arena after the entries of `winners` are promoted in their order.
    pub open spec fn promote_all(self, winners: Seq<(u32, i64)>) -> ArenaView
        decreases winners.len(),
    {
        if winners.len() == 0 {
            self
        } else {
            self.promote_all(winners.drop_last()).promote_one(winners.last().0)
        }
    }

    /// How many entries of a ranking of `ranked` entries are promoted: as
    /// many as the limit allows, or all of them if they are fewer.
    pub open spec fn winner_count(self, ranked: nat) -> nat {
        if ranked < self.config.winner_count {
            ranked
        } else {
            self.config.winner_count as nat
        }
    }

    /// The arena after the best entries of `ranking` are promoted.
    pub open spec fn promote_winners(self, ranking: Seq<(u32, i64)>) -> ArenaView {
        self.promote_all(ranking.take(self.winner_count(ranking.len()) as int))
    }

    /// By how many entries the roster exceeds its limit.
    pub open spec fn overflow(self) -> nat {
        if self.instances_count > self.config.max_contender_instances_count {
            (self.instances_count - self.config.max_contender_instances_count) as nat
        } else {
            0
        }
    }

    /// How many entries of `ranking` are up for eviction: as many as the
    /// roster exceeds its limit by, or all of them if they are fewer.
    pub open spec fn eviction_count(self, ranking: Seq<(u32, i64)>) -> nat {
        if ranking.len() < self.overflow() {
            ranking.len()
        } else {
            self.overflow()
        }
    }

    /// Whether the entry `id` is up for eviction: it is among the lowest
    /// entries of `ranking`, as many as the roster exceeds its limit by.
    pub open spec fn doomed(self, ranking: Seq<(u32, i64)>, id: u32) -> bool {
        exists|j: int|
            ranking.len() - self.eviction_count(ranking) <= j < ranking.len() && (
            #[trigger] ranking[j]).0 == id
    }

    /// The test that an entry stays in the roster.
    pub open spec fn stays(self, ranking: Seq<(u32, i64)>) -> spec_fn(RosterEntry) -> bool {
        |e: RosterEntry| !self.doomed(ranking, e.id)
    }

    /// The test that an entry leaves the roster.
    pub open spec fn leaves(self, ranking: Seq<(u32, i64)>) -> spec_fn(RosterEntry) -> bool {
        |e: RosterEntry| self.doomed(ranking, e.id)
    }

    /// The arena after eviction: the entries that are up for it leave the
    /// roster, the others stay in their order, and the counter of entries
    /// and each program's count of instances go down by what left.
    pub open spec fn evict(self, ranking: Seq<(u32, i64)>) -> ArenaView {
        let kept = self.contenders.filter(self.stays(ranking));
        ArenaView {
            contenders: kept,
            instances_count: (self.instances_count - (self.contenders.len() - kept.len())) as nat,
            infos: Map::new(
                |address: Address| self.infos.dom().contains(address),
                |address: Address|
                    ContractInfo {
                        instance_count: (self.infos[address].instance_count - (instances(
                            self.contenders,
                            address,
                        ) - instances(kept, address))) as u32,
                        ..self.infos[address]
                    },
            ),
            ..self
        }
    }

    /// The arena after the roster evolved on the ranking of a tick: first the
    /// queue is drained, then the winners are promoted, then the lowest
    /// entries are evicted.
    pub open spec fn evolve(self, ranking: Seq<(u32, i64)>) -> ArenaView {
        self.drain_queue().promote_winners(ranking).evict(ranking)
    }

    /// The most ids that a tick with `ranked` ranked entries can give out:
    /// two for each contender that leaves the queue and one for each winner.
    pub open spec fn tick_ids(self, ranked: nat) -> int {
        JOINING_INSTANCES * self.drain_count() + WINNER_INSTANCES * self.winner_count(ranked)
    }
}

/// The instances of a program among the first places of a roster, one place
/// further on.
pub proof fn lemma_instances_take(contenders: Seq<RosterEntry>, i: int, address: Address)
    requires
        0 <= i < contenders.len(),
    ensures
        instances(contenders.take(i + 1), address) == instances(contenders.take(i), address) + if (
        contenders[i].contender == Contender::Contract(address)) {
            1nat
        } else {
            0nat
        },
        instances(contenders.take(i + 1), address) <= instances(contenders, address),
{
    let pred = |e: RosterEntry| e.contender == Contender::Contract(address);
    assert(contenders.take(i + 1) =~= contenders.take(i).push(contenders[i]));
    contenders.take(i).lemma_filter_push(contenders[i], pred);
    assert(contenders =~= contenders.take(i + 1) + contenders.skip(i + 1));
    Seq::filter_distributes_over_add(contenders.take(i + 1), contenders.skip(i + 1), pred);
}

/// The instances of a program in a roster with one more entry.
pub proof fn lemma_instances_push(contenders: Seq<RosterEntry>, entry: RosterEntry, address: Address)
    ensures
        instances(contenders.push(entry), address) == instances(contenders, address) + if (
        entry.contender == Contender::Contract(address)) {
            1nat
        } else {
            0nat
        },
{
    let pred = |e: RosterEntry| e.contender == Contender::Contract(address);
    contenders.lemma_filter_push(entry, pred);
}

impl Pallet {
    /// Whether the entry `id` is among the last `count` entries of
    /// `ranking`.
    fn among_last(ranking: &Vec<(u32, i64)>, count: usize, id: u32) -> (found: bool)
        requires
            count <= ranking@.len(),
        ensures
            found == exists|j: int|
                ranking@.len() - count <= j < ranking@.len() && (#[trigger] ranking@[j]).0 == id,
    {
        let mut j: usize = ranking.len() - count;
        while j < ranking.len()
            invariant
                ranking@.len() - count <= j <= ranking@.len(),
                forall|m: int| ranking@.len() - count <= m < j ==> (#[trigger] ranking@[m]).0 != id,
            decreases ranking@.len() - j,
        {
            if ranking[j].0 == id {
                return true;
            }
            j += 1;
        }
        false
    }

    /// Evicts the lowest-ranked entries: while the roster exceeds its limit,
    /// the entries at the end of `ranking` leave it, as many as it exceeds
    /// the limit by. An id of the ranking that the roster does not hold
    /// removes nothing. Returns the entries that left, in the order of the
    /// roster.
    pub fn evict(&mut self, ranking: &Vec<(u32, i64)>) -> (removed: Vec<RosterEntry>)
        requires
            old(self).wf(),
        ensures
            final(self).wf(),
            final(self)@ == old(self)@.evict(ranking@),
            removed@ == old(self)@.contenders.filter(old(self)@.leaves(ranking@)),
    {
        let ghost start = self@;
        let ghost stays = start.stays(ranking@);
        let ghost leaves = start.leaves(ranking@);
        let to_remove = self.contender_instances_count.saturating_sub(
            self.config.max_contender_instances_count,
        );
        let count = if ranking.len() < to_remove as usize {
            ranking.len()
        } else {
            to_remove as usize
        };
        assert(count == start.eviction_count(ranking@));
        let mut kept: Vec<RosterEntry> = Vec::new();
        let mut removed: Vec<RosterEntry> = Vec::new();
        let mut i: usize = 0;
        proof {
            assert(start.contenders.take(0) =~= Seq::<RosterEntry>::empty());
            assert(start.contenders.take(0).filter(stays) =~= Seq::<RosterEntry>::empty());
            assert(start.contenders.take(0).filter(leaves) =~= Seq::<RosterEntry>::empty());
            assert forall|address: Address| instances(kept@, address) == 0 && instances(
                start.contenders.take(0),
                address,
            ) == 0 by {
                assert(kept@.filter(|e: RosterEntry| e.contender == Contender::Contract(address))
                    =~= Seq::<RosterEntry>::empty());
            }
        }
        while i < self.contenders.len()
            invariant
                i <= start.contenders.len(),
                start.wf(),
                stays == start.stays(ranking@),
                leaves == start.leaves(ranking@),
                count == start.eviction_count(ranking@),
                count <= ranking@.len(),
                self.contenders@ == start.contenders,
                self.config == start.config,
                self.contender_queue@ == start.queue,
                self.contender_instances_count == start.instances_count,
                self.next_contender_instance_id == start.next_id,
                crate::arena::addresses_distinct(self.contract_infos@),
                self@.infos.dom() == start.infos.dom(),
                kept@ == start.contenders.take(i as int).filter(stays),
                removed@ == start.contenders.take(i as int).filter(leaves),
                kept@.len() + removed@.len() == i,
                forall|j: int, k: int|
                    0 <= j < k < kept@.len() ==> (#[trigger] kept@[j]).id < (#[trigger] kept@[k]).id,
                forall|j: int, m: int|
                    0 <= j < kept@.len() && i <= m < start.contenders.len() ==> (
                    #[trigger] kept@[j]).id < (#[trigger] start.contenders[m]).id,
                forall|j: int| 0 <= j < kept@.len() ==> (#[trigger] kept@[j]).id < start.next_id,
                forall|address: Address|
                    #[trigger] self@.info(address) == (ContractInfo {
                        instance_count: (start.info(address).instance_count - (instances(
                            start.contenders.take(i as int),
                            address,
                        ) - instances(kept@, address))) as u32,
                        ..start.info(address)
                    }),
                forall|address: Address|
                    instances(kept@, address) <= #[trigger] instances(
                        start.contenders.take(i as int),
                        address,
                    ),
            decreases start.contenders.len() - i,
        {
            let entry = self.contenders[i];
            let ghost before = self@;
            let ghost kept_before = kept@;
            proof {
                assert(start.contenders.take(i + 1) =~= start.contenders.take(i as int).push(entry));
                start.contenders.take(i as int).lemma_filter_push(entry, stays);
                start.contenders.take(i as int).lemma_filter_push(entry, leaves);
            }
            if Self::among_last(ranking, count, entry.id) {
                assert(start.doomed(ranking@, entry.id));
                if let Contender::Contract(contract) = entry.contender {
                    proof {
                        lemma_rostered_is_known(start, i as int, contract);
                        lemma_instances_take(start.contenders, i as int, contract);
                        assert(start.info(contract).instance_count == instances(
                            start.contenders,
                            contract,
                        ));
                        assert(instances(kept@, contract) <= instances(
                            start.contenders.take(i as int),
                            contract,
                        ));
                        assert(before.info(contract).instance_count >= 1);
                    }
                    let j = self.find_info(&contract).unwrap();
                    let info = self.contract_infos[j].1;
                    proof {
                        lemma_infos_map_update(
                            self.contract_infos@,
                            j as int,
                            ContractInfo { instance_count: (info.instance_count - 1) as u32, ..info },
                        );
                    }
                    self.contract_infos.set(
                        j,
                        (contract, ContractInfo { instance_count: info.instance_count - 1, ..info }),
                    );
                    proof {
                        assert(self@.infos.dom() =~= start.infos.dom());
                    }
                }
                removed.push(entry);
                proof {
                    assert forall|address: Address|
                        #[trigger] self@.info(address) == (ContractInfo {
                            instance_count: (start.info(address).instance_count - (instances(
                                start.contenders.take(i + 1),
                                address,
                            ) - instances(kept@, address))) as u32,
                            ..start.info(address)
                        }) by {
                        lemma_instances_take(start.contenders, i as int, address);
                        assert(before.info(address) == (ContractInfo {
                            instance_count: (start.info(address).instance_count - (instances(
                                start.contenders.take(i as int),
                                address,
                            ) - instances(kept@, address))) as u32,
                            ..start.info(address)
                        }));
                        assert(start.info(address).instance_count == instances(
                            start.contenders,
                            address,
                        ));
                        assert(instances(kept@, address) <= instances(
                            start.contenders.take(i as int),
                            address,
                        ));
                    }
                    assert forall|address: Address|
                        instances(kept@, address) <= #[trigger] instances(
                            start.contenders.take(i + 1),
                            address,
                        ) by {
                        lemma_instances_take(start.contenders, i as int, address);
                        assert(instances(kept@, address) <= instances(
                            start.contenders.take(i as int),
                            address,
                        ));
                    }
                }
            } else {
                assert(!start.doomed(ranking@, entry.id));
                kept.push(entry);
                proof {
                    assert forall|address: Address|
                        #[trigger] self@.info(address) == (ContractInfo {
                            instance_count: (start.info(address).instance_count - (instances(
                                start.contenders.take(i + 1),
                                address,
                            ) - instances(kept@, address))) as u32,
                            ..start.info(address)
                        }) by {
                        lemma_instances_take(start.contenders, i as int, address);
                        lemma_instances_push(kept_before, entry, address);
                        assert(before.info(address) == (ContractInfo {
                            instance_count: (start.info(address).instance_count - (instances(
                                start.contenders.take(i as int),
                                address,
                            ) - instances(kept_before, address))) as u32,
                            ..start.info(address)
                        }));
                    }
                    assert forall|address: Address|
                        instances(kept@, address) <= #[trigger] instances(
                            start.contenders.take(i + 1),
                            address,
                        ) by {
                        lemma_instances_take(start.contenders, i as int, address);
                        lemma_instances_push(kept_before, entry, address);
                        assert(instances(kept_before, address) <= instances(
                            start.contenders.take(i as int),
                            address,
                        ));
                    }
                    assert forall|j: int, m: int|
                        0 <= j < kept@.len() && i + 1 <= m < start.contenders.len() implies (
                    #[trigger] kept@[j]).id < (#[trigger] start.contenders[m]).id by {
                        if j < kept_before.len() {
                            assert(kept_before[j].id < start.contenders[m].id);
                        } else {
                            assert(start.contenders[i as int].id < start.contenders[m].id);
                        }
                    }
                    assert forall|j: int, k: int| 0 <= j < k < kept@.len() implies (
                    #[trigger] kept@[j]).id < (#[trigger] kept@[k]).id by {
                        if k < kept_before.len() {
                            assert(kept_before[j].id < kept_before[k].id);
                        } else {
                            assert(kept_before[j].id < start.contenders[i as int].id);
                        }
                    }
                    assert(start.contenders[i as int].id < start.next_id);
                }
            }
            i += 1;
        }
        let ghost looped = self@;
        proof {
            assert(i == start.contenders.len());
            assert(start.contenders.take(i as int) =~= start.contenders);
        }
        self.contenders = kept;
        self.contender_instances_count = self.contender_instances_count - removed.len() as u32;
        proof {
            let target = start.evict(ranking@);
            assert(self@.infos == looped.infos);
            assert(self@.contenders == start.contenders.filter(stays));
            assert forall|address: Address| target.infos.dom().contains(address) implies (
            #[trigger] self@.infos[address]) == target.infos[address] by {
                assert(looped.info(address) == looped.infos[address]);
                assert(start.info(address) == start.infos[address]);
                assert(start.info(address).instance_count == instances(
                    start.contenders,
                    address,
                ));
                assert(instances(self@.contenders, address) <= instances(
                    start.contenders.take(i as int),
                    address,
                ));
            }
            assert(self@.infos =~= target.infos);
            assert forall|address: Address|
                {
                    &&& (#[trigger] self@.info(address)).instance_count == instances(
                        self@.contenders,
                        address,
                    )
                    &&& self@.info(address).instance_count
                        <= self@.config.max_instances_per_contender
                } by {
                assert(looped.info(address) == self@.info(address));
                assert(start.info(address).instance_count == instances(
                    start.contenders,
                    address,
                ));
                assert(instances(self@.contenders, address) <= instances(
                    start.contenders.take(i as int),
                    address,
                ));
            }
        }
        removed
    }

    /// Drains the queue: up to the configured number of contenders leave it
    /// at the front and are admitted, each with two instances, in the order
    /// in which they came.
    pub fn drain_queue(&mut self)
        requires
            old(self).wf(),
            old(self)@.next_id + JOINING_INSTANCES * old(self)@.drain_count() <= u32::MAX,
        ensures
            final(self).wf(),
            final(self)@ == old(self)@.drain_queue(),
            final(self)@.next_id <= old(self)@.next_id + JOINING_INSTANCES * old(self)@.drain_count(),
            final(self)@.config == old(self)@.config,
            final(self)@.contenders.len() >= old(self)@.contenders.len(),
    {
        let ghost start = self@;
        let max_count = self.config.enqueue_count as usize;
        let count = if self.contender_queue.len() < max_count {
            self.contender_queue.len()
        } else {
            max_count
        };
        let mut i: usize = 0;
        while i < count
            invariant
                i <= count,
                count == start.drain_count(),
                count <= start.queue.len(),
                self.wf(),
                self@ == start.admit_all(start.queue.take(i as int)),
                self@.contenders.len() >= start.contenders.len(),
                self@.queue == start.queue,
                self@.config == start.config,
                self@.next_id <= start.next_id + JOINING_INSTANCES * i,
                start.next_id + JOINING_INSTANCES * count <= u32::MAX,
            decreases count - i,
        {
            let contender = self.contender_queue[i];
            proof {
                lemma_add_contender_keeps(self@, contender, JOINING_INSTANCES);
                assert(start.queue.take(i + 1).drop_last() =~= start.queue.take(i as int));
            }
            self.add_contender(&contender, JOINING_INSTANCES);
            i += 1;
        }
        let ghost admitted = self@;
        let rest = self.contender_queue.split_off(count);
        self.contender_queue = rest;
        proof {
            assert(self@.queue =~= start.queue.skip(count as int));
            assert(self@.infos == admitted.infos);
            assert forall|address: Address| #[trigger]
                self@.info(address) == admitted.info(address) by {}
            assert(self@.instances_counted());
        }
    }

    /// Promotes the best entries of `ranking`, up to the configured number:
    /// the contender of each gains one instance, as far as its cap allows,
    /// and a program is credited with a win.
    pub fn promote_winners(&mut self, ranking: &Vec<(u32, i64)>)
        requires
            old(self).wf(),
            old(self)@.next_id + WINNER_INSTANCES * old(self)@.winner_count(ranking@.len())
                <= u32::MAX,
        ensures
            final(self).wf(),
            final(self)@ == old(self)@.promote_winners(ranking@),
            final(self)@.config == old(self)@.config,
            final(self)@.queue == old(self)@.queue,
            final(self)@.contenders.len() >= old(self)@.contenders.len(),
    {
        let ghost start = self@;
        let max_count = self.config.winner_count as usize;
        let count = if ranking.len() < max_count {
            ranking.len()
        } else {
            max_count
        };
        let mut i: usize = 0;
        while i < count
            invariant
                i <= count,
                count == start.winner_count(ranking@.len()),
                count <= ranking@.len(),
                self.wf(),
                self@ == start.promote_all(ranking@.take(i as int)),
                self@.contenders.len() >= start.contenders.len(),
                self@.config == start.config,
                self@.queue == start.queue,
                self@.next_id <= start.next_id + WINNER_INSTANCES * i,
                start.next_id + WINNER_INSTANCES * count <= u32::MAX,
            decreases count - i,
        {
            let id = ranking[i].0;
            let ghost before = self@;
            proof {
                assert(ranking@.take(i + 1).drop_last() =~= ranking@.take(i as int));
            }
            if let Some(place) = self.find_entry(id) {
                let contender = self.contenders[place].contender;
                proof {
                    lemma_add_contender_keeps(before, contender, WINNER_INSTANCES);
                }
                self.add_contender(&contender, WINNER_INSTANCES);
                if let Contender::Contract(contract) = contender {
                    let ghost grown = self@;
                    let j = self.find_info(&contract).unwrap();
                    let info = self.contract_infos[j].1;
                    let wins = if info.wins < u32::MAX {
                        info.wins + 1
                    } else {
                        u32::MAX
                    };
                    proof {
                        lemma_infos_map_update(
                            self.contract_infos@,
                            j as int,
                            ContractInfo { wins, ..info },
                        );
                    }
                    self.contract_infos.set(j, (contract, ContractInfo { wins, ..info }));
                    proof {
                        assert forall|address: Address|
                            {
                                &&& (#[trigger] self@.info(address)).instance_count == instances(
                                    self@.contenders,
                                    address,
                                )
                                &&& self@.info(address).instance_count
                                    <= self@.config.max_instances_per_contender
                            } by {
                            assert(grown.info(address).instance_count == instances(
                                grown.contenders,
                                address,
                            ));
                        }
                    }
                }
            }
            i += 1;
        }
    }
}

/// What a tick changed in the roster.
#[derive(Debug)]
pub struct RosterChanges {
    /// The entries that joined, in the order of their ids.
    pub registered: Vec<RosterEntry>,
    /// The entries that left, in the order of their ids.
    pub removed: Vec<RosterEntry>,
}

impl Pallet {
    /// Whether the ids left suffice for a tick that ranks `ranked` entries:
    /// what [`Pallet::evolve`] asks of its caller.
    pub fn has_ids_for_tick(&self, ranked: usize) -> (enough: bool)
        ensures
            enough == (self@.next_id + self@.tick_ids(ranked as nat) <= u32::MAX),
    {
        let max_count = self.config.enqueue_count as usize;
        let drained: u64 = if self.contender_queue.len() < max_count {
            self.contender_queue.len() as u64
        } else {
            max_count as u64
        };
        let winners: u64 = if ranked < self.config.winner_count as usize {
            ranked as u64
        } else {
            self.config.winner_count as u64
        };
        self.next_contender_instance_id as u64 + 2 * drained + winners <= u32::MAX as u64
    }

    /// Evolves the roster on the ranking of a tick: drains the queue, then
    /// promotes the winners, then evicts the lowest-ranked entries. Returns
    /// the entries that joined and those that left.
    pub fn evolve(&mut self, ranking: &Vec<(u32, i64)>) -> (changes: RosterChanges)
        requires
            old(self).wf(),
            old(self)@.next_id + old(self)@.tick_ids(ranking@.len()) <= u32::MAX,
        ensures
            final(self).wf(),
            final(self)@ == old(self)@.evolve(ranking@),
            changes.registered@ == old(self)@.drain_queue().promote_winners(
                ranking@,
            ).contenders.skip(old(self)@.contenders.len() as int),
            changes.removed@ == old(self)@.drain_queue().promote_winners(
                ranking@,
            ).contenders.filter(
                old(self)@.drain_queue().promote_winners(ranking@).leaves(ranking@),
            ),
    {
        let before = self.contenders.len();
        self.drain_queue();
        self.promote_winners(ranking);
        let mut registered: Vec<RosterEntry> = Vec::new();
        let mut i: usize = before;
        while i < self.contenders.len()
            invariant
                before <= i <= self.contenders@.len(),
                registered@ == self.contenders@.subrange(before as int, i as int),
            decreases self.contenders@.len() - i,
        {
            registered.push(self.contenders[i]);
            i += 1;
            assert(registered@ =~= self.contenders@.subrange(before as int, i as int));
        }
        assert(registered@ =~= self.contenders@.skip(before as int));
        let removed = self.evict(ranking);
        RosterChanges { registered, removed }
    }
}

} // verus!
