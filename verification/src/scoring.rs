//! From the points of a tick to lasting reputation and a ranking.

use crate::address::Address;
use crate::admission::lemma_infos_map_update;
use crate::arena::{has_id, index_of_id, ArenaView, Pallet};
use crate::contender::{Contender, ContractInfo, RosterEntry};
use vstd::prelude::*;

verus! {

/// The length of a period of time over which the multiplier stays the same.
pub const PERIOD: u128 = 1800;

/// The number of periods that pass before the multiplier begins to grow.
pub const QUIET_PERIODS: u128 = 7200;

/// The factor by which points count towards reputation at time `n`: one for
/// the first 7200 periods, and one more with every period after that.
pub open spec fn multiplier_spec(n: u128) -> int {
    let grown = n / PERIOD - QUIET_PERIODS + 1;
    if grown > 1 {
        grown
    } else {
        1
    }
}

/// The factor by which points count towards reputation at time `n`.
pub fn multiplier(n: u128) -> (m: u128)
    ensures
        m == multiplier_spec(n),
        m >= 1,
{
    let periods = n / PERIOD;
    if periods > QUIET_PERIODS {
        periods - QUIET_PERIODS + 1
    } else {
        1
    }
}

/// A reputation of `reputation` after `points` more at the factor `factor`.
/// Reputation stops at the largest value that it can hold.
pub open spec fn credited(reputation: u128, points: i64, factor: int) -> u128 {
    if reputation + points * factor > u128::MAX {
        u128::MAX
    } else {
        (reputation + points * factor) as u128
    }
}

/// The ids of the points ascend.
pub open spec fn ids_ascending(points: Seq<(u32, i64)>) -> bool {
    forall|i: int, j: int|
        0 <= i < j < points.len() ==> (#[trigger] points[i]).0 < (#[trigger] points[j]).0
}

/// Whether `p` comes before `q` in a ranking: by more points, and among equal
/// points by the smaller id.
pub open spec fn outranks(p: (u32, i64), q: (u32, i64)) -> bool {
    p.1 > q.1 || (p.1 == q.1 && p.0 < q.0)
}

/// Each entry of `ranking` comes before all that follow it.
pub open spec fn ranked(ranking: Seq<(u32, i64)>) -> bool {
    forall|i: int, j: int|
        0 <= i < j < ranking.len() ==> outranks(#[trigger] ranking[i], #[trigger] ranking[j])
}

/// Whether `ranking` is the ranking of `points`: the same entries, best
/// first.
pub open spec fn is_ranking(ranking: Seq<(u32, i64)>, points: Seq<(u32, i64)>) -> bool {
    ranking.to_multiset() == points.to_multiset() && ranked(ranking)
}

impl ArenaView {
    /// The contender that holds the entry `id`, if the roster has it.
    pub open spec fn contender(self, id: u32) -> Option<Contender> {
        if has_id(self.contenders, id) {
            Some(self.contenders[index_of_id(self.contenders, id)].contender)
        } else {
            None
        }
    }

    /// The arena after the entry `id` scored `points` in the tick at time
    /// `n`: positive points of a program's entry count towards the program's
    /// reputation, times the factor of the time. Nothing else changes
    /// anything.
    pub open spec fn credit_one(self, id: u32, points: i64, n: u128) -> ArenaView {
        match self.contender(id) {
            Some(Contender::Contract(address)) => if points > 0 {
                ArenaView {
                    infos: self.infos.insert(
                        address,
                        ContractInfo {
                            point: credited(self.info(address).point, points, multiplier_spec(n)),
                            ..self.info(address)
                        },
                    ),
                    ..self
                }
            } else {
                self
            },
            _ => self,
        }
    }

    /// The arena after all of `points` are credited, in their order.
    pub open spec fn credit(self, points: Seq<(u32, i64)>, n: u128) -> ArenaView
        decreases points.len(),
    {
        if points.len() == 0 {
            self
        } else {
            self.credit(points.drop_last(), n).credit_one(points.last().0, points.last().1, n)
        }
    }
}

/// In a roster of ascending ids, an id is found at one place only.
pub proof fn lemma_index_of_id(arena: ArenaView, i: int)
    requires
        arena.ids_ordered(),
        0 <= i < arena.contenders.len(),
    ensures
        has_id(arena.contenders, arena.contenders[i].id),
        index_of_id(arena.contenders, arena.contenders[i].id) == i,
{
    let id = arena.contenders[i].id;
    let j = index_of_id(arena.contenders, id);
    assert(arena.contenders[j].id == id);
    if i < j {
        assert(arena.contenders[i].id < arena.contenders[j].id);
    } else if j < i {
        assert(arena.contenders[j].id < arena.contenders[i].id);
    }
}

/// A program with an entry in the roster is known to the arena.
pub proof fn lemma_rostered_is_known(arena: ArenaView, i: int, address: Address)
    requires
        arena.wf(),
        0 <= i < arena.contenders.len(),
        arena.contenders[i].contender == Contender::Contract(address),
    ensures
        arena.known(address),
        arena.info(address).instance_count >= 1,
{
    let pred = |e: RosterEntry| e.contender == Contender::Contract(address);
    arena.contenders.lemma_filter_contains(pred, i);
    assert(arena.contenders.filter(pred).len() >= 1);
    assert(arena.info(address).instance_count == crate::arena::instances(
        arena.contenders,
        address,
    ));
}

/// Crediting points changes reputation only, and never lowers it.
pub proof fn lemma_credit_one(arena: ArenaView, id: u32, points: i64, n: u128)
    requires
        arena.wf(),
    ensures
        arena.credit_one(id, points, n).wf(),
        arena.credit_one(id, points, n).infos.dom() == arena.infos.dom(),
        arena.credit_one(id, points, n).contenders == arena.contenders,
        arena.credit_one(id, points, n).queue == arena.queue,
        arena.credit_one(id, points, n).next_id == arena.next_id,
        arena.credit_one(id, points, n).config == arena.config,
        forall|address: Address|
            {
                &&& (#[trigger] arena.credit_one(id, points, n).info(address)).point >= arena.info(
                    address,
                ).point
                &&& arena.credit_one(id, points, n).info(address).instance_count == arena.info(
                    address,
                ).instance_count
                &&& arena.credit_one(id, points, n).info(address).wins == arena.info(address).wins
            },
{
    let after = arena.credit_one(id, points, n);
    if let Some(Contender::Contract(address)) = arena.contender(id) {
        if points > 0 {
            let i = index_of_id(arena.contenders, id);
            lemma_rostered_is_known(arena, i, address);
            assert(points * multiplier_spec(n) >= 0) by (nonlinear_arith)
                requires
                    points > 0,
                    multiplier_spec(n) >= 1,
            ;
            assert(after.infos.dom() =~= arena.infos.dom());
            assert forall|other: Address|
                {
                    &&& (#[trigger] after.info(other)).instance_count == crate::arena::instances(
                        after.contenders,
                        other,
                    )
                    &&& after.info(other).instance_count
                        <= after.config.max_instances_per_contender
                } by {
                assert(arena.info(other).instance_count == crate::arena::instances(
                    arena.contenders,
                    other,
                ));
            }
        }
    }
}

/// Crediting a list of points changes reputation only, and never lowers it.
pub proof fn lemma_credit(arena: ArenaView, points: Seq<(u32, i64)>, n: u128)
    requires
        arena.wf(),
    ensures
        arena.credit(points, n).wf(),
        arena.credit(points, n).infos.dom() == arena.infos.dom(),
        arena.credit(points, n).contenders == arena.contenders,
        arena.credit(points, n).instances_count == arena.instances_count,
        arena.credit(points, n).queue == arena.queue,
        arena.credit(points, n).next_id == arena.next_id,
        arena.credit(points, n).config == arena.config,
        forall|address: Address|
            {
                &&& (#[trigger] arena.credit(points, n).info(address)).point >= arena.info(
                    address,
                ).point
                &&& arena.credit(points, n).info(address).instance_count == arena.info(
                    address,
                ).instance_count
                &&& arena.credit(points, n).info(address).wins == arena.info(address).wins
            },
    decreases points.len(),
{
    if points.len() > 0 {
        let before = arena.credit(points.drop_last(), n);
        lemma_credit(arena, points.drop_last(), n);
        lemma_credit_one(before, points.last().0, points.last().1, n);
        let after = arena.credit(points, n);
        assert forall|address: Address|
            {
                &&& (#[trigger] after.info(address)).point >= arena.info(address).point
                &&& after.info(address).instance_count == arena.info(address).instance_count
                &&& after.info(address).wins == arena.info(address).wins
            } by {
            assert(before.info(address).point >= arena.info(address).point);
        }
    }
}

impl Pallet {
    /// Where the roster holds the entry `id`, if it does.
    pub(crate) fn find_entry(&self, id: u32) -> (found: Option<usize>)
        requires
            self@.ids_ordered(),
        ensures
            found is Some <==> has_id(self@.contenders, id),
            found matches Some(i) ==> i < self@.contenders.len() && i == index_of_id(
                self@.contenders,
                id,
            ) && self@.contenders[i as int].id == id,
    {
        let mut i: usize = 0;
        while i < self.contenders.len()
            invariant
                i <= self.contenders@.len(),
                self@.ids_ordered(),
                forall|k: int| 0 <= k < i ==> (#[trigger] self.contenders@[k]).id != id,
            decreases self.contenders@.len() - i,
        {
            if self.contenders[i].id == id {
                proof {
                    lemma_index_of_id(self@, i as int);
                }
                return Some(i);
            }
            i += 1;
        }
        None
    }

    /// The contender that holds the entry `id`, if the roster has it.
    pub fn contender(&self, id: u32) -> (contender: Option<Contender>)
        requires
            self.wf(),
        ensures
            contender == self@.contender(id),
    {
        match self.find_entry(id) {
            Some(i) => Some(self.contenders[i].contender),
            None => None,
        }
    }

    /// Credits the points of the tick at time `n` to the programs'
    /// reputations: for each entry with positive points that the roster
    /// still holds and that is a program's, the program gains the points
    /// times the factor of the time.
    pub fn credit(&mut self, points: &Vec<(u32, i64)>, n: u128)
        requires
            old(self).wf(),
        ensures
            final(self).wf(),
            final(self)@ == old(self)@.credit(points@, n),
    {
        let factor = multiplier(n);
        let ghost start = self@;
        let mut k: usize = 0;
        while k < points.len()
            invariant
                k <= points@.len(),
                self.wf(),
                factor == multiplier_spec(n),
                self@ == start.credit(points@.take(k as int), n),
            decreases points@.len() - k,
        {
            let (id, point) = points[k];
            let ghost before = self@;
            proof {
                assert(points@.take(k + 1).drop_last() =~= points@.take(k as int));
                lemma_credit_one(before, id, point, n);
            }
            if let Some(i) = self.find_entry(id) {
                if let Contender::Contract(contract) = self.contenders[i].contender {
                    if point > 0 {
                        proof {
                            lemma_rostered_is_known(before, i as int, contract);
                        }
                        let j = self.find_info(&contract).unwrap();
                        let info = self.contract_infos[j].1;
                        let gained = match (point as u128).checked_mul(factor) {
                            Some(product) => info.point.saturating_add(product),
                            None => u128::MAX,
                        };
                        proof {
                            assert(point * factor >= point) by (nonlinear_arith)
                                requires
                                    point > 0,
                                    factor >= 1,
                            ;
                            lemma_infos_map_update(
                                self.contract_infos@,
                                j as int,
                                ContractInfo { point: gained, ..info },
                            );
                        }
                        self.contract_infos.set(j, (contract, ContractInfo { point: gained, ..info }));
                    }
                }
            }
            k += 1;
        }
        proof {
            assert(points@.take(points@.len() as int) =~= points@);
        }
    }
}

/// Whether `p` comes before `q` in a ranking.
fn comes_before(p: (u32, i64), q: (u32, i64)) -> (r: bool)
    ensures
        r == outranks(p, q),
{
    p.1 > q.1 || (p.1 == q.1 && p.0 < q.0)
}

/// Ranks the points of a tick: most points first, and among equal points the
/// smaller id first.
pub fn rank(points: &Vec<(u32, i64)>) -> (ranking: Vec<(u32, i64)>)
    requires
        ids_ascending(points@),
    ensures
        is_ranking(ranking@, points@),
{
    let mut ranking: Vec<(u32, i64)> = Vec::new();
    let mut k: usize = 0;
    assert(points@.take(0) =~= ranking@);
    while k < points.len()
        invariant
            k <= points@.len(),
            ids_ascending(points@),
            ranked(ranking@),
            ranking@.to_multiset() == points@.take(k as int).to_multiset(),
            forall|j: int, m: int|
                0 <= j < ranking@.len() && k <= m < points@.len() ==> (#[trigger] ranking@[j]).0 < (
                #[trigger] points@[m]).0,
        decreases points@.len() - k,
    {
        let entry = points[k];
        let mut place: usize = 0;
        while place < ranking.len() && comes_before(ranking[place], entry)
            invariant
                place <= ranking@.len(),
                forall|j: int| 0 <= j < place ==> outranks(#[trigger] ranking@[j], entry),
            decreases ranking@.len() - place,
        {
            place += 1;
        }
        let ghost before = ranking@;
        proof {
            assert(points@.take(k + 1) =~= points@.take(k as int).push(entry));
            vstd::seq_lib::to_multiset_build(points@.take(k as int), entry);
            vstd::seq_lib::to_multiset_insert(before, place as int, entry);
            if place < before.len() {
                assert(before[place as int].0 < points@[k as int].0);
            }
        }
        ranking.insert(place, entry);
        proof {
            assert forall|i: int, j: int| 0 <= i < j < ranking@.len() implies outranks(
                #[trigger] ranking@[i],
                #[trigger] ranking@[j],
            ) by {
                if j < place {
                    assert(outranks(before[i], before[j]));
                } else if j == place {
                    assert(outranks(before[i], entry));
                } else if i < place {
                    assert(outranks(before[i], before[j - 1]));
                } else if i == place {
                    assert(before[place as int].0 < points@[k as int].0);
                    if j - 1 > place {
                        assert(outranks(before[place as int], before[j - 1]));
                    }
                } else {
                    assert(outranks(before[i - 1], before[j - 1]));
                }
            }
            assert forall|j: int, m: int|
                0 <= j < ranking@.len() && k + 1 <= m < points@.len() implies (
            #[trigger] ranking@[j]).0 < (#[trigger] points@[m]).0 by {
                if j < place {
                    assert(before[j].0 < points@[m].0);
                } else if j == place {
                    assert(points@[k as int].0 < points@[m].0);
                } else {
                    assert(before[j - 1].0 < points@[m].0);
                }
            }
        }
        k += 1;
    }
    proof {
        assert(points@.take(points@.len() as int) =~= points@);
    }
    ranking
}

} // verus!
