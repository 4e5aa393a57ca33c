//! Ordering of foreign proposals between shard groups.
use crate::block::{foreign_counter, foreign_indexes_sorted, Block, BlockId, Shard, ShardGroup};
use crate::store::{StateStore, StorageError};
use crate::fmap::{index_entries, index_map_entry, index_map_len};
use indexmap::IndexMap;
use vstd::prelude::*;

verus! {

/// The last index seen from `sender` (zero before any), by the first entry for it.
pub open spec fn last_index(entries: Seq<(ShardGroup, u64)>, sender: ShardGroup) -> u64
    decreases entries.len(),
{
    if entries.len() == 0 {
        0
    } else if entries[0].0 == sender {
        entries[0].1
    } else {
        last_index(entries.drop_first(), sender)
    }
}

/// What to do with a foreign proposal, given its index and the last one accepted from its sender.
#[derive(Copy, Clone, Debug, PartialEq, Eq, Structural)]
pub enum ForeignProposalAction {
    /// The next proposal in order: sequence it.
    Accept,
    /// Proposals are missing in between: hold it and request `missing_from..=missing_to`.
    Defer { missing_from: u64, missing_to: u64 },
    /// Already seen: a duplicate.
    Drop,
}

/// The decision for a proposal carrying `index` when the last accepted one was `prev`.
pub open spec fn foreign_action(prev: u64, index: u64) -> ForeignProposalAction {
    if index as int == prev + 1 {
        ForeignProposalAction::Accept
    } else if index as int > prev + 1 {
        ForeignProposalAction::Defer { missing_from: (prev + 1) as u64, missing_to: (index - 1) as u64 }
    } else {
        ForeignProposalAction::Drop
    }
}

/// Per sender shard group, the index of the last foreign proposal accepted from it.
#[derive(Clone, Debug, PartialEq, Eq)]
pub struct ForeignReceiveCounters {
    pub entries: Vec<(ShardGroup, u64)>,
}

proof fn lemma_last_index_update(entries: Seq<(ShardGroup, u64)>, k: int, sender: ShardGroup, v: u64, other: ShardGroup)
    requires
        0 <= k < entries.len(),
        entries[k].0 == sender,
        forall|j: int| 0 <= j < k ==> entries[j].0 != sender,
    ensures
        last_index(entries.update(k, (sender, v)), sender) == v,
        other != sender ==> last_index(entries.update(k, (sender, v)), other) == last_index(entries, other),
    decreases k,
{
    let n = entries.update(k, (sender, v));
    if k > 0 {
        assert(n[0] == entries[0]);
        assert(n.drop_first() =~= entries.drop_first().update(k - 1, (sender, v)));
        lemma_last_index_update(entries.drop_first(), k - 1, sender, v, other);
    } else {
        assert(n[0] == (sender, v));
        assert(n.drop_first() =~= entries.drop_first());
    }
}

proof fn lemma_last_index_push(entries: Seq<(ShardGroup, u64)>, sender: ShardGroup, v: u64, other: ShardGroup)
    requires
        forall|j: int| 0 <= j < entries.len() ==> entries[j].0 != sender,
    ensures
        last_index(entries.push((sender, v)), sender) == v,
        other != sender ==> last_index(entries.push((sender, v)), other) == last_index(entries, other),
    decreases entries.len(),
{
    let n = entries.push((sender, v));
    if entries.len() > 0 {
        assert(n[0] == entries[0]);
        assert(n.drop_first() =~= entries.drop_first().push((sender, v)));
        lemma_last_index_push(entries.drop_first(), sender, v, other);
    } else {
        assert(n[0] == (sender, v));
        assert(n.drop_first() =~= Seq::<(ShardGroup, u64)>::empty());
        assert(last_index(n.drop_first(), other) == 0);
    }
}

impl ForeignReceiveCounters {
    pub fn new() -> (r: ForeignReceiveCounters)
        ensures
            forall|sg: ShardGroup| last_index(r.entries@, sg) == 0,
    {
        ForeignReceiveCounters { entries: Vec::new() }
    }

    /// The last index accepted from `sender`, zero if none.
    pub fn last_seen(&self, sender: ShardGroup) -> (r: u64)
        ensures
            r == last_index(self.entries@, sender),
    {
        let mut i: usize = 0;
        assert(self.entries@.skip(0) =~= self.entries@);
        while i < self.entries.len()
            invariant
                i <= self.entries@.len(),
                last_index(self.entries@, sender) == last_index(self.entries@.skip(i as int), sender),
            decreases self.entries@.len() - i,
        {
            assert(self.entries@.skip(i as int).drop_first() =~= self.entries@.skip(i + 1));
            if self.entries[i].0 == sender {
                return self.entries[i].1;
            }
            i = i + 1;
        }
        0
    }

    /// Decides on a proposal from `sender` carrying `index`; an accepted one becomes the last seen.
    pub fn receive(&mut self, sender: ShardGroup, index: u64) -> (r: ForeignProposalAction)
        ensures
            r == foreign_action(last_index(old(self).entries@, sender), index),
            r is Accept ==> last_index(final(self).entries@, sender) == index,
            r is Accept ==> last_index(final(self).entries@, sender) == last_index(old(self).entries@, sender) + 1,
            !(r is Accept) ==> final(self).entries@ == old(self).entries@,
            forall|sg: ShardGroup| sg != sender ==> last_index(final(self).entries@, sg) == last_index(old(self).entries@, sg),
    {
        let prev = self.last_seen(sender);
        if prev < u64::MAX && index == prev + 1 {
            let mut i: usize = 0;
            while i < self.entries.len()
                invariant
                    i <= self.entries@.len(),
                    self.entries@ == old(self).entries@,
                    prev == last_index(old(self).entries@, sender),
                    index as int == prev + 1,
                    forall|j: int| 0 <= j < i ==> self.entries@[j].0 != sender,
                decreases self.entries@.len() - i,
            {
                if self.entries[i].0 == sender {
                    proof {
                        lemma_last_index_update(self.entries@, i as int, sender, index, sender);
                        assert forall|sg: ShardGroup| sg != sender implies last_index(self.entries@.update(i as int, (sender, index)), sg)
                            == last_index(self.entries@, sg) by {
                            lemma_last_index_update(self.entries@, i as int, sender, index, sg);
                        }
                    }
                    self.entries.set(i, (sender, index));
                    return ForeignProposalAction::Accept;
                }
                i = i + 1;
            }
            proof {
                lemma_last_index_push(self.entries@, sender, index, sender);
                assert forall|sg: ShardGroup| sg != sender implies last_index(self.entries@.push((sender, index)), sg)
                    == last_index(self.entries@, sg) by {
                    lemma_last_index_push(self.entries@, sender, index, sg);
                }
            }
            self.entries.push((sender, index));
            ForeignProposalAction::Accept
        } else if index > prev && index - prev > 1 {
            ForeignProposalAction::Defer { missing_from: prev + 1, missing_to: index - 1 }
        } else {
            ForeignProposalAction::Drop
        }
    }
}

/// A counter after one more proposal: starting at one, saturating at the largest value.
pub open spec fn incremented(c: Option<u64>) -> u64 {
    match c {
        Some(v) => if v < u64::MAX {
            (v + 1) as u64
        } else {
            v
        },
        None => 1,
    }
}

/// How many proposals were sent to each shard, kept sorted by shard.
#[derive(Clone, Debug, PartialEq, Eq)]
pub struct ForeignSendCounters {
    pub counters: Vec<(Shard, u64)>,
}

impl ForeignSendCounters {
    pub fn new() -> (r: ForeignSendCounters)
        ensures
            r.counters@.len() == 0,
    {
        ForeignSendCounters { counters: Vec::new() }
    }

    /// The counter of `shard`, zero if none.
    pub fn get_count(&self, shard: Shard) -> (r: u64)
        requires
            crate::block::foreign_indexes_sorted(self.counters@),
        ensures
            r == match crate::block::foreign_counter(self.counters@, shard) {
                Some(c) => c,
                None => 0,
            },
    {
        match crate::block::get_foreign_counter(&self.counters, shard) {
            Some(c) => c,
            None => 0,
        }
    }

    /// Counts one more proposal sent to `shard` (saturating), keeping the shards sorted.
    pub fn increment_counter(&mut self, shard: Shard)
        requires
            crate::block::foreign_indexes_sorted(old(self).counters@),
        ensures
            crate::block::foreign_indexes_sorted(final(self).counters@),
            crate::block::foreign_counter(final(self).counters@, shard) == Some(
                incremented(crate::block::foreign_counter(old(self).counters@, shard)),
            ),
            forall|other: Shard| other != shard ==> crate::block::foreign_counter(final(self).counters@, other)
                == crate::block::foreign_counter(old(self).counters@, other),
    {
        let mut i: usize = 0;
        while i < self.counters.len()
            invariant
                self.counters@ == old(self).counters@,
                crate::block::foreign_indexes_sorted(self.counters@),
                i <= self.counters@.len(),
                forall|j: int| 0 <= j < i ==> self.counters@[j].0 < shard,
            ensures
                self.counters@ == old(self).counters@,
                crate::block::foreign_indexes_sorted(self.counters@),
                i <= self.counters@.len(),
                forall|j: int| 0 <= j < i ==> self.counters@[j].0 < shard,
                i < self.counters@.len() ==> self.counters@[i as int].0 >= shard,
            decreases self.counters@.len() - i,
        {
            if self.counters[i].0 >= shard {
                break;
            }
            i = i + 1;
        }
        let ghost old_c = self.counters@;
        if i < self.counters.len() && self.counters[i].0 == shard {
            let c = self.counters[i].1;
            let next = if c < u64::MAX { c + 1 } else { c };
            self.counters.set(i, (shard, next));
            proof {
                let n = self.counters@;
                assert(n == old_c.update(i as int, (shard, next)));
                assert(old_c[i as int].0 == shard);
                assert(crate::block::foreign_counter(old_c, shard) == Some(c)) by {
                    let k = choose|k: int| 0 <= k < old_c.len() && old_c[k].0 == shard;
                    if k != i {
                        if k < i {
                        } else {
                            assert(old_c[i as int].0 < old_c[k].0);
                        }
                    }
                }
                assert(n[i as int].0 == shard);
                assert(crate::block::foreign_counter(n, shard) == Some(next)) by {
                    let k = choose|k: int| 0 <= k < n.len() && n[k].0 == shard;
                    if k != i {
                        if k < i {
                            assert(n[k] == old_c[k]);
                        } else {
                            assert(n[k] == old_c[k]);
                            assert(old_c[i as int].0 < old_c[k].0);
                        }
                    }
                }
                assert forall|other: Shard| other != shard implies crate::block::foreign_counter(n, other)
                    == crate::block::foreign_counter(old_c, other) by {
                    if exists|k: int| 0 <= k < n.len() && n[k].0 == other {
                        let k = choose|k: int| 0 <= k < n.len() && n[k].0 == other;
                        assert(n[k] == old_c[k]);
                        let k2 = choose|k2: int| 0 <= k2 < old_c.len() && old_c[k2].0 == other;
                        if k2 != k {
                            if k2 < k {
                                assert(old_c[k2].0 < old_c[k].0);
                            } else {
                                assert(old_c[k].0 < old_c[k2].0);
                            }
                        }
                    }
                    if exists|k: int| 0 <= k < old_c.len() && old_c[k].0 == other {
                        let k = choose|k: int| 0 <= k < old_c.len() && old_c[k].0 == other;
                        assert(n[k] == old_c[k]);
                    }
                }
            }
        } else {
            self.counters.insert(i, (shard, 1u64));
            proof {
                let n = self.counters@;
                assert(n == old_c.insert(i as int, (shard, 1u64)));
                assert forall|a: int, b: int| 0 <= a < b < n.len() implies n[a].0 < n[b].0 by {
                    if a < i && b < i {
                    } else if a < i && b == i {
                    } else if a < i && b > i {
                        assert(n[b] == old_c[b - 1]);
                    } else if a == i {
                        assert(n[b] == old_c[b - 1]);
                        assert(old_c[i as int].0 > shard);
                        if b - 1 > i {
                            assert(old_c[i as int].0 < old_c[b - 1].0);
                        }
                    } else {
                        assert(n[a] == old_c[a - 1]);
                        assert(n[b] == old_c[b - 1]);
                    }
                }
                assert(forall|k: int| 0 <= k < old_c.len() ==> old_c[k].0 != shard) by {
                    assert forall|k: int| 0 <= k < old_c.len() implies old_c[k].0 != shard by {
                        if k >= i && i < old_c.len() {
                            if k > i {
                                assert(old_c[i as int].0 < old_c[k].0);
                            }
                        }
                    }
                }
                assert(crate::block::foreign_counter(n, shard) == Some(1u64)) by {
                    assert(n[i as int].0 == shard);
                    let k = choose|k: int| 0 <= k < n.len() && n[k].0 == shard;
                    if k != i {
                        if k < i {
                            assert(n[k] == old_c[k]);
                        } else {
                            assert(n[k] == old_c[k - 1]);
                        }
                    }
                }
                assert forall|other: Shard| other != shard implies crate::block::foreign_counter(n, other)
                    == crate::block::foreign_counter(old_c, other) by {
                    if exists|k: int| 0 <= k < n.len() && n[k].0 == other {
                        let k = choose|k: int| 0 <= k < n.len() && n[k].0 == other;
                        let k2 = if k < i { k } else { k - 1 };
                        assert(old_c[k2] == n[k]);
                        let k3 = choose|k3: int| 0 <= k3 < old_c.len() && old_c[k3].0 == other;
                        if k3 != k2 {
                            if k3 < k2 {
                                assert(old_c[k3].0 < old_c[k2].0);
                            } else {
                                assert(old_c[k2].0 < old_c[k3].0);
                            }
                        }
                    }
                    if exists|k: int| 0 <= k < old_c.len() && old_c[k].0 == other {
                        let k = choose|k: int| 0 <= k < old_c.len() && old_c[k].0 == other;
                        let kn = if k < i { k } else { k + 1 };
                        assert(n[kn] == old_c[k]);
                    }
                }
            }
        }
    }

    /// Counts one proposal for each shard that a block's foreign indexes name.
    pub fn increment_for_block(&mut self, foreign_indexes: &IndexMap<Shard, u64>)
        requires
            crate::block::foreign_indexes_sorted(old(self).counters@),
            crate::block::foreign_indexes_sorted(index_entries(*foreign_indexes)),
        ensures
            crate::block::foreign_indexes_sorted(final(self).counters@),
            forall|shard: Shard| #![trigger crate::block::foreign_counter(final(self).counters@, shard)]
                crate::block::foreign_counter(final(self).counters@, shard) == if (exists|k: int|
                0 <= k < index_entries(*foreign_indexes).len() && index_entries(*foreign_indexes)[k].0 == shard) {
                Some(incremented(crate::block::foreign_counter(old(self).counters@, shard)))
            } else {
                crate::block::foreign_counter(old(self).counters@, shard)
            },
    {
        let ghost fi = index_entries(*foreign_indexes);
        let n = index_map_len(foreign_indexes);
        let mut i: usize = 0;
        while i < n
            invariant
                fi == index_entries(*foreign_indexes),
                n == fi.len(),
                i <= n,
                crate::block::foreign_indexes_sorted(fi),
                crate::block::foreign_indexes_sorted(self.counters@),
                forall|shard: Shard| #![trigger crate::block::foreign_counter(self.counters@, shard)]
                    crate::block::foreign_counter(self.counters@, shard) == if (exists|k: int|
                    0 <= k < i && fi[k].0 == shard) {
                    Some(incremented(crate::block::foreign_counter(old(self).counters@, shard)))
                } else {
                    crate::block::foreign_counter(old(self).counters@, shard)
                },
            decreases n - i,
        {
            let (shard, _) = index_map_entry(foreign_indexes, i);
            let ghost before = self.counters@;
            self.increment_counter(shard);
            proof {
                assert(!(exists|k: int| 0 <= k < i && fi[k].0 == shard)) by {
                    if exists|k: int| 0 <= k < i && fi[k].0 == shard {
                        let k = choose|k: int| 0 <= k < i && fi[k].0 == shard;
                        assert(fi[k].0 < fi[i as int].0);
                    }
                }
                assert forall|sh: Shard| #![trigger crate::block::foreign_counter(self.counters@, sh)]
                    crate::block::foreign_counter(self.counters@, sh) == if (exists|k: int|
                    0 <= k < i + 1 && fi[k].0 == sh) {
                    Some(incremented(crate::block::foreign_counter(old(self).counters@, sh)))
                } else {
                    crate::block::foreign_counter(old(self).counters@, sh)
                } by {
                    if sh == shard {
                        assert(fi[i as int].0 == sh);
                        assert(crate::block::foreign_counter(before, sh) == crate::block::foreign_counter(old(self).counters@, sh));
                    } else {
                        assert(crate::block::foreign_counter(before, sh) == crate::block::foreign_counter(self.counters@, sh));
                        if exists|k: int| 0 <= k < i + 1 && fi[k].0 == sh {
                            let k = choose|k: int| 0 <= k < i + 1 && fi[k].0 == sh;
                            assert(k < i);
                        }
                    }
                }
            }
            i = i + 1;
        }
    }

    pub fn is_empty(&self) -> (r: bool)
        ensures
            r == (self.counters@.len() == 0),
    {
        self.counters.len() == 0
    }
}

/// The counters stored for block `id` (the first entry for it).
pub open spec fn find_counters(table: Seq<(BlockId, ForeignSendCounters)>, id: BlockId) -> Option<ForeignSendCounters>
    decreases table.len(),
{
    if table.len() == 0 {
        None
    } else if table[0].0 == id {
        Some(table[0].1)
    } else {
        find_counters(table.drop_first(), id)
    }
}

proof fn lemma_counters_update(t: Seq<(BlockId, ForeignSendCounters)>, k: int, id: BlockId, c: ForeignSendCounters, other: BlockId)
    requires
        0 <= k < t.len(),
        t[k].0 == id,
        forall|j: int| 0 <= j < k ==> t[j].0 != id,
    ensures
        find_counters(t.update(k, (id, c)), other) == if other == id { Some(c) } else { find_counters(t, other) },
    decreases k,
{
    let n = t.update(k, (id, c));
    if k > 0 {
        assert(n[0] == t[0]);
        assert(n.drop_first() =~= t.drop_first().update(k - 1, (id, c)));
        lemma_counters_update(t.drop_first(), k - 1, id, c, other);
    } else {
        assert(n[0] == (id, c));
        assert(n.drop_first() =~= t.drop_first());
    }
}

proof fn lemma_counters_push(t: Seq<(BlockId, ForeignSendCounters)>, id: BlockId, c: ForeignSendCounters, other: BlockId)
    requires
        forall|j: int| 0 <= j < t.len() ==> t[j].0 != id,
    ensures
        find_counters(t.push((id, c)), other) == if other == id { Some(c) } else { find_counters(t, other) },
    decreases t.len(),
{
    let n = t.push((id, c));
    if t.len() > 0 {
        assert(n[0] == t[0]);
        assert(n.drop_first() =~= t.drop_first().push((id, c)));
        lemma_counters_push(t.drop_first(), id, c, other);
    } else {
        assert(n[0] == (id, c));
        assert(n.drop_first() =~= Seq::<(BlockId, ForeignSendCounters)>::empty());
        assert(find_counters(n.drop_first(), other) is None);
    }
}

/// The counters stored for block `id`, none if it has no entry.
pub open spec fn counters_of(table: Seq<(BlockId, ForeignSendCounters)>, id: BlockId) -> Seq<(Shard, u64)> {
    match find_counters(table, id) {
        Some(c) => c.counters@,
        None => Seq::empty(),
    }
}

/// `c` holds the counters of `base` with one more for each shard of `sent`.
pub open spec fn counters_after(c: Seq<(Shard, u64)>, base: Seq<(Shard, u64)>, sent: Seq<(Shard, u64)>) -> bool {
    &&& foreign_indexes_sorted(c)
    &&& forall|shard: Shard| #![trigger foreign_counter(c, shard)]
        foreign_counter(c, shard) == if (exists|k: int| 0 <= k < sent.len() && sent[k].0 == shard) {
            Some(incremented(foreign_counter(base, shard)))
        } else {
            foreign_counter(base, shard)
        }
}

fn sorted_counters(v: &Vec<(Shard, u64)>) -> (r: bool)
    ensures
        r == foreign_indexes_sorted(v@),
{
    if v.len() < 2 {
        return true;
    }
    let mut i: usize = 0;
    while i < v.len() - 1
        invariant
            v@.len() >= 2,
            i < v@.len(),
            forall|a: int, b: int| 0 <= a < b <= i ==> v@[a].0 < v@[b].0,
        decreases v@.len() - i,
    {
        if v[i].0 >= v[i + 1].0 {
            return false;
        }
        i = i + 1;
    }
    true
}

fn copy_counters(v: &Vec<(Shard, u64)>) -> (r: Vec<(Shard, u64)>)
    ensures
        r@ == v@,
{
    let mut out: Vec<(Shard, u64)> = Vec::new();
    let mut i: usize = 0;
    while i < v.len()
        invariant
            i <= v@.len(),
            out@ == v@.subrange(0, i as int),
        decreases v@.len() - i,
    {
        out.push(v[i]);
        assert(out@ =~= v@.subrange(0, i + 1));
        i = i + 1;
    }
    assert(v@.subrange(0, v@.len() as int) =~= v@);
    out
}

impl StateStore {
    /// The counters stored for block `id`.
    pub fn get_send_counters(&self, id: &BlockId) -> (r: Vec<(Shard, u64)>)
        ensures
            r@ == counters_of(self.foreign_send_counters@, *id),
    {
        let mut i: usize = 0;
        assert(self.foreign_send_counters@.skip(0) =~= self.foreign_send_counters@);
        while i < self.foreign_send_counters.len()
            invariant
                i <= self.foreign_send_counters@.len(),
                find_counters(self.foreign_send_counters@, *id) == find_counters(self.foreign_send_counters@.skip(i as int), *id),
            decreases self.foreign_send_counters@.len() - i,
        {
            assert(self.foreign_send_counters@.skip(i as int).drop_first() =~= self.foreign_send_counters@.skip(i + 1));
            if self.foreign_send_counters[i].0.equals(id) {
                return copy_counters(&self.foreign_send_counters[i].1.counters);
            }
            i = i + 1;
        }
        Vec::new()
    }

    /// Stores the send counters of `block` (replacing any row it had): those of its justify block,
    /// one more for each shard its foreign indexes name. Nothing is stored when there are none.
    /// Unsorted counters are a data inconsistency, and then nothing changes.
    pub fn save_foreign_send_counters(&mut self, block: &Block) -> (r: Result<(), StorageError>)
        ensures
            r is Err <==> !(foreign_indexes_sorted(counters_of(old(self).foreign_send_counters@, block.justify.block_id))
                && foreign_indexes_sorted(index_entries(block.header.foreign_indexes))),
            r matches Err(e) ==> e == StorageError::DataInconsistency,
            r is Err ==> *final(self) == *old(self),
            r is Ok && counters_of(old(self).foreign_send_counters@, block.justify.block_id).len() == 0
                && index_entries(block.header.foreign_indexes).len() == 0 ==> *final(self) == *old(self),
            r is Ok && !(counters_of(old(self).foreign_send_counters@, block.justify.block_id).len() == 0
                && index_entries(block.header.foreign_indexes).len() == 0) ==> ({
                &&& find_counters(final(self).foreign_send_counters@, block.header.id) is Some
                &&& counters_after(counters_of(final(self).foreign_send_counters@, block.header.id),
                    counters_of(old(self).foreign_send_counters@, block.justify.block_id), index_entries(block.header.foreign_indexes))
                &&& forall|other: BlockId| other != block.header.id ==> #[trigger] find_counters(final(self).foreign_send_counters@, other)
                    == find_counters(old(self).foreign_send_counters@, other)
                &&& final(self).foreign_send_counters@.len() <= old(self).foreign_send_counters@.len() + 1
            }),
            r is Ok ==> final(self).blocks == old(self).blocks && final(self).substates == old(self).substates
                && final(self).locked == old(self).locked && final(self).last_executed == old(self).last_executed,
    {
        let base = self.get_send_counters(&block.justify.block_id);
        if !sorted_counters(&base) || !crate::block::is_map_sorted_by_shard(&block.header.foreign_indexes) {
            return Err(StorageError::DataInconsistency);
        }
        let ghost b = base@;
        let ghost sent = index_entries(block.header.foreign_indexes);
        let mut counters = ForeignSendCounters { counters: base };
        counters.increment_for_block(&block.header.foreign_indexes);
        if counters.is_empty() {
            proof {
                if b.len() > 0 {
                    assert(foreign_counter(b, b[0].0) is Some);
                    assert(foreign_counter(counters.counters@, b[0].0) is Some);
                }
                if sent.len() > 0 {
                    assert(foreign_counter(counters.counters@, sent[0].0) is Some);
                }
            }
            return Ok(());
        }
        proof {
            let c = counters.counters@;
            if b.len() == 0 && sent.len() == 0 {
                assert(foreign_counter(c, c[0].0) is Some);
                assert(foreign_counter(b, c[0].0) is None);
            }
        }
        let id = block.header.id;
        assert(counters_after(counters.counters@, b, sent));
        let mut i: usize = 0;
        while i < self.foreign_send_counters.len()
            invariant
                counters_after(counters.counters@, b, sent),
                b == counters_of(old(self).foreign_send_counters@, block.justify.block_id),
                sent == index_entries(block.header.foreign_indexes),
                foreign_indexes_sorted(b) && foreign_indexes_sorted(sent),
                !(b.len() == 0 && sent.len() == 0),
                id == block.header.id,
                i <= self.foreign_send_counters@.len(),
                self.foreign_send_counters@ == old(self).foreign_send_counters@,
                self.blocks == old(self).blocks,
                self.substates == old(self).substates,
                self.locked == old(self).locked,
                self.last_executed == old(self).last_executed,
                forall|j: int| 0 <= j < i ==> self.foreign_send_counters@[j].0 != id,
            decreases self.foreign_send_counters@.len() - i,
        {
            if self.foreign_send_counters[i].0.equals(&id) {
                proof {
                    assert forall|other: BlockId| #[trigger] find_counters(self.foreign_send_counters@.update(i as int, (id, counters)), other)
                        == if other == id { Some(counters) } else { find_counters(self.foreign_send_counters@, other) } by {
                        lemma_counters_update(self.foreign_send_counters@, i as int, id, counters, other);
                    }
                }
                self.foreign_send_counters.set(i, (id, counters));
                return Ok(());
            }
            i = i + 1;
        }
        proof {
            assert forall|other: BlockId| #[trigger] find_counters(self.foreign_send_counters@.push((id, counters)), other)
                == if other == id { Some(counters) } else { find_counters(self.foreign_send_counters@, other) } by {
                lemma_counters_push(self.foreign_send_counters@, id, counters, other);
            }
        }
        self.foreign_send_counters.push((id, counters));
        Ok(())
    }
}

} // verus!
