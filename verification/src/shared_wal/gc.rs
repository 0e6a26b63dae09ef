//! Reclaiming segments that no member needs.
use vstd::prelude::*;

use super::state::{self, Action, ActionView, SharedWal, WalView};
use super::types::{SharedDbId, SharedWalStatus};
use crate::error::{self, Error, Result};
use crate::ordmap::{self, OrderedKey};

verus! {

/// Whether a member still holds the record `seq` in the log, or is not known at all.
pub open spec fn held(wal: WalView, id: SharedDbId, seq: u64) -> bool {
    !wal.members.contains_key(id) || wal.members[id].needs(seq)
}

/// Whether `number` is the oldest segment, not the active one, and nobody holds a record in it.
pub open spec fn reclaimable(wal: WalView, number: u64) -> bool {
    &&& wal.segments.contains_key(number)
    &&& forall|other: u64| #[trigger] wal.segments.contains_key(other) ==> number <= other
    &&& number != wal.segment
    &&& forall|id: SharedDbId| #[trigger]
        wal.segments[number].members.contains_key(id) ==> !held(
            wal,
            id,
            wal.segments[number].members[id],
        )
}

/// The log without the segment `number`.
pub open spec fn without(wal: WalView, number: u64) -> WalView {
    WalView {
        segments: wal.segments.remove(number),
        storage: (wal.storage - wal.segments[number].length) as u64,
        charged: (wal.charged - (128 + 96 * wal.segments[number].members.len())) as u64,
        ..wal
    }
}

/// The segments that go, oldest first, when at most `limit` of them may: one is dropped as long as
/// there is one that nobody needs.
pub open spec fn reclaim_run(wal: WalView, limit: nat) -> Seq<u64>
    decreases limit,
{
    if limit == 0 || !(exists|number: u64| reclaimable(wal, number)) {
        Seq::empty()
    } else {
        let number = choose|number: u64| reclaimable(wal, number);
        seq![number] + reclaim_run(without(wal, number), (limit - 1) as nat)
    }
}

/// The log without the segments of `run`.
pub open spec fn without_all(wal: WalView, run: Seq<u64>) -> WalView
    decreases run.len(),
{
    if run.len() == 0 {
        wal
    } else {
        without_all(without(wal, run[0]), run.skip(1))
    }
}

/// All segments that can go, oldest first.
pub open spec fn reclaim_all(wal: WalView) -> Seq<u64> {
    reclaim_run(wal, wal.segments.len())
}

/// The log without the segments that nobody needs.
pub open spec fn reclaimed(wal: WalView) -> WalView {
    without_all(wal, reclaim_all(wal))
}

/// The removals that reclaiming asks for.
pub open spec fn removals(run: Seq<u64>) -> Seq<ActionView> {
    run.map_values(|number: u64| ActionView::RemoveSegment(number))
}

/// The first entry of an ordered segment table has the least number.
proof fn first_is_least(wal: &SharedWal)
    requires
        wal.wf(),
    ensures
        wal@.segments.contains_key(wal.segments.entries@[0].0),
        wal@.segments[wal.segments.entries@[0].0] == wal.segments.entries@[0].1@,
        forall|other: u64| #[trigger]
            wal@.segments.contains_key(other) ==> wal.segments.entries@[0].0 <= other,
{
    let entries = wal.segments.entries@;
    ordmap::lookup_at(entries, 0);
    assert forall|other: u64| #[trigger]
        wal@.segments.contains_key(other) implies entries[0].0 <= other by {
        assert(wal.segments@.contains_key(other));
        let i = ordmap::key_index(entries, other);
        assert(entries[i].0 == other);
        if i > 0 {
            assert(OrderedKey::rank(entries[0].0)
                < OrderedKey::rank(entries[i].0));
        }
    }
}

/// At most one segment can go first.
proof fn one_is_reclaimable(wal: WalView, number: u64)
    requires
        reclaimable(wal, number),
    ensures
        (choose|other: u64| reclaimable(wal, other)) == number,
{
    let other = choose|other: u64| reclaimable(wal, other);
    assert(wal.segments.contains_key(other) && wal.segments.contains_key(number));
}

/// The view has as many segments as the table.
proof fn segments_len(wal: &SharedWal)
    requires
        wal.wf(),
    ensures
        wal@.segments.dom().finite(),
        wal@.segments.len() == wal.segments.entries@.len(),
{
    map_len(wal.segments.entries@);
    assert(wal@.segments.dom() =~= wal.segments@.dom());
}

impl SharedWal {
    pub fn holds(&self, id: &SharedDbId, seq: u64) -> (held_back: bool)
        requires
            self.wf(),
        ensures
            held_back == held(self@, *id, seq),
    {
        match self.members.get(id) {
            Some(member) => member.needs(seq),
            None => true,
        }
    }

    /// Drops the oldest segment from the log if nobody needs it, and names it.
    fn drop_oldest(&mut self) -> (removed: Option<u64>)
        requires
            old(self).wf(),
        ensures
            final(self).wf(),
            match removed {
                Some(number) => reclaimable(old(self)@, number) && final(self)@ == without(
                    old(self)@,
                    number,
                ),
                None => final(self)@ == old(self)@ && forall|number: u64| !#[trigger] reclaimable(
                    old(self)@,
                    number,
                ),
            },
            final(self).members == old(self).members,
    {
        proof {
            first_is_least(self);
        }
        let number: u64 = self.segments.entries[0].0;
        if number == self.segment {
            proof {
                assert forall|other: u64| !#[trigger] reclaimable(self@, other) by {
                    assert(self@.segments.contains_key(number));
                }
            }
            return None;
        }
        let mut index: usize = 0;
        while index < self.segments.entries[0].1.members.len()
            invariant
                self == old(self),
                self.wf(),
                self.segments.entries@[0].0 == number,
                self@.segments.contains_key(number),
                self@.segments[number] == self.segments.entries@[0].1@,
                forall|other: u64| #[trigger]
                    self@.segments.contains_key(other) ==> number <= other,
                number != self.segment,
                forall|k: int|
                    0 <= k < index ==> !held(
                        self@,
                        (#[trigger] self.segments.entries@[0].1.members.entries@[k]).0,
                        self.segments.entries@[0].1.members.entries@[k].1,
                    ),
            decreases self.segments.entries@[0].1.members.entries@.len() - index,
        {
            let entry = &self.segments.entries[0].1.members.entries[index];
            if self.holds(&entry.0, entry.1) {
                proof {
                    let members = self.segments.entries@[0].1.members.entries@;
                    ordmap::lookup_at(members, index as int);
                    assert forall|other: u64| !#[trigger] reclaimable(self@, other) by {
                        if reclaimable(self@, other) {
                            assert(self@.segments.contains_key(number));
                            assert(other == number);
                            assert(self@.segments[number].members.contains_key(
                                members[index as int].0,
                            ));
                        }
                    }
                }
                return None;
            }
            index += 1;
        }
        let length: u64 = self.segments.entries[0].1.length;
        let count: usize = self.segments.entries[0].1.members.len();
        let ghost before = self.segments.entries@;
        let ghost members = before[0].1.members.entries@;
        proof {
            assert forall|id: SharedDbId| #[trigger]
                self@.segments[number].members.contains_key(id) implies !held(
                self@,
                id,
                self@.segments[number].members[id],
            ) by {
                let k = ordmap::key_index(members, id);
                assert(members[k].0 == id);
                ordmap::lookup_at(members, k);
            }
            state::totals_remove_first(before);
            state::totals_nonnegative(before.remove(0));
            state::member_charge_nonnegative(self.members.entries@);
            state::segment_view_remove(self.segments@, number);
            map_len(members);
            assert(before.len() > 1) by {
                if before.len() == 1 {
                    assert(before.last().0 == before[0].0);
                }
            }
        }
        self.segments.remove_first();
        self.storage = self.storage - length;
        self.charged = self.charged - (128 + (count as u64) * 96);
        proof {
            assert(self.segments.entries@.last() == before.last());
            assert(self@.storage == old(self)@.storage - old(self)@.segments[number].length);
        }
        Some(number)
    }

    /// Drops every segment that nobody needs, oldest first, and asks for the removal of its file.
    pub fn gc_locked(&mut self, actions: &mut Vec<Action>)
        requires
            old(self).wf(),
        ensures
            final(self).wf(),
            final(self)@ == reclaimed(old(self)@),
            forall|number: u64| !#[trigger] reclaimable(final(self)@, number),
            final(self).members == old(self).members,
            state::action_views(final(actions)@) == state::action_views(old(actions)@) + removals(
                reclaim_all(old(self)@),
            ),
    {
        let ghost begin = self@;
        let ghost mut done: Seq<u64> = Seq::empty();
        let ghost before = state::action_views(actions@);
        proof {
            assert(before + removals(done) =~= before);
            assert(done + reclaim_all(begin) =~= reclaim_all(begin));
        }
        loop
            invariant_except_break
                self.wf(),
                self.members == old(self).members,
                reclaim_all(begin) == done + reclaim_all(self@),
                reclaimed(begin) == reclaimed(self@),
                state::action_views(actions@) == before + removals(done),
            ensures
                self.wf(),
                self.members == old(self).members,
                reclaim_all(begin) == done,
                reclaimed(begin) == self@,
                forall|number: u64| !#[trigger] reclaimable(self@, number),
                state::action_views(actions@) == before + removals(done),
            decreases self@.segments.len(),
        {
            let ghost here = self@;
            let ghost written = actions@;
            proof {
                segments_len(self);
            }
            match self.drop_oldest() {
                Some(number) => {
                    actions.push(Action::RemoveSegment(number));
                    proof {
                        segments_len(self);
                        one_is_reclaimable(here, number);
                        assert(here.segments.dom().contains(number));
                        assert(self@.segments.dom() =~= here.segments.dom().remove(number));
                        let run = reclaim_all(self@);
                        assert((seq![number] + run).skip(1) =~= run);
                        assert(done + (seq![number] + run) =~= done.push(number) + run);
                        assert(state::action_views(actions@) =~= state::action_views(written).push(
                            ActionView::RemoveSegment(number),
                        ));
                        assert(before + removals(done.push(number)) =~= (before + removals(
                            done,
                        )).push(ActionView::RemoveSegment(number)));
                        done = done.push(number);
                    }
                },
                None => {
                    proof {
                        assert(reclaim_all(here) =~= Seq::empty());
                        assert(done + reclaim_all(here) =~= done);
                    }
                    break ;
                },
            }
        }
    }

    /// What the log reports about itself.
    pub fn maintenance_status(&self) -> (r: Result<SharedWalStatus>)
        requires
            self.wf(),
        ensures
            r == (if self@.poison {
                Err::<SharedWalStatus, Error>(Error::Poisoned)
            } else {
                Ok(
                    SharedWalStatus {
                        storage: (self@.storage - self@.buffer.len()) as u64,
                        buffered: self@.buffer.len() as u64,
                        durable: self@.durable,
                        visible: self@.lsn,
                        writes: self@.writes,
                        syncs: self@.syncs,
                    },
                )
            }),
    {
        if self.poison {
            return Err(Error::Poisoned);
        }
        proof {
            state::totals_nonnegative(self.segments.entries@.drop_last());
        }
        Ok(
            SharedWalStatus {
                storage: self.storage - self.buffer.len() as u64,
                buffered: self.buffer.len() as u64,
                durable: self.durable,
                visible: self.lsn,
                writes: self.writes,
                syncs: self.syncs,
            },
        )
    }

    /// The members that keep the oldest segment from being reclaimed, in identity order, at most
    /// `limit` of them. The active segment has none.
    pub fn maintenance_blockers(&self, limit: usize) -> (r: Result<Vec<SharedDbId>>)
        requires
            self.wf(),
        ensures
            match r {
                Err(e) => (self@.poison && e == Error::Poisoned) || (!self@.poison && limit
                    > self.options.max_databases && e == error::invalid(
                    "blocker limit",
                    "exceeds database budget",
                )),
                Ok(output) => !self@.poison && limit <= self.options.max_databases && output@
                    == blockers(
                    self@,
                    self.segments.entries@[0].0,
                    self.segments.entries@[0].1.members.entries@,
                    limit as int,
                ),
            },
    {
        if self.poison {
            return Err(Error::Poisoned);
        }
        if limit > self.options.max_databases as usize {
            return Err(Error::invalid("blocker limit", "exceeds database budget"));
        }
        let mut output: Vec<SharedDbId> = Vec::new();
        let number: u64 = self.segments.entries[0].0;
        let ghost members = self.segments.entries@[0].1.members.entries@;
        if number == self.segment {
            assert(output@ =~= blockers(self@, number, members, limit as int));
            return Ok(output);
        }
        let mut index: usize = 0;
        assert(members.take(0) =~= Seq::<(SharedDbId, u64)>::empty());
        while index < self.segments.entries[0].1.members.len()
            invariant
                self.wf(),
                index <= members.len(),
                members == self.segments.entries@[0].1.members.entries@,
                output@ == holders(self@, members.take(index as int), limit as int),
                output@.len() <= limit,
            decreases members.len() - index,
        {
            let entry = &self.segments.entries[0].1.members.entries[index];
            proof {
                assert(members.take(index + 1).drop_last() =~= members.take(index as int));
            }
            if output.len() < limit && self.holds(&entry.0, entry.1) {
                output.push(entry.0);
            }
            index += 1;
        }
        assert(members.take(members.len() as int) =~= members);
        Ok(output)
    }
}

/// The first `limit` members, in order, that hold their record.
pub open spec fn holders(
    wal: WalView,
    members: Seq<(SharedDbId, u64)>,
    limit: int,
) -> Seq<SharedDbId>
    decreases members.len(),
{
    if members.len() == 0 {
        Seq::empty()
    } else {
        let earlier = holders(wal, members.drop_last(), limit);
        if earlier.len() < limit && held(wal, members.last().0, members.last().1) {
            earlier.push(members.last().0)
        } else {
            earlier
        }
    }
}

/// The members of the oldest segment that keep it, unless it is the active one.
pub open spec fn blockers(
    wal: WalView,
    oldest: u64,
    members: Seq<(SharedDbId, u64)>,
    limit: int,
) -> Seq<SharedDbId> {
    if oldest == wal.segment {
        Seq::empty()
    } else {
        holders(wal, members, limit)
    }
}

/// An ordered entry sequence has as many keys as entries.
pub(crate) proof fn map_len<K: OrderedKey, V>(entries: Seq<(K, V)>)
    requires
        ordmap::ordered(entries),
    ensures
        ordmap::as_map(entries).dom().finite(),
        ordmap::as_map(entries).len() == entries.len(),
    decreases entries.len(),
{
    if entries.len() == 0 {
        assert(ordmap::as_map(entries) =~= Map::empty());
    } else {
        let rest = entries.drop_last();
        map_len(rest);
        let last = entries.len() - 1;
        ordmap::place_is_insert(rest, last, entries[last].0, entries[last].1);
        assert(rest.insert(last, entries[last]) =~= entries);
    }
}

/// While a live member's catalog has not reached a record, or its archive has not released it, the
/// record's segment cannot go, and neither can a later one.
pub proof fn needed_segments_stay(
    wal: WalView,
    number: u64,
    id: SharedDbId,
    later: u64,
)
    requires
        wal.segments.contains_key(number),
        wal.segments[number].members.contains_key(id),
        wal.members.contains_key(id),
        wal.members[id].needs(wal.segments[number].members[id]),
        number <= later,
    ensures
        !reclaimable(wal, later),
{
}

/// Reclaiming, however far it goes, leaves every segment that holds a needed record as it is.
pub proof fn reclaiming_keeps_needed_segments(
    wal: WalView,
    limit: nat,
    number: u64,
    id: SharedDbId,
)
    requires
        wal.segments.contains_key(number),
        wal.segments[number].members.contains_key(id),
        wal.members.contains_key(id),
        wal.members[id].needs(wal.segments[number].members[id]),
    ensures
        ({
            let after = without_all(wal, reclaim_run(wal, limit));
            after.segments.contains_key(number) && after.segments[number] == wal.segments[number]
        }),
    decreases limit,
{
    if limit > 0 && exists|oldest: u64| reclaimable(wal, oldest) {
        let oldest = choose|oldest: u64| reclaimable(wal, oldest);
        if number <= oldest {
            needed_segments_stay(wal, number, id, oldest);
        }
        let rest = reclaim_run(without(wal, oldest), (limit - 1) as nat);
        assert((seq![oldest] + rest).skip(1) =~= rest);
        reclaiming_keeps_needed_segments(
            without(wal, oldest),
            (limit - 1) as nat,
            number,
            id,
        );
    }
}

/// Reclaiming touches neither the members nor the active segment, nor any position: only the older
/// segments go, with the storage and the index bytes that they took.
pub proof fn reclaiming_keeps_the_rest(wal: WalView, limit: nat)
    ensures
        ({
            let after = without_all(wal, reclaim_run(wal, limit));
            &&& after == (WalView {
                segments: after.segments,
                storage: after.storage,
                charged: after.charged,
                ..wal
            })
            &&& after.segments.contains_key(wal.segment) == wal.segments.contains_key(wal.segment)
            &&& wal.segments.contains_key(wal.segment) ==> after.segments[wal.segment]
                == wal.segments[wal.segment]
        }),
    decreases limit,
{
    if limit > 0 && exists|oldest: u64| reclaimable(wal, oldest) {
        let oldest = choose|oldest: u64| reclaimable(wal, oldest);
        let rest = reclaim_run(without(wal, oldest), (limit - 1) as nat);
        assert((seq![oldest] + rest).skip(1) =~= rest);
        reclaiming_keeps_the_rest(without(wal, oldest), (limit - 1) as nat);
    }
}

} // verus!
