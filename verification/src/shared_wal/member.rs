//! One database's view of the log that it shares.
use vstd::prelude::*;

use super::archive;
use super::batch;
use super::frame::{self, Pointer};
use super::gc;
use super::membership;
use super::registry;
use super::state::{self, Action, ActionView, MemberView, SharedWal, WalView};
use super::store;
use super::types::SharedDbId;
use crate::bytes;
use crate::error::{self, Error, Result};
use crate::limits;
use crate::ordmap;
use crate::wal::DurablePosition;

verus! {

/// A handle on one member: its identity and the last sequence that it appended.
#[derive(Clone, Copy)]
pub struct SharedMember {
    pub id: SharedDbId,
    pub seq: u64,
}

/// A walk along a member's chain, from its latest record back to a floor.
pub struct ChainWalk {
    pub id: SharedDbId,
    pub pointer: Pointer,
    pub seq: u64,
    pub floor: u64,
    pub found: Vec<Pointer>,
    /// The scratch bytes that were reserved for the walk.
    pub charged: u64,
    pub export: bool,
}

pub struct ChainView {
    pub id: SharedDbId,
    pub pointer: Pointer,
    pub seq: u64,
    pub floor: u64,
    pub found: Seq<Pointer>,
    pub charged: u64,
    pub export: bool,
}

impl View for ChainWalk {
    type V = ChainView;

    open spec fn view(&self) -> ChainView {
        ChainView {
            id: self.id,
            pointer: self.pointer,
            seq: self.seq,
            floor: self.floor,
            found: self.found@,
            charged: self.charged,
            export: self.export,
        }
    }
}

/// Whether each pointer lies in front of the one that was found before it.
pub open spec fn descending(found: Seq<Pointer>) -> bool {
    forall|i: int, j: int|
        0 <= i < j < found.len() ==> (#[trigger] found[j]).spec_before(#[trigger] found[i])
}

impl ChainWalk {
    /// The records found so far lie ever further in front, and the reserved scratch covers what
    /// was found and what is still to come.
    pub open spec fn wf(&self) -> bool {
        &&& descending(self.found@)
        &&& self.found@.len() > 0 && self.pointer != Pointer::spec_none()
            ==> self.pointer.spec_before(self.found@.last())
        &&& self.seq > self.floor ==> (self.found@.len() + self.seq - self.floor) * 16
            == self.charged
        &&& self.seq <= self.floor ==> self.found@.len() * 16 == self.charged
    }

    /// Where the next record of the chain lies, until the floor is reached.
    pub fn next(&self) -> (r: Result<Option<Pointer>>)
        ensures
            r == chain_next(self@),
    {
        if self.seq <= self.floor {
            return Ok(None);
        }
        if !self.export && self.pointer == Pointer::none() {
            return Err(frame::invalid("missing required member predecessor"));
        }
        if self.pointer.segment == 0 || self.pointer.offset < frame::SEGMENT_HEADER as u64 {
            return Err(frame::invalid("invalid predecessor coordinate"));
        }
        Ok(Some(self.pointer))
    }

    /// Takes the frame that was read there. `inner` is the sequence that the record codec reads
    /// from the record in it.
    pub fn accept(&mut self, source: &[u8], inner: Result<u64>) -> (r: Result<()>)
        requires
            old(self).wf(),
            chain_next(old(self)@) matches Ok(Some(_)),
        ensures
            match chain_step(old(self)@, source@, inner) {
                Err(e) => r == Err::<(), Error>(e) && *final(self) == *old(self),
                Ok(after) => r == Ok::<(), Error>(()) && final(self).wf() && final(self)@ == after,
            },
    {
        let frame = match frame::inspect(source, inner) {
            Ok(frame) => frame,
            Err(e) => return Err(e),
        };
        if !frame.id.same(&self.id) || frame.seq != self.seq || (frame.previous != Pointer::none()
            && !frame.previous.before(self.pointer)) {
            return Err(
                frame::invalid(
                    if self.export {
                        "export predecessor conflict"
                    } else {
                        "member recovery chain conflict"
                    },
                ),
            );
        }
        let ghost before = self.found@;
        self.found.push(self.pointer);
        proof {
            let after = self.found@;
            assert forall|i: int, j: int| 0 <= i < j < after.len() implies (
            #[trigger] after[j]).spec_before(#[trigger] after[i]) by {
                if j == after.len() - 1 {
                    if i < before.len() - 1 {
                        assert(before[before.len() - 1].spec_before(before[i]));
                    }
                }
            }
        }
        self.pointer = frame.previous;
        self.seq = self.seq - 1;
        Ok(())
    }

    /// The records found, oldest first: the order in which they are replayed.
    pub fn replay_order(&self) -> (order: Vec<Pointer>)
        ensures
            order@ == self.found@.reverse(),
    {
        let mut order: Vec<Pointer> = Vec::new();
        let mut index: usize = self.found.len();
        while index > 0
            invariant
                index <= self.found@.len(),
                order@.len() == self.found@.len() - index,
                forall|k: int|
                    0 <= k < order@.len() ==> #[trigger] order@[k] == self.found@[self.found@.len()
                        - 1 - k],
            decreases index,
        {
            index -= 1;
            order.push(self.found[index]);
        }
        assert(order@ =~= self.found@.reverse());
        order
    }
}

pub open spec fn chain_next(walk: ChainView) -> Result<Option<Pointer>> {
    if walk.seq <= walk.floor {
        Ok(None)
    } else if !walk.export && walk.pointer == Pointer::spec_none() {
        Err(frame::shared("missing required member predecessor"))
    } else if walk.pointer.segment == 0 || walk.pointer.offset < frame::SEGMENT_HEADER {
        Err(frame::shared("invalid predecessor coordinate"))
    } else {
        Ok(Some(walk.pointer))
    }
}

/// The walk after one more frame, or why the frame does not continue the chain.
pub open spec fn chain_step(walk: ChainView, source: Seq<u8>, inner: Result<u64>) -> Result<
    ChainView,
> {
    match frame::inspected(source, inner) {
        Err(e) => Err(e),
        Ok(frame) => if frame.id != walk.id || frame.seq != walk.seq || (frame.previous
            != Pointer::spec_none() && !frame.previous.spec_before(walk.pointer)) {
            Err(
                frame::shared(
                    if walk.export {
                        "export predecessor conflict"
                    } else {
                        "member recovery chain conflict"
                    },
                ),
            )
        } else {
            Ok(
                ChainView {
                    pointer: frame.previous,
                    seq: (walk.seq - 1) as u64,
                    found: walk.found.push(walk.pointer),
                    ..walk
                },
            )
        },
    }
}

/// The log made durable as far as a member's records go.
pub open spec fn recover_settled(wal: WalView, id: SharedDbId) -> WalView {
    if !wal.poison && wal.members.contains_key(id) && wal.members[id].lsn > wal.durable {
        store::synced(wal)
    } else {
        wal
    }
}

/// The file work that makes a member's records durable before they are read back.
pub open spec fn recover_actions(wal: WalView, id: SharedDbId) -> Seq<ActionView> {
    if !wal.poison && wal.members.contains_key(id) && wal.members[id].lsn > wal.durable {
        store::sync_actions(wal)
    } else {
        Seq::empty()
    }
}

/// Where a member's recovery starts, or why it cannot: the log after it was made durable as far as
/// the member needs, and the scratch reserved.
pub open spec fn recover_outcome(wal: WalView, id: SharedDbId, tail_seq: u64) -> Result<
    (WalView, ChainView),
> {
    if wal.poison {
        Err(Error::Poisoned)
    } else if !wal.members.contains_key(id) {
        Err(frame::shared("missing recovery member"))
    } else {
        let member = wal.members[id];
        let settled = recover_settled(wal, id);
        let walk = ChainView {
            id,
            pointer: member.latest,
            seq: member.seq,
            floor: member.checkpoint,
            found: Seq::empty(),
            charged: 0,
            export: false,
        };
        if tail_seq != member.checkpoint {
            Err(frame::shared("checkpoint changed while opening"))
        } else if member.seq == member.checkpoint {
            Ok((settled, walk))
        } else {
            let charge = archive::saturated(member.seq - member.checkpoint) * 16;
            let total = wal.scratch_bytes + charge;
            if charge > u64::MAX {
                Err(frame::shared("scratch overflow"))
            } else if total > u64::MAX {
                Err(frame::shared("position overflow"))
            } else if total > wal.options.max_bytes {
                Err(
                    error::limit(
                        "shared_recovery_scratch_bytes",
                        total as u64,
                        wal.options.max_bytes,
                    ),
                )
            } else {
                Ok(
                    (
                        WalView { scratch_bytes: total as u64, ..settled },
                        ChainView { charged: charge as u64, ..walk },
                    ),
                )
            }
        }
    }
}

impl SharedMember {
    /// Starts the recovery of a member behind a catalog that covers the sequences up to
    /// `tail_seq`. The records that the walk finds are then replayed, oldest first, and its
    /// scratch is released.
    pub fn recover(wal: &mut SharedWal, id: SharedDbId, tail_seq: u64, actions: &mut Vec<Action>)
        -> (r: Result<(SharedMember, ChainWalk)>)
        requires
            old(wal).wf(),
        ensures
            final(wal).wf(),
            match recover_outcome(old(wal)@, id, tail_seq) {
                Err(e) => r matches Err(found) && found == e && final(wal)@ == recover_settled(
                    old(wal)@,
                    id,
                ),
                Ok((after, walk)) => {
                    &&& r matches Ok((member, found))
                    &&& final(wal)@ == after
                    &&& found@ == walk
                    &&& found.wf()
                    &&& member == (SharedMember { id, seq: old(wal)@.members[id].seq })
                },
            },
            state::action_views(final(actions)@) == state::action_views(old(actions)@)
                + recover_actions(old(wal)@, id),
    {
        assert(state::action_views(actions@) + Seq::<ActionView>::empty()
            =~= state::action_views(actions@));
        if wal.poison {
            return Err(Error::Poisoned);
        }
        let at: usize = match wal.members.find(&id) {
            Some(at) => at,
            None => return Err(frame::invalid("missing recovery member")),
        };
        proof {
            state::member_view_at(wal.members@, id);
        }
        if wal.members.entries[at].1.lsn > wal.durable {
            wal.sync_locked(actions);
        }
        let member = &wal.members.entries[at].1;
        let pointer: Pointer = member.latest;
        let seq: u64 = member.seq;
        let checkpoint: u64 = member.checkpoint;
        if tail_seq != checkpoint {
            return Err(frame::invalid("checkpoint changed while opening"));
        }
        let handle = SharedMember { id, seq };
        let mut walk = ChainWalk {
            id,
            pointer,
            seq,
            floor: checkpoint,
            found: Vec::new(),
            charged: 0,
            export: false,
        };
        assert(walk.found@ =~= Seq::<Pointer>::empty());
        if seq == checkpoint {
            return Ok((handle, walk));
        }
        let records: u64 = seq.saturating_sub(checkpoint);
        if records > u64::MAX / 16 {
            return Err(frame::invalid("scratch overflow"));
        }
        let charge: u64 = records * 16;
        let total: u64 = match frame::add(wal.scratch_bytes, charge) {
            Ok(total) => total,
            Err(e) => return Err(e),
        };
        if total > wal.options.max_bytes {
            return Err(
                Error::limit("shared_recovery_scratch_bytes", total, wal.options.max_bytes),
            );
        }
        wal.scratch_bytes = total;
        walk.charged = charge;
        Ok((handle, walk))
    }

    /// The sequence of the next record.
    pub fn next_seq(&self) -> (r: Result<u64>)
        ensures
            r == frame::sum(self.seq, 1),
    {
        frame::add(self.seq, 1)
    }

    /// Appends a record that was encoded for the next sequence.
    pub fn append(
        &mut self,
        wal: &mut SharedWal,
        raw: &[u8],
        digest: [u8; 32],
        actions: &mut Vec<Action>,
    ) -> (r: Result<u64>)
        requires
            old(wal).wf(),
        ensures
            final(wal).wf(),
            final(self).id == old(self).id,
            ({
                let run = append_run(old(wal)@, old(self).id, old(self).seq, raw@, digest);
                let base = gc::without_all(old(wal)@, run);
                let begun = state::action_views(old(actions)@) + gc::removals(run);
                match append_outcome(old(wal)@, old(self).id, old(self).seq, raw@, digest) {
                    Err(e) => r == Err::<u64, Error>(e) && final(self).seq == old(self).seq
                        && final(wal)@ == (WalView {
                        poison: base.poison || (old(self).seq < u64::MAX && store::append_poisons(
                            base,
                            old(self).id,
                            (old(self).seq + 1) as u64,
                            raw@.len() as int,
                            digest,
                        )),
                        ..base
                    }) && state::action_views(final(actions)@) == begun,
                    Ok(after) => r == Ok::<u64, Error>((old(self).seq + 1) as u64)
                        && final(self).seq == old(self).seq + 1 && final(wal)@ == after
                        && state::action_views(final(actions)@) == begun + store::append_actions(
                        base,
                        store::length_of(raw@.len() as int),
                    ),
                }
            }),
    {
        assert(state::action_views(actions@) + gc::removals(Seq::empty()) =~= state::action_views(
            actions@,
        ));
        let seq: u64 = match frame::add(self.seq, 1) {
            Ok(seq) => seq,
            Err(e) => return Err(e),
        };
        match wal.append_raw(self.id, seq, raw, digest, actions) {
            Ok(_) => {},
            Err(e) => return Err(e),
        }
        self.seq = seq;
        Ok(seq)
    }

    /// Appends records that were encoded for the next sequences, all of them or none.
    pub fn append_batch(
        &mut self,
        wal: &mut SharedWal,
        raws: &[Vec<u8>],
        digests: &[[u8; 32]],
        actions: &mut Vec<Action>,
    ) -> (r: Result<u64>)
        requires
            old(wal).wf(),
            digests@.len() == raws@.len(),
        ensures
            final(wal).wf(),
            final(self).id == old(self).id,
            ({
                let views = batch::raw_views(raws@);
                let first = (old(self).seq + 1) as u64;
                match batch_memory(old(self).seq, views) {
                    Some(e) => r == Err::<u64, Error>(e) && final(wal)@ == old(wal)@
                        && *final(actions) == *old(actions) && final(self).seq == old(self).seq,
                    None => {
                        let run = batch::batch_run(old(wal)@, old(self).id, first, views);
                        let base = gc::without_all(old(wal)@, run);
                        let begun = state::action_views(old(actions)@) + gc::removals(run);
                        match batch::batch_outcome(base, old(self).id, first, views) {
                            Err(e) => r == Err::<u64, Error>(e) && final(wal)@ == base
                                && state::action_views(final(actions)@) == begun && final(self).seq
                                == old(self).seq,
                            Ok(_) => if batch::batch_accepted(
                                base,
                                old(self).id,
                                first,
                                views,
                                digests@,
                            ) {
                                r == Ok::<u64, Error>((old(self).seq + raws@.len()) as u64)
                                    && final(self).seq == old(self).seq + raws@.len() && final(wal)@
                                    == batch::batch_appended(
                                    base,
                                    old(self).id,
                                    first,
                                    views,
                                    digests@,
                                    raws@.len() as nat,
                                ) && state::action_views(final(actions)@) == begun
                                    + batch::batch_actions(
                                    base,
                                    old(self).id,
                                    first,
                                    views,
                                    digests@,
                                    raws@.len() as nat,
                                )
                            } else {
                                r == Err::<u64, Error>(Error::Poisoned) && final(self).seq == old(
                                    self,
                                ).seq && exists|k: int|
                                    #![trigger batch::breaks_at(
                                        base,
                                        old(self).id,
                                        first,
                                        views,
                                        digests@,
                                        k,
                                    )]
                                    batch::breaks_at(
                                        base,
                                        old(self).id,
                                        first,
                                        views,
                                        digests@,
                                        k,
                                    ) && final(wal)@ == batch::broken_off(
                                        base,
                                        old(self).id,
                                        first,
                                        views,
                                        digests@,
                                        k,
                                    ) && state::action_views(final(actions)@) == begun
                                        + batch::batch_actions(
                                        base,
                                        old(self).id,
                                        first,
                                        views,
                                        digests@,
                                        k as nat,
                                    )
                            },
                        }
                    },
                }
            }),
    {
        let first: u64 = match frame::add(self.seq, 1) {
            Ok(first) => first,
            Err(e) => return Err(e),
        };
        let ghost views = batch::raw_views(raws@);
        let mut memory: u64 = 0;
        let mut index: usize = 0;
        assert(views.take(0) =~= Seq::<Seq<u8>>::empty());
        while index < raws.len()
            invariant
                index <= raws@.len(),
                views == batch::raw_views(raws@),
                views.len() == raws@.len(),
                first == self.seq + 1,
                *self == *old(self),
                wal@ == old(wal)@,
                *actions == *old(actions),
                wal.wf(),
                first + index <= u64::MAX,
                memory == record_memory(views.take(index as int)),
                memory <= limits::MAX_OPERATION_MEMORY_BYTES,
                memory_refusal(self.seq, views, index as int) is None,
            decreases raws@.len() - index,
        {
            proof {
                let next = views.take(index + 1);
                assert(next.drop_last() =~= views.take(index as int));
                assert(next.last() == raws@[index as int]@);
                memory_refusal_is_final(self.seq, views, index + 1);
            }
            let share: u64 = match frame::add(
                raws[index].len() as u64,
                core::mem::size_of::<Vec<u8>>() as u64,
            ) {
                Ok(share) => share,
                Err(e) => return Err(e),
            };
            memory = match frame::add(memory, share) {
                Ok(memory) => memory,
                Err(e) => return Err(e),
            };
            if memory > limits::MAX_OPERATION_MEMORY_BYTES as u64 {
                return Err(
                    Error::limit(
                        "operation_memory_bytes",
                        memory,
                        limits::MAX_OPERATION_MEMORY_BYTES as u64,
                    ),
                );
            }
            if first > u64::MAX - index as u64 - 1 {
                return Err(frame::invalid("position overflow"));
            }
            index += 1;
        }
        match wal.append_batch_raw(self.id, first, raws, digests, actions) {
            Ok(_) => {},
            Err(e) => return Err(e),
        }
        self.seq = self.seq + raws.len() as u64;
        Ok(self.seq)
    }

    /// Makes the member's records durable and names the last one.
    pub fn sync(&mut self, wal: &mut SharedWal, actions: &mut Vec<Action>) -> (r: Result<
        DurablePosition,
    >)
        requires
            old(wal).wf(),
        ensures
            final(wal).wf(),
            *final(self) == *old(self),
            match sync_outcome(old(wal)@, old(self).id) {
                Err(e) => r == Err::<DurablePosition, Error>(e) && final(wal)@ == old(wal)@
                    && *final(actions) == *old(actions),
                Ok(after) => {
                    let member = old(wal)@.members[old(self).id];
                    &&& final(wal)@ == after
                    &&& r == Ok::<DurablePosition, Error>(
                        DurablePosition {
                            seq: member.seq,
                            segment: member.latest.segment,
                            offset: member.latest.offset,
                        },
                    )
                    &&& state::action_views(final(actions)@) == state::action_views(old(actions)@)
                        + (if member.lsn > old(wal)@.durable {
                        store::sync_actions(old(wal)@)
                    } else {
                        Seq::empty()
                    })
                },
            },
    {
        if wal.poison {
            return Err(Error::Poisoned);
        }
        let at: usize = match wal.members.find(&self.id) {
            Some(at) => at,
            None => return Err(frame::invalid("missing sync member")),
        };
        proof {
            state::member_view_at(wal.members@, self.id);
            assert(state::action_views(actions@) + Seq::<ActionView>::empty()
                =~= state::action_views(actions@));
        }
        if wal.members.entries[at].1.lsn > wal.durable {
            wal.sync_locked(actions);
        }
        let ghost table = wal.members.entries@;
        let ghost map = wal.members@;
        let member = wal.members.value_mut(at);
        member.durable_seq = member.seq;
        member.durable_pointer = member.latest;
        let seq: u64 = member.seq;
        let latest: Pointer = member.latest;
        proof {
            let after = wal.members.entries@[at as int].1;
            assert(wal.members.entries@ =~= table.update(at as int, (self.id, after)));
            ordmap::update_is_insert(table, at as int, after);
            state::member_charge_update(table, at as int, (self.id, after));
            state::member_view_insert(map, self.id, after);
            assert(after@.root =~= table[at as int].1@.root);
        }
        Ok(DurablePosition::new(seq, latest.segment, latest.offset))
    }

    /// Notes that the catalog covers everything this member appended, and reclaims the segments
    /// that nobody needs any more.
    pub fn checkpoint(&self, wal: &mut SharedWal, actions: &mut Vec<Action>) -> (r: Result<()>)
        requires
            old(wal).wf(),
        ensures
            final(wal).wf(),
            match checkpoint_outcome(old(wal)@, self.id, self.seq) {
                Err(e) => r == Err::<(), Error>(e) && final(wal)@ == old(wal)@ && *final(actions)
                    == *old(actions),
                Ok(after) => r == Ok::<(), Error>(()) && final(wal)@ == gc::reclaimed(after)
                    && state::action_views(final(actions)@) == state::action_views(old(actions)@)
                    + gc::removals(gc::reclaim_all(after)),
            },
    {
        if wal.poison {
            return Err(Error::Poisoned);
        }
        let at: usize = match wal.members.find(&self.id) {
            Some(at) => at,
            None => return Err(frame::invalid("missing checkpoint member")),
        };
        proof {
            state::member_view_at(wal.members@, self.id);
        }
        let ghost table = wal.members.entries@;
        let ghost map = wal.members@;
        let seq: u64 = self.seq;
        let member = wal.members.value_mut(at);
        member.checkpoint = seq;
        member.bytes = 0;
        proof {
            let after = wal.members.entries@[at as int].1;
            assert(wal.members.entries@ =~= table.update(at as int, (self.id, after)));
            ordmap::update_is_insert(table, at as int, after);
            state::member_charge_update(table, at as int, (self.id, after));
            state::member_view_insert(map, self.id, after);
            assert(after@.root =~= table[at as int].1@.root);
        }
        wal.gc_locked(actions);
        Ok(())
    }

    /// The bytes since the member's checkpoint that may not be durable yet.
    pub fn unsynced_bytes(&self, wal: &SharedWal) -> (bytes: u64)
        requires
            wal.wf(),
        ensures
            bytes == (if wal@.poison || !wal@.members.contains_key(self.id)
                || wal@.members[self.id].lsn <= wal@.durable {
                0
            } else {
                wal@.members[self.id].bytes
            }),
    {
        if wal.poison {
            return 0;
        }
        match wal.members.get(&self.id) {
            Some(member) => if member.lsn <= wal.durable {
                0
            } else {
                member.bytes
            },
            None => 0,
        }
    }

    /// The bytes since the member's checkpoint.
    pub fn wal_bytes(&self, wal: &SharedWal) -> (bytes: u64)
        requires
            wal.wf(),
        ensures
            bytes == (if wal@.poison || !wal@.members.contains_key(self.id) {
                0
            } else {
                wal@.members[self.id].bytes
            }),
    {
        if wal.poison {
            return 0;
        }
        match wal.members.get(&self.id) {
            Some(member) => member.bytes,
            None => 0,
        }
    }

    /// The bytes of the whole log.
    pub fn storage_bytes(&self, wal: &SharedWal) -> (bytes: u64)
        ensures
            bytes == (if wal@.poison {
                0
            } else {
                wal@.storage
            }),
    {
        if wal.poison {
            0
        } else {
            wal.storage
        }
    }

    /// The last record of the member that is known to be durable.
    pub fn durable_position(&self, wal: &SharedWal) -> (position: DurablePosition)
        requires
            wal.wf(),
        ensures
            position == durable_of(wal@, self.id),
    {
        if wal.poison {
            return DurablePosition::new(0, 0, 0);
        }
        match wal.members.get(&self.id) {
            Some(member) => if member.lsn <= wal.durable {
                DurablePosition::new(member.seq, member.latest.segment, member.latest.offset)
            } else {
                DurablePosition::new(
                    member.durable_seq,
                    member.durable_pointer.segment,
                    member.durable_pointer.offset,
                )
            },
            None => DurablePosition::new(0, 0, 0),
        }
    }
}

/// The segments that are reclaimed to make room for the record after `last`.
pub open spec fn append_run(
    wal: WalView,
    id: SharedDbId,
    last: u64,
    raw: Seq<u8>,
    digest: [u8; 32],
) -> Seq<u64> {
    if last == u64::MAX {
        Seq::empty()
    } else {
        store::append_run(wal, id, (last + 1) as u64, raw.len() as int, digest)
    }
}

/// The log after one more record, or why the record is refused.
pub open spec fn append_outcome(
    wal: WalView,
    id: SharedDbId,
    last: u64,
    raw: Seq<u8>,
    digest: [u8; 32],
) -> Result<WalView> {
    if last == u64::MAX {
        Err(frame::shared("position overflow"))
    } else if wal.poison {
        Err(Error::Poisoned)
    } else {
        let seq = (last + 1) as u64;
        let base = gc::without_all(wal, append_run(wal, id, last, raw, digest));
        match store::append_denial(base, id, seq, raw.len() as int, digest) {
            Some(e) => Err(e),
            None => Ok(store::appended(base, id, seq, raw, digest)),
        }
    }
}

/// The memory that encoded records hold.
pub open spec fn record_memory(raws: Seq<Seq<u8>>) -> int
    decreases raws.len(),
{
    if raws.len() == 0 {
        0
    } else {
        record_memory(raws.drop_last()) + raws.last().len() + vstd::layout::size_of::<Vec<u8>>()
    }
}

/// Why the first `count` records cannot be held or numbered, by the first one that cannot.
pub open spec fn memory_refusal(last: u64, raws: Seq<Seq<u8>>, count: int) -> Option<Error>
    decreases count,
{
    if count <= 0 {
        None
    } else {
        let earlier = memory_refusal(last, raws, count - 1);
        let memory = record_memory(raws.take(count));
        let share = raws[count - 1].len() + vstd::layout::size_of::<Vec<u8>>();
        if earlier is Some {
            earlier
        } else if share > u64::MAX || memory > u64::MAX {
            Some(frame::shared("position overflow"))
        } else if memory > limits::MAX_OPERATION_MEMORY_BYTES {
            Some(
                error::limit(
                    "operation_memory_bytes",
                    memory as u64,
                    limits::MAX_OPERATION_MEMORY_BYTES as u64,
                ),
            )
        } else if last + 1 + count > u64::MAX {
            Some(frame::shared("position overflow"))
        } else {
            None
        }
    }
}

/// Why a batch is refused before the log sees it: its memory, or its sequences.
pub open spec fn batch_memory(last: u64, raws: Seq<Seq<u8>>) -> Option<Error> {
    if last == u64::MAX {
        Some(frame::shared("position overflow"))
    } else {
        memory_refusal(last, raws, raws.len() as int)
    }
}

proof fn memory_refusal_is_final(last: u64, raws: Seq<Seq<u8>>, count: int)
    requires
        0 <= count <= raws.len(),
    ensures
        memory_refusal(last, raws, count) is Some ==> memory_refusal(last, raws, raws.len() as int)
            == memory_refusal(last, raws, count),
    decreases raws.len() - count,
{
    if count < raws.len() {
        memory_refusal_is_final(last, raws, count + 1);
    }
}

/// The log after a member's records became durable.
pub open spec fn sync_outcome(wal: WalView, id: SharedDbId) -> Result<WalView> {
    if wal.poison {
        Err(Error::Poisoned)
    } else if !wal.members.contains_key(id) {
        Err(frame::shared("missing sync member"))
    } else {
        let member = wal.members[id];
        let settled = if member.lsn > wal.durable {
            store::synced(wal)
        } else {
            wal
        };
        Ok(
            WalView {
                members: wal.members.insert(
                    id,
                    MemberView {
                        durable_seq: member.seq,
                        durable_pointer: member.latest,
                        ..member
                    },
                ),
                ..settled
            },
        )
    }
}

/// The log after a member's catalog took over everything up to `seq`.
pub open spec fn checkpoint_outcome(wal: WalView, id: SharedDbId, seq: u64) -> Result<WalView> {
    if wal.poison {
        Err(Error::Poisoned)
    } else if !wal.members.contains_key(id) {
        Err(frame::shared("missing checkpoint member"))
    } else {
        Ok(
            WalView {
                members: wal.members.insert(
                    id,
                    MemberView { checkpoint: seq, bytes: 0, ..wal.members[id] },
                ),
                ..wal
            },
        )
    }
}

pub open spec fn durable_of(wal: WalView, id: SharedDbId) -> DurablePosition {
    if wal.poison || !wal.members.contains_key(id) {
        DurablePosition { seq: 0, segment: 0, offset: 0 }
    } else {
        let member = wal.members[id];
        if member.lsn <= wal.durable {
            DurablePosition {
                seq: member.seq,
                segment: member.latest.segment,
                offset: member.latest.offset,
            }
        } else {
            DurablePosition {
                seq: member.durable_seq,
                segment: member.durable_pointer.segment,
                offset: member.durable_pointer.offset,
            }
        }
    }
}

/// After a sync, the durable position is the last record, whatever was appended by others.
pub proof fn sync_reaches_the_last_record(wal: WalView, id: SharedDbId)
    requires
        wal.durable <= wal.lsn,
        wal.members.contains_key(id) ==> wal.members[id].lsn <= wal.lsn,
        sync_outcome(wal, id) is Ok,
    ensures
        ({
            let after = sync_outcome(wal, id)->Ok_0;
            durable_of(after, id) == (DurablePosition {
                seq: wal.members[id].seq,
                segment: wal.members[id].latest.segment,
                offset: wal.members[id].latest.offset,
            })
        }),
{
}

/// One sync serves every member: after it each of them is durable up to its last record, and a sync
/// of its own writes nothing more.
pub proof fn one_sync_serves_every_member(wal: WalView, id: SharedDbId)
    requires
        !wal.poison,
        wal.durable <= wal.lsn,
        wal.members.contains_key(id),
        wal.members[id].lsn <= wal.lsn,
    ensures
        ({
            let after = store::synced(wal);
            &&& durable_of(after, id) == (DurablePosition {
                seq: wal.members[id].seq,
                segment: wal.members[id].latest.segment,
                offset: wal.members[id].latest.offset,
            })
            &&& after.members[id].lsn <= after.durable
            &&& sync_outcome(after, id) matches Ok(again)
            &&& again.writes == after.writes
            &&& again.syncs == after.syncs
        }),
{
}

impl SharedWal {
    /// Appends a record to a healthy log, after reclaiming segments where the record would not fit
    /// otherwise.
    pub fn append_raw(
        &mut self,
        id: SharedDbId,
        seq: u64,
        raw: &[u8],
        digest: [u8; 32],
        actions: &mut Vec<Action>,
    ) -> (r: Result<()>)
        requires
            old(self).wf(),
        ensures
            final(self).wf(),
            ({
                let length = raw@.len() as int;
                let run = store::append_run(old(self)@, id, seq, length, digest);
                let base = gc::without_all(old(self)@, run);
                let begun = state::action_views(old(actions)@) + gc::removals(run);
                if old(self)@.poison {
                    r == Err::<(), Error>(Error::Poisoned) && *final(self) == *old(self)
                        && *final(actions) == *old(actions)
                } else {
                    match store::append_denial(base, id, seq, length, digest) {
                        Some(e) => r == Err::<(), Error>(e) && final(self)@ == (WalView {
                            poison: base.poison || store::append_poisons(
                                base,
                                id,
                                seq,
                                length,
                                digest,
                            ),
                            ..base
                        }) && state::action_views(final(actions)@) == begun,
                        None => r == Ok::<(), Error>(()) && final(self)@ == store::appended(
                            base,
                            id,
                            seq,
                            raw@,
                            digest,
                        ) && state::action_views(final(actions)@) == begun + store::append_actions(
                            base,
                            store::length_of(length),
                        ),
                    }
                }
            }),
    {
        if self.poison {
            return Err(Error::Poisoned);
        }
        assert(state::action_views(actions@) + gc::removals(Seq::empty()) =~= state::action_views(
            actions@,
        ));
        match self.append_needs_reclaim(id, seq, raw, digest) {
            Ok(true) => self.gc_locked(actions),
            _ => {},
        }
        self.append_locked(id, seq, raw, digest, actions)
    }

    /// Returns the scratch that a walk had reserved.
    pub fn release_scratch(&mut self, charged: u64)
        requires
            old(self).wf(),
        ensures
            final(self).wf(),
            final(self)@ == (WalView {
                scratch_bytes: archive::saturated(old(self)@.scratch_bytes - charged),
                ..old(self)@
            }),
    {
        self.scratch_bytes = self.scratch_bytes.saturating_sub(charged);
    }

    /// Retires a member for good and gives the file that says so, or nothing where the member is
    /// not known or already retired. `lock` is what taking the lock of the member's directory came
    /// to, which every open handle holds. `binding` is the binding file there, and `pinned` tells
    /// whether base pins still protect it. Segments that only the member needed are reclaimed; the
    /// file comes before their removal.
    pub fn discard_unpublished(
        &mut self,
        root: &[u8],
        id: SharedDbId,
        lock: Result<()>,
        binding: Option<&[u8]>,
        pinned: bool,
        actions: &mut Vec<Action>,
    ) -> (r: Result<Option<Vec<u8>>>)
        requires
            old(self).wf(),
        ensures
            final(self).wf(),
            match discard_outcome(
                old(self)@,
                root@,
                id,
                lock,
                match binding {
                    Some(file) => Some(file@),
                    None => None,
                },
                pinned,
            ) {
                Err(e) => r matches Err(found) && found == e && final(self)@ == old(self)@
                    && *final(actions) == *old(actions),
                Ok(None) => r matches Ok(None) && final(self)@ == old(self)@ && *final(actions)
                    == *old(actions),
                Ok(Some(after)) => r matches Ok(Some(file)) && final(self)@ == gc::reclaimed(after)
                    && state::action_views(final(actions)@) == state::action_views(old(actions)@)
                    + gc::removals(gc::reclaim_all(after)) && file@ == frame::sealed(
                    registry::retirement_body(
                        old(self)@.identity@,
                        id,
                        old(self)@.members[id].seq,
                    ),
                ),
            },
    {
        if self.poison {
            return Err(Error::Poisoned);
        }
        let at: usize = match self.members.find(&id) {
            Some(at) => at,
            None => return Ok(None),
        };
        proof {
            state::member_view_at(self.members@, id);
        }
        if self.members.entries[at].1.retired {
            return Ok(None);
        }
        if !bytes::same_bytes(self.members.entries[at].1.root.as_slice(), root) {
            return Err(
                Error::invalid("database path", "path differs from registered identity"),
            );
        }
        if let Err(e) = lock {
            return Err(e);
        }
        match registry::verify_binding(binding, &self.identity, id) {
            Ok(_) => {},
            Err(e) => return Err(e),
        }
        if pinned {
            return Err(
                Error::invalid("discard", "persistent base pins still protect this member"),
            );
        }
        let file = registry::retirement(&self.identity, id, self.members.entries[at].1.seq);
        let ghost table = self.members.entries@;
        let ghost map = self.members@;
        let member = self.members.value_mut(at);
        member.retired = true;
        member.archive = None;
        proof {
            let after = self.members.entries@[at as int].1;
            assert(self.members.entries@ =~= table.update(at as int, (id, after)));
            ordmap::update_is_insert(table, at as int, after);
            state::member_charge_update(table, at as int, (id, after));
            state::member_view_insert(map, id, after);
            assert(after@.root =~= table[at as int].1@.root);
        }
        self.gc_locked(actions);
        Ok(Some(file))
    }
}

/// The log after a member was retired, nothing where there is nothing to retire, or why it is
/// refused.
pub open spec fn discard_outcome(
    wal: WalView,
    root: Seq<u8>,
    id: SharedDbId,
    lock: Result<()>,
    binding: Option<Seq<u8>>,
    pinned: bool,
) -> Result<Option<WalView>> {
    if wal.poison {
        Err(Error::Poisoned)
    } else if !wal.members.contains_key(id) || wal.members[id].retired {
        Ok(None)
    } else if wal.members[id].root != root {
        Err(error::invalid("database path", "path differs from registered identity"))
    } else if let Err(e) = lock {
        Err(e)
    } else {
        match registry::binding_verified(binding, wal.identity@, id) {
            Err(e) => Err(e),
            Ok(_) => if pinned {
                Err(error::invalid("discard", "persistent base pins still protect this member"))
            } else {
                Ok(
                    Some(
                        WalView {
                            members: wal.members.insert(
                                id,
                                MemberView { retired: true, archive: None, ..wal.members[id] },
                            ),
                            ..wal
                        },
                    ),
                )
            },
        }
    }
}

/// A retired identity stays retired: it is never opened or registered again, and it holds no
/// segment back.
pub proof fn retired_for_good(
    wal: WalView,
    root: Seq<u8>,
    id: SharedDbId,
    bound: bool,
    cataloged: bool,
    embedded: bool,
    seq: u64,
)
    requires
        wal.members.contains_key(id),
        wal.members[id].retired,
        !wal.poison,
    ensures
        membership::open_refusal(wal, root, id) == Some(
            error::invalid("database identity", "retired identity cannot be reused"),
        ),
        membership::register_refusal(wal, root, id, bound, cataloged, true, embedded) == Some(
            error::invalid("database identity", "retired identity cannot be reused"),
        ),
        !gc::held(wal, id, seq),
{
}

} // verus!
