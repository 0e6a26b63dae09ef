//! Appending several records of one member, all of them or none.
use vstd::prelude::*;

use super::archive;
use super::frame;
use super::gc;
use super::state::{self, Action, ActionView, SharedWal, WalView};
use super::store;
use super::types::{SharedDbId, SharedWalOptions};
use crate::error::{self, Error, Result};

verus! {

/// What a batch takes: where the active segment ends after it, and how much storage, index and
/// archive budget it needs.
pub struct BatchPlan {
    pub offset: u64,
    pub growth: u64,
    pub index_growth: u64,
    pub raw_growth: u64,
    pub represented: bool,
}

/// The plan with one more record in it.
pub open spec fn batch_step(options: SharedWalOptions, plan: BatchPlan, raw_length: int) -> Result<
    BatchPlan,
> {
    let length = store::length_of(raw_length);
    let rolls = plan.offset + length > options.segment_bytes;
    let offset = if rolls {
        frame::SEGMENT_HEADER + length
    } else {
        plan.offset + length
    };
    let growth = plan.growth + length + (if rolls {
        frame::SEGMENT_HEADER as int
    } else {
        0
    });
    let index_growth = plan.index_growth + (if rolls {
        224int
    } else if plan.represented {
        0
    } else {
        96
    });
    if length > u64::MAX {
        Err(frame::shared("position overflow"))
    } else if length > options.buffer_bytes {
        Err(
            error::limit(
                "shared_wal_buffer_bytes",
                length as u64,
                options.buffer_bytes as u64,
            ),
        )
    } else if length + frame::SEGMENT_HEADER > options.segment_bytes {
        Err(
            error::limit(
                "shared_wal_record_bytes",
                length as u64,
                options.segment_bytes as u64,
            ),
        )
    } else if plan.offset + length > u64::MAX || growth > u64::MAX || index_growth > u64::MAX
        || plan.raw_growth + length > u64::MAX {
        Err(frame::shared("position overflow"))
    } else {
        Ok(
            BatchPlan {
                offset: offset as u64,
                growth: growth as u64,
                index_growth: index_growth as u64,
                raw_growth: (plan.raw_growth + length) as u64,
                represented: true,
            },
        )
    }
}

/// The plan of a batch, record by record.
pub open spec fn batch_plan(wal: WalView, id: SharedDbId, raws: Seq<Seq<u8>>) -> Result<BatchPlan>
    decreases raws.len(),
{
    if raws.len() == 0 {
        Ok(
            BatchPlan {
                offset: wal.offset,
                growth: 0,
                index_growth: 0,
                raw_growth: 0,
                represented: wal.segments[wal.segment].members.contains_key(id),
            },
        )
    } else {
        match batch_plan(wal, id, raws.drop_last()) {
            Err(e) => Err(e),
            Ok(plan) => batch_step(wal.options, plan, raws.last().len() as int),
        }
    }
}

/// What a batch takes, or why it is refused before storage and index are looked at.
pub open spec fn batch_preflight(
    wal: WalView,
    id: SharedDbId,
    first: u64,
    raws: Seq<Seq<u8>>,
) -> Result<BatchPlan> {
    if !wal.members.contains_key(id) {
        Err(frame::shared("batch member absent"))
    } else {
        let member = wal.members[id];
        if member.seq == u64::MAX {
            Err(frame::shared("position overflow"))
        } else if first != member.seq + 1 {
            Err(frame::shared("batch local sequence"))
        } else if first + raws.len() > u64::MAX || wal.lsn + raws.len() > u64::MAX {
            Err(frame::shared("position overflow"))
        } else {
            match batch_plan(wal, id, raws) {
                Err(e) => Err(e),
                Ok(plan) => match member.archive {
                    None => Ok(plan),
                    Some(protection) => {
                        let total = protection.spec_bytes() + plan.raw_growth;
                        if total > u64::MAX {
                            Err(frame::shared("position overflow"))
                        } else if total > protection.options.max_bytes {
                            Err(
                                error::limit(
                                    "archive_bytes",
                                    total as u64,
                                    protection.options.max_bytes,
                                ),
                            )
                        } else {
                            Ok(plan)
                        }
                    },
                },
            }
        }
    }
}

/// Whether storage and index have room for a plan, where nothing more can be reclaimed.
pub open spec fn batch_room(wal: WalView, plan: BatchPlan) -> Result<()> {
    let storage = wal.storage + plan.growth;
    let charged = wal.charged + plan.index_growth;
    if storage > u64::MAX {
        Err(frame::shared("position overflow"))
    } else if storage > wal.options.max_bytes {
        Err(error::limit("shared_wal_storage_bytes", storage as u64, wal.options.max_bytes))
    } else if charged > u64::MAX {
        Err(frame::shared("position overflow"))
    } else if charged > wal.options.index_bytes {
        Err(error::limit("shared_wal_index_bytes", charged as u64, wal.options.index_bytes))
    } else {
        Ok(())
    }
}

pub open spec fn raw_views(raws: Seq<Vec<u8>>) -> Seq<Seq<u8>> {
    raws.map_values(|raw: Vec<u8>| raw@)
}

/// The log after the first `count` records of a batch were appended.
pub open spec fn batch_appended(
    wal: WalView,
    id: SharedDbId,
    first: u64,
    raws: Seq<Seq<u8>>,
    digests: Seq<[u8; 32]>,
    count: nat,
) -> WalView
    decreases count,
{
    if count == 0 {
        wal
    } else {
        let before = batch_appended(wal, id, first, raws, digests, (count - 1) as nat);
        store::appended(
            before,
            id,
            (first + count - 1) as u64,
            raws[count - 1],
            digests[count - 1],
        )
    }
}

/// The file work that the first `count` records of a batch ask for.
pub open spec fn batch_actions(
    wal: WalView,
    id: SharedDbId,
    first: u64,
    raws: Seq<Seq<u8>>,
    digests: Seq<[u8; 32]>,
    count: nat,
) -> Seq<ActionView>
    decreases count,
{
    if count == 0 {
        Seq::empty()
    } else {
        let earlier = (count - 1) as nat;
        batch_actions(wal, id, first, raws, digests, earlier) + store::append_actions(
            batch_appended(wal, id, first, raws, digests, earlier),
            store::length_of(raws[count - 1].len() as int),
        )
    }
}

/// Whether every record of a batch is accepted in its turn.
pub open spec fn batch_accepted(
    wal: WalView,
    id: SharedDbId,
    first: u64,
    raws: Seq<Seq<u8>>,
    digests: Seq<[u8; 32]>,
) -> bool {
    forall|k: int|
        0 <= k < raws.len() ==> store::append_denial(
            #[trigger] batch_appended(wal, id, first, raws, digests, k as nat),
            id,
            (first + k) as u64,
            raws[k].len() as int,
            digests[k],
        ) is None
}

impl SharedWal {
    /// What the batch takes, or why it is refused whatever could be reclaimed.
    pub fn preflight_batch(&self, id: SharedDbId, first: u64, raws: &[Vec<u8>]) -> (r: Result<
        BatchPlan,
    >)
        requires
            self.wf(),
        ensures
            r == batch_preflight(self@, id, first, raw_views(raws@)),
    {
        let at: usize = match self.members.find(&id) {
            Some(at) => at,
            None => return Err(frame::invalid("batch member absent")),
        };
        proof {
            state::member_view_at(self.members@, id);
            crate::ordmap::lookup_at(self.segments.entries@, self.segments.entries@.len() - 1);
        }
        let member = &self.members.entries[at].1;
        let expected: u64 = match frame::add(member.seq, 1) {
            Ok(expected) => expected,
            Err(e) => return Err(e),
        };
        if first != expected {
            return Err(frame::invalid("batch local sequence"));
        }
        match frame::add(first, raws.len() as u64) {
            Ok(_) => {},
            Err(e) => return Err(e),
        }
        match frame::add(self.lsn, raws.len() as u64) {
            Ok(_) => {},
            Err(e) => return Err(e),
        }
        let last: usize = self.segments.len() - 1;
        let mut plan = BatchPlan {
            offset: self.offset,
            growth: 0,
            index_growth: 0,
            raw_growth: 0,
            represented: self.segments.entries[last].1.members.contains_key(&id),
        };
        let ghost views = raw_views(raws@);
        let mut index: usize = 0;
        assert(views.take(0) =~= Seq::<Seq<u8>>::empty());
        while index < raws.len()
            invariant
                self.options.valid(),
                index <= raws@.len(),
                views == raw_views(raws@),
                views.len() == raws@.len(),
                self@.members.contains_key(id),
                self@.members[id].seq < u64::MAX,
                first == self@.members[id].seq + 1,
                first + raws@.len() <= u64::MAX,
                self.lsn + raws@.len() <= u64::MAX,
                batch_plan(self@, id, views.take(index as int)) == Ok::<BatchPlan, Error>(plan),
            decreases raws@.len() - index,
        {
            proof {
                let next = views.take(index + 1);
                assert(next.drop_last() =~= views.take(index as int));
                assert(next.last() == raws@[index as int]@);
                refusal_is_final(self@, id, views, index + 1);
                assert(views.take(views.len() as int) =~= views);
            }
            plan = match self.plan_record(plan, raws[index].len()) {
                Ok(plan) => plan,
                Err(e) => return Err(e),
            };
            index += 1;
        }
        assert(views.take(views.len() as int) =~= views);
        match &member.archive {
            Some(protection) => {
                let total: u64 = match frame::add(protection.bytes(), plan.raw_growth) {
                    Ok(total) => total,
                    Err(e) => return Err(e),
                };
                if total > protection.options.max_bytes {
                    return Err(
                        Error::limit("archive_bytes", total, protection.options.max_bytes),
                    );
                }
            },
            None => {},
        }
        Ok(plan)
    }

    /// Adds one record to a plan.
    fn plan_record(&self, plan: BatchPlan, raw_length: usize) -> (r: Result<BatchPlan>)
        requires
            self.options.valid(),
        ensures
            r == batch_step(self.options, plan, raw_length as int),
    {
        let options = self.options;
        let length: u64 = match frame::add(raw_length as u64, frame::FRAME_HEADER as u64) {
            Ok(length) => length,
            Err(e) => return Err(e),
        };
        if length > options.buffer_bytes as u64 {
            return Err(
                Error::limit("shared_wal_buffer_bytes", length, options.buffer_bytes as u64),
            );
        }
        if length + frame::SEGMENT_HEADER as u64 > options.segment_bytes as u64 {
            return Err(
                Error::limit("shared_wal_record_bytes", length, options.segment_bytes as u64),
            );
        }
        let end: u64 = match frame::add(plan.offset, length) {
            Ok(end) => end,
            Err(e) => return Err(e),
        };
        let rolls: bool = end > options.segment_bytes as u64;
        let header: u64 = if rolls {
            frame::SEGMENT_HEADER as u64
        } else {
            0
        };
        let growth: u64 = match frame::add(plan.growth, header + length) {
            Ok(growth) => growth,
            Err(e) => return Err(e),
        };
        let entries: u64 = if rolls {
            224
        } else if plan.represented {
            0
        } else {
            96
        };
        let index_growth: u64 = match frame::add(plan.index_growth, entries) {
            Ok(index_growth) => index_growth,
            Err(e) => return Err(e),
        };
        let raw_growth: u64 = match frame::add(plan.raw_growth, length) {
            Ok(raw_growth) => raw_growth,
            Err(e) => return Err(e),
        };
        Ok(
            BatchPlan {
                offset: if rolls {
                    header + length
                } else {
                    end
                },
                growth,
                index_growth,
                raw_growth,
                represented: true,
            },
        )
    }

    /// Whether storage and index have room for the plan.
    pub fn admit_batch(&self, plan: &BatchPlan) -> (r: Result<()>)
        requires
            self.wf(),
        ensures
            r == batch_room(self@, *plan),
    {
        let storage: u64 = match frame::add(self.storage, plan.growth) {
            Ok(storage) => storage,
            Err(e) => return Err(e),
        };
        if storage > self.options.max_bytes {
            return Err(
                Error::limit("shared_wal_storage_bytes", storage, self.options.max_bytes),
            );
        }
        let charged: u64 = match frame::add(self.charged, plan.index_growth) {
            Ok(charged) => charged,
            Err(e) => return Err(e),
        };
        if charged > self.options.index_bytes {
            return Err(
                Error::limit("shared_wal_index_bytes", charged, self.options.index_bytes),
            );
        }
        Ok(())
    }

    /// Appends the records of an admitted batch one by one.
    fn append_admitted(
        &mut self,
        id: SharedDbId,
        first: u64,
        raws: &[Vec<u8>],
        digests: &[[u8; 32]],
        actions: &mut Vec<Action>,
    ) -> (r: Result<()>)
        requires
            old(self).wf(),
            digests@.len() == raws@.len(),
            batch_outcome(old(self)@, id, first, raw_views(raws@)) is Ok,
        ensures
            final(self).wf(),
            if batch_accepted(old(self)@, id, first, raw_views(raws@), digests@) {
                r == Ok::<(), Error>(()) && final(self)@ == batch_appended(
                    old(self)@,
                    id,
                    first,
                    raw_views(raws@),
                    digests@,
                    raws@.len() as nat,
                ) && state::action_views(final(actions)@) == state::action_views(old(actions)@)
                    + batch_actions(
                    old(self)@,
                    id,
                    first,
                    raw_views(raws@),
                    digests@,
                    raws@.len() as nat,
                )
            } else {
                r == Err::<(), Error>(Error::Poisoned) && exists|k: int|
                    #![trigger breaks_at(old(self)@, id, first, raw_views(raws@), digests@, k)]
                    breaks_at(old(self)@, id, first, raw_views(raws@), digests@, k) && final(self)@
                        == broken_off(old(self)@, id, first, raw_views(raws@), digests@, k)
                        && state::action_views(final(actions)@) == state::action_views(
                        old(actions)@,
                    ) + batch_actions(
                        old(self)@,
                        id,
                        first,
                        raw_views(raws@),
                        digests@,
                        k as nat,
                    )
            },
    {
        let ghost views = raw_views(raws@);
        let mut index: usize = 0;
        proof {
            assert(state::action_views(actions@) + Seq::<ActionView>::empty()
                =~= state::action_views(actions@));
        }
        while index < raws.len()
            invariant
                self.wf(),
                state::action_views(actions@) == state::action_views(old(actions)@)
                    + batch_actions(old(self)@, id, first, views, digests@, index as nat),
                index <= raws@.len(),
                digests@.len() == raws@.len(),
                views == raw_views(raws@),
                first + raws@.len() <= u64::MAX,
                self@ == batch_appended(old(self)@, id, first, views, digests@, index as nat),
                batch_outcome(old(self)@, id, first, views) is Ok,
                forall|k: int|
                    0 <= k < index ==> store::append_denial(
                        #[trigger] batch_appended(
                            old(self)@,
                            id,
                            first,
                            views,
                            digests@,
                            k as nat,
                        ),
                        id,
                        (first + k) as u64,
                        views[k].len() as int,
                        digests@[k],
                    ) is None,
            decreases raws@.len() - index,
        {
            let raw = &raws[index];
            assert(views[index as int] == raw@);
            match self.append_locked(
                id,
                first + index as u64,
                raw.as_slice(),
                digests[index],
                actions,
            ) {
                Ok(_) => {},
                Err(_) => {
                    proof {
                        let k = index as int;
                        assert(store::append_denial(
                            batch_appended(old(self)@, id, first, views, digests@, k as nat),
                            id,
                            (first + k) as u64,
                            views[k].len() as int,
                            digests@[k],
                        ) is Some);
                        assert(!batch_accepted(old(self)@, id, first, views, digests@));
                        assert(breaks_at(old(self)@, id, first, views, digests@, k));
                    }
                    self.poison = true;
                    return Err(Error::Poisoned);
                },
            }
            proof {
                assert(state::action_views(actions@) =~= state::action_views(old(actions)@)
                    + batch_actions(old(self)@, id, first, views, digests@, (index + 1) as nat));
            }
            index += 1;
        }
        Ok(())
    }

    /// Appends a batch, after reclaiming segments where it would not fit otherwise. A batch that is
    /// refused changes nothing else; one that breaks off after it was admitted poisons the log.
    pub fn append_batch_raw(
        &mut self,
        id: SharedDbId,
        first: u64,
        raws: &[Vec<u8>],
        digests: &[[u8; 32]],
        actions: &mut Vec<Action>,
    ) -> (r: Result<()>)
        requires
            old(self).wf(),
            digests@.len() == raws@.len(),
        ensures
            final(self).wf(),
            ({
                let views = raw_views(raws@);
                let run = batch_run(old(self)@, id, first, views);
                let base = gc::without_all(old(self)@, run);
                let begun = state::action_views(old(actions)@) + gc::removals(run);
                match batch_outcome(base, id, first, views) {
                    Err(e) => r == Err::<(), Error>(e) && final(self)@ == base
                        && state::action_views(final(actions)@) == begun,
                    Ok(_) => if batch_accepted(base, id, first, views, digests@) {
                        r == Ok::<(), Error>(()) && final(self)@ == batch_appended(
                            base,
                            id,
                            first,
                            views,
                            digests@,
                            raws@.len() as nat,
                        ) && state::action_views(final(actions)@) == begun + batch_actions(
                            base,
                            id,
                            first,
                            views,
                            digests@,
                            raws@.len() as nat,
                        )
                    } else {
                        r == Err::<(), Error>(Error::Poisoned) && exists|k: int|
                            #![trigger breaks_at(base, id, first, views, digests@, k)]
                            breaks_at(base, id, first, views, digests@, k) && final(self)@
                                == broken_off(base, id, first, views, digests@, k)
                                && state::action_views(final(actions)@) == begun + batch_actions(
                                base,
                                id,
                                first,
                                views,
                                digests@,
                                k as nat,
                            )
                    },
                }
            }),
    {
        let ghost views = raw_views(raws@);
        let ghost begin = self@;
        assert(state::action_views(actions@) + gc::removals(Seq::empty()) =~= state::action_views(
            actions@,
        ));
        if self.poison {
            return Err(Error::Poisoned);
        }
        let plan = match self.preflight_batch(id, first, raws) {
            Ok(plan) => plan,
            Err(e) => return Err(e),
        };
        let storage: u64 = match frame::add(self.storage, plan.growth) {
            Ok(storage) => storage,
            Err(e) => return Err(e),
        };
        if storage > self.options.max_bytes {
            proof {
                store::active_segment(self);
                gc::reclaiming_keeps_the_rest(begin, begin.segments.len());
                plan_ignores_older(begin, gc::reclaimed(begin), id, views);
            }
            self.gc_locked(actions);
        }
        match self.admit_batch(&plan) {
            Ok(_) => {},
            Err(e) => return Err(e),
        }
        self.append_admitted(id, first, raws, digests, actions)
    }
}

/// Whether the record `k` is the first of an admitted batch that is refused.
pub open spec fn breaks_at(
    wal: WalView,
    id: SharedDbId,
    first: u64,
    raws: Seq<Seq<u8>>,
    digests: Seq<[u8; 32]>,
    k: int,
) -> bool {
    &&& 0 <= k < raws.len()
    &&& store::append_denial(
        batch_appended(wal, id, first, raws, digests, k as nat),
        id,
        (first + k) as u64,
        raws[k].len() as int,
        digests[k],
    ) is Some
    &&& forall|j: int|
        0 <= j < k ==> store::append_denial(
            #[trigger] batch_appended(wal, id, first, raws, digests, j as nat),
            id,
            (first + j) as u64,
            raws[j].len() as int,
            digests[j],
        ) is None
}

/// The log after a batch broke off: the records in front of the refused one are in it, and it is
/// poisoned.
pub open spec fn broken_off(
    wal: WalView,
    id: SharedDbId,
    first: u64,
    raws: Seq<Seq<u8>>,
    digests: Seq<[u8; 32]>,
    k: int,
) -> WalView {
    WalView { poison: true, ..batch_appended(wal, id, first, raws, digests, k as nat) }
}

/// The segments that are reclaimed to make room for a batch: none, unless a batch that is not
/// refused anyway takes more storage than is left.
pub open spec fn batch_run(
    wal: WalView,
    id: SharedDbId,
    first: u64,
    raws: Seq<Seq<u8>>,
) -> Seq<u64> {
    if wal.poison {
        Seq::empty()
    } else {
        match batch_preflight(wal, id, first, raws) {
            Ok(plan) if wal.options.max_bytes < wal.storage + plan.growth <= u64::MAX =>
                gc::reclaim_all(wal),
            _ => Seq::empty(),
        }
    }
}

/// A plan does not depend on segments behind the active one.
proof fn plan_ignores_older(
    wal: WalView,
    other: WalView,
    id: SharedDbId,
    raws: Seq<Seq<u8>>,
)
    requires
        other.offset == wal.offset,
        other.options == wal.options,
        other.segment == wal.segment,
        other.segments[other.segment] == wal.segments[wal.segment],
    ensures
        batch_plan(other, id, raws) == batch_plan(wal, id, raws),
    decreases raws.len(),
{
    if raws.len() > 0 {
        plan_ignores_older(wal, other, id, raws.drop_last());
    }
}

/// What a batch takes where it is admitted, or why it is refused.
pub open spec fn batch_outcome(
    wal: WalView,
    id: SharedDbId,
    first: u64,
    raws: Seq<Seq<u8>>,
) -> Result<BatchPlan> {
    if wal.poison {
        Err(Error::Poisoned)
    } else {
        match batch_preflight(wal, id, first, raws) {
            Err(e) => Err(e),
            Ok(plan) => match batch_room(wal, plan) {
                Err(e) => Err(e),
                Ok(_) => Ok(plan),
            },
        }
    }
}

/// A record that is refused in a plan refuses the whole batch.
proof fn refusal_is_final(wal: WalView, id: SharedDbId, raws: Seq<Seq<u8>>, count: int)
    requires
        0 <= count <= raws.len(),
    ensures
        batch_plan(wal, id, raws.take(count)) is Err ==> batch_plan(wal, id, raws)
            == batch_plan(wal, id, raws.take(count)),
    decreases raws.len() - count,
{
    if count < raws.len() {
        refusal_is_final(wal, id, raws, count + 1);
        assert(raws.take(count + 1).drop_last() =~= raws.take(count));
    } else {
        assert(raws.take(count) =~= raws);
    }
}

/// What the first records of an admitted batch leave: positions, budgets and the member's chain
/// are where the plan puts them.
spec fn follows_plan(
    wal: WalView,
    id: SharedDbId,
    first: u64,
    plan: BatchPlan,
    count: int,
    now: WalView,
) -> bool {
    &&& now.options == wal.options
    &&& now.offset == plan.offset
    &&& now.storage == wal.storage + plan.growth
    &&& now.charged == wal.charged + plan.index_growth
    &&& now.lsn == wal.lsn + count
    &&& wal.segment <= now.segment <= wal.segment + count
    &&& plan.represented == now.segments[now.segment].members.contains_key(id)
    &&& now.members.contains_key(id)
    &&& now.members[id].seq == first - 1 + count
    &&& now.members[id].bytes == wal.members[id].bytes + plan.raw_growth
    &&& match (wal.members[id].archive, now.members[id].archive) {
        (None, None) => true,
        (Some(before), Some(after)) => {
            &&& after.options == before.options
            &&& after.released == before.released
            &&& after.latest.offset <= before.latest.offset + plan.raw_growth
            &&& after.latest.seq == before.latest.seq + count
            &&& after.spec_bytes() <= before.spec_bytes() + plan.raw_growth
        },
        _ => false,
    }
}

proof fn plan_grows(wal: WalView, id: SharedDbId, raws: Seq<Seq<u8>>, count: int)
    requires
        0 <= count <= raws.len(),
        batch_plan(wal, id, raws) is Ok,
    ensures
        batch_plan(wal, id, raws.take(count)) is Ok,
        batch_plan(wal, id, raws.take(count))->Ok_0.growth <= batch_plan(wal, id, raws)->Ok_0.growth,
        batch_plan(wal, id, raws.take(count))->Ok_0.index_growth <= batch_plan(
            wal,
            id,
            raws,
        )->Ok_0.index_growth,
        batch_plan(wal, id, raws.take(count))->Ok_0.raw_growth <= batch_plan(
            wal,
            id,
            raws,
        )->Ok_0.raw_growth,
    decreases raws.len() - count,
{
    if count < raws.len() {
        plan_grows(wal, id, raws, count + 1);
        assert(raws.take(count + 1).drop_last() =~= raws.take(count));
    } else {
        assert(raws.take(count) =~= raws);
    }
}

/// One admitted record keeps to the plan.
proof fn record_follows_plan(
    wal: WalView,
    id: SharedDbId,
    first: u64,
    raws: Seq<Seq<u8>>,
    digests: Seq<[u8; 32]>,
    count: int,
    plan: BatchPlan,
    next: BatchPlan,
    whole: BatchPlan,
)
    requires
        wal.options.valid(),
        0 <= count < raws.len(),
        batch_outcome(wal, id, first, raws) == Ok::<BatchPlan, Error>(whole),
        batch_plan(wal, id, raws.take(count)) == Ok::<BatchPlan, Error>(plan),
        batch_plan(wal, id, raws.take(count + 1)) == Ok::<BatchPlan, Error>(next),
        wal.segment + raws.len() <= u64::MAX,
        wal.members[id].bytes + whole.raw_growth <= u64::MAX,
        wal.members[id].archive matches Some(protection) ==> protection.latest.offset
            + whole.raw_growth <= u64::MAX && protection.latest.seq + raws.len() <= u64::MAX,
        follows_plan(
            wal,
            id,
            first,
            plan,
            count,
            batch_appended(wal, id, first, raws, digests, count as nat),
        ),
    ensures
        store::append_denial(
            batch_appended(wal, id, first, raws, digests, count as nat),
            id,
            (first + count) as u64,
            raws[count].len() as int,
            digests[count],
        ) is None,
        follows_plan(
            wal,
            id,
            first,
            next,
            count + 1,
            batch_appended(wal, id, first, raws, digests, (count + 1) as nat),
        ),
{
    let now = batch_appended(wal, id, first, raws, digests, count as nat);
    let raw = raws[count];
    let length = store::length_of(raw.len() as int);
    assert(raws.take(count + 1).drop_last() =~= raws.take(count));
    assert(raws.take(count + 1).last() == raw);
    assert(batch_step(wal.options, plan, raw.len() as int) == Ok::<BatchPlan, Error>(next));
    plan_grows(wal, id, raws, count + 1);
    assert(next.growth <= whole.growth && next.index_growth <= whole.index_growth
        && next.raw_growth <= whole.raw_growth);
    assert(store::rolls(now, length) == (plan.offset + length > wal.options.segment_bytes));
    assert(store::storage_growth(now, length) == next.growth - plan.growth);
    assert(store::index_growth(now, id, length) == next.index_growth - plan.index_growth);
    assert(store::archive_next(now.members[id], raw.len() as int, digests[count]) is Ok);
    let after = store::appended(now, id, (first + count) as u64, raw, digests[count]);
    let base = store::positioned(now, length);
    assert(after.segment == base.segment);
    assert(after.segments[after.segment].members.contains_key(id));
    assert(after == batch_appended(wal, id, first, raws, digests, (count + 1) as nat));
    match (wal.members[id].archive, now.members[id].archive) {
        (Some(start), Some(before)) => {
            let moved = after.members[id].archive->Some_0;
            assert(moved.latest.offset == before.latest.offset + raw.len());
            assert(moved.spec_bytes() <= before.spec_bytes() + length) by {
                assert(moved.latest.seq - moved.released.seq <= before.latest.seq
                    - before.released.seq + 1);
                let x = archive::saturated(before.latest.seq - before.released.seq);
                let y = archive::saturated(moved.latest.seq - moved.released.seq);
                assert(y <= x + 1);
                assert(archive::saturated(y * frame::FRAME_HEADER) <= archive::saturated(
                    x * frame::FRAME_HEADER,
                ) + frame::FRAME_HEADER) by {
                    assert(y * 80 <= x * 80 + 80);
                }
            }
        },
        _ => {},
    }
}

/// A batch that was admitted is accepted to its last record: it cannot break off. Left out are
/// only a log that has run out of segment numbers, and byte and record counters at the end of
/// their range.
pub proof fn admitted_batch_is_accepted(
    wal: WalView,
    id: SharedDbId,
    first: u64,
    raws: Seq<Seq<u8>>,
    digests: Seq<[u8; 32]>,
    plan: BatchPlan,
)
    requires
        wal.options.valid(),
        batch_outcome(wal, id, first, raws) == Ok::<BatchPlan, Error>(plan),
        digests.len() == raws.len(),
        wal.segment + raws.len() <= u64::MAX,
        wal.members[id].bytes + plan.raw_growth <= u64::MAX,
        wal.members[id].archive matches Some(protection) ==> protection.latest.offset
            + plan.raw_growth <= u64::MAX && protection.latest.seq + raws.len() <= u64::MAX,
    ensures
        batch_accepted(wal, id, first, raws, digests),
{
    assert forall|k: int| 0 <= k < raws.len() implies store::append_denial(
        #[trigger] batch_appended(wal, id, first, raws, digests, k as nat),
        id,
        (first + k) as u64,
        raws[k].len() as int,
        digests[k],
    ) is None by {
        batch_follows_plan(wal, id, first, raws, digests, plan, k);
        plan_grows(wal, id, raws, k);
        plan_grows(wal, id, raws, k + 1);
        record_follows_plan(
            wal,
            id,
            first,
            raws,
            digests,
            k,
            batch_plan(wal, id, raws.take(k))->Ok_0,
            batch_plan(wal, id, raws.take(k + 1))->Ok_0,
            plan,
        );
    }
}

proof fn batch_follows_plan(
    wal: WalView,
    id: SharedDbId,
    first: u64,
    raws: Seq<Seq<u8>>,
    digests: Seq<[u8; 32]>,
    plan: BatchPlan,
    count: int,
)
    requires
        wal.options.valid(),
        0 <= count <= raws.len(),
        batch_outcome(wal, id, first, raws) == Ok::<BatchPlan, Error>(plan),
        wal.segment + raws.len() <= u64::MAX,
        wal.members[id].bytes + plan.raw_growth <= u64::MAX,
        wal.members[id].archive matches Some(protection) ==> protection.latest.offset
            + plan.raw_growth <= u64::MAX && protection.latest.seq + raws.len() <= u64::MAX,
    ensures
        batch_plan(wal, id, raws.take(count)) is Ok,
        follows_plan(
            wal,
            id,
            first,
            batch_plan(wal, id, raws.take(count))->Ok_0,
            count,
            batch_appended(wal, id, first, raws, digests, count as nat),
        ),
    decreases count,
{
    plan_grows(wal, id, raws, count);
    if count > 0 {
        batch_follows_plan(wal, id, first, raws, digests, plan, count - 1);
        record_follows_plan(
            wal,
            id,
            first,
            raws,
            digests,
            count - 1,
            batch_plan(wal, id, raws.take(count - 1))->Ok_0,
            batch_plan(wal, id, raws.take(count))->Ok_0,
            plan,
        );
    } else {
        assert(raws.take(0) =~= Seq::<Seq<u8>>::empty());
    }
}

} // verus!
