//! Protecting a member's records for an archive, and handing them out.
use vstd::prelude::*;

use super::archive::{self, ArchiveCursor, ArchiveOptions, Protection};
use super::frame::{self, Pointer};
use super::gc;
use super::member::{self, ChainView, ChainWalk, SharedMember};
use super::state::{self, Action, MemberView, SharedWal, WalView};
use super::types::SharedDbId;
use crate::bytes;
use crate::checksum;
use crate::error::{self, Error, Result};
use crate::ordmap;

verus! {

pub open spec fn authority_magic() -> Seq<u8> {
    seq![76u8, 83, 83, 65, 2, 0, 0, 0]
}

/// The archive authority in front of its digest: the budget and the encoded cursors of the initial
/// and the released boundary.
pub open spec fn authority_body(max_bytes: u64, initial: Seq<u8>, released: Seq<u8>) -> Seq<u8> {
    authority_magic() + bytes::le64(max_bytes) + initial + released
}

pub open spec fn authority_file(max_bytes: u64, initial: Seq<u8>, released: Seq<u8>) -> Seq<u8> {
    let body = authority_body(max_bytes, initial, released);
    body + checksum::sha256(body)@
}

/// The authority file to publish for a protection.
pub fn authority(options: ArchiveOptions, initial: &[u8], released: &[u8]) -> (file: Vec<u8>)
    ensures
        file@ == authority_file(options.max_bytes, initial@, released@),
{
    let mut file: Vec<u8> = vec![76u8, 83, 83, 65, 2, 0, 0, 0];
    assert(file@ =~= authority_magic());
    bytes::put_u64(&mut file, options.max_bytes);
    bytes::put_slice(&mut file, initial);
    bytes::put_slice(&mut file, released);
    let digest = checksum::sha256_of(file.as_slice());
    bytes::put_slice(&mut file, digest.as_slice());
    file
}

/// The budget and the encoded cursors in an authority file whose cursors have `width` bytes.
pub open spec fn authority_read(file: Seq<u8>, width: int) -> Result<(u64, Seq<u8>, Seq<u8>)> {
    let end = 16 + width * 2;
    if file.len() != end + 32 {
        Err(frame::shared("shared archive authority size"))
    } else if file.take(8) != authority_magic() || checksum::sha256(file.take(end))@ != file.skip(
        end,
    ) {
        Err(frame::shared("shared archive authority checksum"))
    } else {
        Ok(
            (
                bytes::un64(file.subrange(8, 16)),
                file.subrange(16, 16 + width),
                file.subrange(16 + width, end),
            ),
        )
    }
}

pub fn read_authority<'a>(file: &'a [u8], width: usize) -> (r: Result<
    (ArchiveOptions, &'a [u8], &'a [u8]),
>)
    requires
        width <= 65_536,
    ensures
        match r {
            Err(e) => authority_read(file@, width as int) == Err::<
                (u64, Seq<u8>, Seq<u8>),
                Error,
            >(e),
            Ok((options, initial, released)) => authority_read(file@, width as int) == Ok::<
                (u64, Seq<u8>, Seq<u8>),
                Error,
            >((options.max_bytes, initial@, released@)),
        },
{
    let end: usize = 16 + width * 2;
    if file.len() != end + 32 {
        return Err(frame::invalid("shared archive authority size"));
    }
    let magic: [u8; 8] = [76u8, 83, 83, 65, 2, 0, 0, 0];
    assert(magic@ =~= authority_magic());
    let head = vstd::slice::slice_subrange(file, 0, 8);
    assert(head@ =~= file@.take(8));
    let body = vstd::slice::slice_subrange(file, 0, end);
    assert(body@ =~= file@.take(end as int));
    let tail = vstd::slice::slice_subrange(file, end, file.len());
    assert(tail@ =~= file@.skip(end as int));
    let digest = checksum::sha256_of(body);
    if !bytes::same_bytes(head, magic.as_slice()) || !bytes::same_bytes(digest.as_slice(), tail) {
        return Err(frame::invalid("shared archive authority checksum"));
    }
    Ok(
        (
            ArchiveOptions { max_bytes: bytes::u64_at(file, 8) },
            vstd::slice::slice_subrange(file, 16, 16 + width),
            vstd::slice::slice_subrange(file, 16 + width, end),
        ),
    )
}

/// An authority file is read back as it was written.
pub proof fn authority_round_trip(max_bytes: u64, initial: Seq<u8>, released: Seq<u8>, width: int)
    requires
        initial.len() == width,
        released.len() == width,
    ensures
        authority_read(authority_file(max_bytes, initial, released), width) == Ok::<
            (u64, Seq<u8>, Seq<u8>),
            Error,
        >((max_bytes, initial, released)),
{
    bytes::scalars_round_trip();
    let body = authority_body(max_bytes, initial, released);
    let file = authority_file(max_bytes, initial, released);
    let end = 16 + width * 2;
    assert(body.len() == end);
    assert(file.take(8) =~= authority_magic());
    assert(file.take(end) =~= body);
    assert(file.skip(end) =~= checksum::sha256(body)@);
    assert(file.subrange(8, 16) =~= bytes::le64(max_bytes));
    assert(file.subrange(16, 16 + width) =~= initial);
    assert(file.subrange(16 + width, end) =~= released);
}

/// A base that a reader has pinned: whether it lies on the same history as a cursor, and the
/// sequence it starts behind.
#[derive(Clone, Copy, Debug, PartialEq, Eq, Structural)]
pub struct Pin {
    pub same_history: bool,
    pub seq: u64,
}

/// Whether no pin needs a record up to `seq`.
pub open spec fn pins_allow(pins: Seq<Pin>, seq: u64) -> bool {
    forall|i: int| 0 <= i < pins.len() ==> (#[trigger] pins[i]).same_history && pins[i].seq >= seq
}

fn check_pins(pins: &[Pin], seq: u64) -> (allowed: bool)
    ensures
        allowed == pins_allow(pins@, seq),
{
    let mut index: usize = 0;
    while index < pins.len()
        invariant
            index <= pins@.len(),
            forall|i: int|
                0 <= i < index ==> (#[trigger] pins@[i]).same_history && pins@[i].seq >= seq,
        decreases pins@.len() - index,
    {
        if !pins[index].same_history || pins[index].seq < seq {
            return false;
        }
        index += 1;
    }
    true
}

/// The protection that an authority stands for, or why it contradicts the member. `accepted` tells
/// whether the budget is one that an archive may have, and `covers` whether the released boundary
/// lies at or behind the initial one.
pub open spec fn protection_restored(
    options: ArchiveOptions,
    initial: ArchiveCursor,
    released: ArchiveCursor,
    id: SharedDbId,
    accepted: Result<()>,
    covers: Result<bool>,
    pins: Seq<Pin>,
) -> Result<Protection> {
    if accepted is Err {
        Err(accepted->Err_0)
    } else if initial.database != id.database || initial.generation != id.generation {
        Err(frame::shared("shared archive identity or release order"))
    } else {
        match covers {
            Err(e) => Err(e),
            Ok(covered) => if !covered {
                Err(frame::shared("shared archive identity or release order"))
            } else if !pins_allow(pins, released.seq) {
                Err(frame::shared("archive release crosses persistent base pin"))
            } else {
                Ok(
                    Protection {
                        options,
                        initial,
                        released,
                        latest: released,
                        durable: released,
                    },
                )
            },
        }
    }
}

impl Protection {
    pub fn load(
        options: ArchiveOptions,
        initial: ArchiveCursor,
        released: ArchiveCursor,
        id: SharedDbId,
        accepted: Result<()>,
        covers: Result<bool>,
        pins: &[Pin],
    ) -> (r: Result<Protection>)
        ensures
            r == protection_restored(options, initial, released, id, accepted, covers, pins@),
    {
        if let Err(e) = accepted {
            return Err(e);
        }
        let own = SharedDbId { database: initial.database, generation: initial.generation };
        if !own.same(&id) {
            return Err(frame::invalid("shared archive identity or release order"));
        }
        let covered: bool = match covers {
            Ok(covered) => covered,
            Err(e) => return Err(e),
        };
        if !covered {
            return Err(frame::invalid("shared archive identity or release order"));
        }
        if !check_pins(pins, released.seq) {
            return Err(frame::invalid("archive release crosses persistent base pin"));
        }
        Ok(Protection { options, initial, released, latest: released, durable: released })
    }
}

/// The first boundary of a fresh archive chain: behind everything that the member holds.
pub open spec fn first_cursor(
    id: SharedDbId,
    seq: u64,
    branch: [u8; 16],
    digest: [u8; 32],
) -> ArchiveCursor {
    ArchiveCursor {
        database: id.database,
        generation: id.generation,
        branch,
        epoch: 0,
        segment: (seq + 1) as u64,
        offset: 32,
        seq,
        digest,
    }
}

/// The first boundary behind the record `seq`, with nothing in its digest yet. Its encoding is what
/// the digest of the boundary covers.
pub fn opening_cursor(id: SharedDbId, seq: u64, branch: [u8; 16]) -> (r: Result<ArchiveCursor>)
    ensures
        match r {
            Ok(cursor) => seq < u64::MAX && cursor == first_cursor(id, seq, branch, cursor.digest)
                && cursor.digest@ == Seq::new(32, |i: int| 0u8),
            Err(e) => seq == u64::MAX && e == frame::shared("position overflow"),
        },
{
    let segment: u64 = match frame::add(seq, 1) {
        Ok(segment) => segment,
        Err(e) => return Err(e),
    };
    let digest: [u8; 32] = [0u8; 32];
    assert(digest@ =~= Seq::new(32, |i: int| 0u8));
    Ok(
        ArchiveCursor {
            database: id.database,
            generation: id.generation,
            branch,
            epoch: 0,
            segment,
            offset: 32,
            seq,
            digest,
        },
    )
}

/// The digest of the first boundary, from the encoding of its opening cursor.
pub fn cursor_digest(encoded: &[u8]) -> (digest: [u8; 32])
    ensures
        digest == checksum::sha256(encoded@),
{
    checksum::sha256_of(encoded)
}

/// The log once protection was asked for, and the protection to publish, if that is new. The
/// member's records are durable by then.
pub open spec fn enable_outcome(
    wal: WalView,
    id: SharedDbId,
    options: ArchiveOptions,
    branch: [u8; 16],
    digest: [u8; 32],
) -> (WalView, Result<Option<Protection>>) {
    let member = wal.members[id];
    match member.archive {
        Some(protection) => if protection.spec_bytes() > options.max_bytes {
            (
                wal,
                Err(error::limit("archive_bytes", protection.spec_bytes(), options.max_bytes)),
            )
        } else if protection.options == options {
            (wal, Ok(None))
        } else {
            let changed = Protection { options, ..protection };
            (
                WalView {
                    members: wal.members.insert(
                        id,
                        MemberView { archive: Some(changed), ..member },
                    ),
                    ..wal
                },
                Ok(Some(changed)),
            )
        },
        None => match state::charge_result(wal, archive::spec_protection_charge()) {
            Err(e) => (wal, Err(e)),
            Ok(_) => {
                let charged = WalView {
                    charged: (wal.charged + archive::spec_protection_charge()) as u64,
                    ..wal
                };
                if member.seq == u64::MAX {
                    (charged, Err(frame::shared("position overflow")))
                } else {
                    let cursor = first_cursor(id, member.seq, branch, digest);
                    let fresh = Protection {
                        options,
                        initial: cursor,
                        released: cursor,
                        latest: cursor,
                        durable: cursor,
                    };
                    (
                        WalView {
                            members: charged.members.insert(
                                id,
                                MemberView { archive: Some(fresh), ..member },
                            ),
                            ..charged
                        },
                        Ok(Some(fresh)),
                    )
                }
            },
        },
    }
}

/// What a member's archive holds.
#[derive(Clone, Copy, Debug)]
pub struct ArchiveStatus {
    pub earliest: ArchiveCursor,
    pub durable_end: ArchiveCursor,
    pub bytes: u64,
    pub healthy: bool,
}

pub open spec fn status_of(wal: WalView, id: SharedDbId) -> Result<ArchiveStatus> {
    if wal.poison {
        Err(Error::Poisoned)
    } else if !wal.members.contains_key(id) {
        Err(frame::shared("archive member missing"))
    } else {
        let member = wal.members[id];
        match member.archive {
            None => Err(error::unsupported("archive", "member archive is disabled")),
            Some(protection) => Ok(
                ArchiveStatus {
                    earliest: protection.released,
                    durable_end: if member.lsn <= wal.durable {
                        protection.latest
                    } else {
                        protection.durable
                    },
                    bytes: protection.spec_bytes(),
                    healthy: true,
                },
            ),
        }
    }
}

/// Whether a cursor is an end of the retained history of a member.
pub open spec fn boundary_known(wal: WalView, id: SharedDbId, cursor: ArchiveCursor) -> bool {
    status_of(wal, id) matches Ok(status) && (cursor == status.earliest || cursor
        == status.durable_end)
}

/// The log after a release, and the protection to publish if the boundary moved. `verified` tells
/// whether `through` is a record boundary; the ends of the retained history are known to be.
pub open spec fn release_outcome(
    wal: WalView,
    id: SharedDbId,
    through: ArchiveCursor,
    verified: Result<()>,
    covers: Result<bool>,
    pins: Seq<Pin>,
) -> (WalView, Result<Option<Protection>>) {
    if wal.poison {
        (wal, Err(Error::Poisoned))
    } else if !wal.members.contains_key(id) {
        (wal, Err(frame::shared("archive member missing")))
    } else {
        let member = wal.members[id];
        match member.archive {
            None => (wal, Err(error::unsupported("archive", "member archive is disabled"))),
            Some(protection) => if verified is Err && !boundary_known(wal, id, through) {
                (wal, Err(verified->Err_0))
            } else {
                match covers {
                    Err(e) => (wal, Err(e)),
                    Ok(covered) => if !covered {
                        (wal, Err(error::invalid("release cursor", "release cannot regress")))
                    } else if !pins_allow(pins, through.seq) {
                        (
                            wal,
                            Err(
                                error::invalid(
                                    "release cursor",
                                    "persistent base pin protects this prefix",
                                ),
                            ),
                        )
                    } else if through == protection.released {
                        (wal, Ok(None))
                    } else {
                        let moved = Protection { released: through, ..protection };
                        (
                            WalView {
                                members: wal.members.insert(
                                    id,
                                    MemberView { archive: Some(moved), ..member },
                                ),
                                ..wal
                            },
                            Ok(Some(moved)),
                        )
                    },
                }
            },
        }
    }
}

impl SharedWal {
    /// Replaces the archive protection of the member at a position.
    fn set_archive(&mut self, at: usize, protection: Protection)
        requires
            old(self).wf(),
            at < old(self).members.entries@.len(),
        ensures
            final(self).wf(),
            ({
                let id = old(self).members.entries@[at as int].0;
                final(self)@ == (WalView {
                    members: old(self)@.members.insert(
                        id,
                        MemberView {
                            archive: Some(protection),
                            ..old(self).members.entries@[at as int].1@
                        },
                    ),
                    ..old(self)@
                })
            }),
    {
        let ghost table = self.members.entries@;
        let ghost map = self.members@;
        let member = self.members.value_mut(at);
        member.archive = state::boxed(Some(protection));
        proof {
            let id = table[at as int].0;
            let after = self.members.entries@[at as int].1;
            assert(self.members.entries@ =~= table.update(at as int, (id, after)));
            ordmap::update_is_insert(table, at as int, after);
            state::member_charge_update(table, at as int, (id, after));
            state::member_view_insert(map, id, after);
            assert(after@.root =~= table[at as int].1@.root);
        }
    }
}

impl SharedMember {
    /// Protects the member's records for an archive, or changes the budget of a protection that is
    /// already there. `accepted` tells whether the budget is one that an archive may have, `branch`
    /// is fresh, and `encoded` is the encoding of the opening cursor. What comes back is the
    /// protection whose authority file is to be published, if there is one.
    pub fn enable_archive(
        &mut self,
        wal: &mut SharedWal,
        options: ArchiveOptions,
        accepted: Result<()>,
        branch: [u8; 16],
        encoded: &[u8],
        actions: &mut Vec<Action>,
    ) -> (r: Result<Option<Protection>>)
        requires
            old(wal).wf(),
        ensures
            final(wal).wf(),
            *final(self) == *old(self),
            match accepted {
                Err(e) => r == Err::<Option<Protection>, Error>(e) && final(wal)@ == old(wal)@
                    && *final(actions) == *old(actions),
                Ok(_) => match member::sync_outcome(old(wal)@, old(self).id) {
                    Err(e) => r == Err::<Option<Protection>, Error>(e) && final(wal)@ == old(wal)@
                        && *final(actions) == *old(actions),
                    Ok(settled) => {
                        let outcome = enable_outcome(
                            settled,
                            old(self).id,
                            options,
                            branch,
                            checksum::sha256(encoded@),
                        );
                        &&& final(wal)@ == outcome.0
                        &&& r == outcome.1
                        &&& state::action_views(final(actions)@) == state::action_views(
                            old(actions)@,
                        ) + member::recover_actions(old(wal)@, old(self).id)
                    },
                },
            },
    {
        if let Err(e) = accepted {
            return Err(e);
        }
        match self.sync(wal, actions) {
            Ok(_) => {},
            Err(e) => return Err(e),
        }
        let ghost settled = wal@;
        proof {
            state::member_view_at(wal.members@, self.id);
        }
        let at: usize = match wal.members.find(&self.id) {
            Some(at) => at,
            None => return Err(frame::invalid("archive member missing")),
        };
        let seq: u64 = wal.members.entries[at].1.seq;
        match wal.members.entries[at].1.protection() {
            Some(protection) => {
                if protection.bytes() > options.max_bytes {
                    return Err(
                        Error::limit("archive_bytes", protection.bytes(), options.max_bytes),
                    );
                }
                if protection.options == options {
                    return Ok(None);
                }
                let changed = Protection {
                    options,
                    initial: protection.initial,
                    released: protection.released,
                    latest: protection.latest,
                    durable: protection.durable,
                };
                wal.set_archive(at, changed);
                Ok(Some(changed))
            },
            None => {
                match wal.charge(archive::protection_charge()) {
                    Ok(_) => {},
                    Err(e) => return Err(e),
                }
                let opening = match opening_cursor(self.id, seq, branch) {
                    Ok(opening) => opening,
                    Err(e) => return Err(e),
                };
                let cursor = ArchiveCursor {
                    database: opening.database,
                    generation: opening.generation,
                    branch: opening.branch,
                    epoch: opening.epoch,
                    segment: opening.segment,
                    offset: opening.offset,
                    seq: opening.seq,
                    digest: cursor_digest(encoded),
                };
                let fresh = Protection {
                    options,
                    initial: cursor,
                    released: cursor,
                    latest: cursor,
                    durable: cursor,
                };
                wal.set_archive(at, fresh);
                Ok(Some(fresh))
            },
        }
    }

    pub fn archive_status(&self, wal: &SharedWal) -> (r: Result<ArchiveStatus>)
        requires
            wal.wf(),
        ensures
            r == status_of(wal@, self.id),
    {
        if wal.poison {
            return Err(Error::Poisoned);
        }
        match wal.members.get(&self.id) {
            None => Err(frame::invalid("archive member missing")),
            Some(member) => match &member.archive {
                None => Err(Error::unsupported("archive", "member archive is disabled")),
                Some(protection) => Ok(
                    ArchiveStatus {
                        earliest: protection.released,
                        durable_end: if member.lsn <= wal.durable {
                            protection.latest
                        } else {
                            protection.durable
                        },
                        bytes: protection.bytes(),
                        healthy: true,
                    },
                ),
            },
        }
    }

    /// Lets go of the records up to `through`. `verified` tells whether that is a record boundary,
    /// where it is not an end of the retained history, and `covers` whether it lies at or behind
    /// what was already released. What comes back is the protection whose authority file is to be published,
    /// if the boundary moved; segments that nobody needs any more are then reclaimed, and the
    /// authority file comes before their removal.
    pub fn release_archive(
        &self,
        wal: &mut SharedWal,
        through: ArchiveCursor,
        verified: Result<()>,
        covers: Result<bool>,
        pins: &[Pin],
        actions: &mut Vec<Action>,
    ) -> (r: Result<Option<Protection>>)
        requires
            old(wal).wf(),
        ensures
            final(wal).wf(),
            ({
                let outcome = release_outcome(
                    old(wal)@,
                    self.id,
                    through,
                    verified,
                    covers,
                    pins@,
                );
                let moved = outcome.1 matches Ok(Some(_));
                &&& r == outcome.1
                &&& moved ==> final(wal)@ == gc::reclaimed(outcome.0) && state::action_views(
                    final(actions)@,
                ) == state::action_views(old(actions)@) + gc::removals(gc::reclaim_all(outcome.0))
                &&& !moved ==> final(wal)@ == outcome.0 && *final(actions) == *old(actions)
            }),
    {
        if wal.poison {
            return Err(Error::Poisoned);
        }
        proof {
            state::member_view_at(wal.members@, self.id);
        }
        let at: usize = match wal.members.find(&self.id) {
            Some(at) => at,
            None => return Err(frame::invalid("archive member missing")),
        };
        let protection = match wal.members.entries[at].1.protection() {
            Some(protection) => protection,
            None => return Err(Error::unsupported("archive", "member archive is disabled")),
        };
        let status = match self.archive_status(wal) {
            Ok(status) => status,
            Err(e) => return Err(e),
        };
        if !verify_cursor(&status, through) {
            if let Err(e) = verified {
                return Err(e);
            }
        }
        let covered: bool = match covers {
            Ok(covered) => covered,
            Err(e) => return Err(e),
        };
        if !covered {
            return Err(Error::invalid("release cursor", "release cannot regress"));
        }
        if !check_pins(pins, through.seq) {
            return Err(
                Error::invalid("release cursor", "persistent base pin protects this prefix"),
            );
        }
        if through.same(&protection.released) {
            return Ok(None);
        }
        let moved = Protection {
            options: protection.options,
            initial: protection.initial,
            released: through,
            latest: protection.latest,
            durable: protection.durable,
        };
        wal.set_archive(at, moved);
        wal.gc_locked(actions);
        Ok(Some(moved))
    }
}

/// Records of a member on their way to an archive: the boundary reached, the durable end, and how
/// many records lie between them.
#[derive(Clone, Copy)]
pub struct ExportIndex {
    pub cursor: ArchiveCursor,
    pub end: ArchiveCursor,
    pub remaining: u64,
    pub charged: u64,
}

/// Where an export starts, or why it cannot: the reserved scratch, the index and the walk that
/// finds its records. `covers` tells whether the durable end lies at or behind the baseline.
pub open spec fn build_outcome(
    wal: WalView,
    id: SharedDbId,
    baseline: ArchiveCursor,
    covers: Result<bool>,
) -> Result<(WalView, ExportIndex, ChainView)> {
    if wal.poison {
        Err(Error::Poisoned)
    } else if !wal.members.contains_key(id) {
        Err(frame::shared("export member absent"))
    } else {
        let member = wal.members[id];
        match member.archive {
            None => Err(error::unsupported("archive", "member archive disabled")),
            Some(protection) => {
                let settled = member.lsn <= wal.durable;
                let pointer = if settled {
                    member.latest
                } else {
                    member.durable_pointer
                };
                let end = if settled {
                    protection.latest
                } else {
                    protection.durable
                };
                let count = archive::saturated(end.seq - baseline.seq);
                let charge = count * 16;
                let total = wal.scratch_bytes + charge;
                match covers {
                    Err(e) => Err(e),
                    Ok(covered) => if !covered {
                        Err(error::invalid("export cursor", "start exceeds durable prefix"))
                    } else if charge > u64::MAX {
                        Err(frame::shared("export scratch overflow"))
                    } else if total > u64::MAX {
                        Err(frame::shared("position overflow"))
                    } else if total > wal.options.max_bytes {
                        Err(
                            error::limit(
                                "shared_export_scratch_bytes",
                                total as u64,
                                wal.options.max_bytes,
                            ),
                        )
                    } else {
                        Ok(
                            (
                                WalView { scratch_bytes: total as u64, ..wal },
                                ExportIndex {
                                    cursor: baseline,
                                    end,
                                    remaining: count,
                                    charged: charge as u64,
                                },
                                ChainView {
                                    id,
                                    pointer,
                                    seq: end.seq,
                                    floor: baseline.seq,
                                    found: Seq::empty(),
                                    charged: charge as u64,
                                    export: true,
                                },
                            ),
                        )
                    },
                }
            },
        }
    }
}

/// Whether an index at `cursor` has to move on to stand at `after`, or why it never will.
pub open spec fn catching_up(cursor: ArchiveCursor, after: ArchiveCursor) -> Result<bool> {
    if cursor == after {
        Ok(false)
    } else if cursor.seq < after.seq {
        Ok(true)
    } else {
        Err(error::invalid("export cursor", "cursor digest is not a retained record boundary"))
    }
}

impl ExportIndex {
    /// Reserves scratch for an export behind `baseline` and starts the walk that finds its records.
    pub fn build(
        wal: &mut SharedWal,
        id: SharedDbId,
        baseline: ArchiveCursor,
        covers: Result<bool>,
    ) -> (r: Result<(ExportIndex, ChainWalk)>)
        requires
            old(wal).wf(),
        ensures
            final(wal).wf(),
            match build_outcome(old(wal)@, id, baseline, covers) {
                Err(e) => r matches Err(found) && found == e && final(wal)@ == old(wal)@,
                Ok((after, index, walk)) => {
                    &&& r matches Ok((built, found))
                    &&& final(wal)@ == after
                    &&& built == index
                    &&& found@ == walk
                    &&& found.wf()
                },
            },
    {
        if wal.poison {
            return Err(Error::Poisoned);
        }
        proof {
            state::member_view_at(wal.members@, id);
        }
        let entry = match wal.members.get(&id) {
            Some(entry) => entry,
            None => return Err(frame::invalid("export member absent")),
        };
        let protection = match entry.protection() {
            Some(protection) => protection,
            None => return Err(Error::unsupported("archive", "member archive disabled")),
        };
        let settled: bool = entry.lsn <= wal.durable;
        let pointer: Pointer = if settled {
            entry.latest
        } else {
            entry.durable_pointer
        };
        let end: ArchiveCursor = if settled {
            protection.latest
        } else {
            protection.durable
        };
        let covered: bool = match covers {
            Ok(covered) => covered,
            Err(e) => return Err(e),
        };
        if !covered {
            return Err(Error::invalid("export cursor", "start exceeds durable prefix"));
        }
        let count: u64 = end.seq.saturating_sub(baseline.seq);
        if count > u64::MAX / 16 {
            return Err(frame::invalid("export scratch overflow"));
        }
        let charge: u64 = count * 16;
        let total: u64 = match frame::add(wal.scratch_bytes, charge) {
            Ok(total) => total,
            Err(e) => return Err(e),
        };
        if total > wal.options.max_bytes {
            return Err(Error::limit("shared_export_scratch_bytes", total, wal.options.max_bytes));
        }
        wal.scratch_bytes = total;
        let walk = ChainWalk {
            id,
            pointer,
            seq: end.seq,
            floor: baseline.seq,
            found: Vec::new(),
            charged: charge,
            export: true,
        };
        assert(walk.found@ =~= Seq::<Pointer>::empty());
        Ok((ExportIndex { cursor: baseline, end, remaining: count, charged: charge }, walk))
    }

    /// Whether records have to be passed before the export can go on behind `after`. Once their
    /// number is reached, the boundary must be that of `after`, its digest included.
    pub fn lags(&self, after: ArchiveCursor) -> (r: Result<bool>)
        ensures
            r == catching_up(self.cursor, after),
    {
        if self.cursor.same(&after) {
            return Ok(false);
        }
        if self.cursor.seq < after.seq {
            return Ok(true);
        }
        Err(Error::invalid("export cursor", "cursor digest is not a retained record boundary"))
    }

    /// Where the next record to export lies: the oldest of those that remain.
    pub fn peek(&self, walk: &ChainWalk) -> (r: Result<Pointer>)
        requires
            self.remaining <= walk.found@.len(),
        ensures
            r == (if self.remaining == 0 {
                Err::<Pointer, Error>(frame::shared("export index exhausted"))
            } else {
                Ok(walk.found@[self.remaining - 1])
            }),
    {
        if self.remaining == 0 {
            return Err(frame::invalid("export index exhausted"));
        }
        let count: usize = walk.found.len();
        assert(self.remaining <= count);
        Ok(walk.found[self.remaining as usize - 1])
    }

    /// Moves past a record of `raw_length` bytes; `digest` is the chain digest that covers it. Once
    /// nothing remains, the boundary must be the durable end, and the scratch is free.
    pub fn consume(&mut self, wal: &mut SharedWal, raw_length: usize, digest: [u8; 32]) -> (r:
        Result<()>)
        requires
            old(wal).wf(),
            old(self).remaining > 0,
        ensures
            final(wal).wf(),
            match archive::advanced(old(self).cursor, raw_length as int, digest) {
                Err(e) => r == Err::<(), Error>(e) && *final(self) == *old(self) && final(wal)@
                    == old(wal)@,
                Ok(cursor) => {
                    let remaining = (old(self).remaining - 1) as u64;
                    if remaining > 0 {
                        r == Ok::<(), Error>(()) && final(wal)@ == old(wal)@ && *final(self) == (
                        ExportIndex { cursor, remaining, ..*old(self) })
                    } else if cursor != old(self).end {
                        r == Err::<(), Error>(
                            frame::shared("export final hash disagrees with durable chain"),
                        ) && final(wal)@ == old(wal)@ && *final(self) == (ExportIndex {
                            cursor,
                            remaining,
                            ..*old(self)
                        })
                    } else {
                        r == Ok::<(), Error>(()) && final(wal)@ == (WalView {
                            scratch_bytes: archive::saturated(
                                old(wal)@.scratch_bytes - old(self).charged,
                            ),
                            ..old(wal)@
                        }) && *final(self) == (ExportIndex {
                            cursor,
                            remaining,
                            charged: 0,
                            ..*old(self)
                        })
                    }
                },
            },
    {
        let cursor = match archive::advance(self.cursor, raw_length, digest) {
            Ok(cursor) => cursor,
            Err(e) => return Err(e),
        };
        self.cursor = cursor;
        self.remaining = self.remaining - 1;
        if self.remaining == 0 {
            if !self.cursor.same(&self.end) {
                return Err(frame::invalid("export final hash disagrees with durable chain"));
            }
            wal.release_scratch(self.charged);
            self.charged = 0;
        }
        Ok(())
    }
}

/// How an export behind a cursor proceeds.
pub enum ExportPlan {
    /// The index at hand stands there.
    Reuse,
    /// An index is to be built behind this boundary, and moved up to the cursor if it is not there.
    Build(ArchiveCursor),
}

/// Whether the index at hand serves an export behind `after`.
pub open spec fn index_serves(
    index: Option<ExportIndex>,
    after: ArchiveCursor,
    status: ArchiveStatus,
) -> bool {
    index matches Some(found) && found.cursor == after && (found.remaining > 0 || found.end
        == status.durable_end)
}

pub open spec fn export_planned(
    status: ArchiveStatus,
    index: Option<ExportIndex>,
    after: ArchiveCursor,
    covers_earliest: Result<bool>,
    covered_by_end: Result<bool>,
) -> Result<ExportPlan> {
    match covers_earliest {
        Err(e) => Err(e),
        Ok(first) => if !first {
            Err(error::invalid("export cursor", "cursor outside retained durable history"))
        } else {
            match covered_by_end {
                Err(e) => Err(e),
                Ok(second) => if !second {
                    Err(error::invalid("export cursor", "cursor outside retained durable history"))
                } else if index_serves(index, after, status) {
                    Ok(ExportPlan::Reuse)
                } else if index matches Some(found) && found.cursor == after {
                    Ok(ExportPlan::Build(after))
                } else {
                    Ok(ExportPlan::Build(status.earliest))
                },
            }
        },
    }
}

/// Decides how an export behind `after` proceeds. `covers_earliest` tells whether it lies at or
/// behind the earliest boundary, `covered_by_end` whether the durable end lies at or behind it.
pub fn ensure_export_index(
    status: &ArchiveStatus,
    index: Option<&ExportIndex>,
    after: ArchiveCursor,
    covers_earliest: Result<bool>,
    covered_by_end: Result<bool>,
) -> (r: Result<ExportPlan>)
    ensures
        r == export_planned(
            *status,
            match index {
                Some(found) => Some(*found),
                None => None,
            },
            after,
            covers_earliest,
            covered_by_end,
        ),
{
    let first: bool = match covers_earliest {
        Ok(first) => first,
        Err(e) => return Err(e),
    };
    if !first {
        return Err(Error::invalid("export cursor", "cursor outside retained durable history"));
    }
    let second: bool = match covered_by_end {
        Ok(second) => second,
        Err(e) => return Err(e),
    };
    if !second {
        return Err(Error::invalid("export cursor", "cursor outside retained durable history"));
    }
    match index {
        Some(found) => {
            if found.cursor.same(&after) {
                if found.remaining > 0 || found.end.same(&status.durable_end) {
                    return Ok(ExportPlan::Reuse);
                }
                return Ok(ExportPlan::Build(after));
            }
            Ok(ExportPlan::Build(status.earliest))
        },
        None => Ok(ExportPlan::Build(status.earliest)),
    }
}

/// Whether a cursor is known to be a record boundary without an index.
pub fn verify_cursor(status: &ArchiveStatus, cursor: ArchiveCursor) -> (known: bool)
    ensures
        known == (cursor == status.earliest || cursor == status.durable_end),
{
    cursor.same(&status.earliest) || cursor.same(&status.durable_end)
}

/// Whether a chunk with a header of `header` bytes and `written` record bytes takes one more record
/// of `raw_length` bytes. The first record of a chunk has to fit.
pub open spec fn chunk_admits(header: int, written: int, raw_length: int, max_bytes: u32) -> Result<
    bool,
> {
    let growth = state::word(raw_length + 28);
    if state::word(state::word(header + written) + growth) > max_bytes {
        if written == 0 {
            Err(
                error::limit("export_bytes", state::word(header + growth) as u64, max_bytes as u64),
            )
        } else {
            Ok(false)
        }
    } else {
        Ok(true)
    }
}

pub fn export_admits(header: usize, written: usize, raw_length: usize, max_bytes: u32) -> (r:
    Result<bool>)
    ensures
        r == chunk_admits(header as int, written as int, raw_length as int, max_bytes),
{
    let growth: usize = raw_length.saturating_add(28);
    if header.saturating_add(written).saturating_add(growth) > max_bytes as usize {
        if written == 0 {
            return Err(
                Error::limit(
                    "export_bytes",
                    header.saturating_add(growth) as u64,
                    max_bytes as u64,
                ),
            );
        }
        return Ok(false);
    }
    Ok(true)
}

pub const MAX_EXPORT_BYTES: u32 = 4_194_304;

/// A stretch of exported records between two boundaries.
pub struct ExportChunk {
    pub start: ArchiveCursor,
    pub end: ArchiveCursor,
    pub records: Vec<u8>,
}

/// Why a chunk cannot have this budget.
pub open spec fn budget_refusal(header: int, max_bytes: u32) -> Option<Error> {
    if max_bytes > MAX_EXPORT_BYTES || max_bytes < header {
        Some(error::invalid("export budget", "requires header through 4 MiB"))
    } else {
        None
    }
}

impl SharedMember {
    /// Starts a chunk behind `after`. The flag tells whether there is anything to put into it.
    pub fn export_shared(
        &self,
        wal: &SharedWal,
        after: ArchiveCursor,
        header: usize,
        max_bytes: u32,
    ) -> (r: Result<(ExportChunk, bool)>)
        requires
            wal.wf(),
        ensures
            match budget_refusal(header as int, max_bytes) {
                Some(e) => r matches Err(f) && f == e,
                None => match status_of(wal@, self.id) {
                    Err(e) => r matches Err(f) && f == e,
                    Ok(status) => r matches Ok((chunk, more)) && chunk.start == after && chunk.end
                        == after && chunk.records@.len() == 0 && more == (after
                        != status.durable_end),
                },
            },
    {
        if max_bytes > MAX_EXPORT_BYTES || (max_bytes as usize) < header {
            return Err(Error::invalid("export budget", "requires header through 4 MiB"));
        }
        let status = match self.archive_status(wal) {
            Ok(status) => status,
            Err(e) => return Err(e),
        };
        let more = !after.same(&status.durable_end);
        Ok((ExportChunk { start: after, end: after, records: Vec::new() }, more))
    }
}

impl ExportChunk {
    /// Puts the next record into the chunk, unless it is full. `raw_length` and `digest` are those
    /// of the record, and `encoded` is how the chunk holds it.
    pub fn export_record(
        &mut self,
        index: &mut ExportIndex,
        wal: &mut SharedWal,
        header: usize,
        max_bytes: u32,
        raw_length: usize,
        digest: [u8; 32],
        encoded: &[u8],
    ) -> (r: Result<bool>)
        requires
            old(wal).wf(),
            old(index).remaining > 0,
        ensures
            final(wal).wf(),
            final(self).start == old(self).start,
            match chunk_admits(
                header as int,
                old(self).records@.len() as int,
                raw_length as int,
                max_bytes,
            ) {
                Err(e) => r == Err::<bool, Error>(e) && *final(index) == *old(index) && final(wal)@
                    == old(wal)@ && *final(self) == *old(self),
                Ok(false) => r == Ok::<bool, Error>(false) && *final(index) == *old(index)
                    && final(wal)@ == old(wal)@ && *final(self) == *old(self),
                Ok(true) => match archive::advanced(
                    old(index).cursor,
                    raw_length as int,
                    digest,
                ) {
                    Err(e) => r == Err::<bool, Error>(e) && *final(self) == *old(self)
                        && *final(index) == *old(index) && final(wal)@ == old(wal)@,
                    Ok(cursor) => if old(index).remaining == 1 && cursor != old(index).end {
                        r == Err::<bool, Error>(
                            frame::shared("export final hash disagrees with durable chain"),
                        ) && *final(self) == *old(self) && final(wal)@ == old(wal)@
                            && *final(index) == (ExportIndex {
                            cursor,
                            remaining: 0,
                            ..*old(index)
                        })
                    } else {
                        &&& r == Ok::<bool, Error>(true)
                        &&& final(self).records@ == old(self).records@ + encoded@
                        &&& final(self).end == cursor
                        &&& final(index).cursor == cursor
                        &&& final(index).remaining == old(index).remaining - 1
                        &&& final(index).end == old(index).end
                        &&& final(index).charged == (if old(index).remaining == 1 {
                            0
                        } else {
                            old(index).charged
                        })
                        &&& final(wal)@ == (if old(index).remaining == 1 {
                            WalView {
                                scratch_bytes: archive::saturated(
                                    old(wal)@.scratch_bytes - old(index).charged,
                                ),
                                ..old(wal)@
                            }
                        } else {
                            old(wal)@
                        })
                    },
                },
            },
    {
        match export_admits(header, self.records.len(), raw_length, max_bytes) {
            Ok(true) => {},
            Ok(false) => return Ok(false),
            Err(e) => return Err(e),
        }
        if let Err(e) = index.consume(wal, raw_length, digest) {
            return Err(e);
        }
        bytes::put_slice(&mut self.records, encoded);
        self.end = index.cursor;
        Ok(true)
    }
}

/// A release that succeeds never moves a boundary over a record that a pin needs, and it holds the
/// member's records back no longer than before up to the released sequence.
pub proof fn release_respects_pins(
    wal: WalView,
    id: SharedDbId,
    through: ArchiveCursor,
    verified: Result<()>,
    covers: Result<bool>,
    pins: Seq<Pin>,
    pin: int,
)
    requires
        release_outcome(wal, id, through, verified, covers, pins).1 is Ok,
        0 <= pin < pins.len(),
    ensures
        pins[pin].same_history,
        release_outcome(wal, id, through, verified, covers, pins).0.members[id].archive matches Some(after)
            && after.released == through && after.released.seq <= pins[pin].seq,
        release_outcome(wal, id, through, verified, covers, pins).0.members[id].archive_limit()
            == through.seq,
{
}

} // verus!
