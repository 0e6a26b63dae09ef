//! A failure of the shared log is a failure for every member.
use vstd::prelude::*;

use super::batch;
use super::export::{self, Pin};
use super::member;
use super::state::WalView;
use super::types::SharedDbId;
use crate::error::{Error, Result};
use crate::shared_wal::archive::ArchiveCursor;

verus! {

/// Once the log is poisoned, no member can append, commit, make durable, checkpoint, recover,
/// export or release anything, and nothing of the log changes.
pub proof fn poison_stops_every_member(
    wal: WalView,
    id: SharedDbId,
    seq: u64,
    raw: Seq<u8>,
    raws: Seq<Seq<u8>>,
    digest: [u8; 32],
    through: ArchiveCursor,
    verified: Result<()>,
    covers: Result<bool>,
    pins: Seq<Pin>,
)
    requires
        wal.poison,
    ensures
        member::append_outcome(wal, id, seq, raw, digest) is Err,
        member::append_run(wal, id, seq, raw, digest) == Seq::<u64>::empty(),
        batch::batch_run(wal, id, seq, raws) == Seq::<u64>::empty(),
        batch::batch_outcome(wal, id, seq, raws) == Err::<batch::BatchPlan, Error>(Error::Poisoned),
        member::sync_outcome(wal, id) == Err::<WalView, Error>(Error::Poisoned),
        member::checkpoint_outcome(wal, id, seq) == Err::<WalView, Error>(Error::Poisoned),
        member::recover_outcome(wal, id, seq) == Err::<(WalView, member::ChainView), Error>(
            Error::Poisoned,
        ),
        export::status_of(wal, id) is Err,
        export::build_outcome(wal, id, through, covers) is Err,
        export::release_outcome(wal, id, through, verified, covers, pins).0 == wal,
        export::release_outcome(wal, id, through, verified, covers, pins).1 is Err,
{
}

} // verus!
