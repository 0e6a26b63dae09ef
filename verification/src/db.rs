//! An open database.
use vstd::prelude::*;

use crate::error::{Error, Result};
use crate::files::{self, Area, DeferredDelete};
use crate::manifest::catalog::Manifest;
use crate::manifest::replay;
use crate::options::OpenOptions;
use crate::retention::head::RetentionHeads;
use crate::tail::TailIndex;
use crate::unit::UnitSource;
use crate::wal::DurablePosition;

verus! {

/// What the log writer stands at.
#[derive(Clone, Copy, Debug, PartialEq, Eq, Structural)]
pub struct WriterStatus {
    pub poisoned: bool,
    pub unsynced_bytes: u64,
    pub durable: DurablePosition,
}

impl WriterStatus {
    /// Fails once a write has failed.
    pub fn ensure_healthy(&self) -> (r: Result<()>)
        ensures
            r == (if self.poisoned {
                Err::<(), Error>(Error::Poisoned)
            } else {
                Ok(())
            }),
    {
        if self.poisoned {
            Err(Error::Poisoned)
        } else {
            Ok(())
        }
    }
}

/// The state of an open database: its published catalog, what the log holds behind it, where its
/// units are read from, and what retention kept.
pub struct Db<S: UnitSource> {
    pub manifest: Manifest,
    pub tail: TailIndex,
    pub source: S,
    pub heads: Option<RetentionHeads>,
    pub writer: WriterStatus,
    pub options: OpenOptions,
    pub generation: u64,
    pub garbage: Vec<DeferredDelete>,
}

impl<S: UnitSource> Db<S> {
    pub open spec fn wf(&self) -> bool {
        &&& self.manifest.valid()
        &&& self.tail.wf()
        &&& self.heads matches Some(heads) ==> heads.valid()
    }

    /// Opens a database over what was loaded: the tail starts out behind the catalog.
    pub fn new(
        manifest: Manifest,
        source: S,
        heads: Option<RetentionHeads>,
        writer: WriterStatus,
        options: OpenOptions,
    ) -> (r: Result<Self>)
        requires
            manifest.valid(),
            heads matches Some(list) ==> list.valid(),
        ensures
            r matches Ok(db) && db.wf() && db.manifest == manifest && db.source == source
                && db.heads == heads && db.writer == writer && db.options == options && db.tail@
                == replay::unreplayed_tail(manifest@) && db.generation == 0
                && db.garbage@.len() == 0,
    {
        match manifest.replay_target() {
            Ok(tail) => Ok(
                Db {
                    manifest,
                    tail,
                    source,
                    heads,
                    writer,
                    options,
                    generation: 0,
                    garbage: Vec::new(),
                },
            ),
            Err(e) => Err(e),
        }
    }

    /// Retires the files that a new catalog no longer needs.
    pub fn retire(&mut self, artifacts: Vec<(Area, Vec<u8>)>)
        requires
            old(self).generation < u64::MAX,
        ensures
            final(self).generation == old(self).generation + 1,
            final(self).garbage@.len() == old(self).garbage@.len() + artifacts@.len(),
            final(self).garbage@.take(old(self).garbage@.len() as int) == old(self).garbage@,
            forall|i: int|
                0 <= i < artifacts@.len() ==> {
                    let added = #[trigger] final(self).garbage@[old(self).garbage@.len() + i];
                    &&& added.owner == old(self).generation
                    &&& added.area == artifacts@[i].0
                    &&& added.name@ == artifacts@[i].1@
                    &&& !added.removed
                },
            *final(self) == (Db {
                generation: final(self).generation,
                garbage: final(self).garbage,
                ..*old(self)
            }),
    {
        files::advance(&mut self.generation, &mut self.garbage, artifacts);
    }
}

} // verus!
