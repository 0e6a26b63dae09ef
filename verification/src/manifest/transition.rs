//! From one catalog to the next.
use vstd::prelude::*;

use super::catalog::{
    self, Manifest, ManifestIdentity, ManifestView, RetentionState, TableCatalog, UnitMeta,
};
use super::codec;
use super::grammar;
use crate::error::{self, Error, Result};
use crate::limits::MAX_MANIFEST_BODY_BYTES;
use crate::wal::Checkpoint;

verus! {

/// The identity of the next catalog: one generation on, and no allocation forgotten.
pub open spec fn identity_after(
    current: ManifestIdentity,
    unit_high_water: u64,
    table_high_water: u32,
) -> Result<ManifestIdentity> {
    if current.generation == u64::MAX {
        Err(error::limit("manifest_generation", u64::MAX, u64::MAX))
    } else if unit_high_water < current.unit_high_water || table_high_water
        < current.table_high_water {
        Err(error::corruption("MANIFEST", "allocation high water regressed"))
    } else {
        Ok(
            ManifestIdentity {
                generation: (current.generation + 1) as u64,
                unit_high_water,
                table_high_water,
                ..current
            },
        )
    }
}

/// A catalog with these parts, or why there is none.
pub open spec fn restored(parts: ManifestView) -> Result<ManifestView> {
    match parts.refusal() {
        Some(e) => Err(e),
        None => Ok(parts),
    }
}

/// The catalog after units or retention changed and everything else stayed.
pub open spec fn catalog_after(
    current: ManifestView,
    retention: RetentionState,
    units: Seq<UnitMeta>,
    unit_high_water: u64,
) -> Result<ManifestView> {
    match identity_after(current.identity, unit_high_water, current.identity.table_high_water) {
        Err(e) => Err(e),
        Ok(identity) => restored(ManifestView { identity, retention, units, ..current }),
    }
}

/// The catalog after another writer took over.
pub open spec fn takeover_after(current: ManifestView) -> Result<ManifestView> {
    if current.identity.generation == u64::MAX {
        Err(error::limit("manifest_generation", u64::MAX, u64::MAX))
    } else if current.identity.writer_epoch == u64::MAX {
        Err(error::limit("writer_epoch", u64::MAX, u64::MAX))
    } else {
        restored(
            ManifestView {
                identity: ManifestIdentity {
                    generation: (current.identity.generation + 1) as u64,
                    writer_epoch: (current.identity.writer_epoch + 1) as u64,
                    ..current.identity
                },
                ..current
            },
        )
    }
}

/// Whether an outcome is the expected catalog or the expected refusal.
pub open spec fn yields(outcome: Result<Manifest>, expected: Result<ManifestView>) -> bool {
    match (outcome, expected) {
        (Ok(manifest), Ok(wanted)) => manifest@ == wanted,
        (Err(e), Err(wanted)) => e == wanted,
        _ => false,
    }
}

impl Manifest {
    /// The catalog of a database without tables.
    pub fn initial(checkpoint: Checkpoint) -> (r: Result<Self>)
        ensures
            r matches Ok(manifest) && manifest@ == (ManifestView {
                identity: ManifestIdentity {
                    generation: 0,
                    unit_high_water: 0,
                    table_high_water: 0,
                    shard_id: 0,
                    writer_epoch: 0,
                },
                checkpoint,
                retention: RetentionState { floor: None, heads_generation: None },
                tables: Seq::empty(),
                units: Seq::empty(),
            }),
    {
        let tables: Vec<TableCatalog> = Vec::new();
        assert(catalog::table_views(tables@) =~= Seq::empty());
        Manifest::restore(
            ManifestIdentity::new(0, 0, 0, 0, 0),
            checkpoint,
            RetentionState { floor: None, heads_generation: None },
            tables,
            Vec::new(),
        )
    }

    pub fn successor_catalog(
        &self,
        retention: RetentionState,
        units: Vec<UnitMeta>,
        unit_high_water: u64,
    ) -> (r: Result<Self>)
        ensures
            yields(r, catalog_after(self@, retention, units@, unit_high_water)),
    {
        let identity = match self.next_identity(unit_high_water, self.identity.table_high_water) {
            Ok(identity) => identity,
            Err(e) => return Err(e),
        };
        Manifest::restore(
            identity,
            self.checkpoint,
            retention,
            catalog::copy_tables(self.tables.as_slice()),
            units,
        )
    }

    pub fn successor_writer_epoch(&self) -> (r: Result<Self>)
        ensures
            yields(r, takeover_after(self@)),
    {
        let current = self.identity;
        if current.generation == u64::MAX {
            return Err(Error::limit("manifest_generation", u64::MAX, u64::MAX));
        }
        if current.writer_epoch == u64::MAX {
            return Err(Error::limit("writer_epoch", u64::MAX, u64::MAX));
        }
        Manifest::restore(
            ManifestIdentity::new(
                current.generation + 1,
                current.unit_high_water,
                current.table_high_water,
                current.shard_id,
                current.writer_epoch + 1,
            ),
            self.checkpoint,
            self.retention,
            catalog::copy_tables(self.tables.as_slice()),
            catalog::copy_slice(self.units.as_slice()),
        )
    }

    pub fn next_identity(&self, unit_high_water: u64, table_high_water: u32) -> (r: Result<
        ManifestIdentity,
    >)
        ensures
            r == identity_after(self@.identity, unit_high_water, table_high_water),
    {
        let current = self.identity;
        if current.generation == u64::MAX {
            return Err(Error::limit("manifest_generation", u64::MAX, u64::MAX));
        }
        if unit_high_water < current.unit_high_water || table_high_water
            < current.table_high_water {
            return Err(Error::corruption("MANIFEST", "allocation high water regressed"));
        }
        Ok(
            ManifestIdentity::new(
                current.generation + 1,
                unit_high_water,
                table_high_water,
                current.shard_id,
                current.writer_epoch,
            ),
        )
    }
}

/// Why a catalog may not follow the published one.
pub open spec fn publish_refusal(previous: Option<u64>, generation: u64) -> Option<Error> {
    match previous {
        Some(published) => if published == u64::MAX {
            Some(error::limit("manifest_generation", u64::MAX, u64::MAX))
        } else if generation != published + 1 {
            Some(
                error::invalid(
                    "manifest generation",
                    "publication must be generation zero or the exact successor",
                ),
            )
        } else {
            None
        },
        None => if generation != 0 {
            Some(
                error::invalid(
                    "manifest generation",
                    "publication must be generation zero or the exact successor",
                ),
            )
        } else {
            None
        },
    }
}

/// The file to publish for a catalog that follows the generation `previous`.
pub fn publish(previous: Option<u64>, manifest: &Manifest) -> (r: Result<Vec<u8>>)
    ensures
        match publish_refusal(previous, manifest@.identity.generation) {
            Some(e) => r matches Err(found) && found == e,
            None => {
                let size = grammar::body_bytes(manifest@).len();
                match r {
                    Ok(file) => size <= MAX_MANIFEST_BODY_BYTES && file@ == grammar::file_bytes(
                        manifest@,
                    ),
                    Err(e) => size > MAX_MANIFEST_BODY_BYTES && e == error::limit(
                        "manifest_body_bytes",
                        if size > usize::MAX {
                            u64::MAX
                        } else {
                            size as u64
                        },
                        MAX_MANIFEST_BODY_BYTES as u64,
                    ),
                }
            },
        },
{
    let expected: u64 = match previous {
        Some(published) => {
            if published == u64::MAX {
                return Err(Error::limit("manifest_generation", u64::MAX, u64::MAX));
            }
            published + 1
        },
        None => 0,
    };
    if manifest.identity.generation != expected {
        return Err(
            Error::invalid(
                "manifest generation",
                "publication must be generation zero or the exact successor",
            ),
        );
    }
    codec::encode(manifest)
}

/// Whether a catalog file of this length may be read at all.
pub fn check_file_len(file_len: u64) -> (r: Result<()>)
    ensures
        r == (if file_len > MAX_MANIFEST_BODY_BYTES + grammar::MANIFEST_HEADER_BYTES {
            Err::<(), Error>(
                error::limit(
                    "manifest_file_bytes",
                    file_len,
                    (MAX_MANIFEST_BODY_BYTES + grammar::MANIFEST_HEADER_BYTES) as u64,
                ),
            )
        } else {
            Ok(())
        }),
{
    let maximum: u64 = MAX_MANIFEST_BODY_BYTES as u64 + codec::MANIFEST_HEADER_BYTES as u64;
    if file_len > maximum {
        return Err(Error::limit("manifest_file_bytes", file_len, maximum));
    }
    Ok(())
}

/// A successor may always be published behind its predecessor, and nothing else may; generations
/// and allocations never go back.
pub proof fn successors_are_publishable(
    current: ManifestView,
    retention: RetentionState,
    units: Seq<UnitMeta>,
    unit_high_water: u64,
    other: u64,
)
    requires
        catalog_after(current, retention, units, unit_high_water) is Ok,
    ensures
        ({
            let next = catalog_after(current, retention, units, unit_high_water)->Ok_0;
            &&& publish_refusal(Some(current.identity.generation), next.identity.generation)
                is None
            &&& other != next.identity.generation ==> publish_refusal(
                Some(current.identity.generation),
                other,
            ) is Some
            &&& next.identity.generation == current.identity.generation + 1
            &&& next.identity.unit_high_water >= current.identity.unit_high_water
            &&& next.identity.table_high_water == current.identity.table_high_water
            &&& next.tables == current.tables
            &&& next.checkpoint == current.checkpoint
        }),
{
}

/// A takeover keeps the whole catalog and moves generation and writer epoch on by one.
pub proof fn takeover_keeps_the_catalog(current: ManifestView)
    requires
        current.valid(),
        current.identity.generation < u64::MAX,
        current.identity.writer_epoch < u64::MAX,
    ensures
        takeover_after(current) matches Ok(next) && next == (ManifestView {
            identity: ManifestIdentity {
                generation: (current.identity.generation + 1) as u64,
                writer_epoch: (current.identity.writer_epoch + 1) as u64,
                ..current.identity
            },
            ..current
        }) && next.valid(),
{
}

} // verus!
