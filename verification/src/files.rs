//! The layout of a database directory and the steps by which a file in it is replaced.
use vstd::prelude::*;

use crate::bytes;
use crate::error::{self, Error, Result};
use crate::manifest::catalog::{self, Manifest, ManifestView};
use crate::names;
use crate::retention::head;

verus! {

/// A part of the database directory.
#[derive(Clone, Copy, Debug, PartialEq, Eq, Structural)]
pub enum Area {
    Root,
    Wal,
    Units,
    Heads,
    Aggregates,
    Temporary,
}

impl Area {
    pub open spec fn spec_child(self) -> Option<&'static str> {
        match self {
            Area::Root => None,
            Area::Wal => Some("wal"),
            Area::Units => Some("units"),
            Area::Heads => Some("heads"),
            Area::Aggregates => Some("agg"),
            Area::Temporary => Some("tmp"),
        }
    }

    /// The name of the subdirectory, unless it is the root.
    pub fn child(self) -> (child: Option<&'static str>)
        ensures
            child == self.spec_child(),
    {
        match self {
            Area::Root => None,
            Area::Wal => Some("wal"),
            Area::Units => Some("units"),
            Area::Heads => Some("heads"),
            Area::Aggregates => Some("agg"),
            Area::Temporary => Some("tmp"),
        }
    }
}

/// The name of the file that holds a unit.
pub open spec fn unit_file(unit_id: u64) -> Seq<u8> {
    names::hexadecimal(unit_id as nat, 16) + seq![46u8, 108u8, 115u8, 117u8]
}

/// The name of the file that holds a unit.
pub fn unit_file_name(unit_id: u64) -> (name: Vec<u8>)
    ensures
        name@ == unit_file(unit_id),
{
    let mut name: Vec<u8> = Vec::new();
    names::put_hexadecimal(&mut name, unit_id, 16);
    name.push(46);
    name.push(108);
    name.push(115);
    name.push(117);
    assert(name@ =~= unit_file(unit_id));
    name
}

/// Whether a name is one ordinary component of a path: not empty, neither of the two dot names,
/// and without a separator.
pub open spec fn one_component(name: Seq<u8>) -> bool {
    &&& name.len() > 0
    &&& name != seq![46u8]
    &&& name != seq![46u8, 46u8]
    &&& forall|i: int| 0 <= i < name.len() ==> #[trigger] name[i] != 47
}

/// Accepts the name of a file that may be published.
pub fn validate_name(name: &[u8]) -> (r: Result<()>)
    ensures
        r == (if one_component(name@) {
            Ok(())
        } else {
            Err::<(), Error>(
                error::invalid("name", "published file name must be one normal path component"),
            )
        }),
{
    let length: usize = name.len();
    let mut good = length > 0;
    if length == 1 && name[0] == 46 {
        assert(name@ =~= seq![46u8]);
        good = false;
    }
    if length == 2 && name[0] == 46 && name[1] == 46 {
        assert(name@ =~= seq![46u8, 46u8]);
        good = false;
    }
    let mut index: usize = 0;
    while index < length
        invariant
            length == name@.len(),
            index <= length,
            good == (length > 0 && name@ != seq![46u8] && name@ != seq![46u8, 46u8] && (forall|
                i: int,
            |
                0 <= i < index ==> #[trigger] name@[i] != 47)),
        decreases length - index,
    {
        if name[index] == 47 {
            good = false;
        }
        index += 1;
    }
    if good {
        Ok(())
    } else {
        Err(Error::invalid("name", "published file name must be one normal path component"))
    }
}

/// The name under which a file is written before it is published.
pub open spec fn temporary_file(name: Seq<u8>, nonce: u32) -> Seq<u8> {
    seq![46u8] + name + seq![46u8] + names::hexadecimal(nonce as nat, 8) + seq![
        46u8,
        116u8,
        109u8,
        112u8,
    ]
}

/// The name under which a file is written before it is published.
pub fn temporary_name(name: &[u8], nonce: u32) -> (temporary: Vec<u8>)
    ensures
        temporary@ == temporary_file(name@, nonce),
{
    let mut temporary: Vec<u8> = Vec::new();
    temporary.push(46);
    temporary.extend_from_slice(name);
    temporary.push(46);
    names::put_hexadecimal(&mut temporary, nonce as u64, 8);
    temporary.push(46);
    temporary.push(116);
    temporary.push(109);
    temporary.push(112);
    assert(temporary@ =~= temporary_file(name@, nonce));
    temporary
}

/// The nonce to try when the temporary name of this one is taken.
pub fn next_nonce(nonce: u32) -> (r: Result<u32>)
    ensures
        r == (if nonce == u32::MAX {
            Err::<u32, Error>(
                error::limit("temporary_publish_files", 4_294_967_296, u32::MAX as u64),
            )
        } else {
            Ok((nonce + 1) as u32)
        }),
{
    if nonce == u32::MAX {
        return Err(Error::limit("temporary_publish_files", 4_294_967_296, u32::MAX as u64));
    }
    Ok(nonce + 1)
}

/// A step of replacing a file.
#[derive(Clone, Copy, Debug, PartialEq, Eq, Structural)]
pub enum PublishStep {
    Write,
    FileSync,
    Rename,
    DirectorySync,
}

/// The step that follows, after none or some were done.
pub open spec fn step_after(done: Option<PublishStep>) -> Option<PublishStep> {
    match done {
        None => Some(PublishStep::Write),
        Some(PublishStep::Write) => Some(PublishStep::FileSync),
        Some(PublishStep::FileSync) => Some(PublishStep::Rename),
        Some(PublishStep::Rename) => Some(PublishStep::DirectorySync),
        Some(PublishStep::DirectorySync) => None,
    }
}

/// The step that follows, after none or some were done.
pub fn next_step(done: Option<PublishStep>) -> (next: Option<PublishStep>)
    ensures
        next == step_after(done),
{
    match done {
        None => Some(PublishStep::Write),
        Some(PublishStep::Write) => Some(PublishStep::FileSync),
        Some(PublishStep::FileSync) => Some(PublishStep::Rename),
        Some(PublishStep::Rename) => Some(PublishStep::DirectorySync),
        Some(PublishStep::DirectorySync) => None,
    }
}

/// Accepts the length of a lock file.
pub fn check_lock_len(length: u64) -> (r: Result<()>)
    ensures
        r == (if length == 0 {
            Ok(())
        } else {
            Err::<(), Error>(error::corruption("LOCK", "lock file must be empty"))
        }),
{
    if length != 0 {
        return Err(Error::corruption("LOCK", "lock file must be empty"));
    }
    Ok(())
}

/// Whether the catalog needs the file of that name in the area.
pub open spec fn referenced(manifest: ManifestView, area: Area, name: Seq<u8>) -> bool {
    match area {
        Area::Units => exists|i: int|
            0 <= i < manifest.units.len() && name == unit_file((#[trigger] manifest.units[i]).unit_id),
        Area::Heads => manifest.retention.heads_generation matches Some(generation) && name
            == head::head_file(generation),
        _ => false,
    }
}

/// Whether the catalog needs the file of that name in the area. What it does not need is removed
/// from the areas of units, heads and aggregates when a database is opened.
pub fn is_referenced(manifest: &Manifest, area: Area, name: &[u8]) -> (needed: bool)
    ensures
        needed == referenced(manifest@, area, name@),
{
    match area {
        Area::Units => {
            let mut index: usize = 0;
            while index < manifest.units.len()
                invariant
                    area == Area::Units,
                    index <= manifest.units@.len(),
                    forall|i: int|
                        0 <= i < index ==> name@ != unit_file(
                            (#[trigger] manifest.units@[i]).unit_id,
                        ),
                decreases manifest.units@.len() - index,
            {
                let wanted = unit_file_name(manifest.units[index].unit_id);
                if bytes::same_bytes(name, wanted.as_slice()) {
                    assert(name@ == unit_file(manifest@.units[index as int].unit_id));
                    return true;
                }
                index += 1;
            }
            false
        },
        Area::Heads => match manifest.retention.heads_generation {
            Some(generation) => {
                let wanted = head::head_name(generation);
                bytes::same_bytes(name, wanted.as_slice())
            },
            None => false,
        },
        _ => false,
    }
}

/// A file that is to be removed once no reader can still need it.
pub struct DeferredDelete {
    pub owner: u64,
    pub area: Area,
    pub name: Vec<u8>,
    pub removed: bool,
}

/// What became of an attempt to remove a file.
#[derive(Clone, Copy, Debug, PartialEq, Eq, Structural)]
pub enum Removal {
    Removed,
    Absent,
    Failed,
}

/// What is to be done about a deferred file.
#[derive(Clone, Copy, Debug, PartialEq, Eq, Structural)]
pub enum ReapStep {
    Keep,
    Remove,
    SyncDirectory,
}

impl DeferredDelete {
    pub open spec fn spec_step(&self, held: bool) -> ReapStep {
        if held {
            ReapStep::Keep
        } else if !self.removed {
            ReapStep::Remove
        } else {
            ReapStep::SyncDirectory
        }
    }

    /// What is to be done about the file, where some reader may still hold its generation.
    pub fn next_step(&self, held: bool) -> (step: ReapStep)
        ensures
            step == self.spec_step(held),
    {
        if held {
            ReapStep::Keep
        } else if !self.removed {
            ReapStep::Remove
        } else {
            ReapStep::SyncDirectory
        }
    }

    /// Records an attempt to remove the file. It is gone too if it was not there.
    pub fn record_removal(&mut self, outcome: Removal)
        ensures
            final(self).removed == (old(self).removed || outcome != Removal::Failed),
            final(self).owner == old(self).owner,
            final(self).area == old(self).area,
            final(self).name == old(self).name,
    {
        if outcome != Removal::Failed {
            self.removed = true;
        }
    }
}

/// Defers the removal of files until the generation that owns them is no longer held, and starts
/// the next generation.
pub fn advance(
    generation: &mut u64,
    garbage: &mut Vec<DeferredDelete>,
    artifacts: Vec<(Area, Vec<u8>)>,
)
    requires
        *old(generation) < u64::MAX,
    ensures
        *final(generation) == *old(generation) + 1,
        final(garbage)@.len() == old(garbage)@.len() + artifacts@.len(),
        final(garbage)@.take(old(garbage)@.len() as int) == old(garbage)@,
        forall|i: int|
            0 <= i < artifacts@.len() ==> {
                let added = #[trigger] final(garbage)@[old(garbage)@.len() + i];
                &&& added.owner == *old(generation)
                &&& added.area == artifacts@[i].0
                &&& added.name@ == artifacts@[i].1@
                &&& !added.removed
            },
{
    let ghost before = garbage@;
    let mut index: usize = 0;
    assert(garbage@.take(before.len() as int) =~= before);
    while index < artifacts.len()
        invariant
            before == old(garbage)@,
            *generation == *old(generation),
            index <= artifacts@.len(),
            garbage@.len() == before.len() + index,
            garbage@.take(before.len() as int) == before,
            forall|i: int|
                0 <= i < index ==> {
                    let added = #[trigger] garbage@[before.len() + i];
                    &&& added.owner == *old(generation)
                    &&& added.area == artifacts@[i].0
                    &&& added.name@ == artifacts@[i].1@
                    &&& !added.removed
                },
        decreases artifacts@.len() - index,
    {
        let ghost so_far = garbage@;
        garbage.push(
            DeferredDelete {
                owner: *generation,
                area: artifacts[index].0,
                name: catalog::copy_slice(artifacts[index].1.as_slice()),
                removed: false,
            },
        );
        index += 1;
        proof {
            assert(garbage@.take(before.len() as int) =~= so_far.take(before.len() as int));
            assert forall|i: int| 0 <= i < index implies {
                let added = #[trigger] garbage@[before.len() + i];
                &&& added.owner == *old(generation)
                &&& added.area == artifacts@[i].0
                &&& added.name@ == artifacts@[i].1@
                &&& !added.removed
            } by {
                if i < index - 1 {
                    assert(garbage@[before.len() + i] == so_far[before.len() + i]);
                }
            }
        }
    }
    *generation = *generation + 1;
}

/// A file is replaced in four steps, each done once: it is written aside, made durable, put in place
/// and its directory made durable. It is never in place before it is durable.
pub proof fn files_are_durable_before_they_are_in_place()
    ensures
        step_after(None) == Some(PublishStep::Write),
        step_after(step_after(None)) == Some(PublishStep::FileSync),
        step_after(step_after(step_after(None))) == Some(PublishStep::Rename),
        step_after(step_after(step_after(step_after(None)))) == Some(PublishStep::DirectorySync),
        step_after(Some(PublishStep::DirectorySync)) is None,
{
}

/// A deferred file is left alone while it is held, then removed, and then its directory is made
/// durable.
pub proof fn deferred_files_go_once_nobody_holds_them(file: &DeferredDelete, held: bool)
    ensures
        held ==> file.spec_step(held) == ReapStep::Keep,
        !held && !file.removed ==> file.spec_step(held) == ReapStep::Remove,
        !held && file.removed ==> file.spec_step(held) == ReapStep::SyncDirectory,
{
}

/// A catalog needs the file of each of its units and of its heads, and no other.
pub proof fn catalogs_need_their_files(manifest: ManifestView, area: Area, name: Seq<u8>, at: int)
    ensures
        0 <= at < manifest.units.len() && area == Area::Units && name == unit_file(
            manifest.units[at].unit_id,
        ) ==> referenced(manifest, area, name),
        area == Area::Heads && manifest.retention.heads_generation is Some && name
            == head::head_file(manifest.retention.heads_generation->Some_0) ==> referenced(
            manifest,
            area,
            name,
        ),
        area == Area::Units && (forall|i: int|
            0 <= i < manifest.units.len() ==> name != unit_file(
                (#[trigger] manifest.units[i]).unit_id,
            )) ==> !referenced(manifest, area, name),
        area == Area::Heads && (manifest.retention.heads_generation is None || name
            != head::head_file(manifest.retention.heads_generation->Some_0)) ==> !referenced(
            manifest,
            area,
            name,
        ),
        area != Area::Units && area != Area::Heads ==> !referenced(manifest, area, name),
{
}

/// A published name is one component of a path: it has a byte, is not one of the dot names, and has
/// no separator. Every such name can be published.
pub proof fn names_are_single_components(name: Seq<u8>)
    ensures
        one_component(name) <==> name.len() >= 1 && !(name.len() == 1 && name[0] == 46) && !(
        name.len() == 2 && name[0] == 46 && name[1] == 46) && !name.contains(47),
{
    if name.len() == 1 && name[0] == 46 {
        assert(name =~= seq![46u8]);
    }
    if name.len() == 2 && name[0] == 46 && name[1] == 46 {
        assert(name =~= seq![46u8, 46u8]);
    }
    if name.contains(47) {
        let i = choose|i: int| 0 <= i < name.len() && name[i] == 47;
        assert(name[i] == 47);
    } else {
        assert forall|i: int| 0 <= i < name.len() implies #[trigger] name[i] != 47 by {
            if name[i] == 47 {
                assert(name.contains(47));
            }
        }
    }
}

/// Every area but the root has its own subdirectory.
pub proof fn areas_have_their_directory(area: Area)
    ensures
        area.spec_child() == match area {
            Area::Root => None,
            Area::Wal => Some("wal"),
            Area::Units => Some("units"),
            Area::Heads => Some("heads"),
            Area::Aggregates => Some("agg"),
            Area::Temporary => Some("tmp"),
        },
{
}

} // verus!
