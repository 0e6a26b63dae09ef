//! Taking databases into a log and out of it.
use vstd::prelude::*;

use super::archive::{self, Protection};
use super::frame::{self, Pointer};
use super::gc;
use super::registry;
use super::state::{self, Member, MemberView, SharedWal, WalView};
use super::types::{SharedDbId, SharedWalOptions};
use crate::bytes;
use crate::error::{self, Error, Result};
use crate::ordmap::{self, OrderedMap};
use crate::text;

verus! {

/// Whether a member that is not retired is registered under this path.
pub open spec fn root_taken(members: Map<SharedDbId, MemberView>, root: Seq<u8>) -> bool {
    exists|id: SharedDbId| #[trigger]
        members.contains_key(id) && !members[id].retired && members[id].root == root
}

/// The member that is registered under this path.
pub fn find_root(members: &OrderedMap<SharedDbId, Member>, root: &[u8]) -> (found: Option<
    SharedDbId,
>)
    requires
        members.wf(),
    ensures
        match found {
            Some(id) => {
                let views = state::member_views(members@);
                views.contains_key(id) && !views[id].retired && views[id].root == root@
            },
            None => !root_taken(state::member_views(members@), root@),
        },
{
    let mut index: usize = 0;
    while index < members.len()
        invariant
            members.wf(),
            index <= members.entries@.len(),
            forall|k: int|
                0 <= k < index ==> (#[trigger] members.entries@[k]).1.retired
                    || members.entries@[k].1.root@ != root@,
        decreases members.entries@.len() - index,
    {
        let entry = &members.entries[index];
        if !entry.1.retired && bytes::same_bytes(entry.1.root.as_slice(), root) {
            proof {
                ordmap::lookup_at(members.entries@, index as int);
            }
            return Some(entry.0);
        }
        index += 1;
    }
    proof {
        let views = state::member_views(members@);
        if root_taken(views, root@) {
            let id = choose|id: SharedDbId| #[trigger]
                views.contains_key(id) && !views[id].retired && views[id].root == root@;
            let k = ordmap::key_index(members.entries@, id);
            assert(members.entries@[k].0 == id);
            ordmap::lookup_at(members.entries@, k);
        }
    }
    None
}

/// A member without records.
pub open spec fn fresh_member(
    root: Seq<u8>,
    initialized: bool,
    retired: bool,
    checkpoint: u64,
    archive: Option<Protection>,
) -> MemberView {
    MemberView {
        root,
        initialized,
        retired,
        checkpoint,
        latest: Pointer::spec_none(),
        seq: checkpoint,
        lsn: 0,
        bytes: 0,
        durable_seq: checkpoint,
        durable_pointer: Pointer::spec_none(),
        archive,
    }
}

fn new_member(
    root: Vec<u8>,
    initialized: bool,
    retired: bool,
    checkpoint: u64,
    archive: Option<Protection>,
) -> (member: Member)
    ensures
        member@ == fresh_member(root@, initialized, retired, checkpoint, archive),
{
    Member {
        root,
        initialized,
        retired,
        checkpoint,
        latest: Pointer::none(),
        seq: checkpoint,
        lsn: 0,
        bytes: 0,
        durable_seq: checkpoint,
        durable_pointer: Pointer::none(),
        archive: state::boxed(archive),
    }
}

/// The members that registration files name, gathered one by one.
pub struct Registry {
    pub identity: [u8; 16],
    pub options: SharedWalOptions,
    pub members: OrderedMap<SharedDbId, Member>,
    pub charged: u64,
}

pub struct RegistryView {
    pub identity: [u8; 16],
    pub options: SharedWalOptions,
    pub members: Map<SharedDbId, MemberView>,
    pub charged: u64,
}

impl View for Registry {
    type V = RegistryView;

    open spec fn view(&self) -> RegistryView {
        RegistryView {
            identity: self.identity,
            options: self.options,
            members: state::member_views(self.members@),
            charged: self.charged,
        }
    }
}

/// What the directory of a registered database holds.
pub struct LiveFacts<'a> {
    /// The path is absolute and exists.
    pub present: bool,
    /// Its binding file.
    pub binding: Option<&'a [u8]>,
    /// Its archive protection.
    pub archive: Result<Option<Protection>>,
    /// The last sequence in front of its catalog's checkpoint, if it has a catalog.
    pub manifest: Option<Result<u64>>,
    /// The identity in its descriptor of a sealed import, if it has one.
    pub sealed: Option<Result<SharedDbId>>,
}

pub struct LiveFactsView {
    pub present: bool,
    pub binding: Option<Seq<u8>>,
    pub archive: Result<Option<Protection>>,
    pub manifest: Option<Result<u64>>,
    pub sealed: Option<Result<SharedDbId>>,
}

impl View for LiveFacts<'_> {
    type V = LiveFactsView;

    open spec fn view(&self) -> LiveFactsView {
        LiveFactsView {
            present: self.present,
            binding: match self.binding {
                Some(file) => Some(file@),
                None => None,
            },
            archive: self.archive,
            manifest: self.manifest,
            sealed: self.sealed,
        }
    }
}

/// The checkpoint of a database, where its binding and catalog agree.
pub open spec fn live_checkpoint(id: SharedDbId, bound: bool, facts: LiveFactsView) -> Result<u64> {
    match facts.manifest {
        None => Ok(0),
        Some(checkpoint) => if bound {
            checkpoint
        } else {
            match facts.sealed {
                None => Err(frame::shared("MANIFEST without shared binding")),
                Some(Err(e)) => Err(e),
                Some(Ok(found)) => if found != id {
                    Err(frame::shared("pending sealed identity mismatch"))
                } else {
                    checkpoint
                },
            }
        },
    }
}

/// The members and the charge after one more registration, within the budgets.
pub open spec fn registry_room(registry: RegistryView, charge: int) -> Result<u64> {
    let charged = registry.charged + charge;
    if charged > u64::MAX {
        Err(frame::shared("position overflow"))
    } else if charged > registry.options.index_bytes || registry.members.len()
        >= registry.options.max_databases {
        Err(
            error::limit("shared_wal_index_bytes", charged as u64, registry.options.index_bytes),
        )
    } else {
        Ok(charged as u64)
    }
}

/// What a live registration adds, or why it is refused, in the order of the checks.
pub open spec fn live_outcome(
    registry: RegistryView,
    id: SharedDbId,
    root: Seq<u8>,
    facts: LiveFactsView,
) -> Result<(MemberView, u64)> {
    if !facts.present {
        Err(frame::shared("registered directory missing"))
    } else {
        match registry::binding_verified(facts.binding, registry.identity@, id) {
            Err(e) => Err(e),
            Ok(bound) => match facts.archive {
                Err(e) => Err(e),
                Ok(archive) => match live_checkpoint(id, bound, facts) {
                    Err(e) => Err(e),
                    Ok(checkpoint) => {
                        let charge = state::spec_member_charge(root.len() as int) + (
                        if archive is Some {
                            archive::spec_protection_charge() as int
                        } else {
                            0
                        });
                        match registry_room(registry, charge) {
                            Err(e) => Err(e),
                            Ok(charged) => if root_taken(registry.members, root) {
                                Err(frame::shared("duplicate registered path"))
                            } else {
                                Ok(
                                    (
                                        fresh_member(
                                            root,
                                            facts.manifest is Some,
                                            false,
                                            checkpoint,
                                            archive,
                                        ),
                                        charged,
                                    ),
                                )
                            },
                        }
                    },
                },
            },
        }
    }
}

/// Views of an ordered member table have as many entries as the table.
proof fn member_count(members: &OrderedMap<SharedDbId, Member>)
    requires
        members.wf(),
    ensures
        state::member_views(members@).dom().finite(),
        state::member_views(members@).len() == members.entries@.len(),
{
    gc::map_len(members.entries@);
    assert(state::member_views(members@).dom() =~= members@.dom());
}

/// Setting a member adds at most its share of the index.
proof fn member_charge_set(
    members: Seq<(SharedDbId, Member)>,
    after: Seq<(SharedDbId, Member)>,
    id: SharedDbId,
    member: Member,
)
    requires
        ordmap::ordered(members),
        after == ordmap::placed(members, id, member),
    ensures
        state::total_member_charge(after) <= state::total_member_charge(members)
            + state::spec_member_charge(member.root@.len() as int),
    decreases members.len(),
{
    if members.len() == 0 {
        assert(after.drop_last() =~= members);
    } else if crate::ordmap::OrderedKey::rank(members.last().0) < crate::ordmap::OrderedKey::rank(
        id,
    ) {
        assert(after.drop_last() =~= members);
    } else if crate::ordmap::OrderedKey::rank(members.last().0) == crate::ordmap::OrderedKey::rank(
        id,
    ) {
        assert(after.drop_last() =~= members.drop_last());
    } else {
        let rest = ordmap::placed(members.drop_last(), id, member);
        assert(ordmap::ordered(members.drop_last()));
        member_charge_set(members.drop_last(), rest, id, member);
        assert(after.drop_last() =~= rest);
        assert(after.last() == members.last());
    }
}

impl Registry {
    pub open spec fn wf(&self) -> bool {
        &&& self.options.valid()
        &&& self.members.wf()
        &&& state::total_member_charge(self.members.entries@) <= self.charged
    }

    pub fn new(identity: [u8; 16], options: SharedWalOptions) -> (registry: Self)
        requires
            options.valid(),
        ensures
            registry.wf(),
            registry@ == (RegistryView { identity, options, members: Map::empty(), charged: 0 }),
    {
        let registry = Registry { identity, options, members: OrderedMap::new(), charged: 0 };
        assert(registry@.members =~= Map::empty());
        registry
    }

    /// Finds room for one more registration.
    fn room(&self, charge: u64) -> (r: Result<u64>)
        requires
            self.wf(),
        ensures
            r == registry_room(self@, charge as int),
    {
        proof {
            member_count(&self.members);
        }
        let charged: u64 = match frame::add(self.charged, charge) {
            Ok(charged) => charged,
            Err(e) => return Err(e),
        };
        if charged > self.options.index_bytes || self.members.len()
            >= self.options.max_databases as usize {
            return Err(Error::limit("shared_wal_index_bytes", charged, self.options.index_bytes));
        }
        Ok(charged)
    }

    fn enter(&mut self, id: SharedDbId, member: Member, charged: u64)
        requires
            old(self).wf(),
            charged >= old(self).charged + state::spec_member_charge(member.root@.len() as int),
        ensures
            final(self).wf(),
            final(self)@ == (RegistryView {
                members: old(self)@.members.insert(id, member@),
                charged,
                ..old(self)@
            }),
    {
        let ghost before = self.members.entries@;
        let ghost map = self.members@;
        self.charged = charged;
        self.members.insert(id, member);
        proof {
            member_charge_set(before, self.members.entries@, id, member);
            state::member_view_insert(map, id, member);
        }
    }

    /// Takes a registration whose identity was retired at the sequence `seq`.
    pub fn admit_retired(&mut self, id: SharedDbId, root: Vec<u8>, seq: u64) -> (r: Result<()>)
        requires
            old(self).wf(),
        ensures
            final(self).wf(),
            match registry_room(
                old(self)@,
                state::spec_member_charge(root@.len() as int) as int,
            ) {
                Err(e) => r == Err::<(), Error>(e) && final(self)@ == old(self)@,
                Ok(charged) => r == Ok::<(), Error>(()) && final(self)@ == (RegistryView {
                    members: old(self)@.members.insert(
                        id,
                        fresh_member(root@, false, true, seq, None),
                    ),
                    charged,
                    ..old(self)@
                }),
            },
    {
        let charged: u64 = match self.room(state::member_charge(&root)) {
            Ok(charged) => charged,
            Err(e) => return Err(e),
        };
        let member = new_member(root, false, true, seq, None);
        self.enter(id, member, charged);
        Ok(())
    }

    /// Takes a registration of a live database.
    pub fn admit_live(&mut self, id: SharedDbId, root: Vec<u8>, facts: &LiveFacts<'_>) -> (r:
        Result<()>)
        requires
            old(self).wf(),
        ensures
            final(self).wf(),
            match live_outcome(old(self)@, id, root@, facts@) {
                Err(e) => r == Err::<(), Error>(e) && final(self)@ == old(self)@,
                Ok((member, charged)) => r == Ok::<(), Error>(()) && final(self)@ == (
                RegistryView {
                    members: old(self)@.members.insert(id, member),
                    charged,
                    ..old(self)@
                }),
            },
    {
        if !facts.present {
            return Err(frame::invalid("registered directory missing"));
        }
        let bound: bool = match registry::verify_binding(facts.binding, &self.identity, id) {
            Ok(bound) => bound,
            Err(e) => return Err(e),
        };
        let archive: Option<Protection> = match facts.archive {
            Ok(archive) => archive,
            Err(e) => return Err(e),
        };
        let checkpoint: u64 = match facts.manifest {
            None => 0,
            Some(checkpoint) => {
                if !bound {
                    match facts.sealed {
                        None => return Err(frame::invalid("MANIFEST without shared binding")),
                        Some(Err(e)) => return Err(e),
                        Some(Ok(found)) => {
                            if !found.same(&id) {
                                return Err(frame::invalid("pending sealed identity mismatch"));
                            }
                        },
                    }
                }
                match checkpoint {
                    Ok(checkpoint) => checkpoint,
                    Err(e) => return Err(e),
                }
            },
        };
        let own: u64 = state::member_charge(&root);
        let extra: u64 = if archive.is_some() {
            archive::protection_charge()
        } else {
            0
        };
        let charge: u64 = match frame::add(own, extra) {
            Ok(charge) => charge,
            Err(e) => return Err(e),
        };
        let charged: u64 = match self.room(charge) {
            Ok(charged) => charged,
            Err(e) => return Err(e),
        };
        if find_root(&self.members, root.as_slice()).is_some() {
            return Err(frame::invalid("duplicate registered path"));
        }
        let member = new_member(root, facts.manifest.is_some(), false, checkpoint, archive);
        self.enter(id, member, charged);
        Ok(())
    }
}

/// Why a database may not be opened under a path: its identity is retired or lives elsewhere.
pub open spec fn open_refusal(wal: WalView, root: Seq<u8>, id: SharedDbId) -> Option<Error> {
    if wal.poison {
        Some(Error::Poisoned)
    } else if wal.members.contains_key(id) && wal.members[id].retired {
        Some(error::invalid("database identity", "retired identity cannot be reused"))
    } else if wal.members.contains_key(id) && wal.members[id].root != root {
        Some(error::invalid("database path", "identity belongs to another registered path"))
    } else {
        None
    }
}

/// What a registration asks its embedder to publish, in this order.
pub struct Registration {
    /// The registration file of the log, for a new member.
    pub member: Option<Vec<u8>>,
    /// The binding file of the database, where it has none.
    pub binding: Option<Vec<u8>>,
}

/// `..`
pub open spec fn parent_path() -> Seq<u8> {
    seq![46u8, 46]
}

/// The path that a registration stores: relative for the database around the log.
pub open spec fn stored_path(root: Seq<u8>, embedded: bool) -> Seq<u8> {
    if embedded {
        parent_path()
    } else {
        root
    }
}

/// Why a registration is refused, in the order of the checks.
pub open spec fn register_refusal(
    wal: WalView,
    root: Seq<u8>,
    id: SharedDbId,
    bound: bool,
    cataloged: bool,
    imported: bool,
    embedded: bool,
) -> Option<Error> {
    if cataloged && !bound && !imported {
        Some(error::unsupported("shared open", "old or unbound MANIFEST is not supported"))
    } else if wal.poison {
        Some(Error::Poisoned)
    } else if wal.members.contains_key(id) {
        if wal.members[id].retired {
            Some(error::invalid("database identity", "retired identity cannot be reused"))
        } else if wal.members[id].root != root {
            Some(frame::shared("identity already bound to another directory"))
        } else {
            None
        }
    } else if bound {
        Some(frame::shared("binding has no registration"))
    } else if root_taken(wal.members, root) {
        Some(frame::shared("path already registered with another identity"))
    } else if wal.members.len() >= wal.options.max_databases {
        Some(
            error::limit(
                "shared_wal_databases",
                wal.members.len() as u64,
                wal.options.max_databases as u64,
            ),
        )
    } else if !embedded && !vstd::utf8::valid_utf8(root) {
        Some(error::invalid("database path", "requires UTF-8"))
    } else if stored_path(root, embedded).len() > 4096 {
        Some(error::invalid("database path", "path is too long"))
    } else {
        match state::charge_result(wal, state::spec_member_charge(root.len() as int)) {
            Err(e) => Some(e),
            Ok(_) => None,
        }
    }
}

/// What an accepted registration does: a new member joins without records and is charged, and the
/// files that are missing are to be published.
pub open spec fn register_done(
    before: WalView,
    after: WalView,
    root: Seq<u8>,
    id: SharedDbId,
    bound: bool,
    embedded: bool,
    registration: Registration,
) -> bool {
    let known = before.members.contains_key(id);
    &&& (registration.member is None <==> known)
    &&& (registration.binding is None <==> bound)
    &&& registration.member matches Some(file) ==> file@ == frame::sealed(
        registry::registration_body(id, stored_path(root, embedded)),
    )
    &&& registration.binding matches Some(file) ==> file@ == frame::sealed(
        registry::binding_body(before.identity@, id),
    )
    &&& after == (if known {
        before
    } else {
        WalView {
            members: before.members.insert(id, fresh_member(root, false, false, 0, None)),
            charged: (before.charged + state::spec_member_charge(root.len() as int)) as u64,
            ..before
        }
    })
}

impl SharedWal {
    pub fn validate_open(&self, root: &[u8], id: SharedDbId) -> (r: Result<()>)
        requires
            self.wf(),
        ensures
            r == (match open_refusal(self@, root@, id) {
                Some(e) => Err::<(), Error>(e),
                None => Ok(()),
            }),
    {
        if self.poison {
            return Err(Error::Poisoned);
        }
        match self.members.get(&id) {
            Some(member) => {
                if member.retired {
                    return Err(
                        Error::invalid("database identity", "retired identity cannot be reused"),
                    );
                }
                if !bytes::same_bytes(root, member.root.as_slice()) {
                    return Err(
                        Error::invalid(
                            "database path",
                            "identity belongs to another registered path",
                        ),
                    );
                }
            },
            None => {},
        }
        Ok(())
    }

    /// The identity that is registered under a path.
    pub fn registered_id(&self, root: &[u8]) -> (r: Result<Option<SharedDbId>>)
        requires
            self.wf(),
        ensures
            match r {
                Err(e) => self@.poison && e == Error::Poisoned,
                Ok(Some(id)) => !self@.poison && self@.members.contains_key(id)
                    && !self@.members[id].retired && self@.members[id].root == root@,
                Ok(None) => !self@.poison && !root_taken(self@.members, root@),
            },
    {
        if self.poison {
            return Err(Error::Poisoned);
        }
        Ok(find_root(&self.members, root))
    }

    /// Notes that a member's catalog is there, with the last sequence in front of its checkpoint.
    pub fn initialized(&mut self, id: SharedDbId, checkpoint: u64) -> (r: Result<()>)
        requires
            old(self).wf(),
        ensures
            final(self).wf(),
            match initialized_outcome(old(self)@, id, checkpoint) {
                Err(e) => r == Err::<(), Error>(e) && final(self)@ == old(self)@,
                Ok(after) => r == Ok::<(), Error>(()) && final(self)@ == after,
            },
    {
        if self.poison {
            return Err(Error::Poisoned);
        }
        let at: usize = match self.members.find(&id) {
            Some(at) => at,
            None => return Err(frame::invalid("missing initialized member")),
        };
        proof {
            state::member_view_at(self.members@, id);
        }
        let ghost table = self.members.entries@;
        let ghost map = self.members@;
        let known = &self.members.entries[at].1;
        if known.initialized {
            if known.checkpoint != checkpoint {
                return Err(frame::invalid("registered checkpoint differs from MANIFEST"));
            }
            return Ok(());
        }
        if known.seq != 0 || known.latest != Pointer::none() {
            return Err(frame::invalid("records precede initialized checkpoint"));
        }
        let member = self.members.value_mut(at);
        member.checkpoint = checkpoint;
        member.seq = checkpoint;
        member.durable_seq = checkpoint;
        member.initialized = true;
        proof {
            let after = self.members.entries@[at as int].1;
            assert(self.members.entries@ =~= table.update(at as int, (id, after)));
            ordmap::update_is_insert(table, at as int, after);
            state::member_charge_update(table, at as int, (id, after));
            state::member_view_insert(map, id, after);
            assert(after@.root =~= table[at as int].1@.root);
        }
        Ok(())
    }

    /// Registers a database under a path, or confirms that it already is. `bound` tells whether
    /// the database has a valid binding to this log, `cataloged` whether it has a catalog, and
    /// `embedded` whether the log lies directly inside the database's directory.
    pub fn register_inner(
        &mut self,
        root: Vec<u8>,
        id: SharedDbId,
        bound: bool,
        cataloged: bool,
        imported: bool,
        embedded: bool,
    ) -> (r: Result<Registration>)
        requires
            old(self).wf(),
        ensures
            final(self).wf(),
            match register_refusal(
                old(self)@,
                root@,
                id,
                bound,
                cataloged,
                imported,
                embedded,
            ) {
                Some(e) => r matches Err(found) && found == e && final(self)@ == old(self)@,
                None => r matches Ok(registration) && register_done(
                    old(self)@,
                    final(self)@,
                    root@,
                    id,
                    bound,
                    embedded,
                    registration,
                ),
            },
    {
        if cataloged && !bound && !imported {
            return Err(
                Error::unsupported("shared open", "old or unbound MANIFEST is not supported"),
            );
        }
        if self.poison {
            return Err(Error::Poisoned);
        }
        proof {
            member_count(&self.members);
            state::member_view_at(self.members@, id);
        }
        let binding_file: Option<Vec<u8>> = if bound {
            None
        } else {
            Some(registry::binding(&self.identity, id))
        };
        match self.members.get(&id) {
            Some(member) => {
                if member.retired {
                    return Err(
                        Error::invalid("database identity", "retired identity cannot be reused"),
                    );
                }
                if !bytes::same_bytes(member.root.as_slice(), root.as_slice()) {
                    return Err(frame::invalid("identity already bound to another directory"));
                }
                return Ok(Registration { member: None, binding: binding_file });
            },
            None => {},
        }
        if bound {
            return Err(frame::invalid("binding has no registration"));
        }
        if find_root(&self.members, root.as_slice()).is_some() {
            return Err(frame::invalid("path already registered with another identity"));
        }
        if self.members.len() >= self.options.max_databases as usize {
            return Err(
                Error::limit(
                    "shared_wal_databases",
                    self.members.len() as u64,
                    self.options.max_databases as u64,
                ),
            );
        }
        let parent: [u8; 2] = [46u8, 46];
        assert(parent@ =~= parent_path());
        if !embedded && !text::is_utf8(root.as_slice()) {
            return Err(Error::invalid("database path", "requires UTF-8"));
        }
        let path: &[u8] = if embedded {
            parent.as_slice()
        } else {
            root.as_slice()
        };
        if path.len() > 4096 {
            return Err(Error::invalid("database path", "path is too long"));
        }
        let file = registry::registration(id, path);
        let growth: u64 = state::member_charge(&root);
        match self.charge(growth) {
            Ok(_) => {},
            Err(e) => return Err(e),
        }
        let ghost before = self.members.entries@;
        let ghost map = self.members@;
        let member = new_member(root, false, false, 0, None);
        self.members.insert(id, member);
        proof {
            member_charge_set(before, self.members.entries@, id, member);
            state::member_view_insert(map, id, member);
        }
        Ok(Registration { member: Some(file), binding: binding_file })
    }

    /// Registers a database that this log created or already knows.
    pub fn register(
        &mut self,
        root: Vec<u8>,
        id: SharedDbId,
        bound: bool,
        cataloged: bool,
        embedded: bool,
    ) -> (r: Result<Registration>)
        requires
            old(self).wf(),
        ensures
            final(self).wf(),
            match register_refusal(old(self)@, root@, id, bound, cataloged, false, embedded) {
                Some(e) => r matches Err(found) && found == e && final(self)@ == old(self)@,
                None => r matches Ok(registration) && register_done(
                    old(self)@,
                    final(self)@,
                    root@,
                    id,
                    bound,
                    embedded,
                    registration,
                ),
            },
    {
        self.register_inner(root, id, bound, cataloged, false, embedded)
    }

    /// Registers a database that comes with a catalog from elsewhere.
    pub fn register_imported(
        &mut self,
        root: Vec<u8>,
        id: SharedDbId,
        bound: bool,
        cataloged: bool,
        embedded: bool,
    ) -> (r: Result<Registration>)
        requires
            old(self).wf(),
        ensures
            final(self).wf(),
            match register_refusal(old(self)@, root@, id, bound, cataloged, true, embedded) {
                Some(e) => r matches Err(found) && found == e && final(self)@ == old(self)@,
                None => r matches Ok(registration) && register_done(
                    old(self)@,
                    final(self)@,
                    root@,
                    id,
                    bound,
                    embedded,
                    registration,
                ),
            },
    {
        self.register_inner(root, id, bound, cataloged, true, embedded)
    }
}

/// The log after a member's catalog was noted.
pub open spec fn initialized_outcome(wal: WalView, id: SharedDbId, checkpoint: u64) -> Result<
    WalView,
> {
    if wal.poison {
        Err(Error::Poisoned)
    } else if !wal.members.contains_key(id) {
        Err(frame::shared("missing initialized member"))
    } else {
        let member = wal.members[id];
        if member.initialized {
            if member.checkpoint != checkpoint {
                Err(frame::shared("registered checkpoint differs from MANIFEST"))
            } else {
                Ok(wal)
            }
        } else if member.seq != 0 || member.latest != Pointer::spec_none() {
            Err(frame::shared("records precede initialized checkpoint"))
        } else {
            Ok(
                WalView {
                    members: wal.members.insert(
                        id,
                        MemberView {
                            checkpoint,
                            seq: checkpoint,
                            durable_seq: checkpoint,
                            initialized: true,
                            ..member
                        },
                    ),
                    ..wal
                },
            )
        }
    }
}

/// Whether no two members that are not retired share a path.
pub open spec fn paths_apart(members: Map<SharedDbId, MemberView>) -> bool {
    forall|left: SharedDbId, right: SharedDbId|
        #![trigger members.contains_key(left), members.contains_key(right)]
        members.contains_key(left) && members.contains_key(right) && !members[left].retired
            && !members[right].retired && members[left].root == members[right].root ==> left
            == right
}

/// A path names at most one live database: registering keeps paths apart.
pub proof fn registering_keeps_paths_apart(
    wal: WalView,
    after: WalView,
    root: Seq<u8>,
    id: SharedDbId,
    bound: bool,
    cataloged: bool,
    imported: bool,
    embedded: bool,
    registration: Registration,
)
    requires
        paths_apart(wal.members),
        register_refusal(wal, root, id, bound, cataloged, imported, embedded) is None,
        register_done(wal, after, root, id, bound, embedded, registration),
    ensures
        paths_apart(after.members),
{
    if !wal.members.contains_key(id) {
        live_joins(wal.members, id, fresh_member(root, false, false, 0, None));
    }
}

/// Reading registrations back keeps paths apart too, of live and of retired databases.
pub proof fn loading_keeps_paths_apart(
    registry: RegistryView,
    id: SharedDbId,
    root: Seq<u8>,
    facts: LiveFactsView,
    seq: u64,
)
    requires
        paths_apart(registry.members),
    ensures
        live_outcome(registry, id, root, facts) matches Ok(live) ==> paths_apart(
            registry.members.insert(id, live.0),
        ),
        paths_apart(registry.members.insert(id, fresh_member(root, false, true, seq, None))),
{
    if live_outcome(registry, id, root, facts) is Ok {
        live_joins(registry.members, id, live_outcome(registry, id, root, facts)->Ok_0.0);
    }
    let after = registry.members.insert(id, fresh_member(root, false, true, seq, None));
    assert forall|left: SharedDbId, right: SharedDbId|
        #![trigger after.contains_key(left), after.contains_key(right)]
        after.contains_key(left) && after.contains_key(right) && !after[left].retired
            && !after[right].retired && after[left].root == after[right].root implies left
        == right by {
        assert(registry.members.contains_key(left) && registry.members.contains_key(right));
    }
}

proof fn live_joins(members: Map<SharedDbId, MemberView>, id: SharedDbId, member: MemberView)
    requires
        paths_apart(members),
        !root_taken(members, member.root),
    ensures
        paths_apart(members.insert(id, member)),
{
    let after = members.insert(id, member);
    assert forall|left: SharedDbId, right: SharedDbId|
        #![trigger after.contains_key(left), after.contains_key(right)]
        after.contains_key(left) && after.contains_key(right) && !after[left].retired
            && !after[right].retired && after[left].root == after[right].root implies left
        == right by {
        if left != id && right != id {
            assert(members.contains_key(left) && members.contains_key(right));
        } else if left != id {
            assert(members.contains_key(left));
        } else if right != id {
            assert(members.contains_key(right));
        }
    }
}

} // verus!
