//! Which version of a schema a value was written under, and how long it stays live.
use vstd::prelude::*;

use crate::error::{self, Error, Result};
use crate::types::{self, FieldId, TableVersion, Validity, ValueType, VersionView};

verus! {

/// The version that a value was written under and the time for which it was the active one.
#[derive(Clone, Copy, Debug)]
pub struct VersionContract<'a> {
    pub version: &'a TableVersion,
    pub value_type: ValueType,
    pub effective_start: i64,
    pub effective_end: Option<i64>,
}

pub struct ContractView {
    pub version: VersionView,
    pub value_type: ValueType,
    pub effective_start: i64,
    pub effective_end: Option<i64>,
}

impl<'a> View for VersionContract<'a> {
    type V = ContractView;

    open spec fn view(&self) -> ContractView {
        ContractView {
            version: self.version@,
            value_type: self.value_type,
            effective_start: self.effective_start,
            effective_end: self.effective_end,
        }
    }
}

pub open spec fn active_at(version: VersionView, ts: i64) -> bool {
    version.effective_from matches Some(effective) && effective <= ts
}

/// How many leading versions were active at the time.
pub open spec fn active_count(versions: Seq<VersionView>, ts: i64, from: int) -> int
    decreases versions.len() - from,
{
    if from < 0 || from >= versions.len() || !active_at(versions[from], ts) {
        from
    } else {
        active_count(versions, ts, from + 1)
    }
}

/// The contract of a value of the field at the time: the latest version that was active by then.
pub open spec fn resolved(versions: Seq<VersionView>, field: FieldId, fact_ts: i64) -> Result<
    ContractView,
> {
    let count = active_count(versions, fact_ts, 0);
    if count == 0 {
        Err(error::corruption("version contract", "Fact predates every version"))
    } else {
        let version = versions[count - 1];
        if !types::has_field(version.fields, field) {
            Err(error::corruption("version contract", "field is absent from historical version"))
        } else {
            Ok(
                ContractView {
                    version,
                    value_type: types::field_type(version.fields, field),
                    effective_start: version.effective_from->Some_0,
                    effective_end: if count < versions.len() {
                        versions[count].effective_from
                    } else {
                        None
                    },
                },
            )
        }
    }
}

/// Whether a value of the time `fact_ts` still stands at `query_ts`.
pub open spec fn live(validity: Validity, fact_ts: i64, query_ts: i64) -> bool {
    fact_ts <= query_ts && (validity matches Validity::DurationSeconds(seconds) ==> query_ts
        - fact_ts < seconds.value)
}

fn is_active(version: &TableVersion, ts: i64) -> (active: bool)
    ensures
        active == active_at(version@, ts),
{
    match version.effective_from {
        Some(effective) => effective <= ts,
        None => false,
    }
}

impl<'a> VersionContract<'a> {
    pub fn resolve(versions: &'a [TableVersion], field: FieldId, fact_ts: i64) -> (r: Result<Self>)
        requires
            forall|i: int| 0 <= i < versions@.len() ==> (#[trigger] versions@[i]).wf(),
        ensures
            match (r, resolved(types::version_views(versions@), field, fact_ts)) {
                (Ok(contract), Ok(view)) => contract@ == view,
                (Err(e), Err(f)) => e == f,
                _ => false,
            },
    {
        let ghost views = types::version_views(versions@);
        let mut active: usize = 0;
        while active < versions.len() && is_active(&versions[active], fact_ts)
            invariant
                views == types::version_views(versions@),
                active <= versions@.len(),
                active_count(views, fact_ts, 0) == active_count(views, fact_ts, active as int),
                active > 0 ==> versions@[active - 1].effective_from is Some,
            decreases versions@.len() - active,
        {
            assert(views[active as int] == versions@[active as int]@);
            active += 1;
        }
        assert(active_count(views, fact_ts, 0) == active) by {
            if active < versions@.len() {
                assert(views[active as int] == versions@[active as int]@);
            }
        }
        if active == 0 {
            return Err(Error::corruption("version contract", "Fact predates every version"));
        }
        let version = &versions[active - 1];
        assert(views[active - 1] == version@);
        let effective_start: i64 = match version.effective_from {
            Some(effective) => effective,
            None => return Err(
                Error::corruption("version contract", "Fact resolved to an inactive version"),
            ),
        };
        let effective_end: Option<i64> = if active < versions.len() {
            assert(views[active as int] == versions@[active as int]@);
            versions[active].effective_from
        } else {
            None
        };
        match types::find_field(version.fields.as_slice(), field) {
            None => Err(
                Error::corruption("version contract", "field is absent from historical version"),
            ),
            Some(at) => Ok(
                VersionContract {
                    version,
                    value_type: version.fields[at].value_type,
                    effective_start,
                    effective_end,
                },
            ),
        }
    }

    pub fn version(self) -> (version: &'a TableVersion)
        ensures
            version@ == self@.version,
    {
        self.version
    }

    pub fn interpretation(self) -> (value_type: ValueType)
        ensures
            value_type == self@.value_type,
    {
        self.value_type
    }

    pub fn validity(self) -> (validity: Validity)
        ensures
            validity == self@.version.validity,
    {
        self.version.validity
    }

    pub fn effective_range(self) -> (range: (i64, Option<i64>))
        ensures
            range == (self@.effective_start, self@.effective_end),
    {
        (self.effective_start, self.effective_end)
    }

    /// Whether a value of the time `fact_ts` still stands at `query_ts`.
    pub fn is_live(self, fact_ts: i64, query_ts: i64) -> (alive: bool)
        ensures
            alive == live(self@.version.validity, fact_ts, query_ts),
    {
        if query_ts < fact_ts {
            return false;
        }
        match self.version.validity {
            Validity::Forever => true,
            Validity::DurationSeconds(seconds) => {
                let elapsed: i128 = query_ts as i128 - fact_ts as i128;
                elapsed < seconds.value as i128
            },
        }
    }
}

/// In a history whose versions were activated one after the other, a value resolves to the version
/// in whose effective range it falls.
pub proof fn contract_covers_its_fact(versions: Seq<VersionView>, field: FieldId, fact_ts: i64)
    requires
        resolved(versions, field, fact_ts) is Ok,
    ensures
        ({
            let contract = resolved(versions, field, fact_ts)->Ok_0;
            &&& versions.contains(contract.version)
            &&& contract.version.effective_from == Some(contract.effective_start)
            &&& contract.effective_start <= fact_ts
            &&& contract.effective_end matches Some(end) ==> fact_ts < end
            &&& types::has_field(contract.version.fields, field)
        }),
{
    active_count_facts(versions, fact_ts, 0);
    let count = active_count(versions, fact_ts, 0);
    assert(versions[count - 1] == resolved(versions, field, fact_ts)->Ok_0.version);
}

pub(crate) proof fn active_count_facts(versions: Seq<VersionView>, ts: i64, from: int)
    requires
        0 <= from <= versions.len(),
    ensures
        from <= active_count(versions, ts, from) <= versions.len(),
        forall|i: int|
            from <= i < active_count(versions, ts, from) ==> active_at(#[trigger] versions[i], ts),
        active_count(versions, ts, from) < versions.len() ==> !active_at(
            versions[active_count(versions, ts, from)],
            ts,
        ),
    decreases versions.len() - from,
{
    if from < versions.len() && active_at(versions[from], ts) {
        active_count_facts(versions, ts, from + 1);
    }
}

/// Once a value has lapsed it stays lapsed.
pub proof fn lapse_is_final(validity: Validity, fact_ts: i64, earlier: i64, later: i64)
    requires
        fact_ts <= earlier <= later,
        !live(validity, fact_ts, earlier),
    ensures
        !live(validity, fact_ts, later),
{
}

/// A value stands from its time on, for ever or for as many seconds as its validity has: it is live
/// at a time exactly if the time is not before it and lies before the end of these seconds.
pub proof fn values_stand_for_their_validity(
    validity: Validity,
    fact_ts: i64,
    query_ts: i64,
    alive: bool,
)
    requires
        alive == live(validity, fact_ts, query_ts),
    ensures
        validity is Forever ==> (alive <==> fact_ts <= query_ts),
        validity matches Validity::DurationSeconds(seconds) ==> (alive <==> fact_ts <= query_ts
            < fact_ts + seconds.value),
{
}

/// A value has a contract exactly if some version was active at its time and the newest of those
/// that were active one after the other has its field. The contract names that version, the type of
/// the field there, and the times from which the version and the one after it were active.
pub proof fn values_resolve_to_the_newest_active_version(
    versions: Seq<VersionView>,
    field: FieldId,
    fact_ts: i64,
    at: int,
    f: int,
    r: Result<ContractView>,
)
    requires
        r == resolved(versions, field, fact_ts),
        forall|i: int| 0 <= i < versions.len() ==> (#[trigger] versions[i]).wf(),
        0 <= at < versions.len(),
        forall|i: int|
            0 <= i <= at ==> ((#[trigger] versions[i]).effective_from matches Some(from) && from
                <= fact_ts),
        at + 1 < versions.len() ==> !(versions[at + 1].effective_from matches Some(from) && from
            <= fact_ts),
    ensures
        0 <= f < versions[at].fields.len() && versions[at].fields[f].field == field ==> (r matches
            Ok(contract) && contract.version == versions[at] && contract.value_type
            == versions[at].fields[f].value_type && Some(contract.effective_start)
            == versions[at].effective_from && contract.effective_end == (if at + 1
            < versions.len() {
            versions[at + 1].effective_from
        } else {
            None
        })),
        (forall|k: int|
            0 <= k < versions[at].fields.len() ==> (#[trigger] versions[at].fields[k]).field
                != field) ==> r is Err,
{
    active_count_facts(versions, fact_ts, 0);
    let count = active_count(versions, fact_ts, 0);
    if count <= at {
        assert(!active_at(versions[count], fact_ts));
    } else if count > at + 1 {
        assert(active_at(versions[at + 1], fact_ts));
    }
    assert(versions[at].wf());
    if 0 <= f < versions[at].fields.len() && versions[at].fields[f].field == field {
        types::field_type_at(versions[at].fields, f);
    }
}

/// A value from before every version has no contract.
pub proof fn early_values_have_no_contract(
    versions: Seq<VersionView>,
    field: FieldId,
    fact_ts: i64,
    r: Result<ContractView>,
)
    requires
        r == resolved(versions, field, fact_ts),
        versions.len() == 0 || !(versions[0].effective_from matches Some(from) && from <= fact_ts),
    ensures
        r is Err,
{
}

} // verus!
