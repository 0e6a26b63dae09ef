//! Which version histories a table may have.
use vstd::prelude::*;

use crate::error::{self, Error, Result};
use crate::limits::MAX_LOGICAL_STREAMS;
use crate::types::{self, FieldSchema, TableVersion, VersionView};

verus! {

pub open spec fn table_corruption(reason: &'static str) -> Error {
    error::corruption("MANIFEST table", reason)
}

/// Why the first `count` fields of a version do not carry over into the next one.
pub open spec fn field_refusal(
    previous: Seq<FieldSchema>,
    current: Seq<FieldSchema>,
    count: int,
) -> Option<Error>
    decreases count,
{
    if count <= 0 {
        None
    } else {
        let earlier = field_refusal(previous, current, count - 1);
        let field = previous[count - 1];
        if earlier is Some {
            earlier
        } else if !types::has_field(current, field.field) {
            Some(table_corruption("version removed a field"))
        } else if types::field_type(current, field.field) != field.value_type {
            Some(table_corruption("version changed a field type"))
        } else {
            None
        }
    }
}

/// Whether every field of a version is in the next one with its type.
pub open spec fn fields_kept(previous: Seq<FieldSchema>, current: Seq<FieldSchema>) -> bool {
    forall|i: int|
        0 <= i < previous.len() ==> types::has_field(current, (#[trigger] previous[i]).field)
            && types::field_type(current, previous[i].field) == previous[i].value_type
}

proof fn fields_kept_is_no_refusal(
    previous: Seq<FieldSchema>,
    current: Seq<FieldSchema>,
    count: int,
)
    requires
        0 <= count <= previous.len(),
    ensures
        field_refusal(previous, current, count) is None <==> forall|i: int|
            0 <= i < count ==> types::has_field(current, (#[trigger] previous[i]).field)
                && types::field_type(current, previous[i].field) == previous[i].value_type,
    decreases count,
{
    if count > 0 {
        fields_kept_is_no_refusal(previous, current, count - 1);
        let field = previous[count - 1];
    }
}

proof fn field_refusal_is_final(previous: Seq<FieldSchema>, current: Seq<FieldSchema>, count: int)
    requires
        0 <= count <= previous.len(),
    ensures
        field_refusal(previous, current, count) is Some ==> field_refusal(
            previous,
            current,
            previous.len() as int,
        ) == field_refusal(previous, current, count),
    decreases previous.len() - count,
{
    if count < previous.len() {
        field_refusal_is_final(previous, current, count + 1);
    }
}

pub fn validate_field_compatibility(previous: &TableVersion, current: &TableVersion) -> (r: Result<
    (),
>)
    requires
        current.wf(),
    ensures
        r == (match field_refusal(
            previous.fields@,
            current.fields@,
            previous.fields@.len() as int,
        ) {
            Some(e) => Err::<(), Error>(e),
            None => Ok(()),
        }),
{
    let mut index: usize = 0;
    while index < previous.fields.len()
        invariant
            index <= previous.fields@.len(),
            current.wf(),
            field_refusal(previous.fields@, current.fields@, index as int) is None,
        decreases previous.fields@.len() - index,
    {
        let field = previous.fields[index];
        proof {
            field_refusal_is_final(previous.fields@, current.fields@, index + 1);
        }
        match types::find_field(current.fields.as_slice(), field.field) {
            None => return Err(Error::corruption("MANIFEST table", "version removed a field")),
            Some(at) => {
                if current.fields[at].value_type != field.value_type {
                    return Err(
                        Error::corruption("MANIFEST table", "version changed a field type"),
                    );
                }
            },
        }
        index += 1;
    }
    Ok(())
}

/// The latest activation among the first `count` versions, or why they are refused.
pub open spec fn versions_scanned(versions: Seq<VersionView>, count: int) -> Result<Option<i64>>
    decreases count,
{
    if count <= 0 {
        Ok(None)
    } else {
        match versions_scanned(versions, count - 1) {
            Err(e) => Err(e),
            Ok(previous) => {
                let version = versions[count - 1];
                let refusal = if count > 1 {
                    let before = versions[count - 2].fields;
                    field_refusal(before, version.fields, before.len() as int)
                } else {
                    None
                };
                if version.version_no != count {
                    Err(table_corruption("version numbers are not continuous"))
                } else if refusal is Some {
                    Err(refusal->Some_0)
                } else {
                    match version.effective_from {
                        Some(effective) => if previous matches Some(prior) && effective <= prior {
                            Err(table_corruption("version activation times are not increasing"))
                        } else {
                            Ok(Some(effective))
                        },
                        None => if count != versions.len() {
                            Err(table_corruption("only the latest version may be inactive"))
                        } else {
                            Ok(previous)
                        },
                    }
                }
            },
        }
    }
}

/// Why a table's history contradicts itself or the table's clock.
pub open spec fn versions_refusal(last_ts: Option<i64>, versions: Seq<VersionView>) -> Option<
    Error,
> {
    if versions.len() == 0 || versions.len() > MAX_LOGICAL_STREAMS {
        Some(table_corruption("version count is invalid"))
    } else {
        match versions_scanned(versions, versions.len() as int) {
            Err(e) => Some(e),
            Ok(latest) => if latest is Some != last_ts is Some || (latest matches Some(effective)
                && last_ts matches Some(last) && last < effective) {
                Some(table_corruption("table clock contradicts version activation"))
            } else {
                None
            },
        }
    }
}

proof fn versions_refusal_is_final(versions: Seq<VersionView>, count: int)
    requires
        0 <= count <= versions.len(),
    ensures
        versions_scanned(versions, count) is Err ==> versions_scanned(
            versions,
            versions.len() as int,
        ) == versions_scanned(versions, count),
    decreases versions.len() - count,
{
    if count < versions.len() {
        versions_refusal_is_final(versions, count + 1);
    }
}

pub fn validate_versions(last_ts: Option<i64>, versions: &[TableVersion]) -> (r: Result<()>)
    requires
        forall|i: int| 0 <= i < versions@.len() ==> (#[trigger] versions@[i]).wf(),
    ensures
        r == (match versions_refusal(last_ts, types::version_views(versions@)) {
            Some(e) => Err::<(), Error>(e),
            None => Ok(()),
        }),
{
    if versions.len() == 0 || versions.len() > MAX_LOGICAL_STREAMS as usize {
        return Err(Error::corruption("MANIFEST table", "version count is invalid"));
    }
    let ghost views = types::version_views(versions@);
    let mut previous_effective: Option<i64> = None;
    let mut index: usize = 0;
    while index < versions.len()
        invariant
            index <= versions@.len(),
            0 < versions@.len() <= MAX_LOGICAL_STREAMS,
            views == types::version_views(versions@),
            views.len() == versions@.len(),
            forall|i: int| 0 <= i < versions@.len() ==> (#[trigger] versions@[i]).wf(),
            versions_scanned(views, index as int) == Ok::<Option<i64>, Error>(previous_effective),
        decreases versions@.len() - index,
    {
        let version = &versions[index];
        proof {
            versions_refusal_is_final(views, index + 1);
            assert(views[index as int] == version@);
        }
        if version.version_no != index as u32 + 1 {
            return Err(
                Error::corruption("MANIFEST table", "version numbers are not continuous"),
            );
        }
        if index > 0 {
            let previous = &versions[index - 1];
            assert(views[index - 1] == previous@);
            match validate_field_compatibility(previous, version) {
                Ok(_) => {},
                Err(e) => return Err(e),
            }
        }
        match version.effective_from {
            Some(effective) => {
                match previous_effective {
                    Some(prior) => {
                        if effective <= prior {
                            return Err(
                                Error::corruption(
                                    "MANIFEST table",
                                    "version activation times are not increasing",
                                ),
                            );
                        }
                    },
                    None => {},
                }
                previous_effective = Some(effective);
            },
            None => {
                if index + 1 != versions.len() {
                    return Err(
                        Error::corruption(
                            "MANIFEST table",
                            "only the latest version may be inactive",
                        ),
                    );
                }
            },
        }
        index += 1;
    }
    let contradicts: bool = match (previous_effective, last_ts) {
        (Some(effective), Some(last)) => last < effective,
        (None, None) => false,
        _ => true,
    };
    if contradicts {
        return Err(
            Error::corruption("MANIFEST table", "table clock contradicts version activation"),
        );
    }
    Ok(())
}

/// A history that a table may have: versions are numbered from one, keep the fields of their
/// predecessors, and are activated one after the other, with at most the latest still inactive; and
/// the table's clock runs once a version was activated, and not behind it.
pub open spec fn history_valid(last_ts: Option<i64>, versions: Seq<VersionView>) -> bool {
    &&& 0 < versions.len() <= MAX_LOGICAL_STREAMS
    &&& forall|i: int| 0 <= i < versions.len() ==> (#[trigger] versions[i]).version_no == i + 1
    &&& forall|i: int, j: int|
        0 <= i && j == i + 1 && j < versions.len() ==> fields_kept(
            (#[trigger] versions[i]).fields,
            (#[trigger] versions[j]).fields,
        )
    &&& forall|i: int|
        0 <= i < versions.len() - 1 ==> (#[trigger] versions[i]).effective_from is Some
    &&& forall|i: int, j: int|
        0 <= i < j < versions.len() && (#[trigger] versions[j]).effective_from is Some ==> (
        #[trigger] versions[i]).effective_from->Some_0 < versions[j].effective_from->Some_0
    &&& match last_ts {
        None => versions.len() == 1 && versions[0].effective_from is None,
        Some(last) => {
            let latest = versions.last();
            if latest.effective_from is Some {
                latest.effective_from->Some_0 <= last
            } else {
                versions.len() > 1 && versions[versions.len() - 2].effective_from->Some_0 <= last
            }
        },
    }
}

proof fn scanned_prefix(versions: Seq<VersionView>, count: int)
    requires
        0 <= count <= versions.len(),
    ensures
        versions_scanned(versions, count) is Ok <==> {
            &&& forall|i: int| 0 <= i < count ==> (#[trigger] versions[i]).version_no == i + 1
            &&& forall|i: int, j: int|
                0 <= i && j == i + 1 && j < count ==> fields_kept(
                    (#[trigger] versions[i]).fields,
                    (#[trigger] versions[j]).fields,
                )
            &&& forall|i: int|
                0 <= i < count && i < versions.len() - 1 ==> (
                #[trigger] versions[i]).effective_from is Some
            &&& forall|i: int, j: int|
                0 <= i < j < count && (#[trigger] versions[j]).effective_from is Some ==> (
                #[trigger] versions[i]).effective_from->Some_0
                    < versions[j].effective_from->Some_0
        },
        versions_scanned(versions, count) is Ok ==> versions_scanned(versions, count)->Ok_0 == (
        if count == 0 {
            None
        } else if versions[count - 1].effective_from is Some {
            versions[count - 1].effective_from
        } else if count == 1 {
            None
        } else {
            versions[count - 2].effective_from
        }),
    decreases count,
{
    if count > 0 {
        scanned_prefix(versions, count - 1);
        let version = versions[count - 1];
        if count > 1 {
            let before = versions[count - 2];
            fields_kept_is_no_refusal(
                before.fields,
                version.fields,
                before.fields.len() as int,
            );
        }
        if versions_scanned(versions, count) is Ok {
            assert(versions_scanned(versions, count - 1) is Ok);
            assert forall|i: int, j: int|
                0 <= i < j < count && (#[trigger] versions[j]).effective_from is Some implies (
            #[trigger] versions[i]).effective_from->Some_0 < versions[j].effective_from->Some_0 by {
                if j == count - 1 && i < count - 2 {
                    assert(versions[count - 2].effective_from is Some);
                    assert(versions[i].effective_from->Some_0
                        < versions[count - 2].effective_from->Some_0);
                }
            }
        } else {
            if versions_scanned(versions, count - 1) is Ok && version.version_no == count && (count
                == 1 || fields_kept(versions[count - 2].fields, version.fields)) {
                if version.effective_from is Some {
                    assert(count > 1);
                    assert(versions[count - 2].effective_from is Some);
                }
            } else if versions_scanned(versions, count - 1) is Ok && version.version_no == count {
                assert(!fields_kept(versions[count - 2].fields, versions[count - 1].fields));
            } else if versions_scanned(versions, count - 1) is Ok {
                assert(versions[count - 1].version_no != count);
            }
        }
    }
}

/// Validation accepts exactly the valid histories.
pub proof fn validation_is_exact(last_ts: Option<i64>, versions: Seq<VersionView>)
    ensures
        versions_refusal(last_ts, versions) is None <==> history_valid(last_ts, versions),
{
    scanned_prefix(versions, versions.len() as int);
}

/// A version may follow another one exactly if it has every field of it, with the same type; it may
/// have more.
pub proof fn versions_only_add_fields(previous: Seq<FieldSchema>, current: Seq<FieldSchema>)
    requires
        types::fields_ordered(current),
    ensures
        field_refusal(previous, current, previous.len() as int) is None <==> forall|i: int|
            0 <= i < previous.len() ==> current.contains(#[trigger] previous[i]),
{
    fields_kept_is_no_refusal(previous, current, previous.len() as int);
    assert forall|i: int| 0 <= i < previous.len() implies (current.contains(#[trigger] previous[i])
        <==> types::has_field(current, previous[i].field) && types::field_type(
        current,
        previous[i].field,
    ) == previous[i].value_type) by {
        let wanted = previous[i];
        if current.contains(wanted) {
            let k = choose|k: int| 0 <= k < current.len() && current[k] == wanted;
            types::field_type_at(current, k);
        }
        if types::has_field(current, wanted.field) {
            let k = choose|k: int|
                0 <= k < current.len() && (#[trigger] current[k]).field == wanted.field;
            types::field_type_at(current, k);
            if types::field_type(current, wanted.field) == wanted.value_type {
                assert(current[k] == wanted);
            }
        }
    }
    if forall|i: int| 0 <= i < previous.len() ==> current.contains(#[trigger] previous[i]) {
        assert forall|i: int| 0 <= i < previous.len() implies types::has_field(
            current,
            (#[trigger] previous[i]).field,
        ) && types::field_type(current, previous[i].field) == previous[i].value_type by {
            assert(current.contains(previous[i]));
        }
    }
}

} // verus!
