use std::cell::Cell;
use std::collections::BTreeMap;

use litesdb::manifest::UnitMeta;
use litesdb::query::plan::range;
use litesdb::tail::Stream;
use litesdb::unit::{DecodedSection, TableDirectoryEntry, UnitSource};
use litesdb::{ErrorKind, Result, TableId, TableVersion};

fn unit(id: u64, min_ts: i64, max_ts: i64) -> UnitMeta {
    UnitMeta::new(id, 0, min_ts, max_ts, 1, 1, 1, 0)
        .unwrap_or_else(|_| unreachable!("valid unit metadata rejected"))
}

fn section(table: u32, min_ts: i64, max_ts: i64) -> TableDirectoryEntry {
    TableDirectoryEntry::new(TableId::new(table), 1, min_ts, max_ts, 1, 100, 1)
        .unwrap_or_else(|_| unreachable!("valid section rejected"))
}

struct Directories {
    entries: BTreeMap<u64, Vec<TableDirectoryEntry>>,
    calls: Cell<u32>,
}

impl UnitSource for Directories {
    fn table_sections(&self, unit: UnitMeta, table: TableId) -> Result<Vec<TableDirectoryEntry>> {
        self.calls.set(self.calls.get().saturating_add(1));
        Ok(self
            .entries
            .get(&unit.unit_id())
            .map(|entries| {
                entries
                    .iter()
                    .copied()
                    .filter(|entry| entry.table() == table)
                    .collect()
            })
            .unwrap_or_default())
    }

    fn decode_section(
        &self,
        _unit: UnitMeta,
        _section: TableDirectoryEntry,
        _version: &TableVersion,
    ) -> Result<DecodedSection> {
        unreachable!("planning decoded a section")
    }

    fn decode_streams(
        &self,
        _unit: UnitMeta,
        _section: TableDirectoryEntry,
        _version: &TableVersion,
        _streams: &[Stream],
    ) -> Result<DecodedSection> {
        unreachable!("planning decoded a section")
    }
}

fn loader(entries: &BTreeMap<u64, Vec<TableDirectoryEntry>>) -> Directories {
    Directories {
        entries: entries.clone(),
        calls: Cell::new(0),
    }
}

#[test]
fn range_path_filters_units_then_table_sections() {
    let units = [unit(9, 0, 19), unit(2, 20, 39), unit(5, 40, 59)];
    let directories = BTreeMap::from([
        (9, vec![section(1, 0, 9), section(1, 10, 19)]),
        (2, vec![section(1, 20, 39), section(2, 20, 39)]),
        (5, vec![section(1, 40, 59)]),
    ]);
    let planned = range(&units, TableId::new(1), 15, 45, &loader(&directories))
        .unwrap_or_else(|_| unreachable!("valid range plan failed"));
    assert_eq!(
        planned
            .iter()
            .map(|entry| (entry.unit().unit_id(), entry.section().min_ts()))
            .collect::<Vec<_>>(),
        [(9, 10), (2, 20), (5, 40)]
    );
}

#[test]
fn range_arguments_are_checked_before_loading() {
    let units = [unit(1, 0, 9)];
    let source = loader(&BTreeMap::new());
    let empty =
        range(&units, TableId::new(1), 5, 5, &source).unwrap_or_else(|_| unreachable!());
    assert!(empty.is_empty());
    assert_eq!(source.calls.get(), 0);
    assert_eq!(
        range(&units, TableId::new(1), 6, 5, &source)
            .err()
            .map(|error| error.kind()),
        Some(ErrorKind::InvalidArgument)
    );
}

#[test]
fn contradictory_routing_metadata_is_rejected() {
    let unordered = [unit(2, 20, 29), unit(1, 0, 9)];
    let duplicate = [unit(1, 0, 9), unit(1, 20, 29)];
    for units in [&unordered[..], &duplicate] {
        assert_eq!(
            range(units, TableId::new(1), 0, 30, &loader(&BTreeMap::new()))
                .err()
                .map(|error| error.kind()),
            Some(ErrorKind::Corruption)
        );
    }

    let units = [unit(1, 0, 20), unit(2, 15, 30)];
    let directories = BTreeMap::from([(1, vec![section(1, 0, 20)]), (2, vec![section(1, 15, 30)])]);
    assert_eq!(
        range(&units, TableId::new(1), 0, 31, &loader(&directories))
            .err()
            .map(|error| error.kind()),
        Some(ErrorKind::Corruption)
    );

    let wrong_range = BTreeMap::from([(1, vec![section(1, -1, 9)])]);
    assert_eq!(
        range(
            &[unit(1, 0, 9)],
            TableId::new(1),
            0,
            10,
            &loader(&wrong_range),
        )
        .err()
        .map(|error| error.kind()),
        Some(ErrorKind::Corruption)
    );
}
