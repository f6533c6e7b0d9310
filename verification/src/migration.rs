//! The identity of a declared migration and of a recorded execution.

use crate::types;
use crate::version::{ParseVersionError, Version, format_version, parse_version};
use std::str::FromStr;
use vstd::prelude::*;
use vstd::std_specs::cmp::PartialEqSpecImpl;

verus! {

/// The identity of a declared migration.
#[derive(Debug, Eq)]
pub struct MigrationInfo {
    pub version: Version,
    pub name: String,
}

/// What a `MigrationInfo` holds: the components of the version and the
/// characters of the name.
pub struct MigrationInfoView {
    pub version: Seq<u32>,
    pub name: Seq<char>,
}

impl View for MigrationInfo {
    type V = MigrationInfoView;

    open spec fn view(&self) -> MigrationInfoView {
        MigrationInfoView { version: self.version@, name: self.name@ }
    }
}

impl MigrationInfo {
    /// The identity as a storage backend keeps it, with the version as its
    /// canonical text. Reading the record gives the identity back.
    pub fn to_record(&self) -> (r: types::MigrationInfo)
        ensures
            r.version@ == format_version(self@.version),
            r.name@ == self@.name,
            parse_version(r.version@) == Ok::<Seq<u32>, ParseVersionError>(self@.version),
    {
        types::MigrationInfo { version: self.version.to_string(), name: self.name.clone() }
    }

    /// Reads an identity from a record that holds the version as text. A
    /// record whose version text is no version is refused.
    pub fn from_record(record: types::MigrationInfo) -> (r: Result<
        MigrationInfo,
        ParseVersionError,
    >)
        ensures
            match r {
                Ok(m) => parse_version(record.version@) == Ok::<Seq<u32>, ParseVersionError>(
                    m@.version,
                ) && m@.name == record.name@,
                Err(e) => parse_version(record.version@) == Err::<Seq<u32>, ParseVersionError>(e),
            },
    {
        match Version::from_str(record.version.as_str()) {
            Ok(version) => Ok(MigrationInfo { version, name: record.name }),
            Err(e) => Err(e),
        }
    }
}

impl Clone for MigrationInfo {
    fn clone(&self) -> (r: Self)
        ensures
            r@ == self@,
    {
        MigrationInfo { version: self.version.clone(), name: self.name.clone() }
    }
}

impl PartialEq for MigrationInfo {
    fn eq(&self, other: &Self) -> (r: bool) {
        self.version == other.version && self.name == other.name
    }
}

impl PartialEqSpecImpl for MigrationInfo {
    open spec fn obeys_eq_spec() -> bool {
        true
    }

    open spec fn eq_spec(&self, other: &Self) -> bool {
        self@ == other@
    }
}

/// A recorded execution of a migration. The storage backend assigns the
/// sequence number.
#[derive(Debug)]
pub struct ExecutedMigrationInfo {
    pub migration: MigrationInfo,
    pub sequence: u32,
}

/// What an `ExecutedMigrationInfo` holds.
pub struct ExecutedMigrationInfoView {
    pub migration: MigrationInfoView,
    pub sequence: u32,
}

impl View for ExecutedMigrationInfo {
    type V = ExecutedMigrationInfoView;

    open spec fn view(&self) -> ExecutedMigrationInfoView {
        ExecutedMigrationInfoView { migration: self.migration@, sequence: self.sequence }
    }
}

impl ExecutedMigrationInfo {
    /// The execution as a storage backend keeps it, with the version as its
    /// canonical text. Reading the record gives the execution back.
    pub fn to_record(&self) -> (r: types::ExecutedMigrationInfo)
        ensures
            r.sequence == self.sequence,
            r.migration.version@ == format_version(self@.migration.version),
            r.migration.name@ == self@.migration.name,
            parse_version(r.migration.version@) == Ok::<Seq<u32>, ParseVersionError>(
                self@.migration.version,
            ),
    {
        types::ExecutedMigrationInfo {
            migration: self.migration.to_record(),
            sequence: self.sequence,
        }
    }

    /// Reads an execution from a record that holds the version as text. A
    /// record whose version text is no version is refused.
    pub fn from_record(record: types::ExecutedMigrationInfo) -> (r: Result<
        ExecutedMigrationInfo,
        ParseVersionError,
    >)
        ensures
            match r {
                Ok(e) => {
                    &&& parse_version(record.migration.version@) == Ok::<
                        Seq<u32>,
                        ParseVersionError,
                    >(e@.migration.version)
                    &&& e@.migration.name == record.migration.name@
                    &&& e@.sequence == record.sequence
                },
                Err(e) => parse_version(record.migration.version@) == Err::<
                    Seq<u32>,
                    ParseVersionError,
                >(e),
            },
    {
        let sequence = record.sequence;
        match MigrationInfo::from_record(record.migration) {
            Ok(migration) => Ok(ExecutedMigrationInfo { migration, sequence }),
            Err(e) => Err(e),
        }
    }
}

impl Clone for ExecutedMigrationInfo {
    fn clone(&self) -> (r: Self)
        ensures
            r@ == self@,
    {
        ExecutedMigrationInfo { migration: self.migration.clone(), sequence: self.sequence }
    }
}

/// What a sequence of migration identities holds.
pub open spec fn info_views(infos: Seq<MigrationInfo>) -> Seq<MigrationInfoView> {
    infos.map_values(|m: MigrationInfo| m@)
}

/// What a sequence of recorded executions holds.
pub open spec fn executed_views(executed: Seq<ExecutedMigrationInfo>) -> Seq<
    ExecutedMigrationInfoView,
> {
    executed.map_values(|e: ExecutedMigrationInfo| e@)
}

} // verus!
