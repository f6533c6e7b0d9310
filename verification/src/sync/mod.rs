//! The reconciliation engine and the seam to the storage backend.

pub mod action;
pub mod history;
pub mod join;
pub mod registry;
pub mod unexpected;

pub use history::reconcile;
pub use join::merge;
pub use registry::MigrationsBuilder;
pub use unexpected::check_unexpected_migrations;

use crate::migration::{ExecutedMigrationInfo, MigrationInfo, executed_views, info_views};
use crate::sync::history::reconciled;
use vstd::prelude::*;
use vstd::std_specs::convert::FromSpecImpl;

verus! {

/// A storage backend that keeps the record of executed migrations.
pub trait Connection {
    type Err;

    type Trans: Transaction<Err = Self::Err>;

    /// Makes sure that the bookkeeping store exists. Safe to call when it
    /// already does.
    fn ensure_migration_table(&self) -> Result<(), Self::Err>;

    /// Loads every recorded execution.
    fn load_existing_migrations(&self) -> Result<Vec<ExecutedMigrationInfo>, Self::Err>;

    /// Runs `f` in a transaction. Where `f` fails, the flag beside the
    /// error says whether work of the transaction was committed all the
    /// same.
    fn in_transaction<F>(&self, f: F) -> Result<(), (bool, Self::Err)> where
        F: FnOnce(&Self::Trans) -> Result<(), Self::Err>,

        requires
            forall|t: &Self::Trans| call_requires(f, (t,)),
    ;
}

/// An open transaction of a storage backend.
pub trait Transaction {
    type Err;

    /// Records an execution, so that later loads on the same connection
    /// include it.
    fn save_migration(&self, info: &ExecutedMigrationInfo) -> Result<(), Self::Err>;
}

/// A set of declared migrations.
pub trait Migrations {
    type C: Connection;

    /// The identities of the declared migrations, in no particular order.
    fn all_migrations(&self) -> Vec<MigrationInfo>;
}

/// Why a migration run failed.
#[derive(Debug, PartialEq, Eq)]
pub enum MigrationError<E> {
    /// The backend records executions of migrations that were never
    /// declared; they are listed in ascending order of version.
    UnexpectedMigrations(Vec<MigrationInfo>),
    /// The backend failed.
    DatabaseError(E),
}

impl<E> From<E> for MigrationError<E> {
    fn from(e: E) -> (r: Self) {
        MigrationError::DatabaseError(e)
    }
}

impl<E> FromSpecImpl<E> for MigrationError<E> {
    open spec fn obeys_from_spec() -> bool {
        true
    }

    open spec fn from_spec(e: E) -> Self {
        MigrationError::DatabaseError(e)
    }
}

/// Checks the recorded history of a database against the declared
/// migrations. Makes sure that the bookkeeping store exists, asks
/// `migrations` for what is declared, loads the recorded executions, and
/// compares the two as `reconcile` does. An error of the backend ends the run
/// at once and is handed on as it came.
///
/// The contract speaks of what the backend answered: a database error is the
/// one that preparing the store returned, or the one that loading returned
/// after the store was prepared; any other outcome is the one that the
/// answers of `all_migrations` and of the load call for.
pub fn migrate<C, T, E, M>(conn: &C, migrations: &M) -> (r: Result<(), MigrationError<E>>) where
    T: Transaction<Err = E>,
    C: Connection<Trans = T, Err = E>,
    M: Migrations<C = C>,

    ensures
        match r {
            Err(MigrationError::DatabaseError(e)) => {
                ||| call_ensures(C::ensure_migration_table, (conn,), Err::<(), E>(e))
                ||| call_ensures(C::ensure_migration_table, (conn,), Ok::<(), E>(()))
                    && call_ensures(
                    C::load_existing_migrations,
                    (conn,),
                    Err::<Vec<ExecutedMigrationInfo>, E>(e),
                )
            },
            _ => exists|available: Vec<MigrationInfo>, existing: Vec<ExecutedMigrationInfo>|
                {
                    &&& call_ensures(C::ensure_migration_table, (conn,), Ok::<(), E>(()))
                    &&& #[trigger] call_ensures(M::all_migrations, (migrations,), available)
                    &&& #[trigger] call_ensures(
                        C::load_existing_migrations,
                        (conn,),
                        Ok::<Vec<ExecutedMigrationInfo>, E>(existing),
                    )
                    &&& reconciled(info_views(available@), executed_views(existing@), r)
                },
        },
{
    match conn.ensure_migration_table() {
        Ok(prepared) => {
            assert(prepared == ());
        },
        Err(e) => {
            return Err(MigrationError::from(e));
        },
    }
    let available = migrations.all_migrations();
    let existing = match conn.load_existing_migrations() {
        Ok(existing) => existing,
        Err(e) => {
            return Err(MigrationError::from(e));
        },
    };
    let ghost declared = available;
    let ghost recorded = existing;
    let r = reconcile(available, existing);
    proof {
        assert(call_ensures(M::all_migrations, (migrations,), declared));
        assert(call_ensures(
            C::load_existing_migrations,
            (conn,),
            Ok::<Vec<ExecutedMigrationInfo>, E>(recorded),
        ));
    }
    r
}

} // verus!
