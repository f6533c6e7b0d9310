use migrations::sync::{migrate, Connection, MigrationError, MigrationsBuilder, Transaction};
use migrations::types;
use migrations::{ExecutedMigrationInfo, MigrationInfo, ParseVersionError};
use rusqlite::types::Type;

struct Sqlite(rusqlite::Connection);

fn unreadable_version(e: ParseVersionError) -> rusqlite::Error {
    match e {
        ParseVersionError::ParseIntError(e) => {
            rusqlite::Error::FromSqlConversionFailure(1, Type::Text, Box::new(e))
        }
    }
}

impl Connection for Sqlite {
    type Err = rusqlite::Error;
    type Trans = Sqlite;

    fn ensure_migration_table(&self) -> Result<(), rusqlite::Error> {
        self.0
            .execute(
                r"
            CREATE TABLE IF NOT EXISTS migration (
                sequence integer not null primary key,
                version text not null unique,
                name text not null,
                applied_at text
            )
        ",
                (),
            )
            .map(|_| ())
    }

    fn load_existing_migrations(&self) -> Result<Vec<ExecutedMigrationInfo>, rusqlite::Error> {
        self.0
            .prepare("SELECT sequence, version, name, applied_at FROM migration")?
            .query_map((), |row| {
                let record = types::ExecutedMigrationInfo {
                    sequence: row.get(0)?,
                    migration: types::MigrationInfo { version: row.get(1)?, name: row.get(2)? },
                };
                ExecutedMigrationInfo::from_record(record).map_err(unreadable_version)
            })?
            .collect()
    }

    fn in_transaction<F>(&self, f: F) -> Result<(), (bool, rusqlite::Error)>
    where
        F: FnOnce(&Sqlite) -> Result<(), rusqlite::Error>,
    {
        f(self).map_err(|e| (false, e))
    }
}

impl Transaction for Sqlite {
    type Err = rusqlite::Error;

    fn save_migration(&self, info: &ExecutedMigrationInfo) -> Result<(), rusqlite::Error> {
        let record = info.to_record();
        self.0
            .execute(
                r"
            insert into migration
            (sequence, version, name)
            values (?1, ?2, ?3)
        ",
                (&record.sequence, &record.migration.version, &record.migration.name),
            )
            .map(|_| ())
    }
}

fn open() -> Sqlite {
    Sqlite(rusqlite::Connection::open_in_memory().unwrap())
}

fn save(connection: &Sqlite, info: ExecutedMigrationInfo) -> Result<(), (bool, rusqlite::Error)> {
    connection.in_transaction(|t| t.save_migration(&info))
}

fn executed_migration(sequence: u32, version: &str, name: &str) -> ExecutedMigrationInfo {
    ExecutedMigrationInfo { sequence, migration: migration(version, name) }
}

fn migration(version: &str, name: &str) -> MigrationInfo {
    MigrationInfo { version: version.parse().unwrap(), name: name.to_owned() }
}

#[test]
fn non_existent_migrations() {
    let connection = open();

    let mut migrations: MigrationsBuilder<Sqlite, rusqlite::Error> = MigrationsBuilder::new();
    migrations.add_migration("1.0.0", "test_migration", |_| Ok(())).unwrap();
    connection.ensure_migration_table().unwrap();
    connection
        .in_transaction(|t| {
            t.save_migration(&executed_migration(1, "0.0.1", "fake1"))?;
            t.save_migration(&executed_migration(2, "0.0.2", "fake2"))?;
            t.save_migration(&executed_migration(3, "0.0.3", "fake3"))?;
            Ok(())
        })
        .unwrap();

    let actual = migrate(&connection, &migrations);
    match actual {
        Err(MigrationError::UnexpectedMigrations(m)) => assert_eq!(
            vec!(
                migration("0.0.1", "fake1"),
                migration("0.0.2", "fake2"),
                migration("0.0.3", "fake3")
            ),
            m
        ),
        o => panic!("Unexpected result {:?}", o),
    }
}

#[test]
fn ensure_migration_table() {
    let connection = open();
    connection.ensure_migration_table().unwrap();
}

#[test]
fn save_migration() {
    let connection = open();
    connection.ensure_migration_table().unwrap();

    let migration = ExecutedMigrationInfo {
        sequence: 1,
        migration: MigrationInfo {
            version: "1.0.0".parse().unwrap(),
            name: "test_migration".to_owned(),
        },
    };
    connection.in_transaction(|t| t.save_migration(&migration)).unwrap();

    connection
        .in_transaction(|t| {
            assert_eq!(
                migration.migration.version,
                t.load_existing_migrations().unwrap().get(0).unwrap().migration.version
            );
            Ok(())
        })
        .unwrap();
}

#[test]
fn ensuring_the_store_twice_changes_nothing() {
    let connection = open();
    connection.ensure_migration_table().unwrap();
    save(&connection, executed_migration(1, "1.0.0", "first")).unwrap();
    connection.ensure_migration_table().unwrap();
    let count = "SELECT count(*) FROM sqlite_master WHERE type = 'table' AND name = 'migration'";
    let tables: u32 = connection.0.query_row(count, (), |row| row.get(0)).unwrap();
    assert_eq!(1, tables);
    let loaded = connection.load_existing_migrations().unwrap();
    assert_eq!(1, loaded.len());
    assert_eq!(migration("1.0.0", "first"), loaded[0].migration);
    assert_eq!(1, loaded[0].sequence);
}

#[test]
fn a_declared_and_recorded_migration_passes_on_sqlite() {
    let connection = open();
    let mut migrations: MigrationsBuilder<Sqlite, rusqlite::Error> = MigrationsBuilder::new();
    migrations.add_migration("1.0.0", "first", |_| Ok(())).unwrap();
    migrations.add_migration("2.0.0", "second", |_| Ok(())).unwrap();
    connection.ensure_migration_table().unwrap();
    save(&connection, executed_migration(1, "1.0.0", "first")).unwrap();
    assert!(migrate(&connection, &migrations).is_ok());
}

#[test]
fn migrate_prepares_the_store_itself() {
    let connection = open();
    let migrations: MigrationsBuilder<Sqlite, rusqlite::Error> = MigrationsBuilder::new();
    assert!(migrate(&connection, &migrations).is_ok());
    assert!(connection.load_existing_migrations().unwrap().is_empty());
}

#[test]
fn stored_version_text_is_canonical() {
    let connection = open();
    connection.ensure_migration_table().unwrap();
    save(&connection, executed_migration(7, "01.+2.003", "padded")).unwrap();
    let text: String =
        connection.0.query_row("SELECT version FROM migration", (), |row| row.get(0)).unwrap();
    assert_eq!("1.2.3", text);
    let loaded = connection.load_existing_migrations().unwrap();
    assert_eq!(migration("1.2.3", "padded"), loaded[0].migration);
    assert_eq!(7, loaded[0].sequence);
}

#[test]
fn a_second_record_of_a_version_is_refused_by_the_store() {
    let connection = open();
    connection.ensure_migration_table().unwrap();
    save(&connection, executed_migration(1, "1.0", "first")).unwrap();
    match save(&connection, executed_migration(2, "1.0", "again")) {
        Err((committed, _)) => assert!(!committed),
        Ok(()) => panic!("a version was recorded twice"),
    }
}

#[test]
fn a_row_with_a_malformed_version_fails_the_load() {
    let connection = open();
    connection.ensure_migration_table().unwrap();
    connection
        .0
        .execute("insert into migration (sequence, version, name) values (1, '1.x', 'bad')", ())
        .unwrap();
    match connection.load_existing_migrations() {
        Err(rusqlite::Error::FromSqlConversionFailure(1, Type::Text, _)) => {}
        other => panic!("Unexpected result {:?}", other),
    }
    let migrations: MigrationsBuilder<Sqlite, rusqlite::Error> = MigrationsBuilder::new();
    match migrate(&connection, &migrations) {
        Err(MigrationError::DatabaseError(_)) => {}
        other => panic!("Unexpected result {:?}", other),
    }
}
