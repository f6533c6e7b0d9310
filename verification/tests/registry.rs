use migrations::sync::{Connection, Migrations, MigrationsBuilder, Transaction};
use migrations::{ExecutedMigrationInfo, MigrationInfo, ParseVersionError, Version};
use std::num::IntErrorKind;

struct NoBackend;

impl Connection for NoBackend {
    type Err = String;
    type Trans = NoBackend;

    fn ensure_migration_table(&self) -> Result<(), String> {
        Ok(())
    }

    fn load_existing_migrations(&self) -> Result<Vec<ExecutedMigrationInfo>, String> {
        Ok(Vec::new())
    }

    fn in_transaction<F>(&self, f: F) -> Result<(), (bool, String)>
    where
        F: FnOnce(&NoBackend) -> Result<(), String>,
    {
        f(self).map_err(|e| (false, e))
    }
}

impl Transaction for NoBackend {
    type Err = String;

    fn save_migration(&self, _info: &ExecutedMigrationInfo) -> Result<(), String> {
        Ok(())
    }
}

fn migration(version: &str, name: &str) -> MigrationInfo {
    MigrationInfo { version: version.parse().unwrap(), name: name.to_owned() }
}

fn sorted(mut infos: Vec<MigrationInfo>) -> Vec<MigrationInfo> {
    infos.sort_by(|a, b| a.version.cmp(&b.version));
    infos
}

#[test]
fn a_new_registry_declares_nothing() {
    let migrations: MigrationsBuilder<NoBackend, String> = MigrationsBuilder::new();
    assert!(migrations.all_migrations().is_empty());
}

#[test]
fn a_registered_migration_is_declared() {
    let mut migrations: MigrationsBuilder<NoBackend, String> = MigrationsBuilder::new();
    migrations.add_migration("1.0.0", "test_migration", |_| Ok(())).unwrap();
    assert_eq!(vec![migration("1.0.0", "test_migration")], migrations.all_migrations());
}

#[test]
fn registering_a_version_again_replaces_the_entry() {
    let mut migrations: MigrationsBuilder<NoBackend, String> = MigrationsBuilder::new();
    migrations.add_migration("1.0.0", "a", |_| Ok(())).unwrap();
    migrations.add_migration("1.0.0", "b", |_| Ok(())).unwrap();
    assert_eq!(vec![migration("1.0.0", "b")], migrations.all_migrations());
}

#[test]
fn another_text_for_the_same_version_replaces_the_entry() {
    let mut migrations: MigrationsBuilder<NoBackend, String> = MigrationsBuilder::new();
    migrations.add_migration("1.0", "a", |_| Ok(())).unwrap();
    migrations.add_migration("2.0", "other", |_| Ok(())).unwrap();
    migrations.add_migration("01.+0", "b", |_| Ok(())).unwrap();
    assert_eq!(
        vec![migration("1.0", "b"), migration("2.0", "other")],
        sorted(migrations.all_migrations())
    );
}

#[test]
fn versions_that_differ_are_kept_apart() {
    let mut migrations: MigrationsBuilder<NoBackend, String> = MigrationsBuilder::new();
    migrations.add_migration("1.0.0", "three", |_| Ok(())).unwrap();
    migrations.add_migration("1.0", "two", |_| Ok(())).unwrap();
    migrations.add_migration("1", "one", |_| Ok(())).unwrap();
    migrations.add_migration("0.9", "same name", |_| Ok(())).unwrap();
    migrations.add_migration("0.10", "same name", |_| Ok(())).unwrap();
    assert_eq!(
        vec![
            migration("0.9", "same name"),
            migration("0.10", "same name"),
            migration("1", "one"),
            migration("1.0", "two"),
            migration("1.0.0", "three"),
        ],
        sorted(migrations.all_migrations())
    );
}

#[test]
fn a_malformed_version_is_refused_and_changes_nothing() {
    let mut migrations: MigrationsBuilder<NoBackend, String> = MigrationsBuilder::new();
    migrations.add_migration("1.0.0", "kept", |_| Ok(())).unwrap();
    match migrations.add_migration("1.x.0", "refused", |_| Ok(())) {
        Err(ParseVersionError::ParseIntError(e)) => {
            assert_eq!(&IntErrorKind::InvalidDigit, e.kind())
        }
        Ok(()) => panic!("a malformed version was accepted"),
    }
    match migrations.add_migration("", "refused", |_| Ok(())) {
        Err(ParseVersionError::ParseIntError(e)) => assert_eq!(&IntErrorKind::Empty, e.kind()),
        Ok(()) => panic!("an empty version was accepted"),
    }
    assert_eq!(vec![migration("1.0.0", "kept")], migrations.all_migrations());
}

#[test]
fn actions_that_capture_their_surroundings_are_accepted() {
    let label = String::from("captured");
    let mut migrations: MigrationsBuilder<NoBackend, String> = MigrationsBuilder::new();
    migrations.add_migration("1", "first", move |_| Err(label)).unwrap();
    migrations
        .add_migration("2", "second", |backend: NoBackend| backend.ensure_migration_table())
        .unwrap();
    assert_eq!(2, migrations.all_migrations().len());
}

#[test]
fn listed_versions_are_those_that_were_parsed() {
    let mut migrations: MigrationsBuilder<NoBackend, String> = MigrationsBuilder::new();
    migrations.add_migration("3.2.1", "x", |_| Ok(())).unwrap();
    let all = migrations.all_migrations();
    assert_eq!("3.2.1".parse::<Version>().unwrap(), all[0].version);
    assert_eq!("x", all[0].name);
}
