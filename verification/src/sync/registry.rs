//! The registry of declared migrations.

use crate::migration::MigrationInfo;
use crate::sync::action::Action;
use crate::sync::{Connection, Migrations};
use crate::version::{ParseVersionError, Version, parse_version};
use crate::version_map::VersionMap;
use std::str::FromStr;
use vstd::prelude::*;

verus! {

/// Collects the declared migrations, one for each version, each with the
/// action that carries it out. Declaring a version again replaces what was
/// declared for it before.
#[verifier::reject_recursive_types(C)]
#[verifier::reject_recursive_types(E)]
pub struct MigrationsBuilder<C, E> {
    migrations: VersionMap<(MigrationInfo, Action<C, E>)>,
}

impl<C, E> View for MigrationsBuilder<C, E> {
    type V = Map<Seq<u32>, Seq<char>>;

    /// The name of the migration that is declared for each version.
    closed spec fn view(&self) -> Map<Seq<u32>, Seq<char>> {
        Map::new(
            |k: Seq<u32>| self.migrations@.contains_key(k),
            |k: Seq<u32>| self.migrations@[k].0.name@,
        )
    }
}

impl<C, E> MigrationsBuilder<C, E> {
    #[verifier::type_invariant]
    spec fn keyed_by_version(&self) -> bool {
        forall|k: Seq<u32>|
            self.migrations@.contains_key(k) ==> (#[trigger] self.migrations@[k]).0.version@ == k
    }

    /// The action that is declared for `version` may be given `target`.
    pub closed spec fn accepts(&self, version: Seq<u32>, target: C) -> bool {
        self.migrations@.contains_key(version) && self.migrations@[version].1.accepts(target)
    }

    /// The action that is declared for `version` may have the result `r` on
    /// `target`.
    pub closed spec fn yields(&self, version: Seq<u32>, target: C, r: Result<(), E>) -> bool {
        self.migrations@.contains_key(version) && self.migrations@[version].1.yields(target, r)
    }

    /// A registry without migrations.
    pub fn new() -> (r: MigrationsBuilder<C, E>)
        ensures
            r@ == Map::<Seq<u32>, Seq<char>>::empty(),
    {
        let r = MigrationsBuilder { migrations: VersionMap::new() };
        assert(r@ =~= Map::<Seq<u32>, Seq<char>>::empty());
        r
    }

    /// Declares the migration `name` for the version that `version` writes,
    /// with the action `f`. A text that is no version is refused, and the
    /// registry stays as it is.
    pub fn add_migration<F>(&mut self, version: &str, name: &str, f: F) -> (r: Result<
        (),
        ParseVersionError,
    >) where F: FnOnce(C) -> Result<(), E> + 'static
        ensures
            match r {
                Ok(()) => {
                    &&& parse_version(version@) is Ok
                    &&& final(self)@ == old(self)@.insert(parse_version(version@).unwrap(), name@)
                    &&& forall|target: C|
                        call_requires(f, (target,)) ==> #[trigger] final(self).accepts(
                            parse_version(version@).unwrap(),
                            target,
                        )
                    &&& forall|target: C, outcome: Result<(), E>| #[trigger]
                        final(self).yields(parse_version(version@).unwrap(), target, outcome)
                            ==> call_ensures(f, (target,), outcome)
                    &&& forall|k: Seq<u32>, target: C|
                        k != parse_version(version@).unwrap() ==> #[trigger] final(self).accepts(
                            k,
                            target,
                        ) == old(self).accepts(k, target)
                    &&& forall|k: Seq<u32>, target: C, outcome: Result<(), E>|
                        k != parse_version(version@).unwrap() ==> #[trigger] final(self).yields(
                            k,
                            target,
                            outcome,
                        ) == old(self).yields(k, target, outcome)
                },
                Err(e) => parse_version(version@) == Err::<Seq<u32>, ParseVersionError>(e)
                    && *final(self) == *old(self),
            },
    {
        let version = match Version::from_str(version) {
            Ok(version) => version,
            Err(e) => {
                return Err(e);
            },
        };
        let migration = MigrationInfo { version: version.clone(), name: name.to_owned() };
        proof {
            use_type_invariant(&*self);
        }
        let mut migrations = VersionMap::new();
        std::mem::swap(&mut self.migrations, &mut migrations);
        migrations.insert(version, (migration, Action::new(f)));
        std::mem::swap(&mut self.migrations, &mut migrations);
        assert(self@ =~= old(self)@.insert(version@, name@));
        Ok(())
    }
}

impl<C, E> Migrations for MigrationsBuilder<C, E> where C: Connection<Err = E> {
    type C = C;

    /// The identity of each declared migration, once, in no particular
    /// order.
    fn all_migrations(&self) -> (r: Vec<MigrationInfo>)
        ensures
            forall|i: int|
                0 <= i < r@.len() ==> self@.contains_key((#[trigger] r@[i])@.version)
                    && self@[r@[i]@.version] == r@[i]@.name,
            forall|i: int, j: int| 0 <= i < j < r@.len() ==> r@[i]@.version != r@[j]@.version,
            forall|k: Seq<u32>|
                self@.contains_key(k) ==> exists|i: int|
                    0 <= i < r@.len() && (#[trigger] r@[i])@.version == k,
    {
        proof {
            use_type_invariant(self);
        }
        let keys = self.migrations.keys();
        let mut r: Vec<MigrationInfo> = Vec::new();
        let mut i: usize = 0;
        while i < keys.len()
            invariant
                i <= keys@.len(),
                r@.len() == i,
                forall|j: int|
                    0 <= j < keys@.len() ==> self.migrations@.contains_key(#[trigger] keys@[j]@),
                forall|j: int|
                    0 <= j < i ==> (#[trigger] r@[j])@ == self.migrations@[keys@[j]@].0@,
            decreases keys@.len() - i,
        {
            if let Some(entry) = self.migrations.get(&keys[i]) {
                r.push(entry.0.clone());
            }
            i = i + 1;
        }
        proof {
            assert forall|j: int| 0 <= j < r@.len() implies (#[trigger] r@[j])@.version
                == keys@[j]@ by {
                assert(self.migrations@.contains_key(keys@[j]@));
            }
            assert forall|k: Seq<u32>| self@.contains_key(k) implies exists|i: int|
                0 <= i < r@.len() && (#[trigger] r@[i])@.version == k by {
                let j = choose|j: int| 0 <= j < keys@.len() && #[trigger] keys@[j]@ == k;
                assert(r@[j]@.version == k);
            }
        }
        r
    }
}

/// Declaring a version twice leaves what declaring it the second time
/// alone would leave: the later name stands, the earlier is gone.
pub proof fn lemma_last_declaration_stands(
    declared: Map<Seq<u32>, Seq<char>>,
    version: Seq<u32>,
    earlier: Seq<char>,
    later: Seq<char>,
)
    ensures
        declared.insert(version, earlier).insert(version, later) == declared.insert(version, later),
        declared.insert(version, earlier).insert(version, later)[version] == later,
{
    assert(declared.insert(version, earlier).insert(version, later) =~= declared.insert(
        version,
        later,
    ));
}

} // verus!
