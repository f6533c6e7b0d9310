//! Recorded executions without a declared migration.

use crate::migration::{
    ExecutedMigrationInfo, ExecutedMigrationInfoView, MigrationInfo, MigrationInfoView, info_views,
};
use crate::sync::MigrationError;
use crate::version::{lemma_precedes_asymmetric, lemma_precedes_transitive, precedes};
use vstd::prelude::*;
use vstd::seq_lib::{to_multiset_build, to_multiset_insert};

verus! {

/// For each version of a joined history, what is declared and what is
/// recorded for it.
pub type MigrationState = Vec<(Option<MigrationInfo>, Option<ExecutedMigrationInfo>)>;

/// What is declared and what is recorded for one version.
pub type JoinedView = (Option<MigrationInfoView>, Option<ExecutedMigrationInfoView>);

/// What a joined pair holds.
pub open spec fn pair_view(
    pair: (Option<MigrationInfo>, Option<ExecutedMigrationInfo>),
) -> JoinedView {
    (
        match pair.0 {
            Some(m) => Some(m@),
            None => None,
        },
        match pair.1 {
            Some(e) => Some(e@),
            None => None,
        },
    )
}

/// What a sequence of joined pairs holds.
pub open spec fn state_views(
    state: Seq<(Option<MigrationInfo>, Option<ExecutedMigrationInfo>)>,
) -> Seq<JoinedView> {
    state.map_values(|pair: (Option<MigrationInfo>, Option<ExecutedMigrationInfo>)| pair_view(pair))
}

/// The pair stands for an unexpected migration: an execution is recorded
/// and no migration is declared.
pub open spec fn is_unexpected(pair: JoinedView) -> bool {
    pair.0 is None && pair.1 is Some
}

/// The identities of the unexpected migrations among the pairs, in the
/// order of the pairs.
pub open spec fn unexpected_in(state: Seq<JoinedView>) -> Seq<MigrationInfoView>
    decreases state.len(),
{
    if state.len() == 0 {
        Seq::empty()
    } else if is_unexpected(state.last()) {
        unexpected_in(state.drop_last()).push(state.last().1.unwrap().migration)
    } else {
        unexpected_in(state.drop_last())
    }
}

/// No identity comes before an earlier one in the order of versions.
pub open spec fn ascending(infos: Seq<MigrationInfoView>) -> bool {
    forall|i: int, j: int|
        0 <= i < j < infos.len() ==> !precedes(
            (#[trigger] infos[j]).version,
            (#[trigger] infos[i]).version,
        )
}

/// Every identity comes before each later one in the order of versions.
pub open spec fn strictly_ascending(infos: Seq<MigrationInfoView>) -> bool {
    forall|i: int, j: int|
        0 <= i < j < infos.len() ==> precedes(
            (#[trigger] infos[i]).version,
            (#[trigger] infos[j]).version,
        )
}

/// Puts `info` into an ascending list, behind the identities that do not
/// come after it.
fn insert_ascending(list: &mut Vec<MigrationInfo>, info: MigrationInfo)
    requires
        ascending(info_views(old(list)@)),
    ensures
        ascending(info_views(final(list)@)),
        info_views(final(list)@).to_multiset() == info_views(old(list)@).to_multiset().insert(
            info@,
        ),
{
    let ghost before = info_views(list@);
    let mut at: usize = 0;
    while at < list.len() && !info.version.is_before(&list[at].version)
        invariant
            at <= list@.len(),
            before == info_views(list@),
            forall|j: int| 0 <= j < at ==> !precedes(info@.version, (#[trigger] before[j]).version),
        decreases list@.len() - at,
    {
        at = at + 1;
    }
    list.insert(at, info);
    proof {
        let after = info_views(list@);
        assert(after =~= before.insert(at as int, info@));
        to_multiset_insert(before, at as int, info@);
        assert forall|i: int, j: int| 0 <= i < j < after.len() implies !precedes(
            (#[trigger] after[j]).version,
            (#[trigger] after[i]).version,
        ) by {
            if j == at {
                assert(after[i] == before[i]);
            } else if i == at {
                assert(after[j] == before[j - 1]);
                assert(precedes(info@.version, before[at as int].version));
                if j - 1 > at {
                    assert(!precedes(before[j - 1].version, before[at as int].version));
                }
                if precedes(before[j - 1].version, info@.version) {
                    lemma_precedes_transitive(
                        before[j - 1].version,
                        info@.version,
                        before[at as int].version,
                    );
                    lemma_precedes_asymmetric(before[at as int].version, info@.version);
                }
            } else {
                let i0 = if i < at {
                    i
                } else {
                    i - 1
                };
                let j0 = if j < at {
                    j
                } else {
                    j - 1
                };
                assert(after[i] == before[i0]);
                assert(after[j] == before[j0]);
            }
        }
    }
}

/// Looks for recorded executions without a declared migration. If there
/// are any, the error lists them all, in ascending order of version.
pub fn check_unexpected_migrations<E>(migration_state: &MigrationState) -> (r: Result<
    (),
    MigrationError<E>,
>)
    ensures
        match r {
            Ok(()) => unexpected_in(state_views(migration_state@)).len() == 0,
            Err(MigrationError::UnexpectedMigrations(list)) => {
                &&& list@.len() > 0
                &&& ascending(info_views(list@))
                &&& info_views(list@).to_multiset() == unexpected_in(
                    state_views(migration_state@),
                ).to_multiset()
            },
            Err(MigrationError::DatabaseError(_)) => false,
        },
{
    let ghost state = state_views(migration_state@);
    let mut unexpected_migrations: Vec<MigrationInfo> = Vec::new();
    let mut i: usize = 0;
    proof {
        assert(state.take(0) =~= Seq::empty());
        assert(info_views(unexpected_migrations@) =~= Seq::empty());
    }
    while i < migration_state.len()
        invariant
            i <= migration_state@.len(),
            state == state_views(migration_state@),
            ascending(info_views(unexpected_migrations@)),
            info_views(unexpected_migrations@).to_multiset() == unexpected_in(
                state.take(i as int),
            ).to_multiset(),
        decreases migration_state@.len() - i,
    {
        proof {
            assert(state.take(i + 1).drop_last() =~= state.take(i as int));
            assert(state.take(i + 1).last() == pair_view(migration_state@[i as int]));
        }
        if migration_state[i].0.is_none() {
            match &migration_state[i].1 {
                Some(executed) => {
                    proof {
                        to_multiset_build(unexpected_in(state.take(i as int)), executed@.migration);
                    }
                    insert_ascending(&mut unexpected_migrations, executed.migration.clone());
                },
                None => {},
            }
        }
        i = i + 1;
    }
    proof {
        assert(state.take(i as int) =~= state);
        info_views(unexpected_migrations@).to_multiset_ensures();
        unexpected_in(state).to_multiset_ensures();
    }
    if unexpected_migrations.len() > 0 {
        Err(MigrationError::UnexpectedMigrations(unexpected_migrations))
    } else {
        Ok(())
    }
}

} // verus!
