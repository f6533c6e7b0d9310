//! The declared and the recorded migrations, joined by version, and what
//! the join says of a run.

use crate::migration::{
    ExecutedMigrationInfo, ExecutedMigrationInfoView, MigrationInfo, MigrationInfoView,
    executed_views, info_views,
};
use crate::sync::MigrationError;
use crate::sync::join::{merge, outer_join};
use crate::sync::unexpected::{
    JoinedView, MigrationState, ascending, check_unexpected_migrations, is_unexpected, pair_view,
    state_views, strictly_ascending, unexpected_in,
};
use crate::version::{
    lemma_precedes_asymmetric, lemma_precedes_irreflexive, lemma_precedes_total, precedes,
};
use crate::version_map::VersionMap;
use vstd::prelude::*;
use vstd::seq_lib::to_multiset_contains;

verus! {

/// The declared migrations by version. Where a version occurs more than
/// once, the last identity with it stands.
pub open spec fn declared_by_version(infos: Seq<MigrationInfoView>) -> Map<
    Seq<u32>,
    MigrationInfoView,
>
    decreases infos.len(),
{
    if infos.len() == 0 {
        Map::empty()
    } else {
        declared_by_version(infos.drop_last()).insert(infos.last().version, infos.last())
    }
}

/// The recorded executions by version. Where a version occurs more than
/// once, the last execution with it stands.
pub open spec fn recorded_by_version(executed: Seq<ExecutedMigrationInfoView>) -> Map<
    Seq<u32>,
    ExecutedMigrationInfoView,
>
    decreases executed.len(),
{
    if executed.len() == 0 {
        Map::empty()
    } else {
        recorded_by_version(executed.drop_last()).insert(
            executed.last().migration.version,
            executed.last(),
        )
    }
}

/// The declared and the recorded migrations, joined by version.
pub open spec fn history(
    declared: Seq<MigrationInfoView>,
    recorded: Seq<ExecutedMigrationInfoView>,
) -> Map<Seq<u32>, JoinedView> {
    outer_join(declared_by_version(declared), recorded_by_version(recorded))
}

/// `list` is the listing of the unexpected migrations of `joined`: it is in
/// strictly ascending order of version, each of its identities is that of an
/// execution which `joined` holds under the identity's version without a
/// declared migration, and every such execution is listed.
pub open spec fn lists_unexpected(
    list: Seq<MigrationInfoView>,
    joined: Map<Seq<u32>, JoinedView>,
) -> bool {
    &&& strictly_ascending(list)
    &&& forall|i: int|
        0 <= i < list.len() ==> {
            let k = (#[trigger] list[i]).version;
            &&& joined.contains_key(k)
            &&& is_unexpected(joined[k])
            &&& joined[k].1.unwrap().migration == list[i]
        }
    &&& forall|k: Seq<u32>|
        joined.contains_key(k) && is_unexpected(#[trigger] joined[k]) ==> exists|i: int|
            0 <= i < list.len() && (#[trigger] list[i]).version == k
}

/// The outcome `r` is the one that the declared and the recorded
/// migrations call for: the run fails if and only if some version is
/// recorded and not declared, and the error then holds the listing of all
/// such executions.
pub open spec fn reconciled<E>(
    declared: Seq<MigrationInfoView>,
    recorded: Seq<ExecutedMigrationInfoView>,
    r: Result<(), MigrationError<E>>,
) -> bool {
    let joined = history(declared, recorded);
    match r {
        Ok(()) => forall|k: Seq<u32>| #[trigger]
            joined.contains_key(k) ==> !is_unexpected(joined[k]),
        Err(MigrationError::UnexpectedMigrations(list)) => list@.len() > 0 && lists_unexpected(
            info_views(list@),
            joined,
        ),
        Err(MigrationError::DatabaseError(_)) => false,
    }
}

/// The versions of `declared_by_version` are those of the identities, and
/// each version leads to an identity that has it.
pub proof fn lemma_declared_by_version(infos: Seq<MigrationInfoView>)
    ensures
        forall|k: Seq<u32>|
            declared_by_version(infos).contains_key(k) <==> exists|i: int|
                0 <= i < infos.len() && (#[trigger] infos[i]).version == k,
        forall|k: Seq<u32>| #[trigger]
            declared_by_version(infos).contains_key(k) ==> declared_by_version(infos)[k].version
                == k,
    decreases infos.len(),
{
    if infos.len() > 0 {
        let init = infos.drop_last();
        lemma_declared_by_version(init);
        assert(declared_by_version(infos) == declared_by_version(init).insert(
            infos.last().version,
            infos.last(),
        ));
        assert forall|k: Seq<u32>|
            declared_by_version(infos).contains_key(k) <==> exists|i: int|
                0 <= i < infos.len() && (#[trigger] infos[i]).version == k by {
            if declared_by_version(infos).contains_key(k) {
                if k == infos.last().version {
                    assert(infos[infos.len() - 1].version == k);
                } else {
                    let i = choose|i: int| 0 <= i < init.len() && (#[trigger] init[i]).version == k;
                    assert(infos[i].version == k);
                }
            }
            if exists|i: int| 0 <= i < infos.len() && (#[trigger] infos[i]).version == k {
                let i = choose|i: int| 0 <= i < infos.len() && (#[trigger] infos[i]).version == k;
                if i < init.len() {
                    assert(init[i].version == k);
                }
            }
        }
    }
}

/// The execution at `i` has the version `k`, and no later one has it.
pub open spec fn is_last_with_version(
    executed: Seq<ExecutedMigrationInfoView>,
    i: int,
    k: Seq<u32>,
) -> bool {
    &&& 0 <= i < executed.len()
    &&& executed[i].migration.version == k
    &&& forall|j: int| i < j < executed.len() ==> (#[trigger] executed[j]).migration.version != k
}

/// The versions of `recorded_by_version` are those of the executions, and
/// each version leads to the last execution that has it.
pub proof fn lemma_recorded_by_version(executed: Seq<ExecutedMigrationInfoView>)
    ensures
        forall|k: Seq<u32>|
            recorded_by_version(executed).contains_key(k) <==> exists|i: int|
                0 <= i < executed.len() && (#[trigger] executed[i]).migration.version == k,
        forall|k: Seq<u32>| #[trigger]
            recorded_by_version(executed).contains_key(k) ==> recorded_by_version(
                executed,
            )[k].migration.version == k,
        forall|k: Seq<u32>| #[trigger]
            recorded_by_version(executed).contains_key(k) ==> exists|i: int| #[trigger]
                is_last_with_version(executed, i, k) && recorded_by_version(executed)[k]
                    == executed[i],
    decreases executed.len(),
{
    if executed.len() > 0 {
        let init = executed.drop_last();
        let last = executed.len() - 1;
        lemma_recorded_by_version(init);
        assert(recorded_by_version(executed) == recorded_by_version(init).insert(
            executed.last().migration.version,
            executed.last(),
        ));
        assert forall|k: Seq<u32>|
            recorded_by_version(executed).contains_key(k) <==> exists|i: int|
                0 <= i < executed.len() && (#[trigger] executed[i]).migration.version == k by {
            if recorded_by_version(executed).contains_key(k) {
                if k == executed.last().migration.version {
                    assert(executed[last].migration.version == k);
                } else {
                    let i = choose|i: int|
                        0 <= i < init.len() && (#[trigger] init[i]).migration.version == k;
                    assert(executed[i].migration.version == k);
                }
            }
            if exists|i: int|
                0 <= i < executed.len() && (#[trigger] executed[i]).migration.version == k {
                let i = choose|i: int|
                    0 <= i < executed.len() && (#[trigger] executed[i]).migration.version == k;
                if i < init.len() {
                    assert(init[i].migration.version == k);
                }
            }
        }
        assert forall|k: Seq<u32>| #[trigger]
            recorded_by_version(executed).contains_key(k) implies exists|i: int| #[trigger]
            is_last_with_version(executed, i, k) && recorded_by_version(executed)[k]
                == executed[i] by {
            if k == executed.last().migration.version {
                assert(is_last_with_version(executed, last, k));
            } else {
                let i = choose|i: int| #[trigger]
                    is_last_with_version(init, i, k) && recorded_by_version(init)[k] == init[i];
                assert forall|j: int| i < j < executed.len() implies (
                #[trigger] executed[j]).migration.version != k by {
                    if j < last {
                        assert(init[j].migration.version != k);
                    }
                }
                assert(is_last_with_version(executed, i, k));
            }
        }
    }
}

/// Some declared migration has the version `v`.
pub open spec fn is_declared(declared: Seq<MigrationInfoView>, v: Seq<u32>) -> bool {
    exists|d: int| 0 <= d < declared.len() && (#[trigger] declared[d]).version == v
}

/// A run succeeds if and only if every recorded version is declared.
pub proof fn lemma_success_iff_all_declared<E>(
    declared: Seq<MigrationInfoView>,
    recorded: Seq<ExecutedMigrationInfoView>,
    r: Result<(), MigrationError<E>>,
)
    requires
        reconciled(declared, recorded, r),
    ensures
        r is Ok <==> forall|j: int|
            0 <= j < recorded.len() ==> is_declared(
                declared,
                (#[trigger] recorded[j]).migration.version,
            ),
{
    let joined = history(declared, recorded);
    lemma_declared_by_version(declared);
    lemma_recorded_by_version(recorded);
    if r is Ok {
        assert forall|j: int| 0 <= j < recorded.len() implies is_declared(
            declared,
            (#[trigger] recorded[j]).migration.version,
        ) by {
            let k = recorded[j].migration.version;
            assert(joined.contains_key(k));
            assert(!is_unexpected(joined[k]));
        }
    } else {
        let list = info_views(r->Err_0->UnexpectedMigrations_0@);
        let k = list[0].version;
        assert(joined.contains_key(k) && is_unexpected(joined[k]));
        let j = choose|j: int|
            0 <= j < recorded.len() && (#[trigger] recorded[j]).migration.version == k;
        assert(!is_declared(declared, recorded[j].migration.version));
    }
}

/// The listing of the unexpected migrations holds no declared version; each
/// of its identities is that of the last execution recorded for its version;
/// and every recorded version that is not declared is listed.
pub proof fn lemma_listing_holds_the_undeclared(
    declared: Seq<MigrationInfoView>,
    recorded: Seq<ExecutedMigrationInfoView>,
    list: Seq<MigrationInfoView>,
)
    requires
        lists_unexpected(list, history(declared, recorded)),
    ensures
        forall|i: int|
            0 <= i < list.len() ==> {
                &&& !is_declared(declared, (#[trigger] list[i]).version)
                &&& exists|j: int| #[trigger]
                    is_last_with_version(recorded, j, list[i].version) && recorded[j].migration
                        == list[i]
            },
        forall|j: int|
            0 <= j < recorded.len() && !is_declared(
                declared,
                (#[trigger] recorded[j]).migration.version,
            ) ==> exists|i: int|
                0 <= i < list.len() && (#[trigger] list[i]).version
                    == recorded[j].migration.version,
{
    let joined = history(declared, recorded);
    lemma_declared_by_version(declared);
    lemma_recorded_by_version(recorded);
    assert forall|i: int| 0 <= i < list.len() implies {
        &&& !is_declared(declared, (#[trigger] list[i]).version)
        &&& exists|j: int| #[trigger]
            is_last_with_version(recorded, j, list[i].version) && recorded[j].migration == list[i]
    } by {
        let k = list[i].version;
        assert(joined.contains_key(k) && is_unexpected(joined[k]));
        assert(recorded_by_version(recorded).contains_key(k));
    }
    assert forall|j: int|
        0 <= j < recorded.len() && !is_declared(
            declared,
            (#[trigger] recorded[j]).migration.version,
        ) implies exists|i: int|
        0 <= i < list.len() && (#[trigger] list[i]).version == recorded[j].migration.version by {
        let k = recorded[j].migration.version;
        assert(joined.contains_key(k) && is_unexpected(joined[k]));
    }
}

/// A joined history has one listing of its unexpected migrations, and no
/// other.
pub proof fn lemma_listing_unique(
    first: Seq<MigrationInfoView>,
    second: Seq<MigrationInfoView>,
    joined: Map<Seq<u32>, JoinedView>,
)
    requires
        lists_unexpected(first, joined),
        lists_unexpected(second, joined),
    ensures
        first == second,
    decreases first.len(),
{
    if first.len() == 0 {
        if second.len() > 0 {
            let k = second[0].version;
            assert(joined.contains_key(k) && is_unexpected(joined[k]));
        }
        assert(first =~= second);
    } else {
        let x = first.last();
        let k = x.version;
        assert(joined.contains_key(k) && is_unexpected(joined[k]));
        let j = choose|j: int| 0 <= j < second.len() && (#[trigger] second[j]).version == k;
        let end = second.len() - 1;
        if j < end {
            let top = second[end].version;
            assert(precedes(second[j].version, top));
            assert(joined.contains_key(top) && is_unexpected(joined[top]));
            let i = choose|i: int| 0 <= i < first.len() && (#[trigger] first[i]).version == top;
            lemma_precedes_irreflexive(k);
            if i < first.len() - 1 {
                assert(precedes(first[i].version, first[first.len() - 1].version));
                lemma_precedes_asymmetric(k, top);
            }
        }
        assert(second.last() == x);
        let rest = joined.remove(k);
        lemma_listing_without_last(first, joined);
        lemma_listing_without_last(second, joined);
        lemma_listing_unique(first.drop_last(), second.drop_last(), rest);
        assert(first =~= first.drop_last().push(x));
        assert(second =~= second.drop_last().push(x));
    }
}

/// Without its last identity, a listing lists what is left when that
/// identity's version leaves the history.
proof fn lemma_listing_without_last(list: Seq<MigrationInfoView>, joined: Map<Seq<u32>, JoinedView>)
    requires
        list.len() > 0,
        lists_unexpected(list, joined),
    ensures
        lists_unexpected(list.drop_last(), joined.remove(list.last().version)),
{
    let init = list.drop_last();
    let k = list.last().version;
    let rest = joined.remove(k);
    lemma_precedes_irreflexive(k);
    assert forall|i: int, j: int| 0 <= i < j < init.len() implies precedes(
        (#[trigger] init[i]).version,
        (#[trigger] init[j]).version,
    ) by {
        assert(precedes(list[i].version, list[j].version));
    }
    assert forall|i: int| 0 <= i < init.len() implies {
        let v = (#[trigger] init[i]).version;
        &&& rest.contains_key(v)
        &&& is_unexpected(rest[v])
        &&& rest[v].1.unwrap().migration == init[i]
    } by {
        assert(precedes(list[i].version, list[list.len() - 1].version));
    }
    assert forall|v: Seq<u32>| rest.contains_key(v) && is_unexpected(
        #[trigger] rest[v],
    ) implies exists|i: int| 0 <= i < init.len() && (#[trigger] init[i]).version == v by {
        assert(joined.contains_key(v) && is_unexpected(joined[v]));
        let i = choose|i: int| 0 <= i < list.len() && (#[trigger] list[i]).version == v;
        assert(init[i].version == v);
    }
}

/// What a map of migration identities holds.
spec fn declared_views(m: Map<Seq<u32>, MigrationInfo>) -> Map<Seq<u32>, MigrationInfoView> {
    m.map_values(|info: MigrationInfo| info@)
}

/// What a map of recorded executions holds.
spec fn recorded_views(m: Map<Seq<u32>, ExecutedMigrationInfo>) -> Map<
    Seq<u32>,
    ExecutedMigrationInfoView,
> {
    m.map_values(|executed: ExecutedMigrationInfo| executed@)
}

/// Collects the declared migrations by version.
fn index_declared(available: Vec<MigrationInfo>) -> (r: VersionMap<MigrationInfo>)
    ensures
        declared_views(r@) == declared_by_version(info_views(available@)),
{
    let ghost infos = info_views(available@);
    let mut r: VersionMap<MigrationInfo> = VersionMap::new();
    proof {
        assert(infos.take(0) =~= Seq::empty());
        assert(declared_views(r@) =~= Map::empty());
    }
    for info in it: available.into_iter()
        invariant
            it.seq() == available@,
            infos == info_views(available@),
            declared_views(r@) == declared_by_version(infos.take(it.index() as int)),
    {
        let ghost i = it.index() as int;
        let ghost before = r@;
        proof {
            assert(infos.take(i + 1).drop_last() =~= infos.take(i));
            assert(infos.take(i + 1).last() == info@);
        }
        r.insert(info.version.clone(), info);
        proof {
            assert(declared_views(r@) =~= declared_views(before).insert(info@.version, info@));
        }
    }
    proof {
        assert(infos.take(infos.len() as int) =~= infos);
    }
    r
}

/// Collects the recorded executions by version.
fn index_recorded(existing: Vec<ExecutedMigrationInfo>) -> (r: VersionMap<ExecutedMigrationInfo>)
    ensures
        recorded_views(r@) == recorded_by_version(executed_views(existing@)),
{
    let ghost executed = executed_views(existing@);
    let mut r: VersionMap<ExecutedMigrationInfo> = VersionMap::new();
    proof {
        assert(executed.take(0) =~= Seq::empty());
        assert(recorded_views(r@) =~= Map::empty());
    }
    for execution in it: existing.into_iter()
        invariant
            it.seq() == existing@,
            executed == executed_views(existing@),
            recorded_views(r@) == recorded_by_version(executed.take(it.index() as int)),
    {
        let ghost i = it.index() as int;
        let ghost before = r@;
        proof {
            assert(executed.take(i + 1).drop_last() =~= executed.take(i));
            assert(executed.take(i + 1).last() == execution@);
        }
        r.insert(execution.migration.version.clone(), execution);
        proof {
            assert(recorded_views(r@) =~= recorded_views(before).insert(
                execution@.migration.version,
                execution@,
            ));
        }
    }
    proof {
        assert(executed.take(executed.len() as int) =~= executed);
    }
    r
}

/// `values` lists the values of `m`, and `keys` the key of each.
spec fn enumerates<V>(values: Seq<V>, keys: Seq<Seq<u32>>, m: Map<Seq<u32>, V>) -> bool {
    &&& keys.len() == values.len()
    &&& forall|i: int, j: int| 0 <= i < j < keys.len() ==> keys[i] != keys[j]
    &&& forall|i: int|
        0 <= i < keys.len() ==> m.contains_key(#[trigger] keys[i]) && m[keys[i]] == values[i]
    &&& forall|k: Seq<u32>|
        m.contains_key(k) ==> exists|i: int| 0 <= i < keys.len() && #[trigger] keys[i] == k
}

/// The values of the map, in no particular order.
fn into_values<V>(m: VersionMap<V>) -> (r: (Vec<V>, Ghost<Seq<Seq<u32>>>))
    ensures
        enumerates(r.0@, r.1@, m@),
{
    let ghost whole = m@;
    let mut m = m;
    let mut values: Vec<V> = Vec::new();
    let ghost mut keys: Seq<Seq<u32>> = Seq::empty();
    loop
        invariant
            keys.len() == values@.len(),
            forall|i: int, j: int| 0 <= i < j < keys.len() ==> keys[i] != keys[j],
            forall|i: int|
                0 <= i < keys.len() ==> whole.contains_key(#[trigger] keys[i]) && whole[keys[i]]
                    == values@[i] && !m@.contains_key(keys[i]),
            forall|k: Seq<u32>| #[trigger]
                m@.contains_key(k) ==> whole.contains_key(k) && m@[k] == whole[k],
            forall|k: Seq<u32>|
                whole.contains_key(k) && !m@.contains_key(k) ==> exists|i: int|
                    0 <= i < keys.len() && #[trigger] keys[i] == k,
        ensures
            enumerates(values@, keys, whole),
        decreases m@.len(),
    {
        let ghost before = m@;
        let ghost listed = keys;
        match m.pop() {
            Some((key, value)) => {
                values.push(value);
                proof {
                    keys = keys.push(key@);
                    assert forall|k: Seq<u32>|
                        whole.contains_key(k) && !m@.contains_key(k) implies exists|i: int|
                        0 <= i < keys.len() && #[trigger] keys[i] == k by {
                        if k == key@ {
                            assert(keys[keys.len() - 1] == k);
                        } else {
                            assert(!before.contains_key(k));
                            let i = choose|i: int|
                                0 <= i < listed.len() && #[trigger] listed[i] == k;
                            assert(keys[i] == k);
                        }
                    }
                }
            },
            None => {
                break ;
            },
        }
    }
    (values, Ghost(keys))
}

/// From an ascending list that holds what `unexpected_in` finds among the
/// values of a joined history, the listing of the history's unexpected
/// migrations.
proof fn lemma_listing(
    list: Seq<MigrationInfoView>,
    state: Seq<JoinedView>,
    keys: Seq<Seq<u32>>,
    joined: Map<Seq<u32>, JoinedView>,
)
    requires
        ascending(list),
        list.to_multiset() == unexpected_in(state).to_multiset(),
        enumerates(state, keys, joined),
        forall|k: Seq<u32>|
            joined.contains_key(k) && is_unexpected(#[trigger] joined[k])
                ==> joined[k].1.unwrap().migration.version == k,
    ensures
        lists_unexpected(list, joined),
        list.len() == 0 ==> forall|k: Seq<u32>|
            joined.contains_key(k) ==> !is_unexpected(#[trigger] joined[k]),
{
    let found = unexpected_in(state);
    lemma_unexpected_in(state, keys, joined);
    lemma_same_members(list, found);
    assert forall|a: int, b: int| 0 <= a < b < list.len() implies precedes(
        (#[trigger] list[a]).version,
        (#[trigger] list[b]).version,
    ) by {
        assert(list.contains(list[a]));
        assert(list.contains(list[b]));
        assert(found.contains(list[a]));
        assert(found.contains(list[b]));
        let fa = choose|i: int| 0 <= i < found.len() && found[i] == list[a];
        let fb = choose|i: int| 0 <= i < found.len() && found[i] == list[b];
        if fa == fb {
            assert(list[a] == list[b]);
            lemma_count_two(list, a, b);
            lemma_count_one(found, fa);
        } else if fa < fb {
            assert(found[fa].version != found[fb].version);
        } else {
            assert(found[fb].version != found[fa].version);
        }
        lemma_precedes_total(list[a].version, list[b].version);
    }
    assert forall|i: int| 0 <= i < list.len() implies {
        let k = (#[trigger] list[i]).version;
        &&& joined.contains_key(k)
        &&& is_unexpected(joined[k])
        &&& joined[k].1.unwrap().migration == list[i]
    } by {
        assert(list.contains(list[i]));
        assert(found.contains(list[i]));
        let f = choose|f: int| 0 <= f < found.len() && found[f] == list[i];
        assert(found[f] == list[i]);
    }
    assert forall|k: Seq<u32>|
        joined.contains_key(k) && is_unexpected(#[trigger] joined[k]) implies exists|i: int|
        0 <= i < list.len() && (#[trigger] list[i]).version == k by {
        let x = joined[k].1.unwrap().migration;
        let s = choose|s: int| 0 <= s < keys.len() && #[trigger] keys[s] == k;
        assert(state[s] == joined[k]);
        assert(found.contains(x));
        assert(list.contains(x));
        let i = choose|i: int| 0 <= i < list.len() && list[i] == x;
        assert(list[i].version == k);
    }
}

/// Sequences that hold the same elements equally often have the same
/// members.
proof fn lemma_same_members<A>(s: Seq<A>, t: Seq<A>)
    requires
        s.to_multiset() == t.to_multiset(),
    ensures
        forall|x: A| s.contains(x) <==> t.contains(x),
{
    assert forall|x: A| s.contains(x) <==> t.contains(x) by {
        to_multiset_contains(s, x);
        to_multiset_contains(t, x);
    }
}

/// An element that stands at two places occurs at least twice.
proof fn lemma_count_two<A>(s: Seq<A>, a: int, b: int)
    requires
        0 <= a < b < s.len(),
        s[a] == s[b],
    ensures
        s.to_multiset().count(s[a]) >= 2,
{
    let rest = s.remove(b);
    s.to_multiset_ensures();
    rest.to_multiset_ensures();
    assert(rest[a] == s[a]);
    assert(rest.contains(s[a]));
    assert(s.to_multiset() =~= rest.to_multiset().insert(s[b]));
}

/// In a sequence whose elements all differ, each occurs once.
proof fn lemma_count_one<A>(s: Seq<A>, a: int)
    requires
        0 <= a < s.len(),
        s.no_duplicates(),
    ensures
        s.to_multiset().count(s[a]) == 1,
{
    s.lemma_multiset_has_no_duplicates();
    s.to_multiset_ensures();
    assert(s.contains(s[a]));
}

/// What `unexpected_in` finds among the values of a joined history: the
/// migration of each unexpected pair, under the key of the pair, and so no
/// version twice.
proof fn lemma_unexpected_in(
    state: Seq<JoinedView>,
    keys: Seq<Seq<u32>>,
    joined: Map<Seq<u32>, JoinedView>,
)
    requires
        keys.len() == state.len(),
        forall|i: int, j: int| 0 <= i < j < keys.len() ==> keys[i] != keys[j],
        forall|i: int|
            0 <= i < keys.len() ==> joined.contains_key(#[trigger] keys[i]) && joined[keys[i]]
                == state[i],
        forall|k: Seq<u32>|
            joined.contains_key(k) && is_unexpected(#[trigger] joined[k])
                ==> joined[k].1.unwrap().migration.version == k,
    ensures
        forall|f: int|
            0 <= f < unexpected_in(state).len() ==> {
                let x = #[trigger] unexpected_in(state)[f];
                &&& joined.contains_key(x.version)
                &&& is_unexpected(joined[x.version])
                &&& joined[x.version].1.unwrap().migration == x
                &&& exists|i: int| 0 <= i < keys.len() && #[trigger] keys[i] == x.version
            },
        forall|i: int|
            0 <= i < state.len() && is_unexpected(#[trigger] state[i]) ==> unexpected_in(
                state,
            ).contains(state[i].1.unwrap().migration),
        forall|f: int, g: int|
            0 <= f < g < unexpected_in(state).len() ==> (#[trigger] unexpected_in(state)[f]).version
                != (#[trigger] unexpected_in(state)[g]).version,
        unexpected_in(state).no_duplicates(),
    decreases state.len(),
{
    if state.len() > 0 {
        let init = state.drop_last();
        let init_keys = keys.drop_last();
        let last = state.len() - 1;
        let found = unexpected_in(state);
        let before = unexpected_in(init);
        lemma_unexpected_in(init, init_keys, joined);
        assert(joined.contains_key(keys[last]) && joined[keys[last]] == state[last]);
        assert forall|f: int| 0 <= f < found.len() implies {
            let x = #[trigger] found[f];
            &&& joined.contains_key(x.version)
            &&& is_unexpected(joined[x.version])
            &&& joined[x.version].1.unwrap().migration == x
            &&& exists|i: int| 0 <= i < keys.len() && #[trigger] keys[i] == x.version
        } by {
            if f < before.len() {
                let x = before[f];
                assert(found[f] == x);
                let i = choose|i: int|
                    0 <= i < init_keys.len() && #[trigger] init_keys[i] == x.version;
                assert(keys[i] == x.version);
            } else {
                assert(keys[last] == found[f].version);
            }
        }
        assert forall|i: int|
            0 <= i < state.len() && is_unexpected(#[trigger] state[i]) implies found.contains(
            state[i].1.unwrap().migration,
        ) by {
            if i < last {
                assert(init[i] == state[i]);
                let x = state[i].1.unwrap().migration;
                assert(before.contains(x));
                let f = choose|f: int| 0 <= f < before.len() && before[f] == x;
                assert(found[f] == x);
            } else {
                assert(found[found.len() - 1] == state[i].1.unwrap().migration);
            }
        }
        assert forall|f: int, g: int| 0 <= f < g < found.len() implies (#[trigger] found[f]).version
            != (#[trigger] found[g]).version by {
            if g < before.len() {
                assert(found[f] == before[f]);
                assert(found[g] == before[g]);
            } else {
                let x = before[f];
                assert(found[f] == x);
                let i = choose|i: int|
                    0 <= i < init_keys.len() && #[trigger] init_keys[i] == x.version;
                assert(keys[i] != keys[last]);
            }
        }
    }
}

/// Compares the declared migrations with the recorded executions. Both are
/// taken by version, the last of each version standing for it. The run fails
/// if and only if some version is recorded and not declared, and the error
/// then lists the identity of every such execution, in ascending order of
/// version.
pub fn reconcile<E>(available: Vec<MigrationInfo>, existing: Vec<ExecutedMigrationInfo>) -> (r:
    Result<(), MigrationError<E>>)
    ensures
        reconciled(info_views(available@), executed_views(existing@), r),
{
    let ghost joined = history(info_views(available@), executed_views(existing@));
    proof {
        lemma_recorded_by_version(executed_views(existing@));
    }
    let declared = index_declared(available);
    let recorded = index_recorded(existing);
    let merged = merge(declared, recorded);
    let ghost merged_view = merged@;
    let (migration_state, Ghost(keys)): (MigrationState, _) = into_values(merged);
    let r = check_unexpected_migrations(&migration_state);
    proof {
        let state = state_views(migration_state@);
        assert forall|k: Seq<u32>| joined.contains_key(k) <==> merged_view.contains_key(k) by {
            assert(declared_views(declared@).contains_key(k) <==> declared@.contains_key(k));
            assert(recorded_views(recorded@).contains_key(k) <==> recorded@.contains_key(k));
        }
        assert forall|k: Seq<u32>| merged_view.contains_key(k) implies joined[k] == pair_view(
            merged_view[k],
        ) by {
            assert(declared_views(declared@).contains_key(k) <==> declared@.contains_key(k));
            assert(recorded_views(recorded@).contains_key(k) <==> recorded@.contains_key(k));
        }
        assert(enumerates(state, keys, joined)) by {
            assert forall|i: int| 0 <= i < keys.len() implies joined.contains_key(
                #[trigger] keys[i],
            ) && joined[keys[i]] == state[i] by {
                assert(merged_view.contains_key(keys[i]));
            }
        }
        match &r {
            Ok(()) => {
                assert(unexpected_in(state) =~= Seq::empty());
                lemma_listing(Seq::empty(), state, keys, joined);
            },
            Err(MigrationError::UnexpectedMigrations(list)) => {
                lemma_listing(info_views(list@), state, keys, joined);
            },
            Err(MigrationError::DatabaseError(_)) => {},
        }
    }
    r
}

} // verus!
