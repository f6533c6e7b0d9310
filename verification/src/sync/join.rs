//! The full outer join of two maps by version.

use crate::version_map::VersionMap;
use vstd::prelude::*;

verus! {

/// The value of `m` for `k`, if it has one.
pub open spec fn lookup<V>(m: Map<Seq<u32>, V>, k: Seq<u32>) -> Option<V> {
    if m.contains_key(k) {
        Some(m[k])
    } else {
        None
    }
}

/// The full outer join of `a` and `b`: for every version that is a key of
/// either map, what each of the two maps holds for it.
pub open spec fn outer_join<V1, V2>(a: Map<Seq<u32>, V1>, b: Map<Seq<u32>, V2>) -> Map<
    Seq<u32>,
    (Option<V1>, Option<V2>),
> {
    Map::new(
        |k: Seq<u32>| a.contains_key(k) || b.contains_key(k),
        |k: Seq<u32>| (lookup(a, k), lookup(b, k)),
    )
}

/// Joins two maps by version. Every version that either map has a value for
/// gets one entry, which holds the value of each map that has one.
pub fn merge<V1, V2>(m1: VersionMap<V1>, m2: VersionMap<V2>) -> (r: VersionMap<
    (Option<V1>, Option<V2>),
>)
    ensures
        r@ == outer_join(m1@, m2@),
{
    let ghost left = m1@;
    let ghost right = m2@;
    let mut m1 = m1;
    let mut m2 = m2;
    let mut result: VersionMap<(Option<V1>, Option<V2>)> = VersionMap::new();
    loop
        invariant
            forall|k: Seq<u32>| #[trigger]
                m1@.contains_key(k) ==> left.contains_key(k) && m1@[k] == left[k],
            forall|k: Seq<u32>| #[trigger]
                result@.contains_key(k) <==> left.contains_key(k) && !m1@.contains_key(k),
            forall|k: Seq<u32>| #[trigger]
                result@.contains_key(k) ==> result@[k] == (Some(left[k]), None::<V2>),
        ensures
            forall|k: Seq<u32>| #[trigger] result@.contains_key(k) <==> left.contains_key(k),
            forall|k: Seq<u32>| #[trigger]
                result@.contains_key(k) ==> result@[k] == (Some(left[k]), None::<V2>),
        decreases m1@.len(),
    {
        match m1.pop() {
            Some((key, value)) => {
                result.insert(key, (Some(value), None));
            },
            None => {
                break ;
            },
        }
    }
    loop
        invariant
            forall|k: Seq<u32>| #[trigger]
                m2@.contains_key(k) ==> right.contains_key(k) && m2@[k] == right[k],
            forall|k: Seq<u32>| #[trigger]
                result@.contains_key(k) <==> left.contains_key(k) || (right.contains_key(k)
                    && !m2@.contains_key(k)),
            forall|k: Seq<u32>| #[trigger]
                result@.contains_key(k) ==> result@[k] == (
                    lookup(left, k),
                    if m2@.contains_key(k) {
                        None
                    } else {
                        lookup(right, k)
                    },
                ),
        ensures
            forall|k: Seq<u32>| #[trigger]
                result@.contains_key(k) <==> left.contains_key(k) || right.contains_key(k),
            forall|k: Seq<u32>| #[trigger]
                result@.contains_key(k) ==> result@[k] == (lookup(left, k), lookup(right, k)),
        decreases m2@.len(),
    {
        match m2.pop() {
            Some((key, value)) => {
                let from_left = match result.remove(&key) {
                    Some(pair) => pair.0,
                    None => None,
                };
                result.insert(key, (from_left, Some(value)));
            },
            None => {
                break ;
            },
        }
    }
    assert(result@ =~= outer_join(left, right));
    result
}

} // verus!
