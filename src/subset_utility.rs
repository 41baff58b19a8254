use crate::dataset::owner_views;
use crate::seller::{ordered, SellerSet};
use dashmap::DashMap;
use vstd::prelude::*;

verus! {

/// Every source row of a joined row is owned within `coalition`.
pub open spec fn row_usable(owners: Seq<Set<u64>>, coalition: Set<u64>) -> bool {
    forall|t: int| 0 <= t < owners.len() ==> (#[trigger] owners[t]).subset_of(coalition)
}

/// The utility of a coalition: how many joined rows it can produce.
pub open spec fn utility_of(rows: Seq<Seq<Set<u64>>>, coalition: Set<u64>) -> nat
    decreases rows.len(),
{
    if rows.len() == 0 {
        0
    } else {
        utility_of(rows.drop_last(), coalition) + if row_usable(rows.last(), coalition) {
            1nat
        } else {
            0nat
        }
    }
}

/// A larger coalition never produces fewer joined rows.
pub proof fn lemma_utility_monotone(rows: Seq<Seq<Set<u64>>>, s: Set<u64>, t: Set<u64>)
    requires
        s.subset_of(t),
    ensures
        utility_of(rows, s) <= utility_of(rows, t),
    decreases rows.len(),
{
    if rows.len() > 0 {
        lemma_utility_monotone(rows.drop_last(), s, t);
        if row_usable(rows.last(), s) {
            assert forall|k: int| 0 <= k < rows.last().len() implies (#[trigger] rows.last()[k]).subset_of(t) by {
                assert(rows.last()[k].subset_of(s));
            }
        }
    }
}

pub proof fn lemma_utility_bound(rows: Seq<Seq<Set<u64>>>, c: Set<u64>)
    ensures
        utility_of(rows, c) <= rows.len(),
    decreases rows.len(),
{
    if rows.len() > 0 {
        lemma_utility_bound(rows.drop_last(), c);
    }
}

/// Counts the joined rows whose source rows are all owned within `subset`.
pub fn subset_utility(rows: &Vec<Vec<SellerSet>>, subset: &SellerSet) -> (r: u64)
    requires
        rows@.len() <= u64::MAX,
    ensures
        r == utility_of(owner_views(rows@), subset@),
{
    let ghost ov = owner_views(rows@);
    let mut count: u64 = 0;
    let mut i: usize = 0;
    while i < rows.len()
        invariant
            i <= rows@.len(),
            rows@.len() <= u64::MAX,
            ov == owner_views(rows@),
            count == utility_of(ov.subrange(0, i as int), subset@),
            count <= i,
        decreases rows.len() - i,
    {
        let row = &rows[i];
        let mut ok = true;
        let mut t: usize = 0;
        while t < row.len()
            invariant
                i < rows@.len(),
                row == rows@[i as int],
                ov == owner_views(rows@),
                t <= row@.len(),
                ok == forall|k: int| 0 <= k < t ==> (#[trigger] ov[i as int][k]).subset_of(subset@),
            decreases row.len() - t,
        {
            let inside = row[t].is_subset(subset);
            assert(ov[i as int][t as int] == row@[t as int]@);
            if !inside {
                ok = false;
            }
            assert(ok == forall|k: int| 0 <= k < t + 1 ==> (#[trigger] ov[i as int][k]).subset_of(subset@)) by {
                if !inside {
                    assert(!ov[i as int][t as int].subset_of(subset@));
                }
            }
            t += 1;
        }
        proof {
            let pre = ov.subrange(0, i as int);
            let post = ov.subrange(0, i + 1);
            assert(post.drop_last() =~= pre);
            assert(post.last() == ov[i as int]);
            assert(ov[i as int].len() == row@.len());
            assert(ok == row_usable(ov[i as int], subset@));
        }
        if ok {
            count += 1;
        }
        i += 1;
    }
    assert(ov.subrange(0, rows@.len() as int) =~= ov);
    count
}

/// The concurrent map of `dashmap`, holding the utility cache.
#[verifier::external_type_specification]
#[verifier::external_body]
#[verifier::reject_recursive_types(K)]
#[verifier::reject_recursive_types(V)]
#[verifier::reject_recursive_types(S)]
pub struct ExDashMap<K, V, S>(DashMap<K, V, S>);

/// What a utility cache holds: coalitions (as increasing identifiers) and
/// their utilities.
pub uninterp spec fn cache_contents(c: DashMap<Vec<u64>, u64>) -> Map<Seq<u64>, u64>;

/// Relies on `DashMap::new`: the new map is empty.
#[verifier::external_body]
pub(crate) fn new_cache() -> (r: DashMap<Vec<u64>, u64>)
    ensures
        cache_contents(r).dom() == Set::<Seq<u64>>::empty(),
{
    DashMap::new()
}

/// Relies on `DashMap::get`: the value stored under an equal key, if any.
#[verifier::external_body]
fn cache_get(c: &DashMap<Vec<u64>, u64>, k: &Vec<u64>) -> (r: Option<u64>)
    ensures
        r matches Some(v) ==> cache_contents(*c).contains_key(k@) && cache_contents(*c)[k@] == v,
        r is None ==> !cache_contents(*c).contains_key(k@),
{
    c.get(k).map(|v| *v)
}

/// Relies on `DashMap::insert`: the key now maps to the value, other keys
/// are unchanged.
#[verifier::external_body]
fn cache_insert(c: &mut DashMap<Vec<u64>, u64>, k: Vec<u64>, v: u64)
    ensures
        cache_contents(*final(c)) == cache_contents(*old(c)).insert(k@, v),
{
    c.insert(k, v);
}

/// An empty utility cache.
pub fn new_utility_cache() -> (r: DashMap<Vec<u64>, u64>)
    ensures
        cache_contents(r).dom() == Set::<Seq<u64>>::empty(),
{
    new_cache()
}

/// Every cached value is the utility of its coalition.
pub open spec fn cache_sound(rows: Seq<Seq<Set<u64>>>, m: Map<Seq<u64>, u64>) -> bool {
    forall|k: Seq<u64>| #[trigger] m.contains_key(k) ==> m[k] == utility_of(rows, k.to_set())
}

/// The utility of `subset`, taken from the cache when it is there and
/// stored in it otherwise.
pub fn subset_utility_with_cache(
    rows: &Vec<Vec<SellerSet>>,
    subset: &SellerSet,
    cache: &mut DashMap<Vec<u64>, u64>,
) -> (r: u64)
    requires
        rows@.len() <= u64::MAX,
        cache_sound(owner_views(rows@), cache_contents(*old(cache))),
    ensures
        r == utility_of(owner_views(rows@), subset@),
        cache_sound(owner_views(rows@), cache_contents(*final(cache))),
        cache_contents(*old(cache)).contains_key(ordered(subset@)) ==> cache_contents(*final(cache))
            == cache_contents(*old(cache)),
        !cache_contents(*old(cache)).contains_key(ordered(subset@)) ==> cache_contents(
            *final(cache),
        ) == cache_contents(*old(cache)).insert(ordered(subset@), r),
{
    let key = subset.ids();
    match cache_get(cache, &key) {
        Some(u) => u,
        None => {
            let u = subset_utility(rows, subset);
            cache_insert(cache, key, u);
            u
        },
    }
}

} // verus!
