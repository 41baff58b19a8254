use crate::dataset::owner_views;
use crate::seller::{lemma_sorted_no_duplicates, ordered, SellerId, SellerSet};
use crate::subset_utility::{
    cache_contents, cache_sound, lemma_utility_bound, lemma_utility_monotone, new_cache,
    subset_utility_with_cache, utility_of,
};
use crate::synthesis_sv::Share;
use dashmap::DashMap;
use rand::seq::SliceRandom;
use vstd::prelude::*;

verus! {

broadcast use vstd::seq_lib::group_to_multiset_ensures;

/// Relies on `SliceRandom::shuffle` with the thread-local generator: the
/// result is a rearrangement of the input.
#[verifier::external_body]
fn shuffle_ids(v: &mut Vec<u64>)
    ensures
        final(v)@.to_multiset() == old(v)@.to_multiset(),
{
    v.shuffle(&mut rand::thread_rng());
}

/// The sum of the numerators.
pub open spec fn sum_nums(r: Seq<Share>) -> int
    decreases r.len(),
{
    if r.len() == 0 {
        0
    } else {
        sum_nums(r.drop_last()) + r.last().num
    }
}

pub open spec fn sum_u128(s: Seq<u128>) -> int
    decreases s.len(),
{
    if s.len() == 0 {
        0
    } else {
        sum_u128(s.drop_last()) + s.last()
    }
}

proof fn lemma_sum_update(s: Seq<u128>, j: int, v: u128)
    requires
        0 <= j < s.len(),
    ensures
        sum_u128(s.update(j, v)) == sum_u128(s) - s[j] + v,
    decreases s.len(),
{
    if j < s.len() - 1 {
        lemma_sum_update(s.drop_last(), j, v);
        assert(s.update(j, v).drop_last() =~= s.drop_last().update(j, v));
    } else {
        assert(s.update(j, v).drop_last() =~= s.drop_last());
    }
}

proof fn lemma_sum_ge(s: Seq<u128>, j: int)
    requires
        0 <= j < s.len(),
    ensures
        sum_u128(s) >= s[j],
    decreases s.len(),
{
    if j < s.len() - 1 {
        lemma_sum_ge(s.drop_last(), j);
    }
    lemma_sum_nonneg(s.drop_last());
}

proof fn lemma_sum_nonneg(s: Seq<u128>)
    ensures
        sum_u128(s) >= 0,
    decreases s.len(),
{
    if s.len() > 0 {
        lemma_sum_nonneg(s.drop_last());
    }
}

fn position(ids: &Vec<u64>, x: u64) -> (r: usize)
    requires
        ids@.contains(x),
    ensures
        r < ids@.len(),
        ids@[r as int] == x,
{
    let mut j: usize = 0;
    while j < ids.len()
        invariant
            j <= ids@.len(),
            ids@.contains(x),
            forall|k: int| 0 <= k < j ==> ids@[k] != x,
        decreases ids.len() - j,
    {
        if ids[j] == x {
            return j;
        }
        j += 1;
    }
    proof {
        let k = choose|k: int| 0 <= k < ids@.len() && ids@[k] == x;
        assert(ids@[k] != x);
    }
    0
}

/// What the seller arriving at position `p` of `order` adds: the utility of
/// the first `p + 1` arrivals minus that of the first `p` (nothing is
/// subtracted for the first arrival).
pub open spec fn arrival_gain(rows: Seq<Seq<Set<u64>>>, order: Seq<u64>, p: int) -> int {
    utility_of(rows, order.subrange(0, p + 1).to_set()) - if p == 0 {
        0
    } else {
        utility_of(rows, order.subrange(0, p).to_set()) as int
    }
}

/// What seller `x` is credited over the first `m` arrivals of `order`.
pub open spec fn credit(rows: Seq<Seq<Set<u64>>>, order: Seq<u64>, x: u64, m: int) -> int
    decreases m,
{
    if m <= 0 {
        0
    } else {
        credit(rows, order, x, m - 1) + if order[m - 1] == x {
            arrival_gain(rows, order, m - 1)
        } else {
            0
        }
    }
}

/// What seller `x` is credited over the trials with arrival orders `orders`.
pub open spec fn total_credit(rows: Seq<Seq<Set<u64>>>, orders: Seq<Seq<u64>>, x: u64) -> int
    decreases orders.len(),
{
    if orders.len() == 0 {
        0
    } else {
        total_credit(rows, orders.drop_last(), x) + credit(rows, orders.last(), x, orders.last().len() as int)
    }
}

/// One trial: for the sellers arriving in `order`, what each arrival adds.
pub fn arrival_gains(
    rows: &Vec<Vec<SellerSet>>,
    order: &Vec<u64>,
    cache: &mut DashMap<Vec<u64>, u64>,
) -> (r: Vec<u64>)
    requires
        rows@.len() <= u64::MAX,
        cache_sound(owner_views(rows@), cache_contents(*old(cache))),
    ensures
        r@.len() == order@.len(),
        forall|p: int| 0 <= p < r@.len() ==> #[trigger] r@[p] == arrival_gain(owner_views(rows@), order@, p),
        cache_sound(owner_views(rows@), cache_contents(*final(cache))),
{
    let ghost ov = owner_views(rows@);
    let mut r: Vec<u64> = Vec::new();
    let mut coalition = SellerSet::new();
    let mut last: u64 = 0;
    let mut p: usize = 0;
    assert(coalition@ =~= order@.subrange(0, 0).to_set());
    while p < order.len()
        invariant
            p <= order@.len(),
            r@.len() == p,
            rows@.len() <= u64::MAX,
            ov == owner_views(rows@),
            cache_sound(ov, cache_contents(*cache)),
            coalition@ == order@.subrange(0, p as int).to_set(),
            p == 0 ==> last == 0,
            p > 0 ==> last == utility_of(ov, coalition@),
            forall|q: int| 0 <= q < p ==> #[trigger] r@[q] == arrival_gain(ov, order@, q),
        decreases order.len() - p,
    {
        let x = order[p];
        let ghost before = coalition@;
        coalition.insert(SellerId(x));
        proof {
            assert(order@.subrange(0, p + 1) =~= order@.subrange(0, p as int).push(x));
            order@.subrange(0, p as int).lemma_push_to_set_commute(x);
            lemma_utility_monotone(ov, before, coalition@);
        }
        let u = subset_utility_with_cache(rows, &coalition, cache);
        r.push(u - last);
        last = u;
        p += 1;
    }
    r
}

/// Monte-Carlo estimate: in each of `sample_size` trials the sellers are
/// taken in a random order and each is credited what its arrival adds.
/// Seller `i` (in increasing order) gets its credit summed over the drawn
/// orders, over `sample_size`; each drawn order is a rearrangement of the
/// sellers. Whatever orders were drawn, each trial hands out the full
/// coalition's utility exactly once.
pub fn permutation_scheme(rows: &Vec<Vec<SellerSet>>, sellers: &SellerSet, sample_size: usize) -> (r:
    Vec<Share>)
    requires
        rows@.len() <= u64::MAX,
        sample_size * rows@.len() <= i128::MAX,
    ensures
        sample_size == 0 ==> r@.len() == 0,
        sample_size > 0 ==> r@.len() == sellers@.len(),
        forall|i: int|
            0 <= i < r@.len() ==> (#[trigger] r@[i]).seller.0 == ordered(sellers@)[i] && r@[i].den
                == sample_size && r@[i].num >= 0,
        exists|orders: Seq<Seq<u64>>|
            orders.len() == sample_size && (forall|t: int|
                0 <= t < orders.len() ==> (#[trigger] orders[t]).to_multiset() == ordered(
                    sellers@,
                ).to_multiset()) && forall|i: int|
                0 <= i < r@.len() ==> (#[trigger] r@[i]).num == total_credit(
                    owner_views(rows@),
                    orders,
                    ordered(sellers@)[i],
                ),
        sellers@.len() > 0 ==> sum_nums(r@) == sample_size * utility_of(owner_views(rows@), sellers@),
{
    let ghost ov = owner_views(rows@);
    if sample_size == 0 {
        let r: Vec<Share> = Vec::new();
        assert(Seq::<Seq<u64>>::empty().len() == 0);
        return r;
    }
    let ids = sellers.ids();
    let n = sellers.len();
    let ghost total = utility_of(ov, sellers@);
    proof {
        lemma_utility_bound(ov, sellers@);
        lemma_sorted_no_duplicates(ids@);
    }
    let mut totals: Vec<u128> = Vec::new();
    while totals.len() < n
        invariant
            totals@.len() <= n,
            forall|k: int| 0 <= k < totals@.len() ==> totals@[k] == 0,
            sum_u128(totals@) == 0,
        decreases n - totals.len(),
    {
        let ghost before = totals@;
        totals.push(0);
        assert(totals@.drop_last() =~= before);
    }
    let mut cache = new_cache();
    assert(cache_sound(ov, cache_contents(cache)));
    let ghost mut orders: Seq<Seq<u64>> = Seq::empty();
    let mut trial: usize = 0;
    while trial < sample_size
        invariant
            trial <= sample_size,
            rows@.len() <= u64::MAX,
            sample_size * rows@.len() <= i128::MAX,
            ov == owner_views(rows@),
            ids@ == sellers.seq(),
            ids@ == ordered(sellers@),
            ids@.to_set() == sellers@,
            ids@.no_duplicates(),
            n == ids@.len(),
            totals@.len() == n,
            total == utility_of(ov, sellers@),
            total <= rows@.len(),
            cache_sound(ov, cache_contents(cache)),
            n > 0 ==> sum_u128(totals@) == trial * total,
            n == 0 ==> sum_u128(totals@) == 0,
            orders.len() == trial,
            forall|t: int| 0 <= t < orders.len() ==> (#[trigger] orders[t]).to_multiset() == ids@.to_multiset(),
            forall|k: int| 0 <= k < n ==> #[trigger] totals@[k] == total_credit(ov, orders, ids@[k]),
        decreases sample_size - trial,
    {
        let mut perm = ids.clone();
        assert(perm@ =~= ids@);
        shuffle_ids(&mut perm);
        assert(perm@.len() == perm@.to_multiset().len());
        assert(ids@.len() == ids@.to_multiset().len());
        let gains = arrival_gains(rows, &perm, &mut cache);
        let ghost base = sum_u128(totals@);
        let ghost before_totals = totals@;
        let ghost mut last: int = 0;
        proof {
            assert((trial + 1) * total <= sample_size * rows@.len()) by (nonlinear_arith)
                requires
                    trial + 1 <= sample_size,
                    total <= rows@.len();
        }
        let mut p: usize = 0;
        while p < n
            invariant
                p <= n,
                n == ids@.len(),
                perm@.len() == n,
                gains@.len() == n,
                forall|q: int| 0 <= q < n ==> #[trigger] gains@[q] == arrival_gain(ov, perm@, q),
                perm@.to_multiset() == ids@.to_multiset(),
                ids@.no_duplicates(),
                trial < sample_size,
                rows@.len() <= u64::MAX,
                (trial + 1) * total <= sample_size * rows@.len(),
                sample_size * rows@.len() <= i128::MAX,
                ov == owner_views(rows@),
                ids@.to_set() == sellers@,
                totals@.len() == n,
                total == utility_of(ov, sellers@),
                p == 0 ==> last == 0,
                p > 0 ==> last == utility_of(ov, perm@.subrange(0, p as int).to_set()),
                perm@.subrange(0, p as int).to_set().subset_of(sellers@),
                sum_u128(totals@) == base + last,
                n > 0 ==> base == trial * total,
                forall|k: int| 0 <= k < n ==> #[trigger] totals@[k] == total_credit(ov, orders, ids@[k])
                    + credit(ov, perm@, ids@[k], p as int),
            decreases n - p,
        {
            let x = perm[p];
            assert(ids@.contains(x)) by {
                assert(perm@.contains(x));
                assert(perm@.to_multiset().count(x) > 0);
                assert(ids@.to_multiset().count(x) > 0);
            }
            let ghost pre = perm@.subrange(0, p as int).to_set();
            let ghost post = perm@.subrange(0, p + 1).to_set();
            proof {
                assert(perm@.subrange(0, p + 1) =~= perm@.subrange(0, p as int).push(x));
                perm@.subrange(0, p as int).lemma_push_to_set_commute(x);
                assert(sellers@.contains(x));
                lemma_utility_monotone(ov, post, sellers@);
            }
            let j = position(&ids, x);
            let g = gains[p];
            proof {
                assert(g == utility_of(ov, post) - last);
                lemma_sum_ge(totals@, j as int);
                lemma_sum_update(totals@, j as int, (totals@[j as int] + g) as u128);
                assert(trial * total + utility_of(ov, post) <= (trial + 1) * total) by (nonlinear_arith)
                    requires
                        utility_of(ov, post) <= total;
                assert(totals@[j as int] + g <= sum_u128(totals@) + g);
                assert(sum_u128(totals@) + g == base + utility_of(ov, post));
                assert(totals@[j as int] + g <= i128::MAX);
            }
            let cur = totals[j];
            let ghost old_totals = totals@;
            totals.set(j, cur + g as u128);
            proof {
                last = utility_of(ov, post) as int;
                assert forall|k: int| 0 <= k < n implies #[trigger] totals@[k] == total_credit(ov, orders, ids@[k])
                    + credit(ov, perm@, ids@[k], p + 1) by {
                    assert(old_totals[k] == total_credit(ov, orders, ids@[k]) + credit(ov, perm@, ids@[k], p as int));
                    if k != j {
                        assert(ids@[k] != ids@[j as int]);
                    }
                }
            }
            p += 1;
        }
        proof {
            assert(perm@.subrange(0, n as int) =~= perm@);
            let new_orders = orders.push(perm@);
            assert(new_orders.drop_last() =~= orders);
            assert forall|k: int| 0 <= k < n implies #[trigger] totals@[k] == total_credit(ov, new_orders, ids@[k]) by {
            }
            assert forall|t: int| 0 <= t < new_orders.len() implies (#[trigger] new_orders[t]).to_multiset() == ids@.to_multiset() by {
                if t < orders.len() {
                    assert(new_orders[t] == orders[t]);
                }
            }
            orders = new_orders;
            if n > 0 {
                assert(perm@.to_set() =~= sellers@) by {
                    assert forall|y: u64| sellers@.contains(y) implies perm@.to_set().contains(y) by {
                        assert(ids@.contains(y));
                        assert(ids@.to_multiset().count(y) > 0);
                        assert(perm@.to_multiset().count(y) > 0);
                        assert(perm@.contains(y));
                    }
                }
                assert(sum_u128(totals@) == (trial + 1) * total) by (nonlinear_arith)
                    requires
                        sum_u128(totals@) == trial * total + total;
            }
        }
        trial += 1;
    }
    proof {
        assert(sample_size * total <= sample_size * rows@.len()) by (nonlinear_arith)
            requires
                total <= rows@.len();
    }
    let mut r: Vec<Share> = Vec::new();
    let mut j: usize = 0;
    while j < n
        invariant
            j <= n,
            n == ids@.len(),
            totals@.len() == n,
            ids@ == ordered(sellers@),
            r@.len() == j,
            sum_u128(totals@) <= sample_size * rows@.len(),
            sample_size * rows@.len() <= i128::MAX,
            sum_nums(r@) == sum_u128(totals@.subrange(0, j as int)),
            forall|k: int| 0 <= k < n ==> #[trigger] totals@[k] == total_credit(ov, orders, ids@[k]),
            forall|i: int|
                0 <= i < j ==> (#[trigger] r@[i]).seller.0 == ids@[i] && r@[i].den == sample_size
                    && r@[i].num >= 0 && r@[i].num == total_credit(ov, orders, ids@[i]),
        decreases n - j,
    {
        proof {
            lemma_sum_ge(totals@, j as int);
        }
        let ghost r0 = r@;
        r.push(Share { seller: SellerId(ids[j]), num: totals[j] as i128, den: sample_size as u128 });
        proof {
            assert(r@.drop_last() =~= r0);
            assert(totals@.subrange(0, j + 1).drop_last() =~= totals@.subrange(0, j as int));
        }
        j += 1;
    }
    assert(totals@.subrange(0, n as int) =~= totals@);
    r
}

} // verus!
