use crate::dataset::owner_views;
use crate::non_linear_lookup::others;
use crate::seller::{ordered, SellerId, SellerSet};
use crate::subset_utility::{
    cache_contents, cache_sound, lemma_utility_bound, lemma_utility_monotone, new_cache,
    subset_utility_with_cache, utility_of,
};
use crate::synthesis_sv::Share;
use crate::utils::binomial;
use itertools::Itertools;
use vstd::prelude::*;

verus! {

/// The `k`-element subsequences of `items`, in lexicographic order of
/// positions.
pub open spec fn combos(items: Seq<u64>, k: nat) -> Seq<Seq<u64>>
    decreases items.len(),
{
    if k == 0 {
        seq![Seq::empty()]
    } else if items.len() == 0 {
        Seq::empty()
    } else {
        combos(items.drop_first(), (k - 1) as nat).map_values(|c: Seq<u64>| seq![items[0]] + c)
            + combos(items.drop_first(), k)
    }
}

proof fn lemma_combos_len(items: Seq<u64>, k: nat)
    ensures
        combos(items, k).len() == binomial(items.len(), k),
    decreases items.len(),
{
    if k > 0 && items.len() > 0 {
        lemma_combos_len(items.drop_first(), (k - 1) as nat);
        lemma_combos_len(items.drop_first(), k);
    }
}

/// Relies on `Itertools::combinations`: the `k`-element subsequences of
/// `items` in lexicographic order of positions (one empty one for `k == 0`).
#[verifier::external_body]
fn combinations_of(items: &Vec<u64>, k: usize) -> (r: Vec<Vec<u64>>)
    ensures
        r@.map_values(|c: Vec<u64>| c@) == combos(items@, k as nat),
{
    items.iter().copied().combinations(k).collect()
}

/// What seller `s` adds to the coalition `t`.
pub open spec fn marginal(rows: Seq<Seq<Set<u64>>>, t: Seq<u64>, s: u64) -> int {
    utility_of(rows, t.to_set().insert(s)) - utility_of(rows, t.to_set())
}

/// The sum of what seller `s` adds to each coalition of `cs`.
pub open spec fn marginal_sum(rows: Seq<Seq<Set<u64>>>, cs: Seq<Seq<u64>>, s: u64) -> int
    decreases cs.len(),
{
    if cs.len() == 0 {
        0
    } else {
        marginal_sum(rows, cs.drop_last(), s) + marginal(rows, cs.last(), s)
    }
}

/// Seller `s`'s shares: for each coalition size `k`, the summed marginal
/// contributions over the size-`k` coalitions of the other sellers, over
/// `n * C(n - 1, k)`.
pub open spec fn exact_shares(rows: Seq<Seq<Set<u64>>>, ids: Seq<u64>, s: u64) -> Seq<Share> {
    Seq::new(
        ids.len(),
        |k: int|
            Share {
                seller: SellerId(s),
                num: marginal_sum(rows, combos(others(ids, s), k as nat), s) as i128,
                den: (ids.len() * binomial(others(ids, s).len(), k as nat)) as u128,
            },
    )
}

/// The shares of the first `i` sellers of `ids`, one after another.
pub open spec fn exact_shares_upto(rows: Seq<Seq<Set<u64>>>, ids: Seq<u64>, i: nat) -> Seq<Share>
    decreases i,
{
    if i == 0 {
        Seq::empty()
    } else {
        exact_shares_upto(rows, ids, (i - 1) as nat) + exact_shares(rows, ids, ids[i - 1])
    }
}

/// The identifiers of `ids` other than `s`.
fn other_ids(ids: &Vec<u64>, s: u64) -> (r: Vec<u64>)
    ensures
        r@ == others(ids@, s),
{
    let mut r: Vec<u64> = Vec::new();
    let mut i: usize = 0;
    assert(ids@.subrange(0, 0).filter(|x: u64| x != s) =~= Seq::<u64>::empty()) by {
        reveal(Seq::filter);
    }
    while i < ids.len()
        invariant
            i <= ids@.len(),
            r@ == others(ids@.subrange(0, i as int), s),
        decreases ids.len() - i,
    {
        proof {
            reveal(Seq::filter);
            assert(ids@.subrange(0, i + 1).drop_last() =~= ids@.subrange(0, i as int));
            assert(ids@.subrange(0, i + 1).last() == ids@[i as int]);
        }
        if ids[i] != s {
            r.push(ids[i]);
        }
        i += 1;
    }
    assert(ids@.subrange(0, ids@.len() as int) =~= ids@);
    r
}

/// Exact Shapley values by enumerating, for every seller and every size,
/// all coalitions of the other sellers. Seller values come in increasing
/// order of sellers, `n` shares each.
pub fn traditional_scheme(rows: &Vec<Vec<SellerSet>>, sellers: &SellerSet) -> (r: Vec<Share>)
    requires
        rows@.len() <= i64::MAX,
    ensures
        r@ == exact_shares_upto(owner_views(rows@), ordered(sellers@), sellers@.len()),
{
    let ghost ov = owner_views(rows@);
    let ids = sellers.ids();
    let n = sellers.len();
    let mut cache = new_cache();
    assert(cache_sound(ov, cache_contents(cache)));
    let mut r: Vec<Share> = Vec::new();
    let mut i: usize = 0;
    while i < n
        invariant
            i <= n,
            n == ids@.len(),
            ids@ == ordered(sellers@),
            rows@.len() <= i64::MAX,
            ov == owner_views(rows@),
            cache_sound(ov, cache_contents(cache)),
            r@ == exact_shares_upto(ov, ids@, i as nat),
        decreases n - i,
    {
        let s = ids[i];
        let rest = other_ids(&ids, s);
        let mut block: Vec<Share> = Vec::new();
        let mut k: usize = 0;
        while k < n
            invariant
                i < n,
                k <= n,
                n == ids@.len(),
                s == ids@[i as int],
                rest@ == others(ids@, s),
                rows@.len() <= i64::MAX,
                ov == owner_views(rows@),
                cache_sound(ov, cache_contents(cache)),
                block@.len() == k,
                forall|x: int| 0 <= x < k ==> #[trigger] block@[x] == exact_shares(ov, ids@, s)[x],
            decreases n - k,
        {
            let subsets = combinations_of(&rest, k);
            let ghost cs = subsets@.map_values(|c: Vec<u64>| c@);
            let count = subsets.len();
            proof {
                lemma_combos_len(rest@, k as nat);
            }
            let mut sum: u128 = 0;
            let mut q: usize = 0;
            while q < count
                invariant
                    q <= count,
                    count == subsets@.len(),
                    cs == subsets@.map_values(|c: Vec<u64>| c@),
                    rows@.len() <= i64::MAX,
                    ov == owner_views(rows@),
                    cache_sound(ov, cache_contents(cache)),
                    sum == marginal_sum(ov, cs.subrange(0, q as int), s),
                    sum <= q * rows@.len(),
                decreases count - q,
            {
                let mut coalition = SellerSet::from_ids(&subsets[q]);
                let without = subset_utility_with_cache(rows, &coalition, &mut cache);
                coalition.insert(SellerId(s));
                let with = subset_utility_with_cache(rows, &coalition, &mut cache);
                proof {
                    let t = cs[q as int];
                    assert(t == subsets@[q as int]@);
                    lemma_utility_monotone(ov, t.to_set(), t.to_set().insert(s));
                    lemma_utility_bound(ov, t.to_set().insert(s));
                    assert(cs.subrange(0, q + 1).drop_last() =~= cs.subrange(0, q as int));
                    assert(cs.subrange(0, q + 1).last() == t);
                    assert(sum + (with - without) <= (q + 1) * rows@.len()) by (nonlinear_arith)
                        requires
                            sum <= q * rows@.len(),
                            with - without <= rows@.len(),
                            without <= with;
                    assert((q + 1) * rows@.len() <= 0xffff_ffff_ffff_ffffu64 * 0x7fff_ffff_ffff_ffffu64) by (nonlinear_arith)
                        requires
                            q + 1 <= 0xffff_ffff_ffff_ffffu64,
                            rows@.len() <= 0x7fff_ffff_ffff_ffffu64;
                }
                sum = sum + (with - without) as u128;
                q += 1;
            }
            proof {
                assert(cs.subrange(0, count as int) =~= cs);
                assert(count * rows@.len() <= 0xffff_ffff_ffff_ffffu64 * 0x7fff_ffff_ffff_ffffu64) by (nonlinear_arith)
                    requires
                        count <= 0xffff_ffff_ffff_ffffu64,
                        rows@.len() <= 0x7fff_ffff_ffff_ffffu64;
                assert((n as u128) * (count as u128) <= 0xffff_ffff_ffff_ffff_ffff_ffff_ffff_ffffu128) by (nonlinear_arith)
                    requires
                        n <= 0xffff_ffff_ffff_ffffu64,
                        count <= 0xffff_ffff_ffff_ffffu64;
            }
            block.push(Share { seller: SellerId(s), num: sum as i128, den: (n as u128) * (count as u128) });
            k += 1;
        }
        let ghost r0 = r@;
        assert(block@ =~= exact_shares(ov, ids@, s));
        r.append(&mut block);
        assert(r@ =~= exact_shares_upto(ov, ids@, (i + 1) as nat));
        i += 1;
    }
    r
}

} // verus!
