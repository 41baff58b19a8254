use crate::dataset::owner_views;
use crate::non_linear_lookup::singletons;
use crate::seller::{ordered, SellerId, SellerSet};
use crate::synthesis::{
    explanations, extend_each, large_members, lemma_minimal_idempotent, minimal_of, sellers_of,
    views, Synthesis,
};
use crate::synthesis_sv::{
    cal_sv_linear, cal_sv_non_linear, lemma_linear_row_efficient, linear_beta, linear_count,
    linear_den, linear_k, linear_shares_upto, linear_unit, scaled_total, shares_upto, Scale, Share,
};
use crate::subset_utility::utility_of;
use crate::utils::{binomial, checked_binom, lemma_choose_diag, lemma_choose_pos};
use vstd::prelude::*;

verus! {

/// Whether a row with members `ms` is solved in closed form: at most one
/// member holds more than one seller, and the closed form's unit fits in a
/// machine word.
pub open spec fn solved_linearly(ms: Seq<Set<u64>>) -> bool {
    linear_count(ms) <= 1 && linear_unit(linear_k(ms), linear_beta(ms), linear_count(ms))
        <= usize::MAX
}

/// The shares of a row whose reduced synthesis has the members `ms`.
pub open spec fn row_shares(ms: Seq<Set<u64>>, scale: Scale) -> Seq<Share> {
    if solved_linearly(ms) {
        linear_shares_upto(ms, ms.len(), linear_k(ms), linear_beta(ms), linear_count(ms))
    } else {
        let ids = ordered(sellers_of(ms.to_set()));
        shares_upto(ms, ids, ids.len(), scale)
    }
}

/// Every owner of every source row of a joined row: the coalition that the
/// row needs in full.
pub open spec fn all_owners(owners: Seq<Set<u64>>) -> Set<u64>
    decreases owners.len(),
{
    if owners.len() == 0 {
        Set::empty()
    } else {
        all_owners(owners.drop_last()).union(owners.last())
    }
}

/// `block` is what a joined row with source-row owners `owners` credits:
/// its synthesis has the one member "all owners of the row", solved as
/// `row_shares` says.
pub open spec fn row_ok(owners: Seq<Set<u64>>, block: Seq<Share>, scale: Scale) -> bool {
    block == row_shares(seq![all_owners(owners)], scale)
}

/// A synthesis with one member is solved in closed form.
proof fn lemma_single_member_linear(whole: Set<u64>)
    requires
        whole.len() <= usize::MAX,
    ensures
        solved_linearly(seq![whole]),
{
    let ms = seq![whole];
    reveal_with_fuel(Seq::filter, 2);
    assert(ms.drop_last() =~= Seq::<Set<u64>>::empty());
    if whole.len() > 1 {
        assert(large_members(ms) =~= seq![whole]);
        lemma_choose_diag((whole.len() - 1) as nat);
        assert(linear_unit(whole.len(), 0, 1) == whole.len() * 1);
    } else {
        assert(large_members(ms) =~= Seq::<Set<u64>>::empty());
    }
}

proof fn lemma_all_owners_finite(owners: Seq<Set<u64>>)
    requires
        forall|i: int| 0 <= i < owners.len() ==> (#[trigger] owners[i]).finite(),
    ensures
        all_owners(owners).finite(),
    decreases owners.len(),
{
    if owners.len() > 0 {
        lemma_all_owners_finite(owners.drop_last());
        assert(owners.last() == owners[owners.len() - 1]);
    }
}

/// A joined row with at least one owner hands out exactly one unit of
/// utility in the proposed scheme: over the common denominator
/// `linear_den`, its shares add up to that denominator.
pub proof fn lemma_row_shares_efficient(owners: Seq<Set<u64>>, scale: Scale)
    requires
        forall|i: int| 0 <= i < owners.len() ==> (#[trigger] owners[i]).finite(),
        1 <= all_owners(owners).len() <= usize::MAX,
    ensures
        scaled_total(
            row_shares(seq![all_owners(owners)], scale),
            linear_den(seq![all_owners(owners)]) as int,
        ) == linear_den(seq![all_owners(owners)]),
{
    let whole = all_owners(owners);
    lemma_all_owners_finite(owners);
    lemma_single_member_linear(whole);
    let ms = seq![whole];
    assert forall|i: int| 0 <= i < ms.len() implies (#[trigger] ms[i]).finite() && ms[i].len() >= 1 by {
        assert(ms[i] == whole);
    }
    lemma_linear_row_efficient(ms);
}

proof fn lemma_owner_in_all(owners: Seq<Set<u64>>, t: int)
    requires
        0 <= t < owners.len(),
    ensures
        owners[t].subset_of(all_owners(owners)),
    decreases owners.len(),
{
    if t < owners.len() - 1 {
        lemma_owner_in_all(owners.drop_last(), t);
    }
}

proof fn lemma_utility_counts_all(rows: Seq<Seq<Set<u64>>>, sellers: Set<u64>)
    requires
        forall|i: int| 0 <= i < rows.len() ==> all_owners(#[trigger] rows[i]).subset_of(sellers),
    ensures
        utility_of(rows, sellers) == rows.len(),
    decreases rows.len(),
{
    if rows.len() > 0 {
        let last = rows.last();
        assert(all_owners(rows[rows.len() - 1]).subset_of(sellers));
        assert forall|t: int| 0 <= t < last.len() implies (#[trigger] last[t]).subset_of(sellers) by {
            lemma_owner_in_all(last, t);
        }
        lemma_utility_counts_all(rows.drop_last(), sellers);
    }
}

/// Efficiency of the proposed scheme: when every joined row has an owner and
/// `sellers` holds every owner, each row's block hands out exactly one unit
/// (over its common denominator `linear_den`, its shares add up to that
/// denominator) and the utility of `sellers` counts every row, so all shares
/// together add up to the utility of `sellers`.
pub proof fn lemma_proposed_efficient(rows: Seq<Seq<Set<u64>>>, sellers: Set<u64>, scale: Scale)
    requires
        forall|i: int, t: int|
            0 <= i < rows.len() && 0 <= t < rows[i].len() ==> (#[trigger] rows[i][t]).finite(),
        forall|i: int|
            0 <= i < rows.len() ==> 1 <= all_owners(#[trigger] rows[i]).len() <= usize::MAX,
        forall|i: int| 0 <= i < rows.len() ==> all_owners(#[trigger] rows[i]).subset_of(sellers),
    ensures
        utility_of(rows, sellers) == rows.len(),
        forall|i: int|
            0 <= i < rows.len() ==> scaled_total(
                row_shares(seq![all_owners(#[trigger] rows[i])], scale),
                linear_den(seq![all_owners(rows[i])]) as int,
            ) == linear_den(seq![all_owners(rows[i])]),
{
    lemma_utility_counts_all(rows, sellers);
    assert forall|i: int| 0 <= i < rows.len() implies scaled_total(
        row_shares(seq![all_owners(#[trigger] rows[i])], scale),
        linear_den(seq![all_owners(rows[i])]) as int,
    ) == linear_den(seq![all_owners(rows[i])]) by {
        assert forall|t: int| 0 <= t < rows[i].len() implies (#[trigger] rows[i][t]).finite() by {
        }
        lemma_row_shares_efficient(rows[i], scale);
    }
}

/// Picking one seller from each of a list of single-seller coalitions
/// leaves one choice: all of them.
pub proof fn lemma_explanations_of_singletons(q: Seq<u64>)
    ensures
        explanations(singletons(q)) == Set::empty().insert(q.to_set()),
    decreases q.len(),
{
    if q.len() == 0 {
        assert(singletons(q) =~= Seq::<Set<u64>>::empty());
        assert(q.to_set() =~= Set::<u64>::empty());
    } else {
        let p = q.drop_last();
        lemma_explanations_of_singletons(p);
        assert(singletons(q).drop_last() =~= singletons(p));
        assert(singletons(q).last() == Set::<u64>::empty().insert(q.last()));
        assert(q =~= p.push(q.last()));
        p.lemma_push_to_set_commute(q.last());
        let prev = Set::<Set<u64>>::empty().insert(p.to_set());
        let one = Set::<u64>::empty().insert(q.last());
        assert(extend_each(prev, one) =~= Set::empty().insert(q.to_set())) by {
            assert(prev.contains(p.to_set()) && one.contains(q.last()));
        }
    }
}

/// The blocks one after another.
pub open spec fn concat(blocks: Seq<Seq<Share>>) -> Seq<Share>
    decreases blocks.len(),
{
    if blocks.len() == 0 {
        Seq::empty()
    } else {
        concat(blocks.drop_last()) + blocks.last()
    }
}

/// The proposed scheme. A joined row needs every owner of its source rows,
/// so its synthesis is built from one single-seller coalition per owner:
/// its one member is "all owners of the row". The synthesis is reduced and
/// solved in closed form when it is linear, by one of the exact procedures
/// otherwise. Returns the shares of all rows, how many rows were solved in
/// closed form (all of them, as each synthesis has one member), and how many
/// sellers went to lookup and to inclusion-exclusion.
pub fn proposed_scheme(rows: &Vec<Vec<SellerSet>>, scale: Scale) -> (r: (Vec<Share>, usize, usize, usize))
    ensures
        exists|blocks: Seq<Seq<Share>>|
            blocks.len() == rows@.len() && r.0@ == concat(blocks) && forall|i: int|
                0 <= i < rows@.len() ==> row_ok(
                    #[trigger] owner_views(rows@)[i],
                    blocks[i],
                    scale,
                ),
        r.1 == rows@.len(),
        r.2 == 0,
        r.3 == 0,
{
    let ghost ov = owner_views(rows@);
    let mut out: Vec<Share> = Vec::new();
    let ghost mut blocks: Seq<Seq<Share>> = Seq::empty();
    let mut linear_count: usize = 0;
    let mut lookup_count: usize = 0;
    let mut comb_count: usize = 0;
    let mut i: usize = 0;
    while i < rows.len()
        invariant
            i <= rows@.len(),
            ov == owner_views(rows@),
            blocks.len() == i,
            out@ == concat(blocks),
            forall|a: int| 0 <= a < i ==> row_ok(#[trigger] ov[a], blocks[a], scale),
            linear_count == i,
            lookup_count == 0,
            comb_count == 0,
        decreases rows.len() - i,
    {
        let row = &rows[i];
        let ghost owners = ov[i as int];
        let mut all = SellerSet::new();
        let mut t: usize = 0;
        assert(owners.subrange(0, 0) =~= Seq::<Set<u64>>::empty());
        while t < row.len()
            invariant
                i < rows@.len(),
                row == rows@[i as int],
                ov == owner_views(rows@),
                owners == ov[i as int],
                t <= row@.len(),
                all@ == all_owners(owners.subrange(0, t as int)),
            decreases row.len() - t,
        {
            all = all.union(&row[t]);
            proof {
                assert(owners.subrange(0, t + 1).drop_last() =~= owners.subrange(0, t as int));
                assert(owners.subrange(0, t + 1).last() == row@[t as int]@);
            }
            t += 1;
        }
        proof {
            assert(owners.subrange(0, row@.len() as int) =~= owners);
        }
        let ids = all.ids();
        let na = all.len();
        let mut singles: Vec<SellerSet> = Vec::new();
        let mut j: usize = 0;
        while j < ids.len()
            invariant
                j <= ids@.len(),
                views(singles@) == singletons(ids@.subrange(0, j as int)),
            decreases ids.len() - j,
        {
            let mut one = SellerSet::new();
            one.insert(SellerId(ids[j]));
            let ghost before = views(singles@);
            singles.push(one);
            assert(views(singles@) =~= before.push(Set::empty().insert(ids@[j as int])));
            assert(ids@.subrange(0, j + 1) =~= ids@.subrange(0, j as int).push(ids@[j as int]));
            assert(singletons(ids@.subrange(0, j + 1)) =~= singletons(ids@.subrange(0, j as int)).push(
                Set::empty().insert(ids@[j as int]),
            ));
            assert(views(singles@) =~= singletons(ids@.subrange(0, j + 1)));
            j += 1;
        }
        assert(ids@.subrange(0, ids@.len() as int) =~= ids@);
        let ghost whole = all_owners(owners);
        let mut syn = Synthesis::from_seller_sets(&singles);
        proof {
            lemma_explanations_of_singletons(ids@);
            assert(minimal_of(Set::empty().insert(whole)) =~= Set::empty().insert(whole));
        }
        syn.minimal();
        let n = syn.len();
        let ghost ms = syn.members();
        proof {
            lemma_minimal_idempotent(Set::empty().insert(whole));
            ms.unique_seq_to_set();
            assert(ms.len() == 1);
            assert(ms.to_set().contains(ms[0]));
            assert(ms =~= seq![whole]);
            assert(whole.len() == all@.len());
            lemma_single_member_linear(whole);
            assert(solved_linearly(ms));
        }
        let mut linear_block: Option<Vec<Share>> = None;
        match syn.is_linear() {
            Some((count, k)) => {
                let beta = n - count;
                let ghost lu = linear_unit(k as nat, beta as nat, count as nat);
                let unit: Option<u128> = if count == 1 {
                    proof {
                        ms.lemma_filter_pred(|m: Set<u64>| m.len() > 1, 0);
                    }
                    if (k as u128) + (beta as u128) > usize::MAX as u128 {
                        proof {
                            lemma_choose_pos((k + beta - 1) as nat, (k - 1) as nat);
                            assert(lu >= k + beta) by (nonlinear_arith)
                                requires
                                    lu == (k + beta) * binomial((k + beta - 1) as nat, (k - 1) as nat),
                                    binomial((k + beta - 1) as nat, (k - 1) as nat) >= 1;
                        }
                        None
                    } else {
                        match checked_binom(k - 1, k + beta - 1) {
                            Some(c) => {
                                let w = (k + beta) as u128;
                                assert(w * (c as u128) <= 0xffff_ffff_ffff_ffff_ffff_ffff_ffff_ffffu128) by (nonlinear_arith)
                                    requires
                                        w <= 0xffff_ffff_ffff_ffffu64,
                                        c <= 0xffff_ffff_ffff_ffffu64;
                                Some(w * c as u128)
                            },
                            None => {
                                proof {
                                    let c = binomial((k + beta - 1) as nat, (k - 1) as nat);
                                    assert(lu >= c) by (nonlinear_arith)
                                        requires
                                            lu == (k + beta) * c,
                                            k + beta >= 1;
                                }
                                None
                            },
                        }
                    }
                } else {
                    Some(1)
                };
                assert(unit matches Some(u) ==> u == lu);
                assert(unit is None ==> lu > usize::MAX);
                assert(k == if count == 1 { large_members(ms)[0].len() } else { 0 });
                match unit {
                    Some(u) => {
                        if u <= usize::MAX as u128 {
                            assert(solved_linearly(ms));
                            let b = cal_sv_linear(&syn, count, k);
                            linear_block = Some(b);
                        } else {
                            assert(!solved_linearly(ms));
                        }
                    },
                    None => {
                        assert(!solved_linearly(ms));
                    },
                }
            },
            None => {
                assert(!solved_linearly(ms));
            },
        }
        assert(linear_block is Some);
        let block = match linear_block {
            Some(b) => {
                linear_count += 1;
                b
            },
            None => {
                let (b, l, c) = cal_sv_non_linear(&syn, scale);
                lookup_count = lookup_count.saturating_add(l);
                comb_count = comb_count.saturating_add(c);
                b
            },
        };
        assert(block@ == row_shares(ms, scale));
        let ghost b = block@;
        let ghost o0 = out@;
        let mut block = block;
        out.append(&mut block);
        proof {
            let old_blocks = blocks;
            blocks = blocks.push(b);
            assert(blocks.drop_last() =~= old_blocks);
            assert(row_ok(ov[i as int], b, scale));
            assert(out@ == o0 + b);
        }
        i += 1;
    }
    (out, linear_count, lookup_count, comb_count)
}

} // verus!
