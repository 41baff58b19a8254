use crate::non_linear_comb::{cal_sv_non_linear_comb, comb_coef, comb_len};
use crate::non_linear_lookup::{
    cal_sv_non_linear_lookup, flip_count, lookup_fits, other_subsets, others,
};
use crate::seller::{
    lemma_sorted_listing_exists, lemma_sorted_no_duplicates, ordered, strictly_sorted, SellerId,
    SellerSet,
};
use crate::synthesis::{is_antichain, large_members, lemma_large_push, sellers_of, views, Synthesis};
use crate::utils::{binom, binomial, lemma_choose_diag, lemma_choose_pos};
use vstd::prelude::*;

verus! {

/// An exact amount `num / den` of utility credited to one seller.
#[derive(Debug, Clone, Copy, PartialEq, Eq, Structural)]
pub struct Share {
    pub seller: SellerId,
    pub num: i128,
    pub den: u128,
}

/// The sellers that a list of shares credits, in order.
pub open spec fn credited(r: Seq<Share>) -> Seq<u64> {
    r.map_values(|s: Share| s.seller.0)
}

/// `(k + beta) * C(k + beta - 1, k - 1)` when there is a large member
/// (`count == 1`), else one: the reciprocal of what each seller of the large
/// member receives.
pub open spec fn linear_unit(k: nat, beta: nat, count: nat) -> nat {
    if count == 1 {
        (k + beta) * binomial((k + beta - 1) as nat, (k - 1) as nat)
    } else {
        1
    }
}

/// A seller that is a member on its own receives `(1 - k * count / u) / beta`;
/// a seller of the large member receives `1 / u`, with `u` the linear unit.
pub open spec fn linear_share_ok(syn: Set<Set<u64>>, s: Share, k: nat, beta: nat, count: nat) -> bool {
    let u = linear_unit(k, beta, count);
    if syn.contains(Set::empty().insert(s.seller.0)) {
        s.num == u - k * count && s.den == beta * u
    } else {
        s.num == 1 && s.den == u
    }
}

/// What each seller of member `m` receives in a linear row.
pub open spec fn linear_member_shares(m: Set<u64>, k: nat, beta: nat, count: nat) -> Seq<Share> {
    let u = linear_unit(k, beta, count);
    ordered(m).map_values(
        |x: u64|
            if m.len() == 1 {
                Share { seller: SellerId(x), num: (u - k * count) as i128, den: (beta * u) as u128 }
            } else {
                Share { seller: SellerId(x), num: 1, den: u as u128 }
            },
    )
}

/// The shares of the first `i` members of a linear row, member after member.
pub open spec fn linear_shares_upto(ms: Seq<Set<u64>>, i: nat, k: nat, beta: nat, count: nat) -> Seq<Share>
    decreases i,
{
    if i == 0 {
        Seq::empty()
    } else {
        linear_shares_upto(ms, (i - 1) as nat, k, beta, count) + linear_member_shares(ms[i - 1], k, beta, count)
    }
}

/// The closed form's parameters for members `ms`: the number of large
/// members, the size of the large member (zero if none), and the number of
/// other members.
pub open spec fn linear_count(ms: Seq<Set<u64>>) -> nat {
    large_members(ms).len()
}

pub open spec fn linear_k(ms: Seq<Set<u64>>) -> nat {
    if large_members(ms).len() == 1 {
        large_members(ms)[0].len()
    } else {
        0
    }
}

pub open spec fn linear_beta(ms: Seq<Set<u64>>) -> nat {
    (ms.len() - large_members(ms).len()) as nat
}

/// A common denominator of a linear row's shares.
pub open spec fn linear_den(ms: Seq<Set<u64>>) -> nat {
    let u = linear_unit(linear_k(ms), linear_beta(ms), linear_count(ms));
    if linear_beta(ms) > 0 {
        linear_beta(ms) * u
    } else {
        u
    }
}

/// `num * (d / den)` summed over the shares: for `d` a multiple of every
/// denominator, `d` times what the shares add up to.
pub open spec fn scaled_total(r: Seq<Share>, d: int) -> int
    decreases r.len(),
{
    if r.len() == 0 {
        0
    } else {
        scaled_total(r.drop_last(), d) + r.last().num * (d / (r.last().den as int))
    }
}

proof fn lemma_scaled_concat(a: Seq<Share>, b: Seq<Share>, d: int)
    ensures
        scaled_total(a + b, d) == scaled_total(a, d) + scaled_total(b, d),
    decreases b.len(),
{
    if b.len() == 0 {
        assert(a + b =~= a);
    } else {
        lemma_scaled_concat(a, b.drop_last(), d);
        assert((a + b).drop_last() =~= a + b.drop_last());
        assert((a + b).last() == b.last());
    }
}

proof fn lemma_scaled_uniform(r: Seq<Share>, t: int, d: int)
    requires
        forall|i: int| 0 <= i < r.len() ==> (#[trigger] r[i]).num * (d / (r[i].den as int)) == t,
    ensures
        scaled_total(r, d) == r.len() * t,
    decreases r.len(),
{
    if r.len() > 0 {
        lemma_scaled_uniform(r.drop_last(), t, d);
        assert(r.last() == r[r.len() - 1]);
        assert((r.len() - 1) * t + t == r.len() * t) by (nonlinear_arith);
    }
}

proof fn lemma_linear_prefix(ms: Seq<Set<u64>>, i: int, k: nat, beta: nat, count: nat, d: int)
    requires
        0 <= i <= ms.len(),
        forall|j: int|
            0 <= j < ms.len() ==> ordered(#[trigger] ms[j]).len() == ms[j].len() && ms[j].len() >= 1,
        forall|j: int| 0 <= j < ms.len() && (#[trigger] ms[j]).len() > 1 ==> ms[j].len() == k,
    ensures
        scaled_total(linear_shares_upto(ms, i as nat, k, beta, count), d) == (i - large_members(
            ms.subrange(0, i),
        ).len()) * ((((linear_unit(k, beta, count) - k * count) as i128) as int) * (d / (((beta
            * linear_unit(k, beta, count)) as u128) as int))) + large_members(ms.subrange(0, i)).len()
            * k * (d / ((linear_unit(k, beta, count) as u128) as int)),
    decreases i,
{
    let u = linear_unit(k, beta, count);
    let a = (((u - k * count) as i128) as int) * (d / (((beta * u) as u128) as int));
    let b = d / ((u as u128) as int);
    if i == 0 {
        assert(ms.subrange(0, 0) =~= Seq::<Set<u64>>::empty());
        reveal(Seq::filter);
        assert(large_members(ms.subrange(0, 0)).len() == 0);
        assert(linear_shares_upto(ms, 0, k, beta, count) == Seq::<Share>::empty());
        assert(scaled_total(Seq::<Share>::empty(), d) == 0);
        assert(0 * a + 0 * k * b == 0) by (nonlinear_arith);
    } else {
        lemma_linear_prefix(ms, i - 1, k, beta, count, d);
        lemma_large_push(ms, i - 1);
        let prev = linear_shares_upto(ms, (i - 1) as nat, k, beta, count);
        let blk = linear_member_shares(ms[i - 1], k, beta, count);
        lemma_scaled_concat(prev, blk, d);
        let lp = large_members(ms.subrange(0, i - 1)).len();
        assert(linear_shares_upto(ms, i as nat, k, beta, count) == prev + blk);
        assert(scaled_total(prev, d) == (i - 1 - lp) * a + lp * k * b);
        if ms[i - 1].len() == 1 {
            lemma_scaled_uniform(blk, a, d);
            assert(blk.len() == 1);
            assert((i - 1 - lp) * a + lp * k * b + 1 * a == (i - lp) * a + lp * k * b) by (nonlinear_arith);
        } else {
            assert forall|x: int| 0 <= x < blk.len() implies (#[trigger] blk[x]).num * (d / (blk[x].den as int)) == b by {
            }
            lemma_scaled_uniform(blk, b, d);
            assert(blk.len() == k);
            assert((i - 1 - lp) * a + lp * k * b + k * b == (i - (lp + 1)) * a + (lp + 1) * k * b) by (nonlinear_arith);
        }
    }
}

/// A row solved in closed form hands out exactly one unit of utility: over
/// the common denominator `linear_den`, its shares add up to that
/// denominator. The members are non-empty finite coalitions of sellers, at
/// most one of them large, and the closed form's unit fits in a machine word
/// (the condition under which the closed form is used).
pub proof fn lemma_linear_row_efficient(ms: Seq<Set<u64>>)
    requires
        1 <= ms.len() <= usize::MAX,
        large_members(ms).len() <= 1,
        forall|i: int| 0 <= i < ms.len() ==> (#[trigger] ms[i]).finite() && ms[i].len() >= 1,
        linear_unit(linear_k(ms), linear_beta(ms), linear_count(ms)) <= usize::MAX,
    ensures
        scaled_total(
            linear_shares_upto(ms, ms.len(), linear_k(ms), linear_beta(ms), linear_count(ms)),
            linear_den(ms) as int,
        ) == linear_den(ms),
{
    let k = linear_k(ms);
    let beta = linear_beta(ms);
    let count = linear_count(ms);
    let u = linear_unit(k, beta, count);
    let d = linear_den(ms) as int;
    let big = large_members(ms);
    let p = |m: Set<u64>| m.len() > 1;
    assert forall|j: int| 0 <= j < ms.len() implies ordered(#[trigger] ms[j]).len() == ms[j].len() && ms[j].len() >= 1 by {
        lemma_sorted_listing_exists(ms[j]);
        let q = ordered(ms[j]);
        assert(strictly_sorted(q) && q.to_set() == ms[j]);
        lemma_sorted_no_duplicates(q);
        q.unique_seq_to_set();
    }
    assert forall|j: int| 0 <= j < ms.len() && (#[trigger] ms[j]).len() > 1 implies ms[j].len() == k by {
        ms.lemma_filter_contains(p, j);
        let x = choose|x: int| 0 <= x < big.len() && big[x] == ms[j];
    }
    lemma_linear_prefix(ms, ms.len() as int, k, beta, count, d);
    assert(ms.subrange(0, ms.len() as int) =~= ms);
    if count == 1 {
        ms.lemma_filter_pred(p, 0);
        lemma_choose_pos((k + beta - 1) as nat, (k - 1) as nat);
        let c = binomial((k + beta - 1) as nat, (k - 1) as nat);
        assert(u >= k) by (nonlinear_arith)
            requires
                u == (k + beta) * c,
                c >= 1;
    }
    assert(u >= 1) by {
        if count == 1 {
            assert(k >= 2);
        }
    }
    if beta > 0 {
        assert(beta * u <= 0xffff_ffff_ffff_ffff_ffff_ffff_ffff_ffffu128) by (nonlinear_arith)
            requires
                beta <= 0xffff_ffff_ffff_ffffu64,
                u <= 0xffff_ffff_ffff_ffffu64;
        assert(d >= 1) by (nonlinear_arith)
            requires
                d == beta * u,
                beta >= 1,
                u >= 1;
        assert(d / d == 1) by (nonlinear_arith)
            requires
                d >= 1;
        assert(d == u * beta) by (nonlinear_arith)
            requires
                d == beta * u;
        vstd::arithmetic::div_mod::lemma_div_multiples_vanish(beta as int, u as int);
        assert(d / (u as int) == beta);
        assert(k * count <= u) by (nonlinear_arith)
            requires
                count <= 1,
                count == 1 ==> u >= k,
                count == 0 ==> k == 0;
        let a = (((u - k * count) as i128) as int) * (d / (((beta * u) as u128) as int));
        assert(((u - k * count) as i128) as int == u - k * count);
        assert(((beta * u) as u128) as int == d);
        let x = ((u - k * count) as i128) as int;
        let y = d / (((beta * u) as u128) as int);
        assert(y == 1);
        assert(a == u - k * count) by (nonlinear_arith)
            requires
                a == x * y,
                y == 1,
                x == u - k * count;
        assert(d / ((u as u128) as int) == beta);
        assert((ms.len() - count) * (u - k * count) + count * k * beta == beta * u) by (nonlinear_arith)
            requires
                beta == ms.len() - count,
                count <= 1,
                count == 1 ==> u >= k,
                count == 0 ==> k == 0;
    } else {
        assert(count == 1);
        lemma_choose_diag((k - 1) as nat);
        assert(u == k) by (nonlinear_arith)
            requires
                u == k * binomial((k - 1) as nat, (k - 1) as nat),
                binomial((k - 1) as nat, (k - 1) as nat) == 1;
        assert(d / d == 1) by (nonlinear_arith)
            requires
                d >= 1;
        assert(d / ((u as u128) as int) == 1);
        assert(ms.len() - count == 0);
        assert(0 * ((((u - k * count) as i128) as int) * (d / (((beta * u) as u128) as int))) + 1 * k * 1 == d) by (nonlinear_arith)
            requires
                d == k;
    }
}

proof fn lemma_two_large(ms: Seq<Set<u64>>, a: int, b: int)
    requires
        0 <= a < b < ms.len(),
        ms[a].len() > 1,
        ms[b].len() > 1,
    ensures
        large_members(ms).len() >= 2,
{
    let p = |m: Set<u64>| m.len() > 1;
    let left = ms.subrange(0, b);
    let right = ms.subrange(b, ms.len() as int);
    assert(ms =~= left + right);
    Seq::filter_distributes_over_add(left, right, p);
    assert(left[a] == ms[a]);
    assert(right[0] == ms[b]);
    left.lemma_filter_contains(p, a);
    right.lemma_filter_contains(p, 0);
    assert(left.filter(p).contains(ms[a]));
    assert(right.filter(p).contains(ms[b]));
}

/// In a linear antichain, no seller is in two members.
proof fn lemma_linear_disjoint(ms: Seq<Set<u64>>, a: int, b: int, x: u64)
    requires
        0 <= a < ms.len(),
        0 <= b < ms.len(),
        a != b,
        ms.no_duplicates(),
        is_antichain(ms.to_set()),
        large_members(ms).len() <= 1,
        forall|i: int| 0 <= i < ms.len() ==> (#[trigger] ms[i]).finite(),
        ms[a].contains(x),
    ensures
        !ms[b].contains(x),
{
    if ms[b].contains(x) {
        assert(ms.to_set().contains(ms[a]));
        assert(ms.to_set().contains(ms[b]));
        if ms[a].len() <= 1 {
            lemma_single(ms[a], x);
            assert(ms[a].subset_of(ms[b]));
        } else if ms[b].len() <= 1 {
            lemma_single(ms[b], x);
            assert(ms[b].subset_of(ms[a]));
        } else if a < b {
            lemma_two_large(ms, a, b);
        } else {
            lemma_two_large(ms, b, a);
        }
    }
}

/// A finite set of at most one element that holds `x` is `{x}`.
proof fn lemma_single(s: Set<u64>, x: u64)
    requires
        s.finite(),
        s.len() <= 1,
        s.contains(x),
    ensures
        s == Set::empty().insert(x),
{
    assert forall|y: u64| s.contains(y) implies y == x by {
        if y != x {
            let two = Set::empty().insert(x).insert(y);
            vstd::set_lib::lemma_len_subset(two, s);
        }
    }
    assert(s =~= Set::empty().insert(x));
}

/// Closed-form shares for a linear synthesis (at most one member with more
/// than one seller, of size `k`; `count` says whether it exists).
pub fn cal_sv_linear(syns: &Synthesis, count: usize, k: usize) -> (r: Vec<Share>)
    requires
        is_antichain(syns@),
        count == large_members(syns.members()).len(),
        count <= 1,
        count == 1 ==> k == large_members(syns.members())[0].len(),
        count == 0 ==> k == 0,
        linear_unit(k as nat, (syns@.len() - count) as nat, count as nat) <= usize::MAX,
    ensures
        forall|i: int|
            0 <= i < r@.len() ==> linear_share_ok(
                syns@,
                #[trigger] r@[i],
                k as nat,
                (syns@.len() - count) as nat,
                count as nat,
            ),
        credited(r@).no_duplicates(),
        credited(r@).to_set() == sellers_of(syns@),
        r@ == linear_shares_upto(
            syns.members(),
            syns.members().len(),
            k as nat,
            (syns@.len() - count) as nat,
            count as nat,
        ),
{
    let n = syns.len();
    let ghost ms = syns.members();
    let beta: usize = n - count;
    let ghost u = linear_unit(k as nat, beta as nat, count as nat);
    proof {
        if count == 1 {
            let big = large_members(ms);
            ms.lemma_filter_pred(|m: Set<u64>| m.len() > 1, 0);
            assert(big[0].len() > 1);
            lemma_choose_pos((k + beta - 1) as nat, (k - 1) as nat);
            let c = binomial((k + beta - 1) as nat, (k - 1) as nat);
            assert(k + beta <= u && k <= u && c <= u) by (nonlinear_arith)
                requires
                    u == (k + beta) * c,
                    c >= 1,
                    k + beta >= 1;
        }
        syns.lemma_members_finite();
    }
    let unit: u128 = if count == 1 {
        let c = binom(k - 1, k + beta - 1);
        proof {
            assert(linear_unit(k as nat, beta as nat, 1) == (k + beta) * c);
            assert(c <= u) by (nonlinear_arith)
                requires
                    u == (k + beta) * c,
                    k + beta >= 1;
        }
        ((k + beta) as u128) * (c as u128)
    } else {
        1
    };
    assert(unit == u);
    let mut r: Vec<Share> = Vec::new();
    let mut i: usize = 0;
    while i < n
        invariant
            i <= n,
            n == ms.len(),
            ms == syns.members(),
            ms.no_duplicates(),
            beta == n - count,
            unit == u,
            u == linear_unit(k as nat, beta as nat, count as nat),
            u <= usize::MAX,
            forall|j: int|
                0 <= j < r@.len() ==> linear_share_ok(
                    syns@,
                    #[trigger] r@[j],
                    k as nat,
                    beta as nat,
                    count as nat,
                ),
            credited(r@).no_duplicates(),
            credited(r@).to_set() == Set::new(
                |x: u64| exists|a: int| 0 <= a < i && (#[trigger] ms[a]).contains(x),
            ),
            r@ == linear_shares_upto(ms, i as nat, k as nat, beta as nat, count as nat),
            is_antichain(ms.to_set()),
            large_members(ms).len() <= 1,
            count <= 1,
            count == 1 ==> k + beta <= u && k <= u,
            forall|a: int| 0 <= a < ms.len() ==> (#[trigger] ms[a]).finite(),
        decreases n - i,
    {
        let m = syns.member(i);
        let ids = m.ids();
        let ghost before = credited(r@);
        assert(linear_member_shares(ms[i as int], k as nat, beta as nat, count as nat).subrange(0, 0)
            =~= Seq::<Share>::empty());
        assert(r@ =~= linear_shares_upto(ms, i as nat, k as nat, beta as nat, count as nat)
            + linear_member_shares(ms[i as int], k as nat, beta as nat, count as nat).subrange(0, 0));
        proof {
            assert forall|y: u64| before.contains(y) implies !ms[i as int].contains(y) by {
                assert(before.to_set().contains(y));
                let a = choose|a: int| 0 <= a < i && (#[trigger] ms[a]).contains(y);
                lemma_linear_disjoint(ms, a, i as int, y);
            }
            ids@.unique_seq_to_set();
        }
        let mut j: usize = 0;
        while j < ids.len()
            invariant
                i < n,
                j <= ids@.len(),
                ids@.to_set() == ms[i as int],
                ids@.no_duplicates(),
                ms == syns.members(),
                n == ms.len(),
                beta == n - count,
                unit == u,
                u == linear_unit(k as nat, beta as nat, count as nat),
                u <= usize::MAX,
                credited(r@) == before + ids@.subrange(0, j as int),
                ids@ == ordered(ms[i as int]),
                r@ == linear_shares_upto(ms, i as nat, k as nat, beta as nat, count as nat)
                    + linear_member_shares(ms[i as int], k as nat, beta as nat, count as nat).subrange(0, j as int),
                credited(r@).no_duplicates(),
                forall|y: u64| before.contains(y) ==> !ms[i as int].contains(y),
                ids@.len() == ms[i as int].len(),
                is_antichain(ms.to_set()),
                ms.no_duplicates(),
                large_members(ms).len() <= 1,
                count <= 1,
                count == 1 ==> k + beta <= u && k <= u,
                forall|a: int| 0 <= a < ms.len() ==> (#[trigger] ms[a]).finite(),
                forall|jj: int|
                    0 <= jj < r@.len() ==> linear_share_ok(
                        syns@,
                        #[trigger] r@[jj],
                        k as nat,
                        beta as nat,
                        count as nat,
                    ),
            decreases ids.len() - j,
        {
            let x = ids[j];
            let ghost old_credited = credited(r@);
            proof {
                assert(ms[i as int].contains(x)) by {
                    assert(ids@.contains(x));
                }
                assert(beta * u <= 0xffff_ffff_ffff_ffff_ffff_ffff_ffff_ffffu128) by (nonlinear_arith)
                    requires
                        beta <= 0xffff_ffff_ffff_ffffu64,
                        u <= 0xffff_ffff_ffff_ffffu64;
            }
            assert(k * count <= unit) by (nonlinear_arith)
                requires
                    count <= 1,
                    count == 1 ==> k <= unit;
            let share = if ids.len() == 1 {
                proof {
                    assert(ms[i as int] =~= Set::empty().insert(x)) by {
                        assert forall|y: u64| ids@.contains(y) implies y == x by {
                            let q = choose|q: int| 0 <= q < ids@.len() && ids@[q] == y;
                        }
                    }
                    assert(ms.to_set().contains(ms[i as int]));
                }
                Share {
                    seller: SellerId(x),
                    num: (unit - (k * count) as u128) as i128,
                    den: (beta as u128) * unit,
                }
            } else {
                proof {
                    if ms.to_set().contains(Set::empty().insert(x)) {
                        let b = choose|b: int| 0 <= b < ms.len() && ms[b] == Set::empty().insert(x);
                        assert(Set::<u64>::empty().insert(x).len() == 1);
                        assert(b != i);
                        assert(ms[b].contains(x));
                        lemma_linear_disjoint(ms, b, i as int, x);
                    }
                }
                Share { seller: SellerId(x), num: 1, den: unit }
            };
            let ghost r_before = r@;
            r.push(share);
            proof {
                let lm = linear_member_shares(ms[i as int], k as nat, beta as nat, count as nat);
                assert(lm[j as int] == share);
                assert(lm.subrange(0, j + 1) =~= lm.subrange(0, j as int).push(share));
                assert(r@ =~= r_before.push(share));
                assert(credited(r@) =~= old_credited.push(x));
                assert(ids@.subrange(0, j + 1) =~= ids@.subrange(0, j as int).push(x));
                assert(!old_credited.contains(x)) by {
                    if old_credited.contains(x) {
                        let q = choose|q: int| 0 <= q < old_credited.len() && old_credited[q] == x;
                        if q < before.len() {
                            assert(before.contains(x));
                        } else {
                            assert(ids@[q - before.len()] == x);
                            assert(ids@[j as int] == x);
                        }
                    }
                }
            }
            j += 1;
        }
        proof {
            assert(ids@.subrange(0, ids@.len() as int) =~= ids@);
            let lm = linear_member_shares(ms[i as int], k as nat, beta as nat, count as nat);
            assert(lm.subrange(0, ids@.len() as int) =~= lm);
            assert(credited(r@).to_set() =~= Set::new(
                |x: u64| exists|a: int| 0 <= a < i + 1 && (#[trigger] ms[a]).contains(x),
            )) by {
                assert forall|x: u64| credited(r@).contains(x) <==> exists|a: int| 0 <= a < i + 1 && (#[trigger] ms[a]).contains(x) by {
                    if credited(r@).contains(x) {
                        let q = choose|q: int| 0 <= q < credited(r@).len() && credited(r@)[q] == x;
                        if q < before.len() {
                            assert(before.contains(x));
                            assert(before.to_set().contains(x));
                        } else {
                            assert(ids@.contains(x));
                        }
                    }
                    if exists|a: int| 0 <= a < i + 1 && (#[trigger] ms[a]).contains(x) {
                        let a = choose|a: int| 0 <= a < i + 1 && (#[trigger] ms[a]).contains(x);
                        if a < i {
                            assert(before.to_set().contains(x));
                            let q = choose|q: int| 0 <= q < before.len() && before[q] == x;
                            assert(credited(r@)[q] == x);
                        } else {
                            assert(ids@.to_set().contains(x));
                            let q = choose|q: int| 0 <= q < ids@.len() && ids@[q] == x;
                            assert(credited(r@)[before.len() + q] == x);
                        }
                    }
                }
            }
        }
        i += 1;
    }
    proof {
        assert(credited(r@).to_set() =~= sellers_of(syns@)) by {
            assert forall|x: u64| #[trigger] sellers_of(syns@).contains(x) implies credited(r@).to_set().contains(x) by {
                let m = choose|m: Set<u64>| syns@.contains(m) && m.contains(x);
                let a = choose|a: int| 0 <= a < ms.len() && ms[a] == m;
            }
        }
    }
    r
}

/// The weight of the cost model that picks between the two exact
/// procedures, as the fraction `num / den`.
#[derive(Debug, Clone, Copy, PartialEq, Eq, Structural)]
pub struct Scale {
    pub num: u64,
    pub den: u64,
}

/// The members that hold seller `s`.
pub open spec fn with_seller(ms: Seq<Set<u64>>, s: u64) -> Seq<Set<u64>> {
    ms.filter(|m: Set<u64>| m.contains(s))
}

/// The members that do not hold seller `s`.
pub open spec fn without_seller(ms: Seq<Set<u64>>, s: u64) -> Seq<Set<u64>> {
    ms.filter(|m: Set<u64>| !m.contains(s))
}

/// The cost estimate: the product of both family sizes, or the size of the
/// one that is not empty.
pub open spec fn pow_count(w: nat, v: nat) -> nat {
    if w == 0 {
        v
    } else if v == 0 {
        w
    } else {
        w * v
    }
}

/// Lookup is chosen when the number of sellers is at most `scale` times the
/// cost estimate.
pub open spec fn prefers_lookup(n: nat, pow: nat, scale: Scale) -> bool {
    n * scale.den <= scale.num * pow
}

/// What the lookup procedure credits seller `s`.
pub open spec fn lookup_shares(ws: Seq<Set<u64>>, vs: Seq<Set<u64>>, ids: Seq<u64>, s: u64) -> Seq<Share> {
    Seq::new(
        (others(ids, s).len() + 1) as nat,
        |c: int|
            Share {
                seller: SellerId(s),
                num: flip_count(other_subsets(ids, s), ws, vs, s, c as nat) as i128,
                den: (ids.len() * binomial(others(ids, s).len(), c as nat)) as u128,
            },
    )
}

/// What the inclusion-exclusion procedure credits seller `s`.
pub open spec fn comb_shares(ws: Seq<Set<u64>>, vs: Seq<Set<u64>>, s: u64) -> Seq<Share> {
    Seq::new(
        comb_len(ws, vs),
        |i: int| Share { seller: SellerId(s), num: comb_coef(ws, vs, (i + 1) as nat) as i128, den: (i + 1) as u128 },
    )
}

/// Whether seller `s` of a row with sellers `ids` is solved by lookup: the
/// cost model prefers it.
pub open spec fn solved_by_lookup(ms: Seq<Set<u64>>, ids: Seq<u64>, s: u64, scale: Scale) -> bool {
    prefers_lookup(
        ids.len(),
        pow_count(with_seller(ms, s).len(), without_seller(ms, s).len()),
        scale,
    )
}

/// Every seller that the cost model sends to lookup has denominators that
/// fit in `u128`.
pub open spec fn lookups_fit(ms: Seq<Set<u64>>, ids: Seq<u64>, scale: Scale) -> bool {
    forall|i: int|
        0 <= i < ids.len() && solved_by_lookup(ms, ids, #[trigger] ids[i], scale) ==> lookup_fits(
            ids.len(),
            others(ids, ids[i]).len(),
        )
}

/// What seller `s` of a row with members `ms` and sellers `ids` receives.
pub open spec fn seller_shares(ms: Seq<Set<u64>>, ids: Seq<u64>, s: u64, scale: Scale) -> Seq<Share> {
    let ws = with_seller(ms, s);
    let vs = without_seller(ms, s);
    if solved_by_lookup(ms, ids, s, scale) {
        lookup_shares(ws, vs, ids, s)
    } else {
        comb_shares(ws, vs, s)
    }
}

/// The shares of the first `k` sellers of `ids`, one seller after another.
pub open spec fn shares_upto(ms: Seq<Set<u64>>, ids: Seq<u64>, k: nat, scale: Scale) -> Seq<Share>
    decreases k,
{
    if k == 0 {
        Seq::empty()
    } else {
        shares_upto(ms, ids, (k - 1) as nat, scale) + seller_shares(ms, ids, ids[k - 1], scale)
    }
}

/// How many of the first `k` sellers of `ids` are solved by lookup.
pub open spec fn lookups_upto(ms: Seq<Set<u64>>, ids: Seq<u64>, k: nat, scale: Scale) -> nat
    decreases k,
{
    if k == 0 {
        0
    } else {
        lookups_upto(ms, ids, (k - 1) as nat, scale) + if solved_by_lookup(ms, ids, ids[k - 1], scale) {
            1nat
        } else {
            0nat
        }
    }
}

proof fn lemma_partition_push(ms: Seq<Set<u64>>, j: int, s: u64)
    requires
        0 <= j < ms.len(),
    ensures
        with_seller(ms.subrange(0, j + 1), s) == if ms[j].contains(s) {
            with_seller(ms.subrange(0, j), s).push(ms[j])
        } else {
            with_seller(ms.subrange(0, j), s)
        },
        without_seller(ms.subrange(0, j + 1), s) == if !ms[j].contains(s) {
            without_seller(ms.subrange(0, j), s).push(ms[j])
        } else {
            without_seller(ms.subrange(0, j), s)
        },
{
    reveal(Seq::filter);
    assert(ms.subrange(0, j + 1).drop_last() =~= ms.subrange(0, j));
    assert(ms.subrange(0, j + 1).last() == ms[j]);
}

/// Shares for a synthesis with no closed form: for each seller of the row in
/// increasing order, the members are split by whether they hold the seller
/// and one of the two exact procedures is run, as the cost model picks.
/// Also returns how many sellers went to lookup and how many to
/// inclusion-exclusion. The sellers sent to lookup must have denominators
/// that fit in `u128` (rows of up to 126 sellers).
pub fn cal_sv_non_linear(syns: &Synthesis, scale: Scale) -> (r: (Vec<Share>, usize, usize))
    requires
        lookups_fit(syns.members(), ordered(sellers_of(syns@)), scale),
    ensures
        r.0@ == shares_upto(
            syns.members(),
            ordered(sellers_of(syns@)),
            ordered(sellers_of(syns@)).len(),
            scale,
        ),
        r.1 == lookups_upto(
            syns.members(),
            ordered(sellers_of(syns@)),
            ordered(sellers_of(syns@)).len(),
            scale,
        ),
        r.1 + r.2 == ordered(sellers_of(syns@)).len(),
{
    let ghost ms = syns.members();
    let sellers = syns.unique_sellers();
    let ids = sellers.ids();
    let n = sellers.len();
    let members = syns.to_vec();
    let mut r: Vec<Share> = Vec::new();
    let mut lookup_count: usize = 0;
    let mut comb_count: usize = 0;
    let mut i: usize = 0;
    while i < ids.len()
        invariant
            i <= ids@.len(),
            ids@ == ordered(sellers_of(syns@)),
            ids@ == sellers.seq(),
            n == ids@.len(),
            n == sellers@.len(),
            views(members@) == ms,
            ms == syns.members(),
            r@ == shares_upto(ms, ids@, i as nat, scale),
            lookups_fit(ms, ids@, scale),
            lookup_count == lookups_upto(ms, ids@, i as nat, scale),
            lookup_count + comb_count == i,
        decreases ids.len() - i,
    {
        let seller = SellerId(ids[i]);
        let ghost s = ids@[i as int];
        let mut with: Vec<SellerSet> = Vec::new();
        let mut without: Vec<SellerSet> = Vec::new();
        let mut j: usize = 0;
        assert(with_seller(ms.subrange(0, 0), s) =~= Seq::<Set<u64>>::empty()) by {
            reveal(Seq::filter);
        }
        assert(without_seller(ms.subrange(0, 0), s) =~= Seq::<Set<u64>>::empty()) by {
            reveal(Seq::filter);
        }
        while j < members.len()
            invariant
                j <= members@.len(),
                views(members@) == ms,
                s == seller.0,
                views(with@) == with_seller(ms.subrange(0, j as int), s),
                views(without@) == without_seller(ms.subrange(0, j as int), s),
            decreases members.len() - j,
        {
            proof {
                lemma_partition_push(ms, j as int, s);
            }
            let ghost w0 = views(with@);
            let ghost v0 = views(without@);
            if members[j].contains(seller) {
                with.push(members[j].copy());
                assert(views(with@) =~= w0.push(ms[j as int]));
            } else {
                without.push(members[j].copy());
                assert(views(without@) =~= v0.push(ms[j as int]));
            }
            j += 1;
        }
        assert(ms.subrange(0, ms.len() as int) =~= ms);
        let wl = with.len() as u128;
        let vl = without.len() as u128;
        proof {
            assert(wl * vl <= 0xffff_ffff_ffff_ffff_ffff_ffff_ffff_ffffu128) by (nonlinear_arith)
                requires
                    wl <= 0xffff_ffff_ffff_ffffu64,
                    vl <= 0xffff_ffff_ffff_ffffu64;
            assert((n as u128) * (scale.den as u128) <= 0xffff_ffff_ffff_ffff_ffff_ffff_ffff_ffffu128) by (nonlinear_arith)
                requires
                    n <= 0xffff_ffff_ffff_ffffu64,
                    scale.den <= 0xffff_ffff_ffff_ffffu64;
        }
        let pow: u128 = if wl == 0 {
            vl
        } else if vl == 0 {
            wl
        } else {
            wl * vl
        };
        let need = (n as u128) * (scale.den as u128);
        let use_lookup = match (scale.num as u128).checked_mul(pow) {
            Some(budget) => need <= budget,
            None => true,
        };
        assert(use_lookup == solved_by_lookup(ms, ids@, s, scale));
        let mut part = if use_lookup {
            assert(ids@[i as int] == s);
            assert(solved_by_lookup(ms, ids@, ids@[i as int], scale));
            assert(lookup_fits(ids@.len(), others(ids@, s).len()));
            let p = cal_sv_non_linear_lookup(&with, &without, &sellers, seller);
            assert(p@ =~= lookup_shares(views(with@), views(without@), ids@, s));
            lookup_count += 1;
            p
        } else {
            let p = cal_sv_non_linear_comb(&with, &without, seller);
            assert(p@ =~= comb_shares(views(with@), views(without@), s));
            comb_count += 1;
            p
        };
        let ghost r0 = r@;
        r.append(&mut part);
        assert(r@ =~= shares_upto(ms, ids@, (i + 1) as nat, scale)) by {
            assert(r@ == r0 + seller_shares(ms, ids@, s, scale));
        }
        i += 1;
    }
    (r, lookup_count, comb_count)
}

} // verus!
