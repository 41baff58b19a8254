use crate::seller::{SellerId, SellerSet};
use crate::subsets::{lemma_unions_len, max_size, signed_count, signed_counts, sub_unions, two_to, unions_of};
use crate::synthesis::{views, Synthesis};
use crate::synthesis_sv::Share;
use vstd::prelude::*;

verus! {

proof fn lemma_two_to_pos(n: nat)
    ensures
        two_to(n) >= 1,
    decreases n,
{
    if n > 0 {
        lemma_two_to_pos((n - 1) as nat);
    }
}

/// The union of each of `ws` with each of `vs`, `ws` in the outer order.
pub open spec fn pair_unions(ws: Seq<Set<u64>>, vs: Seq<Set<u64>>) -> Seq<Set<u64>>
    decreases ws.len(),
{
    if ws.len() == 0 {
        Seq::empty()
    } else {
        pair_unions(ws.drop_last(), vs) + vs.map_values(|v: Set<u64>| ws.last().union(v))
    }
}

/// `s` without repetitions, first occurrences kept in order.
pub open spec fn dedup(s: Seq<Set<u64>>) -> Seq<Set<u64>>
    decreases s.len(),
{
    if s.len() == 0 {
        s
    } else {
        let d = dedup(s.drop_last());
        if d.contains(s.last()) {
            d
        } else {
            d.push(s.last())
        }
    }
}

/// The distinct unions of a member with the seller and one without.
pub open spec fn interactions(ws: Seq<Set<u64>>, vs: Seq<Set<u64>>) -> Seq<Set<u64>> {
    dedup(pair_unions(ws, vs))
}

/// The coefficient of `1 / c` in the seller's value: inclusion-exclusion
/// over the members with the seller minus that over the interactions.
pub open spec fn comb_coef(ws: Seq<Set<u64>>, vs: Seq<Set<u64>>, c: nat) -> int {
    signed_count(unions_of(ws), c) - signed_count(unions_of(interactions(ws, vs)), c)
}

fn interaction_list(with: &Vec<SellerSet>, without: &Vec<SellerSet>) -> (r: Vec<SellerSet>)
    ensures
        views(r@) == interactions(views(with@), views(without@)),
{
    let ghost ws = views(with@);
    let ghost vs = views(without@);
    let mut inter = Synthesis::empty();
    let mut a: usize = 0;
    assert(inter.members() =~= dedup(pair_unions(ws.subrange(0, 0), vs)));
    while a < with.len()
        invariant
            a <= with@.len(),
            ws == views(with@),
            vs == views(without@),
            inter.members() == dedup(pair_unions(ws.subrange(0, a as int), vs)),
        decreases with.len() - a,
    {
        let ghost w = ws[a as int];
        let ghost base = pair_unions(ws.subrange(0, a as int), vs);
        let mut b: usize = 0;
        assert(base + vs.subrange(0, 0).map_values(|v: Set<u64>| w.union(v)) =~= base);
        while b < without.len()
            invariant
                a < with@.len(),
                b <= without@.len(),
                ws == views(with@),
                vs == views(without@),
                w == ws[a as int],
                inter.members() == dedup(
                    base + vs.subrange(0, b as int).map_values(|v: Set<u64>| w.union(v)),
                ),
            decreases without.len() - b,
        {
            let u = with[a].union(&without[b]);
            let ghost prefix = base + vs.subrange(0, b as int).map_values(|v: Set<u64>| w.union(v));
            let ghost next = base + vs.subrange(0, b + 1).map_values(|v: Set<u64>| w.union(v));
            proof {
                assert(next.drop_last() =~= prefix);
                assert(next.last() == u@);
            }
            inter.insert(u);
            b += 1;
        }
        proof {
            let pre = ws.subrange(0, a + 1);
            assert(pre.drop_last() =~= ws.subrange(0, a as int));
            assert(vs.subrange(0, vs.len() as int) =~= vs);
        }
        a += 1;
    }
    assert(ws.subrange(0, ws.len() as int) =~= ws);
    inter.to_vec()
}

/// How many shares the inclusion-exclusion procedure produces: the largest
/// union size over both families.
pub open spec fn comb_len(ws: Seq<Set<u64>>, vs: Seq<Set<u64>>) -> nat {
    let a = max_size(unions_of(ws));
    let b = max_size(unions_of(interactions(ws, vs)));
    if a > b {
        a
    } else {
        b
    }
}

/// The seller's value by inclusion-exclusion: share `i` credits
/// `comb_coef(.., i + 1) / (i + 1)`, and every larger size has coefficient 0.
pub fn cal_sv_non_linear_comb(
    syns_with_current_seller: &Vec<SellerSet>,
    syns_without_current_seller: &Vec<SellerSet>,
    seller: SellerId,
) -> (r: Vec<Share>)
    ensures
        r@.len() == comb_len(views(syns_with_current_seller@), views(syns_without_current_seller@)),
        forall|i: int|
            0 <= i < r@.len() ==> #[trigger] r@[i] == (Share {
                seller,
                num: comb_coef(
                    views(syns_with_current_seller@),
                    views(syns_without_current_seller@),
                    (i + 1) as nat,
                ) as i128,
                den: (i + 1) as u128,
            }),
        forall|c: nat|
            c > r@.len() ==> comb_coef(
                views(syns_with_current_seller@),
                views(syns_without_current_seller@),
                c,
            ) == 0,
{
    let ghost ws = views(syns_with_current_seller@);
    let ghost vs = views(syns_without_current_seller@);
    let with_unions = sub_unions(syns_with_current_seller);
    let cw = signed_counts(&with_unions);
    let inter = interaction_list(syns_with_current_seller, syns_without_current_seller);
    let inter_unions = sub_unions(&inter);
    let ci = signed_counts(&inter_unions);
    let top = if cw.len() > ci.len() {
        cw.len()
    } else {
        ci.len()
    };
    proof {
        lemma_unions_len(ws);
        lemma_unions_len(interactions(ws, vs));
        lemma_two_to_pos(ws.len());
        lemma_two_to_pos(interactions(ws, vs).len());
    }
    let lw = with_unions.len();
    let li = inter_unions.len();
    let mut r: Vec<Share> = Vec::new();
    let mut c: usize = 1;
    while c < top
        invariant
            1 <= c <= top,
            r@.len() == c - 1,
            top == if cw@.len() > ci@.len() { cw@.len() } else { ci@.len() },
            cw@.len() == max_size(unions_of(ws)) + 1,
            ci@.len() == max_size(unions_of(interactions(ws, vs))) + 1,
            ws == views(syns_with_current_seller@),
            vs == views(syns_without_current_seller@),
            top >= cw@.len(),
            top >= ci@.len(),
            lw == with_unions@.len(),
            li == inter_unions@.len(),
            forall|x: int| 0 <= x < cw@.len() ==> cw@[x] == signed_count(unions_of(ws), x as nat),
            forall|x: nat| x >= cw@.len() ==> signed_count(unions_of(ws), x) == 0,
            forall|x: int| 0 <= x < cw@.len() ==> -with_unions@.len() <= #[trigger] cw@[x] <= with_unions@.len(),
            forall|x: int| 0 <= x < ci@.len() ==> ci@[x] == signed_count(unions_of(interactions(ws, vs)), x as nat),
            forall|x: nat| x >= ci@.len() ==> signed_count(unions_of(interactions(ws, vs)), x) == 0,
            forall|x: int| 0 <= x < ci@.len() ==> -inter_unions@.len() <= #[trigger] ci@[x] <= inter_unions@.len(),
            forall|i: int|
                0 <= i < r@.len() ==> #[trigger] r@[i] == (Share {
                    seller,
                    num: comb_coef(ws, vs, (i + 1) as nat) as i128,
                    den: (i + 1) as u128,
                }),
        decreases top - c,
    {
        let w: i128 = if c < cw.len() {
            cw[c]
        } else {
            0
        };
        let v: i128 = if c < ci.len() {
            ci[c]
        } else {
            0
        };
        assert(-lw <= w <= lw && -li <= v <= li);
        r.push(Share { seller, num: w - v, den: c as u128 });
        c += 1;
    }
    r
}

} // verus!
