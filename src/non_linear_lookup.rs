use crate::seller::{SellerId, SellerSet};
use crate::subsets::{entry_views, grow, unions_of};
use crate::synthesis::views;
use crate::synthesis_sv::Share;
use crate::utils::{binomial, binomial_row};
use vstd::prelude::*;

verus! {

/// The identifiers of `ids` other than `s`, in order.
pub open spec fn others(ids: Seq<u64>, s: u64) -> Seq<u64> {
    ids.filter(|x: u64| x != s)
}

/// One single-seller coalition for each identifier.
pub open spec fn singletons(xs: Seq<u64>) -> Seq<Set<u64>> {
    xs.map_values(|x: u64| Set::empty().insert(x))
}

/// Some member of `fam` is a subset of `t`.
pub open spec fn explained_by(fam: Seq<Set<u64>>, t: Set<u64>) -> bool {
    exists|i: int| 0 <= i < fam.len() && (#[trigger] fam[i]).subset_of(t)
}

/// Adding `s` to `t` turns the row from unexplained to explained: a member
/// with `s` fits in `t` plus `s`, and no member without `s` fits in `t`.
pub open spec fn flips(ws: Seq<Set<u64>>, vs: Seq<Set<u64>>, s: u64, t: Set<u64>) -> bool {
    explained_by(ws, t.insert(s)) && !explained_by(vs, t)
}

/// How many entries take `c` members and flip.
pub open spec fn flip_count(
    list: Seq<(Set<u64>, nat)>,
    ws: Seq<Set<u64>>,
    vs: Seq<Set<u64>>,
    s: u64,
    c: nat,
) -> nat
    decreases list.len(),
{
    if list.len() == 0 {
        0
    } else {
        let e = list.last();
        flip_count(list.drop_last(), ws, vs, s, c) + if e.1 == c && flips(ws, vs, s, e.0) {
            1nat
        } else {
            0nat
        }
    }
}

/// The subsets of the other sellers, as unions of single-seller coalitions.
pub open spec fn other_subsets(ids: Seq<u64>, s: u64) -> Seq<(Set<u64>, nat)> {
    unions_of(singletons(others(ids, s)))
}

proof fn lemma_filter_push(s: Seq<u64>, i: int, x: u64)
    requires
        0 <= i < s.len(),
    ensures
        others(s.subrange(0, i + 1), x) == if s[i] != x {
            others(s.subrange(0, i), x).push(s[i])
        } else {
            others(s.subrange(0, i), x)
        },
{
    reveal(Seq::filter);
    assert(s.subrange(0, i + 1).drop_last() =~= s.subrange(0, i));
    assert(s.subrange(0, i + 1).last() == s[i]);
}

/// The lookup's denominators `n * C(r, c)` all fit in `u128`.
pub open spec fn lookup_fits(n: nat, r: nat) -> bool {
    forall|c: nat| c <= r ==> n * #[trigger] binomial(r, c) <= u128::MAX
}

/// The entries whose union does not already hold a member of `vs`.
pub open spec fn prune(list: Seq<(Set<u64>, nat)>, vs: Seq<Set<u64>>) -> Seq<(Set<u64>, nat)> {
    list.filter(|e: (Set<u64>, nat)| !explained_by(vs, e.0))
}

/// `unions_of`, generation by generation, dropping at each generation the
/// unions that already hold a member of `vs`: no extension of those can
/// flip, so they are not grown further.
pub open spec fn pruned_unions(fam: Seq<Set<u64>>, vs: Seq<Set<u64>>) -> Seq<(Set<u64>, nat)>
    decreases fam.len(),
{
    if fam.len() == 0 {
        prune(seq![(Set::<u64>::empty(), 0nat)], vs)
    } else {
        let p = pruned_unions(fam.drop_last(), vs);
        prune(p + grow(p, fam.last()), vs)
    }
}

proof fn lemma_prune_push(l: Seq<(Set<u64>, nat)>, e: (Set<u64>, nat), vs: Seq<Set<u64>>)
    ensures
        prune(l.push(e), vs) == if !explained_by(vs, e.0) {
            prune(l, vs).push(e)
        } else {
            prune(l, vs)
        },
{
    reveal(Seq::filter);
    assert(l.push(e).drop_last() =~= l);
}

proof fn lemma_prune_add(a: Seq<(Set<u64>, nat)>, b: Seq<(Set<u64>, nat)>, vs: Seq<Set<u64>>)
    ensures
        prune(a + b, vs) == prune(a, vs) + prune(b, vs),
{
    Seq::filter_distributes_over_add(a, b, |e: (Set<u64>, nat)| !explained_by(vs, e.0));
}

proof fn lemma_prune_idempotent(l: Seq<(Set<u64>, nat)>, vs: Seq<Set<u64>>)
    ensures
        prune(prune(l, vs), vs) == prune(l, vs),
    decreases l.len(),
{
    if l.len() > 0 {
        lemma_prune_idempotent(l.drop_last(), vs);
        assert(l =~= l.drop_last().push(l.last()));
        lemma_prune_push(l.drop_last(), l.last(), vs);
        if !explained_by(vs, l.last().0) {
            lemma_prune_push(prune(l.drop_last(), vs), l.last(), vs);
        }
    } else {
        reveal(Seq::filter);
    }
}

proof fn lemma_prune_grow(p: Seq<(Set<u64>, nat)>, x: Set<u64>, vs: Seq<Set<u64>>)
    ensures
        prune(grow(prune(p, vs), x), vs) == prune(grow(p, x), vs),
    decreases p.len(),
{
    if p.len() == 0 {
        reveal(Seq::filter);
        assert(grow(p, x) =~= Seq::<(Set<u64>, nat)>::empty());
        assert(grow(prune(p, vs), x) =~= Seq::<(Set<u64>, nat)>::empty());
    } else {
        let q = p.drop_last();
        let e = p.last();
        let g = (e.0.union(x), e.1 + 1);
        lemma_prune_grow(q, x, vs);
        assert(p =~= q.push(e));
        lemma_prune_push(q, e, vs);
        assert(grow(p, x) =~= grow(q, x).push(g));
        lemma_prune_push(grow(q, x), g, vs);
        if !explained_by(vs, e.0) {
            assert(grow(prune(p, vs), x) =~= grow(prune(q, vs), x).push(g));
            lemma_prune_push(grow(prune(q, vs), x), g, vs);
        } else {
            let i = choose|i: int| 0 <= i < vs.len() && (#[trigger] vs[i]).subset_of(e.0);
            assert(vs[i].subset_of(g.0));
        }
    }
}

/// Pruning as it goes gives the full list with the pruned entries dropped.
proof fn lemma_pruned_unions(fam: Seq<Set<u64>>, vs: Seq<Set<u64>>)
    ensures
        pruned_unions(fam, vs) == prune(unions_of(fam), vs),
    decreases fam.len(),
{
    if fam.len() > 0 {
        let u = unions_of(fam.drop_last());
        lemma_pruned_unions(fam.drop_last(), vs);
        let p = prune(u, vs);
        lemma_prune_add(p, grow(p, fam.last()), vs);
        lemma_prune_idempotent(u, vs);
        lemma_prune_grow(u, fam.last(), vs);
        lemma_prune_add(u, grow(u, fam.last()), vs);
    }
}

/// Dropped entries never flip, so pruning keeps every count.
proof fn lemma_prune_flip_count(
    l: Seq<(Set<u64>, nat)>,
    ws: Seq<Set<u64>>,
    vs: Seq<Set<u64>>,
    s: u64,
    c: nat,
)
    ensures
        flip_count(prune(l, vs), ws, vs, s, c) == flip_count(l, ws, vs, s, c),
    decreases l.len(),
{
    if l.len() == 0 {
        reveal(Seq::filter);
    } else {
        lemma_prune_flip_count(l.drop_last(), ws, vs, s, c);
        assert(l =~= l.drop_last().push(l.last()));
        lemma_prune_push(l.drop_last(), l.last(), vs);
        if !explained_by(vs, l.last().0) {
            let pl = prune(l.drop_last(), vs).push(l.last());
            assert(pl.drop_last() =~= prune(l.drop_last(), vs));
        }
    }
}

/// Generation by generation over `fam`, keeping only the unions that hold no
/// member of `without`.
#[verifier::rlimit(50)]
pub fn pruned_sub_unions(fam: &Vec<SellerSet>, without: &Vec<SellerSet>) -> (r: Vec<(SellerSet, usize)>)
    ensures
        entry_views(r@) == pruned_unions(views(fam@), views(without@)),
        forall|q: int| 0 <= q < r@.len() ==> (#[trigger] r@[q]).1 <= fam@.len(),
{
    let ghost vs = views(without@);
    let mut list: Vec<(SellerSet, usize)> = Vec::new();
    let empty = SellerSet::new();
    let skip = explained(without, &empty);
    proof {
        lemma_prune_push(Seq::empty(), (Set::<u64>::empty(), 0nat), vs);
        reveal(Seq::filter);
        assert(seq![(Set::<u64>::empty(), 0nat)] =~= Seq::<(Set<u64>, nat)>::empty().push(
            (Set::<u64>::empty(), 0nat),
        ));
    }
    if !skip {
        list.push((empty, 0));
    }
    assert(entry_views(list@) =~= pruned_unions(views(fam@.subrange(0, 0)), vs));
    let n = fam.len();
    let mut t: usize = 0;
    while t < n
        invariant
            n == fam@.len(),
            t <= n,
            vs == views(without@),
            entry_views(list@) == pruned_unions(views(fam@.subrange(0, t as int)), vs),
            forall|q: int| 0 <= q < list@.len() ==> (#[trigger] list@[q]).1 <= t,
        decreases n - t,
    {
        let ghost prev = entry_views(list@);
        let ghost m = fam@[t as int]@;
        let len = list.len();
        let mut q: usize = 0;
        proof {
            reveal(Seq::filter);
            assert(grow(prev.subrange(0, 0), m) =~= Seq::<(Set<u64>, nat)>::empty());
            assert(prev + prune(grow(prev.subrange(0, 0), m), vs) =~= prev);
        }
        while q < len
            invariant
                t < n,
                n == fam@.len(),
                m == fam@[t as int]@,
                vs == views(without@),
                q <= len,
                len == prev.len(),
                len <= list@.len(),
                entry_views(list@) == prev + prune(grow(prev.subrange(0, q as int), m), vs),
                forall|p: int| 0 <= p < list@.len() ==> (#[trigger] list@[p]).1 <= t + 1,
                forall|p: int| 0 <= p < len ==> (#[trigger] list@[p]).1 <= t,
            decreases len - q,
        {
            assert(list@[q as int].1 <= t);
            let u = list[q].0.union(&fam[t]);
            let c = list[q].1 + 1;
            let ghost old_ev = entry_views(list@);
            proof {
                assert(old_ev[q as int] == prev[q as int]);
                assert(grow(prev.subrange(0, q + 1), m) =~= grow(prev.subrange(0, q as int), m).push(
                    (prev[q as int].0.union(m), prev[q as int].1 + 1),
                ));
                lemma_prune_push(grow(prev.subrange(0, q as int), m), (u@, c as nat), vs);
            }
            let drop = explained(without, &u);
            if !drop {
                list.push((u, c));
                assert(entry_views(list@) =~= old_ev.push((u@, c as nat)));
            }
            assert(entry_views(list@) =~= prev + prune(grow(prev.subrange(0, q + 1), m), vs));
            q += 1;
        }
        proof {
            let pre = views(fam@.subrange(0, t + 1));
            assert(pre.drop_last() =~= views(fam@.subrange(0, t as int)));
            assert(pre.last() == m);
            assert(prev.subrange(0, len as int) =~= prev);
            let pp = pruned_unions(views(fam@.subrange(0, t as int)), vs);
            if t == 0 {
                lemma_prune_idempotent(seq![(Set::<u64>::empty(), 0nat)], vs);
            } else {
                let pd = views(fam@.subrange(0, t as int));
                let ppd = pruned_unions(pd.drop_last(), vs);
                lemma_prune_idempotent(ppd + grow(ppd, pd.last()), vs);
            }
            assert(prune(prev, vs) == prev);
            lemma_prune_add(prev, grow(prev, m), vs);
        }
        t += 1;
    }
    assert(fam@.subrange(0, n as int) =~= fam@);
    list
}

/// Whether some member of `fam` is a subset of `t`.
pub fn explained(fam: &Vec<SellerSet>, t: &SellerSet) -> (r: bool)
    ensures
        r == explained_by(views(fam@), t@),
{
    let mut i: usize = 0;
    while i < fam.len()
        invariant
            i <= fam@.len(),
            forall|j: int| 0 <= j < i ==> !(#[trigger] views(fam@)[j]).subset_of(t@),
        decreases fam.len() - i,
    {
        if fam[i].is_subset(t) {
            assert(views(fam@)[i as int].subset_of(t@));
            return true;
        }
        i += 1;
    }
    false
}

/// The seller's value by enumerating the subsets of the other sellers: share
/// `c` credits the number of size-`c` subsets on which the seller turns the
/// row from unexplained to explained, over `n * C(n - 1, c)`. Subsets that
/// already hold a member without the seller are not extended further, as no
/// extension of them can turn the row. The one limit is the type of the
/// shares: every denominator `n * C(n - 1, c)` must fit in `u128`, which
/// holds for rows of up to 126 sellers.
pub fn cal_sv_non_linear_lookup(
    syns_with_current_seller: &Vec<SellerSet>,
    syns_without_current_seller: &Vec<SellerSet>,
    sellers: &SellerSet,
    seller: SellerId,
) -> (r: Vec<Share>)
    requires
        lookup_fits(sellers@.len(), others(sellers.seq(), seller.0).len()),
    ensures
        r@.len() == others(sellers.seq(), seller.0).len() + 1,
        forall|c: int|
            0 <= c < r@.len() ==> #[trigger] r@[c] == (Share {
                seller,
                num: flip_count(
                    other_subsets(sellers.seq(), seller.0),
                    views(syns_with_current_seller@),
                    views(syns_without_current_seller@),
                    seller.0,
                    c as nat,
                ) as i128,
                den: (sellers@.len() * binomial(
                    others(sellers.seq(), seller.0).len(),
                    c as nat,
                )) as u128,
            }),
{
    let ghost ws = views(syns_with_current_seller@);
    let ghost vs = views(syns_without_current_seller@);
    let ghost s = seller.0;
    let n = sellers.len();
    let ids = sellers.ids();
    let mut rest: Vec<SellerSet> = Vec::new();
    let mut i: usize = 0;
    assert(ids@.subrange(0, 0).filter(|x: u64| x != s) =~= Seq::<u64>::empty()) by {
        reveal(Seq::filter);
    }
    while i < ids.len()
        invariant
            i <= ids@.len(),
            ids@ == sellers.seq(),
            views(rest@) == singletons(others(ids@.subrange(0, i as int), s)),
            s == seller.0,
        decreases ids.len() - i,
    {
        proof {
            lemma_filter_push(ids@, i as int, s);
        }
        if ids[i] != seller.0 {
            let mut one = SellerSet::new();
            one.insert(SellerId(ids[i]));
            let ghost old_views = views(rest@);
            rest.push(one);
            assert(views(rest@) =~= old_views.push(Set::empty().insert(ids@[i as int])));
            assert(views(rest@) =~= singletons(others(ids@.subrange(0, i + 1), s)));
        } else {
            assert(views(rest@) =~= singletons(others(ids@.subrange(0, i + 1), s)));
        }
        i += 1;
    }
    assert(ids@.subrange(0, ids@.len() as int) =~= ids@);
    let r_len = rest.len();
    proof {
        ids@.lemma_filter_len(|x: u64| x != s);
        assert forall|c: nat| c <= r_len implies #[trigger] binomial(r_len as nat, c) <= u128::MAX by {
            assert(r_len == others(sellers.seq(), s).len());
            assert(n * binomial(r_len as nat, c) <= u128::MAX);
            if n == 0 {
                assert(r_len == 0);
            } else {
                assert(binomial(r_len as nat, c) <= n * binomial(r_len as nat, c)) by (nonlinear_arith)
                    requires
                        n >= 1;
            }
        }
    }
    let row = binomial_row(r_len);
    let row_len = row.len();
    let ghost fam = views(rest@);
    let list = pruned_sub_unions(&rest, syns_without_current_seller);
    let ghost ev = entry_views(list@);
    let total = list.len();
    proof {
        lemma_pruned_unions(fam, vs);
        assert(fam.len() == others(sellers.seq(), s).len());
        assert forall|i: int| 0 <= i < ev.len() implies (#[trigger] ev[i]).1 <= fam.len() by {
            assert(ev[i].1 == list@[i].1);
        }
    }
    let mut cnt: Vec<u64> = Vec::new();
    let mut c: usize = 0;
    while c <= r_len
        invariant
            c <= r_len + 1,
            r_len == fam.len(),
            row_len == r_len + 1,
            cnt@.len() == c,
            forall|x: int| 0 <= x < c ==> cnt@[x] == 0,
        decreases r_len + 1 - c,
    {
        cnt.push(0);
        c += 1;
    }
    let mut q: usize = 0;
    while q < total
        invariant
            q <= total,
            total == list@.len(),
            ev == entry_views(list@),
            r_len == fam.len(),
            cnt@.len() == r_len + 1,
            ws == views(syns_with_current_seller@),
            vs == views(syns_without_current_seller@),
            s == seller.0,
            forall|i: int| 0 <= i < ev.len() ==> (#[trigger] ev[i]).1 <= fam.len(),
            forall|x: int|
                0 <= x <= r_len ==> #[trigger] cnt@[x] == flip_count(ev.subrange(0, q as int), ws, vs, s, x as nat),
            forall|x: int| 0 <= x <= r_len ==> #[trigger] cnt@[x] <= q,
        decreases total - q,
    {
        let t = &list[q].0;
        let taken = list[q].1;
        let mut ts = t.copy();
        ts.insert(seller);
        let a = explained(syns_with_current_seller, &ts);
        let b = explained(syns_without_current_seller, t);
        let ghost before = cnt@;
        proof {
            assert(ev[q as int] == (t@, taken as nat));
            assert(taken <= r_len);
        }
        if a && !b {
            let old_v = cnt[taken];
            cnt.set(taken, old_v + 1);
        }
        proof {
            let pre = ev.subrange(0, q as int);
            let post = ev.subrange(0, q + 1);
            assert(post.drop_last() =~= pre);
            assert(post.last() == ev[q as int]);
            assert(flips(ws, vs, s, t@) == (a && !b));
            assert forall|x: int| 0 <= x <= r_len implies #[trigger] cnt@[x] == flip_count(post, ws, vs, s, x as nat) by {
                assert(before[x] == flip_count(pre, ws, vs, s, x as nat));
            }
            assert forall|x: int| 0 <= x <= r_len implies #[trigger] cnt@[x] <= q + 1 by {
                assert(before[x] <= q);
            }
        }
        q += 1;
    }
    assert(ev.subrange(0, total as int) =~= ev);
    let ghost full = other_subsets(sellers.seq(), s);
    proof {
        assert(full == unions_of(fam));
        assert(ev == prune(full, vs));
        assert forall|x: int| 0 <= x <= r_len implies #[trigger] cnt@[x] == flip_count(full, ws, vs, s, x as nat) by {
            lemma_prune_flip_count(full, ws, vs, s, x as nat);
        }
    }
    let mut r: Vec<Share> = Vec::new();
    let mut c: usize = 0;
    while c <= r_len
        invariant
            c <= r_len + 1,
            r_len == fam.len(),
            row_len == r_len + 1,
            row@.len() == r_len + 1,
            forall|x: int| 0 <= x <= r_len ==> #[trigger] row@[x] == binomial(r_len as nat, x as nat),
            lookup_fits(n as nat, r_len as nat),
            r@.len() == c,
            cnt@.len() == r_len + 1,
            n == sellers@.len(),
            fam.len() == others(sellers.seq(), s).len(),
            full == other_subsets(sellers.seq(), s),
            s == seller.0,
            forall|x: int| 0 <= x <= r_len ==> #[trigger] cnt@[x] == flip_count(full, ws, vs, s, x as nat),
            forall|x: int|
                0 <= x < c ==> #[trigger] r@[x] == (Share {
                    seller,
                    num: flip_count(full, ws, vs, s, x as nat) as i128,
                    den: (n * binomial(r_len as nat, x as nat)) as u128,
                }),
        decreases r_len + 1 - c,
    {
        let k = row[c];
        proof {
            assert(n * binomial(r_len as nat, c as nat) <= u128::MAX);
        }
        r.push(Share { seller, num: cnt[c] as i128, den: (n as u128) * (k as u128) });
        c += 1;
    }
    r
}

} // verus!
