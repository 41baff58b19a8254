use crate::seller::SellerSet;
use crate::synthesis::views;
use vstd::prelude::*;

verus! {

/// Every entry of `prev` joined with `m`, one more member taken.
pub open spec fn grow(prev: Seq<(Set<u64>, nat)>, m: Set<u64>) -> Seq<(Set<u64>, nat)> {
    prev.map_values(|e: (Set<u64>, nat)| (e.0.union(m), e.1 + 1))
}

/// For every sub-collection of `fam` (the empty one included), the union of
/// its members and how many members it takes; the sub-collections without
/// the last member come first.
pub open spec fn unions_of(fam: Seq<Set<u64>>) -> Seq<(Set<u64>, nat)>
    decreases fam.len(),
{
    if fam.len() == 0 {
        seq![(Set::<u64>::empty(), 0nat)]
    } else {
        let prev = unions_of(fam.drop_last());
        prev + grow(prev, fam.last())
    }
}

/// `2^e`.
pub open spec fn two_to(e: nat) -> nat
    decreases e,
{
    if e == 0 {
        1
    } else {
        2 * two_to((e - 1) as nat)
    }
}

pub proof fn lemma_unions_len(fam: Seq<Set<u64>>)
    ensures
        unions_of(fam).len() == two_to(fam.len()),
    decreases fam.len(),
{
    if fam.len() > 0 {
        lemma_unions_len(fam.drop_last());
    }
}

/// The entries' coalitions as sets, with the member counts.
pub open spec fn entry_views(v: Seq<(SellerSet, usize)>) -> Seq<(Set<u64>, nat)> {
    v.map_values(|e: (SellerSet, usize)| (e.0@, e.1 as nat))
}

/// Generation by generation: for each member in turn, every union held so far
/// is extended with that member.
pub fn sub_unions(fam: &Vec<SellerSet>) -> (r: Vec<(SellerSet, usize)>)
    ensures
        entry_views(r@) == unions_of(views(fam@)),
{
    let mut list: Vec<(SellerSet, usize)> = Vec::new();
    list.push((SellerSet::new(), 0));
    assert(entry_views(list@) =~= unions_of(views(fam@.subrange(0, 0))));
    let n = fam.len();
    let mut t: usize = 0;
    while t < n
        invariant
            n == fam@.len(),
            t <= fam@.len(),
            entry_views(list@) == unions_of(views(fam@.subrange(0, t as int))),
            forall|q: int| 0 <= q < list@.len() ==> (#[trigger] list@[q]).1 <= t,
        decreases n - t,
    {
        let ghost prev = entry_views(list@);
        let ghost m = fam@[t as int]@;
        let len = list.len();
        let mut q: usize = 0;
        while q < len
            invariant
                t < n,
                n == fam@.len(),
                m == fam@[t as int]@,
                q <= len,
                len == prev.len(),
                list@.len() == len + q,
                entry_views(list@) == prev + grow(prev.subrange(0, q as int), m),
                forall|p: int| 0 <= p < list@.len() ==> (#[trigger] list@[p]).1 <= t + 1,
                forall|p: int| 0 <= p < len ==> (#[trigger] list@[p]).1 <= t,
            decreases len - q,
        {
            assert(list@[q as int].1 <= t);
            let u = list[q].0.union(&fam[t]);
            let c = list[q].1 + 1;
            let ghost old_ev = entry_views(list@);
            proof {
                assert(old_ev[q as int] == prev[q as int]);
            }
            list.push((u, c));
            proof {
                assert(entry_views(list@) =~= old_ev.push((u@, c as nat)));
                assert(grow(prev.subrange(0, q + 1), m) =~= grow(prev.subrange(0, q as int), m).push(
                    (prev[q as int].0.union(m), prev[q as int].1 + 1),
                ));
            }
            assert(entry_views(list@) =~= prev + grow(prev.subrange(0, q + 1), m));
            q += 1;
        }
        proof {
            let pre = views(fam@.subrange(0, t + 1));
            assert(pre.drop_last() =~= views(fam@.subrange(0, t as int)));
            assert(pre.last() == m);
            assert(prev.subrange(0, len as int) =~= prev);
        }
        t += 1;
    }
    assert(fam@.subrange(0, fam@.len() as int) =~= fam@);
    list
}

/// Sum over the entries that take at least one member and whose union has
/// `c` sellers of `+1` for an odd number of members and `-1` for an even one.
pub open spec fn signed_count(list: Seq<(Set<u64>, nat)>, c: nat) -> int
    decreases list.len(),
{
    if list.len() == 0 {
        0
    } else {
        let e = list.last();
        signed_count(list.drop_last(), c) + if e.1 >= 1 && e.0.len() == c {
            if e.1 % 2 == 1 {
                1int
            } else {
                -1int
            }
        } else {
            0int
        }
    }
}

/// The largest union size among the entries (zero when there is none).
pub open spec fn max_size(list: Seq<(Set<u64>, nat)>) -> nat
    decreases list.len(),
{
    if list.len() == 0 {
        0
    } else {
        let m = max_size(list.drop_last());
        if list.last().0.len() > m {
            list.last().0.len()
        } else {
            m
        }
    }
}

/// The inclusion-exclusion coefficients of a list of unions, indexed by the
/// size of the union.
pub fn signed_counts(list: &Vec<(SellerSet, usize)>) -> (coef: Vec<i128>)
    ensures
        forall|c: int| 0 <= c < coef@.len() ==> coef@[c] == signed_count(entry_views(list@), c as nat),
        forall|c: nat| c >= coef@.len() ==> signed_count(entry_views(list@), c) == 0,
        forall|c: int| 0 <= c < coef@.len() ==> -list@.len() <= #[trigger] coef@[c] <= list@.len(),
        list@.len() > 0 ==> coef@.len() == max_size(entry_views(list@)) + 1,
{
    let ghost ev = entry_views(list@);
    let mut coef: Vec<i128> = Vec::new();
    let mut q: usize = 0;
    assert(ev.subrange(0, 0).len() == 0);
    while q < list.len()
        invariant
            q <= list@.len(),
            ev == entry_views(list@),
            forall|c: int| 0 <= c < coef@.len() ==> #[trigger] coef@[c] == signed_count(ev.subrange(0, q as int), c as nat),
            forall|c: int| 0 <= c < coef@.len() ==> -q <= #[trigger] coef@[c] <= q,
            forall|c: nat| c >= coef@.len() ==> #[trigger] signed_count(ev.subrange(0, q as int), c) == 0,
            q > 0 ==> coef@.len() == max_size(ev.subrange(0, q as int)) + 1,
            q == 0 ==> coef@.len() == 0,
        decreases list.len() - q,
    {
        let size = list[q].0.len();
        let taken = list[q].1;
        let old_len = coef.len();
        while coef.len() <= size
            invariant
                q < list@.len(),
                forall|c: int| 0 <= c < coef@.len() ==> #[trigger] coef@[c] == signed_count(ev.subrange(0, q as int), c as nat),
                forall|c: int| 0 <= c < coef@.len() ==> -q <= #[trigger] coef@[c] <= q,
                forall|c: nat| c >= coef@.len() ==> #[trigger] signed_count(ev.subrange(0, q as int), c) == 0,
                coef@.len() <= old_len || coef@.len() <= size + 1,
                coef@.len() >= old_len,
            decreases size + 1 - coef.len(),
        {
            coef.push(0);
        }
        proof {
            assert(ev.subrange(0, q + 1).drop_last() =~= ev.subrange(0, q as int));
            assert(ev.subrange(0, q + 1).last() == ev[q as int]);
        }
        let ghost before = coef@;
        if taken >= 1 {
            let old_v = coef[size];
            if taken % 2 == 1 {
                coef.set(size, old_v + 1);
            } else {
                coef.set(size, old_v - 1);
            }
        }
        proof {
            let pre = ev.subrange(0, q as int);
            let post = ev.subrange(0, q + 1);
            assert(ev[q as int] == (list@[q as int].0@, taken as nat));
            assert(post.drop_last() =~= pre);
            assert(coef@.len() == if old_len > size + 1 { old_len as int } else { size + 1 });
            assert(post.last().0.len() == size);
            assert(max_size(post) == if size > max_size(pre) { size as nat } else { max_size(pre) });
            if q == 0 {
                assert(pre.len() == 0);
                assert(max_size(pre) == 0);
            }
            assert forall|c: nat| c >= coef@.len() implies #[trigger] signed_count(post, c) == 0 by {
                assert(signed_count(pre, c) == 0);
            }
            assert forall|c: int| 0 <= c < coef@.len() implies #[trigger] coef@[c] == signed_count(post, c as nat) by {
                assert(before[c] == signed_count(pre, c as nat));
            }
            assert forall|c: int| 0 <= c < coef@.len() implies -(q + 1) <= #[trigger] coef@[c] <= q + 1 by {
                assert(-q <= before[c] <= q);
            }
        }
        q += 1;
    }
    assert(ev.subrange(0, list@.len() as int) =~= ev);
    coef
}

} // verus!
