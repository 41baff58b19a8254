use crate::seller::{SellerId, SellerSet};
use vstd::prelude::*;

verus! {

/// Coalitions formed by adding one seller of `owners` to one coalition of `cands`.
pub open spec fn extend_each(cands: Set<Set<u64>>, owners: Set<u64>) -> Set<Set<u64>> {
    Set::new(
        |c: Set<u64>|
            exists|p: Set<u64>, x: u64| cands.contains(p) && owners.contains(x) && c == p.insert(x),
    )
}

/// The coalitions that pick one owning seller for each source row in turn.
pub open spec fn explanations(owners: Seq<Set<u64>>) -> Set<Set<u64>>
    decreases owners.len(),
{
    if owners.len() == 0 {
        Set::empty().insert(Set::empty())
    } else {
        extend_each(explanations(owners.drop_last()), owners.last())
    }
}

/// Whether some member of `s` is a proper subset of `a`.
pub open spec fn dominated(s: Set<Set<u64>>, a: Set<u64>) -> bool {
    exists|b: Set<u64>| s.contains(b) && b.subset_of(a) && b != a
}

/// The members of `s` that have no proper subset in `s`.
pub open spec fn minimal_of(s: Set<Set<u64>>) -> Set<Set<u64>> {
    s.filter(|a: Set<u64>| !dominated(s, a))
}

/// Reducing a family twice gives what reducing it once gives, and the
/// reduced family has no member that is a proper subset of another.
pub proof fn lemma_minimal_idempotent(s: Set<Set<u64>>)
    ensures
        minimal_of(minimal_of(s)) == minimal_of(s),
        is_antichain(minimal_of(s)),
{
    let m = minimal_of(s);
    assert forall|a: Set<u64>| m.contains(a) implies !dominated(m, a) by {
        if dominated(m, a) {
            let b = choose|b: Set<u64>| m.contains(b) && b.subset_of(a) && b != a;
            assert(s.contains(b));
        }
    }
    assert(minimal_of(m) =~= m);
    assert forall|a: Set<u64>, b: Set<u64>|
        m.contains(a) && m.contains(b) && a.subset_of(b) implies a == b by {
        assert(!dominated(s, b));
        assert(s.contains(a));
    }
}

/// No member is a subset of another member.
pub open spec fn is_antichain(s: Set<Set<u64>>) -> bool {
    forall|a: Set<u64>, b: Set<u64>| s.contains(a) && s.contains(b) && a.subset_of(b) ==> a == b
}

/// Every seller of some member.
pub open spec fn sellers_of(s: Set<Set<u64>>) -> Set<u64> {
    Set::new(|x: u64| exists|m: Set<u64>| s.contains(m) && m.contains(x))
}

/// The members that hold more than one seller.
pub open spec fn large_members(ms: Seq<Set<u64>>) -> Seq<Set<u64>> {
    ms.filter(|m: Set<u64>| m.len() > 1)
}

pub open spec fn views(v: Seq<SellerSet>) -> Seq<Set<u64>> {
    v.map_values(|s: SellerSet| s@)
}

spec fn distinct_views(v: Seq<SellerSet>) -> bool {
    forall|i: int, j: int| 0 <= i < v.len() && 0 <= j < v.len() && i != j ==> v[i]@ != v[j]@
}

pub proof fn lemma_large_push(ms: Seq<Set<u64>>, i: int)
    requires
        0 <= i < ms.len(),
    ensures
        large_members(ms.subrange(0, i + 1)) == if ms[i].len() > 1 {
            large_members(ms.subrange(0, i)).push(ms[i])
        } else {
            large_members(ms.subrange(0, i))
        },
{
    reveal(Seq::filter);
    assert(ms.subrange(0, i + 1).drop_last() =~= ms.subrange(0, i));
    assert(ms.subrange(0, i + 1).last() == ms[i]);
}

/// Coalitions produced by the first `i` candidates, and the first `j` owners
/// for candidate `i`.
spec fn extended_prefix(ms: Seq<Set<u64>>, os: Seq<u64>, i: int, j: int) -> Set<Set<u64>> {
    Set::new(
        |c: Set<u64>|
            exists|a: int, b: int|
                0 <= a < ms.len() && 0 <= b < os.len() && (a < i || (a == i && b < j)) && c
                    == ms[a].insert(os[b]),
    )
}

proof fn lemma_extended_step(ms: Seq<Set<u64>>, os: Seq<u64>, i: int, j: int)
    requires
        0 <= i < ms.len(),
        0 <= j < os.len(),
    ensures
        extended_prefix(ms, os, i, j + 1) == extended_prefix(ms, os, i, j).insert(
            ms[i].insert(os[j]),
        ),
{
    assert(extended_prefix(ms, os, i, j + 1) =~= extended_prefix(ms, os, i, j).insert(
        ms[i].insert(os[j]),
    ));
}

proof fn lemma_extended_row(ms: Seq<Set<u64>>, os: Seq<u64>, i: int)
    requires
        0 <= i < ms.len(),
    ensures
        extended_prefix(ms, os, i, os.len() as int) == extended_prefix(ms, os, i + 1, 0),
{
    assert(extended_prefix(ms, os, i, os.len() as int) =~= extended_prefix(ms, os, i + 1, 0));
}

proof fn lemma_extended_all(ms: Seq<Set<u64>>, os: Seq<u64>)
    ensures
        extended_prefix(ms, os, ms.len() as int, 0) == extend_each(ms.to_set(), os.to_set()),
{
    let l = extended_prefix(ms, os, ms.len() as int, 0);
    let r = extend_each(ms.to_set(), os.to_set());
    assert forall|c: Set<u64>| l.contains(c) <==> r.contains(c) by {
        if l.contains(c) {
            let (a, b) = choose|a: int, b: int|
                0 <= a < ms.len() && 0 <= b < os.len() && c == ms[a].insert(os[b]);
            assert(ms.to_set().contains(ms[a]));
            assert(os.to_set().contains(os[b]));
        }
        if r.contains(c) {
            let (p, x) = choose|p: Set<u64>, x: u64|
                ms.to_set().contains(p) && os.to_set().contains(x) && c == p.insert(x);
            let a = choose|a: int| 0 <= a < ms.len() && ms[a] == p;
            let b = choose|b: int| 0 <= b < os.len() && os[b] == x;
            assert(0 <= a < ms.len() && 0 <= b < os.len() && c == ms[a].insert(os[b]));
        }
    }
    assert(l =~= r);
}

/// For one joined row, the coalitions that suffice to produce it: the row is
/// explained by a coalition exactly when some member is a subset of it.
#[derive(Debug)]
pub struct Synthesis {
    sets: Vec<SellerSet>,
}

impl View for Synthesis {
    type V = Set<Set<u64>>;

    open spec fn view(&self) -> Set<Set<u64>> {
        self.members().to_set()
    }
}

impl Synthesis {
    #[verifier::type_invariant]
    closed spec fn inv(&self) -> bool {
        distinct_views(self.sets@)
    }

    /// The members, in storage order, without repetition.
    pub closed spec fn members(&self) -> Seq<Set<u64>> {
        views(self.sets@)
    }

    pub proof fn lemma_members_finite(&self)
        ensures
            forall|i: int| 0 <= i < self.members().len() ==> (#[trigger] self.members()[i]).finite(),
    {
        assert forall|i: int| 0 <= i < self.members().len() implies (#[trigger] self.members()[i]).finite() by {
            vstd::seq_lib::seq_to_set_is_finite(self.sets@[i].seq());
        }
    }

    /// The synthesis with no member.
    pub fn empty() -> (r: Synthesis)
        ensures
            r@ == Set::<Set<u64>>::empty(),
            r.members().len() == 0,
    {
        let r = Synthesis { sets: Vec::new() };
        assert(r@ =~= Set::<Set<u64>>::empty());
        r
    }

    /// Number of members.
    pub fn len(&self) -> (r: usize)
        ensures
            r == self.members().len(),
            r == self@.len(),
            self.members().no_duplicates(),
    {
        proof {
            use_type_invariant(self);
            assert(self.members().no_duplicates());
            self.members().unique_seq_to_set();
        }
        self.sets.len()
    }

    /// The `i`-th member.
    pub fn member(&self, i: usize) -> (r: &SellerSet)
        requires
            i < self.members().len(),
        ensures
            r@ == self.members()[i as int],
    {
        &self.sets[i]
    }

    /// Adds a member.
    pub fn insert(&mut self, s: SellerSet)
        ensures
            final(self)@ == old(self)@.insert(s@),
            old(self)@.contains(s@) ==> final(self).members() == old(self).members(),
            !old(self)@.contains(s@) ==> final(self).members() == old(self).members().push(s@),
    {
        proof {
            use_type_invariant(&*self);
        }
        let mut i: usize = 0;
        while i < self.sets.len()
            invariant
                i <= self.sets@.len(),
                forall|j: int| 0 <= j < i ==> self.sets@[j]@ != s@,
            decreases self.sets.len() - i,
        {
            if self.sets[i].same(&s) {
                assert(self.members()[i as int] == s@);
                assert(self@.insert(s@) =~= self@);
                return;
            }
            i += 1;
        }
        let ghost old_members = self.members();
        assert(!old_members.contains(s@));
        let mut v: Vec<SellerSet> = Vec::new();
        let mut j: usize = 0;
        while j < self.sets.len()
            invariant
                j <= self.sets@.len(),
                v@.len() == j,
                forall|k: int| 0 <= k < j ==> v@[k]@ == self.sets@[k]@,
            decreases self.sets.len() - j,
        {
            v.push(self.sets[j].copy());
            j += 1;
        }
        v.push(s);
        assert(views(v@) =~= old_members.push(s@));
        proof {
            old_members.lemma_push_to_set_commute(s@);
        }
        *self = Synthesis { sets: v };
    }

    /// The synthesis holding the given coalitions (repetitions collapse).
    pub fn new(sets: Vec<SellerSet>) -> (r: Synthesis)
        ensures
            r@ == views(sets@).to_set(),
    {
        let mut r = Synthesis::empty();
        let mut i: usize = 0;
        while i < sets.len()
            invariant
                i <= sets@.len(),
                r@ == views(sets@.subrange(0, i as int)).to_set(),
            decreases sets.len() - i,
        {
            r.insert(sets[i].copy());
            proof {
                assert(views(sets@.subrange(0, i + 1)) =~= views(sets@.subrange(0, i as int)).push(
                    sets@[i as int]@,
                ));
                views(sets@.subrange(0, i as int)).lemma_push_to_set_commute(sets@[i as int]@);
            }
            i += 1;
        }
        assert(sets@.subrange(0, sets@.len() as int) =~= sets@);
        r
    }

    /// The members, as a list.
    pub fn to_vec(&self) -> (r: Vec<SellerSet>)
        ensures
            views(r@) == self.members(),
    {
        let mut v: Vec<SellerSet> = Vec::new();
        let mut j: usize = 0;
        while j < self.sets.len()
            invariant
                j <= self.sets@.len(),
                v@.len() == j,
                forall|k: int| 0 <= k < j ==> v@[k]@ == self.sets@[k]@,
            decreases self.sets.len() - j,
        {
            v.push(self.sets[j].copy());
            j += 1;
        }
        assert(views(v@) =~= self.members());
        v
    }

    /// Whether `s` is a member.
    pub fn contains(&self, s: &SellerSet) -> (r: bool)
        ensures
            r == self@.contains(s@),
    {
        let mut i: usize = 0;
        while i < self.sets.len()
            invariant
                i <= self.sets@.len(),
                forall|j: int| 0 <= j < i ==> self.sets@[j]@ != s@,
            decreases self.sets.len() - i,
        {
            if self.sets[i].same(s) {
                assert(self.members()[i as int] == s@);
                return true;
            }
            i += 1;
        }
        false
    }

    /// Whether both hold the same members.
    pub fn same_members(&self, other: &Synthesis) -> (r: bool)
        ensures
            r == (self@ == other@),
    {
        let mut i: usize = 0;
        while i < self.sets.len()
            invariant
                i <= self.sets@.len(),
                forall|j: int| 0 <= j < i ==> other@.contains(#[trigger] self.members()[j]),
            decreases self.sets.len() - i,
        {
            if !other.contains(&self.sets[i]) {
                assert(self@.contains(self.members()[i as int]));
                return false;
            }
            i += 1;
        }
        let mut j: usize = 0;
        while j < other.sets.len()
            invariant
                j <= other.sets@.len(),
                forall|k: int| 0 <= k < j ==> self@.contains(#[trigger] other.members()[k]),
            decreases other.sets.len() - j,
        {
            if !self.contains(&other.sets[j]) {
                assert(other@.contains(other.members()[j as int]));
                return false;
            }
            j += 1;
        }
        assert(self@ =~= other@) by {
            assert forall|m: Set<u64>| self@.contains(m) implies other@.contains(m) by {
                let a = choose|a: int| 0 <= a < self.members().len() && self.members()[a] == m;
            }
            assert forall|m: Set<u64>| other@.contains(m) implies self@.contains(m) by {
                let a = choose|a: int| 0 <= a < other.members().len() && other.members()[a] == m;
            }
        }
        true
    }

    /// A copy of the synthesis.
    pub fn copy(&self) -> (r: Synthesis)
        ensures
            r@ == self@,
            r.members() == self.members(),
    {
        proof {
            use_type_invariant(self);
        }
        let mut v: Vec<SellerSet> = Vec::new();
        let mut j: usize = 0;
        while j < self.sets.len()
            invariant
                j <= self.sets@.len(),
                v@.len() == j,
                forall|k: int| 0 <= k < j ==> v@[k]@ == self.sets@[k]@,
            decreases self.sets.len() - j,
        {
            v.push(self.sets[j].copy());
            j += 1;
        }
        assert(views(v@) =~= self.members());
        Synthesis { sets: v }
    }

    /// Builds the synthesis of a joined row from the owners of each of its
    /// source rows: every coalition that picks one owner of each source row.
    pub fn from_seller_sets(input: &Vec<SellerSet>) -> (r: Synthesis)
        ensures
            r@ == explanations(views(input@)),
    {
        let mut ans = Synthesis::empty();
        ans.insert(SellerSet::new());
        assert(ans@ =~= explanations(views(input@.subrange(0, 0))));
        let mut t: usize = 0;
        while t < input.len()
            invariant
                t <= input@.len(),
                ans@ == explanations(views(input@.subrange(0, t as int))),
            decreases input.len() - t,
        {
            let owners = &input[t];
            let ghost ms = ans.members();
            let ghost os = owners.seq();
            let mut next = Synthesis::empty();
            let n = ans.len();
            let m = owners.len();
            assert(next@ =~= extended_prefix(ms, os, 0, 0));
            let mut i: usize = 0;
            while i < n
                invariant
                    i <= n,
                    n == ms.len(),
                    m == os.len(),
                    ms == ans.members(),
                    os == owners.seq(),
                    next@ == extended_prefix(ms, os, i as int, 0),
                decreases n - i,
            {
                let mut j: usize = 0;
                while j < m
                    invariant
                        i < n,
                        j <= m,
                        n == ms.len(),
                        m == os.len(),
                        ms == ans.members(),
                        os == owners.seq(),
                        next@ == extended_prefix(ms, os, i as int, j as int),
                    decreases m - j,
                {
                    let mut c = ans.member(i).copy();
                    let x = owners.get(j);
                    c.insert(x);
                    next.insert(c);
                    proof {
                        lemma_extended_step(ms, os, i as int, j as int);
                    }
                    j += 1;
                }
                proof {
                    lemma_extended_row(ms, os, i as int);
                }
                i += 1;
            }
            proof {
                lemma_extended_all(ms, os);
                let pre = views(input@.subrange(0, t + 1));
                assert(pre.drop_last() =~= views(input@.subrange(0, t as int)));
                assert(pre.last() == input@[t as int]@);
                assert(owners@ == os.to_set());
            }
            ans = next;
            t += 1;
        }
        assert(input@.subrange(0, input@.len() as int) =~= input@);
        ans
    }

    /// Drops every member that has a proper subset among the members, leaving
    /// the antichain of minimal coalitions.
    pub fn minimal(&mut self)
        ensures
            final(self)@ == minimal_of(old(self)@),
    {
        proof {
            use_type_invariant(&*self);
        }
        let ghost ms = self.members();
        let ghost whole = self@;
        let n = self.sets.len();
        let mut kept: Vec<SellerSet> = Vec::new();
        let ghost mut idx: Seq<int> = Seq::empty();
        let mut i: usize = 0;
        while i < n
            invariant
                i <= n,
                n == ms.len(),
                ms == self.members(),
                whole == ms.to_set(),
                distinct_views(self.sets@),
                idx.len() == kept@.len(),
                forall|k: int| 0 <= k < idx.len() ==> 0 <= #[trigger] idx[k] < i,
                forall|k: int, l: int| 0 <= k < l < idx.len() ==> idx[k] < idx[l],
                forall|k: int| 0 <= k < idx.len() ==> #[trigger] kept@[k]@ == ms[idx[k]],
                views(kept@).to_set() == Set::new(
                    |c: Set<u64>|
                        exists|a: int| 0 <= a < i && ms[a] == c && !dominated(whole, c),
                ),
            decreases n - i,
        {
            let mut beaten = false;
            let mut j: usize = 0;
            while j < n
                invariant
                    i < n,
                    j <= n,
                    n == ms.len(),
                    ms == self.members(),
                    whole == ms.to_set(),
                    distinct_views(self.sets@),
                    beaten ==> exists|b: int|
                        0 <= b < j && b != i && (#[trigger] ms[b]).subset_of(ms[i as int]),
                    !beaten ==> forall|b: int|
                        0 <= b < j && b != i ==> !(#[trigger] ms[b]).subset_of(ms[i as int]),
                decreases n - j,
            {
                if j != i && self.sets[j].is_subset(&self.sets[i]) {
                    assert(ms[j as int].subset_of(ms[i as int]));
                    beaten = true;
                }
                j += 1;
            }
            let ghost before = views(kept@).to_set();
            let ghost old_kept = views(kept@);
            assert(beaten == dominated(whole, ms[i as int])) by {
                if beaten {
                    let b = choose|b: int| 0 <= b < n && b != i && (#[trigger] ms[b]).subset_of(ms[i as int]);
                    assert(self.sets@[b]@ != self.sets@[i as int]@);
                    assert(whole.contains(ms[b]));
                }
                if dominated(whole, ms[i as int]) {
                    let c = choose|c: Set<u64>|
                        whole.contains(c) && c.subset_of(ms[i as int]) && c != ms[i as int];
                    let b = choose|b: int| 0 <= b < n && ms[b] == c;
                    assert(b != i);
                    assert(!beaten ==> !ms[b].subset_of(ms[i as int]));
                }
            }
            if !beaten {
                kept.push(self.sets[i].copy());
                proof {
                    idx = idx.push(i as int);
                    assert(views(kept@) =~= old_kept.push(ms[i as int]));
                    old_kept.lemma_push_to_set_commute(ms[i as int]);
                }
            }
            assert(views(kept@).to_set() =~= Set::new(
                |c: Set<u64>| exists|a: int| 0 <= a < i + 1 && ms[a] == c && !dominated(whole, c),
            )) by {
                assert forall|c: Set<u64>|
                    (exists|a: int| 0 <= a < i + 1 && ms[a] == c && !dominated(whole, c))
                        <==> views(kept@).to_set().contains(c) by {
                    if exists|a: int| 0 <= a < i + 1 && ms[a] == c && !dominated(whole, c) {
                        let a = choose|a: int| 0 <= a < i + 1 && ms[a] == c && !dominated(whole, c);
                        if a < i {
                            assert(before.contains(c));
                        } else {
                            assert(views(kept@).last() == c);
                        }
                    }
                    if views(kept@).to_set().contains(c) {
                        if !beaten {
                            assert(views(kept@).to_set() == before.insert(ms[i as int]));
                        }
                        if before.contains(c) {
                            let a = choose|a: int| 0 <= a < i && ms[a] == c && !dominated(whole, c);
                            assert(0 <= a < i + 1 && ms[a] == c && !dominated(whole, c));
                        }
                    }
                }
            }
            i += 1;
        }
        assert(distinct_views(kept@)) by {
            assert forall|k: int, l: int|
                0 <= k < kept@.len() && 0 <= l < kept@.len() && k != l implies kept@[k]@
                != kept@[l]@ by {
                assert(idx[k] != idx[l]);
                assert(self.sets@[idx[k]]@ != self.sets@[idx[l]]@);
            }
        }
        assert(views(kept@).to_set() =~= minimal_of(whole)) by {
            assert forall|c: Set<u64>| #[trigger] minimal_of(whole).contains(c) implies views(
                kept@,
            ).to_set().contains(c) by {
                let a = choose|a: int| 0 <= a < n && ms[a] == c;
            }
        }
        *self = Synthesis { sets: kept };
    }

    /// `Some((count, k))` when at most one member holds more than one seller:
    /// `count` is the number of such members and `k` the size of that member
    /// (zero when there is none). `None` otherwise.
    pub fn is_linear(&self) -> (r: Option<(usize, usize)>)
        ensures
            r is None <==> large_members(self.members()).len() > 1,
            r matches Some((count, k)) ==> count == large_members(self.members()).len() && (count
                == 1 ==> k == large_members(self.members())[0].len()) && (count == 0 ==> k == 0),
    {
        let ghost ms = self.members();
        let mut count: usize = 0;
        let mut k: usize = 0;
        let mut i: usize = 0;
        while i < self.sets.len()
            invariant
                i <= ms.len(),
                ms == self.members(),
                count == large_members(ms.subrange(0, i as int)).len(),
                count <= 1,
                count == 1 ==> k == large_members(ms.subrange(0, i as int))[0].len(),
                count == 0 ==> k == 0,
            decreases ms.len() - i,
        {
            let len = self.sets[i].len();
            proof {
                lemma_large_push(ms, i as int);
            }
            if len > 1 {
                count += 1;
                k = len;
            }
            if count > 1 {
                proof {
                    assert(ms =~= ms.subrange(0, i + 1) + ms.subrange(i + 1, ms.len() as int));
                    Seq::filter_distributes_over_add(ms.subrange(0, i + 1), ms.subrange(i + 1, ms.len() as int), |m: Set<u64>| m.len() > 1);
                }
                return None;
            }
            i += 1;
        }
        assert(ms.subrange(0, ms.len() as int) =~= ms);
        Some((count, k))
    }

    /// Every seller that occurs in some member.
    pub fn unique_sellers(&self) -> (r: SellerSet)
        ensures
            r@ == sellers_of(self@),
    {
        let ghost ms = self.members();
        let mut r = SellerSet::new();
        let mut i: usize = 0;
        while i < self.sets.len()
            invariant
                i <= ms.len(),
                ms == self.members(),
                r@ == Set::new(|x: u64| exists|a: int| 0 <= a < i && ms[a].contains(x)),
            decreases ms.len() - i,
        {
            let ghost before = r@;
            r = r.union(&self.sets[i]);
            assert(r@ =~= Set::new(|x: u64| exists|a: int| 0 <= a < i + 1 && ms[a].contains(x))) by {
                assert forall|x: u64| r@.contains(x) <==> exists|a: int| 0 <= a < i + 1 && #[trigger] ms[a].contains(x) by {
                    if ms[i as int].contains(x) {
                        assert(self.sets@[i as int]@ == ms[i as int]);
                    }
                    if exists|a: int| 0 <= a < i + 1 && #[trigger] ms[a].contains(x) {
                        let a = choose|a: int| 0 <= a < i + 1 && #[trigger] ms[a].contains(x);
                        if a < i {
                            assert(before.contains(x));
                        }
                    }
                }
            }
            i += 1;
        }
        assert(r@ =~= sellers_of(self@)) by {
            assert forall|x: u64| #[trigger] sellers_of(self@).contains(x) implies r@.contains(x) by {
                let m = choose|m: Set<u64>| self@.contains(m) && m.contains(x);
                let a = choose|a: int| 0 <= a < ms.len() && ms[a] == m;
            }
        }
        r
    }
}

impl PartialEq for Synthesis {
    fn eq(&self, other: &Synthesis) -> (r: bool) {
        self.same_members(other)
    }
}

impl vstd::std_specs::cmp::PartialEqSpecImpl for Synthesis {
    open spec fn obeys_eq_spec() -> bool {
        true
    }

    open spec fn eq_spec(&self, other: &Synthesis) -> bool {
        self@ == other@
    }
}

} // verus!
