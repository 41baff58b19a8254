use vstd::prelude::*;

verus! {

/// A data contributor.
#[derive(Debug, Clone, Copy, PartialEq, Eq, Structural, Hash)]
pub struct SellerId(pub u64);

/// Every element is strictly smaller than every later one.
pub open spec fn strictly_sorted(s: Seq<u64>) -> bool {
    forall|i: int, j: int| 0 <= i < j < s.len() ==> s[i] < s[j]
}

pub proof fn lemma_sorted_no_duplicates(s: Seq<u64>)
    requires
        strictly_sorted(s),
    ensures
        s.no_duplicates(),
{
    assert forall|i: int, j: int| 0 <= i < s.len() && 0 <= j < s.len() && i != j implies s[i]
        != s[j] by {
        if i < j {
            assert(s[i] < s[j]);
        } else {
            assert(s[j] < s[i]);
        }
    }
}

/// The identifiers of `s` in increasing order.
pub open spec fn ordered(s: Set<u64>) -> Seq<u64> {
    choose|q: Seq<u64>| strictly_sorted(q) && q.to_set() == s
}

/// Two strictly increasing sequences with the same elements are equal.
pub proof fn lemma_sorted_unique(a: Seq<u64>, b: Seq<u64>)
    requires
        strictly_sorted(a),
        strictly_sorted(b),
        a.to_set() == b.to_set(),
    ensures
        a == b,
    decreases a.len(),
{
    if a.len() == 0 {
        if b.len() > 0 {
            assert(b.to_set().contains(b[0]));
        }
        assert(a =~= b);
    } else {
        assert(a.to_set().contains(a[0]));
        assert(b.len() > 0);
        assert(b.to_set().contains(b[0]));
        let i = choose|i: int| 0 <= i < a.len() && a[i] == b[0];
        let j = choose|j: int| 0 <= j < b.len() && b[j] == a[0];
        assert(a[0] == b[0]) by {
            if i > 0 {
                assert(a[0] < a[i]);
            }
            if j > 0 {
                assert(b[0] < b[j]);
            }
        }
        let ra = a.subrange(1, a.len() as int);
        let rb = b.subrange(1, b.len() as int);
        assert forall|x: u64| ra.to_set().contains(x) <==> rb.to_set().contains(x) by {
            if ra.contains(x) {
                let p = choose|p: int| 0 <= p < ra.len() && ra[p] == x;
                assert(a[p + 1] == x && a[0] < a[p + 1]);
                assert(b.to_set().contains(x));
                let k = choose|k: int| 0 <= k < b.len() && b[k] == x;
                assert(k != 0);
                assert(rb[k - 1] == x);
            }
            if rb.contains(x) {
                let p = choose|p: int| 0 <= p < rb.len() && rb[p] == x;
                assert(b[p + 1] == x && b[0] < b[p + 1]);
                assert(a.to_set().contains(x));
                let k = choose|k: int| 0 <= k < a.len() && a[k] == x;
                assert(k != 0);
                assert(ra[k - 1] == x);
            }
        }
        assert(ra.to_set() =~= rb.to_set());
        lemma_sorted_unique(ra, rb);
        assert(a =~= seq![a[0]] + ra);
        assert(b =~= seq![b[0]] + rb);
    }
}

/// Every finite set of identifiers has an increasing listing.
pub proof fn lemma_sorted_listing_exists(s: Set<u64>)
    requires
        s.finite(),
    ensures
        exists|q: Seq<u64>| strictly_sorted(q) && q.to_set() == s,
    decreases s.len(),
{
    if s.len() == 0 {
        vstd::set_lib::lemma_set_empty_equivalency_len(s);
        let q = Seq::<u64>::empty();
        assert(q.to_set() =~= s);
        assert(strictly_sorted(q));
    } else {
        let r = |a: u64, b: u64| a <= b;
        assert(vstd::relations::total_ordering(r));
        s.find_unique_maximal_ensures(r);
        let m = s.find_unique_maximal(r);
        let rest = s.remove(m);
        lemma_sorted_listing_exists(rest);
        let q0 = choose|q: Seq<u64>| strictly_sorted(q) && q.to_set() == rest;
        let q = q0.push(m);
        assert forall|i: int, j: int| 0 <= i < j < q.len() implies q[i] < q[j] by {
            if j == q.len() - 1 {
                assert(q0.to_set().contains(q0[i]));
                assert(s.contains(q0[i]));
                assert(r(q0[i], m) || r(m, q0[i]));
            } else {
                assert(q[i] == q0[i] && q[j] == q0[j]);
            }
        }
        q0.lemma_push_to_set_commute(m);
        assert(rest.insert(m) =~= s);
    }
}

/// A coalition: a set of sellers, kept as strictly increasing identifiers so
/// that equal sets have equal representations.
#[derive(Debug)]
pub struct SellerSet {
    ids: Vec<u64>,
}

impl View for SellerSet {
    type V = Set<u64>;

    open spec fn view(&self) -> Set<u64> {
        self.seq().to_set()
    }
}

impl SellerSet {
    #[verifier::type_invariant]
    closed spec fn inv(&self) -> bool {
        strictly_sorted(self.ids@)
    }

    /// The identifiers in increasing order.
    pub closed spec fn seq(&self) -> Seq<u64> {
        self.ids@
    }

    /// The empty coalition.
    pub fn new() -> (r: SellerSet)
        ensures
            r@ == Set::<u64>::empty(),
            r.seq().len() == 0,
    {
        let r = SellerSet { ids: Vec::new() };
        assert(r@ =~= Set::<u64>::empty());
        r
    }

    /// The coalition of the given identifiers (duplicates collapse).
    pub fn from_ids(ids: &Vec<u64>) -> (r: SellerSet)
        ensures
            r@ == ids@.to_set(),
    {
        let mut r = SellerSet::new();
        let mut i: usize = 0;
        while i < ids.len()
            invariant
                i <= ids.len(),
                r@ == ids@.subrange(0, i as int).to_set(),
            decreases ids.len() - i,
        {
            r.insert(SellerId(ids[i]));
            assert(ids@.subrange(0, i + 1) =~= ids@.subrange(0, i as int).push(ids@[i as int]));
            proof {
                ids@.subrange(0, i as int).lemma_push_to_set_commute(ids@[i as int]);
            }
            i += 1;
        }
        assert(ids@.subrange(0, ids@.len() as int) =~= ids@);
        r
    }

    /// The identifiers, in increasing order.
    pub fn ids(&self) -> (r: Vec<u64>)
        ensures
            r@ == self.seq(),
            r@ == ordered(self@),
            r@.to_set() == self@,
            r@.no_duplicates(),
            strictly_sorted(r@),
    {
        proof {
            use_type_invariant(self);
            lemma_sorted_no_duplicates(self.ids@);
            let q = ordered(self@);
            assert(strictly_sorted(q) && q.to_set() == self@);
            lemma_sorted_unique(q, self.ids@);
        }
        let r = self.ids.clone();
        assert(r@ =~= self.ids@);
        r
    }

    /// A copy of the coalition.
    pub fn copy(&self) -> (r: SellerSet)
        ensures
            r@ == self@,
            r.seq() == self.seq(),
    {
        proof {
            use_type_invariant(self);
        }
        let v = self.ids.clone();
        assert(v@ =~= self.ids@);
        SellerSet { ids: v }
    }

    /// Number of sellers.
    pub fn len(&self) -> (r: usize)
        ensures
            r == self@.len(),
            r == self.seq().len(),
    {
        proof {
            use_type_invariant(self);
            lemma_sorted_no_duplicates(self.ids@);
            self.ids@.unique_seq_to_set();
        }
        self.ids.len()
    }

    /// The `i`-th smallest seller.
    pub fn get(&self, i: usize) -> (r: SellerId)
        requires
            i < self.seq().len(),
        ensures
            r.0 == self.seq()[i as int],
            self@.contains(r.0),
    {
        SellerId(self.ids[i])
    }

    pub fn contains(&self, id: SellerId) -> (r: bool)
        ensures
            r == self@.contains(id.0),
    {
        let mut i: usize = 0;
        while i < self.ids.len()
            invariant
                i <= self.ids@.len(),
                forall|j: int| 0 <= j < i ==> self.ids@[j] != id.0,
            decreases self.ids.len() - i,
        {
            if self.ids[i] == id.0 {
                return true;
            }
            i += 1;
        }
        false
    }

    /// Adds a seller.
    pub fn insert(&mut self, id: SellerId)
        ensures
            final(self)@ == old(self)@.insert(id.0),
    {
        proof {
            use_type_invariant(&*self);
        }
        let x = id.0;
        let mut i: usize = 0;
        while i < self.ids.len() && self.ids[i] < x
            invariant
                i <= self.ids@.len(),
                forall|j: int| 0 <= j < i ==> self.ids@[j] < x,
            decreases self.ids.len() - i,
        {
            i += 1;
        }
        if i < self.ids.len() && self.ids[i] == x {
            assert(self@.contains(x));
            assert(self@.insert(x) =~= self@);
            return;
        }
        let mut v = self.ids.clone();
        assert(v@ =~= self.ids@);
        v.insert(i, x);
        let ghost old_s = self.ids@;
        assert(strictly_sorted(v@)) by {
            assert forall|a: int, b: int| 0 <= a < b < v@.len() implies v@[a] < v@[b] by {
                if b < i {
                } else if b == i {
                } else if a < i {
                    assert(old_s[b - 1] >= old_s[i as int]);
                } else if a == i {
                    assert(old_s[b - 1] >= old_s[i as int]);
                } else {
                }
            }
        }
        assert(v@.to_set() =~= old_s.to_set().insert(x)) by {
            assert forall|y: u64| #[trigger] v@.contains(y) <==> old_s.contains(y) || y == x by {
                if old_s.contains(y) {
                    let k = choose|k: int| 0 <= k < old_s.len() && old_s[k] == y;
                    if k < i {
                        assert(v@[k] == y);
                    } else {
                        assert(v@[k + 1] == y);
                    }
                }
                if y == x {
                    assert(v@[i as int] == x);
                }
                if v@.contains(y) {
                    let k = choose|k: int| 0 <= k < v@.len() && v@[k] == y;
                    if k < i {
                        assert(old_s[k] == y);
                    } else if k > i {
                        assert(old_s[k - 1] == y);
                    }
                }
            }
        }
        *self = SellerSet { ids: v };
    }

    /// Whether every seller here is also in `other`.
    pub fn is_subset(&self, other: &SellerSet) -> (r: bool)
        ensures
            r == self@.subset_of(other@),
    {
        let mut i: usize = 0;
        while i < self.ids.len()
            invariant
                i <= self.ids@.len(),
                forall|j: int| 0 <= j < i ==> other@.contains(#[trigger] self.ids@[j]),
            decreases self.ids.len() - i,
        {
            if !other.contains(SellerId(self.ids[i])) {
                assert(self@.contains(self.ids@[i as int]));
                return false;
            }
            i += 1;
        }
        assert(self@.subset_of(other@)) by {
            assert forall|y: u64| self@.contains(y) implies other@.contains(y) by {
                let k = choose|k: int| 0 <= k < self.ids@.len() && self.ids@[k] == y;
            }
        }
        true
    }

    /// Whether both coalitions hold the same sellers.
    pub fn same(&self, other: &SellerSet) -> (r: bool)
        ensures
            r == (self@ == other@),
    {
        let a = self.is_subset(other);
        let b = other.is_subset(self);
        if a && b {
            assert(self@ =~= other@);
        }
        a && b
    }

    /// The coalition of the sellers of both.
    pub fn union(&self, other: &SellerSet) -> (r: SellerSet)
        ensures
            r@ == self@.union(other@),
    {
        let mut r = self.copy();
        let mut i: usize = 0;
        while i < other.ids.len()
            invariant
                i <= other.ids@.len(),
                r@ == self@.union(other.ids@.subrange(0, i as int).to_set()),
            decreases other.ids.len() - i,
        {
            r.insert(SellerId(other.ids[i]));
            assert(other.ids@.subrange(0, i + 1) =~= other.ids@.subrange(0, i as int).push(
                other.ids@[i as int],
            ));
            proof {
                other.ids@.subrange(0, i as int).lemma_push_to_set_commute(other.ids@[i as int]);
            }
            assert(r@ =~= self@.union(other.ids@.subrange(0, i + 1).to_set()));
            i += 1;
        }
        assert(other.ids@.subrange(0, other.ids@.len() as int) =~= other.ids@);
        assert(r@ =~= self@.union(other@));
        r
    }
}

} // verus!
