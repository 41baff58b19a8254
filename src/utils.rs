use vstd::prelude::*;

verus! {

/// The binomial coefficient "n choose k", by Pascal's rule.
pub open spec fn binomial(n: nat, k: nat) -> nat
    decreases n,
{
    if k == 0 {
        1
    } else if n == 0 {
        0
    } else {
        binomial((n - 1) as nat, (k - 1) as nat) + binomial((n - 1) as nat, k)
    }
}

/// `k * C(n, k) == n * C(n - 1, k - 1)`.
pub proof fn lemma_choose_absorb(n: nat, k: nat)
    requires
        n >= 1,
        k >= 1,
    ensures
        k * binomial(n, k) == n * binomial((n - 1) as nat, (k - 1) as nat),
    decreases n,
{
    let a = binomial((n - 1) as nat, (k - 1) as nat);
    let b = binomial((n - 1) as nat, k);
    assert(binomial(n, k) == a + b);
    if n == 1 {
        lemma_choose_zero_above(0, k);
        if k >= 2 {
            lemma_choose_zero_above(0, (k - 1) as nat);
        }
        assert(b == 0);
        assert(k * binomial(n, k) == k * a) by (nonlinear_arith)
            requires
                binomial(n, k) == a + b,
                b == 0;
        if k >= 2 {
            assert(a == 0);
            assert(k * a == n * a) by (nonlinear_arith)
                requires
                    a == 0;
        } else {
            assert(k * a == n * a) by (nonlinear_arith)
                requires
                    k == 1,
                    n == 1;
        }
    } else {
        let c = binomial((n - 2) as nat, (k - 1) as nat);
        lemma_choose_absorb((n - 1) as nat, k);
        assert(k * b == (n - 1) * c);
        if k >= 2 {
            let e = binomial((n - 2) as nat, (k - 2) as nat);
            lemma_choose_absorb((n - 1) as nat, (k - 1) as nat);
            assert((k - 1) * a == (n - 1) * e);
            assert(a == e + c);
            assert(k * binomial(n, k) == n * a) by (nonlinear_arith)
                requires
                    binomial(n, k) == a + b,
                    k * b == (n - 1) * c,
                    (k - 1) * a == (n - 1) * e,
                    a == e + c,
                    k >= 2,
                    n >= 2;
        } else {
            assert(binomial((n - 2) as nat, 0) == 1);
            assert(a == 1);
            assert(c == 1);
            assert(k * binomial(n, k) == n * a) by (nonlinear_arith)
                requires
                    binomial(n, k) == a + b,
                    k * b == (n - 1) * c,
                    k == 1,
                    a == 1,
                    c == 1;
        }
    }
}

/// `(n - j) * C(n, j) == n * C(n - 1, j)`.
proof fn lemma_choose_absorb_rest(n: nat, j: nat)
    requires
        j < n,
    ensures
        (n - j) * binomial(n, j) == n * binomial((n - 1) as nat, j),
{
    if j == 0 {
    } else {
        lemma_choose_absorb(n, j);
        let a = binomial((n - 1) as nat, (j - 1) as nat);
        let b = binomial((n - 1) as nat, j);
        assert(binomial(n, j) == a + b);
        assert(n * (a + b) == n * a + n * b) by (nonlinear_arith);
        assert((n - j) * binomial(n, j) == n * binomial(n, j) - j * binomial(n, j)) by (nonlinear_arith)
            requires
                j < n;
    }
}

/// `d * C(n, d) == (n - d + 1) * C(n, d - 1)`.
proof fn lemma_choose_step(n: nat, d: nat)
    requires
        1 <= d <= n,
    ensures
        d * binomial(n, d) == (n - d + 1) * binomial(n, (d - 1) as nat),
{
    lemma_choose_absorb(n, d);
    lemma_choose_absorb_rest(n, (d - 1) as nat);
}

/// `C(n, k) == C(n, n - k)`.
pub proof fn lemma_choose_symmetric(n: nat, k: nat)
    requires
        k <= n,
    ensures
        binomial(n, k) == binomial(n, (n - k) as nat),
    decreases n,
{
    if n == 0 {
    } else if k == 0 || k == n {
        lemma_choose_diag(n);
    } else {
        lemma_choose_symmetric((n - 1) as nat, (k - 1) as nat);
        lemma_choose_symmetric((n - 1) as nat, k);
    }
}

/// `C(n, k) == 0` above `n`.
proof fn lemma_choose_zero_above(n: nat, k: nat)
    requires
        k > n,
    ensures
        binomial(n, k) == 0,
    decreases n,
{
    if n > 0 {
        lemma_choose_zero_above((n - 1) as nat, (k - 1) as nat);
        lemma_choose_zero_above((n - 1) as nat, k);
    }
}

/// `C(n, n) == 1`.
pub proof fn lemma_choose_diag(n: nat)
    ensures
        binomial(n, n) == 1,
    decreases n,
{
    if n > 0 {
        lemma_choose_diag((n - 1) as nat);
        lemma_choose_zero_above((n - 1) as nat, n);
    }
}

/// `C(n, k) >= 1` up to `n`.
pub proof fn lemma_choose_pos(n: nat, k: nat)
    requires
        k <= n,
    ensures
        binomial(n, k) >= 1,
    decreases n,
{
    if k > 0 {
        lemma_choose_pos((n - 1) as nat, (k - 1) as nat);
    }
}

/// Below the middle, the coefficients grow with `d`.
proof fn lemma_choose_grows(n: nat, d: nat, k: nat)
    requires
        d <= k,
        2 * k <= n,
    ensures
        binomial(n, d) <= binomial(n, k),
    decreases k - d,
{
    if d < k {
        lemma_choose_grows(n, d + 1, k);
        lemma_choose_step(n, d + 1);
        assert((d + 1) * binomial(n, d + 1) == (n - d) * binomial(n, d));
        assert(binomial(n, d) <= binomial(n, d + 1)) by (nonlinear_arith)
            requires
                (d + 1) * binomial(n, d + 1) == (n - d) * binomial(n, d),
                d + 1 <= n - d;
    }
}

/// The binomial coefficient "n choose k".
pub fn binom(k: usize, n: usize) -> (r: usize)
    requires
        k <= n,
        binomial(n as nat, k as nat) <= usize::MAX,
    ensures
        r == binomial(n as nat, k as nat),
{
    let kk: usize = if 2 * (k as u128) > n as u128 {
        n - k
    } else {
        k
    };
    proof {
        lemma_choose_symmetric(n as nat, k as nat);
    }
    let mut res: u128 = 1;
    let mut d: usize = 1;
    while d <= kk
        invariant
            1 <= d <= kk + 1,
            kk <= n,
            2 * kk <= n,
            binomial(n as nat, kk as nat) <= usize::MAX,
            res == binomial(n as nat, (d - 1) as nat),
        decreases kk + 1 - d,
    {
        proof {
            lemma_choose_step(n as nat, d as nat);
            lemma_choose_grows(n as nat, d as nat, kk as nat);
            assert(res * ((n - d + 1) as u128) == d * binomial(n as nat, d as nat)) by (nonlinear_arith)
                requires
                    res == binomial(n as nat, (d - 1) as nat),
                    d * binomial(n as nat, d as nat) == (n - d + 1) * binomial(n as nat, (d - 1) as nat);
            assert(d * binomial(n as nat, d as nat) <= usize::MAX * usize::MAX) by (nonlinear_arith)
                requires
                    d <= usize::MAX,
                    binomial(n as nat, d as nat) <= usize::MAX;
        }
        res = res * ((n - d + 1) as u128) / (d as u128);
        proof {
            assert(res == binomial(n as nat, d as nat)) by (nonlinear_arith)
                requires
                    res == (d * binomial(n as nat, d as nat)) / (d as int),
                    d >= 1;
        }
        d += 1;
    }
    res as usize
}

/// `C(i, j) <= C(i + 1, j)`.
proof fn lemma_choose_grows_in_n(i: nat, j: nat)
    ensures
        binomial(i, j) <= binomial(i + 1, j),
{
}

/// `C(i, j) <= C(r, j)` for `i <= r`.
pub proof fn lemma_choose_mono_n(i: nat, r: nat, j: nat)
    requires
        i <= r,
    ensures
        binomial(i, j) <= binomial(r, j),
    decreases r - i,
{
    if i < r {
        lemma_choose_grows_in_n(i, j);
        lemma_choose_mono_n(i + 1, r, j);
    }
}

/// The row `C(r, 0), ..., C(r, r)` of Pascal's triangle, built by additions
/// only, when every entry of it fits in `u128`.
pub fn binomial_row(r: usize) -> (v: Vec<u128>)
    requires
        forall|c: nat| c <= r ==> #[trigger] binomial(r as nat, c) <= u128::MAX,
    ensures
        v@.len() == r + 1,
        forall|c: int| 0 <= c <= r ==> #[trigger] v@[c] == binomial(r as nat, c as nat),
{
    let mut v: Vec<u128> = Vec::new();
    v.push(1);
    let mut i: usize = 0;
    while i < r
        invariant
            i <= r,
            v@.len() == i + 1,
            forall|c: int| 0 <= c <= i ==> #[trigger] v@[c] == binomial(i as nat, c as nat),
            forall|c: nat| c <= r ==> #[trigger] binomial(r as nat, c) <= u128::MAX,
        decreases r - i,
    {
        let mut w: Vec<u128> = Vec::new();
        w.push(1);
        let mut j: usize = 1;
        while j <= i
            invariant
                1 <= j <= i + 1,
                i < r,
                v@.len() == i + 1,
                w@.len() == j,
                forall|c: int| 0 <= c <= i ==> #[trigger] v@[c] == binomial(i as nat, c as nat),
                forall|c: int| 0 <= c < j ==> #[trigger] w@[c] == binomial((i + 1) as nat, c as nat),
                forall|c: nat| c <= r ==> #[trigger] binomial(r as nat, c) <= u128::MAX,
            decreases i + 1 - j,
        {
            proof {
                lemma_choose_mono_n((i + 1) as nat, r as nat, j as nat);
                assert(binomial((i + 1) as nat, j as nat) == binomial(i as nat, (j - 1) as nat)
                    + binomial(i as nat, j as nat));
            }
            w.push(v[j - 1] + v[j]);
            j += 1;
        }
        proof {
            lemma_choose_diag((i + 1) as nat);
        }
        w.push(1);
        v = w;
        i += 1;
    }
    v
}

/// The binomial coefficient "n choose k" when it fits in `usize`.
pub fn checked_binom(k: usize, n: usize) -> (r: Option<usize>)
    requires
        k <= n,
    ensures
        r matches Some(v) ==> v == binomial(n as nat, k as nat),
        r is None ==> binomial(n as nat, k as nat) > usize::MAX,
{
    let kk: usize = if 2 * (k as u128) > n as u128 {
        n - k
    } else {
        k
    };
    proof {
        lemma_choose_symmetric(n as nat, k as nat);
    }
    let mut res: u128 = 1;
    let mut d: usize = 1;
    while d <= kk
        invariant
            1 <= d <= kk + 1,
            kk <= n,
            2 * kk <= n,
            binomial(n as nat, k as nat) == binomial(n as nat, kk as nat),
            res == binomial(n as nat, (d - 1) as nat),
            res <= usize::MAX,
        decreases kk + 1 - d,
    {
        proof {
            lemma_choose_step(n as nat, d as nat);
            lemma_choose_grows(n as nat, d as nat, kk as nat);
            assert(res * ((n - d + 1) as u128) == d * binomial(n as nat, d as nat)) by (nonlinear_arith)
                requires
                    res == binomial(n as nat, (d - 1) as nat),
                    d * binomial(n as nat, d as nat) == (n - d + 1) * binomial(n as nat, (d - 1) as nat);
            let m = (n - d + 1) as u128;
            assert(res * m <= 0xffff_ffff_ffff_ffff_ffff_ffff_ffff_ffffu128) by (nonlinear_arith)
                requires
                    res <= 0xffff_ffff_ffff_ffffu64,
                    m <= 0xffff_ffff_ffff_ffffu64;
        }
        res = res * ((n - d + 1) as u128) / (d as u128);
        proof {
            assert(res == binomial(n as nat, d as nat)) by (nonlinear_arith)
                requires
                    res == (d * binomial(n as nat, d as nat)) / (d as int),
                    d >= 1;
        }
        if res > usize::MAX as u128 {
            return None;
        }
        d += 1;
    }
    Some(res as usize)
}

} // verus!
