use shapley_value::synthesis::Synthesis;
use shapley_value::synthesis_sv::{cal_sv_linear, cal_sv_non_linear, Scale, Share};
use shapley_value::SellerSet;

fn ss(ids: &[u64]) -> SellerSet {
    SellerSet::from_ids(&ids.to_vec())
}

fn value_of(shares: &[Share], seller: u64) -> f64 {
    shares
        .iter()
        .filter(|s| s.seller.0 == seller)
        .map(|s| s.num as f64 / s.den as f64)
        .sum()
}

fn total(shares: &[Share]) -> f64 {
    shares.iter().map(|s| s.num as f64 / s.den as f64).sum()
}

#[test]
fn test_from_seller_set() {
    let actual = Synthesis::from_seller_sets(&vec![ss(&[1, 2]), ss(&[1, 3])]);
    let expect = Synthesis::new(vec![ss(&[1]), ss(&[1, 2]), ss(&[1, 3]), ss(&[2, 3])]);
    assert_eq!(actual, expect);
}

#[test]
fn test_minimal() {
    let mut syn = Synthesis::new(vec![
        ss(&[1]),
        ss(&[1, 2]),
        ss(&[1, 3]),
        ss(&[4, 5, 6]),
        ss(&[4, 6]),
        ss(&[5, 6, 7, 8, 9]),
        ss(&[6, 8]),
        ss(&[10, 11]),
        ss(&[11, 12]),
    ]);
    syn.minimal();
    let expect = Synthesis::new(vec![
        ss(&[1]),
        ss(&[4, 6]),
        ss(&[6, 8]),
        ss(&[10, 11]),
        ss(&[11, 12]),
    ]);
    assert_eq!(syn, expect);
}

#[test]
fn test_linear() {
    let syns = Synthesis::new(vec![ss(&[0]), ss(&[3]), ss(&[1, 2, 4])]);
    println!("{:?}", cal_sv_linear(&syns, 1, 3));

    let syns = Synthesis::new(vec![ss(&[0]), ss(&[1]), ss(&[3])]);
    println!("{:?}", cal_sv_linear(&syns, 0, 0));
}

#[test]
fn minimal_twice_equals_once() {
    let mut once = Synthesis::new(vec![ss(&[1, 2]), ss(&[2]), ss(&[2, 3, 4]), ss(&[3, 4]), ss(&[5])]);
    once.minimal();
    let mut twice = once.copy();
    twice.minimal();
    assert_eq!(once, twice);
    assert_eq!(once, Synthesis::new(vec![ss(&[2]), ss(&[3, 4]), ss(&[5])]));
}

#[test]
fn minimal_keeps_equal_sized_sets() {
    let mut syn = Synthesis::new(vec![ss(&[1, 2]), ss(&[2, 3]), ss(&[1, 3])]);
    syn.minimal();
    assert_eq!(syn.len(), 3);
}

#[test]
fn from_seller_sets_with_no_table_is_the_empty_coalition() {
    let syn = Synthesis::from_seller_sets(&vec![]);
    assert_eq!(syn, Synthesis::new(vec![ss(&[])]));
}

#[test]
fn singleton_and_pair_is_linear_and_sums_to_one() {
    let syn = Synthesis::new(vec![ss(&[1]), ss(&[2, 3])]);
    assert_eq!(syn.is_linear(), Some((1, 2)));
    let shares = cal_sv_linear(&syn, 1, 2);
    assert_eq!(shares.len(), 3);
    let sv_alpha = 1.0 / ((2.0 + 1.0) * 2.0);
    let sv_beta = (1.0 - 2.0 * sv_alpha) / 1.0;
    assert!((value_of(&shares, 1) - sv_beta).abs() < 1e-12);
    assert!((value_of(&shares, 2) - sv_alpha).abs() < 1e-12);
    assert!((value_of(&shares, 3) - sv_alpha).abs() < 1e-12);
    assert!((total(&shares) - 1.0).abs() < 1e-12);
}

#[test]
fn linear_exact_fractions() {
    let syn = Synthesis::new(vec![ss(&[1]), ss(&[2, 3])]);
    let shares = cal_sv_linear(&syn, 1, 2);
    let one = shares.iter().find(|s| s.seller.0 == 1).unwrap();
    assert_eq!((one.num, one.den), (4, 6));
    let two = shares.iter().find(|s| s.seller.0 == 2).unwrap();
    assert_eq!((two.num, two.den), (1, 6));
}

#[test]
fn linear_without_large_member_splits_evenly() {
    let syn = Synthesis::new(vec![ss(&[0]), ss(&[1]), ss(&[3])]);
    assert_eq!(syn.is_linear(), Some((0, 0)));
    let shares = cal_sv_linear(&syn, 0, 0);
    for s in [0, 1, 3] {
        assert!((value_of(&shares, s) - 1.0 / 3.0).abs() < 1e-12);
    }
}

#[test]
fn two_large_members_is_not_linear() {
    let syn = Synthesis::new(vec![ss(&[1, 2]), ss(&[2, 3])]);
    assert_eq!(syn.is_linear(), None);
}

#[test]
fn lookup_and_comb_agree() {
    let syn = Synthesis::new(vec![ss(&[1, 2]), ss(&[2, 3]), ss(&[3, 4]), ss(&[5])]);
    let (by_comb, lookups, combs) = cal_sv_non_linear(&syn, Scale { num: 0, den: 1 });
    assert_eq!((lookups, combs), (0, 5));
    let (by_lookup, lookups, combs) = cal_sv_non_linear(&syn, Scale { num: 1000, den: 1 });
    assert_eq!((lookups, combs), (5, 0));
    for s in 1..=5 {
        assert!((value_of(&by_comb, s) - value_of(&by_lookup, s)).abs() < 1e-9);
    }
    assert!((total(&by_comb) - 1.0).abs() < 1e-9);
    assert!((total(&by_lookup) - 1.0).abs() < 1e-9);
}

#[test]
fn non_linear_exact_values() {
    // Row explained by {1,2} or {2,3}: seller 2 is needed always.
    let syn = Synthesis::new(vec![ss(&[1, 2]), ss(&[2, 3])]);
    let (shares, _, _) = cal_sv_non_linear(&syn, Scale { num: 1, den: 1 });
    assert!((value_of(&shares, 2) - 2.0 / 3.0).abs() < 1e-12);
    assert!((value_of(&shares, 1) - 1.0 / 6.0).abs() < 1e-12);
    assert!((value_of(&shares, 3) - 1.0 / 6.0).abs() < 1e-12);
}

#[test]
fn unique_sellers_of_synthesis() {
    let syn = Synthesis::new(vec![ss(&[4, 1]), ss(&[2]), ss(&[1, 9])]);
    assert_eq!(syn.unique_sellers().ids(), vec![1, 2, 4, 9]);
}

#[test]
fn lookup_follows_cost_model_beyond_thirty_two_sellers() {
    let mut members = vec![ss(&[1, 2]), ss(&[2, 3])];
    for x in 4..=33u64 {
        members.push(ss(&[x]));
    }
    let syn = Synthesis::new(members);
    assert_eq!(syn.is_linear(), None);
    let (shares, lookups, combs) = cal_sv_non_linear(&syn, Scale { num: u64::MAX, den: 1 });
    assert_eq!((lookups, combs), (33, 0));
    assert!((total(&shares) - 1.0).abs() < 1e-9);
    assert!((value_of(&shares, 1) - value_of(&shares, 3)).abs() < 1e-12);
    assert!((value_of(&shares, 4) - value_of(&shares, 33)).abs() < 1e-12);
}
