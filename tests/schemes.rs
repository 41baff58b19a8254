use shapley_value::dataset::{row_owners, RowId, ShapleyError, Table};
use shapley_value::permutation::{arrival_gains, permutation_scheme};
use shapley_value::proposed::proposed_scheme;
use shapley_value::subset_utility::{new_utility_cache, subset_utility, subset_utility_with_cache};
use shapley_value::synthesis_sv::{Scale, Share};
use shapley_value::traditional::traditional_scheme;
use shapley_value::utils::{binom, checked_binom};
use shapley_value::SellerSet;
use std::collections::HashMap;

fn ss(ids: &[u64]) -> SellerSet {
    SellerSet::from_ids(&ids.to_vec())
}

fn value_of(shares: &[Share], seller: u64) -> f64 {
    shares
        .iter()
        .filter(|s| s.seller.0 == seller)
        .map(|s| s.num as f64 / s.den as f64)
        .sum()
}

fn total(shares: &[Share]) -> f64 {
    shares.iter().map(|s| s.num as f64 / s.den as f64).sum()
}

/// Three joined rows over two tables, each row owned by two of three sellers,
/// plus one row that a pair of sellers owns jointly.
fn sample_rows() -> Vec<Vec<SellerSet>> {
    vec![
        vec![ss(&[1]), ss(&[2])],
        vec![ss(&[1]), ss(&[3])],
        vec![ss(&[2]), ss(&[3])],
        vec![ss(&[1]), ss(&[1])],
    ]
}

#[test]
fn binom_values() {
    assert_eq!(binom(2, 5), 10);
    assert_eq!(binom(0, 7), 1);
    assert_eq!(binom(7, 7), 1);
    assert_eq!(binom(30, 60), 118264581564861424);
    assert_eq!(checked_binom(3, 6), Some(20));
    assert_eq!(checked_binom(40, 80), None);
}

#[test]
fn utility_counts_rows_owned_within_coalition() {
    let rows = sample_rows();
    assert_eq!(subset_utility(&rows, &ss(&[])), 0);
    assert_eq!(subset_utility(&rows, &ss(&[1])), 1);
    assert_eq!(subset_utility(&rows, &ss(&[1, 2])), 2);
    assert_eq!(subset_utility(&rows, &ss(&[1, 2, 3])), 4);
}

#[test]
fn utility_is_monotone() {
    let rows = sample_rows();
    let chain = [ss(&[]), ss(&[3]), ss(&[2, 3]), ss(&[1, 2, 3])];
    for w in chain.windows(2) {
        assert!(subset_utility(&rows, &w[0]) <= subset_utility(&rows, &w[1]));
    }
}

#[test]
fn cached_utility_matches_direct() {
    let rows = sample_rows();
    let mut cache = new_utility_cache();
    assert_eq!(cache.len(), 0);
    let a = subset_utility_with_cache(&rows, &ss(&[1, 3]), &mut cache);
    let b = subset_utility_with_cache(&rows, &ss(&[3, 1]), &mut cache);
    assert_eq!(a, 2);
    assert_eq!(b, 2);
    assert_eq!(cache.len(), 1);
}

#[test]
fn traditional_is_efficient() {
    let rows = sample_rows();
    let sellers = ss(&[1, 2, 3]);
    let shares = traditional_scheme(&rows, &sellers);
    assert!((total(&shares) - 4.0).abs() < 1e-9);
    assert!((value_of(&shares, 1) - 2.0).abs() < 1e-9);
    assert!((value_of(&shares, 2) - 1.0).abs() < 1e-9);
    assert!((value_of(&shares, 3) - 1.0).abs() < 1e-9);
}

#[test]
fn proposed_agrees_with_traditional() {
    let rows = sample_rows();
    let sellers = ss(&[1, 2, 3]);
    let exact = traditional_scheme(&rows, &sellers);
    let (shares, linear, _, _) = proposed_scheme(&rows, Scale { num: 1, den: 1 });
    assert_eq!(linear, 4);
    for s in 1..=3 {
        assert!((value_of(&shares, s) - value_of(&exact, s)).abs() < 1e-9);
    }
    assert!((total(&shares) - 4.0).abs() < 1e-9);
}

#[test]
fn proposed_with_joint_ownership() {
    // A source row owned by {1, 2} needs both owners.
    let rows = vec![vec![ss(&[1, 2]), ss(&[3])], vec![ss(&[2]), ss(&[2, 3])]];
    let (shares, linear, lookups, combs) = proposed_scheme(&rows, Scale { num: 1, den: 1 });
    assert_eq!((linear, lookups, combs), (2, 0, 0));
    assert!((total(&shares) - 2.0).abs() < 1e-9);
    assert!((value_of(&shares, 1) - 1.0 / 3.0).abs() < 1e-9);
    assert!((value_of(&shares, 2) - (1.0 / 3.0 + 1.0 / 2.0)).abs() < 1e-9);
    assert!((value_of(&shares, 3) - (1.0 / 3.0 + 1.0 / 2.0)).abs() < 1e-9);
    let exact = traditional_scheme(&rows, &ss(&[1, 2, 3]));
    for s in 1..=3 {
        assert!((value_of(&shares, s) - value_of(&exact, s)).abs() < 1e-9);
    }
}

#[test]
fn joint_owner_gets_half_in_both_schemes() {
    let rows = vec![vec![ss(&[1, 2]), ss(&[1])]];
    let (shares, _, _, _) = proposed_scheme(&rows, Scale { num: 1, den: 1 });
    let exact = traditional_scheme(&rows, &ss(&[1, 2]));
    assert!((value_of(&shares, 2) - 0.5).abs() < 1e-12);
    assert!((value_of(&exact, 2) - 0.5).abs() < 1e-12);
    assert!((value_of(&shares, 1) - value_of(&exact, 1)).abs() < 1e-12);
}

#[test]
fn proposed_counters_do_not_depend_on_scale() {
    let rows = sample_rows();
    let (a, la, lka, ca) = proposed_scheme(&rows, Scale { num: 0, den: 1 });
    let (b, lb, lkb, cb) = proposed_scheme(&rows, Scale { num: 1000, den: 1 });
    assert_eq!((la, lka, ca), (4, 0, 0));
    assert_eq!((lb, lkb, cb), (4, 0, 0));
    for s in 1..=3 {
        assert!((value_of(&a, s) - value_of(&b, s)).abs() < 1e-12);
    }
}

#[test]
fn arrival_gains_are_exact() {
    let rows = sample_rows();
    let mut cache = new_utility_cache();
    assert_eq!(arrival_gains(&rows, &vec![2, 1, 3], &mut cache), vec![0, 2, 2]);
    assert_eq!(arrival_gains(&rows, &vec![3, 2, 1], &mut cache), vec![0, 1, 3]);
}

#[test]
fn permutation_sums_to_full_utility() {
    let rows = sample_rows();
    let sellers = ss(&[1, 2, 3]);
    let shares = permutation_scheme(&rows, &sellers, 50);
    assert_eq!(shares.len(), 3);
    assert_eq!(shares.iter().map(|s| s.num).sum::<i128>(), 50 * 4);
    assert!((total(&shares) - 4.0).abs() < 1e-9);
    assert!(shares.iter().all(|s| s.den == 50));
}

#[test]
fn permutation_with_no_sample_is_empty() {
    let rows = sample_rows();
    assert!(permutation_scheme(&rows, &ss(&[1, 2, 3]), 0).is_empty());
}

#[test]
fn row_owners_resolves_columns() {
    let mut a = HashMap::new();
    a.insert(0u64, ss(&[1]));
    a.insert(1u64, ss(&[2]));
    let mut b = HashMap::new();
    b.insert(7u64, ss(&[3]));
    let tables = vec![
        Table { name: "a".to_string(), seller_map: a },
        Table { name: "b".to_string(), seller_map: b },
    ];
    let owners = row_owners(&tables, &vec![vec![0, 1], vec![7, 7]], 2).unwrap();
    assert_eq!(owners.len(), 2);
    assert_eq!(owners[1][0].ids(), vec![2]);
    assert_eq!(owners[1][1].ids(), vec![3]);
    let missing = row_owners(&tables, &vec![vec![0, 5], vec![7, 7]], 2);
    assert_eq!(missing.err(), Some(ShapleyError::MissingSellerMapping { table: 0, row: RowId(5) }));
}
