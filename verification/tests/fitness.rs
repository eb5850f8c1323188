use core::cmp::Ordering;

use berbalang::fitness::{
    add_weighted, average_pareto, average_weighted, lexical_cmp, lexical_scalar, stdev_weighted,
    Pareto, ShuffleFit, Weighted,
};
use berbalang::fixed::SCALE;

#[test]
fn test_pareto_ordering() {
    let mut p1 = Pareto::new();
    p1.insert("obj_a".to_string(), 100_000);
    p1.insert("swankiness".to_string(), 2_000_000);
    p1.insert("doom".to_string(), 3_100_000);
    let mut p2 = Pareto::new();
    p2.insert("obj_a".to_string(), 100_000);
    p2.insert("swankiness".to_string(), 1_900_000);
    p2.insert("doom".to_string(), 3_100_000);
    let mut ps = vec![&p1, &p2];
    ps.sort_by(|a, b| a.partial_cmp(b).unwrap_or(Ordering::Equal));
    assert_eq!(ps[0].get("swankiness"), Some(1_900_000));
    assert!(p2.lt(&p1));
    assert!(!p1.lt(&p2));
}

#[test]
fn test_pareto_equal_vectors_are_incomparable() {
    let mut a = Pareto::new();
    a.insert("x".to_string(), 7);
    a.insert("y".to_string(), 8);
    let mut b = Pareto::new();
    b.insert("x".to_string(), 7);
    b.insert("y".to_string(), 8);
    assert_eq!(a.partial_cmp(&b), None);
    assert_eq!(b.partial_cmp(&a), None);
    assert!(a.eq_values(&b));
}

#[test]
fn test_add_weighted() {
    let mut w1 = Weighted::new("foo + 2 * bar");
    w1.insert("foo".to_string(), 500_000);
    w1.insert("bar".to_string(), 250_000);

    let mut w2 = Weighted::new("foo + 2 * bar");
    w2.insert("foo".to_string(), 100_000);
    w2.insert("bar".to_string(), 750_000);

    // 0.5 + 2 * 0.25 = 0.5 + 0.5 = 1.0
    assert_eq!(w1.scalar(), 1_000_000);
    // 0.1 + 2 * 0.75 = 0.1 + 1.50 = 1.6
    assert_eq!(w2.scalar(), 1_600_000);

    let mut w_sum = add_weighted(&w1, &w2);
    let foo = w_sum.get("foo").unwrap();
    let bar = w_sum.get("bar").unwrap();
    assert_eq!(foo, 600_000);
    assert_eq!(bar, 1_000_000);
    assert_eq!(w_sum.scalar(), 2_600_000);
}

#[test]
fn test_average_and_stddev_weighted() {
    let mut w1 = Weighted::new("foo + bar");
    w1.insert("foo".to_string(), 1_000_000);
    w1.insert("bar".to_string(), 2_000_000);
    let mut w2 = Weighted::new("foo + bar");
    w2.insert("foo".to_string(), 2_000_000);
    w2.insert("bar".to_string(), 1_000_000);
    let mut w3 = Weighted::new("foo + bar");
    w3.insert("foo".to_string(), 4_000_000);
    w3.insert("bar".to_string(), 500_000);
    let ws = vec![w1, w2, w3];
    let w_mean = average_weighted(&ws);
    let w_mean_foo = w_mean.get("foo").unwrap();
    let w_mean_bar = w_mean.get("bar").unwrap();
    assert_eq!(w_mean_foo, 2_333_333); // 2.3333... repeating
    assert_eq!(w_mean_bar, 1_166_666);

    let std_dev = stdev_weighted(&ws, &w_mean);
    let s_foo = std_dev.get("foo").unwrap();
    let s_bar = std_dev.get("bar").unwrap();
    assert_eq!(s_foo, 1_527_524); // about 1.5275
    assert_eq!(s_bar, 763_761); // about 0.7638
}

#[test]
fn test_scalar_cache_is_deliberately_stale() {
    let mut w = Weighted::new("foo");
    w.insert("foo".to_string(), 3_000_000);
    assert_eq!(w.scalar(), 3_000_000);
    // a later mutation must NOT change the memoized scalar
    w.insert("foo".to_string(), 9_000_000);
    assert_eq!(w.scalar(), 3_000_000);
}

#[test]
fn test_scalar_before_cache_follows_scores() {
    let mut w = Weighted::new("foo");
    w.insert("foo".to_string(), 3_000_000);
    w.insert("foo".to_string(), 9_000_000);
    assert_eq!(w.scalar(), 9_000_000);
}

#[test]
fn test_declare_failure_pins_scalar() {
    let mut w = Weighted::new("foo");
    w.insert("foo".to_string(), 1);
    w.declare_failure();
    assert_eq!(w.scalar(), i64::MAX);
}

#[test]
fn test_empty_weighted_scalar_is_max() {
    let mut w = Weighted::new("foo + bar");
    assert_eq!(w.scalar(), i64::MAX);
}

#[test]
fn test_weighting_evaluation_failures() {
    let mut env = berbalang::score_map::ScoreMap::new();
    env.insert("foo".to_string(), 2_000_000);
    // well-formed
    assert_eq!(
        berbalang::weighting::eval_weighting("foo + 1", &env),
        Some(3_000_000)
    );
    assert_eq!(
        berbalang::weighting::eval_weighting("2.5 * foo", &env),
        Some(5_000_000)
    );
    assert_eq!(
        berbalang::weighting::eval_weighting("foo - 3", &env),
        Some(-1_000_000)
    );
    assert_eq!(
        berbalang::weighting::eval_weighting("foo / 2", &env),
        Some(1_000_000)
    );
    // malformed expression
    assert_eq!(berbalang::weighting::eval_weighting("foo +", &env), None);
    assert_eq!(berbalang::weighting::eval_weighting("", &env), None);
    // unknown objective name
    assert_eq!(berbalang::weighting::eval_weighting("baz + 1", &env), None);
    // division by zero
    assert_eq!(berbalang::weighting::eval_weighting("foo / 0", &env), None);
}

#[test]
fn test_shufflefit_epoch_key_rotation() {
    let mut s = ShuffleFit::new();
    s.insert("alpha".to_string(), 1);
    s.insert("beta".to_string(), 2);
    s.insert("gamma".to_string(), 3);
    let k0 = s.epoch_key(0);
    let k0_again = s.epoch_key(0);
    assert_eq!(k0, k0_again, "the epoch key is a function of the epoch");
    for epoch in 0..32u64 {
        let k = s.epoch_key(epoch);
        assert!(k == "alpha" || k == "beta" || k == "gamma");
    }
    // across epochs the key must actually rotate
    let distinct: std::collections::HashSet<String> = (0..32u64).map(|e| s.epoch_key(e)).collect();
    assert!(distinct.len() > 1);
}

#[test]
fn test_shufflefit_compares_on_epoch_key() {
    let mut a = ShuffleFit::new();
    a.insert("only".to_string(), 5);
    let mut b = ShuffleFit::new();
    b.insert("only".to_string(), 9);
    assert_eq!(a.partial_cmp(&b, 42), Some(Ordering::Less));
    assert_eq!(b.partial_cmp(&a, 42), Some(Ordering::Greater));
    assert_eq!(a.partial_cmp(&a.clone(), 42), Some(Ordering::Equal));
}

#[test]
fn test_lexical_ordering() {
    let a: Vec<i64> = vec![1, 2, 3];
    let b: Vec<i64> = vec![1, 2, 4];
    let c: Vec<i64> = vec![1, 2];
    assert_eq!(lexical_cmp(&a, &b), Ordering::Less);
    assert_eq!(lexical_cmp(&b, &a), Ordering::Greater);
    assert_eq!(lexical_cmp(&a, &a), Ordering::Equal);
    assert_eq!(lexical_cmp(&c, &a), Ordering::Less);
    assert_eq!(lexical_scalar(&a), 6);
}

#[test]
fn test_pareto_scalar_sums_values() {
    let mut p = Pareto::new();
    p.insert("a".to_string(), SCALE);
    p.insert("b".to_string(), 2 * SCALE);
    assert_eq!(p.scalar(), 3 * SCALE);
    assert_eq!(p.values(), vec![SCALE, 2 * SCALE]);
    assert_eq!(p.len(), 2);
}

#[test]
fn test_average_pareto() {
    let mut a = Pareto::new();
    a.insert("x".to_string(), 2 * SCALE);
    let mut b = Pareto::new();
    b.insert("x".to_string(), 4 * SCALE);
    b.insert("y".to_string(), SCALE);
    let mean = average_pareto(&vec![a, b]);
    assert_eq!(mean.get("x"), Some(3 * SCALE));
    // a name missing from one member counts as zero there
    assert_eq!(mean.get("y"), Some(SCALE / 2));
    assert_eq!(mean.get("z"), None);
}
