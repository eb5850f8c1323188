use rand::prelude::SliceRandom;
use rand::rngs::StdRng;
use rand::SeedableRng;

use berbalang::geography::TrivialGeography;

#[test]
fn test_choose_multiple() {
    for i in 0..100_000u64 {
        let numbers = vec![1, 2, 3, 4, 5, 6, 7, 8, 9, 10];
        let mut rng = StdRng::seed_from_u64(i);
        let mut choices: Vec<usize> = numbers.choose_multiple(&mut rng, 8).copied().collect();
        let count = choices.len();
        assert_eq!(count, 8);
        choices.dedup();
        let uniq = choices.len();
        assert_eq!(count, uniq);
    }
}

#[test]
fn test_distribution() {
    let size = 256;
    for radius in vec![size, size / 2, size / 4, size / 8].into_iter() {
        let mut geo: TrivialGeography<usize> = TrivialGeography::from_vec((0..size).collect());
        geo.set_radius(radius);
        let mut rng = StdRng::seed_from_u64(radius as u64);

        let mut counts = vec![0u64; size];

        for _ in 0..100_000 {
            let mut range = geo.get_range(&mut rng);
            range.sort();
            for j in range.into_iter() {
                counts[j] += 1;
            }
        }
        let mean = counts.iter().sum::<u64>() as f64 / size as f64;
        let var = counts
            .iter()
            .map(|&c| {
                let d = c as f64 - mean;
                d * d
            })
            .sum::<f64>()
            / size as f64;
        let std_dev = var.sqrt();
        println!("With radius = {}, Standard deviation: {}", radius, std_dev);
        if radius == size {
            assert!(std_dev <= f64::EPSILON);
        }
    }
}

#[test]
fn test_get_range() {
    let geo: TrivialGeography<usize> = TrivialGeography::from_vec((0..2048).collect());
    let mut rng = StdRng::seed_from_u64(0xbeef);
    for i in 0..100_000 {
        let mut range: Vec<usize> = geo.get_range(&mut rng);

        let n = range.len();
        range.dedup();
        let m = range.len();
        assert_eq!(n, m, "range contained duplicates");

        assert_eq!(range.len(), 2048.min(geo.len()));

        let mut choices: Vec<usize> = range
            .choose_multiple(&mut rng, 8)
            .copied()
            .collect::<Vec<usize>>();
        let n = choices.len();
        choices.dedup();
        let m = choices.len();
        assert_eq!((i, n), (i, m), "Duplicates returned by choose_multiple!");
    }
}

#[test]
fn test_len_tracks_extract_and_insert() {
    let mut geo: TrivialGeography<u32> = TrivialGeography::from_vec((0..10).collect());
    assert_eq!(geo.len(), 10);
    let a = geo.extract(3).unwrap();
    assert_eq!(geo.len(), 9);
    let b = geo.extract(3).unwrap();
    assert_ne!(a, b, "extraction slid to a distinct occupant");
    assert_eq!(geo.len(), 8);
    geo.insert(a).unwrap();
    assert_eq!(geo.len(), 9);
    geo.insert(b).unwrap();
    geo.insert(99).unwrap();
    assert_eq!(geo.len(), 11);
    // drain completely: every extraction succeeds while occupants remain
    for k in 0..11 {
        assert!(geo.extract(k * 7).is_some());
        assert_eq!(geo.len(), 10 - k);
    }
}

#[test]
fn test_choose_combatants_counts() {
    let mut rng = StdRng::seed_from_u64(17);
    for trial in 0..200u64 {
        let mut geo: TrivialGeography<u64> =
            TrivialGeography::from_vec((0..64).map(|x| x + 1000 * trial).collect());
        let combatants = geo.choose_combatants(5, &mut rng);
        assert_eq!(combatants.len(), 5);
        assert_eq!(geo.len(), 59);
        let mut sorted = combatants.clone();
        sorted.sort();
        sorted.dedup();
        assert_eq!(sorted.len(), 5, "combatants within one call are distinct");
        for c in combatants {
            geo.insert(c).unwrap();
        }
        assert_eq!(geo.len(), 64);
    }
}

#[test]
fn test_choose_combatants_and_spectators_counts() {
    let mut rng = StdRng::seed_from_u64(23);
    let mut geo: TrivialGeography<u64> = TrivialGeography::from_vec((0..100).collect());
    geo.set_radius(20);
    let (com, spec) = geo.choose_combatants_and_spectators(4, 6, &mut rng);
    assert_eq!(com.len(), 4);
    assert_eq!(spec.len(), 6);
    assert_eq!(geo.len(), 90);
}

#[test]
fn test_get_range_varies_with_base() {
    let geo: TrivialGeography<usize> = TrivialGeography::from_vec((0..256).collect());
    let mut geo = geo;
    geo.set_radius(4);
    let mut rng = StdRng::seed_from_u64(5);
    let mut distinct = std::collections::HashSet::new();
    for _ in 0..200 {
        let range = geo.get_range(&mut rng);
        assert_eq!(range.len(), 4);
        distinct.insert(range);
    }
    assert!(
        distinct.len() > 1,
        "the window base must actually be drawn at random"
    );
}
