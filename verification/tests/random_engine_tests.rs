use graph_traffic::random_engine::RandomEngine;
use rand::distr::Bernoulli;
use rand::SeedableRng;
use rand_pcg::Pcg64;

/// An engine as a simulation builds it: from a seed (or the operating
/// system), a probability of creating a message and a number of vertices.
fn new_engine(seed: Option<u64>, rho: f64, v: usize) -> Option<RandomEngine> {
    if v == 0 || rho < 0.0 || rho > 1.0 {
        return None;
    }
    let rng = seed.map_or_else(|| Pcg64::try_from_os_rng().unwrap(), Pcg64::seed_from_u64);
    RandomEngine::from_parts(rng, Bernoulli::new(rho).unwrap(), v)
}

#[test]
fn test_random_new_with_seed() {
    let seed = 42;
    let _engine = new_engine(Some(seed), 0.5, 10).unwrap();
}

#[test]
fn test_random_new_without_seed() {
    let _engine = new_engine(None, 0.5, 10).unwrap();
}

#[test]
fn test_random_invalid_new_call() {
    assert!(RandomEngine::from_parts(Pcg64::seed_from_u64(0), Bernoulli::new(0.5).unwrap(), 0).is_none());
    // A probability outside [0, 1] cannot even be made into the distribution
    // that the engine is built from.
    assert!(Bernoulli::new(5.0).is_err());
    assert!(Bernoulli::new(-5.0).is_err());
    assert!(new_engine(Some(0), 5.0, 0).is_none());
    assert!(new_engine(Some(0), -5.0, 0).is_none());
}

#[test]
fn from_parts_refuses_zero_vertices() {
    assert!(RandomEngine::from_parts(Pcg64::seed_from_u64(0), Bernoulli::new(0.5).unwrap(), 0).is_none());
    assert!(RandomEngine::from_parts(Pcg64::seed_from_u64(0), Bernoulli::new(0.5).unwrap(), 2).is_some());
}

#[test]
fn test_random_choose_from() {
    let mut engine = new_engine(Some(1), 0.5, 10).unwrap();
    let items = vec![1, 2, 3, 4, 5];
    let chosen = engine.choose_from(&items);
    assert!(items.contains(&chosen));
}

#[test]
fn test_random_sample_will_send_msg() {
    let mut engine_always = new_engine(Some(3), 1.0, 10).unwrap();
    for _ in 0..100 {
        assert!(engine_always.sample_will_send_msg());
    }

    let mut engine_never = new_engine(Some(4), 0.0, 10).unwrap();
    for _ in 0..100 {
        assert!(!engine_never.sample_will_send_msg());
    }
}

#[test]
fn test_random_sample_destination() {
    let v = 10;
    let mut engine = new_engine(Some(5), 0.5, v).unwrap();
    let exclude = 5;

    for _ in 0..100 {
        let dest = engine.sample_destination(exclude);
        assert!(dest < v);
        assert_ne!(dest, exclude);
    }
}

#[test]
fn sample_destination_reaches_every_other_vertex() {
    let mut engine = new_engine(Some(9), 0.5, 4).unwrap();
    let mut seen = [false; 4];
    for _ in 0..400 {
        seen[engine.sample_destination(0)] = true;
    }
    assert_eq!(seen, [false, true, true, true]);
}

#[test]
fn test_shuffle_slice() {
    let mut engine = new_engine(Some(12345), 0.5, 10).unwrap();
    let mut items = vec![1, 2, 3, 4, 5, 6, 7, 8, 9, 10];
    let original = items.clone();

    engine.shuffle_slice(&mut items);

    assert_eq!(items.len(), original.len());
    for item in &original {
        assert!(items.contains(item));
    }
}

#[test]
fn shuffle_slice_reorders_with_this_seed() {
    let mut engine = new_engine(Some(12345), 0.5, 10).unwrap();
    let mut items: Vec<u32> = (0..20).collect();
    engine.shuffle_slice(&mut items);
    assert_ne!(items, (0..20).collect::<Vec<u32>>());
    let mut sorted = items.clone();
    sorted.sort_unstable();
    assert_eq!(sorted, (0..20).collect::<Vec<u32>>());
}
