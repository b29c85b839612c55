use guccicci::domain::VecShuffleStrategy;
use guccicci::strategy::ShuffleStrategies;

#[test]
fn no_shuffle_does_nothing() {
    let mut v = vec![0, 1, 2, 3, 4];
    let clone = v.clone();

    ShuffleStrategies::NoShuffle.shuffle(&mut v);

    assert_eq!(v, clone);
}

#[test]
fn random_shuffle_shuffles_vec() {
    let mut v = vec![0, 1, 2, 3, 4];
    let clone = v.clone();

    ShuffleStrategies::RandomShuffle.shuffle(&mut v);

    assert_ne!(v, clone);
}

#[test]
fn random_shuffle_keeps_elements() {
    let mut v: Vec<u32> = (0..50).collect();
    let clone = v.clone();

    ShuffleStrategies::RandomShuffle.shuffle(&mut v);

    assert_ne!(v, clone);
    v.sort();
    assert_eq!(v, clone);
}

#[test]
fn random_shuffle_of_empty_and_single() {
    let mut empty: Vec<u32> = Vec::new();
    ShuffleStrategies::RandomShuffle.shuffle(&mut empty);
    assert!(empty.is_empty());

    let mut one = vec![7u32];
    ShuffleStrategies::RandomShuffle.shuffle(&mut one);
    assert_eq!(one, vec![7u32]);
}
