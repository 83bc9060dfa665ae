use rand::rngs::StdRng;
use rand::{Rng, SeedableRng};
use xorf::fuse::{FUSE_CONSTRUCTION_FAILED, FUSE_DUPLICATE_KEYS};
use xorf::{Fill, Filter, Fuse8};

fn capacity_for(size: usize) -> usize {
    const FUSE_OVERHEAD: f64 = 1.0 / 0.879;
    (FUSE_OVERHEAD * size as f64) as usize
}

#[test]
fn fuse8_test_initialization() {
    const SAMPLE_SIZE: usize = 1_000_000;
    let mut rng = StdRng::seed_from_u64(1592590337);
    let keys: Vec<u64> = (0..SAMPLE_SIZE).map(|_| rng.gen()).collect();

    let filter = Fuse8::try_from_iterator(&keys, capacity_for(keys.len())).unwrap();

    for key in keys {
        assert!(filter.contains(&key));
    }
}

#[test]
fn fuse8_test_bits_per_entry() {
    const SAMPLE_SIZE: usize = 1_000_000;
    let mut rng = StdRng::seed_from_u64(1592590338);
    let keys: Vec<u64> = (0..SAMPLE_SIZE).map(|_| rng.gen()).collect();

    let filter = Fuse8::try_from_iterator(&keys, capacity_for(keys.len())).unwrap();
    let bpe = (filter.len() as f64) * 8.0 / (SAMPLE_SIZE as f64);

    assert!(bpe < 9.101, "Bits per entry is {}", bpe);
}

#[test]
fn fuse8_test_false_positives() {
    const SAMPLE_SIZE: usize = 1_000_000;
    let mut rng = StdRng::seed_from_u64(1592590339);
    let keys: Vec<u64> = (0..SAMPLE_SIZE).map(|_| rng.gen()).collect();

    let filter = Fuse8::try_from_iterator(&keys, capacity_for(keys.len())).unwrap();

    let false_positives: usize = (0..SAMPLE_SIZE)
        .map(|_| rng.gen())
        .filter(|n| filter.contains(n))
        .count();
    let fp_rate: f64 = (false_positives * 100) as f64 / SAMPLE_SIZE as f64;
    assert!(fp_rate < 0.406, "False positive rate is {}", fp_rate);
}

#[test]
fn fuse8_test_fail_construction() {
    const SAMPLE_SIZE: usize = 1_000;
    let mut rng = StdRng::seed_from_u64(1592590340);
    let keys: Vec<u64> = (0..SAMPLE_SIZE).map(|_| rng.gen()).collect();

    let filter = Fuse8::try_from_iterator(&keys, capacity_for(keys.len()));
    assert!(filter.expect_err("") == "Failed to construct fuse filter.");
    assert_eq!(FUSE_CONSTRUCTION_FAILED, "Failed to construct fuse filter.");
}

#[test]
fn fuse8_refuses_duplicates() {
    let result = Fuse8::try_from_iterator(&[1, 2, 1], 102);
    assert_eq!(result.err(), Some(FUSE_DUPLICATE_KEYS));
    assert_eq!(
        FUSE_DUPLICATE_KEYS,
        "Fuse filters must be constructed from a collection containing all distinct keys."
    );
}

#[test]
fn fuse8_of_no_keys() {
    let filter = Fuse8::try_from_iterator(&[], capacity_for(0)).unwrap();
    assert_eq!(filter.len(), 0);
    assert_eq!(filter.segment_length(), 0);
    assert_eq!(filter.seed(), 10451216379200822465);
    for probe in [0u64, 1, 42, u64::MAX] {
        assert!(!filter.contains(&probe));
    }
    let roomy = Fuse8::try_from_iterator(&[], 204).unwrap();
    assert_eq!(roomy.len(), 204);
    assert_eq!(roomy.seed(), 10451216379200822465);
    assert!(roomy.fingerprints().iter().all(|value| *value == 0));
}

#[test]
fn fuse8_size_follows_the_capacity() {
    let keys: Vec<u64> = (0..200_000u64).map(|key| key.wrapping_mul(0x9e37_79b9_7f4a_7c15)).collect();
    let capacity = capacity_for(keys.len());
    assert_eq!(capacity, 227531);
    let filter = Fuse8::try_from_iterator(&keys, capacity).unwrap();
    assert_eq!(filter.segment_length(), 2230);
    assert_eq!(filter.len(), 227460);
    assert_eq!(filter.fingerprints().len(), 227460);
    let again = Fuse8::try_from_iterator(&keys, capacity).unwrap();
    assert_eq!(again.seed(), filter.seed());
    assert_eq!(again.fingerprints(), filter.fingerprints());
    let copy = filter.clone();
    assert_eq!(copy.fingerprints(), filter.fingerprints());
    for key in &keys {
        assert!(filter.contains(key));
    }
}

#[test]
fn fuse8_query_equation() {
    let keys: Vec<u64> = (0..200_000u64).map(|key| key * 3 + 1).collect();
    let filter = Fuse8::try_from_iterator(&keys, capacity_for(keys.len())).unwrap();
    let fingerprints = filter.fingerprints();
    for key in keys {
        let set = xorf::xor::HashSet::fuse_from(key, filter.segment_length(), filter.seed());
        let slots = xorf::fuse::H012::from(set.hash, filter.segment_length());
        assert_eq!(slots.hset, set.hset);
        assert_eq!(set.hash, xorf::hashing::mix(key, filter.seed()));
        let expected = xorf::hashing::fingerprint(set.hash) as u8;
        assert_eq!(
            expected,
            fingerprints[set.hset[0]] ^ fingerprints[set.hset[1]] ^ fingerprints[set.hset[2]]
        );
    }
}

#[test]
fn fuse8_fill_of_unused_slots() {
    let keys: Vec<u64> = (0..200_000u64).map(|key| key * 104729 + 11).collect();
    let capacity = capacity_for(keys.len());
    let plain = Fuse8::try_from_iterator(&keys, capacity).unwrap();
    let zero = Fuse8::try_from_iterator_with_fill(&keys, capacity, Fill::Zero).unwrap();
    let random = Fuse8::try_from_iterator_with_fill(&keys, capacity, Fill::UniformRandom).unwrap();
    assert_eq!(zero.seed(), plain.seed());
    assert_eq!(zero.fingerprints(), plain.fingerprints());
    assert_eq!(random.seed(), plain.seed());
    assert_eq!(random.len(), plain.len());

    let mut touched = vec![false; plain.len()];
    for key in &keys {
        assert!(random.contains(key));
        let set = xorf::xor::HashSet::fuse_from(*key, plain.segment_length(), plain.seed());
        touched[set.hset[0]] = true;
        touched[set.hset[1]] = true;
        touched[set.hset[2]] = true;
    }
    let mut unused = 0;
    let mut unused_and_filled = 0;
    for (slot, used) in touched.iter().enumerate() {
        if !used {
            unused += 1;
            assert_eq!(zero.fingerprints()[slot], 0);
            if random.fingerprints()[slot] != 0 {
                unused_and_filled += 1;
            }
        }
    }
    assert!(unused > 0);
    assert!(unused_and_filled * 2 > unused);
}

#[test]
fn fuse8_from_parts_checks_the_sizes() {
    let empty = Fuse8::from_parts(1, 0, vec![]).unwrap();
    assert!(!empty.contains(&0));
    assert!(Fuse8::from_parts(1, 0, vec![0; 102]).is_none());
    assert!(Fuse8::from_parts(1, 1, vec![0; 101]).is_none());
    assert!(Fuse8::from_parts(1, 1, vec![0; 102]).is_some());
    assert!(Fuse8::from_parts(1, 2, vec![0; 204]).is_some());
    assert!(Fuse8::from_parts(1, 2, vec![0; 205]).is_none());
}

#[test]
fn fuse_indices_exact_values() {
    let slots = xorf::fuse::H012::from(0x0123_4567_89ab_cdef, 1000);
    let hash: u64 = 0x0123_4567_89ab_cdef;
    let reduce = |value: u32, n: usize| ((value as u64 * n as u64) >> 32) as usize;
    let segment = reduce(hash as u32, 100);
    assert_eq!(segment, 53);
    assert_eq!(slots.hset[0], segment * 1000 + reduce(hash.rotate_left(21) as u32, 1000));
    assert_eq!(slots.hset[1], (segment + 1) * 1000 + reduce(hash.rotate_left(42) as u32, 1000));
    assert_eq!(
        slots.hset[2],
        (segment + 2) * 1000
            + reduce((0xBF58_476D_1CE4_E5B9_u64.wrapping_mul(hash) >> 32) as u32, 1000)
    );
}
