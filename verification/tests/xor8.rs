use rand::rngs::StdRng;
use rand::{Rng, SeedableRng};
use xorf::xor::{XOR_CONSTRUCTION_FAILED, XOR_DUPLICATE_KEYS};
use xorf::{Filter, Xor8, Xor8Ref};

#[test]
fn xor8_test_initialization() {
    const SAMPLE_SIZE: usize = 1_000_000;
    let mut rng = StdRng::seed_from_u64(1592590337);
    let keys: Vec<u64> = (0..SAMPLE_SIZE).map(|_| rng.gen()).collect();

    let filter = Xor8::from_iterator(&keys).unwrap();

    for key in keys {
        assert!(filter.contains(&key));
    }
}

#[test]
fn xor8_test_bits_per_entry() {
    const SAMPLE_SIZE: usize = 1_000_000;
    let mut rng = StdRng::seed_from_u64(1592590338);
    let keys: Vec<u64> = (0..SAMPLE_SIZE).map(|_| rng.gen()).collect();

    let filter = Xor8::from_iterator(&keys).unwrap();
    let bpe = (filter.len() as f64) * 8.0 / (SAMPLE_SIZE as f64);

    assert!(bpe < 10., "Bits per entry is {}", bpe);
}

#[test]
fn xor8_test_false_positives() {
    const SAMPLE_SIZE: usize = 1_000_000;
    let mut rng = StdRng::seed_from_u64(1592590339);
    let keys: Vec<u64> = (0..SAMPLE_SIZE).map(|_| rng.gen()).collect();

    let filter = Xor8::from_iterator(&keys).unwrap();

    let false_positives: usize = (0..SAMPLE_SIZE)
        .map(|_| rng.gen())
        .filter(|n| filter.contains(n))
        .count();
    let fp_rate: f64 = (false_positives * 100) as f64 / SAMPLE_SIZE as f64;
    assert!(fp_rate < 0.406, "False positive rate is {}", fp_rate);
}

#[test]
fn xor8_array_length_per_key() {
    const SAMPLE_SIZE: usize = 1_000_000;
    let mut rng = StdRng::seed_from_u64(0x5eed0200);
    let keys: Vec<u64> = (0..SAMPLE_SIZE).map(|_| rng.gen()).collect();

    let filter = Xor8::from_iterator(&keys).unwrap();
    assert_eq!(filter.len(), 1_230_030);
    assert!((filter.len() as f64) / (SAMPLE_SIZE as f64) < 1.26);
}

#[test]
fn xor8_refuses_duplicates() {
    let result = Xor8::from_iterator(&[1, 2, 1]);
    assert_eq!(result.err(), Some(XOR_DUPLICATE_KEYS));
    assert_eq!(
        XOR_DUPLICATE_KEYS,
        "Xor filters must be constructed from a collection containing all distinct keys."
    );
    assert_eq!(XOR_CONSTRUCTION_FAILED, "Failed to construct xor filter.");
}

#[test]
fn xor8_size_follows_the_number_of_keys() {
    let sizes: [(usize, usize); 5] = [(0, 30), (1, 33), (10, 42), (100, 153), (1000, 1260)];
    for (num_keys, slots) in sizes {
        let keys: Vec<u64> = (0..num_keys as u64).map(|key| key * 7919 + 3).collect();
        let filter = Xor8::from_iterator(&keys).unwrap();
        assert_eq!(filter.len(), slots);
        assert_eq!(filter.block_length() * 3, slots);
        assert_eq!(filter.fingerprints().len(), slots);
        for key in keys {
            assert!(filter.contains(&key));
        }
    }
}

#[test]
fn xor8_build_is_a_function_of_the_keys() {
    let keys: Vec<u64> = (0..10_000u64).map(|key| key.wrapping_mul(0x9e37_79b9_7f4a_7c15)).collect();
    let first = Xor8::from_iterator(&keys).unwrap();
    let second = Xor8::from_iterator(&keys).unwrap();
    assert_eq!(first.seed(), second.seed());
    assert_eq!(first.fingerprints(), second.fingerprints());
    // The first seed that the generator gives out works for these keys.
    assert_eq!(first.seed(), 10451216379200822465);
    let copy = first.clone();
    assert_eq!(copy.seed(), first.seed());
    assert_eq!(copy.block_length(), first.block_length());
    assert_eq!(copy.fingerprints(), first.fingerprints());
    for probe in 0..100_000u64 {
        assert_eq!(first.contains(&probe), second.contains(&probe));
        assert_eq!(first.contains(&probe), first.contains(&probe));
        assert_eq!(first.contains(&probe), copy.contains(&probe));
    }
}

#[test]
fn xor8_query_equation() {
    let keys: Vec<u64> = (0..1000u64).map(|key| key * key + 17).collect();
    let filter = Xor8::from_iterator(&keys).unwrap();
    let block_length = filter.block_length();
    let fingerprints = filter.fingerprints();
    for key in keys {
        let hash = xorf::hashing::mix(key, filter.seed());
        let h0 = xorf::xor::xor_h(0, block_length, hash);
        let h1 = xorf::xor::xor_h(1, block_length, hash) + block_length;
        let h2 = xorf::xor::xor_h(2, block_length, hash) + 2 * block_length;
        let expected = xorf::hashing::fingerprint(hash) as u8;
        assert_eq!(expected, fingerprints[h0] ^ fingerprints[h1] ^ fingerprints[h2]);
    }
}

#[test]
fn xor8_unused_slots_hold_zero() {
    let keys: Vec<u64> = (0..1000u64).map(|key| key * 104729 + 11).collect();
    let filter = Xor8::from_iterator(&keys).unwrap();
    let block_length = filter.block_length();
    let mut touched = vec![false; filter.len()];
    for key in &keys {
        let set = xorf::xor::HashSet::xor_from(*key, block_length, filter.seed());
        touched[set.hset[0]] = true;
        touched[set.hset[1] + block_length] = true;
        touched[set.hset[2] + 2 * block_length] = true;
    }
    let mut unused = 0;
    for (slot, used) in touched.iter().enumerate() {
        if !used {
            unused += 1;
            assert_eq!(filter.fingerprints()[slot], 0);
        }
    }
    assert!(unused > 0);
}

#[test]
fn xor8_from_parts_checks_the_sizes() {
    let keys: Vec<u64> = (0..100u64).collect();
    let filter = Xor8::from_iterator(&keys).unwrap();
    let again = Xor8::from_parts(
        filter.seed(),
        filter.block_length(),
        filter.fingerprints().to_vec(),
    )
    .unwrap();
    for key in keys {
        assert!(again.contains(&key));
    }
    assert!(Xor8::from_parts(1, 0, vec![]).is_none());
    assert!(Xor8::from_parts(1, 2, vec![0; 5]).is_none());
    assert!(Xor8::from_parts(1, 2, vec![0; 7]).is_none());
    assert!(Xor8::from_parts(1, 2, vec![0; 6]).is_some());
}

#[test]
fn xor8_test_dma_roundtrip() {
    const SAMPLE_SIZE: usize = 100_000;
    let mut rng = StdRng::seed_from_u64(1592590340);
    let keys: Vec<u64> = (0..SAMPLE_SIZE).map(|_| rng.gen()).collect();

    let filter = Xor8::from_iterator(&keys).unwrap();

    // Unaligned descriptor is fine.
    let mut descriptor = [0; Xor8::DESCRIPTOR_LEN + 1];
    filter.dma_copy_descriptor_to(&mut descriptor[1..]);
    assert_eq!(&descriptor[1..9], &filter.seed().to_le_bytes()[..]);
    assert_eq!(&descriptor[9..17], &(filter.block_length() as u64).to_le_bytes()[..]);

    let fingerprints = filter.dma_fingerprints();
    assert_eq!(fingerprints.len(), filter.len() * 1);
    let filter_ref = Xor8Ref::try_from_dma(&descriptor[1..], &fingerprints[..]).unwrap();
    assert_eq!(filter_ref.len(), filter.len());

    for key in &keys {
        assert!(filter_ref.contains(key));
    }
    for _ in 0..SAMPLE_SIZE {
        let probe: u64 = rng.gen();
        assert_eq!(filter_ref.contains(&probe), filter.contains(&probe));
    }
    assert!(Xor8Ref::try_from_dma(&descriptor[1..5], &fingerprints[..]).is_none());
    assert!(Xor8Ref::try_from_dma(&descriptor[1..], &fingerprints[1..]).is_none());
}
