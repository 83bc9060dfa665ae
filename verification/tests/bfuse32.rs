use rand::rngs::StdRng;
use rand::{Rng, SeedableRng};
use xorf::bfuse::{BFUSE_CONSTRUCTION_FAILED, BFUSE_DUPLICATE_KEYS};
use xorf::{BinaryFuse32, BinaryFuse32Ref, Fill, Filter};

fn capacity_for(size: usize) -> u32 {
    if size <= 1 {
        return 0;
    }
    let size_factor = libm::fmax(
        1.125_f64,
        0.875 + 0.25 * libm::log(1000000_f64) / libm::log(size as f64),
    );
    libm::round(size as f64 * size_factor) as u32
}

#[test]
fn bfuse32_test_initialization() {
    const SAMPLE_SIZE: usize = 1_000_000;
    let mut rng = StdRng::seed_from_u64(1592590341);
    let keys: Vec<u64> = (0..SAMPLE_SIZE).map(|_| rng.gen()).collect();

    let filter = BinaryFuse32::try_from_iterator(&keys, capacity_for(keys.len())).unwrap();

    for key in keys {
        assert!(filter.contains(&key));
    }
}

#[test]
fn bfuse32_test_bits_per_entry() {
    const SAMPLE_SIZE: usize = 1_000_000;
    let mut rng = StdRng::seed_from_u64(1592590342);
    let keys: Vec<u64> = (0..SAMPLE_SIZE).map(|_| rng.gen()).collect();

    let filter = BinaryFuse32::try_from_iterator(&keys, capacity_for(keys.len())).unwrap();
    let bpe = (filter.len() as f64) * 32.0 / (SAMPLE_SIZE as f64);

    assert!(bpe < 36.3, "Bits per entry is {}", bpe);
}

#[test]
fn bfuse32_test_false_positives() {
    const SAMPLE_SIZE: usize = 1_000_000;
    let mut rng = StdRng::seed_from_u64(1592590343);
    let keys: Vec<u64> = (0..SAMPLE_SIZE).map(|_| rng.gen()).collect();

    let filter = BinaryFuse32::try_from_iterator(&keys, capacity_for(keys.len())).unwrap();

    let false_positives: usize = (0..SAMPLE_SIZE)
        .map(|_| rng.gen())
        .filter(|n| filter.contains(n))
        .count();
    let fp_rate: f64 = (false_positives * 100) as f64 / SAMPLE_SIZE as f64;
    assert!(fp_rate < 0.00015, "False positive rate is {}", fp_rate);
}

#[test]
fn bfuse32_test_dma_roundtrip() {
    const SAMPLE_SIZE: usize = 1_000_000;
    let mut rng = StdRng::seed_from_u64(1592590344);
    let keys: Vec<u64> = (0..SAMPLE_SIZE).map(|_| rng.gen()).collect();

    let filter = BinaryFuse32::try_from_iterator(&keys, capacity_for(keys.len())).unwrap();

    // Unaligned descriptor is fine.
    let mut descriptor = [0; BinaryFuse32::DESCRIPTOR_LEN + 1];
    filter.dma_copy_descriptor_to(&mut descriptor[1..]);

    let fingerprints = filter.dma_fingerprints();
    let filter_ref = BinaryFuse32Ref::from_dma(&descriptor[1..], &fingerprints[..]);
    assert_eq!(filter_ref.descriptor(), filter.descriptor());

    for key in &keys {
        assert!(filter_ref.contains(key));
    }
}

#[test]
fn bfuse32_dma_agrees_on_every_probe() {
    const SAMPLE_SIZE: usize = 100_000;
    let mut rng = StdRng::seed_from_u64(1592590345);
    let keys: Vec<u64> = (0..SAMPLE_SIZE).map(|_| rng.gen()).collect();
    let filter = BinaryFuse32::try_from_iterator(&keys, capacity_for(keys.len())).unwrap();

    // The descriptor at an offset that is not zero in a larger buffer.
    let mut buffer = vec![0xaa_u8; 64];
    filter.dma_copy_descriptor_to(&mut buffer[3..]);
    assert_eq!(buffer[0..3], [0xaa, 0xaa, 0xaa]);
    assert!(buffer[3 + BinaryFuse32::DESCRIPTOR_LEN..].iter().all(|byte| *byte == 0xaa));

    let fingerprints = filter.dma_fingerprints();
    assert_eq!(fingerprints.len(), filter.len() * BinaryFuse32Ref::FINGERPRINT_ALIGNMENT);
    let view = BinaryFuse32Ref::try_from_dma(&buffer[3..], &fingerprints[..]).unwrap();
    assert_eq!(view.len(), filter.len());
    for key in &keys {
        assert!(view.contains(key));
    }
    for _ in 0..SAMPLE_SIZE {
        let probe: u64 = rng.gen();
        assert_eq!(view.contains(&probe), filter.contains(&probe));
    }
}

#[test]
fn bfuse32_descriptor_wire_layout() {
    let keys: Vec<u64> = (0..1000u64).map(|key| key * 31 + 5).collect();
    let filter = BinaryFuse32::try_from_iterator(&keys, capacity_for(keys.len())).unwrap();
    let descriptor = filter.descriptor();
    assert_eq!(descriptor.segment_length, 128);
    assert_eq!(descriptor.segment_length_mask, 127);
    assert_eq!(descriptor.segment_count_length, 1152);
    assert_eq!(filter.len(), 1408);

    let mut bytes = [0u8; 20];
    filter.dma_copy_descriptor_to(&mut bytes);
    assert_eq!(BinaryFuse32::DESCRIPTOR_LEN, 20);
    assert_eq!(&bytes[0..8], &descriptor.seed.to_le_bytes()[..]);
    assert_eq!(&bytes[8..12], &[128, 0, 0, 0][..]);
    assert_eq!(&bytes[12..16], &[127, 0, 0, 0][..]);
    assert_eq!(&bytes[16..20], &[0x80, 0x04, 0, 0][..]);

    let fingerprints = filter.dma_fingerprints();
    let stored = filter.fingerprints();
    for (index, value) in stored.iter().enumerate() {
        let width = BinaryFuse32Ref::FINGERPRINT_ALIGNMENT;
        assert_eq!(&fingerprints[index * width..(index + 1) * width], &value.to_le_bytes()[..]);
    }
}

#[test]
fn bfuse32_refuses_buffers_that_do_not_fit() {
    let keys: Vec<u64> = (0..1000u64).map(|key| key * 31 + 5).collect();
    let filter = BinaryFuse32::try_from_iterator(&keys, capacity_for(keys.len())).unwrap();
    let mut descriptor = [0u8; 20];
    filter.dma_copy_descriptor_to(&mut descriptor);
    let fingerprints = filter.dma_fingerprints();
    assert!(BinaryFuse32Ref::try_from_dma(&descriptor, &fingerprints[..]).is_some());
    assert!(BinaryFuse32Ref::try_from_dma(&descriptor[..19], &fingerprints[..]).is_none());
    assert!(
        BinaryFuse32Ref::try_from_dma(&descriptor, &fingerprints[..fingerprints.len() - 1])
            .is_none()
    );
    let mut broken = descriptor;
    broken[8] = 127;
    assert!(BinaryFuse32Ref::try_from_dma(&broken, &fingerprints[..]).is_none());
    let mut unmasked = descriptor;
    unmasked[12] = 63;
    assert!(BinaryFuse32Ref::try_from_dma(&unmasked, &fingerprints[..]).is_none());
}

#[test]
fn bfuse32_refuses_duplicates() {
    let result = BinaryFuse32::try_from_iterator(&[1, 2, 1], capacity_for(3));
    assert_eq!(result.err(), Some(BFUSE_DUPLICATE_KEYS));
    assert_eq!(
        BFUSE_DUPLICATE_KEYS,
        "Binary Fuse filters must be constructed from a collection containing all distinct keys."
    );
}

#[test]
fn bfuse32_fails_without_room() {
    let keys: Vec<u64> = (0..10_000u64).map(|key| key.wrapping_mul(0x9e37_79b9_7f4a_7c15)).collect();
    let result = BinaryFuse32::try_from_iterator(&keys, 0);
    assert_eq!(result.err(), Some(BFUSE_CONSTRUCTION_FAILED));
    assert_eq!(BFUSE_CONSTRUCTION_FAILED, "Failed to construct binary fuse filter.");
}

#[test]
fn bfuse32_single_key() {
    for key in [0u64, 1, 42, u64::MAX, 0u64.wrapping_sub(10451216379200822465)] {
        let filter = BinaryFuse32::try_from_iterator(&[key], capacity_for(1)).unwrap();
        assert!(filter.contains(&key));
        assert_eq!(filter.len(), 12);
    }
    let empty = BinaryFuse32::try_from_iterator(&[], 0).unwrap();
    assert_eq!(empty.len(), 12);
}

#[test]
fn bfuse32_small_sets() {
    for size in [2usize, 3, 4, 5, 10, 50, 100, 1000, 10_000] {
        let keys: Vec<u64> = (0..size as u64).map(|key| key.wrapping_mul(0x2545_f491_4f6c_dd1d) ^ 9).collect();
        let filter = BinaryFuse32::try_from_iterator(&keys, capacity_for(size)).unwrap();
        for key in &keys {
            assert!(filter.contains(key));
        }
    }
}

#[test]
fn bfuse32_build_is_a_function_of_the_keys() {
    let keys: Vec<u64> = (0..10_000u64).map(|key| key.wrapping_mul(0x9e37_79b9_7f4a_7c15)).collect();
    let first = BinaryFuse32::try_from_iterator(&keys, capacity_for(keys.len())).unwrap();
    let second = BinaryFuse32::try_from_iterator(&keys, capacity_for(keys.len())).unwrap();
    assert_eq!(first.descriptor(), second.descriptor());
    assert_eq!(first.fingerprints(), second.fingerprints());
    let copy = first.clone();
    assert_eq!(copy.descriptor(), first.descriptor());
    assert_eq!(copy.fingerprints(), first.fingerprints());
    for probe in 0..100_000u64 {
        assert_eq!(first.contains(&probe), second.contains(&probe));
        assert_eq!(first.contains(&probe), first.contains(&probe));
    }
}

#[test]
fn bfuse32_query_equation() {
    let keys: Vec<u64> = (0..1000u64).map(|key| key * key + 17).collect();
    let filter = BinaryFuse32::try_from_iterator(&keys, capacity_for(keys.len())).unwrap();
    let descriptor = filter.descriptor();
    let fingerprints = filter.fingerprints();
    for key in keys {
        let hash = xorf::hashing::mix(key, descriptor.seed);
        let (h0, h1, h2) = xorf::bfuse::hash_of_hash(
            hash,
            descriptor.segment_length,
            descriptor.segment_length_mask,
            descriptor.segment_count_length,
        );
        let expected = xorf::hashing::fingerprint(hash) as u32;
        assert_eq!(
            expected,
            fingerprints[h0 as usize] ^ fingerprints[h1 as usize] ^ fingerprints[h2 as usize]
        );
    }
}

#[test]
fn bfuse32_fill_of_unused_slots() {
    let keys: Vec<u64> = (0..1000u64).map(|key| key * 104729 + 11).collect();
    let plain = BinaryFuse32::try_from_iterator(&keys, capacity_for(keys.len())).unwrap();
    let zero =
        BinaryFuse32::try_from_iterator_with_fill(&keys, capacity_for(keys.len()), Fill::Zero)
            .unwrap();
    let random = BinaryFuse32::try_from_iterator_with_fill(
        &keys,
        capacity_for(keys.len()),
        Fill::UniformRandom,
    )
    .unwrap();
    assert_eq!(zero.descriptor(), plain.descriptor());
    assert_eq!(zero.fingerprints(), plain.fingerprints());
    assert_eq!(random.descriptor(), plain.descriptor());
    assert_eq!(random.len(), plain.len());

    let descriptor = plain.descriptor();
    let mut touched = vec![false; plain.len()];
    for key in &keys {
        assert!(random.contains(key));
        let hash = xorf::hashing::mix(*key, descriptor.seed);
        let (h0, h1, h2) = xorf::bfuse::hash_of_hash(
            hash,
            descriptor.segment_length,
            descriptor.segment_length_mask,
            descriptor.segment_count_length,
        );
        touched[h0 as usize] = true;
        touched[h1 as usize] = true;
        touched[h2 as usize] = true;
    }
    let mut unused = 0;
    let mut unused_and_filled = 0;
    for (slot, used) in touched.iter().enumerate() {
        if !used {
            unused += 1;
            assert_eq!(zero.fingerprints()[slot], 0);
            if random.fingerprints()[slot] != 0 {
                unused_and_filled += 1;
            }
        }
    }
    assert!(unused > 0);
    assert!(unused_and_filled * 2 > unused);
}

#[test]
fn bfuse32_from_parts_checks_the_sizes() {
    let keys: Vec<u64> = (0..100u64).collect();
    let filter = BinaryFuse32::try_from_iterator(&keys, capacity_for(keys.len())).unwrap();
    let again = BinaryFuse32::from_parts(filter.descriptor(), filter.fingerprints().to_vec()).unwrap();
    for key in keys {
        assert!(again.contains(&key));
    }
    let mut short = filter.fingerprints().to_vec();
    short.pop();
    assert!(BinaryFuse32::from_parts(filter.descriptor(), short).is_none());
    let mut descriptor = filter.descriptor();
    descriptor.segment_length_mask = 0;
    assert!(BinaryFuse32::from_parts(descriptor, filter.fingerprints().to_vec()).is_none());
}
