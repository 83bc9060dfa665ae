use std::collections::HashSet;

use rand::rngs::StdRng;
use rand::{Rng, SeedableRng};
use xorf::hashing::{fingerprint, mix, reduce, rotl64};
use xorf::murmur3::mix64;
use xorf::splitmix64::splitmix64;

#[test]
fn mix_of_zero_is_zero() {
    assert_eq!(mix64(0), 0);
    assert_eq!(mix(0, 0), 0);
}

#[test]
fn mix64_known_values() {
    assert_eq!(mix64(1), 12994781566227106604);
    assert_eq!(mix64(0xdeadbeef), 15153440252345589164);
}

#[test]
fn mix_adds_the_seed_modulo_two_to_the_64() {
    assert_eq!(mix(5, 7), 9868841679122378805);
    assert_eq!(mix(5, 7), mix64(12));
    assert_eq!(mix(u64::MAX, 1), 0);
    assert_eq!(mix(u64::MAX, 2), mix64(1));
}

#[test]
fn mix_has_no_collisions() {
    const PROBES: usize = 1 << 20;
    let mut rng = StdRng::seed_from_u64(0x5eed0101);
    let seed: u64 = rng.gen();
    let mut keys: HashSet<u64> = HashSet::with_capacity(PROBES);
    while keys.len() < PROBES {
        keys.insert(rng.gen());
    }
    let hashes: HashSet<u64> = keys.iter().map(|key| mix(*key, seed)).collect();
    assert_eq!(hashes.len(), PROBES);
}

#[test]
fn splitmix64_matches_the_reference_vector() {
    let mut state: u64 = 1234567;
    assert_eq!(splitmix64(&mut state), 6457827717110365317);
    assert_eq!(splitmix64(&mut state), 3203168211198807973);
    assert_eq!(splitmix64(&mut state), 9817491932198370423);
    assert_eq!(splitmix64(&mut state), 4593380528125082431);
    assert_eq!(splitmix64(&mut state), 16408922859458223821);
}

#[test]
fn splitmix64_gives_the_seeds_of_the_builders() {
    let mut state: u64 = 1;
    assert_eq!(splitmix64(&mut state), 10451216379200822465);
    assert_eq!(state, 1 + 0x9e37_79b9_7f4a_7c15);
    assert_eq!(splitmix64(&mut state), 13757245211066428519);
}

#[test]
fn fingerprint_folds_the_halves() {
    assert_eq!(fingerprint(0), 0);
    assert_eq!(fingerprint(0x0123_4567_89ab_cdef), 81985529197398152);
    assert_eq!(fingerprint(0x0123_4567_89ab_cdef), 0x0123_4567_89ab_cdef ^ 0x0123_4567);
}

#[test]
fn rotl64_rotates() {
    assert_eq!(rotl64(0x0123_4567_89ab_cdef, 0), 0x0123_4567_89ab_cdef);
    assert_eq!(rotl64(0x0123_4567_89ab_cdef, 21), 12461800440903771240);
    assert_eq!(rotl64(0x0123_4567_89ab_cdef, 42), 12625766808089370150);
    assert_eq!(rotl64(1, 63), 0x8000_0000_0000_0000);
    assert_eq!(rotl64(0x8000_0000_0000_0000, 1), 1);
    assert_eq!(rotl64(0x0123_4567_89ab_cdef, 64), 0x0123_4567_89ab_cdef);
    assert_eq!(rotl64(0x0123_4567_89ab_cdef, 21), 0x0123_4567_89ab_cdef_u64.rotate_left(21));
}

#[test]
fn reduce_lands_in_the_interval() {
    assert_eq!(reduce(0xffff_ffff, 10), 9);
    assert_eq!(reduce(0x8000_0000, 10), 5);
    assert_eq!(reduce(12345, 1000), 0);
    assert_eq!(reduce(0, 10), 0);
    assert_eq!(reduce(0xffff_ffff, 1), 0);
    let mut rng = StdRng::seed_from_u64(0x5eed0102);
    for _ in 0..1000 {
        let hash: u32 = rng.gen();
        let n: usize = rng.gen_range(1..=0xffff_ffff);
        assert!(reduce(hash, n) < n);
    }
}
