use xorf::bfuse::{hash_of_hash, layout_for, mod3, Descriptor};
use xorf::sizing::segment_length;
use xorf::xor::{block_length_for, xor_h, HashSet};

fn float_segment_length(arity: u32, size: u32) -> u32 {
    if size == 0 {
        return 4;
    }
    match arity {
        3 => {
            let power: u32 =
                1 << (libm::floor(libm::log(size as f64) / libm::log(3.33_f64) + 2.25) as u32);
            power.min(262144)
        }
        4 => 1 << (libm::floor(libm::log(size as f64) / libm::log(2.91_f64) - 0.5) as u32),
        _ => 65536,
    }
}

fn float_capacity(size: usize) -> u32 {
    if size <= 1 {
        return 0;
    }
    let size_factor = libm::fmax(
        1.125_f64,
        0.875 + 0.25 * libm::log(1000000_f64) / libm::log(size as f64),
    );
    libm::round(size as f64 * size_factor) as u32
}

#[test]
fn segment_length_of_no_keys_is_four() {
    assert_eq!(segment_length(3, 0), 4);
    assert_eq!(segment_length(4, 0), 4);
    assert_eq!(segment_length(5, 0), 4);
}

#[test]
fn segment_length_exact_values() {
    assert_eq!(segment_length(3, 1), 4);
    assert_eq!(segment_length(3, 2), 4);
    assert_eq!(segment_length(3, 3), 8);
    assert_eq!(segment_length(3, 8), 8);
    assert_eq!(segment_length(3, 9), 16);
    assert_eq!(segment_length(3, 1000), 128);
    assert_eq!(segment_length(3, 1_000_000), 8192);
    assert_eq!(segment_length(3, 169_237_529), 131072);
    assert_eq!(segment_length(3, 169_237_530), 262144);
    assert_eq!(segment_length(3, 563_560_975), 262144);
    assert_eq!(segment_length(3, 1_876_658_045), 262144);
    assert_eq!(segment_length(3, u32::MAX), 262144);
    assert_eq!(segment_length(4, 1), 1);
    assert_eq!(segment_length(4, 2), 1);
    assert_eq!(segment_length(4, 5), 2);
    assert_eq!(segment_length(4, 1_000_000), 4096);
    assert_eq!(segment_length(7, 1), 65536);
}

#[test]
fn segment_length_agrees_with_the_logarithm() {
    let mut size: u64 = 1;
    while size <= u32::MAX as u64 {
        for near in [size - 1, size, size + 1] {
            if 1 <= near && near <= u32::MAX as u64 {
                assert_eq!(segment_length(3, near as u32), float_segment_length(3, near as u32));
                assert_eq!(segment_length(4, near as u32), float_segment_length(4, near as u32));
            }
        }
        size = size * 3 / 2 + 1;
    }
    for edge in [
        3u32, 9, 28, 92, 304, 1010, 3362, 11193, 37273, 124118, 413310, 1376322, 4583150, 15261887,
        50822082, 169237530, 563560975, 1876658045,
    ] {
        assert_eq!(segment_length(3, edge), float_segment_length(3, edge));
        assert_eq!(segment_length(3, edge - 1), float_segment_length(3, edge - 1));
        if edge <= 169237530 {
            assert_eq!(segment_length(3, edge), 2 * segment_length(3, edge - 1));
        } else {
            assert_eq!(segment_length(3, edge), 262144);
            assert_eq!(segment_length(3, edge - 1), 262144);
        }
    }
}

#[test]
fn segment_length_stays_in_its_bounds_and_grows() {
    let mut size: u64 = 0;
    let mut last: u32 = 4;
    while size <= u32::MAX as u64 {
        let length = segment_length(3, size as u32);
        assert!(length.is_power_of_two());
        assert!(4 <= length && length <= 262144);
        assert!(last <= length);
        last = length;
        size = size * 5 / 4 + 1;
    }
    assert_eq!(segment_length(3, u32::MAX), 262144);
}

#[test]
fn layout_exact_values() {
    let expected = |segment_length: u32, segment_count_length: u32| Descriptor {
        seed: 0,
        segment_length,
        segment_length_mask: segment_length - 1,
        segment_count_length,
    };
    assert_eq!(layout_for(0, 0), expected(4, 4));
    assert_eq!(layout_for(1, float_capacity(1)), expected(4, 4));
    assert_eq!(layout_for(2, float_capacity(2)), expected(4, 4));
    assert_eq!(layout_for(3, float_capacity(3)), expected(8, 8));
    assert_eq!(layout_for(10, float_capacity(10)), expected(16, 16));
    assert_eq!(layout_for(1000, float_capacity(1000)), expected(128, 1152));
    assert_eq!(layout_for(1_000_000, float_capacity(1_000_000)), expected(8192, 1114112));
    assert_eq!(float_capacity(1_000_000), 1_125_000);
}

#[test]
fn layout_ignores_the_capacity_for_one_key() {
    assert_eq!(layout_for(1, 1_000_000), layout_for(1, 0));
    assert_eq!(layout_for(0, 1_000_000), layout_for(0, 0));
}

#[test]
fn hash_of_hash_exact_values() {
    assert_eq!(hash_of_hash(0x0123_4567_89ab_cdef, 8, 7, 8), (0, 10, 23));
    assert_eq!(hash_of_hash(u64::MAX, 1024, 1023, 1024 * 100), (102399, 102400, 103424));
    assert_eq!(hash_of_hash(0, 4, 3, 4), (0, 4, 8));
}

#[test]
fn hash_of_hash_stays_in_three_segments() {
    let layout = layout_for(1000, float_capacity(1000));
    let mut hash: u64 = 0x9e37_79b9_7f4a_7c15;
    for _ in 0..10_000 {
        let (h0, h1, h2) = hash_of_hash(
            hash,
            layout.segment_length,
            layout.segment_length_mask,
            layout.segment_count_length,
        );
        assert!(h0 < layout.segment_count_length);
        assert_eq!(h1 / layout.segment_length, h0 / layout.segment_length + 1);
        assert_eq!(h2 / layout.segment_length, h0 / layout.segment_length + 2);
        assert!(h2 < layout.segment_count_length + 2 * layout.segment_length);
        hash = hash.wrapping_mul(0xbf58_476d_1ce4_e5b9).wrapping_add(1);
    }
}

#[test]
fn mod3_reduces_roles() {
    assert_eq!(mod3(0), 0);
    assert_eq!(mod3(1), 1);
    assert_eq!(mod3(2), 2);
    assert_eq!(mod3(3), 0);
    assert_eq!(mod3(4), 1);
    assert_eq!(mod3(5), 2);
}

#[test]
fn xor_block_length_exact_values() {
    assert_eq!(block_length_for(0), 10);
    assert_eq!(block_length_for(1), 11);
    assert_eq!(block_length_for(10), 14);
    assert_eq!(block_length_for(100), 51);
    assert_eq!(block_length_for(1_000_000), 410010);
}

#[test]
fn xor_indices_follow_the_rotations() {
    let hash: u64 = 0x0123_4567_89ab_cdef;
    let block_length: usize = 1000;
    let reduce = |rot: u64| (((rot as u32) as u64 * block_length as u64) >> 32) as usize;
    assert_eq!(xor_h(0, block_length, hash), reduce(hash));
    assert_eq!(xor_h(1, block_length, hash), reduce(hash.rotate_left(21)));
    assert_eq!(xor_h(2, block_length, hash), reduce(hash.rotate_left(42)));
    let set = HashSet::xor_from(5, block_length, 7);
    assert_eq!(set.hash, 9868841679122378805);
    assert_eq!(set.hset[0], xor_h(0, block_length, set.hash));
    assert_eq!(set.hset[1], xor_h(1, block_length, set.hash));
    assert_eq!(set.hset[2], xor_h(2, block_length, set.hash));
    let same = HashSet::from(5, block_length, 7);
    assert_eq!(same.hash, set.hash);
    assert_eq!(same.hset, set.hset);
}
