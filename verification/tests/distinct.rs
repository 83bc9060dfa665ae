use xorf::all_distinct;
use xorf::xor::{try_enqueue, HSet, KeyIndex};

#[test]
fn all_distinct_finds_repeated_keys() {
    assert!(all_distinct(&[]));
    assert!(all_distinct(&[7]));
    assert!(all_distinct(&[1, 2, 3]));
    assert!(!all_distinct(&[1, 2, 1]));
    assert!(!all_distinct(&[0, 0]));
    assert!(!all_distinct(&[5, 4, 3, 2, 1, 5]));
}

#[test]
fn try_enqueue_takes_sets_of_one_key() {
    let sets = vec![
        HSet { count: 0, mask: 11 },
        HSet { count: 1, mask: 22 },
        HSet { count: 2, mask: 33 },
    ];
    let mut queue = vec![KeyIndex { hash: 0, index: 0 }; 3];
    let mut size: usize = 0;
    try_enqueue(&sets, 0, &mut queue, &mut size);
    assert_eq!(size, 0);
    try_enqueue(&sets, 1, &mut queue, &mut size);
    assert_eq!(size, 1);
    assert_eq!(queue[0].hash, 22);
    assert_eq!(queue[0].index, 1);
    try_enqueue(&sets, 2, &mut queue, &mut size);
    assert_eq!(size, 1);
}
