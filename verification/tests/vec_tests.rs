use mlc::AtomicVec;

#[test]
fn sequence_round_trip() {
    let mut seq = AtomicVec::new();
    seq.push(1u64);
    seq.push(2u64);
    seq.push(3u64);
    assert_eq!(*seq.get(0).unwrap(), 1);
    assert_eq!(*seq.get(1).unwrap(), 2);
    assert_eq!(*seq.get(2).unwrap(), 3);
    assert!(seq.get(3).is_none());
    assert_eq!(*seq.pop().unwrap(), 3);
    assert_eq!(*seq.pop().unwrap(), 2);
    assert_eq!(*seq.pop().unwrap(), 1);
    assert!(seq.pop().is_none());
}

#[test]
fn pop_on_empty_is_absent() {
    let mut seq: AtomicVec<u64> = AtomicVec::new();
    assert!(seq.pop().is_none());
}

#[test]
fn pop_on_single_element_empties() {
    let mut seq = AtomicVec::new_with_capacity(4);
    seq.push("only");
    assert_eq!(*seq.pop().unwrap(), "only");
    assert!(seq.pop().is_none());
    assert!(seq.get(0).is_none());
}

#[test]
fn get_at_length_is_absent() {
    let mut seq = AtomicVec::new();
    seq.push(7u64);
    assert!(seq.get(1).is_none());
}

#[test]
fn get_beam_is_a_snapshot() {
    let mut seq = AtomicVec::new();
    seq.push(10u64);
    seq.push(20u64);
    let beam = seq.get_beam();
    seq.push(30u64);
    assert_eq!(beam.len(), 2);
    assert_eq!(*beam[0], 10);
    assert_eq!(*beam[1], 20);
    assert_eq!(*seq.get(2).unwrap(), 30);
}

#[test]
fn update_rewrites_the_array() {
    let mut seq = AtomicVec::new();
    seq.push(5u64);
    seq.push(6u64);
    let old_len = seq.update(|vec| {
        let len = vec.len();
        (std::sync::Arc::new(Vec::new()), len)
    });
    assert_eq!(old_len, 2);
    assert!(seq.get(0).is_none());
}
