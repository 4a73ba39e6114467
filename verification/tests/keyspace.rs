use descrack::keyspace::advance_key;
use descrack::keyspace::min_key;

#[test]
fn first_candidate_is_all_zero() {
    assert_eq!(min_key(), *b"00000000");
}

#[test]
fn rightmost_byte_cycles_fastest() {
    let mut k = min_key();
    assert!(advance_key(&mut k));
    assert_eq!(&k, b"00000001");
    for _ in 0..8 {
        assert!(advance_key(&mut k));
    }
    assert_eq!(&k, b"00000009");
    assert!(advance_key(&mut k));
    assert_eq!(&k, b"0000000A");
    for _ in 0..5 {
        assert!(advance_key(&mut k));
    }
    assert_eq!(&k, b"0000000F");
    assert!(advance_key(&mut k));
    assert_eq!(&k, b"00000010");
}

#[test]
fn carry_propagates_leftward() {
    let mut k = *b"0000FFFF";
    assert!(advance_key(&mut k));
    assert_eq!(&k, b"00010000");
    let mut k = *b"0123456F";
    assert!(advance_key(&mut k));
    assert_eq!(&k, b"01234570");
}

#[test]
fn exhaustion_at_all_maximum_symbols() {
    let mut k = *b"FFFFFFFF";
    assert!(!advance_key(&mut k));
    assert_eq!(&k, b"FFFFFFFF");
    let mut k = *b"EFFFFFFF";
    assert!(advance_key(&mut k));
    assert_eq!(&k, b"F0000000");
}

#[test]
fn enumeration_is_strictly_increasing_without_repeats() {
    let mut k = min_key();
    let mut prev = k;
    for _ in 0..1000 {
        assert!(advance_key(&mut k));
        assert!(prev < k);
        prev = k;
    }
}
