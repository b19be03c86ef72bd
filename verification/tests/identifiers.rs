use committee_scheduler::ident::{DecodeError, Identifier};
use committee_scheduler::node::{Node, Role};

fn id(n: u64) -> Identifier {
    Identifier { w0: 0, w1: 0, w2: 0, w3: n }
}

#[test]
fn from_slice_reads_big_endian_words() {
    let bytes: Vec<u8> = (0u8..32).collect();
    let got = Identifier::from_slice(&bytes).unwrap();
    assert_eq!(
        got,
        Identifier {
            w0: 0x0001_0203_0405_0607,
            w1: 0x0809_0a0b_0c0d_0e0f,
            w2: 0x1011_1213_1415_1617,
            w3: 0x1819_1a1b_1c1d_1e1f,
        }
    );
}

#[test]
fn from_slice_rejects_other_lengths() {
    assert_eq!(Identifier::from_slice(&[]), Err(DecodeError::BadLength(0)));
    assert_eq!(Identifier::from_slice(&[7u8; 31]), Err(DecodeError::BadLength(31)));
    assert_eq!(Identifier::from_slice(&[7u8; 33]), Err(DecodeError::BadLength(33)));
    assert!(Identifier::from_slice(&[7u8; 32]).is_ok());
}

#[test]
fn to_bytes_writes_big_endian_words() {
    let got = Identifier { w0: 0xff00_0000_0000_0001, w1: 2, w2: 0x0102_0304_0506_0708, w3: u64::MAX }
        .to_bytes();
    let mut want: Vec<u8> = vec![0xff, 0, 0, 0, 0, 0, 0, 1];
    want.extend_from_slice(&[0, 0, 0, 0, 0, 0, 0, 2]);
    want.extend_from_slice(&[1, 2, 3, 4, 5, 6, 7, 8]);
    want.extend_from_slice(&[0xff; 8]);
    assert_eq!(got, want);
}

#[test]
fn bytes_round_trip_both_ways() {
    let bytes: Vec<u8> = (0u8..32).map(|b| b.wrapping_mul(37).wrapping_add(11)).collect();
    let decoded = Identifier::from_slice(&bytes).unwrap();
    assert_eq!(decoded.to_bytes(), bytes);
    let some = Identifier { w0: 1, w1: u64::MAX, w2: 0, w3: 0x8000_0000_0000_0000 };
    assert_eq!(Identifier::from_slice(&some.to_bytes()), Ok(some));
}

#[test]
fn zero_is_all_zero_bytes() {
    assert_eq!(Identifier::zero().to_bytes(), vec![0u8; 32]);
}

#[test]
fn identifier_order_is_lexicographic() {
    let a = Identifier { w0: 1, w1: 9, w2: 9, w3: 9 };
    let b = Identifier { w0: 2, w1: 0, w2: 0, w3: 0 };
    let c = Identifier { w0: 2, w1: 0, w2: 0, w3: 1 };
    assert!(a.is_before(&b));
    assert!(b.is_before(&c));
    assert!(a.is_before(&c));
    assert!(!b.is_before(&a));
    assert!(!c.is_before(&b));
    assert!(!a.is_before(&a));
}

#[test]
fn identifier_order_matches_byte_order() {
    let a = Identifier { w0: 0, w1: 0x0100, w2: 0, w3: 0 };
    let b = Identifier { w0: 0, w1: 0x00ff, w2: u64::MAX, w3: u64::MAX };
    assert_eq!(b.is_before(&a), b.to_bytes() < a.to_bytes());
    assert_eq!(a.is_before(&b), a.to_bytes() < b.to_bytes());
    assert!(b.is_before(&a));
}

#[test]
fn new_node_is_live_without_capabilities() {
    let n = Node::new(id(5), 17);
    assert_eq!(n.id, id(5));
    assert_eq!(n.weight, 17);
    assert!(n.live);
    assert_eq!(n.capabilities, 0);
    for r in 0u8..=255 {
        assert!(!n.can_serve(Role(r)));
    }
}

#[test]
fn capabilities_are_independent() {
    let n = Node::new(id(5), 1).with_capability(Role(0)).with_capability(Role(63));
    assert!(n.can_serve(Role(0)));
    assert!(n.can_serve(Role(63)));
    assert!(!n.can_serve(Role(1)));
    assert!(!n.can_serve(Role(62)));
    assert_eq!(n.capabilities, 0x8000_0000_0000_0001);
}

#[test]
fn role_beyond_the_bound_is_never_served() {
    let n = Node::new(id(5), 1).with_capability(Role(64)).with_capability(Role(200));
    assert_eq!(n, Node::new(id(5), 1));
    assert!(!n.can_serve(Role(64)));
    assert!(!n.can_serve(Role(200)));
}

#[test]
fn liveness_can_be_changed() {
    let n = Node::new(id(5), 1).with_capability(Role(3));
    let dead = n.with_liveness(false);
    assert!(!dead.live);
    assert_eq!(dead.id, n.id);
    assert_eq!(dead.capabilities, n.capabilities);
    assert_eq!(dead.weight, n.weight);
    assert_eq!(dead.with_liveness(true), n);
}
