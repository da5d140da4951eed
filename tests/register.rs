use uring_echo::register::{
    Probe, Restriction, RestrictionError, RestrictionKind, RestrictionSet, PROBE_SIZE,
    RESTRICTION_SIZE,
};

fn probe_with(last_op: u8, flags: &[(usize, u16)]) -> Probe {
    let mut bytes = vec![0u8; PROBE_SIZE];
    bytes[0] = last_op;
    for &(op, f) in flags {
        let at = 16 + 8 * op + 2;
        bytes[at] = (f & 0xff) as u8;
        bytes[at + 1] = (f >> 8) as u8;
    }
    Probe::from_bytes(bytes).unwrap()
}

#[test]
fn new_probe_is_zeroed() {
    let p = Probe::new();
    assert_eq!(p.as_bytes().len(), PROBE_SIZE);
    assert!(p.as_bytes().iter().all(|&b| b == 0));
    assert_eq!(p.last_op(), 0);
    assert!(!p.is_supported(0));
    assert!(!p.is_supported(255));
}

#[test]
fn from_bytes_needs_exact_size() {
    assert!(Probe::from_bytes(vec![0u8; PROBE_SIZE - 1]).is_none());
    assert!(Probe::from_bytes(vec![0u8; PROBE_SIZE + 1]).is_none());
    assert!(Probe::from_bytes(Vec::new()).is_none());
    assert!(Probe::from_bytes(vec![0u8; PROBE_SIZE]).is_some());
}

#[test]
fn probe_reads_supported_bits() {
    let p = probe_with(5, &[(0, 1), (3, 1), (4, 2), (5, 1), (6, 1)]);
    assert_eq!(p.last_op(), 5);
    assert!(p.is_supported(0));
    assert!(!p.is_supported(1));
    assert!(p.is_supported(3));
    assert!(!p.is_supported(4));
    assert_eq!(p.op_flags(4), 2);
    assert!(p.is_supported(5));
}

#[test]
fn probe_boundary_above_last_op() {
    let p = probe_with(5, &[(5, 1), (6, 1), (200, 1)]);
    assert!(p.is_supported(5));
    assert!(!p.is_supported(6));
    assert!(!p.is_supported(200));
    let q = probe_with(5, &[(5, 0x0100)]);
    assert_eq!(q.op_flags(5), 0x0100);
    assert!(!q.is_supported(5));
    let r = probe_with(255, &[(255, 3)]);
    assert!(r.is_supported(255));
}

#[test]
fn probe_table_matches_lookups() {
    let p = probe_with(10, &[(1, 1), (2, 1), (9, 1), (11, 1)]);
    let t = p.supported_table();
    assert_eq!(t.len(), 256);
    for op in 0..256usize {
        assert_eq!(t[op], p.is_supported(op as u8));
    }
    assert!(t[1] && t[2] && t[9]);
    assert!(!t[11] && !t[0]);
}

#[test]
fn restriction_constructors() {
    let a = Restriction::register_op(8);
    assert_eq!(a.kind, RestrictionKind::RegisterOp);
    assert_eq!(a.value, 8);
    assert_eq!(a.code(), 0);
    let b = Restriction::sqe_op(22);
    assert_eq!(b.kind, RestrictionKind::SqeOp);
    assert_eq!(b.value, 22);
    assert_eq!(b.code(), 1);
    let c = Restriction::sqe_flags_allowed(0x11);
    assert_eq!(c.kind, RestrictionKind::SqeFlagsAllowed);
    assert_eq!(c.value, 0x11);
    assert_eq!(c.code(), 2);
    let d = Restriction::sqe_flags_required(0x04);
    assert_eq!(d.kind, RestrictionKind::SqeFlagsRequired);
    assert_eq!(d.value, 0x04);
    assert_eq!(d.code(), 3);
}

#[test]
fn restriction_record_layout() {
    let mut out = vec![9u8];
    Restriction::sqe_flags_required(0x42).encode_into(&mut out);
    assert_eq!(out.len(), 1 + RESTRICTION_SIZE);
    assert_eq!(&out[..4], &[9u8, 3, 0, 0x42]);
    assert!(out[4..].iter().all(|&b| b == 0));
}

#[test]
fn restriction_set_keeps_order() {
    let mut set = RestrictionSet::new();
    assert_eq!(set.len(), 0);
    assert_eq!(set.add(Restriction::sqe_op(1)), Ok(()));
    assert_eq!(set.add(Restriction::register_op(8)), Ok(()));
    assert_eq!(set.add(Restriction::sqe_flags_allowed(5)), Ok(()));
    assert_eq!(set.len(), 3);
    assert_eq!(set.get(0), Some(Restriction::sqe_op(1)));
    assert_eq!(set.get(1), Some(Restriction::register_op(8)));
    assert_eq!(set.get(2), Some(Restriction::sqe_flags_allowed(5)));
    assert_eq!(set.get(3), None);
    let bytes = set.to_bytes();
    assert_eq!(bytes.len(), 3 * RESTRICTION_SIZE);
    assert_eq!(&bytes[0..3], &[1u8, 0, 1]);
    assert_eq!(&bytes[16..19], &[0u8, 0, 8]);
    assert_eq!(&bytes[32..35], &[2u8, 0, 5]);
}

#[test]
fn restriction_set_fixed_once_installed() {
    let mut set = RestrictionSet::new();
    set.add(Restriction::sqe_op(2)).unwrap();
    assert!(!set.is_installed());
    set.mark_installed();
    assert!(set.is_installed());
    assert_eq!(set.add(Restriction::sqe_op(3)), Err(RestrictionError::Installed));
    assert_eq!(set.len(), 1);
    assert_eq!(set.get(0), Some(Restriction::sqe_op(2)));
}
