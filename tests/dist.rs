use spaghettinuum::coord::{
    coord_eq,
    coord_lt,
    dist,
    dist_,
    DhtCoord,
};

#[test]
fn test_same() {
    let (lz, d) = dist_(&[0u8, 0u8], &[0u8, 0u8]);
    assert_eq!(lz, 16);
    assert_eq!(d.as_slice(), &[0u8, 0u8]);
}

#[test]
fn test_lsb_dist() {
    let (lz, d) = dist_(&[0u8, 1u8], &[0u8, 0u8]);
    assert_eq!(lz, 15);
    assert_eq!(d.as_slice(), &[0u8, 1u8]);
}

#[test]
fn test_msb_dist() {
    let (lz, d) = dist_(&[128u8, 0u8], &[0u8, 0u8]);
    assert_eq!(lz, 0);
    assert_eq!(d.as_slice(), &[128u8, 0u8]);
}

#[test]
fn mod_test_same() {
    let (lz, d) = dist_(&[0u8, 0u8], &[0u8, 0u8]);
    assert_eq!(lz, 16);
    assert_eq!(d.as_slice(), &[0u8, 0u8]);
}

#[test]
fn test_lsb_diff() {
    let (lz, d) = dist_(&[0u8, 1u8], &[0u8, 0u8]);
    assert_eq!(lz, 15);
    assert_eq!(d.as_slice(), &[0u8, 1u8]);
}

#[test]
fn test_msb_diff() {
    let (lz, d) = dist_(&[128u8, 0u8], &[0u8, 0u8]);
    assert_eq!(lz, 0);
    assert_eq!(d.as_slice(), &[128u8, 0u8]);
}

#[test]
fn distance_to_self_is_zero() {
    let mut bytes = [0u8; 32];
    for i in 0..32 {
        bytes[i] = (i * 7 + 3) as u8;
    }
    let c = DhtCoord(bytes);
    let (lz, d) = dist(&c, &c);
    assert_eq!(lz, 256);
    assert_eq!(d.0, [0u8; 32]);
}

#[test]
fn leading_zeros_mid_byte() {
    let (lz, d) = dist_(&[0u8, 0b0001_0110u8, 9u8], &[0u8, 0b0000_0010u8, 1u8]);
    assert_eq!(lz, 11);
    assert_eq!(d, vec![0u8, 0b0001_0100u8, 8u8]);
}

#[test]
fn coordinate_order_is_big_endian() {
    let mut a = [0u8; 32];
    let mut b = [0u8; 32];
    a[31] = 200;
    b[30] = 1;
    assert!(coord_lt(&DhtCoord(a), &DhtCoord(b)));
    assert!(!coord_lt(&DhtCoord(b), &DhtCoord(a)));
    assert!(!coord_lt(&DhtCoord(a), &DhtCoord(a)));
    assert!(coord_eq(&DhtCoord(a), &DhtCoord(a)));
    assert!(!coord_eq(&DhtCoord(a), &DhtCoord(b)));
}
