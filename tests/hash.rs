use worldmap::hash::{hash2, hash3, unit_bits, UNIT_SCALE};

#[test]
fn hash2_known_values() {
    assert_eq!(hash2(0, 0), 0);
    assert_eq!(hash2(1, 2), 7662210370598033218);
}

#[test]
fn hash3_known_values() {
    assert_eq!(hash3(1, 2, 3), 7662210331228436543);
    assert_eq!(hash3(5, 0, 7), 14143716248622781884);
    assert_ne!(hash3(1, 2, 3), hash3(2, 1, 3));
}

#[test]
fn unit_bits_known_values() {
    assert_eq!(unit_bits(0), 0);
    assert_eq!(unit_bits(1), 7956156453446585);
    assert_eq!(unit_bits(12345), 713723243566084);
    assert!(unit_bits(u64::MAX) < UNIT_SCALE);
}
