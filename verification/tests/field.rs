use ibsl::field::NodeDigest;
use ibsl::vc::greyhound::{GreyhoundField, Q};

#[test]
fn greyhound_slots_reduce_mod_q() {
    assert_eq!(GreyhoundField::from_u128(5).0, 5);
    assert_eq!(GreyhoundField::from_u128(Q as u128).0, 0);
    assert_eq!(GreyhoundField::from_u128(Q as u128 + 7).0, 7);
    assert_eq!(GreyhoundField::from_u128((1u128 << 64) + 1).0, (((1u128 << 64) + 1) % Q as u128) as i64);
    assert_eq!(GreyhoundField::zero().0, 0);
}
