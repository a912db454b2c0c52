use cart_route::{NaiveXORHasher, NaiveXORHasherBuilder};
use std::hash::{BuildHasher, Hasher};

#[test]
fn hasher_folds_and_rotates() {
    let mut h = NaiveXORHasherBuilder.build_hasher();
    assert_eq!(h.finish(), 0);
    h.write(&[1]);
    assert_eq!(h.finish(), 32);
    h.write(&[0xff]);
    assert_eq!(h.finish(), (32u64 ^ 0xff).rotate_left(5));
}

#[test]
fn hasher_step_matches_rotation() {
    let x: u64 = 0x8000_0000_0000_0001;
    assert_eq!(NaiveXORHasher::mix_byte(x, 3), (x ^ 3).rotate_left(5));
}
