use sif::Index;
use std::mem::size_of;

#[test]
fn niche() {
    assert_eq!(size_of::<Option<Index>>(), size_of::<Index>());
}

#[test]
fn index_round_trip() {
    assert_eq!(Index::new(0).index(), 0);
    assert_eq!(Index::new(41).index(), 41);
    assert_eq!(Index::new(4294967294).index(), 4294967294);
}
