use cart_route::bitops::{bits16, bits8, comp16, comp24, decomp16, decomp24};
use cart_route::records::{AddressPointer, OutOfBoundsError, Postentry, Preentry};

#[test]
fn bits_most_significant_first() {
    assert_eq!(bits8(0b1010_0001), [1, 0, 1, 0, 0, 0, 0, 1]);
    assert_eq!(
        bits16(0x8001),
        [1, 0, 0, 0, 0, 0, 0, 0, 0, 0, 0, 0, 0, 0, 0, 1]
    );
}

#[test]
fn byte_splitting_round_trips() {
    assert_eq!(decomp16(0x1234), [0x12, 0x34]);
    assert_eq!(comp16([0x12, 0x34]), 0x1234);
    assert_eq!(comp16(decomp16(0xbeef)), 0xbeef);
    assert_eq!(decomp24(0x12_3456), [0x12, 0x34, 0x56]);
    assert_eq!(comp24([0x12, 0x34, 0x56]), 0x12_3456);
    assert_eq!(decomp24(0xff12_3456), [0x12, 0x34, 0x56]);
}

#[test]
fn preentry_round_trip() {
    let mut desc = [0u8; 252];
    for (i, d) in desc.iter_mut().enumerate() {
        *d = (i % 200) as u8;
    }
    let e = Preentry { dict: 7, ttd: 0x0102, flags: 3, desc };
    let b = e.bytize();
    assert_eq!(&b[..4], &[7, 1, 2, 3]);
    assert_eq!(b[4], 0);
    assert_eq!(b[255], 251 % 200);
    let d = Preentry::debytize(b);
    assert_eq!(d.dict, 7);
    assert_eq!(d.ttd, 0x0102);
    assert_eq!(d.flags, 3);
    assert_eq!(d.desc, desc);
}

#[test]
fn postentry_round_trip() {
    let e = Postentry { dict: 1, prio: 2, eid: 3, oid: 4, dst: 40, since: 0x01_0203 };
    let b = e.bytize();
    assert_eq!(b, [1, 2, 3, 4, 40, 1, 2, 3]);
    let d = Postentry::debytize(b);
    assert_eq!((d.dict, d.prio, d.eid, d.oid, d.dst, d.since), (1, 2, 3, 4, 40, 0x01_0203));
    let wide = Postentry { dict: 0, prio: 0, eid: 0, oid: 0, dst: 0, since: 0xff00_0001 };
    assert_eq!(Postentry::debytize(wide.bytize()).since, 1);
}

#[test]
fn address_pointer_stays_in_window() {
    let mut p = AddressPointer::default(0xC00, 0xF9B);
    assert_eq!(p.addr, 0xC00);
    assert_eq!(p.set(0xBFF), Err(OutOfBoundsError));
    assert_eq!(p.set(0xF9C), Err(OutOfBoundsError));
    assert_eq!(p.addr, 0xC00);
    assert_eq!(p.set(0xD00), Ok(()));
    assert_eq!(p.update(|a| a + 8), Ok(0xD08));
    assert_eq!(p.update(|a| a + 0x400), Err(OutOfBoundsError));
    assert_eq!(p.addr, 0xD08);
    assert_eq!(p.reset(), 0xD08);
    assert_eq!(p.addr, 0xC00);
}
