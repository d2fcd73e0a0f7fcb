use csearch::varint::{get, put};

#[test]
fn roundtrip() {
    let vals = [0u32, 1, 127, 128, 300, 16_383, 16_384, u32::MAX];
    let mut buf = Vec::new();
    for &v in &vals {
        put(&mut buf, v);
    }
    let mut pos = 0;
    for &v in &vals {
        assert_eq!(get(&buf, &mut pos), Some(v));
    }
    assert_eq!(pos, buf.len());
    assert_eq!(get(&buf, &mut pos), None);
}

#[test]
fn encoding_is_little_endian_base_128() {
    let mut buf = Vec::new();
    put(&mut buf, 300);
    assert_eq!(buf, vec![0xac, 0x02]);
    let mut pos = 7;
    assert_eq!(get(&buf, &mut pos), None);
    assert_eq!(pos, 7);
}

#[test]
fn damaged_varints_are_refused() {
    let mut pos = 0;
    assert_eq!(get(&[0x80, 0x80], &mut pos), None);
    assert_eq!(pos, 2);
    pos = 0;
    assert_eq!(get(&[0x80; 6], &mut pos), None);
    assert_eq!(pos, 5);
    // Bits beyond the thirty-second are dropped.
    pos = 0;
    assert_eq!(get(&[0xff, 0xff, 0xff, 0xff, 0x7f], &mut pos), Some(u32::MAX));
}
