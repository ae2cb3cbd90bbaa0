use memflow_py::endian::{power_of_256, read_le, write_le};

#[test]
fn powers_of_256() {
    assert_eq!(power_of_256(0), 1);
    assert_eq!(power_of_256(1), 256);
    assert_eq!(power_of_256(4), 1 << 32);
    assert_eq!(power_of_256(8), 1 << 64);
}

#[test]
fn reads_little_endian_ranges() {
    let bytes = [0xaa, 0x01, 0x02, 0x03, 0x04, 0xbb];
    assert_eq!(read_le(&bytes, 1, 4), 0x04030201);
    assert_eq!(read_le(&bytes, 0, 1), 0xaa);
    assert_eq!(read_le(&bytes, 5, 1), 0xbb);
    assert_eq!(read_le(&bytes, 3, 0), 0);
    assert_eq!(read_le(&[0xff; 8], 0, 8), u64::MAX);
}

#[test]
fn writes_the_low_bytes() {
    assert_eq!(write_le(0x1122334455667788, 8), vec![0x88, 0x77, 0x66, 0x55, 0x44, 0x33, 0x22, 0x11]);
    assert_eq!(write_le(0x1122334455667788, 4), vec![0x88, 0x77, 0x66, 0x55]);
    assert_eq!(write_le(0x1122334455667788, 0), Vec::<u8>::new());
    assert_eq!(write_le(1, 10), vec![1, 0, 0, 0, 0, 0, 0, 0, 0, 0]);
}

#[test]
fn write_then_read_is_the_number() {
    for value in [0u64, 1, 255, 256, 0xdead_beef, u64::MAX] {
        let bytes = write_le(value, 8);
        assert_eq!(read_le(&bytes, 0, 8), value);
        assert_eq!(bytes, value.to_le_bytes().to_vec());
    }
}
