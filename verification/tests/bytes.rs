use crossbytes::bytes::{copy_into, load_u32, read_range, store_u32, Bytes};

#[test]
fn test_heap_allocate_zeroed() {
    let bytes = Bytes::heap_allocate(32);
    assert_eq!(32, bytes.capacity());
}

#[test]
fn test_store_load_round_trip() {
    let bytes = Bytes::heap_allocate(32);
    let mut data = vec![0u8; bytes.capacity()];
    store_u32(&mut data, 0, 0xF000FFu32);
    assert_eq!(0xF000FFu32, load_u32(&data, 0));
    store_u32(&mut data, 12, 75u32);
    assert_eq!(75u32, load_u32(&data, 12));
    // untouched bytes stay zero
    assert_eq!(0u32, load_u32(&data, 4));
}

#[test]
fn test_store_is_little_endian() {
    let mut data = vec![0u8; 16];
    store_u32(&mut data, 0, 0xFF00FFu32);
    assert_eq!(0xFFu8, data[0]);
    assert_eq!(0u8, data[1]);
    assert_eq!(0xFFu8, data[2]);
    assert_eq!(0u8, data[3]);
}

#[test]
fn test_copy_and_read_range() {
    let mut data = vec![0u8; 16];
    copy_into(&mut data, 4, &[1, 2, 3, 4]);
    let out = read_range(&data, 4, 4);
    assert_eq!(vec![1u8, 2, 3, 4], out);
    assert_eq!(0u8, data[3]);
    assert_eq!(0u8, data[8]);
}
