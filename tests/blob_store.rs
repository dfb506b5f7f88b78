use exercises::blob_store::{
    block_start, elems_after, empty_block_bytes, file_len, header_bytes, parse_header,
};

#[test]
fn header_round_trip() {
    let h = header_bytes(0x0102030405060708, 1000, 10, 3);
    assert_eq!(h.len(), 32);
    assert_eq!(&h[0..8], &[8, 7, 6, 5, 4, 3, 2, 1]);
    assert_eq!(parse_header(&h), (0x0102030405060708, 1000, 10, 3));
}

#[test]
fn layout_sizes() {
    assert_eq!(file_len(1000, 10), Some(10032));
    assert_eq!(file_len(u64::MAX, 2), None);
    assert_eq!(file_len(u64::MAX - 31, 1), None);
    assert_eq!(file_len(u64::MAX - 32, 1), Some(u64::MAX));
    assert_eq!(block_start(0, 1000), 32);
    assert_eq!(block_start(3, 1000), 3032);
}

#[test]
fn empty_block_layout() {
    assert_eq!(empty_block_bytes(1000), vec![0, 0, 0, 0, 0xd8, 3, 0, 0, 0, 0, 0, 0]);
    assert_eq!(empty_block_bytes(16), vec![0; 12]);
}

#[test]
fn element_count_updates() {
    assert_eq!(elems_after(5, 3), Some(8));
    assert_eq!(elems_after(5, -5), Some(0));
    assert_eq!(elems_after(5, -6), None);
    assert_eq!(elems_after(u64::MAX, 1), None);
    assert_eq!(elems_after(0, i32::MIN), None);
}
