use exercises::blob::Blob;
use exercises::hashing::hash_raw;

#[test]
fn blob_len_counts_framing() {
    let blob = Blob::new(vec![1, 2, 3], vec![4, 5]);
    assert_eq!(blob.len(), 8 + 8 + 3 + 2);
    assert_eq!(Blob::new(vec![], vec![]).len(), 16);
}

#[test]
fn blob_key_hash_and_match() {
    let a = Blob::new(b"key".to_vec(), b"one".to_vec());
    let b = Blob::new(b"key".to_vec(), b"two".to_vec());
    let c = Blob::new(b"other".to_vec(), b"one".to_vec());
    assert!(a.key_match(&b));
    assert!(!a.key_match(&c));
    assert_eq!(a.k_hash(7), b.k_hash(7));
    assert_eq!(a.k_hash(7), hash_raw(7, b"key"));
    assert_ne!(a.k_hash(7), c.k_hash(7));
}

#[test]
fn blob_write_frames_lengths_then_bytes() {
    let blob = Blob::new(vec![0xaa, 0xbb], vec![0xcc]);
    let mut out = vec![9];
    blob.write(&mut out);
    assert_eq!(
        out,
        vec![9, 2, 0, 0, 0, 0, 0, 0, 0, 1, 0, 0, 0, 0, 0, 0, 0, 0xaa, 0xbb, 0xcc]
    );
}

#[test]
fn blob_read_back_what_was_written() {
    let blob = Blob::new(b"hello".to_vec(), b"world!".to_vec());
    let mut out = Vec::new();
    blob.write(&mut out);
    out.extend_from_slice(&[1, 2, 3]);
    let (read, used) = Blob::read(&out).unwrap();
    assert_eq!(used, 16 + 5 + 6);
    assert!(read.key_match(&blob));
    assert_eq!(read.value_bytes(), b"world!");
}

#[test]
fn blob_read_rejects_short_input() {
    assert!(Blob::read(&[0u8; 15]).is_none());
    let mut framed = vec![3, 0, 0, 0, 0, 0, 0, 0, 1, 0, 0, 0, 0, 0, 0, 0];
    framed.extend_from_slice(&[1, 2, 3]);
    assert!(Blob::read(&framed).is_none());
    framed.push(4);
    let (blob, used) = Blob::read(&framed).unwrap();
    assert_eq!(used, 20);
    assert_eq!(blob.value_bytes(), &[4]);
    let mut huge = vec![0xff; 16];
    huge.push(0);
    assert!(Blob::read(&huge).is_none());
}

#[test]
fn blob_frame_lengths() {
    let blob = Blob::new(vec![1; 300], vec![2; 5]);
    let mut out = Vec::new();
    blob.write(&mut out);
    assert_eq!(Blob::frame_lengths(&out[..16]), Some((300, 5)));
    assert_eq!(Blob::frame_lengths(&out[..15]), None);
}
