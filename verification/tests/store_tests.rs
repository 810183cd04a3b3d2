//! The in-memory image store and its buffers.

use image_streamer::error::Error;
use image_streamer::image_store::mem::{File, Store};
use image_streamer::mmap_buf::MmapBuf;

fn file_content(f: File) -> Vec<u8> {
    let mut out = Vec::new();
    for chunk in f.into_chunks() {
        out.extend(chunk);
    }
    out
}

fn file_with(bytes: &[u8]) -> File {
    let mut f = File::new_small();
    f.write_all_bytes(&bytes.to_vec());
    f
}

#[test]
fn test_insert_remove_round_trip() {
    let mut store = Store::new();
    store.insert(String::from("a.img"), file_with(b"hello world")).unwrap();
    let f = store.remove("a.img").unwrap();
    assert_eq!(file_content(f), b"hello world");
    assert!(store.remove("a.img").is_none());
}

#[test]
fn test_duplicate_insert_rejected() {
    let mut store = Store::new();
    store.insert(String::from("a.img"), file_with(b"one")).unwrap();
    assert_eq!(
        store.insert(String::from("a.img"), file_with(b"two")),
        Err(Error::ProtocolViolation)
    );
    // the first file is untouched
    assert_eq!(file_content(store.remove("a.img").unwrap()), b"one");
}

#[test]
fn test_remove_missing_name() {
    let mut store = Store::new();
    store.insert(String::from("a.img"), file_with(b"x")).unwrap();
    assert!(store.remove("b.img").is_none());
    assert!(store.contains("a.img"));
}

#[test]
fn test_remove_by_prefix_takes_each_name_once() {
    let mut store = Store::new();
    store.insert(String::from("gpu-0.img"), file_with(b"zero")).unwrap();
    store.insert(String::from("gpu-1.img"), file_with(b"one")).unwrap();
    store.insert(String::from("cpu.img"), file_with(b"cpu")).unwrap();

    let (n1, _) = store.remove_by_prefix("gpu-").unwrap();
    let (n2, _) = store.remove_by_prefix("gpu-").unwrap();
    assert_ne!(n1, n2);
    assert!(n1.starts_with("gpu-") && n2.starts_with("gpu-"));
    assert!(store.remove_by_prefix("gpu-").is_none());
    assert!(store.contains("cpu.img"));
}

#[test]
fn test_remove_by_prefix_no_match() {
    let mut store = Store::new();
    store.insert(String::from("pages-1.img"), file_with(b"p")).unwrap();
    assert!(store.remove_by_prefix("gpu-").is_none());
    assert!(store.contains("pages-1.img"));
}

#[test]
fn test_remove_by_prefix_empty_prefix_matches_anything() {
    let mut store = Store::new();
    store.insert(String::from("only.img"), file_with(b"o")).unwrap();
    let (name, _) = store.remove_by_prefix("").unwrap();
    assert_eq!(name, "only.img");
}

#[test]
fn test_small_file_stays_byte_exact() {
    let mut f = File::new_small();
    f.write_all_bytes(&b"abc".to_vec());
    f.write_all_bytes(&b"def".to_vec());
    assert_eq!(file_content(f), b"abcdef");
}

#[test]
fn test_file_grows_past_a_page() {
    // cross the small-to-chunked switch and keep every byte in order
    let mut f = File::new_small();
    let mut expected = Vec::new();
    for round in 0..10u32 {
        let piece: Vec<u8> = (0..1000).map(|i| ((round as usize * 1000 + i) % 251) as u8).collect();
        expected.extend(piece.iter().copied());
        f.write_all_bytes(&piece);
    }
    assert_eq!(file_content(f), expected);
}

#[test]
fn test_empty_file() {
    let f = File::new_small();
    assert_eq!(file_content(f), b"");
}

#[test]
fn test_reader_walks_the_content() {
    let f = file_with(b"hello world");
    let mut r = f.reader();
    assert_eq!(r.read(5), b"hello");
    assert_eq!(r.read(100), b" world");
    assert_eq!(r.read(4), b"");
    // the file is untouched
    assert_eq!(file_content(f), b"hello world");
}

#[test]
fn test_reader_over_chunked_file() {
    let mut f = File::new_small();
    let piece: Vec<u8> = (0..5000u32).map(|i| (i % 251) as u8).collect();
    f.write_all_bytes(&piece);
    f.write_all_bytes(&piece);
    let mut r = f.reader();
    let mut all = Vec::new();
    loop {
        let part = r.read(777);
        if part.is_empty() {
            break;
        }
        all.extend(part);
    }
    let mut expected = piece.clone();
    expected.extend(piece);
    assert_eq!(all, expected);
}

#[test]
fn test_mmap_buf_len_and_capacity() {
    let mut b = MmapBuf::with_capacity(64);
    assert_eq!(b.len(), 0);
    assert_eq!(b.capacity(), 64);
    b.resize(10);
    assert_eq!(b.len(), 10);
    assert_eq!(b.capacity(), 64);
    // a fresh mapping reads as zeroes
    assert_eq!(b.byte_at(7), 0);
}

#[test]
fn test_mmap_buf_resize_keeps_prefix() {
    let mut b = MmapBuf::with_capacity(16);
    b.push_bytes(&vec![1, 2, 3, 4], 0, 4);
    b.resize(2);
    assert_eq!(b.into_vec(), vec![1, 2]);
}

#[test]
fn test_mmap_buf_push_bytes_appends() {
    let mut b = MmapBuf::with_capacity(8);
    b.push_bytes(&vec![9, 8, 7], 1, 2);
    assert_eq!(b.into_vec(), vec![8, 7]);
}
