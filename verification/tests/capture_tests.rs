//! The capture serializer's decisions.

use image_streamer::capture::ImageSerializer;
use image_streamer::image::{Marker, MarkerBody};

const PAGE: u64 = 4096;
const CAP: u64 = 2 * 1024 * 1024;

fn new_serializer(ids: &[u64]) -> ImageSerializer {
    ImageSerializer::new(&ids.to_vec(), CAP, PAGE)
}

#[test]
fn test_single_small_file_markers() {
    // one 11-byte file: Filename, FileData(11), FileEof, ImageEof, seqs 0..3
    let mut ser = new_serializer(&[1]);
    let name = String::from("file.img");

    let (markers, open) = ser.drain_img_file(&name, 11);
    assert!(open);
    assert_eq!(markers.len(), 2);
    assert_eq!(markers[0], Marker { seq: 0, body: MarkerBody::Filename(String::from("file.img")) });
    assert_eq!(markers[1], Marker { seq: 1, body: MarkerBody::FileData(11) });

    let (markers, open) = ser.drain_img_file(&name, 0);
    assert!(!open);
    assert_eq!(markers, vec![Marker { seq: 2, body: MarkerBody::FileEof }]);

    let eof = ser.write_image_eof();
    assert_eq!(eof, Marker { seq: 3, body: MarkerBody::ImageEof });
}

#[test]
fn test_filename_elided_for_consecutive_drains() {
    let mut ser = new_serializer(&[1]);
    let name = String::from("pages-1.img");

    let (first, _) = ser.drain_img_file(&name, 10);
    assert!(matches!(first[0].body, MarkerBody::Filename(_)));

    // same file again: no Filename marker
    let (second, _) = ser.drain_img_file(&name, 10);
    assert_eq!(second.len(), 1);
    assert!(matches!(second[0].body, MarkerBody::FileData(10)));
}

#[test]
fn test_filename_reemitted_after_interleaving() {
    let mut ser = new_serializer(&[1]);
    let a = String::from("a.img");
    let b = String::from("b.img");

    ser.drain_img_file(&a, 1);
    ser.drain_img_file(&b, 1);
    let (markers, _) = ser.drain_img_file(&a, 1);
    assert!(matches!(markers[0].body, MarkerBody::Filename(_)));
}

#[test]
fn test_large_drain_is_chunked() {
    let mut ser = new_serializer(&[1]);
    let max = ser.chunk_max_data_size() as u32;
    assert_eq!(max as u64, CAP / 8 - PAGE);

    let total = 2 * max + 100;
    let (markers, open) = ser.drain_img_file(&String::from("big.img"), total);
    assert!(open);
    // Filename, then chunks of max, max, 100
    assert_eq!(markers.len(), 4);
    assert_eq!(markers[1].body, MarkerBody::FileData(max));
    assert_eq!(markers[2].body, MarkerBody::FileData(max));
    assert_eq!(markers[3].body, MarkerBody::FileData(100));
    // dense sequence numbers
    for (i, m) in markers.iter().enumerate() {
        assert_eq!(m.seq, i as u64);
    }
}

#[test]
fn test_place_chunk_picks_most_remaining_space() {
    let mut ser = new_serializer(&[10, 20, 30]);
    // shard 20 has the most room
    ser.refresh_all_shard_remaining_space(&vec![1000, 0, 500]);
    let idx = ser.place_chunk(8, 100);
    assert_eq!(idx, 1);
}

#[test]
fn test_place_chunk_breaks_ties_by_identity() {
    let mut ser = new_serializer(&[10, 20]);
    ser.refresh_all_shard_remaining_space(&vec![0, 0]);
    // equal space: the larger identity wins, providing a total order
    let idx = ser.place_chunk(8, 0);
    assert_eq!(idx, 1);
}

#[test]
fn test_needs_refresh_when_best_shard_looks_full() {
    let mut ser = new_serializer(&[1, 2]);
    assert!(ser.needs_refresh(0));
    ser.refresh_all_shard_remaining_space(&vec![0, 0]);
    // full capacity free: a page-sized chunk fits
    assert!(!ser.needs_refresh(0));
    // more than the capacity never fits without a refresh
    assert!(ser.needs_refresh(u32::MAX));
}

#[test]
fn test_choked_shard_is_avoided() {
    // one shard full, one drained: chunks go to the drained one
    let mut ser = new_serializer(&[1, 2]);
    ser.refresh_all_shard_remaining_space(&vec![CAP as i64, 0]);
    for _ in 0..8 {
        let idx = ser.place_chunk(8, 4096);
        assert_eq!(idx, 1);
    }
}

#[test]
fn test_resize_lowers_chunk_size() {
    let mut ser = new_serializer(&[1]);
    let before = ser.chunk_max_data_size();
    ser.resize(64 * 1024);
    let after = ser.chunk_max_data_size();
    assert!(after < before);
    assert_eq!(after, 4096);
}
