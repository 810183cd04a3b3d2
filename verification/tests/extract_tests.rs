//! Reordering and reassembly on the restore side.

use image_streamer::capture::ImageSerializer;
use image_streamer::error::Error;
use image_streamer::extract::{ImageDeserializer, MarkerReorderer, ServedSet};
use image_streamer::image::{decode_marker, encode_marker, Marker, MarkerBody};
use image_streamer::image_store::mem::Store;

fn filename(seq: u64, name: &str) -> Marker {
    Marker { seq, body: MarkerBody::Filename(name.to_string()) }
}

fn file_data(seq: u64, size: u32) -> Marker {
    Marker { seq, body: MarkerBody::FileData(size) }
}

fn file_eof(seq: u64) -> Marker {
    Marker { seq, body: MarkerBody::FileEof }
}

fn image_eof(seq: u64) -> Marker {
    Marker { seq, body: MarkerBody::ImageEof }
}

fn content(store: &mut Store, name: &str) -> Vec<u8> {
    let mut out = Vec::new();
    for chunk in store.remove(name).unwrap().into_chunks() {
        out.extend(chunk);
    }
    out
}

#[test]
fn test_reorderer_sorts_by_sequence() {
    let mut r = MarkerReorderer::new();
    r.push_marker(file_data(2, 4), 0).unwrap();
    r.push_marker(filename(0, "a.img"), 1).unwrap();
    r.push_marker(file_data(1, 8), 0).unwrap();

    let p = r.get_next_in_order_marker().unwrap();
    assert_eq!(p.marker.seq, 0);
    assert_eq!(p.shard_idx, 1);
    assert_eq!(r.get_next_in_order_marker().unwrap().marker.seq, 1);
    assert_eq!(r.get_next_in_order_marker().unwrap().marker.seq, 2);
    assert!(r.get_next_in_order_marker().is_none());
}

#[test]
fn test_reorderer_waits_for_the_gap() {
    let mut r = MarkerReorderer::new();
    r.push_marker(file_data(1, 4), 0).unwrap();
    // sequence 0 has not arrived yet
    assert!(r.get_next_in_order_marker().is_none());
    r.push_marker(filename(0, "a.img"), 1).unwrap();
    assert_eq!(r.get_next_in_order_marker().unwrap().marker.seq, 0);
    assert_eq!(r.get_next_in_order_marker().unwrap().marker.seq, 1);
}

#[test]
fn test_reorderer_rejects_duplicate_sequence() {
    let mut r = MarkerReorderer::new();
    r.push_marker(file_data(1, 4), 0).unwrap();
    assert_eq!(r.push_marker(file_data(1, 4), 1), Err(Error::SequenceViolation));
}

#[test]
fn test_reorderer_rejects_replayed_sequence() {
    let mut r = MarkerReorderer::new();
    r.push_marker(filename(0, "a.img"), 0).unwrap();
    r.get_next_in_order_marker().unwrap();
    assert_eq!(r.push_marker(filename(0, "a.img"), 0), Err(Error::SequenceViolation));
}

#[test]
fn test_reorderer_rejects_data_after_image_eof() {
    let mut r = MarkerReorderer::new();
    r.mark_image_eof().unwrap();
    assert_eq!(r.push_marker(file_data(7, 4), 0), Err(Error::SequenceViolation));
}

#[test]
fn test_reorderer_refuses_eof_with_pending_markers() {
    let mut r = MarkerReorderer::new();
    r.push_marker(file_data(5, 4), 0).unwrap();
    assert_eq!(r.mark_image_eof(), Err(Error::SequenceViolation));
}

#[test]
fn test_single_file_reassembles() {
    let mut des = ImageDeserializer::new(Store::new());
    des.process_marker(filename(0, "file.img"), None).unwrap();
    des.process_marker(file_data(1, 11), Some(b"hello world".to_vec())).unwrap();
    des.process_marker(file_eof(2), None).unwrap();
    des.process_marker(image_eof(3), None).unwrap();
    assert!(des.image_eof());

    let mut store = des.into_store();
    assert_eq!(content(&mut store, "file.img"), b"hello world");
}

#[test]
fn test_interleaved_files_reassemble() {
    let mut des = ImageDeserializer::new(Store::new());
    des.process_marker(filename(0, "a.img"), None).unwrap();
    des.process_marker(file_data(1, 3), Some(b"aaa".to_vec())).unwrap();
    des.process_marker(filename(2, "b.img"), None).unwrap();
    des.process_marker(file_data(3, 3), Some(b"bbb".to_vec())).unwrap();
    // back to the first file: its data continues where it left off
    des.process_marker(filename(4, "a.img"), None).unwrap();
    des.process_marker(file_data(5, 3), Some(b"AAA".to_vec())).unwrap();
    des.process_marker(file_eof(6), None).unwrap();
    des.process_marker(filename(7, "b.img"), None).unwrap();
    des.process_marker(file_eof(8), None).unwrap();
    des.process_marker(image_eof(9), None).unwrap();

    let mut store = des.into_store();
    assert_eq!(content(&mut store, "a.img"), b"aaaAAA");
    assert_eq!(content(&mut store, "b.img"), b"bbb");
}

#[test]
fn test_end_to_end_across_two_shards() {
    // capture produced two shard streams; replay them out of order and
    // let the deserializer reorder by sequence number
    let mut des = ImageDeserializer::new(Store::new());
    // shard 0 carries seqs 0, 2, 3; shard 1 carries seq 1
    des.push_marker(file_data(2, 5), 0).unwrap();
    assert!(des.get_next_in_order_marker().is_none());
    des.push_marker(filename(0, "f.img"), 0).unwrap();

    let p = des.get_next_in_order_marker().unwrap();
    assert_eq!(p.marker.seq, 0);
    des.process_marker(p.marker, None).unwrap();

    des.push_marker(file_data(1, 6), 1).unwrap();
    let p = des.get_next_in_order_marker().unwrap();
    assert_eq!((p.marker.seq, p.shard_idx), (1, 1));
    des.process_marker(p.marker, Some(b"hello,".to_vec())).unwrap();

    let p = des.get_next_in_order_marker().unwrap();
    assert_eq!((p.marker.seq, p.shard_idx), (2, 0));
    des.process_marker(p.marker, Some(b"world".to_vec())).unwrap();

    des.push_marker(file_eof(3), 0).unwrap();
    des.push_marker(image_eof(4), 1).unwrap();
    let p = des.get_next_in_order_marker().unwrap();
    des.process_marker(p.marker, None).unwrap();
    let p = des.get_next_in_order_marker().unwrap();
    des.process_marker(p.marker, None).unwrap();
    assert!(des.image_eof());

    let mut store = des.into_store();
    assert_eq!(content(&mut store, "f.img"), b"hello,world");
}

#[test]
fn test_file_data_without_filename_rejected() {
    let mut des = ImageDeserializer::new(Store::new());
    assert_eq!(
        des.process_marker(file_data(0, 2), Some(b"xy".to_vec())),
        Err(Error::SequenceViolation)
    );
}

#[test]
fn test_file_eof_without_file_rejected() {
    let mut des = ImageDeserializer::new(Store::new());
    assert_eq!(des.process_marker(file_eof(0), None), Err(Error::SequenceViolation));
}

#[test]
fn test_committing_a_file_twice_rejected() {
    let mut des = ImageDeserializer::new(Store::new());
    des.process_marker(filename(0, "a.img"), None).unwrap();
    des.process_marker(file_eof(1), None).unwrap();
    des.process_marker(filename(2, "a.img"), None).unwrap();
    assert_eq!(des.process_marker(file_eof(3), None), Err(Error::SequenceViolation));
}

#[test]
fn test_image_eof_with_open_file_rejected() {
    let mut des = ImageDeserializer::new(Store::new());
    des.process_marker(filename(0, "a.img"), None).unwrap();
    assert_eq!(des.process_marker(image_eof(1), None), Err(Error::SequenceViolation));
}

#[test]
fn test_marker_after_image_eof_rejected() {
    let mut des = ImageDeserializer::new(Store::new());
    des.process_marker(image_eof(0), None).unwrap();
    assert_eq!(des.push_marker(filename(1, "late.img"), 0), Err(Error::SequenceViolation));
    assert_eq!(des.process_marker(filename(1, "late.img"), None), Err(Error::SequenceViolation));
}

#[test]
fn test_byte_level_round_trip_across_shards() {
    // capture: two files drained in interleaved readability events, the
    // serializer choosing a shard for every chunk
    let mut ser = ImageSerializer::new(&vec![1, 2], 64 * 1024, 4096);
    let file_a: Vec<u8> = (0..9000u32).map(|i| (i % 241) as u8).collect();
    let file_b: Vec<u8> = (0..5000u32).map(|i| (i % 199) as u8).collect();
    let name_a = String::from("a.img");
    let name_b = String::from("b.img");

    let mut streams: Vec<Vec<u8>> = vec![Vec::new(), Vec::new()];
    let mut write = |ser: &mut ImageSerializer, markers: Vec<Marker>, source: &mut &[u8]| {
        for marker in markers {
            let data_size = match marker.body {
                MarkerBody::FileData(s) => s as usize,
                _ => 0,
            };
            let frame = encode_marker(&marker).unwrap();
            if ser.needs_refresh(data_size as u32) {
                // pretend both pipes drained fully
                ser.refresh_all_shard_remaining_space(&vec![0, 0]);
            }
            let idx = ser.place_chunk(frame.len() as u64, data_size as u32);
            streams[idx].extend(frame);
            let (payload, rest) = source.split_at(data_size);
            streams[idx].extend(payload.iter().copied());
            *source = rest;
        }
    };

    let (mut rest_a, mut rest_b) = (&file_a[..], &file_b[..]);
    let (m, _) = ser.drain_img_file(&name_a, 4000);
    write(&mut ser, m, &mut rest_a);
    let (m, _) = ser.drain_img_file(&name_b, 5000);
    write(&mut ser, m, &mut rest_b);
    let (m, _) = ser.drain_img_file(&name_a, 5000);
    write(&mut ser, m, &mut rest_a);
    let (m, open) = ser.drain_img_file(&name_a, 0);
    assert!(!open);
    write(&mut ser, m, &mut rest_a);
    let (m, _) = ser.drain_img_file(&name_b, 0);
    write(&mut ser, m, &mut rest_b);
    let eof = ser.write_image_eof();
    write(&mut ser, vec![eof], &mut rest_a);
    assert!(rest_a.is_empty() && rest_b.is_empty());

    // restore: read each shard stream as it comes, hold a shard back
    // while its pending marker's payload is still unread
    let mut des = ImageDeserializer::new(Store::new());
    let mut pos = [0usize, 0usize];
    let mut held = [false, false];
    loop {
        let mut progressed = false;
        for i in 0..2 {
            if held[i] || pos[i] >= streams[i].len() {
                continue;
            }
            let (marker, n) = decode_marker(&streams[i], pos[i]).unwrap().unwrap();
            pos[i] += n;
            des.push_marker(marker, i).unwrap();
            held[i] = true;
            progressed = true;
            while let Some(pending) = des.get_next_in_order_marker() {
                let j = pending.shard_idx;
                let payload = match pending.marker.body {
                    MarkerBody::FileData(s) => {
                        let p = streams[j][pos[j]..pos[j] + s as usize].to_vec();
                        pos[j] += s as usize;
                        Some(p)
                    }
                    _ => None,
                };
                des.process_marker(pending.marker, payload).unwrap();
                held[j] = false;
            }
        }
        if !progressed {
            break;
        }
    }
    assert_eq!(pos[0], streams[0].len());
    assert_eq!(pos[1], streams[1].len());
    assert!(des.image_eof());

    let mut store = des.into_store();
    assert_eq!(content(&mut store, "a.img"), file_a);
    assert_eq!(content(&mut store, "b.img"), file_b);
}

#[test]
fn test_serving_a_name_twice_is_a_protocol_error() {
    let mut served = ServedSet::new();
    assert!(served.check_absent("pages-1.img").is_ok());
    served.record(String::from("pages-1.img"));
    assert_eq!(served.check_absent("pages-1.img"), Err(Error::ProtocolViolation));
    assert!(served.check_absent("pages-2.img").is_ok());
}

#[test]
fn test_missing_file_stays_missing() {
    let mut des = ImageDeserializer::new(Store::new());
    des.process_marker(image_eof(0), None).unwrap();
    let mut store = des.into_store();
    assert!(store.remove("no-file.img").is_none());
}
