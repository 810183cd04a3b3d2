//! Handshake decisions.

use image_streamer::error::Error;
use image_streamer::handshake::{
    handshake_file, handshake_step, HandshakeContext, HandshakeResult, HandshakeStep,
    LocalImageEntry, OPEN_MODE_APPEND, OPEN_MODE_RDONLY, OPEN_MODE_WRONLY,
};

fn header(name: &str, snapshot_id: &str, open_mode: u32) -> LocalImageEntry {
    LocalImageEntry {
        name: name.to_string(),
        snapshot_id: snapshot_id.to_string(),
        open_mode,
    }
}

#[test]
fn test_write_file_request() {
    assert_eq!(
        handshake_file(header("pages-1.img", "id", OPEN_MODE_WRONLY)).unwrap(),
        HandshakeResult::WriteFile(String::from("pages-1.img"))
    );
}

#[test]
fn test_read_file_request() {
    assert_eq!(
        handshake_file(header("inventory.img", "id", OPEN_MODE_RDONLY)).unwrap(),
        HandshakeResult::ReadFile(String::from("inventory.img"))
    );
}

#[test]
fn test_unrecognized_open_mode() {
    assert_eq!(
        handshake_file(header("x.img", "id", 2)),
        Err(Error::ProtocolViolation)
    );
}

#[test]
fn test_snapshot_id_receive_branch() {
    assert_eq!(
        handshake_step(header("parent", "", OPEN_MODE_APPEND)).unwrap(),
        HandshakeStep::ReceiveSnapshotId
    );
}

#[test]
fn test_snapshot_id_send_branch() {
    assert_eq!(
        handshake_step(header("parent", "", OPEN_MODE_RDONLY)).unwrap(),
        HandshakeStep::SendSnapshotIds
    );
}

#[test]
fn test_finish_branch() {
    assert_eq!(handshake_step(header("", "", 0)).unwrap(), HandshakeStep::Finish);
}

#[test]
fn test_file_branch_through_step() {
    assert_eq!(
        handshake_step(header("core-1.img", "id", OPEN_MODE_WRONLY)).unwrap(),
        HandshakeStep::WriteFile(String::from("core-1.img"))
    );
}

#[test]
fn test_unrecognized_snapshot_name() {
    assert_eq!(
        handshake_step(header("stranger", "", OPEN_MODE_APPEND)),
        Err(Error::ProtocolViolation)
    );
}

#[test]
fn test_snapshot_ids_are_kept_in_order() {
    let mut ctx = HandshakeContext::new();
    ctx.add_snapshot_id(String::from("first"));
    ctx.add_snapshot_id(String::from("second"));
    let ids = ctx.snapshot_ids();
    assert_eq!(ids.len(), 2);
    assert_eq!(ids[0], "first");
    assert_eq!(ids[1], "second");
}
