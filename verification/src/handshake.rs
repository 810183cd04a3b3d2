//! The handshake with the checkpoint engine over the image socket: from
//! the header the peer sends, decide what it wants.
//!
//! The header and the snapshot-id bookkeeping are plain values; reading
//! and writing the socket is the caller's part, directed by
//! [`HandshakeStep`].

use vstd::prelude::*;
use crate::error::Error;
use crate::util::str_eq;
use vstd::string::StrSliceExecFns;

verus! {

/// open(2) flag value: read-only.
pub const OPEN_MODE_RDONLY: u32 = 0;

/// open(2) flag value: write-only.
pub const OPEN_MODE_WRONLY: u32 = 1;

/// open(2) flag value: append.
pub const OPEN_MODE_APPEND: u32 = 1024;

/// The header the peer sends when opening an image file or exchanging
/// snapshot ids.
#[derive(Debug)]
pub struct LocalImageEntry {
    pub name: String,
    pub snapshot_id: String,
    pub open_mode: u32,
}

/// What the peer asked for.
#[derive(Debug, PartialEq)]
pub enum HandshakeResult {
    /// The peer reads the named image file.
    ReadFile(String),
    /// The peer writes the named image file.
    WriteFile(String),
    /// The peer is done with the image.
    ImageEOF,
    /// Snapshot ids were exchanged.
    SnapshotIdExchanged,
}

/// The exchange a header calls for; the caller performs it.
#[derive(Debug, PartialEq)]
pub enum HandshakeStep {
    /// Receive one snapshot id and record it.
    ReceiveSnapshotId,
    /// Send an empty reply, then every recorded snapshot id.
    SendSnapshotIds,
    /// The peer is done with the image.
    Finish,
    /// The peer reads the named image file.
    ReadFile(String),
    /// The peer writes the named image file.
    WriteFile(String),
}

/// Keeps the snapshot ids the peer has sent, to hand back on request.
pub struct HandshakeContext {
    snapshot_ids: Vec<String>,
}

impl HandshakeContext {
    /// The recorded snapshot ids, in arrival order.
    pub closed spec fn view(&self) -> Seq<Seq<char>> {
        self.snapshot_ids@.map_values(|s: String| s@)
    }

    pub fn new() -> (r: HandshakeContext)
        ensures
            r@ == Seq::<Seq<char>>::empty(),
    {
        let r = HandshakeContext { snapshot_ids: Vec::new() };
        proof {
            assert(r@ =~= Seq::<Seq<char>>::empty());
        }
        r
    }

    pub fn add_snapshot_id(&mut self, snapshot_id: String)
        ensures
            final(self)@ == old(self)@.push(snapshot_id@),
    {
        self.snapshot_ids.push(snapshot_id);
        proof {
            assert(self@ =~= old(self)@.push(self.snapshot_ids@.last()@));
        }
    }

    /// The recorded snapshot ids, for sending back to the peer.
    pub fn snapshot_ids(&self) -> (r: &Vec<String>)
        ensures
            r@.map_values(|s: String| s@) == self@,
    {
        &self.snapshot_ids
    }
}

/// The file branch of the handshake: a header naming a file asks to write
/// it or to read it, by its open mode.
pub fn handshake_file(header: LocalImageEntry) -> (r: Result<HandshakeResult, Error>)
    ensures
        match r {
            Ok(HandshakeResult::WriteFile(n)) => header.open_mode == OPEN_MODE_WRONLY && n@
                == header.name@,
            Ok(HandshakeResult::ReadFile(n)) => header.open_mode == OPEN_MODE_RDONLY && n@
                == header.name@,
            Ok(_) => false,
            Err(e) => e == Error::ProtocolViolation && header.open_mode != OPEN_MODE_WRONLY
                && header.open_mode != OPEN_MODE_RDONLY,
        },
{
    if header.open_mode == OPEN_MODE_WRONLY {
        Ok(HandshakeResult::WriteFile(header.name))
    } else if header.open_mode == OPEN_MODE_RDONLY {
        Ok(HandshakeResult::ReadFile(header.name))
    } else {
        Err(Error::ProtocolViolation)
    }
}

/// Decides, from the header alone, which exchange the peer asks for.
///
/// An empty snapshot id selects the snapshot-id branch: under the name
/// `parent`, append mode records one incoming id and read mode sends the
/// recorded ids back; an empty name ends the image. Any other header
/// names a file to read or write by its open mode.
pub fn handshake_step(header: LocalImageEntry) -> (r: Result<HandshakeStep, Error>)
    ensures
        match r {
            Ok(HandshakeStep::ReceiveSnapshotId) => header.snapshot_id@ == Seq::<char>::empty()
                && header.name@ == "parent"@ && header.open_mode == OPEN_MODE_APPEND,
            Ok(HandshakeStep::SendSnapshotIds) => header.snapshot_id@ == Seq::<char>::empty()
                && header.name@ == "parent"@ && header.open_mode == OPEN_MODE_RDONLY,
            Ok(HandshakeStep::Finish) => header.snapshot_id@ == Seq::<char>::empty()
                && header.name@ == Seq::<char>::empty() && header.name@ != "parent"@,
            Ok(HandshakeStep::WriteFile(n)) => header.snapshot_id@ != Seq::<char>::empty()
                && header.open_mode == OPEN_MODE_WRONLY && n@ == header.name@,
            Ok(HandshakeStep::ReadFile(n)) => header.snapshot_id@ != Seq::<char>::empty()
                && header.open_mode == OPEN_MODE_RDONLY && n@ == header.name@,
            Err(e) => {
                &&& e == Error::ProtocolViolation
                &&& (if header.snapshot_id@ == Seq::<char>::empty() {
                    if header.name@ == "parent"@ {
                        header.open_mode != OPEN_MODE_APPEND && header.open_mode
                            != OPEN_MODE_RDONLY
                    } else {
                        header.name@ != Seq::<char>::empty()
                    }
                } else {
                    header.open_mode != OPEN_MODE_WRONLY && header.open_mode != OPEN_MODE_RDONLY
                })
            },
        },
{
    proof {
        reveal_strlit("parent");
        reveal_strlit("");
    }
    if header.snapshot_id.as_str().unicode_len() == 0 {
        if str_eq(header.name.as_str(), "parent") {
            if header.open_mode == OPEN_MODE_APPEND {
                Ok(HandshakeStep::ReceiveSnapshotId)
            } else if header.open_mode == OPEN_MODE_RDONLY {
                Ok(HandshakeStep::SendSnapshotIds)
            } else {
                Err(Error::ProtocolViolation)
            }
        } else if header.name.as_str().unicode_len() == 0 {
            Ok(HandshakeStep::Finish)
        } else {
            Err(Error::ProtocolViolation)
        }
    } else {
        match handshake_file(header) {
            Ok(HandshakeResult::WriteFile(n)) => Ok(HandshakeStep::WriteFile(n)),
            Ok(HandshakeResult::ReadFile(n)) => Ok(HandshakeStep::ReadFile(n)),
            Ok(_) => Err(Error::ProtocolViolation),
            Err(e) => Err(e),
        }
    }
}

} // verus!
