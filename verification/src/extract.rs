//! The restore deserializer: reordering the interleaved shard streams and
//! reassembling the original files.
//!
//! Markers read off the shards arrive in shard order, not sequence order.
//! The [`MarkerReorderer`] holds each marker back, together with the shard
//! it came from, until its sequence number is the next expected one; its
//! shard stays with it, because the marker's payload must be consumed from
//! that shard before any later marker there can be read. The
//! [`ImageDeserializer`] applies the markers, strictly in sequence order,
//! to the in-memory store.
//!
//! [`apply_marker`] is the specification of what applying one marker
//! means; every step of the concrete deserializer is proved to follow it.

use vstd::prelude::*;
use crate::image::{Marker, MarkerBody, SpecMarker, SpecMarkerBody};
use crate::image_store::mem::{File, Store};
use crate::capture::{chunk_sizes, drain_bodies};
use crate::error::Error;

verus! {

/// A marker that cannot be applied yet, still owning its shard slot: the
/// payload behind it must be consumed from that shard first.
pub struct PendingMarker {
    pub marker: Marker,
    pub shard_idx: usize,
}

// ---------------------------------------------------------------------------
// Reordering by sequence number
// ---------------------------------------------------------------------------

/// Reorders markers into sequence order.
pub struct MarkerReorderer {
    pending_markers: Vec<PendingMarker>,
    seq: u64,
    image_eof: bool,
    delivered: Ghost<Seq<SpecMarker>>,
}

impl MarkerReorderer {
    /// The markers waiting for their turn, with the shard each came from.
    pub closed spec fn spec_pending(&self) -> Seq<(SpecMarker, int)> {
        self.pending_markers@.map_values(|p: PendingMarker| (p.marker@, p.shard_idx as int))
    }

    /// The next sequence number to hand out.
    pub closed spec fn spec_seq(&self) -> int {
        self.seq as int
    }

    /// Whether the image end has been reached.
    pub closed spec fn spec_image_eof(&self) -> bool {
        self.image_eof
    }

    /// Every marker handed out so far, in the order it was handed out.
    pub closed spec fn delivered(&self) -> Seq<SpecMarker> {
        self.delivered@
    }

    /// Delivery is dense and pending markers all lie ahead of it, each
    /// sequence number held at most once.
    pub closed spec fn wf(&self) -> bool {
        &&& self.delivered@.len() == self.seq as int
        &&& (forall|i: int|
            0 <= i < self.delivered@.len() ==> (#[trigger] self.delivered@[i]).seq == i)
        &&& (forall|i: int|
            0 <= i < self.spec_pending().len() ==> (#[trigger] self.spec_pending()[i]).0.seq
                >= self.seq as int)
        &&& (forall|i: int, j: int|
            0 <= i < j < self.spec_pending().len() ==> (#[trigger] self.spec_pending()[i]).0.seq
                != (#[trigger] self.spec_pending()[j]).0.seq)
    }

    pub fn new() -> (r: MarkerReorderer)
        ensures
            r.wf(),
            r.spec_pending() == Seq::<(SpecMarker, int)>::empty(),
            r.spec_seq() == 0,
            !r.spec_image_eof(),
            r.delivered() == Seq::<SpecMarker>::empty(),
    {
        let r = MarkerReorderer {
            pending_markers: Vec::new(),
            seq: 0,
            image_eof: false,
            delivered: Ghost(Seq::empty()),
        };
        proof {
            assert(r.spec_pending() =~= Seq::<(SpecMarker, int)>::empty());
        }
        r
    }

    /// Files a marker read from shard `shard_idx`. A marker is refused
    /// exactly when the image end has already been reached, when its
    /// sequence number was already handed out, or when it is already
    /// pending.
    pub fn push_marker(&mut self, marker: Marker, shard_idx: usize) -> (r: Result<(), Error>)
        requires
            old(self).wf(),
        ensures
            final(self).wf(),
            final(self).spec_image_eof() == old(self).spec_image_eof(),
            final(self).spec_seq() == old(self).spec_seq(),
            final(self).delivered() == old(self).delivered(),
            match r {
                Ok(()) => {
                    &&& !old(self).spec_image_eof()
                    &&& marker@.seq >= old(self).spec_seq()
                    &&& (forall|i: int|
                        0 <= i < old(self).spec_pending().len() ==> (
                        #[trigger] old(self).spec_pending()[i]).0.seq != marker@.seq)
                    &&& final(self).spec_pending() == old(self).spec_pending().push(
                        (marker@, shard_idx as int),
                    )
                },
                Err(e) => {
                    &&& e == Error::SequenceViolation
                    &&& final(self).spec_pending() == old(self).spec_pending()
                    &&& (old(self).spec_image_eof() || (marker@.seq as int) < old(self).spec_seq()
                        || exists|i: int|
                        0 <= i < old(self).spec_pending().len() && (
                        #[trigger] old(self).spec_pending()[i]).0.seq == marker@.seq)
                },
            },
    {
        if self.image_eof {
            return Err(Error::SequenceViolation);
        }
        if marker.seq < self.seq {
            return Err(Error::SequenceViolation);
        }
        let n = self.pending_markers.len();
        let mut i: usize = 0;
        while i < n
            invariant
                self.wf(),
                self == old(self),
                n == self.pending_markers@.len(),
                i <= n,
                forall|j: int|
                    0 <= j < i ==> (#[trigger] self.spec_pending()[j]).0.seq != marker@.seq,
            decreases n - i,
        {
            if self.pending_markers[i].marker.seq == marker.seq {
                proof {
                    assert(self.spec_pending()[i as int].0.seq == marker@.seq);
                }
                return Err(Error::SequenceViolation);
            }
            i = i + 1;
        }
        self.pending_markers.push(PendingMarker { marker, shard_idx });
        proof {
            assert(self.spec_pending() =~= old(self).spec_pending().push(
                (self.pending_markers@.last().marker@, shard_idx as int),
            ));
        }
        Ok(())
    }

    /// Hands out the pending marker bearing the expected sequence number,
    /// if it has arrived, together with the shard holding its payload.
    pub fn get_next_in_order_marker(&mut self) -> (r: Option<PendingMarker>)
        requires
            old(self).wf(),
            old(self).spec_seq() < u64::MAX,
        ensures
            final(self).wf(),
            final(self).spec_image_eof() == old(self).spec_image_eof(),
            match r {
                Some(p) => {
                    &&& p.marker@.seq == old(self).spec_seq()
                    &&& (exists|k: int|
                        0 <= k < old(self).spec_pending().len() && old(self).spec_pending()[k] == (
                        p.marker@,
                        p.shard_idx as int,
                        ) && final(self).spec_pending() == old(self).spec_pending().remove(k))
                    &&& final(self).spec_seq() == old(self).spec_seq() + 1
                    &&& final(self).delivered() == old(self).delivered().push(p.marker@)
                },
                None => {
                    &&& (forall|i: int|
                        0 <= i < old(self).spec_pending().len() ==> (
                        #[trigger] old(self).spec_pending()[i]).0.seq != old(self).spec_seq())
                    &&& final(self).spec_pending() == old(self).spec_pending()
                    &&& final(self).spec_seq() == old(self).spec_seq()
                    &&& final(self).delivered() == old(self).delivered()
                },
            },
    {
        let n = self.pending_markers.len();
        let mut i: usize = 0;
        while i < n
            invariant
                self.wf(),
                self == old(self),
                n == self.pending_markers@.len(),
                i <= n,
                (self.seq as int) < u64::MAX,
                forall|j: int|
                    0 <= j < i ==> (#[trigger] self.spec_pending()[j]).0.seq != self.seq as int,
            decreases n - i,
        {
            if self.pending_markers[i].marker.seq == self.seq {
                let ghost k = i as int;
                proof {
                    assert(old(self).spec_pending()[k].0.seq == old(self).spec_seq());
                }
                let p = self.pending_markers.remove(i);
                self.seq = self.seq + 1;
                proof {
                    self.delivered@ = self.delivered@.push(p.marker@);
                    assert(self.spec_pending() =~= old(self).spec_pending().remove(k));
                    assert forall|j: int|
                        0 <= j < self.spec_pending().len() implies (
                    #[trigger] self.spec_pending()[j]).0.seq >= self.seq as int by {
                        let j0 = if j < k {
                            j
                        } else {
                            j + 1
                        };
                        assert(old(self).spec_pending()[j0] == self.spec_pending()[j]);
                        assert(old(self).spec_pending()[j0].0.seq != old(self).spec_pending()[k].0.seq);
                    }
                }
                return Some(p);
            }
            i = i + 1;
        }
        None
    }

    /// Records the image end. Refused while markers are still pending:
    /// the end marker must bear the highest sequence number of the run.
    pub fn mark_image_eof(&mut self) -> (r: Result<(), Error>)
        requires
            old(self).wf(),
        ensures
            final(self).wf(),
            final(self).spec_pending() == old(self).spec_pending(),
            final(self).spec_seq() == old(self).spec_seq(),
            final(self).delivered() == old(self).delivered(),
            match r {
                Ok(()) => old(self).spec_pending().len() == 0 && final(self).spec_image_eof(),
                Err(e) => {
                    &&& e == Error::SequenceViolation
                    &&& old(self).spec_pending().len() > 0
                    &&& final(self).spec_image_eof() == old(self).spec_image_eof()
                },
            },
    {
        if self.pending_markers.len() > 0 {
            return Err(Error::SequenceViolation);
        }
        self.image_eof = true;
        Ok(())
    }

    /// Whether the image end has been reached.
    pub fn finished(&self) -> (r: bool)
        ensures
            r == self.spec_image_eof(),
    {
        self.image_eof
    }

    /// The next sequence number expected.
    pub fn next_seq(&self) -> (r: u64)
        ensures
            r == self.spec_seq(),
    {
        self.seq
    }

    /// Markers leave the reorderer strictly in sequence order: what has
    /// been handed out is exactly the dense run `0, 1, …` of sequence
    /// numbers.
    pub proof fn lemma_delivery_in_order(&self)
        requires
            self.wf(),
        ensures
            self.delivered().len() == self.spec_seq(),
            forall|i: int|
                0 <= i < self.delivered().len() ==> (#[trigger] self.delivered()[i]).seq == i,
    {
    }
}

// ---------------------------------------------------------------------------
// The deserializer's specification
// ---------------------------------------------------------------------------

/// The abstract state of a restore in progress.
#[verifier::ext_equal]
pub struct DesState {
    /// Files committed by `FileEof`.
    pub store: Map<Seq<char>, Seq<u8>>,
    /// Files begun but neither current nor committed.
    pub open_files: Map<Seq<char>, Seq<u8>>,
    /// The file that incoming data belongs to.
    pub current: Option<(Seq<char>, Seq<u8>)>,
    /// Whether the image end has been applied.
    pub image_eof: bool,
}

/// What applying one marker to the abstract state means; `None` is a
/// sequencing error. `payload` is empty except for `FileData`, where it
/// holds the declared number of bytes from the same shard.
pub open spec fn apply_marker(st: DesState, body: SpecMarkerBody, payload: Seq<u8>) -> Option<
    DesState,
> {
    if st.image_eof {
        None
    } else {
        match body {
            SpecMarkerBody::Filename(n) => {
                let stashed = match st.current {
                    Some((cn, cf)) => st.open_files.insert(cn, cf),
                    None => st.open_files,
                };
                let resumed = if stashed.contains_key(n) {
                    stashed[n]
                } else {
                    Seq::<u8>::empty()
                };
                Some(
                    DesState {
                        open_files: stashed.remove(n),
                        current: Some((n, resumed)),
                        ..st
                    },
                )
            },
            SpecMarkerBody::FileData(size) => match st.current {
                None => None,
                Some((cn, cf)) => {
                    if payload.len() == size {
                        Some(DesState { current: Some((cn, cf + payload)), ..st })
                    } else {
                        None
                    }
                },
            },
            SpecMarkerBody::FileEof => match st.current {
                None => None,
                Some((cn, cf)) => {
                    if st.store.contains_key(cn) {
                        None
                    } else {
                        Some(DesState { store: st.store.insert(cn, cf), current: None, ..st })
                    }
                },
            },
            SpecMarkerBody::ImageEof => {
                if st.current is None && st.open_files == Map::<Seq<char>, Seq<u8>>::empty() {
                    Some(DesState { image_eof: true, ..st })
                } else {
                    None
                }
            },
        }
    }
}

// ---------------------------------------------------------------------------
// The deserializer
// ---------------------------------------------------------------------------

/// Reassembles an image into the in-memory store, applying markers
/// strictly in sequence order.
pub struct ImageDeserializer {
    reorderer: MarkerReorderer,
    img_store: Store,
    img_files: Store,
    current_img_file: Option<(String, File)>,
    applied: Ghost<Seq<(SpecMarkerBody, Seq<u8>)>>,
}

impl ImageDeserializer {
    /// The abstract state.
    pub closed spec fn abs(&self) -> DesState {
        DesState {
            store: self.img_store@,
            open_files: self.img_files@,
            current: match self.current_img_file {
                Some((ref n, ref f)) => Some((n@, f@)),
                None => None,
            },
            image_eof: self.reorderer.spec_image_eof(),
        }
    }

    /// Every (marker body, payload) pair applied so far, in order.
    pub closed spec fn applied(&self) -> Seq<(SpecMarkerBody, Seq<u8>)> {
        self.applied@
    }

    pub closed spec fn spec_pending(&self) -> Seq<(SpecMarker, int)> {
        self.reorderer.spec_pending()
    }

    pub closed spec fn spec_seq(&self) -> int {
        self.reorderer.spec_seq()
    }

    pub closed spec fn delivered(&self) -> Seq<SpecMarker> {
        self.reorderer.delivered()
    }

    pub closed spec fn wf(&self) -> bool {
        &&& self.reorderer.wf()
        &&& self.img_store.wf()
        &&& self.img_files.wf()
        &&& match self.current_img_file {
            Some((ref n, ref f)) => f.wf() && !self.img_files@.contains_key(n@),
            None => true,
        }
    }

    /// A deserializer filling `img_store`.
    pub fn new(img_store: Store) -> (r: ImageDeserializer)
        requires
            img_store.wf(),
        ensures
            r.wf(),
            r.abs() == (DesState {
                store: img_store@,
                open_files: Map::<Seq<char>, Seq<u8>>::empty(),
                current: None::<(Seq<char>, Seq<u8>)>,
                image_eof: false,
            }),
            r.applied() == Seq::<(SpecMarkerBody, Seq<u8>)>::empty(),
            r.spec_pending() == Seq::<(SpecMarker, int)>::empty(),
            r.spec_seq() == 0,
            r.delivered() == Seq::<SpecMarker>::empty(),
    {
        ImageDeserializer {
            reorderer: MarkerReorderer::new(),
            img_store,
            img_files: Store::new(),
            current_img_file: None,
            applied: Ghost(Seq::empty()),
        }
    }

    /// Files a marker read from shard `shard_idx`; see
    /// [`MarkerReorderer::push_marker`].
    pub fn push_marker(&mut self, marker: Marker, shard_idx: usize) -> (r: Result<(), Error>)
        requires
            old(self).wf(),
        ensures
            final(self).wf(),
            final(self).abs() == old(self).abs(),
            final(self).applied() == old(self).applied(),
            final(self).spec_seq() == old(self).spec_seq(),
            final(self).delivered() == old(self).delivered(),
            match r {
                Ok(()) => {
                    &&& !old(self).abs().image_eof
                    &&& marker@.seq >= old(self).spec_seq()
                    &&& final(self).spec_pending() == old(self).spec_pending().push(
                        (marker@, shard_idx as int),
                    )
                },
                Err(e) => {
                    &&& e == Error::SequenceViolation
                    &&& final(self).spec_pending() == old(self).spec_pending()
                },
            },
    {
        self.reorderer.push_marker(marker, shard_idx)
    }

    /// Hands out the next marker in sequence order, if it has arrived;
    /// see [`MarkerReorderer::get_next_in_order_marker`]. The caller then
    /// consumes a `FileData` marker's payload from the returned shard and
    /// applies the marker with [`Self::process_marker`].
    pub fn get_next_in_order_marker(&mut self) -> (r: Option<PendingMarker>)
        requires
            old(self).wf(),
            old(self).spec_seq() < u64::MAX,
        ensures
            final(self).wf(),
            final(self).abs() == old(self).abs(),
            final(self).applied() == old(self).applied(),
            match r {
                Some(p) => {
                    &&& p.marker@.seq == old(self).spec_seq()
                    &&& (exists|k: int|
                        0 <= k < old(self).spec_pending().len() && old(self).spec_pending()[k] == (
                        p.marker@,
                        p.shard_idx as int,
                        ) && final(self).spec_pending() == old(self).spec_pending().remove(k))
                    &&& final(self).spec_seq() == old(self).spec_seq() + 1
                    &&& final(self).delivered() == old(self).delivered().push(p.marker@)
                },
                None => {
                    &&& (forall|i: int|
                        0 <= i < old(self).spec_pending().len() ==> (
                        #[trigger] old(self).spec_pending()[i]).0.seq != old(self).spec_seq())
                    &&& final(self).spec_pending() == old(self).spec_pending()
                    &&& final(self).spec_seq() == old(self).spec_seq()
                    &&& final(self).delivered() == old(self).delivered()
                },
            },
    {
        self.reorderer.get_next_in_order_marker()
    }

    /// Applies one marker. For a `FileData` marker the caller supplies
    /// exactly the declared payload bytes, consumed from the marker's
    /// shard; every other marker carries none.
    ///
    /// The step succeeds exactly when [`apply_marker`] allows it — and,
    /// for the image end, when no marker is still pending; any refusal
    /// leaves the state unchanged and aborts the restore.
    pub fn process_marker(&mut self, marker: Marker, payload: Option<Vec<u8>>) -> (r: Result<
        (),
        Error,
    >)
        requires
            old(self).wf(),
            match marker@.body {
                SpecMarkerBody::FileData(size) => payload matches Some(p) && p@.len() == size,
                _ => payload is None,
            },
        ensures
            final(self).wf(),
            final(self).spec_pending() == old(self).spec_pending(),
            final(self).spec_seq() == old(self).spec_seq(),
            final(self).delivered() == old(self).delivered(),
            ({
                let bytes = match payload {
                    Some(p) => p@,
                    None => Seq::<u8>::empty(),
                };
                match r {
                    Ok(()) => {
                        &&& apply_marker(old(self).abs(), marker@.body, bytes) == Some(
                            final(self).abs(),
                        )
                        &&& (marker@.body is ImageEof ==> old(self).spec_pending().len() == 0)
                        &&& final(self).applied() == old(self).applied().push(
                            (marker@.body, bytes),
                        )
                    },
                    Err(e) => {
                        &&& e == Error::SequenceViolation
                        &&& final(self).abs() == old(self).abs()
                        &&& final(self).applied() == old(self).applied()
                        &&& (apply_marker(old(self).abs(), marker@.body, bytes) is None || (
                        marker@.body is ImageEof && old(self).spec_pending().len() > 0))
                    },
                }
            }),
    {
        let ghost bytes = match payload {
            Some(ref p) => p@,
            None => Seq::<u8>::empty(),
        };
        if self.reorderer.finished() {
            return Err(Error::SequenceViolation);
        }
        match marker.body {
            MarkerBody::Filename(name) => {
                // stash the current file so it is not created twice
                let mut cur: Option<(String, File)> = None;
                core::mem::swap(&mut cur, &mut self.current_img_file);
                let ghost stashed = match old(self).abs().current {
                    Some((cn, cf)) => old(self).abs().open_files.insert(cn, cf),
                    None => old(self).abs().open_files,
                };
                match cur {
                    Some((cn, cf)) => {
                        match self.img_files.insert(cn, cf) {
                            Ok(()) => {},
                            Err(_) => {
                                proof {
                                    assert(false);
                                }
                                return Err(Error::SequenceViolation);
                            },
                        }
                    },
                    None => {},
                }
                assert(self.img_files@ == stashed);
                // resume the file of that name, or begin a new one
                let (resumed, ghost_had): (File, Ghost<bool>) = match self.img_files.remove(
                    name.as_str(),
                ) {
                    Some(f) => (f, Ghost(true)),
                    None => (self.img_store.create(name.as_str()), Ghost(false)),
                };
                proof {
                    if !ghost_had@ {
                        assert(self.img_files@ =~= stashed.remove(name@));
                    }
                }
                self.current_img_file = Some((name, resumed));
                proof {
                    assert(apply_marker(old(self).abs(), marker@.body, bytes) == Some(
                        self.abs(),
                    ));
                    self.applied@ = self.applied@.push((marker@.body, bytes));
                }
                Ok(())
            },
            MarkerBody::FileData(size) => {
                let data = match payload {
                    Some(p) => p,
                    None => {
                        proof {
                            assert(false);
                        }
                        Vec::new()
                    },
                };
                match &mut self.current_img_file {
                    None => Err(Error::SequenceViolation),
                    Some(pair) => {
                        pair.1.write_all_bytes(&data);
                        proof {
                            assert(apply_marker(old(self).abs(), marker@.body, bytes) == Some(
                                self.abs(),
                            ));
                            self.applied@ = self.applied@.push((marker@.body, bytes));
                        }
                        Ok(())
                    },
                }
            },
            MarkerBody::FileEof => {
                let mut cur: Option<(String, File)> = None;
                core::mem::swap(&mut cur, &mut self.current_img_file);
                match cur {
                    None => Err(Error::SequenceViolation),
                    Some((cn, cf)) => {
                        if self.img_store.contains(cn.as_str()) {
                            // a file may be committed only once
                            self.current_img_file = Some((cn, cf));
                            return Err(Error::SequenceViolation);
                        }
                        match self.img_store.insert(cn, cf) {
                            Ok(()) => {},
                            Err(_) => {
                                proof {
                                    assert(false);
                                }
                                return Err(Error::SequenceViolation);
                            },
                        }
                        proof {
                            assert(apply_marker(old(self).abs(), marker@.body, bytes) == Some(
                                self.abs(),
                            ));
                            self.applied@ = self.applied@.push((marker@.body, bytes));
                        }
                        Ok(())
                    },
                }
            },
            MarkerBody::ImageEof => {
                if self.current_img_file.is_some() {
                    return Err(Error::SequenceViolation);
                }
                if !self.img_files.is_empty() {
                    return Err(Error::SequenceViolation);
                }
                match self.reorderer.mark_image_eof() {
                    Ok(()) => {
                        proof {
                            assert(apply_marker(old(self).abs(), marker@.body, bytes) == Some(
                                self.abs(),
                            ));
                            self.applied@ = self.applied@.push((marker@.body, bytes));
                        }
                        Ok(())
                    },
                    Err(e) => Err(e),
                }
            },
        }
    }

    /// Whether the image end has been applied. A restore is complete when
    /// this holds and every shard has reached its end of stream.
    pub fn image_eof(&self) -> (r: bool)
        ensures
            r == self.abs().image_eof,
    {
        self.reorderer.finished()
    }

    /// The next sequence number expected.
    pub fn next_seq(&self) -> (r: u64)
        ensures
            r == self.spec_seq(),
    {
        self.reorderer.next_seq()
    }

    /// Hands the filled store out, ending the restore.
    pub fn into_store(self) -> (r: Store)
        requires
            self.wf(),
        ensures
            r.wf(),
            r@ == self.abs().store,
    {
        self.img_store
    }
}

/// The names already handed out while serving. Serving a name twice is a
/// protocol error: the peer would otherwise hold two copies of the file.
pub struct ServedSet {
    names: Vec<String>,
}

impl ServedSet {
    /// The names served so far.
    pub closed spec fn view(&self) -> Seq<Seq<char>> {
        self.names@.map_values(|s: String| s@)
    }

    pub fn new() -> (r: ServedSet)
        ensures
            r@ == Seq::<Seq<char>>::empty(),
    {
        let r = ServedSet { names: Vec::new() };
        proof {
            assert(r@ =~= Seq::<Seq<char>>::empty());
        }
        r
    }

    /// Records a served name.
    pub fn record(&mut self, name: String)
        ensures
            final(self)@ == old(self)@.push(name@),
    {
        self.names.push(name);
        proof {
            assert(self@ =~= old(self)@.push(self.names@.last()@));
        }
    }

    /// Checks a request for a name that turned out absent: absent because
    /// it was already served is a protocol error, absent because it never
    /// existed is a clean miss.
    pub fn check_absent(&self, name: &str) -> (r: Result<(), Error>)
        ensures
            match r {
                Ok(()) => forall|i: int| 0 <= i < self@.len() ==> self@[i] != name@,
                Err(e) => e == Error::ProtocolViolation && exists|i: int|
                    0 <= i < self@.len() && self@[i] == name@,
            },
    {
        let n = self.names.len();
        let mut i: usize = 0;
        while i < n
            invariant
                n == self.names@.len(),
                i <= n,
                forall|j: int| 0 <= j < i ==> self@[j] != name@,
            decreases n - i,
        {
            if crate::util::str_eq(self.names[i].as_str(), name) {
                proof {
                    assert(self@[i as int] == name@);
                }
                return Err(Error::ProtocolViolation);
            }
            i = i + 1;
        }
        Ok(())
    }
}

// ---------------------------------------------------------------------------
// The round trip: a capture feeding, then restore
// ---------------------------------------------------------------------------

/// Runs the deserializer over a sequence of (marker body, payload) events.
pub open spec fn run_markers(st: DesState, evs: Seq<(SpecMarkerBody, Seq<u8>)>) -> Option<DesState>
    decreases evs.len(),
{
    if evs.len() == 0 {
        Some(st)
    } else {
        match apply_marker(st, evs[0].0, evs[0].1) {
            None => None,
            Some(st2) => run_markers(st2, evs.drop_first()),
        }
    }
}

proof fn lemma_run_markers_concat(
    st: DesState,
    a: Seq<(SpecMarkerBody, Seq<u8>)>,
    b: Seq<(SpecMarkerBody, Seq<u8>)>,
)
    ensures
        run_markers(st, a + b) == match run_markers(st, a) {
            None => None::<DesState>,
            Some(m) => run_markers(m, b),
        },
    decreases a.len(),
{
    if a.len() == 0 {
        assert(a + b =~= b);
    } else {
        assert((a + b)[0] == a[0]);
        match apply_marker(st, a[0].0, a[0].1) {
            None => {},
            Some(st2) => {
                assert((a + b).drop_first() =~= a.drop_first() + b);
                lemma_run_markers_concat(st2, a.drop_first(), b);
            },
        }
    }
}

/// The data chunks one drain cuts its bytes into, paired with their
/// payload slices: repeatedly the lesser of what remains and `max`.
pub open spec fn chunk_payload_events(data: Seq<u8>, max: int) -> Seq<(SpecMarkerBody, Seq<u8>)>
    decreases data.len(),
    when max >= 1
{
    if data.len() == 0 {
        Seq::empty()
    } else {
        let s = if data.len() < max {
            data.len() as int
        } else {
            max
        };
        seq![(SpecMarkerBody::FileData(s as u32), data.take(s))] + chunk_payload_events(
            data.skip(s),
            max,
        )
    }
}

/// Every event one readability event on a producer file gives rise to:
/// the file's name unless it is current already, its data in chunks, and
/// the file end when no bytes remain.
pub open spec fn drain_events(elide: bool, name: Seq<char>, data: Seq<u8>, max: int) -> Seq<
    (SpecMarkerBody, Seq<u8>),
> {
    (if elide {
        Seq::<(SpecMarkerBody, Seq<u8>)>::empty()
    } else {
        seq![(SpecMarkerBody::Filename(name), Seq::<u8>::empty())]
    }) + chunk_payload_events(data, max) + (if data.len() == 0 {
        seq![(SpecMarkerBody::FileEof, Seq::<u8>::empty())]
    } else {
        Seq::<(SpecMarkerBody, Seq<u8>)>::empty()
    })
}

/// What the producers have fed into capture so far: the files already
/// ended, the files still open with everything drained for them, and the
/// file the serializer holds current.
#[verifier::ext_equal]
pub struct FeedState {
    pub done: Map<Seq<char>, Seq<u8>>,
    pub open: Map<Seq<char>, Seq<u8>>,
    pub cur: Option<Seq<char>>,
}

pub open spec fn init_feed() -> FeedState {
    FeedState { done: Map::empty(), open: Map::empty(), cur: None }
}

/// One readability event on the producer side: `data` drained from the
/// named file, empty meaning its end. A file already ended is never
/// drained again.
pub open spec fn feed_drain(fs: FeedState, name: Seq<char>, data: Seq<u8>) -> Option<FeedState> {
    if fs.done.contains_key(name) {
        None
    } else {
        let prev = if fs.open.contains_key(name) {
            fs.open[name]
        } else {
            Seq::<u8>::empty()
        };
        if data.len() == 0 {
            Some(
                FeedState {
                    done: fs.done.insert(name, prev),
                    open: fs.open.remove(name),
                    cur: Some(name),
                },
            )
        } else {
            Some(FeedState { done: fs.done, open: fs.open.insert(name, prev + data), cur: Some(name) })
        }
    }
}

pub open spec fn feed_run(fs: FeedState, drains: Seq<(Seq<char>, Seq<u8>)>) -> Option<FeedState>
    decreases drains.len(),
{
    if drains.len() == 0 {
        Some(fs)
    } else {
        match feed_drain(fs, drains[0].0, drains[0].1) {
            None => None,
            Some(f2) => feed_run(f2, drains.drop_first()),
        }
    }
}

/// The whole marker stream a feeding emits, in sequence order.
pub open spec fn feeding_events(fs: FeedState, drains: Seq<(Seq<char>, Seq<u8>)>, max: int) -> Seq<
    (SpecMarkerBody, Seq<u8>),
>
    decreases drains.len(),
{
    if drains.len() == 0 {
        Seq::empty()
    } else {
        let evs = drain_events(fs.cur == Some(drains[0].0), drains[0].0, drains[0].1, max);
        match feed_drain(fs, drains[0].0, drains[0].1) {
            None => evs,
            Some(f2) => evs + feeding_events(f2, drains.drop_first(), max),
        }
    }
}

/// The serializer's current file was put there by some drain, so it is
/// either still open or already ended.
pub open spec fn wf_feed(fs: FeedState) -> bool {
    fs.cur matches Some(c) ==> fs.open.contains_key(c) || fs.done.contains_key(c)
}

/// How a restore in progress mirrors the feeding that produced its
/// stream.
pub open spec fn couples(st: DesState, fs: FeedState) -> bool {
    &&& st.store == fs.done
    &&& !st.image_eof
    &&& match fs.cur {
        None => st.current is None && st.open_files == fs.open,
        Some(c) => if fs.open.contains_key(c) {
            st.current == Some((c, fs.open[c])) && st.open_files == fs.open.remove(c)
        } else {
            st.current is None && st.open_files == fs.open
        },
    }
}

proof fn lemma_run_single(st: DesState, ev: (SpecMarkerBody, Seq<u8>))
    ensures
        run_markers(st, seq![ev]) == match apply_marker(st, ev.0, ev.1) {
            None => None::<DesState>,
            Some(m) => Some(m),
        },
{
    let evs: Seq<(SpecMarkerBody, Seq<u8>)> = seq![ev];
    assert(evs[0] == ev);
    assert(evs.drop_first() =~= Seq::<(SpecMarkerBody, Seq<u8>)>::empty());
    match apply_marker(st, ev.0, ev.1) {
        None => {},
        Some(m) => {
            assert(run_markers(m, evs.drop_first()) == Some(m));
        },
    }
}

proof fn lemma_run_chunks(st: DesState, data: Seq<u8>, max: int)
    requires
        1 <= max <= 0x8000_0000,
        !st.image_eof,
        st.current is Some,
    ensures
        run_markers(st, chunk_payload_events(data, max)) == Some(
            DesState {
                current: Some((st.current.unwrap().0, st.current.unwrap().1 + data)),
                ..st
            },
        ),
    decreases data.len(),
{
    let c = st.current.unwrap().0;
    let prev = st.current.unwrap().1;
    if data.len() == 0 {
        assert(prev + data =~= prev);
        assert(DesState { current: Some((c, prev + data)), ..st } =~= st);
    } else {
        let s = if data.len() < max {
            data.len() as int
        } else {
            max
        };
        let ev = (SpecMarkerBody::FileData(s as u32), data.take(s));
        let st2 = DesState { current: Some((c, prev + data.take(s))), ..st };
        assert(data.take(s).len() == s as u32);
        assert(apply_marker(st, ev.0, ev.1) matches Some(m) && m =~= st2);
        lemma_run_chunks(st2, data.skip(s), max);
        let evs = chunk_payload_events(data, max);
        assert(evs[0] == ev);
        assert(evs.drop_first() =~= chunk_payload_events(data.skip(s), max));
        assert(prev + data.take(s) + data.skip(s) =~= prev + data);
        assert(DesState { current: Some((c, prev + data.take(s) + data.skip(s))), ..st } =~= (
        DesState { current: Some((c, prev + data)), ..st }));
    }
}

proof fn lemma_run_one_drain(st: DesState, fs: FeedState, name: Seq<char>, data: Seq<u8>, max: int)
    requires
        1 <= max <= 0x8000_0000,
        couples(st, fs),
        wf_feed(fs),
        feed_drain(fs, name, data) is Some,
    ensures
        ({
            let r = run_markers(st, drain_events(fs.cur == Some(name), name, data, max));
            &&& r is Some
            &&& couples(r.unwrap(), feed_drain(fs, name, data).unwrap())
            &&& wf_feed(feed_drain(fs, name, data).unwrap())
        }),
{
    let elide = fs.cur == Some(name);
    let prev = if fs.open.contains_key(name) {
        fs.open[name]
    } else {
        Seq::<u8>::empty()
    };
    let fname_part: Seq<(SpecMarkerBody, Seq<u8>)> = if elide {
        Seq::empty()
    } else {
        seq![(SpecMarkerBody::Filename(name), Seq::<u8>::empty())]
    };
    let chunk_part = chunk_payload_events(data, max);
    let eof_part: Seq<(SpecMarkerBody, Seq<u8>)> = if data.len() == 0 {
        seq![(SpecMarkerBody::FileEof, Seq::<u8>::empty())]
    } else {
        Seq::empty()
    };
    let st1 = DesState {
        open_files: fs.open.remove(name),
        current: Some((name, prev)),
        ..st
    };
    // after the (possibly elided) filename, `name` is current with `prev`
    if elide {
        let c = fs.cur.unwrap();
        assert(fs.open.contains_key(c) || fs.done.contains_key(c));
        assert(!fs.done.contains_key(name));
        assert(fs.open.contains_key(name));
        assert(run_markers(st, fname_part) == Some(st));
        assert(st =~= st1);
    } else {
        let ev = (SpecMarkerBody::Filename(name), Seq::<u8>::empty());
        let stashed = match st.current {
            Some((cn, cf)) => st.open_files.insert(cn, cf),
            None => st.open_files,
        };
        assert(stashed =~= fs.open) by {
            match fs.cur {
                None => {},
                Some(c) => {
                    if fs.open.contains_key(c) {
                        assert(st.open_files =~= fs.open.remove(c));
                        assert(fs.open.remove(c).insert(c, fs.open[c]) =~= fs.open);
                    }
                },
            }
        };
        assert(apply_marker(st, ev.0, ev.1) matches Some(m) && m =~= st1);
        assert(fname_part =~= seq![ev]);
        lemma_run_single(st, ev);
        assert(run_markers(st, fname_part) == Some(st1));
    }
    // the chunks append the drained bytes to the current file
    lemma_run_chunks(st1, data, max);
    let st2 = DesState { current: Some((name, prev + data)), ..st1 };
    assert(run_markers(st1, chunk_part) matches Some(m) && m =~= st2);
    let fs2 = feed_drain(fs, name, data).unwrap();
    if data.len() == 0 {
        // the end of the file commits it
        assert(prev + data =~= prev);
        let ev = (SpecMarkerBody::FileEof, Seq::<u8>::empty());
        assert(!st2.store.contains_key(name));
        let st3 = DesState { store: st2.store.insert(name, prev), current: None, ..st2 };
        assert(apply_marker(st2, ev.0, ev.1) matches Some(m) && m =~= st3);
        assert(eof_part =~= seq![ev]);
        lemma_run_single(st2, ev);
        assert(run_markers(st2, eof_part) == Some(st3));
        lemma_run_markers_concat(st1, chunk_part, eof_part);
        lemma_run_markers_concat(st, fname_part, chunk_part + eof_part);
        assert(drain_events(elide, name, data, max) =~= fname_part + (chunk_part + eof_part));
        let r = run_markers(st, drain_events(elide, name, data, max));
        assert(r matches Some(m) && m =~= st3);
        assert(couples(st3, fs2)) by {
            assert(!fs2.open.contains_key(name));
            assert(st3.open_files =~= fs2.open);
        };
    } else {
        lemma_run_markers_concat(st1, chunk_part, eof_part);
        lemma_run_markers_concat(st, fname_part, chunk_part + eof_part);
        assert(chunk_part + eof_part =~= chunk_part);
        assert(drain_events(elide, name, data, max) =~= fname_part + (chunk_part + eof_part));
        let r = run_markers(st, drain_events(elide, name, data, max));
        assert(r matches Some(m) && m =~= st2);
        assert(couples(st2, fs2)) by {
            assert(fs2.open.contains_key(name) && fs2.open[name] == prev + data);
            assert(st2.open_files =~= fs2.open.remove(name));
        };
    }
}

proof fn lemma_run_feeding(
    st: DesState,
    fs: FeedState,
    drains: Seq<(Seq<char>, Seq<u8>)>,
    max: int,
)
    requires
        1 <= max <= 0x8000_0000,
        couples(st, fs),
        wf_feed(fs),
        feed_run(fs, drains) is Some,
    ensures
        ({
            let r = run_markers(st, feeding_events(fs, drains, max));
            &&& r is Some
            &&& couples(r.unwrap(), feed_run(fs, drains).unwrap())
        }),
    decreases drains.len(),
{
    if drains.len() == 0 {
    } else {
        let name = drains[0].0;
        let data = drains[0].1;
        let evs0 = drain_events(fs.cur == Some(name), name, data, max);
        lemma_run_one_drain(st, fs, name, data, max);
        let fs2 = feed_drain(fs, name, data).unwrap();
        let st2 = run_markers(st, evs0).unwrap();
        lemma_run_markers_concat(st, evs0, feeding_events(fs2, drains.drop_first(), max));
        lemma_run_feeding(st2, fs2, drains.drop_first(), max);
    }
}

/// The round trip: feed any set of files through capture — each file
/// drained in any number of readability events, interleaved with other
/// files however the poller happens to wake, and ended by an empty
/// drain — and apply the emitted marker stream in sequence order, closed
/// by the image end. The restore succeeds, and the store maps every file
/// name to exactly the bytes its producer fed in ([`feed_drain`]
/// accumulates them in `done`).
pub proof fn lemma_capture_restore_round_trip(drains: Seq<(Seq<char>, Seq<u8>)>, max: int)
    requires
        1 <= max <= 0x8000_0000,
        feed_run(init_feed(), drains) is Some,
        feed_run(init_feed(), drains).unwrap().open == Map::<Seq<char>, Seq<u8>>::empty(),
    ensures
        ({
            let evs = feeding_events(init_feed(), drains, max) + seq![
                (SpecMarkerBody::ImageEof, Seq::<u8>::empty()),
            ];
            let start = DesState {
                store: Map::empty(),
                open_files: Map::empty(),
                current: None,
                image_eof: false,
            };
            let r = run_markers(start, evs);
            &&& r is Some
            &&& r.unwrap().image_eof
            &&& r.unwrap().store == feed_run(init_feed(), drains).unwrap().done
        }),
{
    let start = DesState {
        store: Map::empty(),
        open_files: Map::empty(),
        current: None,
        image_eof: false,
    };
    assert(couples(start, init_feed()));
    lemma_run_feeding(start, init_feed(), drains, max);
    let fs_end = feed_run(init_feed(), drains).unwrap();
    let st_end = run_markers(start, feeding_events(init_feed(), drains, max)).unwrap();
    // with every file ended, nothing is current or open: the image end applies
    assert(st_end.current is None && st_end.open_files =~= Map::<Seq<char>, Seq<u8>>::empty()) by {
        match fs_end.cur {
            None => {},
            Some(c) => {
                assert(!fs_end.open.contains_key(c));
            },
        }
    };
    let ev = (SpecMarkerBody::ImageEof, Seq::<u8>::empty());
    let st3 = DesState { image_eof: true, ..st_end };
    assert(apply_marker(st_end, ev.0, ev.1) matches Some(m) && m =~= st3);
    let tail: Seq<(SpecMarkerBody, Seq<u8>)> = seq![ev];
    lemma_run_single(st_end, ev);
    assert(run_markers(st_end, tail) == Some(st3));
    lemma_run_markers_concat(start, feeding_events(init_feed(), drains, max), tail);
}

/// The feeding model emits exactly the markers the serializer does: for
/// one drain, the event bodies are the serializer's [`drain_bodies`], and
/// each data marker's payload has its declared length.
pub proof fn lemma_drain_events_match_serializer(
    elide: bool,
    name: Seq<char>,
    data: Seq<u8>,
    max: int,
)
    requires
        1 <= max <= 0x8000_0000,
    ensures
        drain_events(elide, name, data, max).map_values(|e: (SpecMarkerBody, Seq<u8>)| e.0)
            == drain_bodies(elide, name, data.len() as int, max),
        forall|i: int|
            0 <= i < drain_events(elide, name, data, max).len() ==> match (
            #[trigger] drain_events(elide, name, data, max)[i]).0 {
                SpecMarkerBody::FileData(size) => drain_events(elide, name, data, max)[i].1.len()
                    == size,
                _ => true,
            },
{
    lemma_chunk_events_bodies(data, max);
    let evs = drain_events(elide, name, data, max);
    let chunks = chunk_payload_events(data, max);
    let sizes = chunk_sizes(data.len() as int, max);
    let bodies = drain_bodies(elide, name, data.len() as int, max);
    let pre: int = if elide {
        0
    } else {
        1
    };
    assert(evs.len() == bodies.len());
    assert forall|i: int| 0 <= i < evs.len() implies (#[trigger] evs[i]).0 == bodies[i] by {
        if pre <= i < pre + chunks.len() {
            assert(evs[i] == chunks[i - pre]);
            assert(bodies[i] == sizes.map_values(|s: int| SpecMarkerBody::FileData(s as u32))[i
                - pre]);
        }
    }
    assert(evs.map_values(|e: (SpecMarkerBody, Seq<u8>)| e.0) =~= bodies);
    assert forall|i: int| 0 <= i < evs.len() implies match (#[trigger] evs[i]).0 {
        SpecMarkerBody::FileData(size) => evs[i].1.len() == size,
        _ => true,
    } by {
        if pre <= i < pre + chunks.len() {
            assert(evs[i] == chunks[i - pre]);
        }
    }
}

proof fn lemma_chunk_events_bodies(data: Seq<u8>, max: int)
    requires
        1 <= max <= 0x8000_0000,
    ensures
        chunk_payload_events(data, max).len() == chunk_sizes(data.len() as int, max).len(),
        forall|i: int|
            0 <= i < chunk_payload_events(data, max).len() ==> (
            #[trigger] chunk_payload_events(data, max)[i]).0 == SpecMarkerBody::FileData(
                chunk_sizes(data.len() as int, max)[i] as u32,
            ) && chunk_payload_events(data, max)[i].1.len() == chunk_sizes(
                data.len() as int,
                max,
            )[i] && 0 <= chunk_sizes(data.len() as int, max)[i] <= max,
    decreases data.len(),
{
    if data.len() == 0 {
    } else {
        let s = if data.len() < max {
            data.len() as int
        } else {
            max
        };
        lemma_chunk_events_bodies(data.skip(s), max);
        assert(data.skip(s).len() == data.len() - s);
        let evs = chunk_payload_events(data, max);
        let rest = chunk_payload_events(data.skip(s), max);
        let sizes = chunk_sizes(data.len() as int, max);
        let sizes_rest = chunk_sizes(data.len() - s, max);
        assert(evs =~= seq![(SpecMarkerBody::FileData(s as u32), data.take(s))] + rest);
        assert(sizes =~= seq![s] + sizes_rest);
        assert forall|i: int| 0 <= i < evs.len() implies (#[trigger] evs[i]).0
            == SpecMarkerBody::FileData(sizes[i] as u32) && evs[i].1.len() == sizes[i] && 0
            <= sizes[i] <= max by {
            if i > 0 {
                assert(evs[i] == rest[i - 1]);
                assert(sizes[i] == sizes_rest[i - 1]);
            }
        }
    }
}

} // verus!
