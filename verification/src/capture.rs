//! The capture serializer: the decisions that multiplex many producer
//! files into a few shard streams.
//!
//! The serializer assigns every marker a globally dense sequence number,
//! elides redundant `Filename` markers, cuts producer data into bounded
//! chunks, and picks for each chunk the shard with the greatest
//! remaining-space estimate. The kernel work it directs — querying readable
//! bytes, writing marker frames, splicing payload — is done by its caller,
//! which feeds the readings back in as plain values.
//!
//! The ghost `trace` records every marker emitted so far; the serializer's
//! well-formedness ties the sequence counter, the current-file name and the
//! image-end flag to it, which is how the stream-level laws are stated and
//! proved.

use vstd::prelude::*;
use crate::image::{Marker, MarkerBody, SpecMarker, SpecMarkerBody};
use crate::util::str_eq;

verus! {

/// One shard output and its bookkeeping.
#[derive(Clone, Copy, Debug, PartialEq, Eq, Structural)]
pub struct Shard {
    /// A stable identity (the output descriptor); breaks selection ties.
    pub id: u64,
    /// A conservative lower bound of the remaining in-pipe buffer space,
    /// in bytes. It can go briefly negative: writes are debited
    /// pessimistically.
    pub remaining_space: i64,
    /// Cumulative payload and marker bytes written to this shard.
    pub bytes_written: u64,
}

impl Shard {
    pub fn new(id: u64) -> (r: Shard)
        ensures
            r == (Shard { id, remaining_space: 0i64, bytes_written: 0u64 }),
    {
        Shard { id, remaining_space: 0, bytes_written: 0 }
    }
}

/// Selection order: by remaining space, ties broken by identity.
pub open spec fn shard_le(a: Shard, b: Shard) -> bool {
    ||| a.remaining_space < b.remaining_space
    ||| (a.remaining_space == b.remaining_space && a.id <= b.id)
}

/// Whether `s[i]` is the shard that selection picks.
pub open spec fn is_best(s: Seq<Shard>, i: int) -> bool {
    &&& 0 <= i < s.len()
    &&& forall|j: int| 0 <= j < s.len() ==> shard_le(#[trigger] s[j], s[i])
}

/// The name governing the position right after `trace`: the name of the
/// last `Filename` marker, if any.
pub open spec fn current_name_of(trace: Seq<SpecMarker>) -> Option<Seq<char>>
    decreases trace.len(),
{
    if trace.len() == 0 {
        None
    } else {
        match trace.last().body {
            SpecMarkerBody::Filename(n) => Some(n),
            _ => current_name_of(trace.drop_last()),
        }
    }
}

/// The largest payload one chunk may carry: an eighth of the shard pipe
/// less one marker page, but never under a page.
pub open spec fn chunk_max(capacity: int, page_size: int) -> int {
    if capacity / 8 - page_size >= page_size {
        capacity / 8 - page_size
    } else {
        page_size
    }
}

/// How a readable byte count is cut into chunks: repeatedly the lesser of
/// what remains and `max`.
pub open spec fn chunk_sizes(remaining: int, max: int) -> Seq<int>
    decreases remaining,
    when max >= 1
{
    if remaining <= 0 {
        Seq::<int>::empty()
    } else {
        let s = if remaining < max {
            remaining
        } else {
            max
        };
        seq![s] + chunk_sizes(remaining - s, max)
    }
}

/// The marker bodies one drain event emits: the filename unless elided,
/// one `FileData` per chunk, and `FileEof` on end of file.
pub open spec fn drain_bodies(elide: bool, name: Seq<char>, readable: int, max: int) -> Seq<
    SpecMarkerBody,
> {
    (if elide {
        Seq::<SpecMarkerBody>::empty()
    } else {
        seq![SpecMarkerBody::Filename(name)]
    }) + chunk_sizes(readable, max).map_values(|s: int| SpecMarkerBody::FileData(s as u32))
        + (if readable == 0 {
        seq![SpecMarkerBody::FileEof]
    } else {
        Seq::<SpecMarkerBody>::empty()
    })
}

/// The bodies paired with dense sequence numbers from `start`.
pub open spec fn with_seqs(bodies: Seq<SpecMarkerBody>, start: int) -> Seq<SpecMarker> {
    Seq::new(bodies.len(), |i: int| SpecMarker { seq: (start + i) as u64, body: bodies[i] })
}

/// The serializer.
pub struct ImageSerializer {
    shards: Vec<Shard>,
    shard_pipe_capacity: u64,
    page_size: u64,
    seq: u64,
    current_filename: Option<String>,
    image_eof: bool,
    trace: Ghost<Seq<SpecMarker>>,
}

impl ImageSerializer {
    /// Every marker emitted so far, in emission order.
    pub closed spec fn trace(&self) -> Seq<SpecMarker> {
        self.trace@
    }

    pub closed spec fn spec_shards(&self) -> Seq<Shard> {
        self.shards@
    }

    pub closed spec fn spec_capacity(&self) -> int {
        self.shard_pipe_capacity as int
    }

    pub closed spec fn spec_page_size(&self) -> int {
        self.page_size as int
    }

    pub closed spec fn spec_seq(&self) -> int {
        self.seq as int
    }

    pub closed spec fn spec_image_eof(&self) -> bool {
        self.image_eof
    }

    pub closed spec fn spec_current_filename(&self) -> Option<Seq<char>> {
        match self.current_filename {
            Some(ref s) => Some(s@),
            None => None,
        }
    }

    /// The stream discipline, stated over the ghost trace:
    /// sequence numbers are dense from zero; the image end is terminal and
    /// unique; the tracked current name is the trace's; and no `Filename`
    /// marker ever repeats the name already governing its position.
    pub closed spec fn wf(&self) -> bool {
        &&& self.shards@.len() > 0
        &&& (forall|i: int, j: int|
            0 <= i < j < self.shards@.len() ==> (#[trigger] self.shards@[i]).id != (
            #[trigger] self.shards@[j]).id)
        &&& 0 < self.page_size as int <= 0x8000_0000
        &&& 0 < self.shard_pipe_capacity as int <= 0x8000_0000
        &&& self.seq as int == self.trace@.len()
        &&& (forall|i: int| 0 <= i < self.trace@.len() ==> (#[trigger] self.trace@[i]).seq == i)
        &&& (forall|i: int|
            0 <= i < self.trace@.len() && (#[trigger] self.trace@[i]).body is ImageEof ==> i
                == self.trace@.len() - 1 && self.image_eof)
        &&& (self.image_eof ==> self.trace@.len() > 0 && self.trace@.last().body is ImageEof)
        &&& self.spec_current_filename() == current_name_of(self.trace@)
        &&& (forall|i: int|
            0 <= i < self.trace@.len() ==> match (#[trigger] self.trace@[i]).body {
                SpecMarkerBody::Filename(n) => current_name_of(self.trace@.take(i)) != Some(n),
                _ => true,
            })
    }

    /// A serializer over shards with the given identities.
    pub fn new(shard_ids: &Vec<u64>, shard_pipe_capacity: u64, page_size: u64) -> (r:
        ImageSerializer)
        requires
            shard_ids@.len() > 0,
            forall|i: int, j: int|
                0 <= i < j < shard_ids@.len() ==> shard_ids@[i] != shard_ids@[j],
            0 < page_size as int <= 0x8000_0000,
            0 < shard_pipe_capacity as int <= 0x8000_0000,
        ensures
            r.wf(),
            r.trace() == Seq::<SpecMarker>::empty(),
            r.spec_seq() == 0,
            !r.spec_image_eof(),
            r.spec_current_filename() is None,
            r.spec_capacity() == shard_pipe_capacity,
            r.spec_page_size() == page_size,
            r.spec_shards().len() == shard_ids@.len(),
            forall|i: int|
                0 <= i < shard_ids@.len() ==> #[trigger] r.spec_shards()[i] == (Shard {
                    id: shard_ids@[i],
                    remaining_space: 0i64,
                    bytes_written: 0u64,
                }),
    {
        let n = shard_ids.len();
        let mut shards: Vec<Shard> = Vec::new();
        let mut i: usize = 0;
        while i < n
            invariant
                n == shard_ids@.len(),
                i <= n,
                shards@.len() == i,
                forall|k: int|
                    0 <= k < i ==> #[trigger] shards@[k] == (Shard {
                        id: shard_ids@[k],
                        remaining_space: 0i64,
                        bytes_written: 0u64,
                    }),
            decreases n - i,
        {
            shards.push(Shard::new(shard_ids[i]));
            i = i + 1;
        }
        ImageSerializer {
            shards,
            shard_pipe_capacity,
            page_size,
            seq: 0,
            current_filename: None,
            image_eof: false,
            trace: Ghost(Seq::empty()),
        }
    }

    /// Lowers the shard pipe capacity estimate used for chunk sizing and
    /// space accounting; the caller re-sizes the pipes themselves.
    pub fn resize(&mut self, new_capacity: u64)
        requires
            old(self).wf(),
            0 < new_capacity as int <= 0x8000_0000,
        ensures
            final(self).wf(),
            final(self).spec_capacity() == new_capacity,
            final(self).spec_shards() == old(self).spec_shards(),
            final(self).spec_page_size() == old(self).spec_page_size(),
            final(self).spec_seq() == old(self).spec_seq(),
            final(self).spec_image_eof() == old(self).spec_image_eof(),
            final(self).spec_current_filename() == old(self).spec_current_filename(),
            final(self).trace() == old(self).trace(),
    {
        self.shard_pipe_capacity = new_capacity;
    }

    /// The next sequence number to assign.
    pub fn seq(&self) -> (r: u64)
        ensures
            r == self.spec_seq(),
    {
        self.seq
    }

    /// Whether the image end has been written.
    pub fn image_eof(&self) -> (r: bool)
        ensures
            r == self.spec_image_eof(),
    {
        self.image_eof
    }

    /// How many shards are tracked.
    pub fn shard_count(&self) -> (r: usize)
        ensures
            r == self.spec_shards().len(),
    {
        self.shards.len()
    }

    /// The bookkeeping of one shard.
    pub fn shard(&self, idx: usize) -> (r: Shard)
        requires
            idx < self.spec_shards().len(),
        ensures
            r == self.spec_shards()[idx as int],
    {
        self.shards[idx]
    }

    /// The largest payload one chunk may carry.
    pub fn chunk_max_data_size(&self) -> (r: u64)
        requires
            self.wf(),
        ensures
            r == chunk_max(self.spec_capacity(), self.spec_page_size()),
            1 <= r <= 0x8000_0000,
    {
        let cap8 = self.shard_pipe_capacity / 8;
        if cap8 >= 2 * self.page_size {
            cap8 - self.page_size
        } else {
            self.page_size
        }
    }

    /// Appends one marker to the stream: assigns it the next sequence
    /// number and keeps the tracked current name and image-end flag in
    /// step.
    fn emit(&mut self, body: MarkerBody) -> (m: Marker)
        requires
            old(self).wf(),
            !old(self).spec_image_eof(),
            old(self).spec_seq() < u64::MAX,
            (body@ matches SpecMarkerBody::Filename(n) ==> old(self).spec_current_filename()
                != Some(n)),
        ensures
            final(self).wf(),
            m@ == (SpecMarker { seq: old(self).spec_seq() as u64, body: body@ }),
            final(self).trace() == old(self).trace().push(m@),
            final(self).spec_seq() == old(self).spec_seq() + 1,
            final(self).spec_shards() == old(self).spec_shards(),
            final(self).spec_capacity() == old(self).spec_capacity(),
            final(self).spec_page_size() == old(self).spec_page_size(),
            final(self).spec_image_eof() == (body@ is ImageEof),
            final(self).spec_current_filename() == match body@ {
                SpecMarkerBody::Filename(n) => Some(n),
                _ => old(self).spec_current_filename(),
            },
    {
        let ghost t0 = self.trace@;
        match &body {
            MarkerBody::Filename(name) => {
                self.current_filename = Some(name.clone());
            },
            MarkerBody::ImageEof => {
                self.image_eof = true;
            },
            _ => {},
        }
        let m = Marker { seq: self.seq, body };
        self.seq = self.seq + 1;
        proof {
            self.trace@ = t0.push(m@);
            lemma_current_name_push(t0, m@);
            assert forall|i: int|
                0 <= i < self.trace@.len() && (#[trigger] self.trace@[i]).body
                    is ImageEof implies i == self.trace@.len() - 1 && self.image_eof by {
                if i < t0.len() {
                    assert(t0[i].body is ImageEof);
                }
            }
            assert forall|i: int| 0 <= i < self.trace@.len() implies match (
            #[trigger] self.trace@[i]).body {
                SpecMarkerBody::Filename(n) => current_name_of(self.trace@.take(i)) != Some(n),
                _ => true,
            } by {
                lemma_take_of_push(t0, m@, i);
                if i < t0.len() {
                    assert(match t0[i].body {
                        SpecMarkerBody::Filename(n) => current_name_of(t0.take(i)) != Some(n),
                        _ => true,
                    });
                } else {
                    assert(self.trace@.take(i) =~= t0);
                }
            }
        }
        m
    }

    /// The markers one readability event on a producer file emits: its
    /// name unless it is already the current file, one `FileData` per
    /// chunk of the readable bytes, and `FileEof` when the readable count
    /// is zero (the producer closed its pipe). Returns the markers in
    /// emission order and whether the file stays open.
    ///
    /// The caller writes each marker's frame to the shard this serializer
    /// picks for it, splicing the declared payload right behind the
    /// `FileData` frames.
    pub fn drain_img_file(&mut self, filename: &String, readable_len: u32) -> (r: (
        Vec<Marker>,
        bool,
    ))
        requires
            old(self).wf(),
            !old(self).spec_image_eof(),
            old(self).spec_seq() + readable_len + 2 <= u64::MAX,
        ensures
            final(self).wf(),
            !final(self).spec_image_eof(),
            final(self).spec_shards() == old(self).spec_shards(),
            final(self).spec_capacity() == old(self).spec_capacity(),
            final(self).spec_page_size() == old(self).spec_page_size(),
            final(self).spec_current_filename() == Some(filename@),
            r.1 == (readable_len > 0),
            r.0@.map_values(|m: Marker| m@) == with_seqs(
                drain_bodies(
                    old(self).spec_current_filename() == Some(filename@),
                    filename@,
                    readable_len as int,
                    chunk_max(old(self).spec_capacity(), old(self).spec_page_size()),
                ),
                old(self).spec_seq(),
            ),
            final(self).trace() == old(self).trace() + r.0@.map_values(|m: Marker| m@),
            final(self).spec_seq() == old(self).spec_seq() + r.0@.len(),
    {
        let ghost start = self.spec_seq();
        let ghost max_i = chunk_max(self.spec_capacity(), self.spec_page_size());
        let ghost t0 = self.trace@;
        let ghost elide0 = self.spec_current_filename() == Some(filename@);
        let ghost total = with_seqs(
            drain_bodies(elide0, filename@, readable_len as int, max_i),
            start,
        );
        let elide = match &self.current_filename {
            Some(cur) => str_eq(cur.as_str(), filename.as_str()),
            None => false,
        };
        assert(elide == elide0);
        let mut markers: Vec<Marker> = Vec::new();
        if !elide {
            let m = self.emit(MarkerBody::Filename(filename.clone()));
            markers.push(m);
        }
        let ghost eof_part = if readable_len == 0 {
            seq![SpecMarkerBody::FileEof]
        } else {
            Seq::<SpecMarkerBody>::empty()
        };
        proof {
            let fname_part = if elide0 {
                Seq::<SpecMarkerBody>::empty()
            } else {
                seq![SpecMarkerBody::Filename(filename@)]
            };
            let rest_part = chunk_sizes(readable_len as int, max_i).map_values(
                |s: int| SpecMarkerBody::FileData(s as u32),
            ) + eof_part;
            lemma_with_seqs_concat(fname_part, rest_part, start);
            assert(markers@.map_values(|m: Marker| m@) =~= with_seqs(fname_part, start));
            assert(total =~= markers@.map_values(|m: Marker| m@) + with_seqs(
                rest_part,
                self.spec_seq(),
            ));
            assert(self.trace@ =~= t0 + markers@.map_values(|m: Marker| m@));
        }
        let max = self.chunk_max_data_size();
        let mut remaining = readable_len;
        while remaining > 0
            invariant
                self.wf(),
                !self.spec_image_eof(),
                self.spec_shards() == old(self).spec_shards(),
                self.spec_capacity() == old(self).spec_capacity(),
                self.spec_page_size() == old(self).spec_page_size(),
                self.spec_current_filename() == Some(filename@),
                max == chunk_max(old(self).spec_capacity(), old(self).spec_page_size()),
                max_i == max,
                1 <= max <= 0x8000_0000,
                remaining <= readable_len,
                remaining > 0 ==> readable_len > 0,
                self.spec_seq() + remaining + 1 <= u64::MAX,
                self.spec_seq() == start + markers@.len(),
                self.trace@ == t0 + markers@.map_values(|m: Marker| m@),
                eof_part == if readable_len == 0 {
                    seq![SpecMarkerBody::FileEof]
                } else {
                    Seq::<SpecMarkerBody>::empty()
                },
                total == markers@.map_values(|m: Marker| m@) + with_seqs(
                    chunk_sizes(remaining as int, max_i).map_values(
                        |s: int| SpecMarkerBody::FileData(s as u32),
                    ) + eof_part,
                    self.spec_seq(),
                ),
            decreases remaining,
        {
            let ghost ms0 = markers@.map_values(|m: Marker| m@);
            let ghost seq0 = self.spec_seq();
            let data_size: u32 = if remaining < max as u32 {
                remaining
            } else {
                max as u32
            };
            let m = self.emit(MarkerBody::FileData(data_size));
            markers.push(m);
            remaining = remaining - data_size;
            proof {
                let sizes0 = chunk_sizes(remaining as int + data_size as int, max_i);
                let sizes1 = chunk_sizes(remaining as int, max_i);
                assert(sizes0 =~= seq![data_size as int] + sizes1);
                let bodies0 = sizes0.map_values(|s: int| SpecMarkerBody::FileData(s as u32));
                let bodies1 = sizes1.map_values(|s: int| SpecMarkerBody::FileData(s as u32));
                assert(bodies0 =~= seq![SpecMarkerBody::FileData(data_size)] + bodies1);
                assert(bodies0 + eof_part =~= seq![SpecMarkerBody::FileData(data_size)] + (bodies1
                    + eof_part));
                lemma_with_seqs_concat(
                    seq![SpecMarkerBody::FileData(data_size)],
                    bodies1 + eof_part,
                    seq0,
                );
                assert(markers@.map_values(|m: Marker| m@) =~= ms0.push(m@));
                assert(with_seqs(seq![SpecMarkerBody::FileData(data_size)], seq0) =~= seq![m@]);
                assert(ms0 + seq![m@] =~= ms0.push(m@));
                assert(total == markers@.map_values(|m: Marker| m@) + with_seqs(
                    bodies1 + eof_part,
                    self.spec_seq(),
                ));
                assert(self.trace@ =~= t0 + markers@.map_values(|m: Marker| m@));
            }
        }
        if readable_len == 0 {
            let ghost ms0 = markers@.map_values(|m: Marker| m@);
            let ghost seq0 = self.spec_seq();
            let m = self.emit(MarkerBody::FileEof);
            markers.push(m);
            proof {
                assert(chunk_sizes(0, max_i) =~= Seq::<int>::empty());
                assert(chunk_sizes(0, max_i).map_values(|s: int| SpecMarkerBody::FileData(s as u32))
                    + eof_part =~= seq![SpecMarkerBody::FileEof]);
                assert(markers@.map_values(|m: Marker| m@) =~= ms0.push(m@));
                assert(with_seqs(seq![SpecMarkerBody::FileEof], seq0) =~= seq![m@]);
                assert(total =~= ms0 + seq![m@]);
                assert(total =~= markers@.map_values(|m: Marker| m@));
                assert(self.trace@ =~= t0 + markers@.map_values(|m: Marker| m@));
            }
            (markers, false)
        } else {
            proof {
                assert(chunk_sizes(0, max_i).map_values(|s: int| SpecMarkerBody::FileData(s as u32))
                    + eof_part =~= Seq::<SpecMarkerBody>::empty());
                assert(with_seqs(Seq::<SpecMarkerBody>::empty(), self.spec_seq()) =~= Seq::<
                    SpecMarker,
                >::empty());
                assert(total =~= markers@.map_values(|m: Marker| m@));
            }
            (markers, true)
        }
    }

    /// Ends the image: the single terminal marker, bearing the highest
    /// sequence number of the run.
    pub fn write_image_eof(&mut self) -> (m: Marker)
        requires
            old(self).wf(),
            !old(self).spec_image_eof(),
            old(self).spec_seq() < u64::MAX,
        ensures
            final(self).wf(),
            final(self).spec_image_eof(),
            m@ == (SpecMarker { seq: old(self).spec_seq() as u64, body: SpecMarkerBody::ImageEof }),
            final(self).trace() == old(self).trace().push(m@),
            final(self).spec_seq() == old(self).spec_seq() + 1,
            final(self).spec_shards() == old(self).spec_shards(),
            final(self).spec_capacity() == old(self).spec_capacity(),
            final(self).spec_page_size() == old(self).spec_page_size(),
    {
        self.emit(MarkerBody::ImageEof)
    }

    /// Incorporates fresh readable-byte readings, one per shard in order:
    /// each estimate becomes the capacity less what sits in the pipe.
    pub fn refresh_all_shard_remaining_space(&mut self, pipe_lens: &Vec<i64>)
        requires
            old(self).wf(),
            pipe_lens@.len() == old(self).spec_shards().len(),
            forall|i: int| 0 <= i < pipe_lens@.len() ==> 0 <= #[trigger] pipe_lens@[i] <= 0x1_0000_0000,
        ensures
            final(self).wf(),
            final(self).spec_shards().len() == old(self).spec_shards().len(),
            forall|i: int|
                0 <= i < pipe_lens@.len() ==> #[trigger] final(self).spec_shards()[i] == (Shard {
                    id: old(self).spec_shards()[i].id,
                    remaining_space: (old(self).spec_capacity() - pipe_lens@[i]) as i64,
                    bytes_written: old(self).spec_shards()[i].bytes_written,
                }),
            final(self).spec_capacity() == old(self).spec_capacity(),
            final(self).spec_page_size() == old(self).spec_page_size(),
            final(self).spec_seq() == old(self).spec_seq(),
            final(self).spec_image_eof() == old(self).spec_image_eof(),
            final(self).spec_current_filename() == old(self).spec_current_filename(),
            final(self).trace() == old(self).trace(),
    {
        let n = self.shards.len();
        let mut refreshed: Vec<Shard> = Vec::new();
        let mut i: usize = 0;
        while i < n
            invariant
                self.wf(),
                n == self.shards@.len() == pipe_lens@.len(),
                self.shards@ == old(self).spec_shards(),
                self.shard_pipe_capacity == old(self).spec_capacity(),
                forall|k: int| 0 <= k < pipe_lens@.len() ==> 0 <= #[trigger] pipe_lens@[k] <= 0x1_0000_0000,
                i <= n,
                refreshed@.len() == i,
                forall|k: int|
                    0 <= k < i ==> #[trigger] refreshed@[k] == (Shard {
                        id: self.shards@[k].id,
                        remaining_space: (self.shard_pipe_capacity - pipe_lens@[k]) as i64,
                        bytes_written: self.shards@[k].bytes_written,
                    }),
            decreases n - i,
        {
            let s = self.shards[i];
            let rem: i64 = self.shard_pipe_capacity as i64 - pipe_lens[i];
            refreshed.push(Shard { id: s.id, remaining_space: rem, bytes_written: s.bytes_written });
            i = i + 1;
        }
        self.shards = refreshed;
        proof {
            assert forall|a: int, b: int| 0 <= a < b < self.shards@.len() implies (
            #[trigger] self.shards@[a]).id != (#[trigger] self.shards@[b]).id by {
                assert(self.shards@[a].id == old(self).spec_shards()[a].id);
                assert(self.shards@[b].id == old(self).spec_shards()[b].id);
            }
        }
    }

    /// Whether even the best-placed shard looks too full for a chunk
    /// needing `data_size` payload bytes plus one marker page. When it
    /// does, learning every shard's true fill is worth the cost: another
    /// shard may have drained unnoticed.
    pub fn needs_refresh(&self, data_size: u32) -> (r: bool)
        requires
            self.wf(),
        ensures
            r == forall|j: int|
                0 <= j < self.spec_shards().len() ==> (#[trigger] self.spec_shards()[j]).remaining_space
                    < self.spec_page_size() + data_size,
    {
        let required: i64 = self.page_size as i64 + data_size as i64;
        let n = self.shards.len();
        let mut i: usize = 0;
        while i < n
            invariant
                self.wf(),
                n == self.shards@.len(),
                i <= n,
                required == self.spec_page_size() + data_size,
                forall|j: int|
                    0 <= j < i ==> (#[trigger] self.spec_shards()[j]).remaining_space < required,
            decreases n - i,
        {
            if self.shards[i].remaining_space >= required {
                proof {
                    assert(!(self.spec_shards()[i as int].remaining_space < self.spec_page_size()
                        + data_size));
                }
                return false;
            }
            i = i + 1;
        }
        true
    }

    /// Picks the shard for the next chunk — the one with the greatest
    /// remaining-space estimate, ties broken by identity — and debits it:
    /// the estimate drops by a marker page plus the payload, the byte
    /// counter grows by the frame and payload lengths.
    pub fn place_chunk(&mut self, marker_len: u64, data_size: u32) -> (idx: usize)
        requires
            old(self).wf(),
            forall|i: int|
                0 <= i < old(self).spec_shards().len() ==> (#[trigger] old(self).spec_shards()[i]).bytes_written
                    + marker_len + data_size <= u64::MAX,
            forall|i: int|
                0 <= i < old(self).spec_shards().len() ==> i64::MIN + 0x2_0000_0000 <= (
                #[trigger] old(self).spec_shards()[i]).remaining_space,
        ensures
            final(self).wf(),
            is_best(old(self).spec_shards(), idx as int),
            final(self).spec_shards() == old(self).spec_shards().update(
                idx as int,
                Shard {
                    id: old(self).spec_shards()[idx as int].id,
                    remaining_space: (old(self).spec_shards()[idx as int].remaining_space - (
                    old(self).spec_page_size() + data_size)) as i64,
                    bytes_written: (old(self).spec_shards()[idx as int].bytes_written + marker_len
                        + data_size) as u64,
                },
            ),
            final(self).spec_capacity() == old(self).spec_capacity(),
            final(self).spec_page_size() == old(self).spec_page_size(),
            final(self).spec_seq() == old(self).spec_seq(),
            final(self).spec_image_eof() == old(self).spec_image_eof(),
            final(self).spec_current_filename() == old(self).spec_current_filename(),
            final(self).trace() == old(self).trace(),
    {
        let n = self.shards.len();
        let mut best: usize = 0;
        let mut i: usize = 1;
        while i < n
            invariant
                self.wf(),
                n == self.shards@.len(),
                best < i <= n,
                forall|j: int| 0 <= j < i ==> shard_le(#[trigger] self.shards@[j], self.shards@[best as int]),
            decreases n - i,
        {
            let s = self.shards[i];
            let b = self.shards[best];
            if s.remaining_space > b.remaining_space || (s.remaining_space == b.remaining_space
                && s.id > b.id) {
                best = i;
            }
            i = i + 1;
        }
        let s = self.shards[best];
        let required: i64 = self.page_size as i64 + data_size as i64;
        proof {
            assert(old(self).spec_shards()[best as int] == s);
            assert(s.bytes_written + marker_len + data_size <= u64::MAX);
            assert(required <= 0x2_0000_0000);
            assert(s.remaining_space - required >= i64::MIN);
        }
        let updated = Shard {
            id: s.id,
            remaining_space: s.remaining_space - required,
            bytes_written: s.bytes_written + marker_len + data_size as u64,
        };
        self.shards[best] = updated;
        proof {
            assert forall|a: int, b2: int| 0 <= a < b2 < self.shards@.len() implies (
            #[trigger] self.shards@[a]).id != (#[trigger] self.shards@[b2]).id by {
                assert(self.shards@[a].id == old(self).spec_shards()[a].id);
                assert(self.shards@[b2].id == old(self).spec_shards()[b2].id);
            }
        }
        best
    }
}

proof fn lemma_with_seqs_concat(a: Seq<SpecMarkerBody>, b: Seq<SpecMarkerBody>, start: int)
    ensures
        with_seqs(a + b, start) == with_seqs(a, start) + with_seqs(b, start + a.len()),
{
    assert(with_seqs(a + b, start) =~= with_seqs(a, start) + with_seqs(b, start + a.len()));
}

// ---------------------------------------------------------------------------
// Stream laws
// ---------------------------------------------------------------------------

impl ImageSerializer {
    /// The sequence numbers of the emitted markers are exactly
    /// `0, 1, …, N-1`, and once the image end has been written it is the
    /// single terminal marker of the whole run.
    pub proof fn lemma_marker_stream_dense(&self)
        requires
            self.wf(),
        ensures
            forall|i: int| 0 <= i < self.trace().len() ==> (#[trigger] self.trace()[i]).seq == i,
            self.spec_image_eof() ==> self.trace().len() > 0 && self.trace().last().body
                is ImageEof,
            forall|i: int|
                0 <= i < self.trace().len() && (#[trigger] self.trace()[i]).body is ImageEof ==> i
                    == self.trace().len() - 1 && self.spec_image_eof(),
    {
    }

    /// Filename elision: no `Filename` marker ever names the file already
    /// governing its position, so consecutive data chunks of one file see
    /// no repeat of its name in between.
    pub proof fn lemma_filename_elision(&self)
        requires
            self.wf(),
        ensures
            forall|i: int|
                0 <= i < self.trace().len() ==> match (#[trigger] self.trace()[i]).body {
                    SpecMarkerBody::Filename(n) => current_name_of(self.trace().take(i)) != Some(n),
                    _ => true,
                },
    {
    }

    /// Load balancing: take a shard whose pipe nobody drains, so that its
    /// remaining-space estimate is conservative — at most the pipe
    /// capacity less everything written to it. As long as any other shard
    /// shows a nonnegative estimate, selection reaches the choked shard
    /// only while its cumulative bytes are still within one pipe
    /// capacity: the rest of the image spreads over the others.
    pub proof fn lemma_choked_shard_selection(&self, choked: int, healthy: int)
        requires
            self.wf(),
            0 <= choked < self.spec_shards().len(),
            0 <= healthy < self.spec_shards().len(),
            self.spec_shards()[choked].remaining_space <= self.spec_capacity()
                - self.spec_shards()[choked].bytes_written,
            self.spec_shards()[healthy].remaining_space >= 0,
            is_best(self.spec_shards(), choked),
        ensures
            self.spec_shards()[choked].bytes_written <= self.spec_capacity(),
    {
        assert(shard_le(self.spec_shards()[healthy], self.spec_shards()[choked]));
    }
}

// Trace lemmas.
proof fn lemma_current_name_push(trace: Seq<SpecMarker>, m: SpecMarker)
    ensures
        current_name_of(trace.push(m)) == match m.body {
            SpecMarkerBody::Filename(n) => Some(n),
            _ => current_name_of(trace),
        },
{
    assert(trace.push(m).last() == m);
    assert(trace.push(m).drop_last() =~= trace);
}

proof fn lemma_take_of_push(s: Seq<SpecMarker>, m: SpecMarker, i: int)
    requires
        0 <= i <= s.len(),
    ensures
        s.push(m).take(i) == s.take(i),
{
    assert(s.push(m).take(i) =~= s.take(i));
}

} // verus!
