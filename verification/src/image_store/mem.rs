//! The in-memory image store: a filename-to-file container that buffers a
//! whole image so files can be served on demand.
//!
//! Small files live in an ordinary byte vector; once a file would outgrow a
//! page it switches to a sequence of fixed-capacity mapped chunks, so that
//! serving a large file can gift whole chunks away without the allocator
//! recycling their pages mid-transfer.

use vstd::prelude::*;
use crate::error::Error;
use crate::mmap_buf::MmapBuf;
use crate::util::{MB, PAGE_SIZE, copy_range, str_eq, str_starts_with};

verus! {

/// Capacity of one mapped chunk of a large file.
pub const MAX_LARGE_CHUNK_SIZE: usize = 10 * MB;

/// An in-memory image file.
pub enum File {
    /// A file no larger than a page, in an ordinary vector.
    Small(Vec<u8>),
    /// A larger file, as a sequence of fixed-capacity mapped chunks; every
    /// chunk but the last is full.
    Large(Vec<MmapBuf>),
}

/// The bytes of a chunk sequence, in order.
pub open spec fn concat_chunks(chunks: Seq<MmapBuf>) -> Seq<u8>
    decreases chunks.len(),
{
    if chunks.len() == 0 {
        Seq::<u8>::empty()
    } else {
        concat_chunks(chunks.drop_last()) + chunks.last()@
    }
}

proof fn lemma_concat_chunks_push(chunks: Seq<MmapBuf>, c: MmapBuf)
    ensures
        concat_chunks(chunks.push(c)) == concat_chunks(chunks) + c@,
{
    assert(chunks.push(c).drop_last() =~= chunks);
    assert(chunks.push(c).last() == c);
}

impl File {
    /// The content of the file.
    pub closed spec fn view(&self) -> Seq<u8> {
        match self {
            File::Small(v) => v@,
            File::Large(chunks) => concat_chunks(chunks@),
        }
    }

    /// A small file fits in a page; a large file's chunks are full except
    /// possibly the last.
    pub closed spec fn wf(&self) -> bool {
        match self {
            File::Small(v) => v@.len() <= PAGE_SIZE,
            File::Large(chunks) => {
                &&& chunks@.len() > 0
                &&& (forall|i: int|
                    0 <= i < chunks@.len() ==> (#[trigger] chunks@[i]).wf()
                        && chunks@[i].spec_capacity() == MAX_LARGE_CHUNK_SIZE)
                &&& (forall|i: int|
                    0 <= i < chunks@.len() - 1 ==> (#[trigger] chunks@[i])@.len()
                        == MAX_LARGE_CHUNK_SIZE)
            },
        }
    }

    /// A fresh, empty file.
    pub fn new_small() -> (r: File)
        ensures
            r.wf(),
            r@ == Seq::<u8>::empty(),
    {
        File::Small(Vec::new())
    }

    /// Appends bytes of `data` from `start` on, as many as fit in the
    /// current chunk; returns how many were written. Writes at least one
    /// byte when any remain, so callers can loop to completion.
    pub fn copy_from_buf(&mut self, data: &Vec<u8>, start: usize) -> (written: usize)
        requires
            old(self).wf(),
            start <= data@.len(),
        ensures
            final(self).wf(),
            start + written <= data@.len(),
            start < data@.len() ==> written >= 1,
            final(self)@ == old(self)@ + data@.subrange(start as int, (start + written) as int),
    {
        let remaining = data.len() - start;
        match self {
            File::Small(chunk) => {
                if remaining <= PAGE_SIZE - chunk.len() {
                    let n = data.len();
                    assert(old(self)@ == chunk@);
                    let mut i: usize = 0;
                    while i < remaining
                        invariant
                            start + remaining <= n == data@.len(),
                            i <= remaining,
                            old(self)@.len() + remaining <= PAGE_SIZE,
                            chunk@ == old(self)@ + data@.subrange(start as int, (start + i) as int),
                        decreases remaining - i,
                    {
                        chunk.push(data[start + i]);
                        i = i + 1;
                        assert(chunk@ =~= old(self)@ + data@.subrange(start as int, (start + i) as int));
                    }
                    remaining
                } else {
                    // the file outgrows a page: switch to mapped chunks
                    let small_len = chunk.len();
                    assert(old(self)@ == chunk@);
                    let mut c = MmapBuf::with_capacity(MAX_LARGE_CHUNK_SIZE);
                    c.push_bytes(chunk, 0, small_len);
                    assert(c@ =~= old(self)@);
                    let room = MAX_LARGE_CHUNK_SIZE - small_len;
                    let to_write = if remaining < room {
                        remaining
                    } else {
                        room
                    };
                    c.push_bytes(data, start, to_write);
                    assert(c@ =~= old(self)@ + data@.subrange(start as int, (start + to_write) as int));
                    let mut chunks: Vec<MmapBuf> = Vec::new();
                    let ghost c_view = c@;
                    chunks.push(c);
                    proof {
                        assert(chunks@.drop_last() =~= Seq::<MmapBuf>::empty());
                        assert(concat_chunks(Seq::<MmapBuf>::empty()) == Seq::<u8>::empty());
                        assert(chunks@.last()@ == c_view);
                        assert(concat_chunks(chunks@) =~= old(self)@ + data@.subrange(
                            start as int,
                            (start + to_write) as int,
                        ));
                    }
                    *self = File::Large(chunks);
                    to_write
                }
            },
            File::Large(chunks) => {
                let ghost s0 = chunks@;
                let mut last = match chunks.pop() {
                    Some(c) => c,
                    None => {
                        // unreachable: a large file always has a chunk
                        proof {
                            assert(false);
                        }
                        MmapBuf::with_capacity(0)
                    },
                };
                proof {
                    assert(s0 =~= s0.drop_last().push(s0.last()));
                    lemma_concat_chunks_push(s0.drop_last(), s0.last());
                }
                if last.len() == MAX_LARGE_CHUNK_SIZE {
                    chunks.push(last);
                    proof {
                        lemma_concat_chunks_push(s0.drop_last(), s0.last());
                    }
                    last = MmapBuf::with_capacity(MAX_LARGE_CHUNK_SIZE);
                }
                let ghost mid = chunks@;
                let room = MAX_LARGE_CHUNK_SIZE - last.len();
                let to_write = if remaining < room {
                    remaining
                } else {
                    room
                };
                let ghost last_before = last@;
                last.push_bytes(data, start, to_write);
                chunks.push(last);
                proof {
                    lemma_concat_chunks_push(mid, last);
                    assert(concat_chunks(mid) + last_before =~= old(self)@);
                    assert(concat_chunks(chunks@) =~= old(self)@ + data@.subrange(
                        start as int,
                        (start + to_write) as int,
                    ));
                }
                to_write
            },
        }
    }

    /// Appends all of `data`.
    pub fn write_all_bytes(&mut self, data: &Vec<u8>)
        requires
            old(self).wf(),
        ensures
            final(self).wf(),
            final(self)@ == old(self)@ + data@,
    {
        let mut start: usize = 0;
        while start < data.len()
            invariant
                self.wf(),
                start <= data@.len(),
                self@ == old(self)@ + data@.subrange(0, start as int),
            decreases data@.len() - start,
        {
            let written = self.copy_from_buf(data, start);
            proof {
                assert(old(self)@ + data@.subrange(0, start as int) + data@.subrange(
                    start as int,
                    (start + written) as int,
                ) =~= old(self)@ + data@.subrange(0, (start + written) as int));
            }
            start = start + written;
        }
        assert(data@.subrange(0, data@.len() as int) =~= data@);
    }

    /// Hands the content out chunk by chunk, consuming the file. A drain
    /// to a pipe gifts each chunk in turn.
    pub fn into_chunks(self) -> (r: Vec<Vec<u8>>)
        ensures
            concat_byte_chunks(r@) == self@,
    {
        match self {
            File::Small(v) => {
                let mut r: Vec<Vec<u8>> = Vec::new();
                let ghost ghost_v = v@;
                r.push(v);
                proof {
                    assert(r@.drop_last() =~= Seq::<Vec<u8>>::empty());
                    assert(concat_byte_chunks(Seq::<Vec<u8>>::empty()) == Seq::<u8>::empty());
                    assert(r@.last()@ == ghost_v);
                    assert(concat_byte_chunks(r@) =~= ghost_v);
                }
                r
            },
            File::Large(chunks) => {
                let ghost s = chunks@;
                let n = chunks.len();
                let mut chunks = chunks;
                let mut r: Vec<Vec<u8>> = Vec::new();
                let mut i: usize = 0;
                // walk the chunks front to back
                while i < n
                    invariant
                        n == s.len(),
                        i <= n,
                        chunks@ =~= s.skip(i as int),
                        concat_byte_chunks(r@) =~= concat_chunks(s.take(i as int)),
                    decreases n - i,
                {
                    let ghost r0 = r@;
                    let c = chunks.remove(0);
                    r.push(c.into_vec());
                    i = i + 1;
                    proof {
                        assert(chunks@ =~= s.skip(i as int));
                        assert(s.take(i as int) =~= s.take(i - 1).push(s[i - 1]));
                        lemma_concat_chunks_push(s.take(i - 1), s[i - 1]);
                        lemma_concat_byte_chunks_push(r0, s[i - 1]@);
                        assert(concat_byte_chunks(r@) =~= concat_chunks(s.take(i as int)));
                    }
                }
                proof {
                    assert(s.take(n as int) =~= s);
                }
                r
            },
        }
    }
}

/// A reading cursor over a file's content.
pub struct FileReader {
    data: Vec<u8>,
    pos: usize,
}

impl FileReader {
    /// The bytes not yet read.
    pub closed spec fn remaining(&self) -> Seq<u8> {
        self.data@.skip(self.pos as int)
    }

    pub closed spec fn wf(&self) -> bool {
        self.pos <= self.data@.len()
    }

    /// Reads up to `count` bytes, advancing the cursor; short only at the
    /// end of the content.
    pub fn read(&mut self, count: usize) -> (r: Vec<u8>)
        requires
            old(self).wf(),
        ensures
            final(self).wf(),
            r@.len() == if count <= old(self).remaining().len() {
                count as int
            } else {
                old(self).remaining().len() as int
            },
            r@ == old(self).remaining().take(r@.len() as int),
            final(self).remaining() == old(self).remaining().skip(r@.len() as int),
    {
        let n = self.data.len() - self.pos;
        let take = if count < n {
            count
        } else {
            n
        };
        let r = copy_range(&self.data, self.pos, take);
        self.pos = self.pos + take;
        proof {
            assert(r@ =~= old(self).remaining().take(take as int));
            assert(self.remaining() =~= old(self).remaining().skip(take as int));
        }
        r
    }
}

impl File {
    /// A reading cursor over a copy of the content; the file stays
    /// intact.
    pub fn reader(&self) -> (r: FileReader)
        requires
            self.wf(),
        ensures
            r.wf(),
            r.remaining() == self@,
    {
        let data: Vec<u8> = match self {
            File::Small(v) => copy_range(v, 0, v.len()),
            File::Large(chunks) => {
                let n = chunks.len();
                let mut data: Vec<u8> = Vec::new();
                let mut i: usize = 0;
                while i < n
                    invariant
                        n == chunks@.len(),
                        i <= n,
                        data@ == concat_chunks(chunks@.take(i as int)),
                    decreases n - i,
                {
                    let ghost before = data@;
                    let chunk = &chunks[i];
                    let m = chunk.len();
                    let mut j: usize = 0;
                    while j < m
                        invariant
                            i < n == chunks@.len(),
                            m == chunks@[i as int]@.len(),
                            chunk == chunks@[i as int],
                            j <= m,
                            data@ == before + chunks@[i as int]@.take(j as int),
                        decreases m - j,
                    {
                        data.push(chunk.byte_at(j));
                        j = j + 1;
                        assert(data@ =~= before + chunks@[i as int]@.take(j as int));
                    }
                    i = i + 1;
                    proof {
                        assert(chunks@.take(i as int) =~= chunks@.take(i - 1).push(
                            chunks@[i - 1],
                        ));
                        lemma_concat_chunks_push(chunks@.take(i - 1), chunks@[i - 1]);
                        assert(chunks@[i - 1]@.take(m as int) =~= chunks@[i - 1]@);
                    }
                }
                proof {
                    assert(chunks@.take(n as int) =~= chunks@);
                }
                data
            },
        };
        proof {
            match self {
                File::Small(v) => {
                    assert(data@ =~= v@);
                },
                File::Large(_) => {},
            }
        }
        let r = FileReader { data, pos: 0 };
        proof {
            assert(r.remaining() =~= self@);
        }
        r
    }
}

// ---------------------------------------------------------------------------
// The store
// ---------------------------------------------------------------------------

/// Whether some entry of `s` is named `name`.
pub open spec fn has_name(s: Seq<(String, File)>, name: Seq<char>) -> bool {
    exists|i: int| 0 <= i < s.len() && (#[trigger] s[i]).0@ == name
}

/// Whether the entries of `s` carry pairwise distinct names.
pub open spec fn distinct_names(s: Seq<(String, File)>) -> bool {
    forall|i: int, j: int| 0 <= i < j < s.len() ==> (#[trigger] s[i]).0@ != (#[trigger] s[j]).0@
}

/// The mapping that an entry sequence denotes.
pub open spec fn kv_map(s: Seq<(String, File)>) -> Map<Seq<char>, Seq<u8>>
    decreases s.len(),
{
    if s.len() == 0 {
        Map::<Seq<char>, Seq<u8>>::empty()
    } else {
        kv_map(s.drop_last()).insert(s.last().0@, s.last().1@)
    }
}

proof fn lemma_kv_map_domain(s: Seq<(String, File)>, name: Seq<char>)
    ensures
        kv_map(s).contains_key(name) <==> has_name(s, name),
    decreases s.len(),
{
    if s.len() == 0 {
    } else {
        lemma_kv_map_domain(s.drop_last(), name);
        if has_name(s, name) {
            let i = choose|i: int| 0 <= i < s.len() && (#[trigger] s[i]).0@ == name;
            if i < s.len() - 1 {
                assert(s.drop_last()[i].0@ == name);
                assert(has_name(s.drop_last(), name));
            }
        }
        if has_name(s.drop_last(), name) {
            let i = choose|i: int| 0 <= i < s.drop_last().len() && (#[trigger] s.drop_last()[i]).0@
                == name;
            assert(s[i].0@ == name);
        }
    }
}

proof fn lemma_kv_map_index(s: Seq<(String, File)>, i: int)
    requires
        distinct_names(s),
        0 <= i < s.len(),
    ensures
        kv_map(s).contains_key(s[i].0@),
        kv_map(s)[s[i].0@] == s[i].1@,
    decreases s.len(),
{
    if i == s.len() - 1 {
    } else {
        assert(forall|a: int, b: int|
            0 <= a < b < s.drop_last().len() ==> (#[trigger] s.drop_last()[a]).0@ != (
            #[trigger] s.drop_last()[b]).0@);
        lemma_kv_map_index(s.drop_last(), i);
        assert(s.drop_last()[i] == s[i]);
        assert(s[i].0@ != s.last().0@);
    }
}

proof fn lemma_kv_map_remove(s: Seq<(String, File)>, i: int)
    requires
        distinct_names(s),
        0 <= i < s.len(),
    ensures
        kv_map(s.remove(i)) == kv_map(s).remove(s[i].0@),
    decreases s.len(),
{
    let k = s[i].0@;
    if i == s.len() - 1 {
        assert(s.remove(i) =~= s.drop_last());
        lemma_kv_map_domain(s.drop_last(), k);
        assert(!has_name(s.drop_last(), k)) by {
            if has_name(s.drop_last(), k) {
                let j = choose|j: int|
                    0 <= j < s.drop_last().len() && (#[trigger] s.drop_last()[j]).0@ == k;
                assert(s[j].0@ == k);
            }
        };
        assert(kv_map(s.remove(i)) =~= kv_map(s).remove(k));
    } else {
        let t = s.remove(i);
        assert(t.len() == s.len() - 1);
        assert(t.last() == s.last());
        assert(t.drop_last() =~= s.drop_last().remove(i));
        assert(forall|a: int, b: int|
            0 <= a < b < s.drop_last().len() ==> (#[trigger] s.drop_last()[a]).0@ != (
            #[trigger] s.drop_last()[b]).0@);
        lemma_kv_map_remove(s.drop_last(), i);
        assert(s.drop_last()[i] == s[i]);
        assert(k != s.last().0@);
        assert(kv_map(t) == kv_map(t.drop_last()).insert(t.last().0@, t.last().1@));
        assert(kv_map(s.drop_last()).remove(k).insert(s.last().0@, s.last().1@) =~= kv_map(
            s.drop_last(),
        ).insert(s.last().0@, s.last().1@).remove(k));
        assert(kv_map(s.remove(i)) =~= kv_map(s).remove(k));
    }
}

/// The in-memory store: a mapping from file names to files.
pub struct Store {
    files: Vec<(String, File)>,
}

impl Store {
    /// The mapping from file names to file contents.
    pub closed spec fn view(&self) -> Map<Seq<char>, Seq<u8>> {
        kv_map(self.files@)
    }

    /// Names are unique and every file is well formed.
    pub closed spec fn wf(&self) -> bool {
        &&& distinct_names(self.files@)
        &&& (forall|i: int|
            0 <= i < self.files@.len() ==> (#[trigger] self.files@[i]).1.wf())
    }

    pub fn new() -> (r: Store)
        ensures
            r.wf(),
            r@ == Map::<Seq<char>, Seq<u8>>::empty(),
    {
        Store { files: Vec::new() }
    }

    /// The index of the entry named `filename`, if any.
    fn position_of(&self, filename: &str) -> (r: Option<usize>)
        ensures
            match r {
                Some(i) => i < self.files@.len() && self.files@[i as int].0@ == filename@,
                None => !has_name(self.files@, filename@),
            },
    {
        let n = self.files.len();
        let mut i: usize = 0;
        while i < n
            invariant
                n == self.files@.len(),
                i <= n,
                forall|j: int| 0 <= j < i ==> (#[trigger] self.files@[j]).0@ != filename@,
            decreases n - i,
        {
            if str_eq(self.files[i].0.as_str(), filename) {
                return Some(i);
            }
            i = i + 1;
        }
        None
    }

    /// Whether a file of this name is held.
    pub fn contains(&self, filename: &str) -> (r: bool)
        requires
            self.wf(),
        ensures
            r == self@.contains_key(filename@),
    {
        proof {
            lemma_kv_map_domain(self.files@, filename@);
        }
        self.position_of(filename).is_some()
    }

    /// Whether the store holds no file at all.
    pub fn is_empty(&self) -> (r: bool)
        requires
            self.wf(),
        ensures
            r == (self@ == Map::<Seq<char>, Seq<u8>>::empty()),
    {
        proof {
            if self.files@.len() > 0 {
                lemma_kv_map_index(self.files@, 0);
                assert(!Map::<Seq<char>, Seq<u8>>::empty().contains_key(self.files@[0].0@));
            } else {
                assert(self.files@ =~= Seq::<(String, File)>::empty());
                assert(self@ =~= Map::<Seq<char>, Seq<u8>>::empty());
            }
        }
        self.files.len() == 0
    }

    /// A fresh file for the deserializer to fill; the store itself is
    /// untouched until the file is inserted.
    pub fn create(&mut self, _filename: &str) -> (r: File)
        ensures
            *final(self) == *old(self),
            r.wf(),
            r@ == Seq::<u8>::empty(),
    {
        File::new_small()
    }

    /// Adds a file under a name not yet present; a duplicate name is
    /// rejected and leaves the store unchanged.
    pub fn insert(&mut self, filename: String, file: File) -> (r: Result<(), Error>)
        requires
            old(self).wf(),
            file.wf(),
        ensures
            final(self).wf(),
            match r {
                Ok(()) => !old(self)@.contains_key(filename@) && final(self)@ == old(self)@.insert(
                    filename@,
                    file@,
                ),
                Err(e) => e == Error::ProtocolViolation && old(self)@.contains_key(filename@)
                    && *final(self) == *old(self),
            },
    {
        proof {
            lemma_kv_map_domain(self.files@, filename@);
        }
        if self.position_of(filename.as_str()).is_some() {
            return Err(Error::ProtocolViolation);
        }
        let ghost s0 = self.files@;
        let ghost name_view = filename@;
        let ghost file_view = file@;
        self.files.push((filename, file));
        proof {
            assert(self.files@.drop_last() =~= s0);
            assert(self.files@.last().0@ == name_view && self.files@.last().1@ == file_view);
            assert(kv_map(self.files@) =~= kv_map(s0).insert(name_view, file_view));
            assert forall|a: int, b: int| 0 <= a < b < self.files@.len() implies (
            #[trigger] self.files@[a]).0@ != (#[trigger] self.files@[b]).0@ by {
                if b == self.files@.len() - 1 {
                    assert(s0[a] == self.files@[a]);
                }
            }
        }
        Ok(())
    }

    /// Takes the file of this name out of the store, if present.
    pub fn remove(&mut self, filename: &str) -> (r: Option<File>)
        requires
            old(self).wf(),
        ensures
            final(self).wf(),
            match r {
                Some(f) => {
                    &&& old(self)@.contains_key(filename@)
                    &&& f.wf()
                    &&& f@ == old(self)@[filename@]
                    &&& final(self)@ == old(self)@.remove(filename@)
                },
                None => !old(self)@.contains_key(filename@) && *final(self) == *old(self),
            },
    {
        proof {
            lemma_kv_map_domain(self.files@, filename@);
        }
        match self.position_of(filename) {
            None => None,
            Some(i) => {
                proof {
                    lemma_kv_map_index(self.files@, i as int);
                    lemma_kv_map_remove(self.files@, i as int);
                }
                let ghost s0 = self.files@;
                let (_name, file) = self.files.remove(i);
                proof {
                    assert forall|a: int, b: int| 0 <= a < b < self.files@.len() implies (
                    #[trigger] self.files@[a]).0@ != (#[trigger] self.files@[b]).0@ by {
                        assert(self.files@[a] == if a < i { s0[a] } else { s0[a + 1] });
                        assert(self.files@[b] == if b < i { s0[b] } else { s0[b + 1] });
                    }
                    assert forall|a: int| 0 <= a < self.files@.len() implies (
                    #[trigger] self.files@[a]).1.wf() by {
                        assert(self.files@[a] == if a < i { s0[a] } else { s0[a + 1] });
                    }
                }
                Some(file)
            },
        }
    }

    /// Takes out the first held file whose name begins with
    /// `filename_prefix`, returning its full name with it. Yields nothing
    /// exactly when no held name matches.
    pub fn remove_by_prefix(&mut self, filename_prefix: &str) -> (r: Option<(String, File)>)
        requires
            old(self).wf(),
        ensures
            final(self).wf(),
            match r {
                Some((n, f)) => {
                    &&& filename_prefix@.is_prefix_of(n@)
                    &&& old(self)@.contains_key(n@)
                    &&& f.wf()
                    &&& f@ == old(self)@[n@]
                    &&& final(self)@ == old(self)@.remove(n@)
                },
                None => {
                    &&& *final(self) == *old(self)
                    &&& forall|name: Seq<char>|
                        old(self)@.contains_key(name) ==> !(
                        #[trigger] filename_prefix@.is_prefix_of(name))
                },
            },
    {
        let n = self.files.len();
        let mut i: usize = 0;
        while i < n
            invariant
                self == old(self),
                self.wf(),
                n == self.files@.len(),
                i <= n,
                forall|j: int|
                    0 <= j < i ==> !filename_prefix@.is_prefix_of(
                        (#[trigger] self.files@[j]).0@,
                    ),
            decreases n - i,
        {
            if str_starts_with(self.files[i].0.as_str(), filename_prefix) {
                proof {
                    lemma_kv_map_index(self.files@, i as int);
                    lemma_kv_map_remove(self.files@, i as int);
                }
                let ghost s0 = self.files@;
                let (name, file) = self.files.remove(i);
                proof {
                    assert forall|a: int, b: int| 0 <= a < b < self.files@.len() implies (
                    #[trigger] self.files@[a]).0@ != (#[trigger] self.files@[b]).0@ by {
                        assert(self.files@[a] == if a < i { s0[a] } else { s0[a + 1] });
                        assert(self.files@[b] == if b < i { s0[b] } else { s0[b + 1] });
                    }
                    assert forall|a: int| 0 <= a < self.files@.len() implies (
                    #[trigger] self.files@[a]).1.wf() by {
                        assert(self.files@[a] == if a < i { s0[a] } else { s0[a + 1] });
                    }
                }
                return Some((name, file));
            }
            i = i + 1;
        }
        proof {
            assert forall|name: Seq<char>| self@.contains_key(name) implies !(
            #[trigger] filename_prefix@.is_prefix_of(name)) by {
                lemma_kv_map_domain(self.files@, name);
                let j = choose|j: int|
                    0 <= j < self.files@.len() && (#[trigger] self.files@[j]).0@ == name;
            }
        }
        None
    }
}

impl Default for Store {
    /// An empty store.
    fn default() -> (r: Store)
        ensures
            r.wf(),
            r@ == Map::<Seq<char>, Seq<u8>>::empty(),
    {
        Store::new()
    }
}

/// One name never comes back twice from `remove_by_prefix`: a successful
/// removal takes its name out of the mapping, so a later removal from the
/// resulting mapping yields a different name.
pub proof fn lemma_remove_by_prefix_distinct(
    before: Map<Seq<char>, Seq<u8>>,
    after: Map<Seq<char>, Seq<u8>>,
    first: Seq<char>,
    second: Seq<char>,
)
    requires
        after == before.remove(first),
        after.contains_key(second),
    ensures
        first != second,
{
}

/// The bytes of a sequence of byte vectors, in order.
pub open spec fn concat_byte_chunks(chunks: Seq<Vec<u8>>) -> Seq<u8>
    decreases chunks.len(),
{
    if chunks.len() == 0 {
        Seq::<u8>::empty()
    } else {
        concat_byte_chunks(chunks.drop_last()) + chunks.last()@
    }
}

proof fn lemma_concat_byte_chunks_push(chunks: Seq<Vec<u8>>, c: Seq<u8>)
    ensures
        forall|v: Vec<u8>| v@ == c ==> concat_byte_chunks(chunks.push(v)) == concat_byte_chunks(
            chunks,
        ) + c,
{
    assert forall|v: Vec<u8>| v@ == c implies concat_byte_chunks(chunks.push(v))
        == concat_byte_chunks(chunks) + c by {
        assert(chunks.push(v).drop_last() =~= chunks);
        assert(chunks.push(v).last() == v);
    }
}

} // verus!
