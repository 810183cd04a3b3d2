//! Small shared constants, types, and string helpers.

use vstd::prelude::*;
use vstd::string::StrSliceExecFns;
use vstd::utf8::{decode_utf8, valid_utf8, encode_utf8_decode_utf8};

verus! {

pub const MB: usize = 1024 * 1024;

/// The kernel page size the engine budgets with. The engine reserves one
/// page-equivalent of pipe space per chunk marker; components that need the
/// real value at run time take it as a parameter.
pub const PAGE_SIZE: usize = 4096;

/// Per-shard transfer statistics reported when a shard reaches end of
/// stream.
#[derive(Clone, Copy, Debug, PartialEq, Eq, Structural)]
pub struct ShardStat {
    pub size: u64,
    pub transfer_duration_millis: u64,
}

/// Copies `count` bytes starting at `start` out of `buf`.
pub fn copy_range(buf: &Vec<u8>, start: usize, count: usize) -> (r: Vec<u8>)
    requires
        start + count <= buf@.len(),
    ensures
        r@ == buf@.subrange(start as int, (start + count) as int),
{
    let n = buf.len();
    let mut r: Vec<u8> = Vec::new();
    let mut i: usize = 0;
    while i < count
        invariant
            start + count <= n == buf@.len(),
            i <= count,
            r@ == buf@.subrange(start as int, (start + i) as int),
        decreases count - i,
    {
        r.push(buf[start + i]);
        i = i + 1;
        assert(r@ =~= buf@.subrange(start as int, (start + i) as int));
    }
    r
}

/// Relies on `String::from_utf8`: it returns the string holding exactly the
/// given bytes when they are valid UTF-8, and fails otherwise.
#[verifier::external_body]
pub(crate) fn string_from_utf8(v: Vec<u8>) -> (r: Option<String>)
    ensures
        match r {
            Some(s) => valid_utf8(v@) && s@ == decode_utf8(v@),
            None => !valid_utf8(v@),
        },
{
    String::from_utf8(v).ok()
}

/// Compares two string slices by value.
pub fn str_eq(a: &str, b: &str) -> (r: bool)
    ensures
        r == (a@ == b@),
{
    let va = a.as_bytes_vec();
    let vb = b.as_bytes_vec();
    let r = va == vb;
    proof {
        if va@ == vb@ {
            encode_utf8_decode_utf8(a@);
            encode_utf8_decode_utf8(b@);
        }
        if va@ =~= vb@ {
        }
        if r {
            assert(va@ =~= vb@);
        } else {
            assert(!(va@ =~= vb@));
        }
    }
    r
}

/// Whether `prefix` is a prefix of `s`, by characters.
pub fn str_starts_with(s: &str, prefix: &str) -> (r: bool)
    ensures
        r == prefix@.is_prefix_of(s@),
{
    let n = prefix.unicode_len();
    let m = s.unicode_len();
    if n > m {
        return false;
    }
    let mut i: usize = 0;
    while i < n
        invariant
            i <= n == prefix@.len(),
            n <= m == s@.len(),
            prefix@.subrange(0, i as int) == s@.subrange(0, i as int),
        decreases n - i,
    {
        if prefix.get_char(i) != s.get_char(i) {
            proof {
                assert(!prefix@.is_prefix_of(s@)) by {
                    if prefix@.is_prefix_of(s@) {
                        assert(prefix@[i as int] == s@.subrange(0, n as int)[i as int]);
                    }
                };
            }
            return false;
        }
        i = i + 1;
        assert(prefix@.subrange(0, i as int) =~= s@.subrange(0, i as int));
    }
    proof {
        assert(prefix@ =~= s@.subrange(0, n as int));
    }
    true
}

} // verus!
