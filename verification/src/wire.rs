//! Length-prefixed byte framing.
//!
//! Every value this crate persists is framed as an 8-byte little-endian
//! length followed by that many raw bytes.  The functions here are proved
//! to write exactly the canonical encoding and to read it back exactly.

use vstd::prelude::*;
use vstd::slice::{slice_subrange, slice_to_vec};

verus! {

/// The 8-byte little-endian encoding of a length.
pub open spec fn le64(n: u64) -> Seq<u8> {
    seq![
        (n & 0xff) as u8,
        ((n >> 8) & 0xff) as u8,
        ((n >> 16) & 0xff) as u8,
        ((n >> 24) & 0xff) as u8,
        ((n >> 32) & 0xff) as u8,
        ((n >> 40) & 0xff) as u8,
        ((n >> 48) & 0xff) as u8,
        ((n >> 56) & 0xff) as u8,
    ]
}

/// A frame: the length of the body, then the body itself.
pub open spec fn framed(b: Seq<u8>) -> Seq<u8>
    recommends
        b.len() <= u64::MAX,
{
    le64(b.len() as u64) + b
}

/// `p` occurs in `s` starting at index `i`.
pub open spec fn prefix_at(s: Seq<u8>, i: int, p: Seq<u8>) -> bool {
    &&& 0 <= i
    &&& i + p.len() <= s.len()
    &&& s.subrange(i, i + p.len()) == p
}

/// Two equal little-endian encodings come from equal lengths.
pub proof fn lemma_le64_injective(a: u64, b: u64)
    requires
        le64(a) == le64(b),
    ensures
        a == b,
{
    assert((a & 0xff) as u8 == (b & 0xff) as u8) by {
        assert(le64(a)[0] == le64(b)[0]);
    }
    assert(((a >> 8) & 0xff) as u8 == ((b >> 8) & 0xff) as u8) by {
        assert(le64(a)[1] == le64(b)[1]);
    }
    assert(((a >> 16) & 0xff) as u8 == ((b >> 16) & 0xff) as u8) by {
        assert(le64(a)[2] == le64(b)[2]);
    }
    assert(((a >> 24) & 0xff) as u8 == ((b >> 24) & 0xff) as u8) by {
        assert(le64(a)[3] == le64(b)[3]);
    }
    assert(((a >> 32) & 0xff) as u8 == ((b >> 32) & 0xff) as u8) by {
        assert(le64(a)[4] == le64(b)[4]);
    }
    assert(((a >> 40) & 0xff) as u8 == ((b >> 40) & 0xff) as u8) by {
        assert(le64(a)[5] == le64(b)[5]);
    }
    assert(((a >> 48) & 0xff) as u8 == ((b >> 48) & 0xff) as u8) by {
        assert(le64(a)[6] == le64(b)[6]);
    }
    assert(((a >> 56) & 0xff) as u8 == ((b >> 56) & 0xff) as u8) by {
        assert(le64(a)[7] == le64(b)[7]);
    }
    assert(a == b) by (bit_vector)
        requires
            (a & 0xff) as u8 == (b & 0xff) as u8,
            ((a >> 8) & 0xff) as u8 == ((b >> 8) & 0xff) as u8,
            ((a >> 16) & 0xff) as u8 == ((b >> 16) & 0xff) as u8,
            ((a >> 24) & 0xff) as u8 == ((b >> 24) & 0xff) as u8,
            ((a >> 32) & 0xff) as u8 == ((b >> 32) & 0xff) as u8,
            ((a >> 40) & 0xff) as u8 == ((b >> 40) & 0xff) as u8,
            ((a >> 48) & 0xff) as u8 == ((b >> 48) & 0xff) as u8,
            ((a >> 56) & 0xff) as u8 == ((b >> 56) & 0xff) as u8,
    ;
}

/// Append the 8-byte little-endian encoding of `n`.
pub fn append_u64(out: &mut Vec<u8>, n: u64)
    ensures
        final(out)@ == old(out)@ + le64(n),
{
    proof {
        assert(n & 0xff < 256 && (n >> 8) & 0xff < 256 && (n >> 16) & 0xff < 256 && (n >> 24)
            & 0xff < 256 && (n >> 32) & 0xff < 256 && (n >> 40) & 0xff < 256 && (n >> 48) & 0xff
            < 256 && (n >> 56) & 0xff < 256) by (bit_vector);
    }
    out.push((n & 0xff) as u8);
    out.push(((n >> 8) & 0xff) as u8);
    out.push(((n >> 16) & 0xff) as u8);
    out.push(((n >> 24) & 0xff) as u8);
    out.push(((n >> 32) & 0xff) as u8);
    out.push(((n >> 40) & 0xff) as u8);
    out.push(((n >> 48) & 0xff) as u8);
    out.push(((n >> 56) & 0xff) as u8);
    proof {
        assert(out@ =~= old(out)@ + le64(n));
    }
}

/// Append a whole frame: the length of `b`, then `b`.
pub fn append_frame(out: &mut Vec<u8>, b: &[u8])
    ensures
        final(out)@ == old(out)@ + framed(b@),
{
    append_u64(out, b.len() as u64);
    out.extend_from_slice(b);
    proof {
        assert(out@ =~= old(out)@ + framed(b@));
    }
}

/// Read the 8-byte little-endian length stored at `i`.
///
/// Returns the length and the position just past it.  It succeeds exactly
/// when 8 bytes are available, and reads back exactly what `append_u64`
/// wrote.
pub fn read_u64(s: &[u8], i: usize) -> (r: Option<(u64, usize)>)
    ensures
        r is Some <==> i + 8 <= s@.len(),
        r matches Some(p) ==> ({
            &&& p.1 == i + 8
            &&& le64(p.0) == s@.subrange(i as int, i + 8)
        }),
{
    if s.len() < 8 || i > s.len() - 8 {
        return None;
    }
    let b0 = s[i] as u64;
    let b1 = s[i + 1] as u64;
    let b2 = s[i + 2] as u64;
    let b3 = s[i + 3] as u64;
    let b4 = s[i + 4] as u64;
    let b5 = s[i + 5] as u64;
    let b6 = s[i + 6] as u64;
    let b7 = s[i + 7] as u64;
    let n: u64 = b0 | (b1 << 8) | (b2 << 16) | (b3 << 24) | (b4 << 32) | (b5 << 40) | (b6 << 48)
        | (b7 << 56);
    proof {
        let m = n;
        assert(m & 0xff == b0 && (m >> 8) & 0xff == b1 && (m >> 16) & 0xff == b2 && (m >> 24)
            & 0xff == b3 && (m >> 32) & 0xff == b4 && (m >> 40) & 0xff == b5 && (m >> 48) & 0xff
            == b6 && (m >> 56) & 0xff == b7) by (bit_vector)
            requires
                m == b0 | (b1 << 8) | (b2 << 16) | (b3 << 24) | (b4 << 32) | (b5 << 40) | (b6
                    << 48) | (b7 << 56),
                b0 < 256 && b1 < 256 && b2 < 256 && b3 < 256,
                b4 < 256 && b5 < 256 && b6 < 256 && b7 < 256,
        ;
        assert(le64(n) =~= s@.subrange(i as int, i + 8));
    }
    Some((n, i + 8))
}

/// Read one frame stored at `i`: its length, then that many bytes.
///
/// It reads back exactly what `append_frame` wrote, and fails exactly when
/// no well-formed frame starts at `i`.
pub fn read_frame(s: &[u8], i: usize) -> (r: Option<(Vec<u8>, usize)>)
    ensures
        r matches Some(p) ==> ({
            &&& prefix_at(s@, i as int, framed(p.0@))
            &&& p.1 == i + 8 + p.0@.len()
            &&& p.1 <= s@.len()
        }),
        forall|b: Seq<u8>|
            prefix_at(s@, i as int, framed(b)) ==> (r matches Some(p) && p.0@ == b && p.1 == i + 8
                + b.len()),
{
    let n = match read_u64(s, i) {
        Some((n, _)) => n,
        None => {
            return None;
        },
    };
    let body_start = i + 8;
    let avail = s.len() - body_start;
    if n > avail as u64 {
        proof {
            // a frame at i would carry the same length bytes, so its body
            // would not fit either
            assert forall|b: Seq<u8>| prefix_at(s@, i as int, framed(b)) implies false by {
                assert(s@.subrange(i as int, i + 8) =~= le64(b.len() as u64));
                lemma_le64_injective(n, b.len() as u64);
            }
        }
        return None;
    }
    let n_usize = n as usize;
    let body = slice_to_vec(slice_subrange(s, body_start, body_start + n_usize));
    proof {
        assert(prefix_at(s@, i as int, framed(body@))) by {
            assert(framed(body@) =~= s@.subrange(i as int, i + 8 + n_usize));
        }
        assert forall|b: Seq<u8>| prefix_at(s@, i as int, framed(b)) implies body@ == b by {
            assert(s@.subrange(i as int, i + 8) =~= le64(b.len() as u64));
            lemma_le64_injective(n, b.len() as u64);
            assert(b.len() == n_usize);
            assert forall|k: int| 0 <= k < b.len() implies b[k] == s@[i + 8 + k] by {
                assert(framed(b)[8 + k] == b[k]);
                assert(s@.subrange(i as int, i + 8 + b.len() as int)[8 + k] == s@[i + 8 + k]);
            }
            assert(b =~= s@.subrange(i + 8, i + 8 + n_usize));
        }
    }
    Some((body, i + 8 + n_usize))
}

} // verus!
