//! Content fingerprint for thinking blocks.
//!
//! A block is identified only by a stable 64-bit fingerprint of its visible
//! text: the UTF-8-safe prefix of up to 256 bytes, the UTF-8-safe suffix of
//! up to 256 bytes, and the total byte length, hashed together. Two texts
//! that share prefix, suffix and length collide by design — acceptable for
//! a cache key, where a collision causes a false-positive hit and nothing
//! else.

use vstd::prelude::*;

verus! {

use vstd::string::StringSliceAdditionalSpecFns;
use vstd::utf8::is_char_boundary;

/// How many bytes of the front and back of a text enter the fingerprint.
pub const FINGERPRINT_SPAN: usize = 256;

/// The largest end position at or below `end` that is a character boundary.
pub open spec fn boundary_down(bytes: Seq<u8>, end: int) -> int
    decreases end,
{
    if end <= 0 {
        0
    } else if is_char_boundary(bytes, end) {
        end
    } else {
        boundary_down(bytes, end - 1)
    }
}

/// The smallest start position at or above `start` that is a character
/// boundary, capped at the length.
pub open spec fn boundary_up(bytes: Seq<u8>, start: int) -> int
    decreases bytes.len() - start,
{
    if start >= bytes.len() {
        bytes.len() as int
    } else if is_char_boundary(bytes, start) {
        start
    } else {
        boundary_up(bytes, start + 1)
    }
}

/// The fingerprinted prefix: the whole text when it is short, else the
/// longest prefix of at most `FINGERPRINT_SPAN` bytes that ends on a
/// character boundary.
pub open spec fn prefix_part(bytes: Seq<u8>) -> Seq<u8> {
    if bytes.len() <= FINGERPRINT_SPAN {
        bytes
    } else {
        bytes.take(boundary_down(bytes, FINGERPRINT_SPAN as int))
    }
}

/// The fingerprinted suffix: the whole text when it is short, else the
/// longest suffix of at most `FINGERPRINT_SPAN` bytes that starts on a
/// character boundary.
pub open spec fn suffix_part(bytes: Seq<u8>) -> Seq<u8> {
    if bytes.len() <= FINGERPRINT_SPAN {
        bytes
    } else {
        bytes.skip(boundary_up(bytes, bytes.len() - FINGERPRINT_SPAN))
    }
}

/// One step of the 64-bit FNV-1a hash.
pub open spec fn fnv_step(h: u64, b: u8) -> u64 {
    vstd::wrapping::u64_specs::wrapping_mul(h ^ (b as u64), 0x100000001b3)
}

/// The FNV-1a hash of a byte sequence, folded left from seed `h`.
pub open spec fn fnv64(h: u64, s: Seq<u8>) -> u64
    decreases s.len(),
{
    if s.len() == 0 {
        h
    } else {
        fnv_step(fnv64(h, s.drop_last()), s.last())
    }
}

/// The FNV-1a offset basis.
pub open spec fn fnv_offset() -> u64 {
    0xcbf29ce484222325
}

/// The eight little-endian bytes of a `u64`.
pub open spec fn u64_le_bytes(n: u64) -> Seq<u8> {
    Seq::new(8, |i: int| ((n >> ((8 * i) as u64)) & 0xff) as u8)
}

/// The full fingerprint input: prefix, suffix and length, separated.
pub open spec fn fingerprint_input(bytes: Seq<u8>) -> Seq<u8> {
    prefix_part(bytes) + seq![255u8] + suffix_part(bytes) + seq![255u8] + u64_le_bytes(
        bytes.len() as u64,
    )
}

/// The fingerprint of a text, as a function of its bytes.
pub open spec fn fingerprint_spec(bytes: Seq<u8>) -> u64 {
    fnv64(fnv_offset(), fingerprint_input(bytes))
}

/// Folding over a concatenation folds over the parts in order.
proof fn lemma_fnv_append(h: u64, a: Seq<u8>, b: Seq<u8>)
    ensures
        fnv64(h, a + b) == fnv64(fnv64(h, a), b),
    decreases b.len(),
{
    if b.len() == 0 {
        assert(a + b =~= a);
    } else {
        lemma_fnv_append(h, a, b.drop_last());
        assert((a + b).drop_last() =~= a + b.drop_last());
        assert((a + b).last() == b.last());
    }
}

/// Two texts with the same prefix, suffix and byte length have the same
/// fingerprint: the documented collision mode of the cache key.
pub proof fn lemma_fingerprint_depends_on_parts(x: Seq<u8>, y: Seq<u8>)
    requires
        prefix_part(x) == prefix_part(y),
        suffix_part(x) == suffix_part(y),
        x.len() == y.len(),
    ensures
        fingerprint_spec(x) == fingerprint_spec(y),
{
}

/// Advance the FNV-1a state over every byte of a slice.
fn fnv_feed(h: u64, s: &[u8]) -> (r: u64)
    ensures
        r == fnv64(h, s@),
{
    let mut acc = h;
    let mut i: usize = 0;
    while i < s.len()
        invariant
            i <= s@.len(),
            acc == fnv64(h, s@.take(i as int)),
        decreases s@.len() - i,
    {
        proof {
            assert(s@.take(i + 1).drop_last() =~= s@.take(i as int));
            assert(s@.take(i + 1).last() == s@[i as int]);
        }
        acc = (acc ^ (s[i] as u64)).wrapping_mul(0x100000001b3);
        proof {
            assert(acc == fnv_step(fnv64(h, s@.take(i as int)), s@[i as int]));
        }
        i = i + 1;
    }
    proof {
        assert(s@.take(s@.len() as int) =~= s@);
    }
    acc
}

/// Safely truncate a string from the start at a character boundary:
/// unchanged when it already fits in `max_bytes` bytes, else cut down to
/// the nearest boundary at or below `max_bytes`.
pub fn safe_truncate<'a>(s: &'a str, max_bytes: usize) -> (r: &'a str)
    ensures
        s.spec_bytes().len() <= max_bytes ==> r.spec_bytes() == s.spec_bytes(),
        s.spec_bytes().len() > max_bytes ==> r.spec_bytes() == s.spec_bytes().take(
            boundary_down(s.spec_bytes(), max_bytes as int),
        ),
{
    let sb = s.as_bytes();
    proof {
        vstd::utf8::encode_utf8_valid_utf8(s@);
        assert(vstd::slice::spec_slice_len(sb) == sb@.len());
    }
    if s.len() <= max_bytes {
        return s;
    }
    let mut end: usize = max_bytes;
    while end > 0 && !s.is_char_boundary(end)
        invariant
            end <= max_bytes,
            max_bytes < s.spec_bytes().len(),
            vstd::utf8::valid_utf8(s.spec_bytes()),
            boundary_down(s.spec_bytes(), max_bytes as int) == boundary_down(
                s.spec_bytes(),
                end as int,
            ),
        decreases end,
    {
        end = end - 1;
    }
    proof {
        if end > 0 {
            assert(is_char_boundary(s.spec_bytes(), end as int));
        }
        assert(boundary_down(s.spec_bytes(), end as int) == end);
    }
    let (front, _) = s.split_at(end);
    proof {
        assert(front.spec_bytes() == s.spec_bytes().take(end as int));
    }
    front
}

/// Safely take the ending of a string at a character boundary: unchanged
/// when it already fits in `max_bytes` bytes, else the suffix from the
/// first boundary at or after `len - max_bytes`.
pub fn safe_suffix<'a>(s: &'a str, max_bytes: usize) -> (r: &'a str)
    ensures
        s.spec_bytes().len() <= max_bytes ==> r.spec_bytes() == s.spec_bytes(),
        s.spec_bytes().len() > max_bytes ==> r.spec_bytes() == s.spec_bytes().skip(
            boundary_up(s.spec_bytes(), s.spec_bytes().len() - max_bytes),
        ),
{
    let sb = s.as_bytes();
    proof {
        vstd::utf8::encode_utf8_valid_utf8(s@);
        assert(vstd::slice::spec_slice_len(sb) == sb@.len());
    }
    if s.len() <= max_bytes {
        return s;
    }
    let start: usize = s.len() - max_bytes;
    let mut begin: usize = start;
    while begin < s.len() && !s.is_char_boundary(begin)
        invariant
            start <= begin <= s.spec_bytes().len(),
            max_bytes < s.spec_bytes().len(),
            vstd::utf8::valid_utf8(s.spec_bytes()),
            boundary_up(s.spec_bytes(), start as int) == boundary_up(
                s.spec_bytes(),
                begin as int,
            ),
        decreases s.spec_bytes().len() - begin,
    {
        begin = begin + 1;
    }
    if begin == s.len() {
        let empty: &str = "";
        proof {
            reveal_strlit("");
            assert(empty@.len() == 0);
            assert(empty.spec_bytes() =~= Seq::<u8>::empty());
            assert(boundary_up(s.spec_bytes(), begin as int) == begin);
            assert(s.spec_bytes().skip(begin as int) =~= Seq::<u8>::empty());
        }
        return empty;
    }
    proof {
        assert(is_char_boundary(s.spec_bytes(), begin as int));
        assert(boundary_up(s.spec_bytes(), begin as int) == begin);
    }
    let (_, back) = s.split_at(begin);
    proof {
        assert(back.spec_bytes() == s.spec_bytes().skip(begin as int));
    }
    back
}

/// The stable fingerprint of a text: FNV-1a over its safe prefix, its safe
/// suffix and its byte length. Equal texts always produce equal
/// fingerprints; texts sharing prefix, suffix and length collide by design.
pub fn fast_hash(content: &str) -> (r: u64)
    ensures
        r == fingerprint_spec(content.spec_bytes()),
{
    let prefix = safe_truncate(content, FINGERPRINT_SPAN);
    let suffix = safe_suffix(content, FINGERPRINT_SPAN);
    let h0 = fnv_feed(0xcbf29ce484222325, prefix.as_bytes());
    let h1 = (h0 ^ 255u64).wrapping_mul(0x100000001b3);
    let h2 = fnv_feed(h1, suffix.as_bytes());
    let h3 = (h2 ^ 255u64).wrapping_mul(0x100000001b3);
    let mut len_bytes: Vec<u8> = Vec::new();
    let content_bytes = content.as_bytes();
    proof {
        assert(vstd::slice::spec_slice_len(content_bytes) == content_bytes@.len());
    }
    let len64: u64 = content_bytes.len() as u64;
    let ghost total: u64 = (content.spec_bytes().len() as u64);
    let mut k: usize = 0;
    while k < 8
        invariant
            k <= 8,
            len64 == total,
            len_bytes@.len() == k,
            forall|i: int| 0 <= i < k ==> len_bytes@[i] == u64_le_bytes(total)[i],
        decreases 8 - k,
    {
        let sh: u64 = 8 * (k as u64);
        let shifted: u64 = len64 >> sh;
        let b = (shifted & 0xff) as u8;
        proof {
            assert(shifted & 0xff < 256) by (bit_vector);
            assert(u64_le_bytes(total)[k as int] == ((total >> ((8 * (k as int)) as u64)) & 0xff)
                as u8);
            assert((8 * (k as int)) as u64 == sh);
        }
        len_bytes.push(b);
        k = k + 1;
    }
    let h4 = fnv_feed(h3, len_bytes.as_slice());
    proof {
        let bytes = content.spec_bytes();
        assert(len_bytes@ =~= u64_le_bytes(total));
        let p = prefix_part(bytes);
        let q = suffix_part(bytes);
        assert(prefix.spec_bytes() == p);
        assert(suffix.spec_bytes() == q);
        lemma_fnv_append(fnv_offset(), p, seq![255u8]);
        assert((p + seq![255u8]).drop_last() =~= p);
        assert(fnv64(fnv_offset(), p + seq![255u8]) == fnv_step(fnv64(fnv_offset(), p), 255u8));
        assert(h1 == fnv64(fnv_offset(), p + seq![255u8]));
        lemma_fnv_append(fnv_offset(), p + seq![255u8], q);
        assert(h2 == fnv64(fnv_offset(), p + seq![255u8] + q));
        assert((p + seq![255u8] + q + seq![255u8]).drop_last() =~= p + seq![255u8] + q);
        assert(h3 == fnv64(fnv_offset(), p + seq![255u8] + q + seq![255u8]));
        lemma_fnv_append(fnv_offset(), p + seq![255u8] + q + seq![255u8], u64_le_bytes(total));
        assert(h4 == fnv64(fnv_offset(), p + seq![255u8] + q + seq![255u8] + u64_le_bytes(total)));
        assert(p + seq![255u8] + q + seq![255u8] + u64_le_bytes(total) =~= fingerprint_input(
            bytes,
        ));
    }
    h4
}

} // verus!
