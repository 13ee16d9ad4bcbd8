//! Small verified helpers on strings and byte slices.

use vstd::prelude::*;

verus! {

use vstd::string::StringSliceAdditionalSpecFns;

/// Compare two string slices; equal exactly when their characters are equal.
pub fn str_eq(a: &str, b: &str) -> (r: bool)
    ensures
        r == (a@ == b@),
{
    let ab = a.as_bytes();
    let bb = b.as_bytes();
    proof {
        vstd::utf8::encode_utf8_decode_utf8(a@);
        vstd::utf8::encode_utf8_decode_utf8(b@);
    }
    if ab.len() != bb.len() {
        return false;
    }
    let mut i: usize = 0;
    while i < ab.len()
        invariant
            i <= ab.len(),
            ab@.len() == bb@.len(),
            ab@ == a.spec_bytes(),
            bb@ == b.spec_bytes(),
            vstd::utf8::decode_utf8(a.spec_bytes()) == a@,
            vstd::utf8::decode_utf8(b.spec_bytes()) == b@,
            forall|j: int| 0 <= j < i ==> ab@[j] == bb@[j],
        decreases ab.len() - i,
    {
        if ab[i] != bb[i] {
            return false;
        }
        i = i + 1;
    }
    proof {
        assert(a.spec_bytes() =~= b.spec_bytes());
    }
    true
}

/// True when `needle` occurs in `haystack` starting at position `at`.
pub open spec fn occurs_at(haystack: Seq<u8>, needle: Seq<u8>, at: int) -> bool {
    &&& 0 <= at
    &&& at + needle.len() <= haystack.len()
    &&& haystack.subrange(at, at + needle.len() as int) == needle
}

/// True when `needle` occurs somewhere in `haystack`.
pub open spec fn contains_seq(haystack: Seq<u8>, needle: Seq<u8>) -> bool {
    exists|at: int| occurs_at(haystack, needle, at)
}

/// Whether `haystack` contains `needle` as a contiguous subsequence.
pub fn contains_bytes(haystack: &[u8], needle: &[u8]) -> (r: bool)
    ensures
        r == contains_seq(haystack@, needle@),
{
    if needle.len() > haystack.len() {
        proof {
            assert(!contains_seq(haystack@, needle@));
        }
        return false;
    }
    let mut at: usize = 0;
    while at <= haystack.len() - needle.len()
        invariant
            needle@.len() <= haystack@.len(),
            haystack@.len() <= usize::MAX,
            at <= haystack@.len() - needle@.len() + 1,
            forall|p: int| 0 <= p < at ==> !occurs_at(haystack@, needle@, p),
        decreases haystack@.len() - needle@.len() + 1 - at,
    {
        let mut i: usize = 0;
        let mut all_eq: bool = true;
        while i < needle.len()
            invariant
                at + needle@.len() <= haystack@.len(),
                haystack@.len() <= usize::MAX,
                i <= needle@.len(),
                all_eq == (forall|j: int| 0 <= j < i ==> haystack@[at + j] == needle@[j]),
            decreases needle.len() - i,
        {
            if haystack[at + i] != needle[i] {
                all_eq = false;
                proof {
                    assert(haystack@[at + i] != needle@[i as int]);
                }
            }
            i = i + 1;
        }
        if all_eq {
            proof {
                assert(haystack@.subrange(at as int, at + needle@.len() as int) =~= needle@);
                assert(occurs_at(haystack@, needle@, at as int));
            }
            return true;
        }
        proof {
            if occurs_at(haystack@, needle@, at as int) {
                assert(forall|j: int|
                    0 <= j < needle@.len() ==> #[trigger] haystack@.subrange(
                        at as int,
                        at + needle@.len() as int,
                    )[j] == haystack@[at + j]);
                assert(false);
            }
        }
        at = at + 1;
    }
    proof {
        assert(forall|p: int|
            occurs_at(haystack@, needle@, p) ==> 0 <= p <= haystack@.len() - needle@.len());
        assert(!contains_seq(haystack@, needle@));
    }
    false
}

/// What `from_utf8_lossy` decodes the given bytes to.
pub uninterp spec fn lossy_decode(s: Seq<u8>) -> Seq<char>;

/// Relies on String::from_utf8_lossy: the decoding is a function of the
/// bytes alone, and valid UTF-8 decodes exactly.
#[verifier::external_body]
pub fn lossy_string(b: &[u8]) -> (r: String)
    ensures
        r@ == lossy_decode(b@),
        vstd::utf8::valid_utf8(b@) ==> r@ == vstd::utf8::decode_utf8(b@),
{
    String::from_utf8_lossy(b).into_owned()
}

} // verus!
