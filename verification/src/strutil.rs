//! String comparison helpers.
//!
//! Verified equality of `&str` values, proved through the UTF-8 encoding of
//! their character sequences.

use vstd::prelude::*;
use vstd::string::StringSliceAdditionalSpecFns;
use vstd::utf8::{
    decode_utf8, decode_utf8_encode_utf8, encode_utf8_decode_utf8, encode_utf8_valid_utf8,
    valid_utf8,
};

verus! {

/// Relies on `String::from_utf8`: it returns `Ok` exactly on a valid UTF-8
/// byte sequence, and the returned string holds the decoded characters.
#[verifier::external_body]
pub fn string_from_utf8(bytes: Vec<u8>) -> (r: Option<String>)
    ensures
        r is Some <==> valid_utf8(bytes@),
        r matches Some(s) ==> s@ == decode_utf8(bytes@),
{
    String::from_utf8(bytes).ok()
}

/// Relies on `String::pop`: it removes and returns the last character of a
/// non-empty string and returns `None`, changing nothing, on an empty one.
#[verifier::external_body]
pub fn string_pop(s: &mut String) -> (r: Option<char>)
    ensures
        old(s)@.len() == 0 ==> r is None && final(s)@ == old(s)@,
        old(s)@.len() > 0 ==> r == Some(old(s)@.last()) && final(s)@ == old(s)@.drop_last(),
{
    s.pop()
}

/// True exactly when the two strings hold the same characters.
pub fn str_eq(a: &str, b: &str) -> (r: bool)
    ensures
        r == (a@ == b@),
{
    let ab = a.as_bytes();
    let bb = b.as_bytes();
    if ab.len() != bb.len() {
        proof {
            assert(a@ != b@);
        }
        return false;
    }
    let n = ab.len();
    let mut i: usize = 0;
    while i < n
        invariant
            n == ab@.len() == bb@.len(),
            i <= n,
            ab@.subrange(0, i as int) =~= bb@.subrange(0, i as int),
            ab@ == a.spec_bytes(),
            bb@ == b.spec_bytes(),
        decreases n - i,
    {
        if ab[i] != bb[i] {
            proof {
                assert(a.spec_bytes()[i as int] != b.spec_bytes()[i as int]);
                assert(a@ != b@);
            }
            return false;
        }
        proof {
            assert(ab@.subrange(0, i + 1) =~= ab@.subrange(0, i as int).push(ab@[i as int]));
            assert(bb@.subrange(0, i + 1) =~= bb@.subrange(0, i as int).push(bb@[i as int]));
        }
        i = i + 1;
    }
    proof {
        assert(ab@ =~= ab@.subrange(0, n as int));
        assert(bb@ =~= bb@.subrange(0, n as int));
        lemma_encode_utf8_injective(a@, b@);
    }
    true
}

/// True exactly when the two strings hold the same characters.
pub fn string_eq(a: &String, b: &String) -> (r: bool)
    ensures
        r == (a@ == b@),
{
    str_eq(a.as_str(), b.as_str())
}

/// Two character sequences with the same UTF-8 encoding are the same
/// sequence.
pub proof fn lemma_encode_utf8_injective(a: Seq<char>, b: Seq<char>)
    requires
        vstd::utf8::encode_utf8(a) == vstd::utf8::encode_utf8(b),
    ensures
        a == b,
{
    broadcast use encode_utf8_valid_utf8;
    broadcast use encode_utf8_decode_utf8;
    broadcast use decode_utf8_encode_utf8;

    assert(vstd::utf8::decode_utf8(vstd::utf8::encode_utf8(a)) == a);
    assert(vstd::utf8::decode_utf8(vstd::utf8::encode_utf8(b)) == b);
}

} // verus!
