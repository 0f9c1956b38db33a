//! The truncated-MD5 hash that maps a binding phrase to its UID: the phrase
//! is framed by fixed prefix and suffix bytes, digested with MD5, and the
//! first 6 digest bytes are widened into the `u64` UID form.

use md5::{Digest, Md5};
use vstd::prelude::*;
use vstd::slice::slice_subrange;
use crate::byteseq::append_bytes;
use crate::uid::{uid_from_bytes, uid_in_range, uid_of_bytes};

verus! {

/// The framing bytes placed before the phrase: `-DMY_BINDING_PHRASE="`.
pub open spec fn hash_prefix() -> Seq<u8> {
    seq![
        45u8, 68u8, 77u8, 89u8, 95u8, 66u8, 73u8, 78u8, 68u8, 73u8, 78u8, 71u8, 95u8, 80u8, 72u8,
        82u8, 65u8, 83u8, 69u8, 61u8, 34u8,
    ]
}

/// The framing byte placed after the phrase: `"`.
pub open spec fn hash_suffix() -> Seq<u8> {
    seq![34u8]
}

/// The full message that is digested for a phrase.
pub open spec fn framed(word: Seq<u8>) -> Seq<u8> {
    hash_prefix() + word + hash_suffix()
}

/// What MD5 returns for a message.  The digest is a fixed function of the
/// message bytes alone; its definition is left to the hash implementation.
pub uninterp spec fn md5_of(message: Seq<u8>) -> Seq<u8>;

/// Relies on md5::Md5 (the RustCrypto MD5 implementation): the digest is a
/// pure function of the message bytes and is always 16 bytes long.
#[verifier::external_body]
fn md5_digest(message: &[u8]) -> (r: Vec<u8>)
    ensures
        r@ == md5_of(message@),
        r@.len() == 16,
{
    let mut hasher = Md5::new();
    hasher.update(message);
    hasher.finalize().to_vec()
}

/// The UID of a phrase: the first 6 bytes of the digest of the framed
/// phrase, widened to a `u64`.
pub open spec fn hash6(word: Seq<u8>) -> u64 {
    uid_of_bytes(md5_of(framed(word)).take(6))
}

/// The framing bytes placed before the phrase, as a vector.
pub fn hash_prefix_vec() -> (r: Vec<u8>)
    ensures
        r@ == hash_prefix(),
{
    let mut v: Vec<u8> = Vec::new();
    v.push(45);
    v.push(68);
    v.push(77);
    v.push(89);
    v.push(95);
    v.push(66);
    v.push(73);
    v.push(78);
    v.push(68);
    v.push(73);
    v.push(78);
    v.push(71);
    v.push(95);
    v.push(80);
    v.push(72);
    v.push(82);
    v.push(65);
    v.push(83);
    v.push(69);
    v.push(61);
    v.push(34);
    proof {
        assert(v@ =~= hash_prefix());
    }
    v
}

/// Compute the UID of one phrase.
pub fn hash_word(word: &[u8]) -> (r: u64)
    ensures
        r == hash6(word@),
        uid_in_range(r),
{
    let mut message = hash_prefix_vec();
    append_bytes(&mut message, word);
    message.push(34);
    proof {
        assert(message@ =~= framed(word@));
    }
    let digest = md5_digest(message.as_slice());
    let head = slice_subrange(digest.as_slice(), 0, 6);
    proof {
        assert(head@ =~= md5_of(framed(word@)).take(6));
    }
    uid_from_bytes(head)
}

} // verus!
