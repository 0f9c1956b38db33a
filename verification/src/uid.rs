//! UIDs: 6 raw big-endian bytes widened to a `u64` whose two most
//! significant bytes are zero, and the comma-separated decimal text form.

use vstd::prelude::*;
use vstd::slice::slice_index_get;
use vstd::string::StringSliceAdditionalSpecFns;
use crate::byteseq::{split_bytes, split_on, seqs_of};

verus! {

/// UIDs fit in 6 bytes.
pub open spec fn uid_in_range(u: u64) -> bool {
    u < 0x1000000000000
}

/// The widened value of 6 big-endian UID bytes.
pub open spec fn uid_of_bytes(b: Seq<u8>) -> u64
    recommends
        b.len() == 6,
{
    ((b[0] as u64) << 40) | ((b[1] as u64) << 32) | ((b[2] as u64) << 24) | ((b[3] as u64) << 16)
        | ((b[4] as u64) << 8) | (b[5] as u64)
}

/// The 6 big-endian bytes of a widened UID.
pub open spec fn uid_bytes(u: u64) -> Seq<u8>
    recommends
        uid_in_range(u),
{
    seq![
        ((u >> 40) & 0xff) as u8,
        ((u >> 32) & 0xff) as u8,
        ((u >> 24) & 0xff) as u8,
        ((u >> 16) & 0xff) as u8,
        ((u >> 8) & 0xff) as u8,
        (u & 0xff) as u8,
    ]
}

pub proof fn lemma_uid_of_bytes_in_range(b: Seq<u8>)
    requires
        b.len() == 6,
    ensures
        uid_in_range(uid_of_bytes(b)),
{
    let (b0, b1, b2, b3, b4, b5) = (b[0], b[1], b[2], b[3], b[4], b[5]);
    assert(((b0 as u64) << 40) | ((b1 as u64) << 32) | ((b2 as u64) << 24) | ((b3 as u64) << 16)
        | ((b4 as u64) << 8) | (b5 as u64) < 0x1000000000000) by (bit_vector);
}

pub proof fn lemma_uid_of_bytes_of_uid_bytes(u: u64)
    requires
        uid_in_range(u),
    ensures
        uid_of_bytes(uid_bytes(u)) == u,
{
    assert(u < 0x1000000000000 ==> (((((u >> 40) & 0xff) as u8) as u64) << 40) | (((((u >> 32)
        & 0xff) as u8) as u64) << 32) | (((((u >> 24) & 0xff) as u8) as u64) << 24) | (((((u >> 16)
        & 0xff) as u8) as u64) << 16) | (((((u >> 8) & 0xff) as u8) as u64) << 8) | (((u
        & 0xff) as u8) as u64) == u) by (bit_vector);
}

/// Widen 6 raw big-endian UID bytes into the in-memory `u64` form.
pub fn uid_from_bytes(bytes: &[u8]) -> (r: u64)
    requires
        bytes@.len() == 6,
    ensures
        r == uid_of_bytes(bytes@),
        uid_in_range(r),
{
    proof {
        lemma_uid_of_bytes_in_range(bytes@);
    }
    let b0 = *slice_index_get(bytes, 0);
    let b1 = *slice_index_get(bytes, 1);
    let b2 = *slice_index_get(bytes, 2);
    let b3 = *slice_index_get(bytes, 3);
    let b4 = *slice_index_get(bytes, 4);
    let b5 = *slice_index_get(bytes, 5);
    ((b0 as u64) << 40) | ((b1 as u64) << 32) | ((b2 as u64) << 24) | ((b3 as u64) << 16) | ((
    b4 as u64) << 8) | (b5 as u64)
}

/// Recover the 6 raw big-endian bytes of a widened UID.
pub fn uid_to_bytes(u: u64) -> (r: Vec<u8>)
    requires
        uid_in_range(u),
    ensures
        r@ == uid_bytes(u),
{
    let mut out: Vec<u8> = Vec::new();
    out.push(((u >> 40) & 0xff) as u8);
    out.push(((u >> 32) & 0xff) as u8);
    out.push(((u >> 24) & 0xff) as u8);
    out.push(((u >> 16) & 0xff) as u8);
    out.push(((u >> 8) & 0xff) as u8);
    out.push((u & 0xff) as u8);
    proof {
        assert(out@ =~= uid_bytes(u));
    }
    out
}

/// An ASCII decimal digit.
pub open spec fn is_digit(b: u8) -> bool {
    48 <= b <= 57
}

/// The value of a run of decimal digit bytes, most significant first.
pub open spec fn digits_val(s: Seq<u8>) -> int
    decreases s.len(),
{
    if s.len() == 0 {
        0
    } else {
        digits_val(s.drop_last()) * 10 + (s.last() - 48)
    }
}

/// A token with its optional single leading `+` removed.
pub open spec fn token_digits(t: Seq<u8>) -> Seq<u8> {
    if t.len() > 0 && t[0] == 43 {
        t.skip(1)
    } else {
        t
    }
}

/// The byte value of one comma-separated token: an optional leading `+`,
/// then at least one decimal digit, the whole not exceeding 255.
pub open spec fn token_val(t: Seq<u8>) -> Option<u8> {
    let d = token_digits(t);
    if d.len() > 0 && (forall|i: int| 0 <= i < d.len() ==> is_digit(d[i])) && digits_val(d) <= 255 {
        Some(digits_val(d) as u8)
    } else {
        None
    }
}

/// The widened UID that a comma-separated decimal string denotes, if it
/// consists of exactly 6 valid byte tokens.
pub open spec fn parse_uid_spec(s: Seq<u8>) -> Option<u64> {
    let ts = split_on(s, 44);
    if ts.len() == 6 && (forall|i: int| 0 <= i < 6 ==> token_val(ts[i]) is Some) {
        Some(uid_of_bytes(Seq::new(6, |i: int| token_val(ts[i])->Some_0)))
    } else {
        None
    }
}

/// A value that has grown past 255 can never shrink back, whatever bytes
/// follow.
proof fn lemma_digits_val_stays_big(s: Seq<u8>, k: int)
    requires
        0 <= k <= s.len(),
        digits_val(s.take(k)) > 255,
    ensures
        digits_val(s) > 255,
    decreases s.len() - k,
{
    if k == s.len() {
        assert(s.take(k) =~= s);
    } else {
        assert(s.take(k + 1).drop_last() =~= s.take(k));
        assert(s.take(k + 1).last() == s[k]);
        assert(digits_val(s.take(k + 1)) == digits_val(s.take(k)) * 10 + (s[k] - 48));
        lemma_digits_val_stays_big(s, k + 1);
    }
}

/// Parse one decimal byte token.
fn parse_token(t: &[u8]) -> (r: Option<u8>)
    ensures
        r == token_val(t@),
{
    let n = t.len();
    let mut i: usize = 0;
    if n > 0 && *slice_index_get(t, 0) == 43 {
        i = 1;
    }
    let ghost start = i as int;
    let ghost d = t@.skip(start);
    proof {
        assert(t@.skip(0) =~= t@);
        assert(d == token_digits(t@));
    }
    if i >= n {
        return None;
    }
    let mut acc: u32 = 0;
    while i < n
        invariant
            start <= i <= n,
            n == t@.len(),
            d == t@.skip(start),
            d == token_digits(t@),
            0 <= start <= 1,
            acc == digits_val(d.take(i - start)),
            acc <= 255,
            forall|j: int| 0 <= j < i - start ==> is_digit(d[j]),
        decreases n - i,
    {
        let c = *slice_index_get(t, i);
        proof {
            assert(d[i - start] == t@[i as int]);
        }
        if !(48 <= c && c <= 57) {
            return None;
        }
        let next = acc * 10 + (c - 48) as u32;
        proof {
            assert(d.take(i - start + 1).drop_last() =~= d.take(i - start));
            assert(d.take(i - start + 1).last() == d[i - start]);
            assert(digits_val(d.take(i - start + 1)) == acc * 10 + (c - 48));
        }
        if next > 255 {
            proof {
                lemma_digits_val_stays_big(d, i - start + 1);
            }
            return None;
        }
        acc = next;
        i = i + 1;
    }
    proof {
        assert(d.take(n - start) =~= d);
    }
    Some(acc as u8)
}

/// Parse a UID given as exactly six comma-separated decimal byte values,
/// widening it to the in-memory `u64` form.
pub fn parse_uid(uid: &str) -> (r: Option<u64>)
    ensures
        r == parse_uid_spec(uid.spec_bytes()),
{
    parse_uid_bytes(uid.as_bytes())
}

/// `parse_uid`, over the raw bytes of the string.
pub fn parse_uid_bytes(b: &[u8]) -> (r: Option<u64>)
    ensures
        r == parse_uid_spec(b@),
{
    let ghost ts = split_on(b@, 44);
    let tokens = split_bytes(b, 44);
    if tokens.len() != 6 {
        return None;
    }
    let mut vals: Vec<u8> = Vec::new();
    let mut k: usize = 0;
    while k < 6
        invariant
            k <= 6,
            ts == split_on(b@, 44),
            seqs_of(tokens@) == ts,
            tokens@.len() == 6,
            ts.len() == 6,
            vals@.len() == k,
            forall|i: int| 0 <= i < k ==> token_val(ts[i]) == Some(vals@[i]),
        decreases 6 - k,
    {
        let tok = slice_index_get(tokens.as_slice(), k);
        proof {
            assert(tok@ == ts[k as int]);
        }
        match parse_token(tok.as_slice()) {
            Some(v) => {
                vals.push(v);
            },
            None => {
                return None;
            },
        }
        k = k + 1;
    }
    let r = uid_from_bytes(vals.as_slice());
    proof {
        assert(vals@ =~= Seq::new(6, |i: int| token_val(ts[i])->Some_0));
    }
    Some(r)
}

} // verus!
