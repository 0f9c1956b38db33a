//! Byte-sequence utilities: locating a byte, splitting a buffer on a
//! separator, and stripping a trailing carriage return.

use vstd::prelude::*;
use vstd::slice::{slice_subrange, slice_to_vec};

verus! {

/// The first index at or after `from` where `s` holds `b`, or `s.len()` if
/// there is none.
pub open spec fn first_pos(s: Seq<u8>, b: u8, from: int) -> int
    decreases s.len() - from,
{
    if from < 0 || from >= s.len() {
        s.len() as int
    } else if s[from] == b {
        from
    } else {
        first_pos(s, b, from + 1)
    }
}

pub proof fn lemma_first_pos_bounds(s: Seq<u8>, b: u8, from: int)
    requires
        0 <= from <= s.len(),
    ensures
        from <= first_pos(s, b, from) <= s.len(),
        first_pos(s, b, from) < s.len() ==> s[first_pos(s, b, from)] == b,
        forall|j: int| from <= j < first_pos(s, b, from) ==> s[j] != b,
    decreases s.len() - from,
{
    if from < s.len() && s[from] != b {
        lemma_first_pos_bounds(s, b, from + 1);
    }
}

/// `first_pos` is pinned down by exhibiting the first occurrence itself.
pub proof fn lemma_first_pos_is(s: Seq<u8>, b: u8, from: int, p: int)
    requires
        0 <= from <= p < s.len(),
        s[p] == b,
        forall|j: int| from <= j < p ==> s[j] != b,
    ensures
        first_pos(s, b, from) == p,
    decreases p - from,
{
    if from < p {
        lemma_first_pos_is(s, b, from + 1, p);
    }
}

/// `first_pos` runs to the end when the byte is absent.
pub proof fn lemma_first_pos_absent(s: Seq<u8>, b: u8, from: int)
    requires
        0 <= from <= s.len(),
        forall|j: int| from <= j < s.len() ==> s[j] != b,
    ensures
        first_pos(s, b, from) == s.len(),
    decreases s.len() - from,
{
    if from < s.len() {
        lemma_first_pos_absent(s, b, from + 1);
    }
}

/// The pieces of `s` delimited by `sep`, in order.  Splitting always yields
/// at least one piece; the separator itself appears in none of them.
pub open spec fn split_on(s: Seq<u8>, sep: u8) -> Seq<Seq<u8>>
    decreases s.len(),
    via split_on_decreases
{
    let p = first_pos(s, sep, 0);
    if p == s.len() {
        seq![s]
    } else {
        seq![s.take(p)] + split_on(s.skip(p + 1), sep)
    }
}

#[via_fn]
proof fn split_on_decreases(s: Seq<u8>, sep: u8) {
    lemma_first_pos_bounds(s, sep, 0);
}

/// Every byte of every piece comes from `s`, so a byte absent from `s` is
/// absent from each piece.
pub proof fn lemma_split_on_no_byte(s: Seq<u8>, sep: u8, x: u8)
    requires
        forall|k: int| 0 <= k < s.len() ==> s[k] != x,
    ensures
        forall|i: int, j: int|
            0 <= i < split_on(s, sep).len() && 0 <= j < split_on(s, sep)[i].len()
                ==> split_on(s, sep)[i][j] != x,
    decreases s.len(),
{
    lemma_first_pos_bounds(s, sep, 0);
    let p = first_pos(s, sep, 0);
    if p < s.len() {
        let rest = s.skip(p + 1);
        assert(forall|k: int| 0 <= k < rest.len() ==> rest[k] == s[k + p + 1]);
        lemma_split_on_no_byte(rest, sep, x);
        let r = split_on(s, sep);
        assert forall|i: int, j: int|
            0 <= i < r.len() && 0 <= j < r[i].len() implies r[i][j] != x by {
            if i == 0 {
                assert(r[0][j] == s[j]);
            } else {
                assert(r[i] == split_on(rest, sep)[i - 1]);
            }
        }
    }
}

/// A word with its optional trailing carriage return removed.
pub open spec fn strip_cr(w: Seq<u8>) -> Seq<u8> {
    if w.len() > 0 && w.last() == 13 {
        w.drop_last()
    } else {
        w
    }
}

/// The views of a sequence of byte vectors.
pub open spec fn seqs_of(s: Seq<Vec<u8>>) -> Seq<Seq<u8>> {
    s.map_values(|v: Vec<u8>| v@)
}

proof fn lemma_seqs_of_push(s: Seq<Vec<u8>>, v: Vec<u8>)
    ensures
        seqs_of(s.push(v)) == seqs_of(s).push(v@),
{
    assert(seqs_of(s.push(v)) =~= seqs_of(s).push(v@));
}

/// Relies on memchr::memchr: the index of the first occurrence of `needle`
/// in `haystack`, or None when it does not occur.
#[verifier::external_body]
fn find_byte(needle: u8, haystack: &[u8]) -> (r: Option<usize>)
    ensures
        match r {
            Some(i) => i < haystack@.len() && haystack@[i as int] == needle
                && forall|j: int| 0 <= j < i ==> haystack@[j] != needle,
            None => forall|j: int| 0 <= j < haystack@.len() ==> haystack@[j] != needle,
        },
{
    memchr::memchr(needle, haystack)
}

/// The first index holding `b`, or the slice's length when `b` is absent.
pub fn scan_byte(data: &[u8], from: usize, b: u8) -> (r: usize)
    requires
        from <= data@.len(),
    ensures
        r == first_pos(data@, b, from as int),
        from <= r <= data@.len(),
{
    let rest = slice_subrange(data, from, data.len());
    match find_byte(b, rest) {
        Some(x) => {
            proof {
                assert forall|j: int| from <= j < from + x implies data@[j] != b by {
                    assert(rest@[j - from] != b);
                }
                assert(data@[from + x] == rest@[x as int]);
                lemma_first_pos_is(data@, b, from as int, from + x);
            }
            from + x
        },
        None => {
            proof {
                assert forall|j: int| from <= j < data@.len() implies data@[j] != b by {
                    assert(rest@[j - from] != b);
                }
                lemma_first_pos_absent(data@, b, from as int);
            }
            data.len()
        },
    }
}

/// Split `data` on `sep`, yielding the delimited pieces in order.
pub fn split_bytes(data: &[u8], sep: u8) -> (r: Vec<Vec<u8>>)
    ensures
        seqs_of(r@) == split_on(data@, sep),
{
    let mut out: Vec<Vec<u8>> = Vec::new();
    let mut start: usize = 0;
    proof {
        assert(data@.skip(0) =~= data@);
        assert(seqs_of(out@) =~= Seq::<Seq<u8>>::empty());
        assert(seqs_of(out@) + split_on(data@, sep) =~= split_on(data@, sep));
    }
    loop
        invariant_except_break
            start <= data@.len(),
            split_on(data@, sep) == seqs_of(out@) + split_on(data@.skip(start as int), sep),
        ensures
            seqs_of(out@) == split_on(data@, sep),
        decreases data@.len() - start,
    {
        let ghost suf = data@.skip(start as int);
        let p = scan_byte(data, start, sep);
        let token = slice_to_vec(slice_subrange(data, start, p));
        proof {
            lemma_first_pos_bounds(data@, sep, start as int);
            assert(forall|j: int| 0 <= j < suf.len() ==> suf[j] == data@[j + start]);
            lemma_seqs_of_push(out@, token);
        }
        out.push(token);
        if p == data.len() {
            proof {
                lemma_first_pos_absent(suf, sep, 0);
                assert(split_on(suf, sep) == seq![suf]);
                assert(token@ =~= suf);
                assert(seqs_of(out@) =~= split_on(data@, sep));
            }
            break;
        } else {
            proof {
                let q = (p - start) as int;
                lemma_first_pos_is(suf, sep, 0, q);
                assert(split_on(suf, sep) == seq![suf.take(q)] + split_on(suf.skip(q + 1), sep));
                assert(token@ =~= suf.take(q));
                assert(suf.skip(q + 1) =~= data@.skip(p + 1));
                assert(split_on(data@, sep) =~= seqs_of(out@) + split_on(data@.skip(p + 1), sep));
            }
            start = p + 1;
        }
    }
    out
}

/// Append the bytes of `data` to `out`.
pub fn append_bytes(out: &mut Vec<u8>, data: &[u8])
    ensures
        final(out)@ == old(out)@ + data@,
{
    let mut i: usize = 0;
    while i < data.len()
        invariant
            i <= data@.len(),
            out@ == old(out)@ + data@.take(i as int),
        decreases data@.len() - i,
    {
        let b = *vstd::slice::slice_index_get(data, i);
        out.push(b);
        proof {
            assert(old(out)@ + data@.take(i + 1) =~= (old(out)@ + data@.take(i as int)).push(
                data@[i as int]));
        }
        i = i + 1;
    }
    proof {
        assert(data@.take(data@.len() as int) =~= data@);
    }
}

} // verus!
