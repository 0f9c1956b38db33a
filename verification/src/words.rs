//! Preparing raw word lists: a diceware-style list pairs each word with a
//! dice roll, separated by a tab.  Extraction keeps only the words, one per
//! line, ready to be appended to the corpus.

use vstd::prelude::*;
use vstd::slice::{slice_index_get, slice_subrange};
use crate::byteseq::{append_bytes, first_pos, scan_byte, seqs_of, split_bytes, split_on, strip_cr};

verus! {

/// The lines of a buffer: split on newlines, with a final empty piece (from
/// a trailing newline) dropped.
pub open spec fn lines_of(input: Seq<u8>) -> Seq<Seq<u8>> {
    let ls = split_on(input, 10);
    if ls.len() > 0 && ls.last().len() == 0 {
        ls.drop_last()
    } else {
        ls
    }
}

/// The words extracted from diceware lines: for each line (with a trailing
/// carriage return stripped), everything after the first tab, followed by a
/// newline.  A line without a tab makes the whole list invalid.
pub open spec fn extract_lines(ls: Seq<Seq<u8>>) -> Option<Seq<u8>>
    decreases ls.len(),
{
    if ls.len() == 0 {
        Some(Seq::empty())
    } else {
        let l = strip_cr(ls[0]);
        let t = first_pos(l, 9, 0);
        if t == l.len() {
            None
        } else {
            match extract_lines(ls.skip(1)) {
                None => None,
                Some(rest) => Some(l.skip(t + 1) + seq![10u8] + rest),
            }
        }
    }
}

/// The newline-delimited words of a diceware-style list, or nothing when a
/// line lacks its tab separator.
pub open spec fn diceware_spec(input: Seq<u8>) -> Option<Seq<u8>> {
    extract_lines(lines_of(input))
}

/// Extract the words of a diceware-style word list.
pub fn diceware_words(input: &[u8]) -> (r: Option<Vec<u8>>)
    ensures
        match r {
            Some(out) => diceware_spec(input@) == Some(out@),
            None => diceware_spec(input@) is None,
        },
{
    let ghost ls = lines_of(input@);
    let mut line_list = split_bytes(input, 10);
    if line_list.len() > 0 {
        let last = slice_index_get(line_list.as_slice(), line_list.len() - 1);
        if last.len() == 0 {
            let ghost before = line_list@;
            line_list.pop();
            proof {
                assert(seqs_of(before.subrange(0, before.len() - 1)) =~= seqs_of(
                    before,
                ).drop_last());
            }
        }
    }
    proof {
        assert(seqs_of(line_list@) == ls);
        assert(ls.skip(0) =~= ls);
    }
    let n = line_list.len();
    let mut out: Vec<u8> = Vec::new();
    let mut k: usize = 0;
    while k < n
        invariant
            k <= n,
            ls == lines_of(input@),
            seqs_of(line_list@) == ls,
            n == line_list@.len(),
            extract_lines(ls) == (match extract_lines(ls.skip(k as int)) {
                None => None::<Seq<u8>>,
                Some(rest) => Some(out@ + rest),
            }),
        decreases n - k,
    {
        let line = slice_index_get(line_list.as_slice(), k);
        proof {
            assert(line@ == ls[k as int]);
        }
        let stripped: &[u8] = if line.len() > 0 && *slice_index_get(
            line.as_slice(),
            line.len() - 1,
        ) == 13 {
            slice_subrange(line.as_slice(), 0, line.len() - 1)
        } else {
            line.as_slice()
        };
        proof {
            assert(stripped@ =~= strip_cr(ls[k as int]));
        }
        let t = scan_byte(stripped, 0, 9);
        let ghost suffix = ls.skip(k as int);
        proof {
            assert(suffix[0] == ls[k as int]);
            assert(suffix.skip(1) =~= ls.skip(k as int + 1));
        }
        if t == stripped.len() {
            return None;
        }
        let word = slice_subrange(stripped, t + 1, stripped.len());
        let ghost out0 = out@;
        append_bytes(&mut out, word);
        out.push(10);
        proof {
            let l = strip_cr(ls[k as int]);
            assert(word@ =~= l.skip(t + 1));
            assert(out@ =~= out0 + (l.skip(t + 1) + seq![10u8]));
            assert forall|rest: Seq<u8>| true implies out0 + (l.skip(t + 1) + seq![10u8] + rest)
                == out@ + rest by {
                assert(out0 + (l.skip(t + 1) + seq![10u8] + rest) =~= out@ + rest);
            }
        }
        k = k + 1;
    }
    proof {
        assert(ls.skip(n as int) =~= Seq::<Seq<u8>>::empty());
        assert(out@ + Seq::<u8>::empty() =~= out@);
    }
    Some(out)
}

} // verus!
