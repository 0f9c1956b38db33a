//! The lookup table: an immutable list of (UID, phrase) entries in strictly
//! ascending UID order, built either from a word list or by parsing the
//! serialized binary form, and queried by binary search.

use vstd::prelude::*;
use vstd::bytes::{spec_u32_to_le_bytes, u32_from_le_bytes, u32_to_le_bytes};
use vstd::slice::{slice_index_get, slice_subrange, slice_to_vec};
use crate::byteseq::{
    append_bytes, first_pos, lemma_split_on_no_byte, scan_byte, seqs_of, split_bytes, split_on,
    strip_cr,
};
use crate::hashing::{hash6, hash_word};
use crate::uid::{
    parse_uid, parse_uid_spec, uid_bytes, uid_from_bytes, uid_in_range, uid_of_bytes, uid_to_bytes,
};
use vstd::string::StringSliceAdditionalSpecFns;
use vstd::utf8::{encode_utf8, valid_utf8};

verus! {

/// One table entry: a widened UID and the phrase that hashes to it.
pub struct Entry {
    pub uid: u64,
    pub phrase: Vec<u8>,
}

impl View for Entry {
    type V = (u64, Seq<u8>);

    open spec fn view(&self) -> (u64, Seq<u8>) {
        (self.uid, self.phrase@)
    }
}

/// Errors of table construction and serialization.
#[derive(Clone, Copy, Debug, PartialEq, Eq, Structural)]
pub enum Error {
    /// The entry count does not fit the serialized form's 32-bit length field.
    Format,
}

/// The views of a list of entries.
pub open spec fn entries_view(s: Seq<Entry>) -> Seq<(u64, Seq<u8>)> {
    s.map_values(|e: Entry| e@)
}

/// Entries are in strictly ascending UID order.
pub open spec fn sorted_uids(s: Seq<(u64, Seq<u8>)>) -> bool {
    forall|i: int, j: int| 0 <= i < j < s.len() ==> s[i].0 < s[j].0
}

/// A well-formed table: strictly sorted, every UID fits in 6 bytes, and no
/// phrase holds a zero byte (the serialized form's terminator).
pub open spec fn table_wf(s: Seq<(u64, Seq<u8>)>) -> bool {
    &&& sorted_uids(s)
    &&& forall|i: int| 0 <= i < s.len() ==> uid_in_range(#[trigger] s[i].0)
    &&& forall|i: int, j: int| 0 <= i < s.len() && 0 <= j < s[i].1.len() ==> s[i].1[j] != 0
}

/// The phrase stored for `uid`: the first entry that matches, if any.
pub open spec fn spec_find(s: Seq<(u64, Seq<u8>)>, uid: u64) -> Option<Seq<u8>>
    decreases s.len(),
{
    if s.len() == 0 {
        None
    } else if s[0].0 == uid {
        Some(s[0].1)
    } else {
        spec_find(s.skip(1), uid)
    }
}

/// In a sorted table, an entry that holds `uid` is what `spec_find` returns.
pub proof fn lemma_spec_find_present(s: Seq<(u64, Seq<u8>)>, uid: u64, k: int)
    requires
        sorted_uids(s),
        0 <= k < s.len(),
        s[k].0 == uid,
    ensures
        spec_find(s, uid) == Some(s[k].1),
    decreases s.len(),
{
    if k > 0 {
        assert(s[0].0 < s[k].0);
        assert(forall|i: int, j: int|
            0 <= i < j < s.skip(1).len() ==> s.skip(1)[i].0 < s.skip(1)[j].0);
        lemma_spec_find_present(s.skip(1), uid, k - 1);
    }
}

/// When no entry holds `uid`, `spec_find` reports absence.
pub proof fn lemma_spec_find_absent(s: Seq<(u64, Seq<u8>)>, uid: u64)
    requires
        forall|k: int| 0 <= k < s.len() ==> (#[trigger] s[k].0) != uid,
    ensures
        spec_find(s, uid) is None,
    decreases s.len(),
{
    if s.len() > 0 {
        assert(forall|k: int| 0 <= k < s.skip(1).len() ==> s.skip(1)[k] == s[k + 1]);
        lemma_spec_find_absent(s.skip(1), uid);
    }
}

/// The entries decoded from `file` starting at offset `i`: 6 raw UID bytes,
/// then the phrase up to the next zero byte (or the end), repeatedly, while
/// at least 7 bytes remain.
pub open spec fn parse_entries(file: Seq<u8>, i: int) -> Seq<(u64, Seq<u8>)>
    decreases file.len() - i + 1,
    via parse_entries_decreases
{
    if i < 0 || i + 7 > file.len() {
        Seq::empty()
    } else {
        let uid = uid_of_bytes(file.subrange(i, i + 6));
        let z = first_pos(file, 0, i + 6);
        seq![(uid, file.subrange(i + 6, z))] + parse_entries(file, z + 1)
    }
}

#[via_fn]
proof fn parse_entries_decreases(file: Seq<u8>, i: int) {
    if !(i < 0 || i + 7 > file.len()) {
        crate::byteseq::lemma_first_pos_bounds(file, 0, i + 6);
    }
}

/// The serialized bytes of the entries themselves.
pub open spec fn entry_bytes(e: (u64, Seq<u8>)) -> Seq<u8> {
    uid_bytes(e.0) + e.1 + seq![0u8]
}

pub open spec fn entries_bytes(s: Seq<(u64, Seq<u8>)>) -> Seq<u8>
    decreases s.len(),
{
    if s.len() == 0 {
        Seq::empty()
    } else {
        entry_bytes(s[0]) + entries_bytes(s.skip(1))
    }
}

/// The serialized table: a 4-byte little-endian entry count, then the
/// entries in order.
pub open spec fn serialize_spec(s: Seq<(u64, Seq<u8>)>) -> Seq<u8>
    recommends
        s.len() <= u32::MAX,
{
    spec_u32_to_le_bytes(s.len() as u32) + entries_bytes(s)
}

/// Insert `(uid, phrase)` into a sorted table unless `uid` is already
/// present; an earlier insertion always wins.
pub open spec fn insert_first(s: Seq<(u64, Seq<u8>)>, uid: u64, phrase: Seq<u8>) -> Seq<
    (u64, Seq<u8>),
>
    decreases s.len(),
{
    if s.len() == 0 {
        seq![(uid, phrase)]
    } else if uid < s[0].0 {
        seq![(uid, phrase)] + s
    } else if uid == s[0].0 {
        s
    } else {
        seq![s[0]] + insert_first(s.skip(1), uid, phrase)
    }
}

/// The table built by hashing each word in order (after stripping a
/// trailing carriage return) and keeping the first phrase seen per UID.
pub open spec fn build_acc(ws: Seq<Seq<u8>>, acc: Seq<(u64, Seq<u8>)>) -> Seq<(u64, Seq<u8>)>
    decreases ws.len(),
{
    if ws.len() == 0 {
        acc
    } else {
        let w = strip_cr(ws[0]);
        build_acc(ws.skip(1), insert_first(acc, hash6(w), w))
    }
}

/// The table built from a newline-delimited corpus.
pub open spec fn build_spec(corpus: Seq<u8>) -> Seq<(u64, Seq<u8>)> {
    build_acc(split_on(corpus, 10), Seq::empty())
}

/// A lookup table from widened UIDs to phrase bytes.
pub struct Table {
    entries: Vec<Entry>,
}

impl View for Table {
    type V = Seq<(u64, Seq<u8>)>;

    closed spec fn view(&self) -> Seq<(u64, Seq<u8>)> {
        entries_view(self.entries@)
    }
}

impl Table {
    /// The number of entries.
    pub fn len(&self) -> (r: usize)
        ensures
            r == self@.len(),
    {
        self.entries.len()
    }

    /// Whether the table has no entries.
    pub fn is_empty(&self) -> (r: bool)
        ensures
            r == (self@.len() == 0),
    {
        self.entries.is_empty()
    }

    /// Whether the entries are in strictly ascending UID order.  Parsing
    /// does not check order, so a caller that parsed an untrusted buffer
    /// can validate it here before looking anything up.
    pub fn is_sorted(&self) -> (r: bool)
        ensures
            r == sorted_uids(self@),
    {
        let s = self.entries.as_slice();
        let n = s.len();
        if n == 0 {
            return true;
        }
        let mut k: usize = 0;
        while n - k > 1
            invariant
                k < n,
                n == s@.len(),
                entries_view(s@) == self@,
                forall|i: int, j: int|
                    0 <= i < j <= k ==> (#[trigger] self@[i].0) < (#[trigger] self@[j].0),
            decreases n - k,
        {
            let a = slice_index_get(s, k);
            let b = slice_index_get(s, k + 1);
            proof {
                assert(a@ == self@[k as int]);
                assert(b@ == self@[k as int + 1]);
            }
            if a.uid >= b.uid {
                return false;
            }
            proof {
                assert forall|i: int, j: int| 0 <= i < j <= k + 1 implies self@[i].0
                    < self@[j].0 by {
                    if j == k + 1 && i < k {
                        assert(self@[i].0 < self@[k as int].0);
                    }
                }
            }
            k = k + 1;
        }
        true
    }

    /// Decode a serialized table.  The 4-byte count is read only as a
    /// capacity hint; entries are scanned until fewer than 7 bytes remain.
    /// Ordering is not validated: looking up in a table whose serialized
    /// form was not sorted gives no meaningful answer.
    pub fn parse(file: &[u8]) -> (t: Table)
        requires
            file@.len() >= 4,
        ensures
            t@ == parse_entries(file@, 4),
    {
        let count = u32_from_le_bytes(slice_subrange(file, 0, 4)) as usize;
        // The count only guides allocation; clamp it so a corrupt header
        // cannot demand more memory than the buffer could possibly hold.
        let most = file.len() / 7;
        let mut entries: Vec<Entry> = Vec::with_capacity(if count < most {
            count
        } else {
            most
        });
        let mut i: usize = 4;
        loop
            invariant_except_break
                4 <= i <= file@.len(),
                parse_entries(file@, 4) == entries_view(entries@) + parse_entries(file@, i as int),
            ensures
                entries_view(entries@) == parse_entries(file@, 4),
            decreases file@.len() - i,
        {
            if file.len() - i < 7 {
                proof {
                    assert(parse_entries(file@, i as int) =~= Seq::<(u64, Seq<u8>)>::empty());
                    assert(entries_view(entries@) + parse_entries(file@, i as int)
                        =~= entries_view(entries@));
                }
                break;
            }
            let uid = uid_from_bytes(slice_subrange(file, i, i + 6));
            let z = scan_byte(file, i + 6, 0);
            let phrase = slice_to_vec(slice_subrange(file, i + 6, z));
            let e = Entry { uid, phrase };
            proof {
                let ghost iv = i as int;
                assert(parse_entries(file@, iv) == seq![
                    (uid_of_bytes(file@.subrange(iv, iv + 6)), file@.subrange(
                        iv + 6,
                        first_pos(file@, 0, iv + 6),
                    )),
                ] + parse_entries(file@, first_pos(file@, 0, iv + 6) + 1));
                assert(e@ == (uid_of_bytes(file@.subrange(iv, iv + 6)), file@.subrange(
                    iv + 6,
                    z as int,
                )));
                lemma_entries_view_push(entries@, e);
                assert(entries_view(entries@.push(e)) + parse_entries(file@, z + 1)
                    =~= entries_view(entries@) + parse_entries(file@, iv));
            }
            entries.push(e);
            if z == file.len() {
                proof {
                    assert(parse_entries(file@, z + 1) =~= Seq::<(u64, Seq<u8>)>::empty());
                    assert(entries_view(entries@) + parse_entries(file@, z + 1) =~= entries_view(
                        entries@,
                    ));
                }
                break;
            }
            i = z + 1;
        }
        Table { entries }
    }

    /// Build a table from a newline-delimited word list: each word (with an
    /// optional trailing carriage return stripped) is hashed to its UID and
    /// inserted; when two words hash to the same UID the first one in corpus
    /// order is kept, so the build is deterministic.
    pub fn from_words(words: &[u8]) -> (t: Table)
        requires
            forall|k: int| 0 <= k < words@.len() ==> words@[k] != 0,
        ensures
            t@ == build_spec(words@),
            table_wf(t@),
    {
        let ghost ws = split_on(words@, 10);
        let word_list = split_bytes(words, 10);
        proof {
            lemma_split_on_no_byte(words@, 10, 0);
        }
        let mut entries: Vec<Entry> = Vec::new();
        let n = word_list.len();
        let mut k: usize = 0;
        proof {
            assert(ws.skip(0) =~= ws);
        }
        while k < n
            invariant
                k <= n,
                ws == split_on(words@, 10),
                seqs_of(word_list@) == ws,
                n == word_list@.len(),
                table_wf(entries_view(entries@)),
                build_acc(ws, Seq::empty()) == build_acc(
                    ws.skip(k as int),
                    entries_view(entries@),
                ),
                forall|i: int, j: int|
                    0 <= i < ws.len() && 0 <= j < ws[i].len() ==> ws[i][j] != 0,
            decreases n - k,
        {
            let ghost acc = entries_view(entries@);
            let w = slice_index_get(word_list.as_slice(), k);
            proof {
                assert(w@ == ws[k as int]);
            }
            let stripped: &[u8] = if w.len() > 0 && *slice_index_get(w.as_slice(), w.len() - 1)
                == 13 {
                slice_subrange(w.as_slice(), 0, w.len() - 1)
            } else {
                w.as_slice()
            };
            proof {
                assert(stripped@ =~= strip_cr(ws[k as int]));
            }
            let uid = hash_word(stripped);
            let phrase = slice_to_vec(stripped);
            proof {
                let sw = strip_cr(ws[k as int]);
                let after = insert_first(acc, hash6(sw), sw);
                let suffix = ws.skip(k as int);
                assert(suffix[0] == ws[k as int]);
                assert(suffix.skip(1) =~= ws.skip(k as int + 1));
                assert(build_acc(suffix, acc) == build_acc(ws.skip(k as int + 1), after));
                assert forall|j: int| 0 <= j < sw.len() implies sw[j] != 0 by {
                    assert(sw[j] == ws[k as int][j]);
                }
            }
            insert_entry_first(&mut entries, uid, phrase);
            k = k + 1;
        }
        proof {
            assert(ws.skip(n as int) =~= Seq::<Seq<u8>>::empty());
        }
        Table { entries }
    }

    /// Serialize the table: the entry count as 4 little-endian bytes, then
    /// each entry's 6 raw UID bytes and zero-terminated phrase.  Fails when
    /// the count does not fit the 32-bit length field.
    pub fn serialize(&self) -> (r: Result<Vec<u8>, Error>)
        requires
            table_wf(self@),
        ensures
            match r {
                Ok(bytes) => self@.len() <= u32::MAX && bytes@ == serialize_spec(self@),
                Err(e) => e == Error::Format && self@.len() > u32::MAX,
            },
    {
        if self.entries.len() > u32::MAX as usize {
            return Err(Error::Format);
        }
        let n = self.entries.len();
        let mut out = u32_to_le_bytes(n as u32);
        let mut k: usize = 0;
        proof {
            assert(self@.take(0) =~= Seq::<(u64, Seq<u8>)>::empty());
        }
        while k < n
            invariant
                k <= n,
                n == self@.len(),
                entries_view(self.entries@) == self@,
                table_wf(self@),
                n <= u32::MAX,
                out@ == spec_u32_to_le_bytes(n as u32) + entries_bytes(self@.take(k as int)),
            decreases n - k,
        {
            let e = slice_index_get(self.entries.as_slice(), k);
            proof {
                assert(e@ == self@[k as int]);
            }
            let uid_field = uid_to_bytes(e.uid);
            append_bytes(&mut out, uid_field.as_slice());
            append_bytes(&mut out, e.phrase.as_slice());
            out.push(0);
            proof {
                lemma_entries_bytes_take_succ(self@, k as int);
                assert(out@ =~= spec_u32_to_le_bytes(n as u32) + entries_bytes(self@.take(
                    k as int + 1,
                )));
            }
            k = k + 1;
        }
        proof {
            assert(self@.take(n as int) =~= self@);
        }
        Ok(out)
    }

    /// Look up the phrase stored for `uid` by binary search.
    pub fn find(&self, uid: u64) -> (r: Option<&[u8]>)
        requires
            sorted_uids(self@),
        ensures
            match r {
                Some(p) => spec_find(self@, uid) == Some(p@),
                None => spec_find(self@, uid) is None,
            },
    {
        let s = self.entries.as_slice();
        let mut lo: usize = 0;
        let mut hi: usize = s.len();
        while lo < hi
            invariant
                lo <= hi <= s@.len(),
                entries_view(s@) == self@,
                sorted_uids(self@),
                forall|k: int| 0 <= k < lo ==> (#[trigger] self@[k].0) < uid,
                forall|k: int| hi <= k < self@.len() ==> uid < (#[trigger] self@[k].0),
            decreases hi - lo,
        {
            let mid = lo + (hi - lo) / 2;
            let e = slice_index_get(s, mid);
            proof {
                assert(e@ == self@[mid as int]);
            }
            if e.uid == uid {
                proof {
                    lemma_spec_find_present(self@, uid, mid as int);
                }
                return Some(e.phrase.as_slice());
            } else if e.uid < uid {
                proof {
                    assert(forall|k: int|
                        0 <= k <= mid ==> (#[trigger] self@[k].0) <= self@[mid as int].0);
                }
                lo = mid + 1;
            } else {
                proof {
                    assert(forall|k: int|
                        mid <= k < self@.len() ==> self@[mid as int].0 <= (#[trigger] self@[k].0));
                }
                hi = mid;
            }
        }
        proof {
            lemma_spec_find_absent(self@, uid);
        }
        None
    }
}

/// What a UID query answers, as the front ends report it: a malformed UID,
/// a phrase whose stored bytes are not valid text (table corruption, kept
/// distinct from absence), a miss, or the phrase.
pub enum UidResponse {
    MalformedUid,
    ServerError,
    NotFound,
    Found(String),
}

/// Relies on std's str::from_utf8: it succeeds exactly on valid UTF-8, and
/// the resulting string slice views the input bytes.
#[verifier::external_body]
fn bytes_to_str(bytes: &[u8]) -> (r: Option<&str>)
    ensures
        match r {
            Some(s) => valid_utf8(bytes@) && s.spec_bytes() == bytes@,
            None => !valid_utf8(bytes@),
        },
{
    core::str::from_utf8(bytes).ok()
}

/// Answer a textual UID query against a table: parse the UID, look it up,
/// and decode the stored phrase, classifying every failure.
pub fn respond_uid(table: &Table, uid_text: &str) -> (r: UidResponse)
    requires
        sorted_uids(table@),
    ensures
        match parse_uid_spec(uid_text.spec_bytes()) {
            None => r == UidResponse::MalformedUid,
            Some(u) => match spec_find(table@, u) {
                None => r == UidResponse::NotFound,
                Some(p) => if valid_utf8(p) {
                    (r matches UidResponse::Found(s) && encode_utf8(s@) == p)
                } else {
                    r == UidResponse::ServerError
                },
            },
        },
{
    let uid = match parse_uid(uid_text) {
        None => {
            return UidResponse::MalformedUid;
        },
        Some(u) => u,
    };
    match table.find(uid) {
        None => UidResponse::NotFound,
        Some(p) => match bytes_to_str(p) {
            None => UidResponse::ServerError,
            Some(s) => UidResponse::Found(s.to_owned()),
        },
    }
}

/// `insert_first` on a sorted table with no entry for `uid` places the new
/// entry at the position that keeps the order; with one present it changes
/// nothing.
pub proof fn lemma_insert_first_at(s: Seq<(u64, Seq<u8>)>, uid: u64, phrase: Seq<u8>, p: int)
    requires
        sorted_uids(s),
        0 <= p <= s.len(),
        forall|k: int| 0 <= k < p ==> (#[trigger] s[k].0) < uid,
        forall|k: int| p <= k < s.len() ==> uid < (#[trigger] s[k].0),
    ensures
        insert_first(s, uid, phrase) == s.insert(p, (uid, phrase)),
    decreases s.len(),
{
    if s.len() == 0 {
        assert(insert_first(s, uid, phrase) =~= s.insert(p, (uid, phrase)));
    } else if uid < s[0].0 {
        assert(p == 0);
        assert(insert_first(s, uid, phrase) =~= s.insert(0, (uid, phrase)));
    } else {
        assert(uid > s[0].0);
        assert(p >= 1);
        let rest = s.skip(1);
        assert(forall|k: int| 0 <= k < rest.len() ==> rest[k] == s[k + 1]);
        lemma_insert_first_at(rest, uid, phrase, p - 1);
        assert(insert_first(s, uid, phrase) == seq![s[0]] + rest.insert(p - 1, (uid, phrase)));
        assert(seq![s[0]] + rest.insert(p - 1, (uid, phrase)) =~= s.insert(p, (uid, phrase)));
    }
}

pub proof fn lemma_insert_first_present(s: Seq<(u64, Seq<u8>)>, uid: u64, phrase: Seq<u8>, k: int)
    requires
        sorted_uids(s),
        0 <= k < s.len(),
        s[k].0 == uid,
    ensures
        insert_first(s, uid, phrase) == s,
    decreases s.len(),
{
    if k > 0 {
        assert(s[0].0 < s[k].0);
        let rest = s.skip(1);
        assert(forall|i: int, j: int| 0 <= i < j < rest.len() ==> rest[i].0 < rest[j].0);
        lemma_insert_first_present(rest, uid, phrase, k - 1);
        assert(seq![s[0]] + rest =~= s);
    }
}

proof fn lemma_entries_view_insert(s: Seq<Entry>, p: int, e: Entry)
    requires
        0 <= p <= s.len(),
    ensures
        entries_view(s.insert(p, e)) == entries_view(s).insert(p, e@),
{
    assert(entries_view(s.insert(p, e)) =~= entries_view(s).insert(p, e@));
}

/// Insert a new entry into a sorted entry list, keeping the order; an entry
/// already stored under `uid` wins.
fn insert_entry_first(entries: &mut Vec<Entry>, uid: u64, phrase: Vec<u8>)
    requires
        sorted_uids(entries_view(old(entries)@)),
    ensures
        entries_view(final(entries)@) == insert_first(
            entries_view(old(entries)@),
            uid,
            phrase@,
        ),
        table_wf(entries_view(old(entries)@)) && uid_in_range(uid) && (forall|j: int|
            0 <= j < phrase@.len() ==> phrase@[j] != 0) ==> table_wf(
            entries_view(final(entries)@),
        ),
{
    let ghost s = entries_view(entries@);
    let mut lo: usize = 0;
    let mut hi: usize = entries.len();
    while lo < hi
        invariant
            lo <= hi <= s.len(),
            s == entries_view(entries@),
            sorted_uids(s),
            forall|k: int| 0 <= k < lo ==> (#[trigger] s[k].0) < uid,
            forall|k: int| hi <= k < s.len() ==> uid < (#[trigger] s[k].0),
        decreases hi - lo,
    {
        let mid = lo + (hi - lo) / 2;
        let e = slice_index_get(entries.as_slice(), mid);
        proof {
            assert(e@ == s[mid as int]);
        }
        if e.uid == uid {
            proof {
                lemma_insert_first_present(s, uid, phrase@, mid as int);
            }
            return;
        } else if e.uid < uid {
            proof {
                assert(forall|k: int| 0 <= k <= mid ==> (#[trigger] s[k].0) <= s[mid as int].0);
            }
            lo = mid + 1;
        } else {
            proof {
                assert(forall|k: int|
                    mid <= k < s.len() ==> s[mid as int].0 <= (#[trigger] s[k].0));
            }
            hi = mid;
        }
    }
    proof {
        lemma_insert_first_at(s, uid, phrase@, lo as int);
        lemma_entries_view_insert(entries@, lo as int, Entry { uid, phrase });
        let p = lo as int;
        let s2 = s.insert(p, (uid, phrase@));
        s.insert_ensures(p, (uid, phrase@));
        if table_wf(s) && uid_in_range(uid) && (forall|j: int|
            0 <= j < phrase@.len() ==> phrase@[j] != 0) {
            assert forall|i: int, j: int| 0 <= i < j < s2.len() implies s2[i].0 < s2[j].0 by {
                if i > p {
                    assert(s.insert(p, (uid, phrase@))[(i - 1) + 1] == s[i - 1]);
                }
                if j > p {
                    assert(s.insert(p, (uid, phrase@))[(j - 1) + 1] == s[j - 1]);
                }
            }
            assert forall|i: int| 0 <= i < s2.len() implies uid_in_range(#[trigger] s2[i].0) by {
                if i > p {
                    assert(s.insert(p, (uid, phrase@))[(i - 1) + 1] == s[i - 1]);
                }
            }
            assert forall|i: int, j: int|
                0 <= i < s2.len() && 0 <= j < s2[i].1.len() implies s2[i].1[j] != 0 by {
                if i > p {
                    assert(s.insert(p, (uid, phrase@))[(i - 1) + 1] == s[i - 1]);
                }
            }
        }
    }
    let e = Entry { uid, phrase };
    entries.insert(lo, e);
}

/// Appending the serialization of one more entry extends the serialization
/// of a prefix.
proof fn lemma_entries_bytes_take_succ(s: Seq<(u64, Seq<u8>)>, k: int)
    requires
        0 <= k < s.len(),
    ensures
        entries_bytes(s.take(k + 1)) == entries_bytes(s.take(k)) + entry_bytes(s[k]),
    decreases k,
{
    let a = s.take(k + 1);
    let b = s.take(k);
    if k == 0 {
        assert(a.skip(1) =~= Seq::<(u64, Seq<u8>)>::empty());
        assert(entries_bytes(a) == entry_bytes(a[0]) + entries_bytes(a.skip(1)));
        assert(entry_bytes(s[0]) + Seq::<u8>::empty() =~= entry_bytes(s[0]));
        assert(entries_bytes(b) + entry_bytes(s[0]) =~= entry_bytes(s[0]));
    } else {
        let t = s.skip(1);
        lemma_entries_bytes_take_succ(t, k - 1);
        assert(a.skip(1) =~= t.take(k));
        assert(b.skip(1) =~= t.take(k - 1));
        assert(a[0] == s[0] && b[0] == s[0]);
        assert(entries_bytes(a) == entry_bytes(s[0]) + entries_bytes(t.take(k)));
        assert(entries_bytes(b) == entry_bytes(s[0]) + entries_bytes(t.take(k - 1)));
        assert(t[k - 1] == s[k]);
        assert(entry_bytes(s[0]) + (entries_bytes(t.take(k - 1)) + entry_bytes(s[k])) =~= (
        entry_bytes(s[0]) + entries_bytes(t.take(k - 1))) + entry_bytes(s[k]));
    }
}

proof fn lemma_entries_view_push(s: Seq<Entry>, e: Entry)
    ensures
        entries_view(s.push(e)) == entries_view(s).push(e@),
{
    assert(entries_view(s.push(e)) =~= entries_view(s).push(e@));
}

} // verus!
