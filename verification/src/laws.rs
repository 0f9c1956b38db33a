//! The laws of the table: serialization round-trips, parsed round-trips are
//! sorted, a built table answers lookups for every corpus word, misses every
//! foreign UID, and is a deterministic function of the corpus.

use vstd::prelude::*;
use vstd::bytes::lemma_auto_spec_u32_to_from_le_bytes;
use crate::byteseq::{first_pos, lemma_first_pos_is, split_on, strip_cr};
use crate::hashing::hash6;
use crate::table::{
    build_acc, build_spec, entries_bytes, entry_bytes, insert_first, parse_entries,
    serialize_spec, sorted_uids, spec_find, table_wf,
};
use crate::uid::{lemma_uid_of_bytes_of_uid_bytes, uid_bytes, uid_in_range};

verus! {

/// Decoding starts again right behind each encoded entry, so a buffer whose
/// tail is exactly the encoding of `s` decodes to `s`.
proof fn lemma_parse_encoded(file: Seq<u8>, i: int, s: Seq<(u64, Seq<u8>)>)
    requires
        0 <= i <= file.len(),
        file.skip(i) == entries_bytes(s),
        forall|k: int| 0 <= k < s.len() ==> uid_in_range(#[trigger] s[k].0),
        forall|k: int, j: int| 0 <= k < s.len() && 0 <= j < s[k].1.len() ==> s[k].1[j] != 0,
    ensures
        parse_entries(file, i) == s,
    decreases s.len(),
{
    if s.len() == 0 {
        assert(file.skip(i).len() == 0);
        assert(parse_entries(file, i) =~= s);
    } else {
        let e = s[0];
        let rest = s.skip(1);
        let plen = e.1.len() as int;
        assert(entries_bytes(s) == entry_bytes(e) + entries_bytes(rest));
        assert(entry_bytes(e).len() == 7 + plen);
        assert(forall|j: int| 0 <= j < file.len() - i ==> file.skip(i)[j] == file[i + j]);
        assert(i + 7 <= file.len());
        // The 6 UID bytes decode back to the entry's UID.
        assert(file.subrange(i, i + 6) =~= uid_bytes(e.0));
        lemma_uid_of_bytes_of_uid_bytes(e.0);
        // The zero scan stops exactly at the entry's terminator.
        assert forall|j: int| i + 6 <= j < i + 6 + plen implies file[j] != 0 by {
            assert(file.skip(i)[j - i] == file[j]);
            assert(entries_bytes(s)[j - i] == entry_bytes(e)[j - i]);
            assert(entry_bytes(e)[j - i] == e.1[j - i - 6]);
        }
        assert(file.skip(i)[6 + plen] == file[i + 6 + plen]);
        assert(entries_bytes(s)[6 + plen] == entry_bytes(e)[6 + plen]);
        assert(entry_bytes(e)[6 + plen] == 0);
        lemma_first_pos_is(file, 0, i + 6, i + 6 + plen);
        let z = first_pos(file, 0, i + 6);
        assert(z == i + 6 + plen);
        assert forall|m: int| 0 <= m < plen implies file.subrange(i + 6, z)[m] == e.1[m] by {
            assert(file.skip(i)[6 + m] == file[i + 6 + m]);
            assert(entries_bytes(s)[6 + m] == entry_bytes(e)[6 + m]);
            assert(entry_bytes(e)[6 + m] == e.1[m]);
        }
        assert(file.subrange(i + 6, z) =~= e.1);
        // The rest of the buffer is exactly the encoding of the rest.
        assert forall|m: int| 0 <= m < file.len() - z - 1 implies file.skip(z + 1)[m]
            == entries_bytes(rest)[m] by {
            assert(file.skip(z + 1)[m] == file[z + 1 + m]);
            assert(file.skip(i)[7 + plen + m] == file[i + 7 + plen + m]);
            assert(entries_bytes(s)[7 + plen + m] == entries_bytes(rest)[m]);
        }
        assert(file.skip(z + 1) =~= entries_bytes(rest));
        assert(forall|k: int| 0 <= k < rest.len() ==> rest[k] == s[k + 1]);
        lemma_parse_encoded(file, z + 1, rest);
        assert(parse_entries(file, i) == seq![(e.0, e.1)] + rest);
        assert(seq![(e.0, e.1)] + rest =~= s);
    }
}

/// Round-trip: parsing the serialized form of a well-formed table yields
/// exactly its entries, so every lookup answers as it did before
/// serialization.
pub proof fn lemma_serialize_parse_round_trip(s: Seq<(u64, Seq<u8>)>)
    requires
        table_wf(s),
    ensures
        parse_entries(serialize_spec(s), 4) == s,
{
    lemma_auto_spec_u32_to_from_le_bytes();
    let file = serialize_spec(s);
    assert(file.skip(4) =~= entries_bytes(s));
    lemma_parse_encoded(file, 4, s);
}

/// Sortedness survives the round-trip: the entries parsed back from a
/// well-formed table's serialized form are in strictly ascending UID order.
pub proof fn lemma_parsed_round_trip_sorted(s: Seq<(u64, Seq<u8>)>)
    requires
        table_wf(s),
    ensures
        sorted_uids(parse_entries(serialize_spec(s), 4)),
{
    lemma_serialize_parse_round_trip(s);
}

/// The phrase that the word list stores for `uid`: the first word (after
/// stripping its carriage return) whose hash is `uid`.
pub open spec fn first_match(ws: Seq<Seq<u8>>, uid: u64) -> Option<Seq<u8>>
    decreases ws.len(),
{
    if ws.len() == 0 {
        None
    } else if hash6(strip_cr(ws[0])) == uid {
        Some(strip_cr(ws[0]))
    } else {
        first_match(ws.skip(1), uid)
    }
}

/// Inserting into a sorted table keeps it sorted.
proof fn lemma_insert_first_sorted(s: Seq<(u64, Seq<u8>)>, uid: u64, phrase: Seq<u8>)
    requires
        sorted_uids(s),
    ensures
        sorted_uids(insert_first(s, uid, phrase)),
    decreases s.len(),
{
    let r = insert_first(s, uid, phrase);
    if s.len() == 0 {
    } else if uid < s[0].0 {
        assert(forall|j: int| 0 <= j < s.len() ==> uid < (#[trigger] s[j].0));
        assert(forall|j: int| 1 <= j < r.len() ==> r[j] == s[j - 1]);
    } else if uid == s[0].0 {
    } else {
        let rest = s.skip(1);
        assert(forall|k: int| 0 <= k < rest.len() ==> rest[k] == s[k + 1]);
        lemma_insert_first_sorted(rest, uid, phrase);
        lemma_insert_first_lower(rest, uid, phrase, s[0].0);
        assert(forall|j: int| 1 <= j < r.len() ==> r[j] == insert_first(rest, uid, phrase)[j - 1]);
    }
}

/// Inserting an element above a bound into a table whose UIDs are all above
/// that bound leaves every UID above it.
proof fn lemma_insert_first_lower(s: Seq<(u64, Seq<u8>)>, uid: u64, phrase: Seq<u8>, b: u64)
    requires
        forall|k: int| 0 <= k < s.len() ==> b < (#[trigger] s[k].0),
        b < uid,
    ensures
        forall|m: int|
            0 <= m < insert_first(s, uid, phrase).len() ==> b < (#[trigger] insert_first(
                s,
                uid,
                phrase,
            )[m].0),
    decreases s.len(),
{
    let r = insert_first(s, uid, phrase);
    if s.len() == 0 {
    } else if uid < s[0].0 {
        assert(forall|j: int| 1 <= j < r.len() ==> r[j] == s[j - 1]);
    } else if uid == s[0].0 {
    } else {
        let rest = s.skip(1);
        assert(forall|k: int| 0 <= k < rest.len() ==> rest[k] == s[k + 1]);
        lemma_insert_first_lower(rest, uid, phrase, b);
        assert(forall|j: int| 1 <= j < r.len() ==> r[j] == insert_first(rest, uid, phrase)[j - 1]);
    }
}

/// What `spec_find` answers after one insertion: the new phrase exactly for
/// the new UID when it was absent, and the old answer otherwise.
proof fn lemma_insert_first_find(s: Seq<(u64, Seq<u8>)>, uid: u64, phrase: Seq<u8>, x: u64)
    requires
        sorted_uids(s),
    ensures
        spec_find(insert_first(s, uid, phrase), x) == (if x == uid && spec_find(s, uid) is None {
            Some(phrase)
        } else {
            spec_find(s, x)
        }),
    decreases s.len(),
{
    let r = insert_first(s, uid, phrase);
    if s.len() == 0 {
        assert(r.skip(1) =~= s);
        assert(spec_find(s, x) is None);
    } else if uid < s[0].0 {
        assert(forall|j: int| 0 <= j < s.len() ==> uid < (#[trigger] s[j].0));
        crate::table::lemma_spec_find_absent(s, uid);
        assert(r[0] == (uid, phrase));
        assert(r.skip(1) =~= s);
    } else if uid == s[0].0 {
        assert(spec_find(s, uid) == Some(s[0].1));
    } else {
        let rest = s.skip(1);
        assert(forall|i: int, j: int| 0 <= i < j < rest.len() ==> rest[i].0 < rest[j].0);
        lemma_insert_first_find(rest, uid, phrase, x);
        assert(r[0] == s[0]);
        assert(r.skip(1) =~= insert_first(rest, uid, phrase));
        if x == s[0].0 {
            assert(spec_find(r, x) == Some(s[0].1));
            assert(spec_find(s, x) == Some(s[0].1));
        } else {
            assert(spec_find(r, x) == spec_find(insert_first(rest, uid, phrase), x));
            assert(spec_find(s, x) == spec_find(rest, x));
            assert(spec_find(s, uid) == spec_find(rest, uid));
        }
    }
}

/// What `spec_find` answers on a built table: the answer already in the
/// accumulator, or else the first matching word.
proof fn lemma_build_acc_find(ws: Seq<Seq<u8>>, acc: Seq<(u64, Seq<u8>)>, x: u64)
    requires
        sorted_uids(acc),
    ensures
        spec_find(build_acc(ws, acc), x) == (if spec_find(acc, x) is Some {
            spec_find(acc, x)
        } else {
            first_match(ws, x)
        }),
    decreases ws.len(),
{
    if ws.len() > 0 {
        let w = strip_cr(ws[0]);
        let h = hash6(w);
        let acc2 = insert_first(acc, h, w);
        lemma_insert_first_sorted(acc, h, w);
        lemma_build_acc_find(ws.skip(1), acc2, x);
        lemma_insert_first_find(acc, h, w, x);
    }
}

proof fn lemma_first_match_found(ws: Seq<Seq<u8>>, i: int)
    requires
        0 <= i < ws.len(),
    ensures
        first_match(ws, hash6(strip_cr(ws[i]))) is Some,
    decreases ws.len(),
{
    let x = hash6(strip_cr(ws[i]));
    if hash6(strip_cr(ws[0])) != x {
        assert(forall|k: int| 0 <= k < ws.skip(1).len() ==> ws.skip(1)[k] == ws[k + 1]);
        lemma_first_match_found(ws.skip(1), i - 1);
    }
}

proof fn lemma_first_match_is_some_word(ws: Seq<Seq<u8>>, x: u64)
    requires
        first_match(ws, x) is Some,
    ensures
        exists|j: int|
            0 <= j < ws.len() && first_match(ws, x) == Some(strip_cr(ws[j])) && hash6(
                strip_cr(#[trigger] ws[j]),
            ) == x,
    decreases ws.len(),
{
    if hash6(strip_cr(ws[0])) == x {
        assert(0 <= 0 < ws.len() && first_match(ws, x) == Some(strip_cr(ws[0])) && hash6(
            strip_cr(ws[0]),
        ) == x);
    } else {
        assert(forall|k: int| 0 <= k < ws.skip(1).len() ==> ws.skip(1)[k] == ws[k + 1]);
        lemma_first_match_is_some_word(ws.skip(1), x);
        let j = choose|j: int|
            0 <= j < ws.skip(1).len() && first_match(ws.skip(1), x) == Some(
                strip_cr(ws.skip(1)[j]),
            ) && hash6(strip_cr(#[trigger] ws.skip(1)[j])) == x;
        assert(0 <= j + 1 < ws.len() && first_match(ws, x) == Some(strip_cr(ws[j + 1])) && hash6(
            strip_cr(ws[j + 1]),
        ) == x);
    }
}

proof fn lemma_first_match_absent(ws: Seq<Seq<u8>>, x: u64)
    requires
        forall|j: int| 0 <= j < ws.len() ==> hash6(strip_cr(#[trigger] ws[j])) != x,
    ensures
        first_match(ws, x) is None,
    decreases ws.len(),
{
    if ws.len() > 0 {
        assert(forall|k: int| 0 <= k < ws.skip(1).len() ==> ws.skip(1)[k] == ws[k + 1]);
        lemma_first_match_absent(ws.skip(1), x);
    }
}

/// Lookup correctness, collision or not: hashing any word of the corpus and
/// looking the hash up yields a phrase, and that phrase is a corpus word
/// with the same hash — exactly one winner, never none.
pub proof fn lemma_find_built_phrase(corpus: Seq<u8>, i: int)
    requires
        0 <= i < split_on(corpus, 10).len(),
    ensures
        ({
            let ws = split_on(corpus, 10);
            let x = hash6(strip_cr(ws[i]));
            spec_find(build_spec(corpus), x) is Some && exists|j: int|
                0 <= j < ws.len() && spec_find(build_spec(corpus), x) == Some(
                    strip_cr(#[trigger] ws[j]),
                ) && hash6(strip_cr(ws[j])) == x
        }),
{
    let ws = split_on(corpus, 10);
    let x = hash6(strip_cr(ws[i]));
    lemma_build_acc_find(ws, Seq::empty(), x);
    assert(spec_find(Seq::<(u64, Seq<u8>)>::empty(), x) is None);
    lemma_first_match_found(ws, i);
    lemma_first_match_is_some_word(ws, x);
}

/// Lookup correctness without collision: when no other word of the corpus
/// shares the hash, the looked-up phrase is the word itself.
pub proof fn lemma_find_collision_free(corpus: Seq<u8>, i: int)
    requires
        0 <= i < split_on(corpus, 10).len(),
        forall|j: int|
            0 <= j < split_on(corpus, 10).len() && hash6(
                strip_cr(#[trigger] split_on(corpus, 10)[j]),
            ) == hash6(strip_cr(split_on(corpus, 10)[i])) ==> strip_cr(split_on(corpus, 10)[j])
                == strip_cr(split_on(corpus, 10)[i]),
    ensures
        spec_find(build_spec(corpus), hash6(strip_cr(split_on(corpus, 10)[i]))) == Some(
            strip_cr(split_on(corpus, 10)[i]),
        ),
{
    lemma_find_built_phrase(corpus, i);
}

/// Absence: a UID that no corpus word hashes to is not found.
pub proof fn lemma_find_absent_uid(corpus: Seq<u8>, uid: u64)
    requires
        forall|j: int|
            0 <= j < split_on(corpus, 10).len() ==> hash6(
                strip_cr(#[trigger] split_on(corpus, 10)[j]),
            ) != uid,
    ensures
        spec_find(build_spec(corpus), uid) is None,
{
    let ws = split_on(corpus, 10);
    lemma_build_acc_find(ws, Seq::empty(), uid);
    assert(spec_find(Seq::<(u64, Seq<u8>)>::empty(), uid) is None);
    lemma_first_match_absent(ws, uid);
}

/// Idempotence: the built table and its serialized bytes are functions of
/// the corpus alone, so two builds from the same corpus serialize to
/// byte-identical artifacts.
pub proof fn lemma_build_deterministic(
    corpus: Seq<u8>,
    t1: Seq<(u64, Seq<u8>)>,
    t2: Seq<(u64, Seq<u8>)>,
)
    requires
        t1 == build_spec(corpus),
        t2 == build_spec(corpus),
    ensures
        t1 == t2,
        serialize_spec(t1) == serialize_spec(t2),
{
}

} // verus!
