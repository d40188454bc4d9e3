//! Determinism of the bencode grammar: the bytes of a well-formed token
//! determine its parse. Two parsed nodes whose recorded windows hold the
//! same bytes denote the same value, so the raw info-dictionary bytes —
//! and every field extracted from them — are stable regardless of where
//! the surrounding dictionary's other fields placed the info entry.
use crate::torrent::{
    bv_wf, bytes_token_wf, dict_find, entries_chain, entry_key_from, int_body_wf, items_chain,
    lookup_bytes, lookup_int, BValue, Bencode,
};
use crate::torrent::{files_ok, key_files, key_length, key_path, spec_files};
use vstd::prelude::*;

verus! {

/// The two nodes denote the same parsed value, with every recorded byte
/// range displaced by `d`.
pub open spec fn bv_shifted(v1: BValue, v2: BValue, d: int) -> bool
    decreases v1,
{
    &&& v2.start == v1.start + d
    &&& v2.end == v1.end + d
    &&& match (v1.value, v2.value) {
        (Bencode::Int(a), Bencode::Int(b)) => a == b,
        (Bencode::Bytes(a), Bencode::Bytes(b)) => a@ == b@,
        (Bencode::List(x), Bencode::List(y)) => x@.len() == y@.len() && (forall|j: int|
            0 <= j < x@.len() ==> bv_shifted(#[trigger] x@[j], y@[j], d)),
        (Bencode::Dict(x), Bencode::Dict(y)) => x@.len() == y@.len() && (forall|j: int|
            0 <= j < x@.len() ==> (#[trigger] x@[j]).0@ == y@[j].0@ && bv_shifted(
                x@[j].1,
                y@[j].1,
                d,
            )),
        _ => false,
    }
}

/// The two byte windows agree as far as both reach.
pub open spec fn windows_agree(
    in1: Seq<u8>,
    s1: int,
    e1: int,
    in2: Seq<u8>,
    s2: int,
    e2: int,
) -> bool {
    forall|k: int|
        #![trigger in1[s1 + k], in2[s2 + k]]
        0 <= k && s1 + k < e1 && s2 + k < e2 ==> in1[s1 + k] == in2[s2 + k]
}

/// The first byte of a well-formed node names its kind: `i` for an
/// integer, a decimal digit for a byte string, `l` for a list, `d` for a
/// dictionary.
pub(crate) proof fn lemma_first_byte(v: BValue, input: Seq<u8>)
    requires
        bv_wf(v, input),
    ensures
        match v.value {
            Bencode::Int(_) => input[v.start as int] == 0x69,
            Bencode::Bytes(_) => 0x30 <= input[v.start as int] <= 0x39,
            Bencode::List(_) => input[v.start as int] == 0x6c,
            Bencode::Dict(_) => input[v.start as int] == 0x64,
        },
{
    match v.value {
        Bencode::Bytes(b) => {
            let colon = v.end - b@.len() - 1;
            assert(input.subrange(v.start as int, colon)[0] == input[v.start as int]);
        },
        _ => {},
    }
}

/// Two byte-string tokens whose windows agree have the same length and
/// hold the same content.
pub(crate) proof fn lemma_bytes_token_det(
    in1: Seq<u8>,
    f1: int,
    t1: int,
    c1: Seq<u8>,
    in2: Seq<u8>,
    f2: int,
    t2: int,
    c2: Seq<u8>,
)
    requires
        bytes_token_wf(in1, f1, t1, c1),
        bytes_token_wf(in2, f2, t2, c2),
        windows_agree(in1, f1, t1, in2, f2, t2),
    ensures
        t1 - f1 == t2 - f2,
        c1 == c2,
{
    let col1 = t1 - c1.len() - 1;
    let col2 = t2 - c2.len() - 1;
    let r1 = col1 - f1;
    let r2 = col2 - f2;
    if r1 < r2 {
        assert(in2.subrange(f2, col2)[r1] == in2[f2 + r1]);
        assert(0x30 <= in2[f2 + r1] <= 0x39);
        assert(in1[f1 + r1] == in2[f2 + r1]);
        assert(false);
    }
    if r2 < r1 {
        assert(in1.subrange(f1, col1)[r2] == in1[f1 + r2]);
        assert(0x30 <= in1[f1 + r2] <= 0x39);
        assert(in1[f1 + r2] == in2[f2 + r2]);
        assert(false);
    }
    assert forall|k: int| 0 <= k < r1 implies in1.subrange(f1, col1)[k] == in2.subrange(
        f2,
        col2,
    )[k] by {
        assert(in1[f1 + k] == in2[f2 + k]);
    }
    assert(in1.subrange(f1, col1) =~= in2.subrange(f2, col2));
    assert(c1.len() == c2.len());
    assert forall|k: int| 0 <= k < c1.len() implies c1[k] == c2[k] by {
        let k2 = r1 + 1 + k;
        assert(c1[k] == in1.subrange(col1 + 1, t1)[k]);
        assert(c1[k] == in1[f1 + k2]);
        assert(c2[k] == in2[f2 + k2]);
        assert(in1[f1 + k2] == in2[f2 + k2]);
    }
    assert(c1 =~= c2);
}

/// Two integer-token bodies whose windows agree have the same length and
/// denote the same integer.
proof fn lemma_int_body_det(
    in1: Seq<u8>,
    f1: int,
    t1: int,
    n1: i64,
    in2: Seq<u8>,
    f2: int,
    t2: int,
    n2: i64,
)
    requires
        int_body_wf(in1, f1, t1, n1),
        int_body_wf(in2, f2, t2, n2),
        windows_agree(in1, f1, t1, in2, f2, t2),
    ensures
        t1 - f1 == t2 - f2,
        n1 == n2,
{
    let len1 = t1 - f1;
    let len2 = t2 - f2;
    let b1 = in1.subrange(f1, t1 - 1);
    let b2 = in2.subrange(f2, t2 - 1);
    if len1 < len2 {
        let k = len1 - 1;
        assert(in1[f1 + k] == 0x65);
        assert(b2[k] == in2[f2 + k]);
        if b2.len() > 0 && b2[0] == 0x2d {
            assert(b2.skip(1)[k - 1] == b2[k]);
            assert(0x30 <= b2[k] <= 0x39);
        } else {
            assert(0x30 <= b2[k] <= 0x39);
        }
        assert(in1[f1 + k] == in2[f2 + k]);
        assert(false);
    }
    if len2 < len1 {
        let k = len2 - 1;
        assert(in2[f2 + k] == 0x65);
        assert(b1[k] == in1[f1 + k]);
        if b1.len() > 0 && b1[0] == 0x2d {
            assert(b1.skip(1)[k - 1] == b1[k]);
            assert(0x30 <= b1[k] <= 0x39);
        } else {
            assert(0x30 <= b1[k] <= 0x39);
        }
        assert(in1[f1 + k] == in2[f2 + k]);
        assert(false);
    }
    assert forall|k: int| 0 <= k < b1.len() implies b1[k] == b2[k] by {
        assert(b1[k] == in1[f1 + k]);
        assert(b2[k] == in2[f2 + k]);
        assert(in1[f1 + k] == in2[f2 + k]);
    }
    assert(b1 =~= b2);
    if b1.len() > 0 && b1[0] == 0x2d {
        assert(b1.skip(1) =~= b2.skip(1));
    }
}

/// Where the token of item `j` starts: at the open of the run for the
/// first item, else where the previous item ended.
pub open spec fn items_pos(items: Seq<BValue>, from: int, j: int) -> int {
    if j <= 0 {
        from
    } else {
        items[j - 1].end as int
    }
}

/// Item `j` of a chained run starts exactly where the walk stands after
/// `j` items.
pub(crate) proof fn lemma_chain_start(items: Seq<BValue>, from: int, to: int, j: int)
    requires
        items_chain(items, from, to),
        0 <= j < items.len(),
    ensures
        items[j].start == items_pos(items, from, j),
{
    if j > 0 {
        assert(items[j - 1].end == items[j].start);
    }
}

/// The walk over a chained run never moves left of its opening position.
proof fn lemma_chain_lower(items: Seq<BValue>, input: Seq<u8>, from: int, to: int, j: int)
    requires
        items_chain(items, from, to),
        forall|x: int| 0 <= x < items.len() ==> bv_wf(#[trigger] items[x], input),
        0 <= j <= items.len(),
    ensures
        from <= items_pos(items, from, j),
    decreases j,
{
    if j > 0 {
        lemma_chain_lower(items, input, from, to, j - 1);
        lemma_chain_start(items, from, to, j - 1);
        assert(bv_wf(items[j - 1], input));
    }
}

/// The walk over a chained run never moves past its closing position.
pub(crate) proof fn lemma_chain_upper(items: Seq<BValue>, input: Seq<u8>, from: int, to: int, j: int)
    requires
        items_chain(items, from, to),
        forall|x: int| 0 <= x < items.len() ==> bv_wf(#[trigger] items[x], input),
        0 <= j <= items.len(),
    ensures
        items_pos(items, from, j) <= to,
        j < items.len() ==> items[j].end <= to,
        j == items.len() ==> items_pos(items, from, j) == to,
    decreases items.len() - j,
{
    if j < items.len() {
        lemma_chain_start(items, from, to, j);
        assert(bv_wf(items[j], input));
        lemma_chain_upper(items, input, from, to, j + 1);
        assert(items_pos(items, from, j + 1) == items[j].end);
    } else {
        if items.len() > 0 {
            assert(items_pos(items, from, j) == items[items.len() - 1].end);
        }
    }
}

/// Chained items walk monotonically from `from` to `to`, and item `j`
/// starts exactly where the walk stands after `j` items.
proof fn lemma_chain_pos(items: Seq<BValue>, input: Seq<u8>, from: int, to: int, j: int)
    requires
        items_chain(items, from, to),
        forall|x: int| 0 <= x < items.len() ==> bv_wf(#[trigger] items[x], input),
        0 <= j <= items.len(),
    ensures
        from <= items_pos(items, from, j) <= to,
        j < items.len() ==> items[j].start == items_pos(items, from, j) && items[j].end <= to,
        j == items.len() ==> items_pos(items, from, j) == to,
{
    lemma_chain_lower(items, input, from, to, j);
    lemma_chain_upper(items, input, from, to, j);
    if j < items.len() {
        lemma_chain_start(items, from, to, j);
    }
}

/// Dictionary entry `j`'s key token starts exactly where the walk over
/// key and value tokens stands after `j` entries.
proof fn lemma_entries_key_start(
    entries: Seq<(Vec<u8>, BValue)>,
    input: Seq<u8>,
    from: int,
    to: int,
    j: int,
)
    requires
        entries_chain(entries, input, from, to),
        0 <= j < entries.len(),
    ensures
        bytes_token_wf(
            input,
            entry_key_from(entries, j, from),
            entries[j].1.start as int,
            entries[j].0@,
        ),
{
    assert(bytes_token_wf(
        input,
        entry_key_from(entries, j, from),
        entries[j].1.start as int,
        entries[j].0@,
    ));
}

/// The walk over chained dictionary entries never moves left of its
/// opening position.
proof fn lemma_entries_lower(
    entries: Seq<(Vec<u8>, BValue)>,
    input: Seq<u8>,
    from: int,
    to: int,
    j: int,
)
    requires
        entries_chain(entries, input, from, to),
        forall|x: int| 0 <= x < entries.len() ==> bv_wf((#[trigger] entries[x]).1, input),
        0 <= j <= entries.len(),
    ensures
        from <= entry_key_from(entries, j, from),
    decreases j,
{
    if j > 0 {
        lemma_entries_lower(entries, input, from, to, j - 1);
        lemma_entries_key_start(entries, input, from, to, j - 1);
        assert(bv_wf(entries[j - 1].1, input));
        assert(entry_key_from(entries, j, from) == entries[j - 1].1.end);
    }
}

/// The walk over chained dictionary entries never moves past its closing
/// position.
pub(crate) proof fn lemma_entries_upper(
    entries: Seq<(Vec<u8>, BValue)>,
    input: Seq<u8>,
    from: int,
    to: int,
    j: int,
)
    requires
        entries_chain(entries, input, from, to),
        forall|x: int| 0 <= x < entries.len() ==> bv_wf((#[trigger] entries[x]).1, input),
        0 <= j <= entries.len(),
    ensures
        entry_key_from(entries, j, from) <= to,
        j < entries.len() ==> entries[j].1.end <= to,
        j == entries.len() ==> entry_key_from(entries, j, from) == to,
    decreases entries.len() - j,
{
    if j < entries.len() {
        lemma_entries_key_start(entries, input, from, to, j);
        assert(bv_wf(entries[j].1, input));
        lemma_entries_upper(entries, input, from, to, j + 1);
        assert(entry_key_from(entries, j + 1, from) == entries[j].1.end);
    } else {
        if entries.len() > 0 {
            assert(entry_key_from(entries, j, from) == entries[entries.len() - 1].1.end);
        }
    }
}

/// Chained dictionary entries walk monotonically from `from` to `to`,
/// with entry `j`'s key token starting where the walk stands after `j`
/// entries.
proof fn lemma_entries_pos(
    entries: Seq<(Vec<u8>, BValue)>,
    input: Seq<u8>,
    from: int,
    to: int,
    j: int,
)
    requires
        entries_chain(entries, input, from, to),
        forall|x: int| 0 <= x < entries.len() ==> bv_wf((#[trigger] entries[x]).1, input),
        0 <= j <= entries.len(),
    ensures
        from <= entry_key_from(entries, j, from) <= to,
        j < entries.len() ==> entry_key_from(entries, j, from) < entries[j].1.start
            && entries[j].1.end <= to,
        j == entries.len() ==> entry_key_from(entries, j, from) == to,
{
    lemma_entries_lower(entries, input, from, to, j);
    lemma_entries_upper(entries, input, from, to, j);
    if j < entries.len() {
        lemma_entries_key_start(entries, input, from, to, j);
        assert(bv_wf(entries[j].1, input));
    }
}

/// Determinism of the grammar: two well-formed parses whose windows hold
/// the same bytes have equal window lengths and denote the same value.
#[verifier::spinoff_prover]
#[verifier::rlimit(100)]
pub proof fn lemma_bv_deterministic(v1: BValue, in1: Seq<u8>, v2: BValue, in2: Seq<u8>)
    requires
        bv_wf(v1, in1),
        bv_wf(v2, in2),
        windows_agree(in1, v1.start as int, v1.end as int, in2, v2.start as int, v2.end as int),
    ensures
        v1.end - v1.start == v2.end - v2.start,
        bv_shifted(v1, v2, v2.start - v1.start),
    decreases v1.end - v1.start, 0int, 0int,
{
    let s1 = v1.start as int;
    let e1 = v1.end as int;
    let s2 = v2.start as int;
    let e2 = v2.end as int;
    lemma_first_byte(v1, in1);
    lemma_first_byte(v2, in2);
    assert(in1[s1 + 0] == in2[s2 + 0]);
    match v1.value {
        Bencode::Int(n1) => {
            match v2.value {
                Bencode::Int(n2) => {
                    assert forall|k: int|
                        #![trigger in1[s1 + 1 + k], in2[s2 + 1 + k]]
                        0 <= k && s1 + 1 + k < e1 && s2 + 1 + k < e2 implies in1[s1 + 1 + k]
                        == in2[s2 + 1 + k] by {
                        assert(in1[s1 + (k + 1)] == in2[s2 + (k + 1)]);
                    }
                    lemma_int_body_det(in1, s1 + 1, e1, n1, in2, s2 + 1, e2, n2);
                },
                _ => {
                    assert(false);
                },
            }
        },
        Bencode::Bytes(b1) => {
            match v2.value {
                Bencode::Bytes(b2) => {
                    lemma_bytes_token_det(in1, s1, e1, b1@, in2, s2, e2, b2@);
                },
                _ => {
                    assert(false);
                },
            }
        },
        Bencode::List(items1) => {
            match v2.value {
                Bencode::List(items2) => {
                    assert forall|k: int|
                        #![trigger in1[s1 + 1 + k], in2[s2 + 1 + k]]
                        0 <= k && s1 + 1 + k < e1 && s2 + 1 + k < e2 implies in1[s1 + 1 + k]
                        == in2[s2 + 1 + k] by {
                        assert(in1[s1 + (k + 1)] == in2[s2 + (k + 1)]);
                    }
                    assert(windows_agree(in1, s1 + 1, e1, in2, s2 + 1, e2));
                    lemma_items_det(
                        items1@,
                        in1,
                        s1 + 1,
                        e1 - 1,
                        items2@,
                        in2,
                        s2 + 1,
                        e2 - 1,
                        0,
                    );
                },
                _ => {
                    assert(false);
                },
            }
        },
        Bencode::Dict(entries1) => {
            match v2.value {
                Bencode::Dict(entries2) => {
                    assert forall|k: int|
                        #![trigger in1[s1 + 1 + k], in2[s2 + 1 + k]]
                        0 <= k && s1 + 1 + k < e1 && s2 + 1 + k < e2 implies in1[s1 + 1 + k]
                        == in2[s2 + 1 + k] by {
                        assert(in1[s1 + (k + 1)] == in2[s2 + (k + 1)]);
                    }
                    assert(windows_agree(in1, s1 + 1, e1, in2, s2 + 1, e2));
                    lemma_entries_det(
                        entries1@,
                        in1,
                        s1 + 1,
                        e1 - 1,
                        entries2@,
                        in2,
                        s2 + 1,
                        e2 - 1,
                        0,
                    );
                },
                _ => {
                    assert(false);
                },
            }
        },
    }
}

/// Lockstep determinism for list items: chained item runs over agreeing
/// windows, aligned after `j` items, close at the same relative position
/// with pairwise-identical items.
#[verifier::spinoff_prover]
#[verifier::rlimit(100)]
proof fn lemma_items_det(
    items1: Seq<BValue>,
    in1: Seq<u8>,
    from1: int,
    to1: int,
    items2: Seq<BValue>,
    in2: Seq<u8>,
    from2: int,
    to2: int,
    j: int,
)
    requires
        items_chain(items1, from1, to1),
        items_chain(items2, from2, to2),
        forall|x: int| 0 <= x < items1.len() ==> bv_wf(#[trigger] items1[x], in1),
        forall|x: int| 0 <= x < items2.len() ==> bv_wf(#[trigger] items2[x], in2),
        0 <= from1 <= to1 < in1.len(),
        0 <= from2 <= to2 < in2.len(),
        in1[to1] == 0x65,
        in2[to2] == 0x65,
        windows_agree(in1, from1, to1 + 1, in2, from2, to2 + 1),
        0 <= j <= items1.len(),
        0 <= j <= items2.len(),
        items_pos(items1, from1, j) - from1 == items_pos(items2, from2, j) - from2,
        forall|x: int| 0 <= x < j ==> bv_shifted(#[trigger] items1[x], items2[x], from2 - from1),
    ensures
        items1.len() == items2.len(),
        to1 - from1 == to2 - from2,
        forall|x: int|
            0 <= x < items1.len() ==> bv_shifted(#[trigger] items1[x], items2[x], from2 - from1),
    decreases to1 - from1, 1int, items1.len() - j,
{
    let d = from2 - from1;
    let p1 = items_pos(items1, from1, j);
    let p2 = items_pos(items2, from2, j);
    lemma_chain_pos(items1, in1, from1, to1, j);
    lemma_chain_pos(items2, in2, from2, to2, j);
    if j == items1.len() && j == items2.len() {
        assert(p1 == to1 && p2 == to2);
    } else if j < items1.len() && j == items2.len() {
        let c1 = items1[j];
        assert(bv_wf(c1, in1));
        lemma_first_byte(c1, in1);
        assert(in1[from1 + (p1 - from1)] == in2[from2 + (p1 - from1)]);
        assert(in2[p2] == 0x65);
        assert(false);
    } else if j == items1.len() && j < items2.len() {
        let c2 = items2[j];
        assert(bv_wf(c2, in2));
        lemma_first_byte(c2, in2);
        assert(in1[from1 + (p2 - from2)] == in2[from2 + (p2 - from2)]);
        assert(in1[p1] == 0x65);
        assert(false);
    } else {
        let c1 = items1[j];
        let c2 = items2[j];
        assert(bv_wf(c1, in1) && bv_wf(c2, in2));
        assert(c1.start == p1 && c2.start == p2);
        assert forall|k: int|
            #![trigger in1[c1.start + k], in2[c2.start + k]]
            0 <= k && c1.start + k < c1.end && c2.start + k < c2.end implies in1[c1.start + k]
            == in2[c2.start + k] by {
            let k2 = (p1 - from1) + k;
            assert(in1[from1 + k2] == in2[from2 + k2]);
        }
        lemma_bv_deterministic(c1, in1, c2, in2);
        assert(c2.start - c1.start == d);
        lemma_items_det(items1, in1, from1, to1, items2, in2, from2, to2, j + 1);
    }
}

/// Lockstep determinism for dictionary entries: chained key and value
/// token runs over agreeing windows close at the same relative position
/// with pairwise-identical keys and values.
#[verifier::spinoff_prover]
#[verifier::rlimit(100)]
proof fn lemma_entries_det(
    entries1: Seq<(Vec<u8>, BValue)>,
    in1: Seq<u8>,
    from1: int,
    to1: int,
    entries2: Seq<(Vec<u8>, BValue)>,
    in2: Seq<u8>,
    from2: int,
    to2: int,
    j: int,
)
    requires
        entries_chain(entries1, in1, from1, to1),
        entries_chain(entries2, in2, from2, to2),
        forall|x: int| 0 <= x < entries1.len() ==> bv_wf((#[trigger] entries1[x]).1, in1),
        forall|x: int| 0 <= x < entries2.len() ==> bv_wf((#[trigger] entries2[x]).1, in2),
        0 <= from1 <= to1 < in1.len(),
        0 <= from2 <= to2 < in2.len(),
        in1[to1] == 0x65,
        in2[to2] == 0x65,
        windows_agree(in1, from1, to1 + 1, in2, from2, to2 + 1),
        0 <= j <= entries1.len(),
        0 <= j <= entries2.len(),
        entry_key_from(entries1, j, from1) - from1 == entry_key_from(entries2, j, from2) - from2,
        forall|x: int|
            0 <= x < j ==> (#[trigger] entries1[x]).0@ == entries2[x].0@ && bv_shifted(
                entries1[x].1,
                entries2[x].1,
                from2 - from1,
            ),
    ensures
        entries1.len() == entries2.len(),
        to1 - from1 == to2 - from2,
        forall|x: int|
            0 <= x < entries1.len() ==> (#[trigger] entries1[x]).0@ == entries2[x].0@
                && bv_shifted(entries1[x].1, entries2[x].1, from2 - from1),
    decreases to1 - from1, 1int, entries1.len() - j,
{
    let d = from2 - from1;
    let p1 = entry_key_from(entries1, j, from1);
    let p2 = entry_key_from(entries2, j, from2);
    lemma_entries_pos(entries1, in1, from1, to1, j);
    lemma_entries_pos(entries2, in2, from2, to2, j);
    if j == entries1.len() && j == entries2.len() {
        assert(p1 == to1 && p2 == to2);
    } else if j < entries1.len() && j == entries2.len() {
        let kt = entries1[j];
        assert(bytes_token_wf(in1, p1, kt.1.start as int, kt.0@));
        assert(in1.subrange(p1, kt.1.start - kt.0@.len() - 1)[0] == in1[p1]);
        assert(0x30 <= in1[p1] <= 0x39);
        assert(in1[from1 + (p1 - from1)] == in2[from2 + (p1 - from1)]);
        assert(in2[p2] == 0x65);
        assert(false);
    } else if j == entries1.len() && j < entries2.len() {
        let kt = entries2[j];
        assert(bytes_token_wf(in2, p2, kt.1.start as int, kt.0@));
        assert(in2.subrange(p2, kt.1.start - kt.0@.len() - 1)[0] == in2[p2]);
        assert(0x30 <= in2[p2] <= 0x39);
        assert(in1[from1 + (p2 - from2)] == in2[from2 + (p2 - from2)]);
        assert(in1[p1] == 0x65);
        assert(false);
    } else {
        let k1 = entries1[j].0;
        let c1 = entries1[j].1;
        let k2 = entries2[j].0;
        let c2 = entries2[j].1;
        assert(bytes_token_wf(in1, p1, c1.start as int, k1@));
        assert(bytes_token_wf(in2, p2, c2.start as int, k2@));
        assert(bv_wf(c1, in1) && bv_wf(c2, in2));

        // The key tokens agree, so they have equal length and content.
        assert forall|k: int|
            #![trigger in1[p1 + k], in2[p2 + k]]
            0 <= k && p1 + k < c1.start && p2 + k < c2.start implies in1[p1 + k] == in2[p2
            + k] by {
            let k2i = (p1 - from1) + k;
            assert(in1[from1 + k2i] == in2[from2 + k2i]);
        }
        lemma_bytes_token_det(in1, p1, c1.start as int, k1@, in2, p2, c2.start as int, k2@);

        // The value tokens start aligned and agree.
        assert forall|k: int|
            #![trigger in1[c1.start + k], in2[c2.start + k]]
            0 <= k && c1.start + k < c1.end && c2.start + k < c2.end implies in1[c1.start + k]
            == in2[c2.start + k] by {
            let k2i = (c1.start - from1) + k;
            assert(in1[from1 + k2i] == in2[from2 + k2i]);
        }
        lemma_bv_deterministic(c1, in1, c2, in2);
        assert(c2.start - c1.start == d);
        lemma_entries_det(entries1, in1, from1, to1, entries2, in2, from2, to2, j + 1);
    }
}

/// Stability of the info extraction: when two parses record windows that
/// hold the same bytes — as when the same info dictionary sits among
/// differently ordered surrounding fields — they denote the same value,
/// so every field looked up in them is equal.
pub proof fn lemma_info_extraction_stable(iv1: BValue, in1: Seq<u8>, iv2: BValue, in2: Seq<u8>)
    requires
        bv_wf(iv1, in1),
        bv_wf(iv2, in2),
        in1.subrange(iv1.start as int, iv1.end as int) == in2.subrange(
            iv2.start as int,
            iv2.end as int,
        ),
    ensures
        bv_shifted(iv1, iv2, iv2.start - iv1.start),
        iv1.value matches Bencode::Dict(m1) ==> iv2.value matches Bencode::Dict(m2) && forall|
            key: Seq<u8>,
        |
            #![trigger lookup_int(m1@, key)]
            #![trigger lookup_bytes(m1@, key)]
            lookup_int(m1@, key) == lookup_int(m2@, key) && lookup_bytes(m1@, key) == lookup_bytes(
                m2@,
                key,
            ),
{
    let w1 = in1.subrange(iv1.start as int, iv1.end as int);
    let w2 = in2.subrange(iv2.start as int, iv2.end as int);
    assert forall|k: int|
        #![trigger in1[iv1.start + k], in2[iv2.start + k]]
        0 <= k && iv1.start + k < iv1.end && iv2.start + k < iv2.end implies in1[iv1.start + k]
        == in2[iv2.start + k] by {
        assert(w1[k] == in1[iv1.start + k]);
        assert(w2[k] == in2[iv2.start + k]);
    }
    lemma_bv_deterministic(iv1, in1, iv2, in2);
    match iv1.value {
        Bencode::Dict(m1) => {
            match iv2.value {
                Bencode::Dict(m2) => {
                    assert forall|key: Seq<u8>|
                        #![trigger lookup_int(m1@, key)]
                        #![trigger lookup_bytes(m1@, key)]
                        lookup_int(m1@, key) == lookup_int(m2@, key) && lookup_bytes(m1@, key)
                            == lookup_bytes(m2@, key) by {
                        lemma_dict_find_shifted(m1@, m2@, iv2.start - iv1.start, key);
                    }
                },
                _ => {
                    assert(false);
                },
            }
        },
        _ => {},
    }
}

/// Looking up a key in two pairwise-identical entry runs finds either
/// nothing in both or the same value in both.
pub(crate) proof fn lemma_dict_find_shifted(
    m1: Seq<(Vec<u8>, BValue)>,
    m2: Seq<(Vec<u8>, BValue)>,
    d: int,
    key: Seq<u8>,
)
    requires
        m1.len() == m2.len(),
        forall|x: int|
            0 <= x < m1.len() ==> (#[trigger] m1[x]).0@ == m2[x].0@ && bv_shifted(
                m1[x].1,
                m2[x].1,
                d,
            ),
    ensures
        dict_find(m1, key) is Some <==> dict_find(m2, key) is Some,
        dict_find(m1, key) matches Some(v1) ==> dict_find(m2, key) matches Some(v2)
            && bv_shifted(v1, v2, d),
        lookup_int(m1, key) == lookup_int(m2, key),
        lookup_bytes(m1, key) == lookup_bytes(m2, key),
    decreases m1.len(),
{
    if m1.len() > 0 {
        assert(m1[m1.len() - 1].0@ == m2[m2.len() - 1].0@);
        if m1.last().0@ == key {
            assert(bv_shifted(m1.last().1, m2.last().1, d));
        } else {
            assert forall|x: int|
                0 <= x < m1.drop_last().len() implies (#[trigger] m1.drop_last()[x]).0@
                == m2.drop_last()[x].0@ && bv_shifted(
                m1.drop_last()[x].1,
                m2.drop_last()[x].1,
                d,
            ) by {
                assert(m1.drop_last()[x] == m1[x] && m2.drop_last()[x] == m2[x]);
            }
            lemma_dict_find_shifted(m1.drop_last(), m2.drop_last(), d, key);
        }
    }
}

/// The leading byte of a well-formed node forces its kind.
pub(crate) proof fn lemma_variant_from_lead(w: BValue, input: Seq<u8>)
    requires
        bv_wf(w, input),
    ensures
        input[w.start as int] == 0x69 ==> w.value is Int,
        input[w.start as int] == 0x6c ==> w.value is List,
        input[w.start as int] == 0x64 ==> w.value is Dict,
        0x30 <= input[w.start as int] <= 0x39 ==> w.value is Bytes,
        input[w.start as int] == 0x69 || input[w.start as int] == 0x6c || input[w.start as int]
            == 0x64 || 0x30 <= input[w.start as int] <= 0x39,
{
    lemma_first_byte(w, input);
}

/// Two windows of the same input starting at the same place agree.
pub(crate) proof fn lemma_same_window(input: Seq<u8>, s: int, e1: int, e2: int)
    ensures
        windows_agree(input, s, e1, input, s, e2),
{
}

/// A partial run of parsed items inside a well-formed list walks in
/// lockstep with the list's own items: after `k` parsed items both walks
/// stand at the same position, and the next list item, if any, starts
/// there.
proof fn lemma_items_prefix_align(
    done: Seq<BValue>,
    cand: Seq<BValue>,
    input: Seq<u8>,
    from: int,
    p: int,
    to: int,
    k: int,
)
    requires
        items_chain(done, from, p),
        items_chain(cand, from, to),
        forall|x: int| 0 <= x < done.len() ==> bv_wf(#[trigger] done[x], input),
        forall|x: int| 0 <= x < cand.len() ==> bv_wf(#[trigger] cand[x], input),
        0 <= from,
        to < input.len(),
        input[to] == 0x65,
        0 <= k <= done.len(),
    ensures
        k <= cand.len(),
        items_pos(done, from, k) == items_pos(cand, from, k),
    decreases k,
{
    if k > 0 {
        lemma_items_prefix_align(done, cand, input, from, p, to, k - 1);
        lemma_chain_start(done, from, p, k - 1);
        assert(bv_wf(done[k - 1], input));
        let q = items_pos(done, from, k - 1);
        if k - 1 == cand.len() {
            lemma_chain_upper(cand, input, from, to, k - 1);
            lemma_first_byte(done[k - 1], input);
            assert(false);
        } else {
            lemma_chain_start(cand, from, to, k - 1);
            assert(bv_wf(cand[k - 1], input));
            lemma_same_window(
                input,
                q,
                done[k - 1].end as int,
                cand[k - 1].end as int,
            );
            lemma_bv_deterministic(done[k - 1], input, cand[k - 1], input);
        }
    }
}

/// A partial run of parsed entries inside a well-formed dictionary walks
/// in lockstep with the dictionary's own entries.
proof fn lemma_entries_prefix_align(
    done: Seq<(Vec<u8>, BValue)>,
    cand: Seq<(Vec<u8>, BValue)>,
    input: Seq<u8>,
    from: int,
    p: int,
    to: int,
    k: int,
)
    requires
        entries_chain(done, input, from, p),
        entries_chain(cand, input, from, to),
        forall|x: int| 0 <= x < done.len() ==> bv_wf((#[trigger] done[x]).1, input),
        forall|x: int| 0 <= x < cand.len() ==> bv_wf((#[trigger] cand[x]).1, input),
        0 <= from,
        to < input.len(),
        input[to] == 0x65,
        0 <= k <= done.len(),
    ensures
        k <= cand.len(),
        entry_key_from(done, k, from) == entry_key_from(cand, k, from),
    decreases k,
{
    if k > 0 {
        lemma_entries_prefix_align(done, cand, input, from, p, to, k - 1);
        let q = entry_key_from(done, k - 1, from);
        assert(bytes_token_wf(input, q, done[k - 1].1.start as int, done[k - 1].0@));
        if k - 1 == cand.len() {
            lemma_entries_upper(cand, input, from, to, k - 1);
            assert(input.subrange(q, done[k - 1].1.start - done[k - 1].0@.len() - 1)[0]
                == input[q]);
            assert(false);
        } else {
            assert(bytes_token_wf(
                input,
                entry_key_from(cand, k - 1, from),
                cand[k - 1].1.start as int,
                cand[k - 1].0@,
            ));
            lemma_same_window(
                input,
                q,
                done[k - 1].1.start as int,
                cand[k - 1].1.start as int,
            );
            lemma_bytes_token_det(
                input,
                q,
                done[k - 1].1.start as int,
                done[k - 1].0@,
                input,
                q,
                cand[k - 1].1.start as int,
                cand[k - 1].0@,
            );
            assert(bv_wf(done[k - 1].1, input) && bv_wf(cand[k - 1].1, input));
            lemma_same_window(
                input,
                done[k - 1].1.start as int,
                done[k - 1].1.end as int,
                cand[k - 1].1.end as int,
            );
            lemma_bv_deterministic(done[k - 1].1, input, cand[k - 1].1, input);
        }
    }
}

/// What a well-formed list node pins down for a partial run parsed inside
/// it: the run has walked to the start of the node's next item, or to the
/// closing `e`.
pub(crate) proof fn lemma_list_partial(
    done: Seq<BValue>,
    w: BValue,
    input: Seq<u8>,
    start: int,
    p: int,
)
    requires
        w.start == start,
        bv_wf(w, input),
        0 <= start < input.len(),
        input[start] == 0x6c,
        items_chain(done, start + 1, p),
        forall|x: int| 0 <= x < done.len() ==> bv_wf(#[trigger] done[x], input),
    ensures
        w.value matches Bencode::List(items_w) && {
            let j = done.len() as int;
            &&& w.end - 1 < input.len()
            &&& input[w.end - 1] == 0x65
            &&& j <= items_w@.len()
            &&& p == items_pos(items_w@, start + 1, j)
            &&& p <= w.end - 1
            &&& (j < items_w@.len() ==> items_w@[j].start == p && bv_wf(items_w@[j], input))
            &&& (j == items_w@.len() ==> p == w.end - 1)
        },
{
    lemma_first_byte(w, input);
    match w.value {
        Bencode::List(items_w) => {
            let j = done.len() as int;
            lemma_items_prefix_align(done, items_w@, input, start + 1, p, w.end - 1, j);
            lemma_chain_upper(done, input, start + 1, p, j);
            lemma_chain_upper(items_w@, input, start + 1, w.end - 1, j);
            if j < items_w@.len() {
                lemma_chain_start(items_w@, start + 1, w.end - 1, j);
                assert(bv_wf(items_w@[j], input));
            }
        },
        _ => {
            assert(false);
        },
    }
}

/// What a well-formed dictionary node pins down for a partial run parsed
/// inside it: the run has walked to the start of the node's next key
/// token, or to the closing `e`.
pub(crate) proof fn lemma_dict_partial(
    done: Seq<(Vec<u8>, BValue)>,
    w: BValue,
    input: Seq<u8>,
    start: int,
    p: int,
)
    requires
        w.start == start,
        bv_wf(w, input),
        0 <= start < input.len(),
        input[start] == 0x64,
        entries_chain(done, input, start + 1, p),
        forall|x: int| 0 <= x < done.len() ==> bv_wf((#[trigger] done[x]).1, input),
    ensures
        w.value matches Bencode::Dict(entries_w) && {
            let j = done.len() as int;
            &&& w.end - 1 < input.len()
            &&& input[w.end - 1] == 0x65
            &&& j <= entries_w@.len()
            &&& p == entry_key_from(entries_w@, j, start + 1)
            &&& p <= w.end - 1
            &&& (j < entries_w@.len() ==> bytes_token_wf(
                input,
                p,
                entries_w@[j].1.start as int,
                entries_w@[j].0@,
            ) && bv_wf(entries_w@[j].1, input))
            &&& (j == entries_w@.len() ==> p == w.end - 1)
        },
{
    lemma_first_byte(w, input);
    match w.value {
        Bencode::Dict(entries_w) => {
            let j = done.len() as int;
            lemma_entries_prefix_align(done, entries_w@, input, start + 1, p, w.end - 1, j);
            lemma_entries_upper(done, input, start + 1, p, j);
            lemma_entries_upper(entries_w@, input, start + 1, w.end - 1, j);
            if j < entries_w@.len() {
                assert(bytes_token_wf(
                    input,
                    entry_key_from(entries_w@, j, start + 1),
                    entries_w@[j].1.start as int,
                    entries_w@[j].0@,
                ));
                assert(bv_wf(entries_w@[j].1, input));
            }
        },
        _ => {
            assert(false);
        },
    }
}

/// Pairwise-identical file-list items parse to a file list or fail
/// together.
proof fn lemma_spec_files_shifted(items1: Seq<BValue>, items2: Seq<BValue>, d: int)
    requires
        items1.len() == items2.len(),
        forall|x: int| 0 <= x < items1.len() ==> bv_shifted(#[trigger] items1[x], items2[x], d),
    ensures
        spec_files(items1) is Some <==> spec_files(items2) is Some,
    decreases items1.len(),
{
    if items1.len() > 0 {
        assert forall|x: int| 0 <= x < items1.drop_last().len() implies bv_shifted(
            #[trigger] items1.drop_last()[x],
            items2.drop_last()[x],
            d,
        ) by {
            assert(items1.drop_last()[x] == items1[x] && items2.drop_last()[x] == items2[x]);
        }
        lemma_spec_files_shifted(items1.drop_last(), items2.drop_last(), d);
        assert(bv_shifted(items1[items1.len() - 1], items2[items2.len() - 1], d));
        match (items1.last().value, items2.last().value) {
            (Bencode::Dict(d1), Bencode::Dict(d2)) => {
                lemma_dict_find_shifted(d1@, d2@, d, key_length());
                lemma_dict_find_shifted(d1@, d2@, d, key_path());
                match dict_find(d1@, key_path()) {
                    Some(p1) => {
                        assert(dict_find(d2@, key_path()) matches Some(p2) && bv_shifted(
                            p1,
                            p2,
                            d,
                        ));
                    },
                    None => {},
                }
            },
            _ => {},
        }
    }
}

/// Pairwise-identical dictionary entries agree on whether their files
/// list, if any, is well-shaped.
pub(crate) proof fn lemma_files_ok_shifted(
    m1: Seq<(Vec<u8>, BValue)>,
    m2: Seq<(Vec<u8>, BValue)>,
    d: int,
)
    requires
        m1.len() == m2.len(),
        forall|x: int|
            0 <= x < m1.len() ==> (#[trigger] m1[x]).0@ == m2[x].0@ && bv_shifted(
                m1[x].1,
                m2[x].1,
                d,
            ),
    ensures
        files_ok(m1) == files_ok(m2),
{
    lemma_dict_find_shifted(m1, m2, d, key_files());
    match dict_find(m1, key_files()) {
        Some(f1) => {
            assert(dict_find(m2, key_files()) matches Some(f2) && bv_shifted(f1, f2, d));
            let f2 = dict_find(m2, key_files())->0;
            match (f1.value, f2.value) {
                (Bencode::List(l1), Bencode::List(l2)) => {
                    lemma_spec_files_shifted(l1@, l2@, d);
                },
                _ => {},
            }
        },
        None => {},
    }
}

} // verus!
