//! Bencode metadata codec and torrent extractor. A recursive-descent
//! decoder for integer, byte-string, list and dictionary nodes; every node
//! records its `[start, end)` byte range in the source so the canonical
//! raw info-dictionary bytes can be recovered verbatim — the info hash is
//! the SHA-1 of exactly those source bytes, and any re-serialization would
//! risk non-canonical drift. Dictionary keys are raw byte strings.
use crate::wire::copy_range;
use crate::determinism::{lemma_bytes_token_det, lemma_dict_partial, lemma_list_partial};
use crate::determinism::{lemma_same_window, lemma_variant_from_lead};
use crate::wire::bytes_eq;
use vstd::prelude::*;

verus! {

/// A parsed bencode node.
#[derive(Debug)]
pub enum Bencode {
    Int(i64),
    Bytes(Vec<u8>),
    List(Vec<BValue>),
    Dict(Vec<(Vec<u8>, BValue)>),
}

/// A parsed node together with its `[start, end)` byte range in the
/// source.
#[derive(Debug)]
pub struct BValue {
    pub value: Bencode,
    pub start: usize,
    pub end: usize,
}

/// One entry of a multi-file info dictionary. Path parts are kept as the
/// raw byte strings of the metadata, whatever their encoding.
#[derive(Debug)]
pub struct FileEntry {
    pub length: i64,
    pub path: Vec<Vec<u8>>,
}

/// The info block of a torrent: name, piece length, concatenated 20-byte
/// piece hashes, total length or per-file list, and the raw bencoded
/// info-dictionary bytes, an exact slice of the original input.
#[derive(Debug)]
pub struct Info {
    pub name: Option<Vec<u8>>,
    pub piece_length: Option<i64>,
    pub pieces: Option<Vec<u8>>,
    pub length: Option<i64>,
    pub files: Vec<FileEntry>,
    pub raw: Vec<u8>,
}

/// Parsed torrent metadata. The optional text fields hold well-formed
/// UTF-8 (a malformed one degrades to absent); announce-list entries are
/// kept as raw bytes, since a tracker URL is matched and resolved by its
/// bytes.
#[derive(Debug)]
pub struct Torrent {
    pub announce: Option<Vec<u8>>,
    pub announce_list: Vec<Vec<u8>>,
    pub comment: Option<Vec<u8>>,
    pub created_by: Option<Vec<u8>>,
    pub creation_date: Option<i64>,
    pub info: Info,
}

pub type ParseResult<T> = Result<T, String>;

/// Every byte is an ASCII decimal digit.
pub open spec fn all_digits(s: Seq<u8>) -> bool {
    forall|i: int| 0 <= i < s.len() ==> 0x30 <= #[trigger] s[i] <= 0x39
}

/// The value of a sequence of ASCII decimal digits.
pub open spec fn dec_value(s: Seq<u8>) -> int
    decreases s.len(),
{
    if s.len() == 0 {
        0
    } else {
        dec_value(s.drop_last()) * 10 + (s.last() - 0x30)
    }
}

/// Digits denote a nonnegative value.
proof fn lemma_dec_value_nonneg(s: Seq<u8>)
    requires
        all_digits(s),
    ensures
        dec_value(s) >= 0,
    decreases s.len(),
{
    if s.len() > 0 {
        assert(all_digits(s.drop_last())) by {
            assert(forall|i: int| 0 <= i < s.len() - 1 ==> s.drop_last()[i] == #[trigger] s[i]);
        }
        lemma_dec_value_nonneg(s.drop_last());
    }
}

/// A digit string is worth at least any of its prefixes.
proof fn lemma_dec_value_prefix(s: Seq<u8>, k: int)
    requires
        all_digits(s),
        0 <= k <= s.len(),
    ensures
        dec_value(s.take(k)) <= dec_value(s),
    decreases s.len() - k,
{
    if k < s.len() {
        lemma_dec_value_prefix(s, k + 1);
        assert(s.take(k + 1).drop_last() =~= s.take(k));
        assert(all_digits(s.take(k))) by {
            assert(forall|i: int| 0 <= i < k ==> s.take(k)[i] == #[trigger] s[i]);
        }
        lemma_dec_value_nonneg(s.take(k));
        assert(dec_value(s.take(k + 1)) == dec_value(s.take(k)) * 10 + (s.take(k + 1).last()
            - 0x30));
    } else {
        assert(s.take(k) =~= s);
    }
}

/// What any integer-token body starting at `from` pins down: the closing
/// `e`, a nonempty digit run from `ds` (just past the sign, if any), and a
/// magnitude within `i64::MAX`.
proof fn lemma_int_candidate_facts(inp: Seq<u8>, from: int, to: int, n: i64, ds: int)
    requires
        int_body_wf(inp, from, to, n),
        ds == if inp[from] == 0x2d {
            from + 1
        } else {
            from
        },
    ensures
        ds < to - 1 <= inp.len() - 1,
        inp[to - 1] == 0x65,
        all_digits(inp.subrange(ds, to - 1)),
        dec_value(inp.subrange(ds, to - 1)) <= i64::MAX,
{
    let t = inp.subrange(from, to - 1);
    assert(t[0] == inp[from]);
    if t[0] == 0x2d {
        assert(t.skip(1) =~= inp.subrange(from + 1, to - 1));
        lemma_dec_value_nonneg(inp.subrange(ds, to - 1));
    } else {
        assert(t =~= inp.subrange(from, to - 1));
    }
}

/// `input[from..to]` is a byte-string length prefix: at least one decimal
/// digit, then the colon at `to - 1`.
pub open spec fn len_prefix_wf(input: Seq<u8>, from: int, to: int) -> bool {
    &&& 0 <= from < to - 1
    &&& to <= input.len()
    &&& input[to - 1] == 0x3a
    &&& all_digits(input.subrange(from, to - 1))
}

/// A byte-string length prefix whose value fits the machine starts at
/// `from`.
pub open spec fn prefix_token_at(input: Seq<u8>, from: int) -> bool {
    exists|to: int|
        len_prefix_wf(input, from, to) && dec_value(input.subrange(from, to - 1)) <= usize::MAX
}

/// A whole byte-string token starts at `from`.
pub open spec fn bytes_token_at(input: Seq<u8>, from: int) -> bool {
    exists|to: int, c: Seq<u8>| bytes_token_wf(input, from, to, c)
}

/// An integer-token body (the part after `i`) starts at `from`.
pub open spec fn int_token_at(input: Seq<u8>, from: int) -> bool {
    exists|to: int, n: i64| int_body_wf(input, from, to, n)
}

/// A well-formed bencode value starts at `from`.
pub open spec fn bv_at(input: Seq<u8>, from: int) -> bool {
    exists|v: BValue| #![trigger bv_wf(v, input)] v.start == from && bv_wf(v, input)
}

/// `input[from..to]` is the body of an integer token (after `i`, with its
/// closing `e`) denoting `n`: an optional minus sign, at least one digit,
/// then `e`.
pub open spec fn int_body_wf(input: Seq<u8>, from: int, to: int, n: i64) -> bool {
    &&& 0 <= from < to <= input.len()
    &&& input[to - 1] == 0x65
    &&& {
        let t = input.subrange(from, to - 1);
        &&& n != i64::MIN
        &&& if t.len() > 0 && t[0] == 0x2d {
            t.len() > 1 && all_digits(t.skip(1)) && n == -dec_value(t.skip(1))
        } else {
            t.len() > 0 && all_digits(t) && n == dec_value(t)
        }
    }
}

/// `input[from..to]` is a byte-string token holding exactly `content`:
/// decimal length digits, a colon, then the content bytes.
pub open spec fn bytes_token_wf(input: Seq<u8>, from: int, to: int, content: Seq<u8>) -> bool {
    &&& 0 <= from < to <= input.len()
    &&& content.len() < to - from
    &&& {
        let colon = to - content.len() - 1;
        &&& from < colon
        &&& input[colon] == 0x3a
        &&& all_digits(input.subrange(from, colon))
        &&& dec_value(input.subrange(from, colon)) == content.len()
        &&& content == input.subrange(colon + 1, to)
    }
}

/// The items of a list (or the entries of any consecutive token run)
/// tile `[from, to)` exactly.
pub open spec fn items_chain(items: Seq<BValue>, from: int, to: int) -> bool {
    &&& (items.len() == 0 ==> from == to)
    &&& (items.len() > 0 ==> items[0].start == from && items[items.len() - 1].end == to)
    &&& forall|j1: int, j2: int|
        #![trigger items[j1], items[j2]]
        0 <= j1 && j2 == j1 + 1 && j2 < items.len() ==> items[j1].end == items[j2].start
}

/// Where the key token of dictionary entry `j` starts.
pub open spec fn entry_key_from(entries: Seq<(Vec<u8>, BValue)>, j: int, from: int) -> int {
    if j == 0 {
        from
    } else {
        entries[j - 1].1.end as int
    }
}

/// The key and value tokens of the entries tile `[from, to)` exactly, and
/// each key is the byte string its token holds.
pub open spec fn entries_chain(
    entries: Seq<(Vec<u8>, BValue)>,
    input: Seq<u8>,
    from: int,
    to: int,
) -> bool {
    &&& (entries.len() == 0 ==> from == to)
    &&& (entries.len() > 0 ==> entries[entries.len() - 1].1.end == to)
    &&& forall|j: int|
        #![trigger entries[j], entry_key_from(entries, j, from)]
        0 <= j < entries.len() ==> bytes_token_wf(
            input,
            entry_key_from(entries, j, from),
            entries[j].1.start as int,
            entries[j].0@,
        )
}

/// The parsed node faithfully describes `input[start..end)`: the range is
/// within the input, leaf tokens hold exactly the recorded bytes and
/// values, and the children of lists and dictionaries tile the enclosed
/// range, recursively.
pub open spec fn bv_wf(v: BValue, input: Seq<u8>) -> bool
    decreases v,
{
    &&& v.start < v.end <= input.len()
    &&& match v.value {
        Bencode::Int(n) => input[v.start as int] == 0x69 && int_body_wf(
            input,
            v.start + 1,
            v.end as int,
            n,
        ),
        Bencode::Bytes(b) => bytes_token_wf(input, v.start as int, v.end as int, b@),
        Bencode::List(items) => {
            &&& input[v.start as int] == 0x6c
            &&& input[v.end - 1] == 0x65
            &&& items_chain(items@, v.start + 1, v.end - 1)
            &&& forall|j: int| 0 <= j < items@.len() ==> bv_wf(#[trigger] items@[j], input)
        },
        Bencode::Dict(entries) => {
            &&& input[v.start as int] == 0x64
            &&& input[v.end - 1] == 0x65
            &&& entries_chain(entries@, input, v.start + 1, v.end - 1)
            &&& forall|j: int| 0 <= j < entries@.len() ==> bv_wf((#[trigger] entries@[j]).1, input)
        },
    }
}

struct Parser<'a> {
    input: &'a [u8],
    pos: usize,
}

impl<'a> Parser<'a> {
    fn new(input: &'a [u8]) -> (r: Parser<'a>)
        ensures
            r.input@ == input@,
            r.pos == 0,
    {
        Parser { input, pos: 0 }
    }

    fn eof(&self) -> (r: bool)
        ensures
            r == (self.pos >= self.input@.len()),
    {
        self.pos >= self.input.len()
    }

    fn peek(&self) -> (r: Option<u8>)
        ensures
            r is Some <==> self.pos < self.input@.len(),
            r matches Some(b) ==> b == self.input@[self.pos as int],
    {
        if self.pos < self.input.len() {
            Some(self.input[self.pos])
        } else {
            None
        }
    }

    fn next(&mut self) -> (r: Option<u8>)
        ensures
            final(self).input@ == old(self).input@,
            r is Some <==> old(self).pos < old(self).input@.len(),
            r matches Some(b) ==> b == old(self).input@[old(self).pos as int] && final(self).pos
                == old(self).pos + 1,
            r is None ==> final(self).pos == old(self).pos,
    {
        if self.pos >= self.input.len() {
            None
        } else {
            let b = self.input[self.pos];
            self.pos = self.pos + 1;
            Some(b)
        }
    }

    /// Parse the decimal digits and closing `e` of an integer token whose
    /// leading `i` was already consumed. Succeeds exactly when an integer
    /// body starts here whose value the checked accumulation can reach.
    fn parse_int(&mut self) -> (r: ParseResult<i64>)
        requires
            old(self).pos <= old(self).input@.len(),
        ensures
            final(self).input@ == old(self).input@,
            final(self).pos >= old(self).pos,
            final(self).pos <= final(self).input@.len(),
            r is Ok <==> int_token_at(old(self).input@, old(self).pos as int),
            r matches Ok(n) ==> int_body_wf(
                old(self).input@,
                old(self).pos as int,
                final(self).pos as int,
                n,
            ),
    {
        let from = self.pos;
        let ghost inp = self.input@;
        let ghost fromi = from as int;
        let mut negative = false;
        if self.peek() == Some(0x2d) {
            negative = true;
            self.next();
        }
        let digit_start = self.pos;
        let ghost dsi = digit_start as int;
        let mut num: i64 = 0;
        let mut digits: usize = 0;
        while self.pos < self.input.len() && self.input[self.pos] != 0x65 && self.input[self.pos]
            >= 0x30 && self.input[self.pos] <= 0x39
            invariant
                self.input@ == old(self).input@,
                from <= digit_start <= self.pos <= self.input@.len(),
                digits == self.pos - digit_start,
                negative ==> digit_start == from + 1 && self.input@[from as int] == 0x2d,
                !negative ==> digit_start == from && (from >= self.input@.len()
                    || self.input@[from as int] != 0x2d),
                0 <= num,
                all_digits(self.input@.subrange(digit_start as int, self.pos as int)),
                num == dec_value(self.input@.subrange(digit_start as int, self.pos as int)),
            decreases self.input@.len() - self.pos,
        {
            let c = self.input[self.pos];
            let d = (c - 0x30) as i64;
            if num > (i64::MAX - d) / 10 {
                proof {
                    let p = self.pos as int;
                    vstd::arithmetic::div_mod::lemma_fundamental_div_mod(i64::MAX - d, 10);
                    assert(!int_token_at(inp, fromi)) by {
                        if int_token_at(inp, fromi) {
                            let (to, n): (int, i64) = choose|to: int, n: i64|
                                int_body_wf(inp, fromi, to, n);
                            lemma_int_candidate_facts(inp, fromi, to, n, dsi);
                            let col = to - 1;
                            if col < p {
                                assert(inp.subrange(dsi, p)[col - dsi] == inp[col]);
                            } else if col == p {
                                assert(inp[col] == 0x65 && inp[p] == c);
                            } else {
                                let cd = inp.subrange(dsi, col);
                                assert(cd[p - dsi] == inp[p]);
                                assert(cd.take(p + 1 - dsi) =~= inp.subrange(dsi, p + 1));
                                assert(inp.subrange(dsi, p + 1).drop_last() =~= inp.subrange(
                                    dsi,
                                    p,
                                ));
                                lemma_dec_value_prefix(cd, p + 1 - dsi);
                                vstd::arithmetic::mul::lemma_mul_inequality(
                                    (i64::MAX - d) / 10 + 1,
                                    num as int,
                                    10,
                                );
                            }
                            assert(false);
                        }
                    }
                }
                return Err("Integer overflow".to_owned());
            }
            proof {
                vstd::arithmetic::div_mod::lemma_fundamental_div_mod(i64::MAX - d, 10);
                vstd::arithmetic::mul::lemma_mul_inequality(
                    num as int,
                    (i64::MAX - d) / 10,
                    10,
                );
                let s2 = self.input@.subrange(digit_start as int, self.pos + 1);
                assert(s2.drop_last() =~= self.input@.subrange(
                    digit_start as int,
                    self.pos as int,
                ));
            }
            num = num * 10 + d;
            digits = digits + 1;
            self.pos = self.pos + 1;
        }
        if self.pos >= self.input.len() {
            proof {
                let p = self.pos as int;
                assert(!int_token_at(inp, fromi)) by {
                    if int_token_at(inp, fromi) {
                        let (to, n): (int, i64) = choose|to: int, n: i64|
                            int_body_wf(inp, fromi, to, n);
                        lemma_int_candidate_facts(inp, fromi, to, n, dsi);
                        let col = to - 1;
                        if col < p {
                            assert(inp.subrange(dsi, p)[col - dsi] == inp[col]);
                        }
                        assert(false);
                    }
                }
            }
            return Err("Unexpected end of input in integer".to_owned());
        }
        if self.input[self.pos] != 0x65 {
            proof {
                let p = self.pos as int;
                assert(!int_token_at(inp, fromi)) by {
                    if int_token_at(inp, fromi) {
                        let (to, n): (int, i64) = choose|to: int, n: i64|
                            int_body_wf(inp, fromi, to, n);
                        lemma_int_candidate_facts(inp, fromi, to, n, dsi);
                        let col = to - 1;
                        if col < p {
                            assert(inp.subrange(dsi, p)[col - dsi] == inp[col]);
                        } else if col > p {
                            assert(inp.subrange(dsi, col)[p - dsi] == inp[p]);
                        }
                        assert(false);
                    }
                }
            }
            return Err("Invalid integer character".to_owned());
        }
        if digits == 0 {
            proof {
                assert(!int_token_at(inp, fromi)) by {
                    if int_token_at(inp, fromi) {
                        let (to, n): (int, i64) = choose|to: int, n: i64|
                            int_body_wf(inp, fromi, to, n);
                        lemma_int_candidate_facts(inp, fromi, to, n, dsi);
                        assert(inp.subrange(dsi, to - 1)[0] == inp[dsi]);
                        assert(false);
                    }
                }
            }
            return Err("Invalid integer with no digits".to_owned());
        }
        self.pos = self.pos + 1;
        let n = if negative {
            -num
        } else {
            num
        };
        proof {
            let t = self.input@.subrange(from as int, self.pos - 1);
            if negative {
                assert(t.skip(1) =~= self.input@.subrange(digit_start as int, self.pos - 1));
            } else {
                assert(t =~= self.input@.subrange(digit_start as int, self.pos - 1));
            }
            assert(int_body_wf(inp, fromi, self.pos as int, n));
            assert(int_token_at(inp, fromi));
        }
        Ok(n)
    }

    /// Parse the decimal length prefix of a byte string, through its
    /// colon. Succeeds exactly when a digit run followed by a colon starts
    /// here and its value fits the machine.
    fn parse_usize_prefix(&mut self) -> (r: ParseResult<usize>)
        requires
            old(self).pos <= old(self).input@.len(),
        ensures
            final(self).input@ == old(self).input@,
            final(self).pos >= old(self).pos,
            final(self).pos <= final(self).input@.len(),
            r is Ok <==> prefix_token_at(old(self).input@, old(self).pos as int),
            r matches Ok(n) ==> {
                let from = old(self).pos as int;
                let to = final(self).pos as int;
                &&& len_prefix_wf(old(self).input@, from, to)
                &&& n == dec_value(old(self).input@.subrange(from, to - 1))
            },
    {
        let from = self.pos;
        let ghost inp = self.input@;
        let ghost fromi = from as int;
        let mut num: usize = 0;
        let mut digits: usize = 0;
        while self.pos < self.input.len() && self.input[self.pos] != 0x3a && self.input[self.pos]
            >= 0x30 && self.input[self.pos] <= 0x39
            invariant
                self.input@ == old(self).input@,
                from <= self.pos <= self.input@.len(),
                digits == self.pos - from,
                all_digits(self.input@.subrange(from as int, self.pos as int)),
                num == dec_value(self.input@.subrange(from as int, self.pos as int)),
            decreases self.input@.len() - self.pos,
        {
            let c = self.input[self.pos];
            let d = (c - 0x30) as usize;
            if num > (usize::MAX - d) / 10 {
                proof {
                    let p = self.pos as int;
                    vstd::arithmetic::div_mod::lemma_fundamental_div_mod(usize::MAX - d, 10);
                    assert(!prefix_token_at(inp, fromi)) by {
                        if prefix_token_at(inp, fromi) {
                            let to = choose|to: int|
                                len_prefix_wf(inp, fromi, to) && dec_value(
                                    inp.subrange(fromi, to - 1),
                                ) <= usize::MAX;
                            let col = to - 1;
                            if col < p {
                                assert(inp.subrange(fromi, p)[col - fromi] == inp[col]);
                            } else if col == p {
                                assert(inp[col] == 0x3a && inp[p] == c);
                            } else {
                                let cd = inp.subrange(fromi, col);
                                assert(cd[p - fromi] == inp[p]);
                                assert(cd.take(p + 1 - fromi) =~= inp.subrange(fromi, p + 1));
                                assert(inp.subrange(fromi, p + 1).drop_last() =~= inp.subrange(
                                    fromi,
                                    p,
                                ));
                                lemma_dec_value_prefix(cd, p + 1 - fromi);
                                vstd::arithmetic::mul::lemma_mul_inequality(
                                    (usize::MAX - d) / 10 + 1,
                                    num as int,
                                    10,
                                );
                            }
                            assert(false);
                        }
                    }
                }
                return Err("String length overflow".to_owned());
            }
            proof {
                vstd::arithmetic::div_mod::lemma_fundamental_div_mod(usize::MAX - d, 10);
                vstd::arithmetic::mul::lemma_mul_inequality(
                    num as int,
                    (usize::MAX - d) / 10,
                    10,
                );
                let s2 = self.input@.subrange(from as int, self.pos + 1);
                assert(s2.drop_last() =~= self.input@.subrange(from as int, self.pos as int));
            }
            num = num * 10 + d;
            digits = digits + 1;
            self.pos = self.pos + 1;
        }
        if self.pos >= self.input.len() {
            proof {
                let p = self.pos as int;
                assert(!prefix_token_at(inp, fromi)) by {
                    if prefix_token_at(inp, fromi) {
                        let to = choose|to: int|
                            len_prefix_wf(inp, fromi, to) && dec_value(
                                inp.subrange(fromi, to - 1),
                            ) <= usize::MAX;
                        let col = to - 1;
                        assert(col < p);
                        assert(inp.subrange(fromi, p)[col - fromi] == inp[col]);
                        assert(false);
                    }
                }
            }
            return Err("Unexpected end of input in string length".to_owned());
        }
        if self.input[self.pos] != 0x3a {
            proof {
                let p = self.pos as int;
                assert(!prefix_token_at(inp, fromi)) by {
                    if prefix_token_at(inp, fromi) {
                        let to = choose|to: int|
                            len_prefix_wf(inp, fromi, to) && dec_value(
                                inp.subrange(fromi, to - 1),
                            ) <= usize::MAX;
                        let col = to - 1;
                        if col < p {
                            assert(inp.subrange(fromi, p)[col - fromi] == inp[col]);
                        } else if col > p {
                            assert(inp.subrange(fromi, col)[p - fromi] == inp[p]);
                        }
                        assert(false);
                    }
                }
            }
            return Err("Invalid string length character".to_owned());
        }
        if digits == 0 {
            proof {
                assert(!prefix_token_at(inp, fromi)) by {
                    if prefix_token_at(inp, fromi) {
                        let to = choose|to: int|
                            len_prefix_wf(inp, fromi, to) && dec_value(
                                inp.subrange(fromi, to - 1),
                            ) <= usize::MAX;
                        let col = to - 1;
                        assert(inp.subrange(fromi, col)[0] == inp[fromi]);
                        assert(false);
                    }
                }
            }
            return Err("Missing string length".to_owned());
        }
        self.pos = self.pos + 1;
        proof {
            assert(len_prefix_wf(inp, fromi, self.pos as int));
            assert(prefix_token_at(inp, fromi));
        }
        Ok(num)
    }

    /// Parse a whole byte-string token: length prefix, colon, content.
    /// Succeeds exactly when a byte-string token starts here.
    fn parse_bytes(&mut self) -> (r: ParseResult<Vec<u8>>)
        requires
            old(self).pos <= old(self).input@.len(),
        ensures
            final(self).input@ == old(self).input@,
            final(self).pos >= old(self).pos,
            final(self).pos <= final(self).input@.len(),
            r is Ok <==> bytes_token_at(old(self).input@, old(self).pos as int),
            r matches Ok(v) ==> bytes_token_wf(
                old(self).input@,
                old(self).pos as int,
                final(self).pos as int,
                v@,
            ) && final(self).pos > old(self).pos,
    {
        let ghost inp = self.input@;
        let ghost fromi = self.pos as int;
        let total = self.input.len();
        let len = match self.parse_usize_prefix() {
            Ok(len) => len,
            Err(e) => {
                proof {
                    assert(!bytes_token_at(inp, fromi)) by {
                        if bytes_token_at(inp, fromi) {
                            let (to, c): (int, Seq<u8>) = choose|to: int, c: Seq<u8>|
                                bytes_token_wf(inp, fromi, to, c);
                            let col = to - c.len() - 1;
                            assert(c.len() <= total);
                            assert(len_prefix_wf(inp, fromi, col + 1));
                            assert(prefix_token_at(inp, fromi));
                            assert(false);
                        }
                    }
                }
                return Err(e);
            },
        };
        if len > self.input.len() - self.pos {
            proof {
                let p = self.pos as int;
                assert(!bytes_token_at(inp, fromi)) by {
                    if bytes_token_at(inp, fromi) {
                        let (to, c): (int, Seq<u8>) = choose|to: int, c: Seq<u8>|
                            bytes_token_wf(inp, fromi, to, c);
                        let col = to - c.len() - 1;
                        if col < p - 1 {
                            assert(inp.subrange(fromi, p - 1)[col - fromi] == inp[col]);
                        } else if col > p - 1 {
                            assert(inp.subrange(fromi, col)[p - 1 - fromi] == inp[p - 1]);
                        } else {
                            assert(inp.subrange(fromi, col) == inp.subrange(fromi, p - 1));
                            assert(c.len() == len);
                            assert(to <= inp.len());
                        }
                        assert(false);
                    }
                }
            }
            return Err("Truncated byte string".to_owned());
        }
        let content = copy_range(self.input, self.pos, self.pos + len);
        self.pos = self.pos + len;
        proof {
            assert(bytes_token_wf(inp, fromi, self.pos as int, content@));
            assert(bytes_token_at(inp, fromi));
        }
        Ok(content)
    }

    /// Same as `parse_bytes`; dictionary keys are read as raw bytes with
    /// no text decoding.
    fn parse_bytes_raw(&mut self) -> (r: ParseResult<Vec<u8>>)
        requires
            old(self).pos <= old(self).input@.len(),
        ensures
            final(self).input@ == old(self).input@,
            final(self).pos >= old(self).pos,
            final(self).pos <= final(self).input@.len(),
            r is Ok <==> bytes_token_at(old(self).input@, old(self).pos as int),
            r matches Ok(v) ==> bytes_token_wf(
                old(self).input@,
                old(self).pos as int,
                final(self).pos as int,
                v@,
            ) && final(self).pos > old(self).pos,
    {
        self.parse_bytes()
    }

    /// Parse one bencode value of any kind, recording its byte range.
    /// Succeeds exactly when a well-formed value starts here.
    #[verifier::spinoff_prover]
    #[verifier::rlimit(100)]
    fn parse_bvalue(&mut self) -> (r: ParseResult<BValue>)
        requires
            old(self).pos <= old(self).input@.len(),
        ensures
            final(self).input@ == old(self).input@,
            final(self).pos >= old(self).pos,
            final(self).pos <= final(self).input@.len(),
            r is Ok <==> bv_at(old(self).input@, old(self).pos as int),
            r matches Ok(v) ==> v.start == old(self).pos && v.end == final(self).pos && bv_wf(
                v,
                old(self).input@,
            ),
        decreases old(self).input@.len() - old(self).pos,
    {
        let start = self.pos;
        let ghost inp = self.input@;
        let ghost starti = start as int;
        if self.eof() {
            proof {
                assert(!bv_at(inp, starti)) by {
                    if bv_at(inp, starti) {
                        let w = choose|w: BValue| w.start == starti && bv_wf(w, inp);
                        assert(false);
                    }
                }
            }
            return Err("Unexpected EOF while parsing bencode".to_owned());
        }
        let lead = self.input[self.pos];
        if lead == 0x69 {
            // 'i': integer
            self.pos = self.pos + 1;
            let n = match self.parse_int() {
                Ok(n) => n,
                Err(e) => {
                    proof {
                        assert(!bv_at(inp, starti)) by {
                            if bv_at(inp, starti) {
                                let w = choose|w: BValue| w.start == starti && bv_wf(w, inp);
                                lemma_variant_from_lead(w, inp);
                                match w.value {
                                    Bencode::Int(nn) => {
                                        assert(int_body_wf(inp, starti + 1, w.end as int, nn));
                                        assert(int_token_at(inp, starti + 1));
                                    },
                                    _ => {},
                                }
                                assert(false);
                            }
                        }
                    }
                    return Err(e);
                },
            };
            let v = BValue { value: Bencode::Int(n), start, end: self.pos };
            proof {
                assert(bv_wf(v, inp));
            }
            Ok(v)
        } else if lead == 0x6c {
            // 'l': list
            self.pos = self.pos + 1;
            let mut items: Vec<BValue> = Vec::new();
            while self.pos < self.input.len() && self.input[self.pos] != 0x65
                invariant
                    self.input@ == old(self).input@,
                    start == old(self).pos,
                    inp == self.input@,
                    starti == start as int,
                    inp[starti] == 0x6c,
                    start + 1 <= self.pos <= self.input@.len(),
                    items_chain(items@, start + 1, self.pos as int),
                    forall|j: int| 0 <= j < items@.len() ==> bv_wf(#[trigger] items@[j], self.input@),
                decreases self.input@.len() - self.pos,
            {
                let ghost p = self.pos as int;
                let item = match self.parse_bvalue() {
                    Ok(i) => i,
                    Err(e) => {
                        proof {
                            assert(!bv_at(inp, starti)) by {
                                if bv_at(inp, starti) {
                                    let w = choose|w: BValue| w.start == starti && bv_wf(w, inp);
                                    lemma_list_partial(items@, w, inp, starti, p);
                                    match w.value {
                                        Bencode::List(items_w) => {
                                            let j = items@.len() as int;
                                            if j < items_w@.len() {
                                                assert(bv_wf(items_w@[j], inp));
                                                assert(bv_at(inp, p));
                                            } else {
                                                assert(inp[p] == 0x65);
                                            }
                                        },
                                        _ => {},
                                    }
                                    assert(false);
                                }
                            }
                        }
                        return Err(e);
                    },
                };
                proof {
                    lemma_chain_push(items@, item, start + 1);
                }
                items.push(item);
            }
            if self.eof() {
                proof {
                    let p = self.pos as int;
                    assert(!bv_at(inp, starti)) by {
                        if bv_at(inp, starti) {
                            let w = choose|w: BValue| w.start == starti && bv_wf(w, inp);
                            lemma_list_partial(items@, w, inp, starti, p);
                            assert(false);
                        }
                    }
                }
                return Err("Unexpected EOF while parsing bencode".to_owned());
            }
            self.pos = self.pos + 1;
            let v = BValue { value: Bencode::List(items), start, end: self.pos };
            proof {
                assert(bv_wf(v, inp));
            }
            Ok(v)
        } else if lead == 0x64 {
            // 'd': dictionary
            self.pos = self.pos + 1;
            let mut entries: Vec<(Vec<u8>, BValue)> = Vec::new();
            while self.pos < self.input.len() && self.input[self.pos] != 0x65
                invariant
                    self.input@ == old(self).input@,
                    start == old(self).pos,
                    inp == self.input@,
                    starti == start as int,
                    inp[starti] == 0x64,
                    start + 1 <= self.pos <= self.input@.len(),
                    entries_chain(entries@, self.input@, start + 1, self.pos as int),
                    forall|j: int|
                        0 <= j < entries@.len() ==> bv_wf(
                            (#[trigger] entries@[j]).1,
                            self.input@,
                        ),
                decreases self.input@.len() - self.pos,
            {
                let ghost p = self.pos as int;
                let key = match self.parse_bytes_raw() {
                    Ok(k) => k,
                    Err(e) => {
                        proof {
                            assert(!bv_at(inp, starti)) by {
                                if bv_at(inp, starti) {
                                    let w = choose|w: BValue| w.start == starti && bv_wf(w, inp);
                                    lemma_dict_partial(entries@, w, inp, starti, p);
                                    match w.value {
                                        Bencode::Dict(entries_w) => {
                                            let j = entries@.len() as int;
                                            if j < entries_w@.len() {
                                                assert(bytes_token_wf(
                                                    inp,
                                                    p,
                                                    entries_w@[j].1.start as int,
                                                    entries_w@[j].0@,
                                                ));
                                                assert(bytes_token_at(inp, p));
                                            } else {
                                                assert(inp[p] == 0x65);
                                            }
                                        },
                                        _ => {},
                                    }
                                    assert(false);
                                }
                            }
                        }
                        return Err(e);
                    },
                };
                let ghost p1 = self.pos as int;
                let val = match self.parse_bvalue() {
                    Ok(v) => v,
                    Err(e) => {
                        proof {
                            assert(!bv_at(inp, starti)) by {
                                if bv_at(inp, starti) {
                                    let w = choose|w: BValue| w.start == starti && bv_wf(w, inp);
                                    lemma_dict_partial(entries@, w, inp, starti, p);
                                    match w.value {
                                        Bencode::Dict(entries_w) => {
                                            let j = entries@.len() as int;
                                            if j < entries_w@.len() {
                                                lemma_same_window(
                                                    inp,
                                                    p,
                                                    p1,
                                                    entries_w@[j].1.start as int,
                                                );
                                                lemma_bytes_token_det(
                                                    inp,
                                                    p,
                                                    p1,
                                                    key@,
                                                    inp,
                                                    p,
                                                    entries_w@[j].1.start as int,
                                                    entries_w@[j].0@,
                                                );
                                                assert(bv_wf(entries_w@[j].1, inp));
                                                assert(bv_at(inp, p1));
                                            } else {
                                                assert(inp[p] == 0x65);
                                            }
                                        },
                                        _ => {},
                                    }
                                    assert(false);
                                }
                            }
                        }
                        return Err(e);
                    },
                };
                proof {
                    lemma_entries_push(entries@, self.input@, key, val, start + 1, p);
                }
                entries.push((key, val));
            }
            if self.eof() {
                proof {
                    let p = self.pos as int;
                    assert(!bv_at(inp, starti)) by {
                        if bv_at(inp, starti) {
                            let w = choose|w: BValue| w.start == starti && bv_wf(w, inp);
                            lemma_dict_partial(entries@, w, inp, starti, p);
                            assert(false);
                        }
                    }
                }
                return Err("Unexpected EOF while parsing bencode".to_owned());
            }
            self.pos = self.pos + 1;
            let v = BValue { value: Bencode::Dict(entries), start, end: self.pos };
            proof {
                assert(bv_wf(v, inp));
            }
            Ok(v)
        } else if lead >= 0x30 && lead <= 0x39 {
            let bytes = match self.parse_bytes() {
                Ok(b) => b,
                Err(e) => {
                    proof {
                        assert(!bv_at(inp, starti)) by {
                            if bv_at(inp, starti) {
                                let w = choose|w: BValue| w.start == starti && bv_wf(w, inp);
                                lemma_variant_from_lead(w, inp);
                                match w.value {
                                    Bencode::Bytes(b) => {
                                        assert(bytes_token_wf(
                                            inp,
                                            starti,
                                            w.end as int,
                                            b@,
                                        ));
                                        assert(bytes_token_at(inp, starti));
                                    },
                                    _ => {},
                                }
                                assert(false);
                            }
                        }
                    }
                    return Err(e);
                },
            };
            let v = BValue { value: Bencode::Bytes(bytes), start, end: self.pos };
            proof {
                assert(bv_wf(v, inp));
            }
            Ok(v)
        } else {
            proof {
                assert(!bv_at(inp, starti)) by {
                    if bv_at(inp, starti) {
                        let w = choose|w: BValue| w.start == starti && bv_wf(w, inp);
                        lemma_variant_from_lead(w, inp);
                        assert(false);
                    }
                }
            }
            Err("Invalid token".to_owned())
        }
    }
}

/// Parse the first bencode value of the input, from its start.

pub fn parse_top(input: &[u8]) -> (r: ParseResult<BValue>)
    ensures
        r is Ok <==> bv_at(input@, 0),
        r matches Ok(v) ==> v.start == 0 && bv_wf(v, input@),
{
    let mut p = Parser::new(input);
    p.parse_bvalue()
}

/// Appending an item whose range starts where the chain ends keeps the
/// chain tiled.
proof fn lemma_chain_push(items: Seq<BValue>, item: BValue, from: int)
    requires
        items_chain(items, from, item.start as int),
    ensures
        items_chain(items.push(item), from, item.end as int),
{
    let items2 = items.push(item);
    assert(items2[items2.len() - 1] == item);
    assert forall|j: int| 0 <= j < items2.len() - 1 implies (#[trigger] items2[j]).end == items2[
        j + 1
    ].start by {
        if j < items.len() - 1 {
            assert(items2[j] == items[j] && items2[j + 1] == items[j + 1]);
        } else {
            assert(items2[j] == items[j] && items2[j + 1] == item);
        }
    }
    if items.len() > 0 {
        assert(items2[0] == items[0]);
    }
}

/// Appending a dictionary entry whose key token starts where the chain
/// ends keeps the chain tiled.
proof fn lemma_entries_push(
    entries: Seq<(Vec<u8>, BValue)>,
    input: Seq<u8>,
    key: Vec<u8>,
    val: BValue,
    from: int,
    key_from: int,
)
    requires
        entries_chain(entries, input, from, key_from),
        bytes_token_wf(input, key_from, val.start as int, key@),
    ensures
        entries_chain(entries.push((key, val)), input, from, val.end as int),
{
    let entries2 = entries.push((key, val));
    assert(entries2[entries2.len() - 1] == (key, val));
    assert forall|j: int| 0 <= j < entries2.len() implies bytes_token_wf(
        input,
        entry_key_from(entries2, j, from),
        (#[trigger] entries2[j]).1.start as int,
        entries2[j].0@,
    ) by {
        if j < entries.len() {
            assert(entries2[j] == entries[j]);
            if j > 0 {
                assert(entries2[j - 1] == entries[j - 1]);
            }
            assert(entry_key_from(entries2, j, from) == entry_key_from(entries, j, from));
        } else {
            if j > 0 {
                assert(entries2[j - 1] == entries[j - 1]);
            }
            assert(entry_key_from(entries2, j, from) == key_from);
        }
    }
}

/// The value at the last occurrence of `key` among the entries, as a
/// later duplicate key overrides an earlier one.
pub open spec fn dict_find(entries: Seq<(Vec<u8>, BValue)>, key: Seq<u8>) -> Option<BValue>
    decreases entries.len(),
{
    if entries.len() == 0 {
        None
    } else if entries.last().0@ == key {
        Some(entries.last().1)
    } else {
        dict_find(entries.drop_last(), key)
    }
}

/// The byte-string value at `key`, if the key is present and holds one.
pub open spec fn lookup_bytes(entries: Seq<(Vec<u8>, BValue)>, key: Seq<u8>) -> Option<Seq<u8>> {
    match dict_find(entries, key) {
        Some(bv) => match bv.value {
            Bencode::Bytes(b) => Some(b@),
            _ => None,
        },
        None => None,
    }
}

/// The integer value at `key`, if the key is present and holds one.
pub open spec fn lookup_int(entries: Seq<(Vec<u8>, BValue)>, key: Seq<u8>) -> Option<i64> {
    match dict_find(entries, key) {
        Some(bv) => match bv.value {
            Bencode::Int(n) => Some(n),
            _ => None,
        },
        None => None,
    }
}

/// The byte-string value at `key` when it is well-formed UTF-8: a
/// non-UTF-8 optional text field degrades to absent rather than aborting
/// the parse.
pub open spec fn lookup_text(entries: Seq<(Vec<u8>, BValue)>, key: Seq<u8>) -> Option<Seq<u8>> {
    match lookup_bytes(entries, key) {
        Some(b) => if vstd::utf8::valid_utf8(b) {
            Some(b)
        } else {
            None
        },
        None => None,
    }
}

/// The view of an optional byte vector.
pub open spec fn opt_bytes(o: Option<Vec<u8>>) -> Option<Seq<u8>> {
    match o {
        Some(v) => Some(v@),
        None => None,
    }
}

/// The byte strings among the items, in order.
pub open spec fn bytes_items(items: Seq<BValue>) -> Seq<Seq<u8>>
    decreases items.len(),
{
    if items.len() == 0 {
        seq![]
    } else {
        bytes_items(items.drop_last()) + match items.last().value {
            Bencode::Bytes(b) => seq![b@],
            _ => seq![],
        }
    }
}

/// One level of flattening: byte strings among the items, and the byte
/// strings of any directly nested list, in order.
pub open spec fn flat_strings(items: Seq<BValue>) -> Seq<Seq<u8>>
    decreases items.len(),
{
    if items.len() == 0 {
        seq![]
    } else {
        flat_strings(items.drop_last()) + match items.last().value {
            Bencode::Bytes(b) => seq![b@],
            Bencode::List(sub) => bytes_items(sub@),
            _ => seq![],
        }
    }
}

/// The views of a list of file entries.
pub open spec fn file_views(fs: Seq<FileEntry>) -> Seq<(i64, Seq<Seq<u8>>)> {
    fs.map_values(|f: FileEntry| (f.length, f.path@.map_values(|p: Vec<u8>| p@)))
}

/// The file entries denoted by the items of a "files" list: dictionary
/// items each contribute their length and path parts, other items are
/// skipped; a dictionary item without an integer length or a list path
/// fails the parse (None).
pub open spec fn spec_files(items: Seq<BValue>) -> Option<Seq<(i64, Seq<Seq<u8>>)>>
    decreases items.len(),
{
    if items.len() == 0 {
        Some(seq![])
    } else {
        match spec_files(items.drop_last()) {
            None => None,
            Some(pre) => match items.last().value {
                Bencode::Dict(d) => {
                    let flen = lookup_int(d@, key_length());
                    let path = dict_find(d@, key_path());
                    if flen is None {
                        None
                    } else {
                        match path {
                            Some(pbv) => match pbv.value {
                                Bencode::List(pv) => Some(
                                    pre + seq![(flen->0, bytes_items(pv@))],
                                ),
                                _ => None,
                            },
                            None => None,
                        }
                    }
                },
                _ => Some(pre),
            },
        }
    }
}

/// "announce" as bytes.
pub open spec fn key_announce() -> Seq<u8> {
    seq![0x61u8, 0x6e, 0x6e, 0x6f, 0x75, 0x6e, 0x63, 0x65]
}

/// "announce-list" as bytes.
pub open spec fn key_announce_list() -> Seq<u8> {
    seq![0x61u8, 0x6e, 0x6e, 0x6f, 0x75, 0x6e, 0x63, 0x65, 0x2d, 0x6c, 0x69, 0x73, 0x74]
}

/// "comment" as bytes.
pub open spec fn key_comment() -> Seq<u8> {
    seq![0x63u8, 0x6f, 0x6d, 0x6d, 0x65, 0x6e, 0x74]
}

/// "created by" as bytes.
pub open spec fn key_created_by() -> Seq<u8> {
    seq![0x63u8, 0x72, 0x65, 0x61, 0x74, 0x65, 0x64, 0x20, 0x62, 0x79]
}

/// "creation date" as bytes.
pub open spec fn key_creation_date() -> Seq<u8> {
    seq![0x63u8, 0x72, 0x65, 0x61, 0x74, 0x69, 0x6f, 0x6e, 0x20, 0x64, 0x61, 0x74, 0x65]
}

/// "info" as bytes.
pub open spec fn key_info() -> Seq<u8> {
    seq![0x69u8, 0x6e, 0x66, 0x6f]
}

/// "name" as bytes.
pub open spec fn key_name() -> Seq<u8> {
    seq![0x6eu8, 0x61, 0x6d, 0x65]
}

/// "piece length" as bytes.
pub open spec fn key_piece_length() -> Seq<u8> {
    seq![0x70u8, 0x69, 0x65, 0x63, 0x65, 0x20, 0x6c, 0x65, 0x6e, 0x67, 0x74, 0x68]
}

/// "pieces" as bytes.
pub open spec fn key_pieces() -> Seq<u8> {
    seq![0x70u8, 0x69, 0x65, 0x63, 0x65, 0x73]
}

/// "length" as bytes.
pub open spec fn key_length() -> Seq<u8> {
    seq![0x6cu8, 0x65, 0x6e, 0x67, 0x74, 0x68]
}

/// "files" as bytes.
pub open spec fn key_files() -> Seq<u8> {
    seq![0x66u8, 0x69, 0x6c, 0x65, 0x73]
}

/// "path" as bytes.
pub open spec fn key_path() -> Seq<u8> {
    seq![0x70u8, 0x61, 0x74, 0x68]
}

/// Look up `key` among the entries, taking the last occurrence.
pub fn dict_get<'x>(entries: &'x Vec<(Vec<u8>, BValue)>, key: &Vec<u8>) -> (r: Option<&'x BValue>)
    ensures
        match r {
            Some(v) => dict_find(entries@, key@) == Some(*v),
            None => dict_find(entries@, key@) is None,
        },
{
    let mut i: usize = entries.len();
    proof {
        assert(entries@.take(entries@.len() as int) =~= entries@);
    }
    while i > 0
        invariant
            i <= entries@.len(),
            dict_find(entries@, key@) == dict_find(entries@.take(i as int), key@),
        decreases i,
    {
        i = i - 1;
        proof {
            assert(entries@.take(i + 1).drop_last() =~= entries@.take(i as int));
            assert(entries@.take(i + 1).last() == entries@[i as int]);
        }
        if bytes_eq(&entries[i].0, key) {
            return Some(&entries[i].1);
        }
    }
    None
}

/// Extract a byte string from a bencode node.
pub fn as_string(b: &Bencode) -> (r: ParseResult<Vec<u8>>)
    ensures
        r is Ok <==> b is Bytes,
        r matches Ok(v) ==> b matches Bencode::Bytes(w) && v@ == w@,
{
    match b {
        Bencode::Bytes(v) => {
            let c = v.clone();
            proof {
                assert(c@ =~= v@);
            }
            Ok(c)
        },
        _ => Err("Expected byte string".to_owned()),
    }
}

/// Extract an integer from a bencode node.
pub fn as_int(b: &Bencode) -> (r: ParseResult<i64>)
    ensures
        r is Ok <==> b is Int,
        r matches Ok(n) ==> b matches Bencode::Int(m) && n == m,
{
    match b {
        Bencode::Int(i) => Ok(*i),
        _ => Err("Expected integer".to_owned()),
    }
}

/// Extract the byte strings of a list node, flattening one level of
/// nesting (for announce-list style lists of lists).
pub fn as_list_of_strings(b: &Bencode) -> (r: ParseResult<Vec<Vec<u8>>>)
    ensures
        r is Ok <==> b is List,
        r matches Ok(v) ==> b matches Bencode::List(items) && v.deep_view()
            == flat_strings(items@),
{
    let items = match b {
        Bencode::List(items) => items,
        _ => {
            return Err("Expected list".to_owned());
        },
    };
    let mut out: Vec<Vec<u8>> = Vec::new();
    let mut i: usize = 0;
    while i < items.len()
        invariant
            i <= items@.len(),
            out.deep_view() =~~= flat_strings(items@.take(i as int)),
        decreases items@.len() - i,
    {
        proof {
            assert(items@.take(i + 1).drop_last() =~= items@.take(i as int));
            assert(items@.take(i + 1).last() == items@[i as int]);
        }
        match &items[i].value {
            Bencode::Bytes(v) => {
                let c = v.clone();
                let ghost before = out.deep_view();
                proof {
                    assert(c@ =~= v@);
                }
                out.push(c);
                proof {
                    assert(out.deep_view() =~~= before.push(v@));
                    assert(out.deep_view() =~~= flat_strings(items@.take(i + 1)));
                }
            },
            Bencode::List(sub) => {
                let mut j: usize = 0;
                while j < sub.len()
                    invariant
                        j <= sub@.len(),
                        i < items@.len(),
                        items@[i as int].value matches Bencode::List(sb) && sb == sub,
                        out.deep_view() =~~= flat_strings(items@.take(i as int)) + bytes_items(
                            sub@.take(j as int),
                        ),
                    decreases sub@.len() - j,
                {
                    proof {
                        assert(sub@.take(j + 1).drop_last() =~= sub@.take(j as int));
                        assert(sub@.take(j + 1).last() == sub@[j as int]);
                    }
                    match &sub[j].value {
                        Bencode::Bytes(v2) => {
                            let c = v2.clone();
                            let ghost before = out.deep_view();
                            proof {
                                assert(c@ =~= v2@);
                            }
                            out.push(c);
                            proof {
                                assert(out.deep_view() =~~= before.push(v2@));
                                assert(out.deep_view() =~~= flat_strings(items@.take(i as int))
                                    + bytes_items(sub@.take(j + 1)));
                            }
                        },
                        _ => {},
                    }
                    j = j + 1;
                }
                proof {
                    assert(sub@.take(sub@.len() as int) =~= sub@);
                    assert(out.deep_view() =~~= flat_strings(items@.take(i + 1)));
                }
            },
            _ => {
                proof {
                    assert(out.deep_view() =~~= flat_strings(items@.take(i + 1)));
                }
            },
        }
        i = i + 1;
    }
    proof {
        assert(items@.take(items@.len() as int) =~= items@);
    }
    Ok(out)
}

pub(crate) fn k_announce() -> (r: Vec<u8>)
    ensures
        r@ == key_announce(),
{
    let mut v: Vec<u8> = Vec::new();
    v.push(0x61);
    v.push(0x6e);
    v.push(0x6e);
    v.push(0x6f);
    v.push(0x75);
    v.push(0x6e);
    v.push(0x63);
    v.push(0x65);
    proof {
        assert(v@ =~= key_announce());
    }
    v
}

pub(crate) fn k_announce_list() -> (r: Vec<u8>)
    ensures
        r@ == key_announce_list(),
{
    let mut v: Vec<u8> = Vec::new();
    v.push(0x61);
    v.push(0x6e);
    v.push(0x6e);
    v.push(0x6f);
    v.push(0x75);
    v.push(0x6e);
    v.push(0x63);
    v.push(0x65);
    v.push(0x2d);
    v.push(0x6c);
    v.push(0x69);
    v.push(0x73);
    v.push(0x74);
    proof {
        assert(v@ =~= key_announce_list());
    }
    v
}

pub(crate) fn k_comment() -> (r: Vec<u8>)
    ensures
        r@ == key_comment(),
{
    let mut v: Vec<u8> = Vec::new();
    v.push(0x63);
    v.push(0x6f);
    v.push(0x6d);
    v.push(0x6d);
    v.push(0x65);
    v.push(0x6e);
    v.push(0x74);
    proof {
        assert(v@ =~= key_comment());
    }
    v
}

pub(crate) fn k_created_by() -> (r: Vec<u8>)
    ensures
        r@ == key_created_by(),
{
    let mut v: Vec<u8> = Vec::new();
    v.push(0x63);
    v.push(0x72);
    v.push(0x65);
    v.push(0x61);
    v.push(0x74);
    v.push(0x65);
    v.push(0x64);
    v.push(0x20);
    v.push(0x62);
    v.push(0x79);
    proof {
        assert(v@ =~= key_created_by());
    }
    v
}

pub(crate) fn k_creation_date() -> (r: Vec<u8>)
    ensures
        r@ == key_creation_date(),
{
    let mut v: Vec<u8> = Vec::new();
    v.push(0x63);
    v.push(0x72);
    v.push(0x65);
    v.push(0x61);
    v.push(0x74);
    v.push(0x69);
    v.push(0x6f);
    v.push(0x6e);
    v.push(0x20);
    v.push(0x64);
    v.push(0x61);
    v.push(0x74);
    v.push(0x65);
    proof {
        assert(v@ =~= key_creation_date());
    }
    v
}

pub(crate) fn k_info() -> (r: Vec<u8>)
    ensures
        r@ == key_info(),
{
    let mut v: Vec<u8> = Vec::new();
    v.push(0x69);
    v.push(0x6e);
    v.push(0x66);
    v.push(0x6f);
    proof {
        assert(v@ =~= key_info());
    }
    v
}

pub(crate) fn k_name() -> (r: Vec<u8>)
    ensures
        r@ == key_name(),
{
    let mut v: Vec<u8> = Vec::new();
    v.push(0x6e);
    v.push(0x61);
    v.push(0x6d);
    v.push(0x65);
    proof {
        assert(v@ =~= key_name());
    }
    v
}

pub(crate) fn k_piece_length() -> (r: Vec<u8>)
    ensures
        r@ == key_piece_length(),
{
    let mut v: Vec<u8> = Vec::new();
    v.push(0x70);
    v.push(0x69);
    v.push(0x65);
    v.push(0x63);
    v.push(0x65);
    v.push(0x20);
    v.push(0x6c);
    v.push(0x65);
    v.push(0x6e);
    v.push(0x67);
    v.push(0x74);
    v.push(0x68);
    proof {
        assert(v@ =~= key_piece_length());
    }
    v
}

pub(crate) fn k_pieces() -> (r: Vec<u8>)
    ensures
        r@ == key_pieces(),
{
    let mut v: Vec<u8> = Vec::new();
    v.push(0x70);
    v.push(0x69);
    v.push(0x65);
    v.push(0x63);
    v.push(0x65);
    v.push(0x73);
    proof {
        assert(v@ =~= key_pieces());
    }
    v
}

pub(crate) fn k_length() -> (r: Vec<u8>)
    ensures
        r@ == key_length(),
{
    let mut v: Vec<u8> = Vec::new();
    v.push(0x6c);
    v.push(0x65);
    v.push(0x6e);
    v.push(0x67);
    v.push(0x74);
    v.push(0x68);
    proof {
        assert(v@ =~= key_length());
    }
    v
}

pub(crate) fn k_files() -> (r: Vec<u8>)
    ensures
        r@ == key_files(),
{
    let mut v: Vec<u8> = Vec::new();
    v.push(0x66);
    v.push(0x69);
    v.push(0x6c);
    v.push(0x65);
    v.push(0x73);
    proof {
        assert(v@ =~= key_files());
    }
    v
}

pub(crate) fn k_path() -> (r: Vec<u8>)
    ensures
        r@ == key_path(),
{
    let mut v: Vec<u8> = Vec::new();
    v.push(0x70);
    v.push(0x61);
    v.push(0x74);
    v.push(0x68);
    proof {
        assert(v@ =~= key_path());
    }
    v
}

/// Whether the "files" list of an info dictionary, if present, parses
/// without error.
pub open spec fn files_ok(m: Seq<(Vec<u8>, BValue)>) -> bool {
    match dict_find(m, key_files()) {
        Some(f) => match f.value {
            Bencode::List(fl) => spec_files(fl@) is Some,
            _ => true,
        },
        None => true,
    }
}

/// The extracted fields of an info block match the info dictionary node
/// `iv` it was read from.
pub open spec fn info_fields_ok(info: Info, iv: BValue) -> bool {
    iv.value matches Bencode::Dict(m) && {
        &&& opt_bytes(info.name) == lookup_text(m@, key_name())
        &&& info.piece_length == lookup_int(m@, key_piece_length())
        &&& opt_bytes(info.pieces) == lookup_bytes(m@, key_pieces())
        &&& info.length == lookup_int(m@, key_length())
        &&& match dict_find(m@, key_files()) {
            Some(f) => match f.value {
                Bencode::List(fl) => Some(file_views(info.files@)) == spec_files(fl@),
                _ => info.files@.len() == 0,
            },
            None => info.files@.len() == 0,
        }
    }
}


/// A failing prefix of a files list fails the whole list.
proof fn lemma_spec_files_none(items: Seq<BValue>, k: int)
    requires
        0 <= k <= items.len(),
        spec_files(items.take(k)) is None,
    ensures
        spec_files(items) is None,
    decreases items.len() - k,
{
    if k == items.len() {
        assert(items.take(k) =~= items);
    } else {
        assert(items.take(k + 1).drop_last() =~= items.take(k));
        lemma_spec_files_none(items, k + 1);
    }
}

/// Extract the info block from the parsed info-dictionary node, slicing
/// the raw bytes verbatim from the original input at the node's recorded
/// range.
pub fn extract_info(info_bv: &BValue, input: &[u8]) -> (r: ParseResult<Info>)
    requires
        bv_wf(*info_bv, input@),
    ensures
        r is Ok <==> (info_bv.value matches Bencode::Dict(m) && files_ok(m@)),
        r matches Ok(info) ==> info.raw@ == input@.subrange(
            info_bv.start as int,
            info_bv.end as int,
        ) && info_fields_ok(info, *info_bv),
{
    let raw = copy_range(input, info_bv.start, info_bv.end);
    let info_map = match &info_bv.value {
        Bencode::Dict(m) => m,
        _ => {
            return Err("info is not a dict".to_owned());
        },
    };

    let name = match dict_get(info_map, &k_name()) {
        Some(bv) => match as_string(&bv.value) {
            Ok(v) => if crate::text::utf8_valid(v.as_slice()) {
                Some(v)
            } else {
                None
            },
            Err(_) => None,
        },
        None => None,
    };
    let piece_length = match dict_get(info_map, &k_piece_length()) {
        Some(bv) => match as_int(&bv.value) {
            Ok(n) => Some(n),
            Err(_) => None,
        },
        None => None,
    };
    let pieces = match dict_get(info_map, &k_pieces()) {
        Some(bv) => match as_string(&bv.value) {
            Ok(v) => Some(v),
            Err(_) => None,
        },
        None => None,
    };
    let length = match dict_get(info_map, &k_length()) {
        Some(bv) => match as_int(&bv.value) {
            Ok(n) => Some(n),
            Err(_) => None,
        },
        None => None,
    };

    let mut files: Vec<FileEntry> = Vec::new();
    match dict_get(info_map, &k_files()) {
        Some(fbv) => {
            match &fbv.value {
                Bencode::List(list) => {
                    let mut i: usize = 0;
                    while i < list.len()
                        invariant
                            i <= list@.len(),
                            Some(file_views(files@)) == spec_files(list@.take(i as int)),
                        decreases list@.len() - i,
                    {
                        proof {
                            assert(list@.take(i + 1).drop_last() =~= list@.take(i as int));
                            assert(list@.take(i + 1).last() == list@[i as int]);
                        }
                        match &list[i].value {
                            Bencode::Dict(d) => {
                                let flen = match dict_get(d, &k_length()) {
                                    Some(bv2) => match as_int(&bv2.value) {
                                        Ok(n) => n,
                                        Err(_) => {
                                            proof {
                                                lemma_spec_files_none(list@, i + 1);
                                            }
                                            return Err("file entry missing length".to_owned());
                                        },
                                    },
                                    None => {
                                        proof {
                                            lemma_spec_files_none(list@, i + 1);
                                        }
                                        return Err("file entry missing length".to_owned());
                                    },
                                };
                                let path_vec = match dict_get(d, &k_path()) {
                                    Some(bv2) => match &bv2.value {
                                        Bencode::List(pv) => collect_bytes_items(pv),
                                        _ => {
                                            proof {
                                                lemma_spec_files_none(list@, i + 1);
                                            }
                                            return Err("file entry missing path".to_owned());
                                        },
                                    },
                                    None => {
                                        proof {
                                            lemma_spec_files_none(list@, i + 1);
                                        }
                                        return Err("file entry missing path".to_owned());
                                    },
                                };
                                files.push(FileEntry { length: flen, path: path_vec });
                                proof {
                                    assert(file_views(files@) =~~= spec_files(
                                        list@.take(i + 1),
                                    )->0);
                                }
                            },
                            _ => {
                                proof {
                                    assert(file_views(files@) =~~= spec_files(
                                        list@.take(i + 1),
                                    )->0);
                                }
                            },
                        }
                        i = i + 1;
                    }
                    proof {
                        assert(list@.take(list@.len() as int) =~= list@);
                    }
                },
                _ => {},
            }
        },
        None => {},
    }
    Ok(Info { name, piece_length, pieces, length, files, raw })
}


/// Collect the byte-string items of a list of nodes.
fn collect_bytes_items(items: &Vec<BValue>) -> (r: Vec<Vec<u8>>)
    ensures
        r.deep_view() == bytes_items(items@),
{
    let mut out: Vec<Vec<u8>> = Vec::new();
    let mut i: usize = 0;
    while i < items.len()
        invariant
            i <= items@.len(),
            out.deep_view() =~~= bytes_items(items@.take(i as int)),
        decreases items@.len() - i,
    {
        proof {
            assert(items@.take(i + 1).drop_last() =~= items@.take(i as int));
            assert(items@.take(i + 1).last() == items@[i as int]);
        }
        match &items[i].value {
            Bencode::Bytes(v) => {
                let c = v.clone();
                let ghost before = out.deep_view();
                proof {
                    assert(c@ =~= v@);
                }
                out.push(c);
                proof {
                    assert(out.deep_view() =~~= before.push(v@));
                    assert(out.deep_view() =~~= bytes_items(items@.take(i + 1)));
                }
            },
            _ => {
                proof {
                    assert(out.deep_view() =~~= bytes_items(items@.take(i + 1)));
                }
            },
        }
        i = i + 1;
    }
    proof {
        assert(items@.take(items@.len() as int) =~= items@);
        assert(out.deep_view() =~~= bytes_items(items@));
    }
    out
}

/// A torrent can be parsed from the input: a well-formed dictionary
/// starts at its first byte, holds an info dictionary, and the info
/// dictionary's files list, if any, is well-shaped.
pub open spec fn torrent_parseable(input: Seq<u8>) -> bool {
    exists|top: BValue|
        #![trigger bv_wf(top, input)]
        {
            &&& top.start == 0
            &&& bv_wf(top, input)
            &&& top.value matches Bencode::Dict(m) && (dict_find(m@, key_info()) matches Some(iv)
                && (iv.value matches Bencode::Dict(im) && files_ok(im@)))
        }
}

/// The extracted torrent fields match the top-level dictionary entries
/// they were read from, and the raw info bytes are the exact input slice
/// at the info node's recorded range.
pub open spec fn torrent_fields_ok(t: Torrent, m: Seq<(Vec<u8>, BValue)>, input: Seq<u8>) -> bool {
    &&& opt_bytes(t.announce) == lookup_text(m, key_announce())
    &&& opt_bytes(t.comment) == lookup_text(m, key_comment())
    &&& opt_bytes(t.created_by) == lookup_text(m, key_created_by())
    &&& t.creation_date == lookup_int(m, key_creation_date())
    &&& match dict_find(m, key_announce_list()) {
        Some(bv) => match bv.value {
            Bencode::List(items) => t.announce_list.deep_view() == flat_strings(items@),
            _ => t.announce_list@.len() == 0,
        },
        None => t.announce_list@.len() == 0,
    }
    &&& (dict_find(m, key_info()) matches Some(iv) && {
        &&& 0 <= iv.start < iv.end <= input.len()
        &&& t.info.raw@ == input.subrange(iv.start as int, iv.end as int)
        &&& info_fields_ok(t.info, iv)
    })
}



} // verus!
