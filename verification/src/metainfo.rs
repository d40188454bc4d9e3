//! Top-level torrent parsing: run the bencode decoder over raw
//! `.torrent` bytes and extract the metadata fields.
use crate::determinism::{bv_shifted, lemma_bv_deterministic, lemma_dict_find_shifted};
use crate::determinism::{lemma_files_ok_shifted, lemma_same_window};
use crate::text::utf8_valid;
use crate::torrent::{as_int, as_list_of_strings, as_string, extract_info};
use crate::torrent::{bv_wf, dict_find, info_fields_ok, lookup_int, lookup_text, opt_bytes};
use crate::torrent::{bv_at, dict_get, files_ok, flat_strings, parse_top};
use crate::torrent::{torrent_fields_ok, torrent_parseable};
use crate::torrent::{k_announce, k_announce_list, k_comment, k_created_by};
use crate::torrent::{k_creation_date, k_info};
use crate::torrent::{key_announce, key_announce_list, key_comment, key_created_by};
use crate::torrent::{key_creation_date, key_info};
use crate::torrent::{BValue, Bencode, ParseResult, Torrent};
use vstd::prelude::*;

verus! {

/// Parse raw `.torrent` bytes into torrent metadata. Succeeds exactly
/// when the input opens with a well-formed dictionary holding an info
/// dictionary with a well-shaped files list; on success the raw
/// info-dictionary bytes of the result are an exact slice of the input at
/// the recorded range of the parsed info node.
#[verifier::rlimit(100)]
pub fn parse_torrent(input: &[u8]) -> (r: ParseResult<Torrent>)
    ensures
        r is Ok <==> torrent_parseable(input@),
        r matches Ok(t) ==> exists|top: BValue|
            {
                &&& #[trigger] bv_wf(top, input@)
                &&& top.start == 0
                &&& top.value matches Bencode::Dict(m) && torrent_fields_ok(t, m@, input@)
            },
{
    let top = match parse_top(input) {
        Ok(v) => v,
        Err(e) => {
            proof {
                assert(!torrent_parseable(input@)) by {
                    if torrent_parseable(input@) {
                        let w = choose|w: BValue|
                            #![trigger bv_wf(w, input@)]
                            {
                                &&& w.start == 0
                                &&& bv_wf(w, input@)
                                &&& w.value matches Bencode::Dict(m) && (dict_find(
                                    m@,
                                    key_info(),
                                ) matches Some(iv) && (iv.value matches Bencode::Dict(im)
                                    && files_ok(im@)))
                            };
                        assert(bv_at(input@, 0));
                        assert(false);
                    }
                }
            }
            return Err(e);
        },
    };
    let map = match &top.value {
        Bencode::Dict(m) => m,
        _ => {
            proof {
                assert(!torrent_parseable(input@)) by {
                    if torrent_parseable(input@) {
                        let w = choose|w: BValue|
                            #![trigger bv_wf(w, input@)]
                            {
                                &&& w.start == 0
                                &&& bv_wf(w, input@)
                                &&& w.value matches Bencode::Dict(m) && (dict_find(
                                    m@,
                                    key_info(),
                                ) matches Some(iv) && (iv.value matches Bencode::Dict(im)
                                    && files_ok(im@)))
                            };
                        lemma_same_window(input@, 0, top.end as int, w.end as int);
                        lemma_bv_deterministic(top, input@, w, input@);
                        assert(bv_shifted(top, w, 0));
                        assert(top.value is Dict);
                        assert(false);
                    }
                }
            }
            return Err("Top-level bencode is not a dictionary".to_owned());
        },
    };

    let announce = lookup_text_field(map, &k_announce());
    let announce_list = lookup_list_field(map, &k_announce_list());
    let comment = lookup_text_field(map, &k_comment());
    let created_by = lookup_text_field(map, &k_created_by());
    let creation_date = lookup_int_field(map, &k_creation_date());

    let info_bv = match dict_get(map, &k_info()) {
        Some(bv) => bv,
        None => {
            proof {
                assert(!torrent_parseable(input@)) by {
                    if torrent_parseable(input@) {
                        let w = choose|w: BValue|
                            #![trigger bv_wf(w, input@)]
                            {
                                &&& w.start == 0
                                &&& bv_wf(w, input@)
                                &&& w.value matches Bencode::Dict(m) && (dict_find(
                                    m@,
                                    key_info(),
                                ) matches Some(iv) && (iv.value matches Bencode::Dict(im)
                                    && files_ok(im@)))
                            };
                        lemma_same_window(input@, 0, top.end as int, w.end as int);
                        lemma_bv_deterministic(top, input@, w, input@);
                        match w.value {
                            Bencode::Dict(m2) => {
                                lemma_dict_find_shifted(map@, m2@, 0, key_info());
                            },
                            _ => {},
                        }
                        assert(false);
                    }
                }
            }
            return Err("Missing 'info' dictionary".to_owned());
        },
    };
    proof {
        lemma_dict_find_member(map@, key_info());
    }
    let info = match extract_info(info_bv, input) {
        Ok(i) => i,
        Err(e) => {
            proof {
                assert(!torrent_parseable(input@)) by {
                    if torrent_parseable(input@) {
                        let w = choose|w: BValue|
                            #![trigger bv_wf(w, input@)]
                            {
                                &&& w.start == 0
                                &&& bv_wf(w, input@)
                                &&& w.value matches Bencode::Dict(m) && (dict_find(
                                    m@,
                                    key_info(),
                                ) matches Some(iv) && (iv.value matches Bencode::Dict(im)
                                    && files_ok(im@)))
                            };
                        lemma_same_window(input@, 0, top.end as int, w.end as int);
                        lemma_bv_deterministic(top, input@, w, input@);
                        match w.value {
                            Bencode::Dict(m2) => {
                                lemma_dict_find_shifted(map@, m2@, 0, key_info());
                                let iv2 = dict_find(m2@, key_info())->0;
                                assert(bv_shifted(*info_bv, iv2, 0));
                                match (info_bv.value, iv2.value) {
                                    (Bencode::Dict(im), Bencode::Dict(im2)) => {
                                        lemma_files_ok_shifted(im@, im2@, 0);
                                    },
                                    _ => {},
                                }
                            },
                            _ => {},
                        }
                        assert(false);
                    }
                }
            }
            return Err(e);
        },
    };

    let t = Torrent { announce, announce_list, comment, created_by, creation_date, info };
    proof {
        assert(opt_bytes(t.announce) == lookup_text(map@, key_announce()));
        assert(opt_bytes(t.comment) == lookup_text(map@, key_comment()));
        assert(opt_bytes(t.created_by) == lookup_text(map@, key_created_by()));
        assert(t.creation_date == lookup_int(map@, key_creation_date()));
        assert(match dict_find(map@, key_announce_list()) {
            Some(bv) => match bv.value {
                Bencode::List(items) => t.announce_list.deep_view() == flat_strings(items@),
                _ => t.announce_list@.len() == 0,
            },
            None => t.announce_list@.len() == 0,
        });
        assert(dict_find(map@, key_info()) == Some(*info_bv));
        assert(bv_wf(*info_bv, input@));
        assert(0 <= info_bv.start < info_bv.end <= input@.len());
        assert(t.info.raw@ == input@.subrange(info_bv.start as int, info_bv.end as int));
        assert(info_fields_ok(t.info, *info_bv));
        assert(torrent_fields_ok(t, map@, input@));
        assert(bv_wf(top, input@) && top.start == 0);
        assert(torrent_parseable(input@));
    }
    Ok(t)
}

/// A value found in a dictionary node is one of its entry values, so it is
/// itself well-formed for the same input.
proof fn lemma_dict_find_member(entries: Seq<(Vec<u8>, BValue)>, key: Seq<u8>)
    ensures
        dict_find(entries, key) matches Some(v) ==> exists|j: int|
            0 <= j < entries.len() && (#[trigger] entries[j]).1 == v,
    decreases entries.len(),
{
    if entries.len() > 0 {
        if entries.last().0@ == key {
            assert(entries[entries.len() - 1].1 == entries.last().1);
        } else {
            lemma_dict_find_member(entries.drop_last(), key);
            if dict_find(entries, key) is Some {
                let v = dict_find(entries, key)->0;
                let j = choose|j: int|
                    0 <= j < entries.drop_last().len() && (#[trigger] entries.drop_last()[j]).1
                        == v;
                assert(entries[j].1 == v);
            }
        }
    }
}

/// The text field at `key`, if present, a byte string, and well-formed
/// UTF-8; a non-UTF-8 text field degrades to absent.
fn lookup_text_field(map: &Vec<(Vec<u8>, BValue)>, key: &Vec<u8>) -> (r: Option<Vec<u8>>)
    ensures
        opt_bytes(r) == lookup_text(map@, key@),
{
    match dict_get(map, key) {
        Some(bv) => match as_string(&bv.value) {
            Ok(v) => if utf8_valid(v.as_slice()) {
                Some(v)
            } else {
                None
            },
            Err(_) => None,
        },
        None => None,
    }
}

/// The integer field at `key`, if present and an integer.
fn lookup_int_field(map: &Vec<(Vec<u8>, BValue)>, key: &Vec<u8>) -> (r: Option<i64>)
    ensures
        r == lookup_int(map@, key@),
{
    match dict_get(map, key) {
        Some(bv) => match as_int(&bv.value) {
            Ok(n) => Some(n),
            Err(_) => None,
        },
        None => None,
    }
}

/// The flattened string-list field at `key`; absent or non-list means
/// empty.
fn lookup_list_field(map: &Vec<(Vec<u8>, BValue)>, key: &Vec<u8>) -> (r: Vec<Vec<u8>>)
    ensures
        match dict_find(map@, key@) {
            Some(bv) => match bv.value {
                Bencode::List(items) => r.deep_view() == flat_strings(items@),
                _ => r@.len() == 0,
            },
            None => r@.len() == 0,
        },
{
    match dict_get(map, key) {
        Some(bv) => match as_list_of_strings(&bv.value) {
            Ok(v) => v,
            Err(_) => Vec::new(),
        },
        None => Vec::new(),
    }
}

} // verus!
