//! UTF-8 validation for the optional text fields of torrent metadata,
//! proved against vstd's byte-level model of UTF-8: a malformed field
//! degrades to absent instead of aborting a parse.
use vstd::prelude::*;
use vstd::utf8::{
    codepoint_width_2, codepoint_width_3, codepoint_width_4, decode_first_codepoint,
    is_continuation_byte, is_leading_byte_width_1, is_leading_byte_width_2,
    is_leading_byte_width_3, is_leading_byte_width_4, length_of_first_scalar, pop_first_scalar,
    valid_first_scalar, valid_leading_and_continuation_bytes_first_codepoint, valid_utf8,
};

verus! {

/// Whether the bytes are a well-formed UTF-8 encoding: every scalar has a
/// valid leading byte, its continuation bytes, no overlong encoding, and
/// no surrogate codepoint.
pub fn utf8_valid(bytes: &[u8]) -> (r: bool)
    ensures
        r == valid_utf8(bytes@),
{
    let n = bytes.len();
    let mut i: usize = 0;
    proof {
        assert(bytes@.skip(0) =~= bytes@);
    }
    while i < n
        invariant
            i <= n,
            n == bytes@.len(),
            valid_utf8(bytes@) == valid_utf8(bytes@.skip(i as int)),
        decreases n - i,
    {
        let ghost s = bytes@.skip(i as int);
        proof {
            assert(s[0] == bytes@[i as int]);
        }
        let b0 = bytes[i];
        if b0 <= 0x7f {
            // One-byte scalar: never overlong, never a surrogate.
            proof {
                assert(valid_first_scalar(s));
                assert(length_of_first_scalar(s) == 1);
                assert(pop_first_scalar(s) =~= bytes@.skip(i + 1));
            }
            i = i + 1;
        } else if 0xc0 <= b0 && b0 <= 0xdf {
            if n - i < 2 || !is_cont(bytes[i + 1]) {
                proof {
                    assert(!valid_leading_and_continuation_bytes_first_codepoint(s));
                }
                return false;
            }
            proof {
                assert(s[1] == bytes@[i + 1]);
            }
            let b1 = bytes[i + 1];
            let cp = (((b0 & 0x1f) as u32) << 6u32) | ((b1 & 0x3f) as u32);
            proof {
                assert(decode_first_codepoint(s) == codepoint_width_2(b0, b1));
                assert(cp == codepoint_width_2(b0, b1));
                assert(cp <= 0x7ff) by (bit_vector)
                    requires
                        cp == (((b0 & 0x1f) as u32) << 6u32) | ((b1 & 0x3f) as u32),
                ;
            }
            if cp < 0x80 {
                // Overlong two-byte encoding.
                proof {
                    assert(!valid_first_scalar(s));
                }
                return false;
            }
            proof {
                assert(valid_first_scalar(s));
                assert(length_of_first_scalar(s) == 2);
                assert(pop_first_scalar(s) =~= bytes@.skip(i + 2));
            }
            i = i + 2;
        } else if 0xe0 <= b0 && b0 <= 0xef {
            if n - i < 3 || !is_cont(bytes[i + 1]) || !is_cont(bytes[i + 2]) {
                proof {
                    assert(!valid_leading_and_continuation_bytes_first_codepoint(s));
                }
                return false;
            }
            proof {
                assert(s[1] == bytes@[i + 1] && s[2] == bytes@[i + 2]);
            }
            let b1 = bytes[i + 1];
            let b2 = bytes[i + 2];
            let cp = (((b0 & 0x0f) as u32) << 12u32) | (((b1 & 0x3f) as u32) << 6u32) | ((b2
                & 0x3f) as u32);
            proof {
                assert(decode_first_codepoint(s) == codepoint_width_3(b0, b1, b2));
                assert(cp == codepoint_width_3(b0, b1, b2));
            }
            if cp < 0x800 || (cp >= 0xd800 && cp <= 0xdfff) {
                // Overlong three-byte encoding, or a surrogate codepoint.
                proof {
                    assert(!valid_first_scalar(s));
                }
                return false;
            }
            proof {
                assert(valid_first_scalar(s));
                assert(length_of_first_scalar(s) == 3);
                assert(pop_first_scalar(s) =~= bytes@.skip(i + 3));
            }
            i = i + 3;
        } else if 0xf0 <= b0 && b0 <= 0xf7 {
            if n - i < 4 || !is_cont(bytes[i + 1]) || !is_cont(bytes[i + 2]) || !is_cont(
                bytes[i + 3],
            ) {
                proof {
                    assert(!valid_leading_and_continuation_bytes_first_codepoint(s));
                }
                return false;
            }
            proof {
                assert(s[1] == bytes@[i + 1] && s[2] == bytes@[i + 2] && s[3] == bytes@[i + 3]);
            }
            let b1 = bytes[i + 1];
            let b2 = bytes[i + 2];
            let b3 = bytes[i + 3];
            let cp = (((b0 & 0x07) as u32) << 18u32) | (((b1 & 0x3f) as u32) << 12u32) | (((b2
                & 0x3f) as u32) << 6u32) | ((b3 & 0x3f) as u32);
            proof {
                assert(decode_first_codepoint(s) == codepoint_width_4(b0, b1, b2, b3));
                assert(cp == codepoint_width_4(b0, b1, b2, b3));
            }
            if cp < 0x10000 || cp > 0x10ffff {
                // Overlong four-byte encoding, or beyond the last scalar.
                proof {
                    assert(!valid_first_scalar(s));
                }
                return false;
            }
            proof {
                assert(valid_first_scalar(s));
                assert(length_of_first_scalar(s) == 4);
                assert(pop_first_scalar(s) =~= bytes@.skip(i + 4));
            }
            i = i + 4;
        } else {
            // 0x80..=0xbf: a stray continuation byte; 0xf8..=0xff: not a
            // leading byte of any width.
            proof {
                assert(!valid_leading_and_continuation_bytes_first_codepoint(s));
            }
            return false;
        }
    }
    proof {
        assert(bytes@.skip(n as int) =~= Seq::<u8>::empty());
    }
    true
}

fn is_cont(b: u8) -> (r: bool)
    ensures
        r == is_continuation_byte(b),
{
    0x80 <= b && b <= 0xbf
}

} // verus!
