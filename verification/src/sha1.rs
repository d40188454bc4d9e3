//! SHA-1 digest primitive, with hex helpers. The digest function is proved
//! to compute exactly the mathematical SHA-1 of its input: padding to a
//! multiple of 64 bytes, an 80-round compression per chunk, and big-endian
//! assembly of the five state words.
use crate::wire::{be_of_u32, be_of_u64, u32_of_be};
use crate::wire::{push_u32_be, push_u64_be, u32_from_be};
use vstd::prelude::*;
use vstd::string::StrSliceExecFns;
use vstd::string::StringExecFns;

verus! {

/// Addition on 32-bit words, modulo 2^32.
pub open spec fn wadd(x: u32, y: u32) -> u32 {
    ((x + y) % 0x100000000) as u32
}

/// Left rotation of a 32-bit word by `n` places, 0 < n < 32.
pub open spec fn rotl(x: u32, n: u32) -> u32 {
    (x << n) | (x >> ((32 - n) as u32))
}

/// Number of zero bytes inserted between the 0x80 marker and the length
/// trailer so that the padded message is a multiple of 64 bytes.
pub open spec fn pad_zeros(len: nat) -> nat {
    let r = (len + 1) % 64;
    if r <= 56 {
        (56 - r) as nat
    } else {
        (120 - r) as nat
    }
}

/// The SHA-1 padding of a message: the message, a 0x80 byte, zero fill,
/// then the bit length as eight big-endian bytes.
pub open spec fn sha1_pad(msg: Seq<u8>) -> Seq<u8> {
    msg + seq![0x80u8] + Seq::new(pad_zeros(msg.len()), |i: int| 0u8) + be_of_u64(
        (msg.len() * 8) as u64,
    )
}

/// Word `t` (0 <= t < 16) of chunk `ci`, read big-endian from the padding.
pub open spec fn chunk_word(padded: Seq<u8>, ci: int, t: int) -> u32 {
    u32_of_be(
        padded[64 * ci + 4 * t],
        padded[64 * ci + 4 * t + 1],
        padded[64 * ci + 4 * t + 2],
        padded[64 * ci + 4 * t + 3],
    )
}

/// The 80-entry message schedule of chunk `ci`.
pub open spec fn w_word(padded: Seq<u8>, ci: int, t: int) -> u32
    decreases t,
{
    if t < 16 {
        chunk_word(padded, ci, t)
    } else {
        rotl(
            w_word(padded, ci, t - 3) ^ w_word(padded, ci, t - 8) ^ w_word(padded, ci, t - 14)
                ^ w_word(padded, ci, t - 16),
            1,
        )
    }
}

/// The round-dependent bitwise function of SHA-1.
pub open spec fn sha_f(t: int, b: u32, c: u32, d: u32) -> u32 {
    if t < 20 {
        (b & c) | ((!b) & d)
    } else if t < 40 {
        b ^ c ^ d
    } else if t < 60 {
        (b & c) | (b & d) | (c & d)
    } else {
        b ^ c ^ d
    }
}

/// The round-dependent constant of SHA-1.
pub open spec fn sha_k(t: int) -> u32 {
    if t < 20 {
        0x5A827999
    } else if t < 40 {
        0x6ED9EBA1
    } else if t < 60 {
        0x8F1BBCDC
    } else {
        0xCA62C1D6
    }
}

/// One compression round applied to the working state.
pub open spec fn sha1_round(
    padded: Seq<u8>,
    ci: int,
    s: (u32, u32, u32, u32, u32),
    t: int,
) -> (u32, u32, u32, u32, u32) {
    let temp = wadd(
        wadd(wadd(wadd(rotl(s.0, 5), sha_f(t, s.1, s.2, s.3)), s.4), sha_k(t)),
        w_word(padded, ci, t),
    );
    (temp, s.0, rotl(s.1, 30), s.2, s.3)
}

/// The working state after the first `t` rounds of chunk `ci`.
pub open spec fn sha1_rounds(
    padded: Seq<u8>,
    ci: int,
    s: (u32, u32, u32, u32, u32),
    t: int,
) -> (u32, u32, u32, u32, u32)
    decreases t,
{
    if t <= 0 {
        s
    } else {
        sha1_round(padded, ci, sha1_rounds(padded, ci, s, t - 1), t - 1)
    }
}

/// The hash state after absorbing chunk `ci` into state `s`.
pub open spec fn sha1_chunk(
    padded: Seq<u8>,
    ci: int,
    s: (u32, u32, u32, u32, u32),
) -> (u32, u32, u32, u32, u32) {
    let r = sha1_rounds(padded, ci, s, 80);
    (wadd(s.0, r.0), wadd(s.1, r.1), wadd(s.2, r.2), wadd(s.3, r.3), wadd(s.4, r.4))
}

/// The hash state after absorbing the first `n` chunks.
pub open spec fn sha1_process(padded: Seq<u8>, n: int, s0: (u32, u32, u32, u32, u32)) -> (
    u32,
    u32,
    u32,
    u32,
    u32,
)
    decreases n,
{
    if n <= 0 {
        s0
    } else {
        sha1_chunk(padded, n - 1, sha1_process(padded, n - 1, s0))
    }
}

/// The 20-byte SHA-1 digest of a message.
pub open spec fn spec_sha1(msg: Seq<u8>) -> Seq<u8> {
    let padded = sha1_pad(msg);
    let h = sha1_process(
        padded,
        padded.len() as int / 64,
        (0x67452301u32, 0xEFCDAB89u32, 0x98BADCFEu32, 0x10325476u32, 0xC3D2E1F0u32),
    );
    be_of_u32(h.0) + be_of_u32(h.1) + be_of_u32(h.2) + be_of_u32(h.3) + be_of_u32(h.4)
}

fn wadd_e(x: u32, y: u32) -> (r: u32)
    ensures
        r == wadd(x, y),
{
    let s = x as u64 + y as u64;
    (s % 0x100000000) as u32
}

fn rotl_e(x: u32, n: u32) -> (r: u32)
    requires
        0 < n < 32,
    ensures
        r == rotl(x, n),
{
    (x << n) | (x >> (32 - n))
}

/// Pad the message for SHA-1 processing.
fn sha1_pad_e(data: &[u8]) -> (padded: Vec<u8>)
    requires
        data@.len() * 8 <= u64::MAX,
    ensures
        padded@ == sha1_pad(data@),
{
    let mut padded: Vec<u8> = Vec::new();
    padded.extend_from_slice(data);
    padded.push(0x80u8);
    let lm = data.len() % 64;
    let r = if lm == 63 {
        0
    } else {
        lm + 1
    };
    proof {
        vstd::arithmetic::div_mod::lemma_add_mod_noop(data@.len() as int, 1, 64);
        assert(r == (data@.len() + 1) % 64);
    }
    let z = if r <= 56 {
        56 - r
    } else {
        120 - r
    };
    let mut zi: usize = 0;
    while zi < z
        invariant
            zi <= z,
            z == pad_zeros(data@.len()),
            padded@ =~= data@ + seq![0x80u8] + Seq::new(zi as nat, |i: int| 0u8),
        decreases z - zi,
    {
        padded.push(0x00u8);
        proof {
            assert(padded@ =~= data@ + seq![0x80u8] + Seq::new((zi + 1) as nat, |i: int| 0u8));
        }
        zi = zi + 1;
    }
    let bit_len = (data.len() as u64) * 8;
    push_u64_be(&mut padded, bit_len);
    proof {
        assert(padded@ =~= sha1_pad(data@));
    }
    padded
}

/// Absorb chunk `ci` of the padded message into the hash state.
fn sha1_compress(padded: &Vec<u8>, ci: usize, h0: u32, h1: u32, h2: u32, h3: u32, h4: u32) -> (r: (
    u32,
    u32,
    u32,
    u32,
    u32,
))
    requires
        64 * (ci + 1) <= padded@.len(),
    ensures
        r == sha1_chunk(padded@, ci as int, (h0, h1, h2, h3, h4)),
{
    let plen = padded.len();
    assert(64 * (ci + 1) <= plen);
    let base = 64 * ci;

    // Break the chunk into sixteen 32-bit big-endian words, then extend
    // the schedule to 80 words.
    let mut w: Vec<u32> = Vec::new();
    let mut t: usize = 0;
    while t < 16
        invariant
            t <= 16,
            w@.len() == t,
            forall|t2: int| 0 <= t2 < t ==> w@[t2] == w_word(padded@, ci as int, t2),
        decreases 16 - t,
    {
        let word = u32_from_be(
            padded[base + 4 * t],
            padded[base + 4 * t + 1],
            padded[base + 4 * t + 2],
            padded[base + 4 * t + 3],
        );
        w.push(word);
        t = t + 1;
    }
    let mut t: usize = 16;
    while t < 80
        invariant
            16 <= t <= 80,
            w@.len() == t,
            forall|t2: int| 0 <= t2 < t ==> w@[t2] == w_word(padded@, ci as int, t2),
        decreases 80 - t,
    {
        let tmp = w[t - 3] ^ w[t - 8] ^ w[t - 14] ^ w[t - 16];
        w.push(rotl_e(tmp, 1));
        t = t + 1;
    }

    // Initialize working variables and run the 80 rounds.
    let mut a = h0;
    let mut b = h1;
    let mut c = h2;
    let mut d = h3;
    let mut e = h4;
    let ghost s_in = (a, b, c, d, e);
    let mut t: usize = 0;
    while t < 80
        invariant
            t <= 80,
            w@.len() == 80,
            forall|t2: int| 0 <= t2 < 80 ==> w@[t2] == w_word(padded@, ci as int, t2),
            (a, b, c, d, e) == sha1_rounds(padded@, ci as int, s_in, t as int),
            s_in == (h0, h1, h2, h3, h4),
        decreases 80 - t,
    {
        let f: u32;
        let k: u32;
        if t < 20 {
            f = (b & c) | ((!b) & d);
            k = 0x5A827999;
        } else if t < 40 {
            f = b ^ c ^ d;
            k = 0x6ED9EBA1;
        } else if t < 60 {
            f = (b & c) | (b & d) | (c & d);
            k = 0x8F1BBCDC;
        } else {
            f = b ^ c ^ d;
            k = 0xCA62C1D6;
        }
        let temp = wadd_e(wadd_e(wadd_e(wadd_e(rotl_e(a, 5), f), e), k), w[t]);
        e = d;
        d = c;
        c = rotl_e(b, 30);
        b = a;
        a = temp;
        proof {
            assert(sha1_rounds(padded@, ci as int, s_in, t + 1) == sha1_round(
                padded@,
                ci as int,
                sha1_rounds(padded@, ci as int, s_in, t as int),
                t as int,
            ));
        }
        t = t + 1;
    }

    (wadd_e(h0, a), wadd_e(h1, b), wadd_e(h2, c), wadd_e(h3, d), wadd_e(h4, e))
}

/// Compute the SHA-1 digest of the input bytes as a 20-byte vector.
pub fn sha1(data: &[u8]) -> (digest: Vec<u8>)
    requires
        data@.len() * 8 <= u64::MAX,
    ensures
        digest@ == spec_sha1(data@),
        digest@.len() == 20,
{
    // Pre-processing: padding.
    let padded = sha1_pad_e(data);

    // Initial SHA-1 state.
    let mut h0: u32 = 0x67452301;
    let mut h1: u32 = 0xEFCDAB89;
    let mut h2: u32 = 0x98BADCFE;
    let mut h3: u32 = 0x10325476;
    let mut h4: u32 = 0xC3D2E1F0;
    let ghost s_init = (h0, h1, h2, h3, h4);

    // Process each 512-bit chunk.
    let n_chunks = padded.len() / 64;
    let mut ci: usize = 0;
    while ci < n_chunks
        invariant
            ci <= n_chunks,
            n_chunks == padded@.len() as int / 64,
            padded@ == sha1_pad(data@),
            (h0, h1, h2, h3, h4) == sha1_process(padded@, ci as int, s_init),
            s_init == (0x67452301u32, 0xEFCDAB89u32, 0x98BADCFEu32, 0x10325476u32, 0xC3D2E1F0u32),
        decreases n_chunks - ci,
    {
        proof {
            assert(64 * (ci + 1) <= 64 * n_chunks <= padded@.len());
        }
        let r = sha1_compress(&padded, ci, h0, h1, h2, h3, h4);
        h0 = r.0;
        h1 = r.1;
        h2 = r.2;
        h3 = r.3;
        h4 = r.4;
        proof {
            assert(sha1_process(padded@, ci + 1, s_init) == sha1_chunk(
                padded@,
                ci as int,
                sha1_process(padded@, ci as int, s_init),
            ));
        }
        ci = ci + 1;
    }

    let mut digest: Vec<u8> = Vec::new();
    push_u32_be(&mut digest, h0);
    push_u32_be(&mut digest, h1);
    push_u32_be(&mut digest, h2);
    push_u32_be(&mut digest, h3);
    push_u32_be(&mut digest, h4);
    proof {
        assert(digest@ =~= spec_sha1(data@));
    }
    digest
}

/// The lowercase hex digit for a value below 16.
pub open spec fn hex_char(n: int) -> char {
    if n == 0 {
        '0'
    } else if n == 1 {
        '1'
    } else if n == 2 {
        '2'
    } else if n == 3 {
        '3'
    } else if n == 4 {
        '4'
    } else if n == 5 {
        '5'
    } else if n == 6 {
        '6'
    } else if n == 7 {
        '7'
    } else if n == 8 {
        '8'
    } else if n == 9 {
        '9'
    } else if n == 10 {
        'a'
    } else if n == 11 {
        'b'
    } else if n == 12 {
        'c'
    } else if n == 13 {
        'd'
    } else if n == 14 {
        'e'
    } else {
        'f'
    }
}

/// The lowercase hex rendering of a byte sequence, two digits per byte.
pub open spec fn hex_of(bytes: Seq<u8>) -> Seq<char> {
    Seq::new(
        2 * bytes.len(),
        |i: int|
            if i % 2 == 0 {
                hex_char(bytes[i / 2] as int / 16)
            } else {
                hex_char(bytes[i / 2] as int % 16)
            },
    )
}

fn nibble_str(n: u8) -> (r: &'static str)
    requires
        n < 16,
    ensures
        r@ == seq![hex_char(n as int)],
{
    let r: &'static str = if n == 0 {
        "0"
    } else if n == 1 {
        "1"
    } else if n == 2 {
        "2"
    } else if n == 3 {
        "3"
    } else if n == 4 {
        "4"
    } else if n == 5 {
        "5"
    } else if n == 6 {
        "6"
    } else if n == 7 {
        "7"
    } else if n == 8 {
        "8"
    } else if n == 9 {
        "9"
    } else if n == 10 {
        "a"
    } else if n == 11 {
        "b"
    } else if n == 12 {
        "c"
    } else if n == 13 {
        "d"
    } else if n == 14 {
        "e"
    } else {
        "f"
    };
    proof {
        reveal_strlit("0");
        reveal_strlit("1");
        reveal_strlit("2");
        reveal_strlit("3");
        reveal_strlit("4");
        reveal_strlit("5");
        reveal_strlit("6");
        reveal_strlit("7");
        reveal_strlit("8");
        reveal_strlit("9");
        reveal_strlit("a");
        reveal_strlit("b");
        reveal_strlit("c");
        reveal_strlit("d");
        reveal_strlit("e");
        reveal_strlit("f");
        assert(r@ =~= seq![hex_char(n as int)]);
    }
    r
}

/// Convert a digest (or any byte vector) to its lowercase hex string.
pub fn bytes_to_hex(digest: &Vec<u8>) -> (s: String)
    ensures
        s@ == hex_of(digest@),
{
    let mut s = String::new();
    let mut i: usize = 0;
    while i < digest.len()
        invariant
            i <= digest@.len(),
            s@ =~= hex_of(digest@.take(i as int)),
        decreases digest@.len() - i,
    {
        let b = digest[i];
        s.append(nibble_str(b / 16));
        s.append(nibble_str(b % 16));
        proof {
            assert(s@ =~= hex_of(digest@.take(i + 1)));
        }
        i = i + 1;
    }
    proof {
        assert(digest@.take(digest@.len() as int) =~= digest@);
    }
    s
}

/// The lowercase hex representation of the SHA-1 digest of the input.
pub fn sha1_hex(data: &[u8]) -> (s: String)
    requires
        data@.len() * 8 <= u64::MAX,
    ensures
        s@ == hex_of(spec_sha1(data@)),
{
    let d = sha1(data);
    bytes_to_hex(&d)
}

/// The value of an ASCII hex digit byte, if it is one.
pub open spec fn hex_val_of(b: u8) -> Option<u8> {
    if 0x30 <= b <= 0x39 {
        Some((b - 0x30) as u8)
    } else if 0x61 <= b <= 0x66 {
        Some((b - 0x61 + 10) as u8)
    } else if 0x41 <= b <= 0x46 {
        Some((b - 0x41 + 10) as u8)
    } else {
        None
    }
}

fn hex_val(b: u8) -> (r: Option<u8>)
    ensures
        r == hex_val_of(b),
{
    if b >= 0x30 && b <= 0x39 {
        Some(b - 0x30)
    } else if b >= 0x61 && b <= 0x66 {
        Some(b - 0x61 + 10)
    } else if b >= 0x41 && b <= 0x46 {
        Some(b - 0x41 + 10)
    } else {
        None
    }
}

/// Whether the character is Unicode whitespace, stripped before hex
/// parsing: the set `char::is_whitespace` accepts.
pub open spec fn is_hex_space(c: char) -> bool {
    ||| 0x09 <= c as u32 <= 0x0d
    ||| c as u32 == 0x20
    ||| c as u32 == 0x85
    ||| c as u32 == 0xa0
    ||| c as u32 == 0x1680
    ||| 0x2000 <= c as u32 <= 0x200a
    ||| c as u32 == 0x2028
    ||| c as u32 == 0x2029
    ||| c as u32 == 0x202f
    ||| c as u32 == 0x205f
    ||| c as u32 == 0x3000
}

/// The character sequence with leading and trailing ASCII whitespace
/// removed.
pub open spec fn spec_trim(s: Seq<char>) -> Seq<char>
    decreases s.len(),
{
    if s.len() > 0 && is_hex_space(s[0]) {
        spec_trim(s.drop_first())
    } else if s.len() > 0 && is_hex_space(s.last()) {
        spec_trim(s.drop_last())
    } else {
        s
    }
}

/// The value of a trimmed 40-hex-digit string as 20 bytes, if every
/// character is a hex digit.
pub open spec fn hex_bytes_of(t: Seq<char>) -> Option<Seq<u8>> {
    if t.len() == 40 && (forall|i: int|
        0 <= i < 40 ==> t[i] as u32 <= 127 && hex_val_of(t[i] as u8) is Some) {
        Some(
            Seq::new(
                20,
                |i: int|
                    (hex_val_of(t[2 * i] as u8)->0 * 16 + hex_val_of(
                        t[2 * i + 1] as u8,
                    )->0) as u8,
            ),
        )
    } else {
        None
    }
}

fn char_is_space(c: char) -> (r: bool)
    ensures
        r == is_hex_space(c),
{
    let u = c as u32;
    (0x09 <= u && u <= 0x0d) || u == 0x20 || u == 0x85 || u == 0xa0 || u == 0x1680 || (0x2000 <= u
        && u <= 0x200a) || u == 0x2028 || u == 0x2029 || u == 0x202f || u == 0x205f || u == 0x3000
}

/// Parse a 40-hex-digit string (surrounding whitespace allowed) into the
/// 20 bytes it denotes. Returns None on any malformed input.
pub fn hex_to_bytes(s: &str) -> (r: Option<Vec<u8>>)
    ensures
        r is Some <==> hex_bytes_of(spec_trim(s@)) is Some,
        r matches Some(v) ==> Some(v@) == hex_bytes_of(spec_trim(s@)),
{
    let n = s.unicode_len();
    let mut lo: usize = 0;
    let mut hi: usize = n;
    proof {
        assert(s@.subrange(0, n as int) =~= s@);
    }
    while lo < hi && char_is_space(s.get_char(lo))
        invariant
            0 <= lo <= hi <= n,
            n == s@.len(),
            spec_trim(s@) == spec_trim(s@.subrange(lo as int, hi as int)),
        decreases hi - lo,
    {
        proof {
            assert(s@.subrange(lo as int, hi as int).drop_first() =~= s@.subrange(
                lo + 1,
                hi as int,
            ));
        }
        lo = lo + 1;
    }
    while hi > lo && char_is_space(s.get_char(hi - 1))
        invariant
            0 <= lo <= hi <= n,
            n == s@.len(),
            spec_trim(s@) == spec_trim(s@.subrange(lo as int, hi as int)),
            lo < hi ==> !is_hex_space(s@[lo as int]),
        decreases hi,
    {
        proof {
            assert(s@.subrange(lo as int, hi as int).drop_last() =~= s@.subrange(
                lo as int,
                hi - 1,
            ));
        }
        hi = hi - 1;
    }
    let ghost t = s@.subrange(lo as int, hi as int);
    proof {
        assert(spec_trim(t) == t);
    }
    if hi - lo != 40 {
        return None;
    }
    let mut out: Vec<u8> = Vec::new();
    let mut i: usize = 0;
    while i < 20
        invariant
            i <= 20,
            out@.len() == i,
            lo + 40 == hi <= n == s@.len(),
            t == s@.subrange(lo as int, hi as int),
            t.len() == 40,
            forall|j: int|
                0 <= j < 2 * i ==> t[j] as u32 <= 127 && hex_val_of(t[j] as u8) is Some,
            forall|j: int|
                0 <= j < i ==> out@[j] == (hex_val_of(t[2 * j] as u8)->0 * 16 + hex_val_of(
                    t[2 * j + 1] as u8,
                )->0) as u8,
        decreases 20 - i,
    {
        let c_hi = s.get_char(lo + 2 * i);
        let c_lo = s.get_char(lo + 2 * i + 1);
        proof {
            assert(c_hi == t[2 * (i as int)]);
            assert(c_lo == t[2 * (i as int) + 1]);
        }
        let u_hi = c_hi as u32;
        let u_lo = c_lo as u32;
        if u_hi > 127 || u_lo > 127 {
            proof {
                assert(hex_bytes_of(t) is None);
            }
            return None;
        }
        let b_hi = match hex_val(u_hi as u8) {
            Some(v) => v,
            None => {
                proof {
                    assert(hex_val_of(t[2 * (i as int)] as u8) is None);
                    assert(hex_bytes_of(t) is None);
                }
                return None;
            },
        };
        let b_lo = match hex_val(u_lo as u8) {
            Some(v) => v,
            None => {
                proof {
                    assert(hex_val_of(t[2 * (i as int) + 1] as u8) is None);
                    assert(hex_bytes_of(t) is None);
                }
                return None;
            },
        };
        out.push(b_hi * 16 + b_lo);
        i = i + 1;
    }
    proof {
        assert(hex_bytes_of(t) is Some);
        assert(out@ =~= hex_bytes_of(t)->0);
    }
    Some(out)
}

} // verus!
