//! Content hashing: a deterministic fingerprint of block text, used as the
//! cache key and filename stem for rendered fragments.

use crate::text::string_from_chars;
use vstd::prelude::*;

verus! {

/// The SHA-256 digest of a byte sequence. The digest itself is computed by
/// the `sha2` crate; only its length and determinism are stated here.
pub uninterp spec fn sha256_of(data: Seq<u8>) -> Seq<u8>;

/// Relies on `sha2::Sha256` (via the `Digest` trait): the digest is a pure
/// function of the input bytes and is exactly 32 bytes long.
#[verifier::external_body]
fn sha256_digest(data: &[u8]) -> (r: Vec<u8>)
    ensures
        r@ == sha256_of(data@),
        r@.len() == 32,
{
    let digest = <sha2::Sha256 as sha2::Digest>::digest(data);
    digest.to_vec()
}

/// The lowercase hexadecimal digit character for `d`.
pub open spec fn hex_digit_ch(d: int) -> char {
    if d == 0 {
        '0'
    } else if d == 1 {
        '1'
    } else if d == 2 {
        '2'
    } else if d == 3 {
        '3'
    } else if d == 4 {
        '4'
    } else if d == 5 {
        '5'
    } else if d == 6 {
        '6'
    } else if d == 7 {
        '7'
    } else if d == 8 {
        '8'
    } else if d == 9 {
        '9'
    } else if d == 10 {
        'a'
    } else if d == 11 {
        'b'
    } else if d == 12 {
        'c'
    } else if d == 13 {
        'd'
    } else if d == 14 {
        'e'
    } else {
        'f'
    }
}

/// Lowercase hexadecimal rendering of a byte sequence, two digits per byte.
pub open spec fn hex_of(bs: Seq<u8>) -> Seq<char>
    decreases bs.len(),
{
    if bs.len() == 0 {
        Seq::<char>::empty()
    } else {
        seq![hex_digit_ch(bs[0] as int / 16), hex_digit_ch(bs[0] as int % 16)] + hex_of(
            bs.drop_first(),
        )
    }
}

/// The content fingerprint: the SHA-256 digest of the UTF-8 bytes of the
/// text, truncated to its first 12 bytes and rendered as 24 hex characters.
pub open spec fn fingerprint(s: Seq<char>) -> Seq<char> {
    hex_of(sha256_of(vstd::utf8::encode_utf8(s)).take(12))
}

/// The hex digit character for a value below 16.
fn hex_char(d: u8) -> (c: char)
    requires
        d < 16,
    ensures
        c == hex_digit_ch(d as int),
{
    match d {
        0 => '0',
        1 => '1',
        2 => '2',
        3 => '3',
        4 => '4',
        5 => '5',
        6 => '6',
        7 => '7',
        8 => '8',
        9 => '9',
        10 => 'a',
        11 => 'b',
        12 => 'c',
        13 => 'd',
        14 => 'e',
        _ => 'f',
    }
}

/// Two hex characters per byte; the rendering of every byte of `bs`.
fn hex_chars(bs: &Vec<u8>) -> (r: Vec<char>)
    ensures
        r@ == hex_of(bs@),
{
    let mut out: Vec<char> = Vec::new();
    let mut i: usize = 0;
    proof {
        assert(bs@.skip(0) =~= bs@);
        assert(out@ + hex_of(bs@) =~= hex_of(bs@));
    }
    while i < bs.len()
        invariant
            0 <= i <= bs@.len(),
            bs.len() == bs@.len(),
            out@ + hex_of(bs@.skip(i as int)) == hex_of(bs@),
        decreases bs@.len() - i,
    {
        let b = bs[i];
        let ghost rest = bs@.skip(i as int);
        out.push(hex_char(b / 16));
        out.push(hex_char(b % 16));
        proof {
            assert(rest[0] == b);
            assert(hex_of(rest) == seq![
                hex_digit_ch(b as int / 16),
                hex_digit_ch(b as int % 16),
            ] + hex_of(rest.drop_first()));
            assert(rest.drop_first() =~= bs@.skip((i + 1) as int));
            assert(out@ + hex_of(bs@.skip((i + 1) as int)) =~= hex_of(bs@));
        }
        i = i + 1;
    }
    proof {
        assert(bs@.skip(bs@.len() as int) =~= Seq::<u8>::empty());
        assert(out@ + hex_of(Seq::<u8>::empty()) =~= out@);
    }
    out
}

/// Every byte yields two characters.
pub proof fn lemma_hex_of_len(bs: Seq<u8>)
    ensures
        hex_of(bs).len() == 2 * bs.len(),
    decreases bs.len(),
{
    if bs.len() > 0 {
        lemma_hex_of_len(bs.drop_first());
    }
}

/// Convert input text to its 24-character cache fingerprint.
pub fn hash(input: &str) -> (r: String)
    ensures
        r@ == fingerprint(input@),
        r@.len() == 24,
{
    let bytes = input.as_bytes();
    let digest = sha256_digest(bytes);
    let mut prefix: Vec<u8> = Vec::new();
    let mut i: usize = 0;
    while i < 12
        invariant
            0 <= i <= 12,
            digest@.len() == 32,
            prefix@ == digest@.take(12).take(i as int),
        decreases 12 - i,
    {
        prefix.push(digest[i]);
        proof {
            assert(digest@.take(12).take((i + 1) as int) =~= digest@.take(12).take(i as int)
                + seq![digest@[i as int]]);
        }
        i = i + 1;
    }
    proof {
        assert(digest@.take(12).take(12) =~= digest@.take(12));
    }
    let hex = hex_chars(&prefix);
    proof {
        lemma_hex_of_len(digest@.take(12));
    }
    string_from_chars(&hex)
}

/// The fingerprint depends on nothing but the text: byte-identical bodies
/// always map to the same cache key, across calls and across runs.
pub proof fn lemma_hash_deterministic(a: Seq<char>, b: Seq<char>)
    requires
        a == b,
    ensures
        fingerprint(a) == fingerprint(b),
{
}

} // verus!
