//! Lowercasing of tag keys, and conversions between strings and their
//! UTF-8 bytes.
//!
//! Keys of the comment map are normalized by mapping the ASCII letters
//! `A`..`Z` to their lowercase counterparts and leaving every other
//! character unchanged. [`lower_chars`] is that map on character
//! sequences, [`lower_bytes`] the corresponding map on UTF-8 bytes.

use vstd::prelude::*;
use vstd::utf8::encode_scalar;
use vstd::utf8::encode_utf8;
use vstd::utf8::encode_utf8_decode_utf8;
use vstd::utf8::encode_utf8_valid_utf8;
use vstd::utf8::valid_utf8;
use vstd::string::StrSliceExecFns;

verus! {

/// ASCII uppercase letters map to lowercase; every other character is kept.
pub open spec fn lower_char(c: char) -> char {
    if 65 <= c as u32 && c as u32 <= 90 {
        ((c as u32 + 32) as char)
    } else {
        c
    }
}

/// Pointwise [`lower_char`] over a character sequence.
pub open spec fn lower_chars(s: Seq<char>) -> Seq<char> {
    Seq::new(s.len(), |i: int| lower_char(s[i]))
}

/// The byte-level image of [`lower_char`]: bytes 65..=90 are the UTF-8
/// encodings of the ASCII uppercase letters.
pub open spec fn lower_byte(b: u8) -> u8 {
    if 65 <= b && b <= 90 {
        (b + 32) as u8
    } else {
        b
    }
}

/// Pointwise [`lower_byte`] over a byte sequence.
pub open spec fn lower_bytes(b: Seq<u8>) -> Seq<u8> {
    Seq::new(b.len(), |i: int| lower_byte(b[i]))
}

/// Lowercasing is idempotent.
pub proof fn lemma_lower_chars_idempotent(s: Seq<char>)
    ensures
        lower_chars(lower_chars(s)) == lower_chars(s),
{
    assert forall|i: int| 0 <= i < s.len() implies lower_char(lower_char(s[i])) == lower_char(
        s[i],
    ) by {
        let c = s[i];
        if 65 <= c as u32 && c as u32 <= 90 {
            assert(((c as u32 + 32) as char) as u32 == c as u32 + 32);
        }
    }
    assert(lower_chars(lower_chars(s)) =~= lower_chars(s));
}

/// Encoding a sequence of characters encodes each character in turn.
pub proof fn lemma_encode_utf8_concat(a: Seq<char>, b: Seq<char>)
    ensures
        encode_utf8(a + b) == encode_utf8(a) + encode_utf8(b),
    decreases a.len(),
{
    if a.len() == 0 {
        assert(a + b =~= b);
        assert(encode_utf8(a) + encode_utf8(b) =~= encode_utf8(b));
    } else {
        lemma_encode_utf8_concat(a.drop_first(), b);
        assert((a + b).drop_first() =~= a.drop_first() + b);
        assert(encode_utf8(a + b) =~= encode_utf8(a) + encode_utf8(b));
    }
}

/// The UTF-8 encoding is injective.
pub proof fn lemma_encode_utf8_injective(a: Seq<char>, b: Seq<char>)
    requires
        encode_utf8(a) == encode_utf8(b),
    ensures
        a == b,
{
    broadcast use encode_utf8_decode_utf8;

    assert(vstd::utf8::decode_utf8(encode_utf8(a)) == a);
    assert(vstd::utf8::decode_utf8(encode_utf8(b)) == b);
}

/// Lowercasing commutes with UTF-8 encoding: mapping the bytes 65..=90
/// of an encoded sequence is the same as encoding the lowercased
/// sequence. Multi-byte encodings are unaffected because all their
/// bytes are at least 0x80.
pub proof fn lemma_lower_encode(s: Seq<char>)
    ensures
        lower_bytes(encode_utf8(s)) == encode_utf8(lower_chars(s)),
    decreases s.len(),
{
    broadcast use vstd::utf8::char_is_scalar;

    if s.len() == 0 {
        assert(lower_bytes(encode_utf8(s)) =~= encode_utf8(lower_chars(s)));
    } else {
        let c = s[0] as u32;
        lemma_lower_encode(s.drop_first());
        assert(lower_chars(s).drop_first() =~= lower_chars(s.drop_first()));
        lemma_lower_scalar(s[0]);
        assert(lower_bytes(encode_scalar(c) + encode_utf8(s.drop_first())) =~= lower_bytes(
            encode_scalar(c),
        ) + lower_bytes(encode_utf8(s.drop_first())));
        assert(lower_bytes(encode_utf8(s)) =~= encode_utf8(lower_chars(s)));
    }
}

/// One character's worth of [`lemma_lower_encode`].
proof fn lemma_lower_scalar(ch: char)
    ensures
        lower_bytes(encode_scalar(ch as u32)) == encode_scalar(lower_char(ch) as u32),
{
    broadcast use vstd::utf8::char_is_scalar;

    let c = ch as u32;
    if c <= 0x7F {
        assert(c & 0x7F == c) by (bit_vector)
            requires
                c <= 0x7F,
        ;
        if 65 <= c && c <= 90 {
            let c2 = lower_char(ch) as u32;
            assert(((c + 32) as char) as u32 == c + 32);
            assert(c2 & 0x7F == c2) by (bit_vector)
                requires
                    c2 <= 0x7F,
            ;
            assert(lower_bytes(encode_scalar(c)) =~= encode_scalar(c2));
        } else {
            assert(lower_bytes(encode_scalar(c)) =~= encode_scalar(lower_char(ch) as u32));
        }
    } else {
        assert((0xC0 | ((c >> 6) & 0x1F) as u8) >= 0x80) by (bit_vector);
        assert((0xE0 | ((c >> 12) & 0x0F) as u8) >= 0x80) by (bit_vector);
        assert((0xF0 | ((c >> 18) & 0x7) as u8) >= 0x80) by (bit_vector);
        assert((0x80 | (c & 0x3F) as u8) >= 0x80) by (bit_vector);
        assert((0x80 | ((c >> 6) & 0x3F) as u8) >= 0x80) by (bit_vector);
        assert((0x80 | ((c >> 12) & 0x3F) as u8) >= 0x80) by (bit_vector);
        assert(lower_bytes(encode_scalar(c)) =~= encode_scalar(lower_char(ch) as u32));
    }
}

/// Builds a `String` back from UTF-8 bytes, handing the bytes back
/// unchanged when they are not valid UTF-8.
///
/// Relies on `String::from_utf8`, which succeeds exactly on valid UTF-8
/// and returns the string whose encoding is the input, and on
/// `FromUtf8Error::into_bytes`, which returns the input bytes.
#[verifier::external_body]
pub fn string_from_utf8(b: Vec<u8>) -> (r: Result<String, Vec<u8>>)
    ensures
        match r {
            Ok(s) => b@ == encode_utf8(s@),
            Err(b2) => b2@ == b@ && !valid_utf8(b@),
        },
{
    match String::from_utf8(b) {
        Ok(s) => Ok(s),
        Err(e) => Err(e.into_bytes()),
    }
}

/// The key normalization applied on every insertion, lookup and removal:
/// ASCII uppercase letters become lowercase, all else is kept.
pub fn ascii_lowercase(s: &str) -> (r: String)
    ensures
        r@ == lower_chars(s@),
{
    let bytes: Vec<u8> = s.as_bytes_vec();
    let mut out: Vec<u8> = Vec::new();
    let n = bytes.len();
    let mut i: usize = 0;
    while i < n
        invariant
            n == bytes.len(),
            i <= n,
            out@ =~= lower_bytes(bytes@.subrange(0, i as int)),
        decreases n - i,
    {
        let b = bytes[i];
        if 65 <= b && b <= 90 {
            out.push(b + 32);
        } else {
            out.push(b);
        }
        proof {
            assert(out@ =~= lower_bytes(bytes@.subrange(0, i as int + 1)));
        }
        i = i + 1;
    }
    proof {
        assert(bytes@.subrange(0, n as int) =~= bytes@);
        lemma_lower_encode(s@);
        broadcast use encode_utf8_valid_utf8;

    }
    match string_from_utf8(out) {
        Ok(r) => {
            proof {
                lemma_encode_utf8_injective(r@, lower_chars(s@));
            }
            r
        },
        Err(_) => {
            proof {
                assert(false);
            }
            unreached()
        },
    }
}

} // verus!
