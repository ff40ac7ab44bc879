//! The binary codec for the Opus comment header packet.
//!
//! Wire form: the 8-byte magic `OpusTags`, a little-endian u32 vendor
//! length and that many UTF-8 bytes, a little-endian u32 entry count,
//! and for each entry a little-endian u32 length and that many UTF-8
//! bytes of `key=value`, split at the first `=`.
//!
//! [`parse_header`] is the specification-level parser; the executable
//! [`parse_comment_header`] is proved to agree with it on every input.
//! [`header_bytes`] is the specification-level printer;
//! [`lemma_parse_header_of_encoded`] shows that the parser inverts it.

use vstd::prelude::*;
use vstd::slice::slice_index_get;
use vstd::slice::slice_subrange;
use vstd::slice::slice_to_vec;
use vstd::string::StrSliceExecFns;
use vstd::utf8::decode_utf8;
use vstd::utf8::encode_utf8;
use vstd::utf8::encode_utf8_decode_utf8;
use vstd::utf8::encode_utf8_valid_utf8;
use vstd::utf8::encode_scalar;
use vstd::utf8::valid_utf8;

use crate::Error;
use crate::text::lemma_encode_utf8_concat;
use crate::wire::le32_bytes;
use crate::wire::le32_val;
use crate::wire::lemma_roundtrip_32;
use crate::wire::read_le32;

verus! {

/// One raw comment pair: the key and the value, as read from or written
/// to one `key=value` entry.
pub type Pair = (Seq<char>, Seq<char>);

/// The 8-byte magic `OpusTags` that opens the comment header packet.
pub open spec fn magic() -> Seq<u8> {
    seq![79u8, 112u8, 117u8, 115u8, 84u8, 97u8, 103u8, 115u8]
}

/// The UTF-8 bytes of one `key=value` entry.
pub open spec fn entry_bytes(p: Pair) -> Seq<u8> {
    encode_utf8(p.0) + seq![61u8] + encode_utf8(p.1)
}

/// Whether one entry's length fits its 32-bit length prefix.
pub open spec fn pair_fits(p: Pair) -> bool {
    entry_bytes(p).len() <= u32::MAX
}

/// Whether a header's vendor, entry count and every entry fit their
/// 32-bit length prefixes.
pub open spec fn header_fits(vendor: Seq<char>, ps: Seq<Pair>) -> bool {
    &&& encode_utf8(vendor).len() <= u32::MAX
    &&& ps.len() <= u32::MAX
    &&& forall|i: int| 0 <= i < ps.len() ==> pair_fits(#[trigger] ps[i])
}

/// The encoded entry list: each entry length-prefixed.
pub open spec fn encode_pairs(ps: Seq<Pair>) -> Seq<u8>
    decreases ps.len(),
{
    if ps.len() == 0 {
        Seq::empty()
    } else {
        le32_bytes(entry_bytes(ps[0]).len() as u32) + entry_bytes(ps[0]) + encode_pairs(
            ps.drop_first(),
        )
    }
}

/// The encoded comment header packet.
pub open spec fn header_bytes(vendor: Seq<char>, ps: Seq<Pair>) -> Seq<u8> {
    magic() + le32_bytes(encode_utf8(vendor).len() as u32) + encode_utf8(vendor) + le32_bytes(
        ps.len() as u32,
    ) + encode_pairs(ps)
}

/// Encoding a concatenation encodes each part in turn.
pub proof fn lemma_encode_pairs_concat(a: Seq<Pair>, b: Seq<Pair>)
    ensures
        encode_pairs(a + b) == encode_pairs(a) + encode_pairs(b),
    decreases a.len(),
{
    if a.len() == 0 {
        assert(a + b =~= b);
        assert(encode_pairs(a) + encode_pairs(b) =~= encode_pairs(b));
    } else {
        lemma_encode_pairs_concat(a.drop_first(), b);
        assert((a + b).drop_first() =~= a.drop_first() + b);
        assert((a + b)[0] == a[0]);
        assert(encode_pairs(a + b) =~= encode_pairs(a) + encode_pairs(b));
    }
}

/// Encoding one pair yields its length prefix and entry bytes.
pub proof fn lemma_encode_pairs_singleton(p: Pair)
    ensures
        encode_pairs(seq![p]) == le32_bytes(entry_bytes(p).len() as u32) + entry_bytes(p),
{
    assert(seq![p].drop_first() =~= Seq::<Pair>::empty());
    assert(encode_pairs(Seq::<Pair>::empty()) =~= Seq::<u8>::empty());
    assert(encode_pairs(seq![p]) =~= le32_bytes(entry_bytes(p).len() as u32) + entry_bytes(p));
}

/// Every way decoding a comment header can come out. Decoding is
/// all-or-nothing: the first malformed entry decides the outcome.
pub enum HeaderParse {
    /// A length field points past the end of the data.
    TooShort,
    /// The magic is absent.
    NotTags,
    /// A field holds invalid UTF-8; the offending bytes are carried.
    BadUtf8 { bytes: Seq<u8> },
    /// An entry has no `=`; the whole entry string is carried.
    NoSeparator { text: Seq<char> },
    /// The vendor string and the raw pairs, in wire order.
    Parsed { vendor: Seq<char>, pairs: Seq<Pair> },
}

/// The first index of `=` in `s`, or -1.
pub open spec fn first_sep(s: Seq<char>) -> int
    decreases s.len(),
{
    if s.len() == 0 {
        -1
    } else if s[0] == '=' {
        0
    } else {
        let r = first_sep(s.drop_first());
        if r == -1 {
            -1
        } else {
            r + 1
        }
    }
}

/// What [`first_sep`] returns: the first index holding `=`, if any.
pub proof fn lemma_first_sep(s: Seq<char>)
    ensures
        first_sep(s) == -1 ==> forall|j: int| 0 <= j < s.len() ==> s[j] != '=',
        first_sep(s) != -1 ==> 0 <= first_sep(s) < s.len() && s[first_sep(s)] == '=' && forall|
            j: int,
        | 0 <= j < first_sep(s) ==> s[j] != '=',
    decreases s.len(),
{
    if s.len() != 0 && s[0] != '=' {
        let d = s.drop_first();
        lemma_first_sep(d);
        let r = first_sep(d);
        if r == -1 {
            assert forall|j: int| 0 <= j < s.len() implies s[j] != '=' by {
                if j > 0 {
                    assert(s[j] == d[j - 1]);
                }
            }
        } else {
            assert(s[r + 1] == d[r]);
            assert forall|j: int| 0 <= j < r + 1 implies s[j] != '=' by {
                if j > 0 {
                    assert(s[j] == d[j - 1]);
                }
            }
        }
    }
}

/// The specification-level parse of `n` length-prefixed entries starting
/// at `pos`.
pub open spec fn parse_entries(b: Seq<u8>, pos: int, n: nat) -> HeaderParse
    decreases n,
{
    if n == 0 {
        HeaderParse::Parsed { vendor: Seq::empty(), pairs: Seq::empty() }
    } else if pos + 4 > b.len() {
        HeaderParse::TooShort
    } else {
        let l = le32_val(b.subrange(pos, pos + 4)) as int;
        if pos + 4 + l > b.len() {
            HeaderParse::TooShort
        } else {
            let e = b.subrange(pos + 4, pos + 4 + l);
            if !valid_utf8(e) {
                HeaderParse::BadUtf8 { bytes: e }
            } else {
                let s = decode_utf8(e);
                let sep = first_sep(s);
                if sep == -1 {
                    HeaderParse::NoSeparator { text: s }
                } else {
                    match parse_entries(b, pos + 4 + l, (n - 1) as nat) {
                        HeaderParse::Parsed { pairs, .. } => HeaderParse::Parsed {
                            vendor: Seq::empty(),
                            pairs: seq![(s.subrange(0, sep), s.subrange(sep + 1, s.len() as int))]
                                + pairs,
                        },
                        o => o,
                    }
                }
            }
        }
    }
}

/// The specification-level parse of a whole comment header packet.
/// Bytes after the last entry are ignored.
pub open spec fn parse_header(b: Seq<u8>) -> HeaderParse {
    if b.len() < 8 {
        HeaderParse::TooShort
    } else if b.subrange(0, 8) != magic() {
        HeaderParse::NotTags
    } else if b.len() < 12 {
        HeaderParse::TooShort
    } else {
        let vl = le32_val(b.subrange(8, 12)) as int;
        if 12 + vl > b.len() {
            HeaderParse::TooShort
        } else {
            let vb = b.subrange(12, 12 + vl);
            if !valid_utf8(vb) {
                HeaderParse::BadUtf8 { bytes: vb }
            } else if 12 + vl + 4 > b.len() {
                HeaderParse::TooShort
            } else {
                let n = le32_val(b.subrange(12 + vl, 16 + vl));
                match parse_entries(b, 16 + vl, n as nat) {
                    HeaderParse::Parsed { pairs, .. } => HeaderParse::Parsed {
                        vendor: decode_utf8(vb),
                        pairs,
                    },
                    o => o,
                }
            }
        }
    }
}

/// The view of a list of raw string pairs.
pub open spec fn pairs_view(ps: Seq<(String, String)>) -> Seq<Pair> {
    ps.map_values(|p: (String, String)| (p.0@, p.1@))
}

/// An error outcome and the parse it reports. [`parse_comment_header`]
/// returns an error exactly when the parse is not `Parsed`, carrying
/// the kind and payload the parse names.
pub open spec fn error_reports(e: Error, o: HeaderParse) -> bool {
    match e {
        Error::Truncated => o is TooShort,
        Error::NotOpus => o is NotTags,
        Error::InvalidUtf8(bb) => o == (HeaderParse::BadUtf8 { bytes: bb@ }),
        Error::MalformedComment(s) => o == (HeaderParse::NoSeparator { text: s@ }),
        _ => false,
    }
}

/// Resumes a partially done entry parse: pairs already read, the vendor,
/// and the parse of the remaining entries.
spec fn glue(done: Seq<Pair>, vendor: Seq<char>, o: HeaderParse) -> HeaderParse {
    match o {
        HeaderParse::Parsed { pairs, .. } => HeaderParse::Parsed { vendor, pairs: done + pairs },
        _ => o,
    }
}

/// The first `=` in `s`, if any.
fn find_eq(s: &str) -> (r: Option<usize>)
    ensures
        match r {
            Option::Some(j) => first_sep(s@) == j as int,
            Option::None => first_sep(s@) == -1,
        },
{
    proof {
        lemma_first_sep(s@);
    }
    let n = s.unicode_len();
    let mut j: usize = 0;
    #[verifier::loop_isolation(false)]
    while j < n
        invariant
            j <= n,
            forall|x: int| 0 <= x < j ==> s@[x] != '=',
        decreases n - j,
    {
        if s.get_char(j) == '=' {
            return Option::Some(j);
        }
        j = j + 1;
    }
    Option::None
}

/// Decodes a comment header packet into its vendor string and raw
/// `key=value` pairs, in wire order. Returns the error that
/// [`parse_header`] names on exactly the inputs it rejects.
#[verifier::loop_isolation(false)]
pub fn parse_comment_header(b: &[u8]) -> (r: Result<(String, Vec<(String, String)>), Error>)
    ensures
        match r {
            Ok(p) => parse_header(b@) == (HeaderParse::Parsed {
                vendor: p.0@,
                pairs: pairs_view(p.1@),
            }),
            Err(e) => error_reports(e, parse_header(b@)),
        },
{
    broadcast use encode_utf8_decode_utf8, encode_utf8_valid_utf8;

    let blen = b.len();
    if blen < 8 {
        return Err(Error::Truncated);
    }
    let magic_ok = *slice_index_get(b, 0) == 79 && *slice_index_get(b, 1) == 112
        && *slice_index_get(b, 2) == 117 && *slice_index_get(b, 3) == 115 && *slice_index_get(b, 4)
        == 84 && *slice_index_get(b, 5) == 97 && *slice_index_get(b, 6) == 103 && *slice_index_get(
        b,
        7,
    ) == 115;
    proof {
        assert(b@.subrange(0, 8) =~= magic() <==> (b@[0] == 79 && b@[1] == 112 && b@[2] == 117
            && b@[3] == 115 && b@[4] == 84 && b@[5] == 97 && b@[6] == 103 && b@[7] == 115));
    }
    if !magic_ok {
        return Err(Error::NotOpus);
    }
    if blen < 12 {
        return Err(Error::Truncated);
    }
    let vl32 = read_le32(b, 8);
    let vl = vl32 as usize;
    if vl > blen - 12 {
        return Err(Error::Truncated);
    }
    let ghost vbytes = b@.subrange(12, 12 + vl as int);
    let vvec = slice_to_vec(slice_subrange(b, 12, 12 + vl));
    let vendor = match crate::text::string_from_utf8(vvec) {
        Ok(s) => s,
        Err(bb) => {
            return Err(Error::InvalidUtf8(bb));
        },
    };
    proof {
        assert(vbytes == encode_utf8(vendor@));
        assert(valid_utf8(vbytes));
        assert(decode_utf8(vbytes) == vendor@);
    }
    if blen - 12 - vl < 4 {
        return Err(Error::Truncated);
    }
    let n32 = read_le32(b, 12 + vl);
    let n = n32 as usize;
    let mut pairs: Vec<(String, String)> = Vec::new();
    let mut pos: usize = 16 + vl;
    let mut i: usize = 0;
    proof {
        assert(pairs_view(pairs@) + parse_entries(b@, pos as int, n as nat)->Parsed_pairs
            =~= parse_entries(b@, pos as int, n as nat)->Parsed_pairs);
    }
    while i < n
        invariant
            i <= n,
            pos <= blen,
            parse_header(b@) == glue(pairs_view(pairs@), vendor@, parse_entries(b@, pos as int, (n
            - i) as nat)),
        decreases n - i,
    {
        if blen - pos < 4 {
            return Err(Error::Truncated);
        }
        let l32 = read_le32(b, pos);
        let l = l32 as usize;
        if l > blen - pos - 4 {
            return Err(Error::Truncated);
        }
        let estart = pos + 4;
        let eend = estart + l;
        let ghost ebytes = b@.subrange(estart as int, eend as int);
        let evec = slice_to_vec(slice_subrange(b, estart, eend));
        let s = match crate::text::string_from_utf8(evec) {
            Ok(s) => s,
            Err(bb) => {
                return Err(Error::InvalidUtf8(bb));
            },
        };
        proof {
            assert(ebytes == encode_utf8(s@));
            assert(valid_utf8(ebytes));
            assert(decode_utf8(ebytes) == s@);
        }
        let cl = s.as_str().unicode_len();
        match find_eq(s.as_str()) {
            Option::None => {
                return Err(Error::MalformedComment(s));
            },
            Option::Some(j) => {
                proof {
                    lemma_first_sep(s@);
                }
                let key = s.as_str().substring_char(0, j).to_owned();
                let value = s.as_str().substring_char(j + 1, cl).to_owned();
                let ghost done0 = pairs_view(pairs@);
                pairs.push((key, value));
                proof {
                    let rest = parse_entries(b@, eend as int, (n - i - 1) as nat);
                    assert(pairs_view(pairs@) =~= done0.push((key@, value@)));
                    if rest is Parsed {
                        assert(done0 + (seq![(key@, value@)] + rest->Parsed_pairs) =~= pairs_view(
                            pairs@,
                        ) + rest->Parsed_pairs);
                    }
                }
                pos = eend;
            },
        }
        i = i + 1;
    }
    proof {
        assert(pairs_view(pairs@) + Seq::<Pair>::empty() =~= pairs_view(pairs@));
    }
    Ok((vendor, pairs))
}

/// No key of any pair contains `=`: only such pairs survive a round
/// trip, since the entry is split at the first `=`.
pub open spec fn keys_sep_free(ps: Seq<Pair>) -> bool {
    forall|x: int, y: int|
        0 <= x < ps.len() && 0 <= y < ps[x].0.len() ==> #[trigger] ps[x].0[y] != '='
}

/// An entry's bytes are the UTF-8 encoding of `key=value`.
pub proof fn lemma_entry_bytes_encode(p: Pair)
    ensures
        entry_bytes(p) == encode_utf8(p.0 + seq!['='] + p.1),
{
    crate::text::lemma_encode_utf8_concat(p.0 + seq!['='], p.1);
    crate::text::lemma_encode_utf8_concat(p.0, seq!['=']);
    assert(seq!['='].drop_first() =~= Seq::<char>::empty());
    assert(encode_utf8(Seq::<char>::empty()) =~= Seq::<u8>::empty());
    assert('=' as u32 == 61);
    assert(61u32 & 0x7F == 61) by (bit_vector);
    assert(encode_scalar(61u32) =~= seq![61u8]);
    assert(encode_utf8(seq!['=']) =~= seq![61u8]);
    assert(entry_bytes(p) =~= encode_utf8(p.0 + seq!['='] + p.1));
}

/// Parsing inverts encoding, entry by entry: on bytes that hold
/// `encode_pairs(ps)` at `pos`, the entry parser returns `ps`.
pub proof fn lemma_parse_entries_of_encoded(b: Seq<u8>, pos: int, ps: Seq<Pair>)
    requires
        forall|x: int| 0 <= x < ps.len() ==> pair_fits(#[trigger] ps[x]),
        keys_sep_free(ps),
        0 <= pos,
        pos + encode_pairs(ps).len() <= b.len(),
        b.subrange(pos, pos + encode_pairs(ps).len() as int) == encode_pairs(ps),
    ensures
        parse_entries(b, pos, ps.len() as nat) == (HeaderParse::Parsed {
            vendor: Seq::empty(),
            pairs: ps,
        }),
    decreases ps.len(),
{
    broadcast use vstd::utf8::encode_utf8_valid_utf8, vstd::utf8::encode_utf8_decode_utf8;

    if ps.len() == 0 {
        assert(parse_entries(b, pos, 0) == (HeaderParse::Parsed {
            vendor: Seq::<char>::empty(),
            pairs: Seq::<Pair>::empty(),
        }));
        assert(ps =~= Seq::<Pair>::empty());
    } else {
        let p = ps[0];
        let eb = entry_bytes(p);
        let el = eb.len() as int;
        let rest = ps.drop_first();
        let enc = encode_pairs(ps);
        assert(enc == le32_bytes(eb.len() as u32) + eb + encode_pairs(rest));
        assert(b.subrange(pos, pos + 4) =~= le32_bytes(eb.len() as u32));
        lemma_roundtrip_32(eb.len() as u32);
        assert(pair_fits(p));
        assert(le32_val(b.subrange(pos, pos + 4)) as int == el);
        assert(pos + 4 + el <= b.len());
        assert forall|x: int| 0 <= x < el implies b[pos + 4 + x] == eb[x] by {
            assert(b.subrange(pos, pos + enc.len() as int)[4 + x] == b[pos + 4 + x]);
            assert(enc[4 + x] == eb[x]);
        }
        assert(b.subrange(pos + 4, pos + 4 + el) =~= eb);
        lemma_entry_bytes_encode(p);
        let s0 = p.0 + seq!['='] + p.1;
        assert(valid_utf8(eb));
        assert(decode_utf8(eb) == s0);
        let kl = p.0.len() as int;
        assert(s0[kl] == '=');
        assert forall|j: int| 0 <= j < kl implies s0[j] != '=' by {
            assert(s0[j] == p.0[j]);
            assert(ps[0].0[j] != '=');
        }
        lemma_first_sep(s0);
        let fs = first_sep(s0);
        if fs == -1 {
            assert(false);
        } else if fs < kl {
            assert(s0[fs] == '=');
            assert(false);
        } else if fs > kl {
            assert(s0[kl] != '=');
            assert(false);
        }
        assert(fs == kl);
        assert(s0.subrange(0, kl) =~= p.0);
        assert(s0.subrange(kl + 1, s0.len() as int) =~= p.1);
        assert forall|x: int| 0 <= x < rest.len() implies pair_fits(#[trigger] rest[x]) by {
            assert(rest[x] == ps[x + 1]);
        }
        assert forall|x: int, y: int|
            0 <= x < rest.len() && 0 <= y < rest[x].0.len() implies #[trigger] rest[x].0[y]
            != '=' by {
            assert(rest[x] == ps[x + 1]);
            assert(ps[x + 1].0[y] != '=');
        }
        assert forall|x: int| 0 <= x < encode_pairs(rest).len() implies b[pos + 4 + el + x]
            == encode_pairs(rest)[x] by {
            assert(b.subrange(pos, pos + enc.len() as int)[4 + el + x] == b[pos + 4 + el + x]);
            assert(enc[4 + el + x] == encode_pairs(rest)[x]);
        }
        assert(b.subrange(pos + 4 + el, pos + 4 + el + encode_pairs(rest).len() as int)
            =~= encode_pairs(rest));
        lemma_parse_entries_of_encoded(b, pos + 4 + el, rest);
        assert(parse_entries(b, pos + 4 + el, rest.len() as nat) == (HeaderParse::Parsed {
            vendor: Seq::<char>::empty(),
            pairs: rest,
        }));
        assert(seq![(s0.subrange(0, fs), s0.subrange(fs + 1, s0.len() as int))] + rest =~= ps);
    }
}

/// Parsing inverts encoding for the whole packet: on the bytes of
/// `header_bytes(vendor, ps)` the parser returns the vendor and pairs.
pub proof fn lemma_parse_header_of_encoded(vendor: Seq<char>, ps: Seq<Pair>)
    requires
        header_fits(vendor, ps),
        keys_sep_free(ps),
    ensures
        parse_header(header_bytes(vendor, ps)) == (HeaderParse::Parsed { vendor, pairs: ps }),
{
    broadcast use vstd::utf8::encode_utf8_valid_utf8, vstd::utf8::encode_utf8_decode_utf8;

    let vb = encode_utf8(vendor);
    let vl = vb.len() as int;
    let b = header_bytes(vendor, ps);
    assert(b.len() == 16 + vl + encode_pairs(ps).len());
    assert(b.subrange(0, 8) =~= magic());
    assert(b.subrange(8, 12) =~= le32_bytes(vb.len() as u32));
    lemma_roundtrip_32(vb.len() as u32);
    assert(le32_val(b.subrange(8, 12)) as int == vl);
    assert(b.subrange(12, 12 + vl) =~= vb);
    assert(valid_utf8(vb));
    assert(decode_utf8(vb) == vendor);
    assert(b.subrange(12 + vl, 16 + vl) =~= le32_bytes(ps.len() as u32));
    lemma_roundtrip_32(ps.len() as u32);
    assert(le32_val(b.subrange(12 + vl, 16 + vl)) as int == ps.len() as int);
    assert(b.subrange(16 + vl, 16 + vl + encode_pairs(ps).len() as int) =~= encode_pairs(ps));
    lemma_parse_entries_of_encoded(b, 16 + vl, ps);
}

} // verus!
