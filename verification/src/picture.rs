//! Pictures embedded in comment tags.
//!
//! A picture is stored as a binary block — big-endian u32 fields for
//! the type code and the lengths, the MIME type and description as
//! UTF-8, four geometry fields written as zero, then the image bytes —
//! wrapped in base64 and kept as an ordinary comment value under the
//! `metadata_block_picture` key.
//!
//! [`parse_picture`] is the specification-level parser of the block;
//! the executable [`Picture::from_bytes`] is proved to agree with it,
//! and [`lemma_picture_round_trip`] shows that it inverts
//! [`picture_bytes`].

use vstd::prelude::*;
use vstd::slice::slice_subrange;
use vstd::slice::slice_to_vec;
use vstd::string::StrSliceExecFns;
use vstd::utf8::encode_utf8;
use vstd::utf8::decode_utf8;
use vstd::utf8::encode_utf8_decode_utf8;
use vstd::utf8::encode_utf8_valid_utf8;
use vstd::utf8::valid_utf8;

use base64::Engine;
use base64::prelude::BASE64_STANDARD;
use mime_sniffer::MimeTypeSniffer;

use crate::Error;
use crate::text::string_from_utf8;
use crate::wire::be32_bytes;
use crate::wire::be32_val;
use crate::wire::lemma_roundtrip_32;
use crate::wire::push_be32;
use crate::wire::read_be32;

verus! {

/// Type of picture, following the APIC picture-type table: codes 0
/// through 20.
#[derive(Debug, Clone, Copy, PartialEq, Eq, Structural, PartialOrd, Ord)]
pub enum PictureType {
    Other,
    FileIcon,
    OtherIcon,
    CoverFront,
    CoverBack,
    LeafletPage,
    Media,
    LeadArtist,
    Artist,
    Conductor,
    BandOrchestra,
    Composter,
    Lyricist,
    RecordingLocation,
    DuringRecording,
    DuringPerformance,
    MovieCapture,
    BrightColouredFish,
    Illustration,
    BandLogo,
    PublisherLogo,
}

/// Errors raised while encoding or decoding a [`Picture`].
#[derive(Debug, Clone, Copy, PartialEq, Eq, Structural)]
pub enum PictureError {
    /// The type code is above 20.
    InvalidPictureType,
    /// The MIME type does not fit a 32-bit length prefix.
    MimeTooLong,
    /// The description does not fit a 32-bit length prefix.
    DescriptionTooLong,
    /// The picture data does not fit a 32-bit length prefix.
    DataTooLong,
    /// The stored text is not valid base64.
    Base64DecodeError,
    /// No MIME type was given and none could be sniffed from the data.
    NoMimeType,
}

impl PictureType {
    /// The wire code of this type.
    pub open spec fn spec_code(self) -> u32 {
        match self {
            PictureType::Other => 0,
            PictureType::FileIcon => 1,
            PictureType::OtherIcon => 2,
            PictureType::CoverFront => 3,
            PictureType::CoverBack => 4,
            PictureType::LeafletPage => 5,
            PictureType::Media => 6,
            PictureType::LeadArtist => 7,
            PictureType::Artist => 8,
            PictureType::Conductor => 9,
            PictureType::BandOrchestra => 10,
            PictureType::Composter => 11,
            PictureType::Lyricist => 12,
            PictureType::RecordingLocation => 13,
            PictureType::DuringRecording => 14,
            PictureType::DuringPerformance => 15,
            PictureType::MovieCapture => 16,
            PictureType::BrightColouredFish => 17,
            PictureType::Illustration => 18,
            PictureType::BandLogo => 19,
            PictureType::PublisherLogo => 20,
        }
    }

    /// The wire code of this type.
    pub fn code(&self) -> (r: u32)
        ensures
            r == self.spec_code(),
    {
        match self {
            PictureType::Other => 0,
            PictureType::FileIcon => 1,
            PictureType::OtherIcon => 2,
            PictureType::CoverFront => 3,
            PictureType::CoverBack => 4,
            PictureType::LeafletPage => 5,
            PictureType::Media => 6,
            PictureType::LeadArtist => 7,
            PictureType::Artist => 8,
            PictureType::Conductor => 9,
            PictureType::BandOrchestra => 10,
            PictureType::Composter => 11,
            PictureType::Lyricist => 12,
            PictureType::RecordingLocation => 13,
            PictureType::DuringRecording => 14,
            PictureType::DuringPerformance => 15,
            PictureType::MovieCapture => 16,
            PictureType::BrightColouredFish => 17,
            PictureType::Illustration => 18,
            PictureType::BandLogo => 19,
            PictureType::PublisherLogo => 20,
        }
    }

    /// The picture type with wire code `num`. Codes above 20 name no
    /// type and are rejected.
    pub fn from_u32(num: u32) -> (r: Result<PictureType, PictureError>)
        ensures
            match r {
                Ok(pt) => num <= 20 && pt.spec_code() == num,
                Err(e) => num > 20 && e == PictureError::InvalidPictureType,
            },
    {
        match num {
            0 => Ok(PictureType::Other),
            1 => Ok(PictureType::FileIcon),
            2 => Ok(PictureType::OtherIcon),
            3 => Ok(PictureType::CoverFront),
            4 => Ok(PictureType::CoverBack),
            5 => Ok(PictureType::LeafletPage),
            6 => Ok(PictureType::Media),
            7 => Ok(PictureType::LeadArtist),
            8 => Ok(PictureType::Artist),
            9 => Ok(PictureType::Conductor),
            10 => Ok(PictureType::BandOrchestra),
            11 => Ok(PictureType::Composter),
            12 => Ok(PictureType::Lyricist),
            13 => Ok(PictureType::RecordingLocation),
            14 => Ok(PictureType::DuringRecording),
            15 => Ok(PictureType::DuringPerformance),
            16 => Ok(PictureType::MovieCapture),
            17 => Ok(PictureType::BrightColouredFish),
            18 => Ok(PictureType::Illustration),
            19 => Ok(PictureType::BandLogo),
            20 => Ok(PictureType::PublisherLogo),
            _ => Err(PictureError::InvalidPictureType),
        }
    }
}

impl Default for PictureType {
    /// The default type is `Other`, code 0.
    fn default() -> (r: PictureType)
        ensures
            r == PictureType::Other,
    {
        PictureType::Other
    }
}

/// The abstract content of a picture: what the binary block carries.
pub struct PictureModel {
    pub code: u32,
    pub mime: Seq<char>,
    pub desc: Seq<char>,
    pub width: u32,
    pub height: u32,
    pub depth: u32,
    pub num_colors: u32,
    pub data: Seq<u8>,
}

/// The same picture with the geometry fields zeroed, as every decode
/// returns them.
pub open spec fn zero_geometry(m: PictureModel) -> PictureModel {
    PictureModel { width: 0, height: 0, depth: 0, num_colors: 0, ..m }
}

/// Whether every variable-length field fits its 32-bit length prefix.
pub open spec fn picture_fits(m: PictureModel) -> bool {
    &&& encode_utf8(m.mime).len() <= u32::MAX
    &&& encode_utf8(m.desc).len() <= u32::MAX
    &&& m.data.len() <= u32::MAX
}

/// The binary picture block: big-endian type code, length-prefixed
/// MIME type and description, four zero geometry fields, then the
/// length-prefixed data. The geometry of `m` is not written: the wire
/// form always holds zeros there.
pub open spec fn picture_bytes(m: PictureModel) -> Seq<u8> {
    be32_bytes(m.code) + be32_bytes(encode_utf8(m.mime).len() as u32) + encode_utf8(m.mime)
        + be32_bytes(encode_utf8(m.desc).len() as u32) + encode_utf8(m.desc) + be32_bytes(0)
        + be32_bytes(0) + be32_bytes(0) + be32_bytes(0) + be32_bytes(m.data.len() as u32) + m.data
}

/// The outcome of encoding: the block's bytes, or the first field that
/// does not fit, checked in wire order.
pub open spec fn encode_picture_outcome(m: PictureModel) -> Result<Seq<u8>, PictureError> {
    if encode_utf8(m.mime).len() > u32::MAX {
        Err(PictureError::MimeTooLong)
    } else if encode_utf8(m.desc).len() > u32::MAX {
        Err(PictureError::DescriptionTooLong)
    } else if m.data.len() > u32::MAX {
        Err(PictureError::DataTooLong)
    } else {
        Ok(picture_bytes(m))
    }
}

/// Every way decoding a picture block can come out.
pub enum PictureParse {
    /// A length field points past the end of the data.
    TooShort,
    /// The type code is above 20.
    BadType { code: u32 },
    /// A text field holds invalid UTF-8; the offending bytes are carried.
    BadUtf8 { bytes: Seq<u8> },
    /// The decoded picture; its geometry is always zero, whatever the
    /// input held there.
    Pic { m: PictureModel },
}

/// The specification-level parse of a picture block. The geometry
/// fields are read past and discarded; bytes after the data are
/// ignored.
pub open spec fn parse_picture(b: Seq<u8>) -> PictureParse {
    if b.len() < 4 {
        PictureParse::TooShort
    } else {
        let code = be32_val(b.subrange(0, 4));
        if code > 20 {
            PictureParse::BadType { code }
        } else if b.len() < 8 {
            PictureParse::TooShort
        } else {
            let ml = be32_val(b.subrange(4, 8)) as int;
            if 8 + ml > b.len() {
                PictureParse::TooShort
            } else {
                let mb = b.subrange(8, 8 + ml);
                if !valid_utf8(mb) {
                    PictureParse::BadUtf8 { bytes: mb }
                } else {
                    let p1 = 8 + ml;
                    if p1 + 4 > b.len() {
                        PictureParse::TooShort
                    } else {
                        let dl = be32_val(b.subrange(p1, p1 + 4)) as int;
                        if p1 + 4 + dl > b.len() {
                            PictureParse::TooShort
                        } else {
                            let db = b.subrange(p1 + 4, p1 + 4 + dl);
                            if !valid_utf8(db) {
                                PictureParse::BadUtf8 { bytes: db }
                            } else {
                                let p2 = p1 + 4 + dl + 16;
                                if p2 + 4 > b.len() {
                                    PictureParse::TooShort
                                } else {
                                    let nl = be32_val(b.subrange(p2, p2 + 4)) as int;
                                    if p2 + 4 + nl > b.len() {
                                        PictureParse::TooShort
                                    } else {
                                        PictureParse::Pic {
                                            m: PictureModel {
                                                code,
                                                mime: decode_utf8(mb),
                                                desc: decode_utf8(db),
                                                width: 0,
                                                height: 0,
                                                depth: 0,
                                                num_colors: 0,
                                                data: b.subrange(p2 + 4, p2 + 4 + nl),
                                            },
                                        }
                                    }
                                }
                            }
                        }
                    }
                }
            }
        }
    }
}

/// An error outcome and the parse it reports.
pub open spec fn picture_error_reports(e: Error, o: PictureParse) -> bool {
    match e {
        Error::Truncated => o is TooShort,
        Error::InvalidUtf8(bb) => o == (PictureParse::BadUtf8 { bytes: bb@ }),
        Error::Picture(pe) => pe == PictureError::InvalidPictureType && o is BadType,
        _ => false,
    }
}

/// Stores picture data. The geometry fields are written as zero and
/// read back as zero; leave them 0.
#[derive(Debug, Clone)]
pub struct Picture {
    pub picture_type: PictureType,
    pub mime_type: String,
    pub description: String,
    pub width: u32,
    pub height: u32,
    pub depth: u32,
    pub num_colors: u32,
    pub data: Vec<u8>,
}

impl Picture {
    /// The abstract content of this picture.
    pub open spec fn model(self) -> PictureModel {
        PictureModel {
            code: self.picture_type.spec_code(),
            mime: self.mime_type@,
            desc: self.description@,
            width: self.width,
            height: self.height,
            depth: self.depth,
            num_colors: self.num_colors,
            data: self.data@,
        }
    }

    /// An empty picture: type `Other`, empty texts and data.
    pub fn new() -> (r: Picture)
        ensures
            r.model() == (PictureModel {
                code: 0,
                mime: Seq::<char>::empty(),
                desc: Seq::<char>::empty(),
                width: 0,
                height: 0,
                depth: 0,
                num_colors: 0,
                data: Seq::<u8>::empty(),
            }),
    {
        let r = Picture {
            picture_type: PictureType::Other,
            mime_type: String::new(),
            description: String::new(),
            width: 0,
            height: 0,
            depth: 0,
            num_colors: 0,
            data: Vec::new(),
        };
        proof {
            assert(r.mime_type@ =~= Seq::<char>::empty());
            assert(r.description@ =~= Seq::<char>::empty());
            assert(r.data@ =~= Seq::<u8>::empty());
        }
        r
    }

    /// Decodes a picture block. Returns the error that
    /// [`parse_picture`] names on exactly the inputs it rejects.
    pub fn from_bytes(b: &[u8]) -> (r: Result<Picture, Error>)
        ensures
            match r {
                Ok(p) => parse_picture(b@) == (PictureParse::Pic { m: p.model() }),
                Err(e) => picture_error_reports(e, parse_picture(b@)),
            },
    {
        broadcast use encode_utf8_decode_utf8, encode_utf8_valid_utf8;

        let blen = b.len();
        if blen < 4 {
            return Err(Error::Truncated);
        }
        let code = read_be32(b, 0);
        let picture_type = match PictureType::from_u32(code) {
            Ok(pt) => pt,
            Err(pe) => {
                return Err(Error::Picture(pe));
            },
        };
        if blen < 8 {
            return Err(Error::Truncated);
        }
        let ml32 = read_be32(b, 4);
        let ml = ml32 as usize;
        if ml > blen - 8 {
            return Err(Error::Truncated);
        }
        let ghost mbytes = b@.subrange(8, 8 + ml as int);
        let mvec = slice_to_vec(slice_subrange(b, 8, 8 + ml));
        let mime_type = match string_from_utf8(mvec) {
            Ok(s) => s,
            Err(bb) => {
                return Err(Error::InvalidUtf8(bb));
            },
        };
        proof {
            assert(mbytes == encode_utf8(mime_type@));
            assert(valid_utf8(mbytes));
            assert(decode_utf8(mbytes) == mime_type@);
        }
        let p1 = 8 + ml;
        if blen - p1 < 4 {
            return Err(Error::Truncated);
        }
        let dl32 = read_be32(b, p1);
        let dl = dl32 as usize;
        if dl > blen - p1 - 4 {
            return Err(Error::Truncated);
        }
        let ghost dbytes = b@.subrange(p1 as int + 4, p1 as int + 4 + dl as int);
        let dvec = slice_to_vec(slice_subrange(b, p1 + 4, p1 + 4 + dl));
        let description = match string_from_utf8(dvec) {
            Ok(s) => s,
            Err(bb) => {
                return Err(Error::InvalidUtf8(bb));
            },
        };
        proof {
            assert(dbytes == encode_utf8(description@));
            assert(valid_utf8(dbytes));
            assert(decode_utf8(dbytes) == description@);
        }
        let p2 = p1 + 4 + dl;
        if blen - p2 < 20 {
            return Err(Error::Truncated);
        }
        let p3 = p2 + 16;
        let nl32 = read_be32(b, p3);
        let nl = nl32 as usize;
        if nl > blen - p3 - 4 {
            return Err(Error::Truncated);
        }
        let data = slice_to_vec(slice_subrange(b, p3 + 4, p3 + 4 + nl));
        Ok(
            Picture {
                picture_type,
                mime_type,
                description,
                width: 0,
                height: 0,
                depth: 0,
                num_colors: 0,
                data,
            },
        )
    }

    /// Encodes this picture as the binary block, writing zeros for the
    /// geometry fields whatever this picture holds there. Fails exactly
    /// on the first field, in wire order, that does not fit a 32-bit
    /// length prefix.
    pub fn to_bytes(&self) -> (r: Result<Vec<u8>, PictureError>)
        ensures
            match r {
                Ok(out) => encode_picture_outcome(self.model()) == Ok::<_, PictureError>(out@),
                Err(e) => encode_picture_outcome(self.model()) == Err::<Seq<u8>, _>(e),
            },
    {
        let mut out: Vec<u8> = Vec::new();
        let code = self.picture_type.code();
        push_be32(&mut out, code);
        let mut mb = self.mime_type.as_str().as_bytes_vec();
        let mlen = mb.len();
        if mlen as u64 > u32::MAX as u64 {
            return Err(PictureError::MimeTooLong);
        }
        push_be32(&mut out, mlen as u32);
        out.append(&mut mb);
        let mut db = self.description.as_str().as_bytes_vec();
        let dlen = db.len();
        if dlen as u64 > u32::MAX as u64 {
            return Err(PictureError::DescriptionTooLong);
        }
        push_be32(&mut out, dlen as u32);
        out.append(&mut db);
        push_be32(&mut out, 0);
        push_be32(&mut out, 0);
        push_be32(&mut out, 0);
        push_be32(&mut out, 0);
        let nlen = self.data.len();
        if nlen as u64 > u32::MAX as u64 {
            return Err(PictureError::DataTooLong);
        }
        push_be32(&mut out, nlen as u32);
        out.extend_from_slice(self.data.as_slice());
        proof {
            assert(out@ =~= picture_bytes(self.model()));
        }
        Ok(out)
    }
}

/// Parsing a picture block inverts encoding: the same content comes
/// back, except the geometry, which decodes as zero.
pub proof fn lemma_picture_round_trip(m: PictureModel)
    requires
        m.code <= 20,
        picture_fits(m),
    ensures
        parse_picture(picture_bytes(m)) == (PictureParse::Pic { m: zero_geometry(m) }),
{
    broadcast use encode_utf8_decode_utf8, encode_utf8_valid_utf8;

    let b = picture_bytes(m);
    let mb = encode_utf8(m.mime);
    let db = encode_utf8(m.desc);
    let ml = mb.len() as int;
    let dl = db.len() as int;
    let nl = m.data.len() as int;
    lemma_roundtrip_32(m.code);
    lemma_roundtrip_32(mb.len() as u32);
    lemma_roundtrip_32(db.len() as u32);
    lemma_roundtrip_32(m.data.len() as u32);
    lemma_roundtrip_32(0);
    assert(b.len() == 32 + ml + dl + nl);
    assert(b.subrange(0, 4) =~= be32_bytes(m.code));
    assert(b.subrange(4, 8) =~= be32_bytes(mb.len() as u32));
    assert(b.subrange(8, 8 + ml) =~= mb);
    let p1 = 8 + ml;
    assert(b.subrange(p1, p1 + 4) =~= be32_bytes(db.len() as u32));
    assert(b.subrange(p1 + 4, p1 + 4 + dl) =~= db);
    let p2 = p1 + 4 + dl + 16;
    assert(b.subrange(p2, p2 + 4) =~= be32_bytes(m.data.len() as u32));
    assert(b.subrange(p2 + 4, p2 + 4 + nl) =~= m.data);
    assert(valid_utf8(mb));
    assert(valid_utf8(db));
    assert(decode_utf8(mb) == m.mime);
    assert(decode_utf8(db) == m.desc);
}


/// What the standard padded base64 engine prints for given bytes.
pub uninterp spec fn base64_of(b: Seq<u8>) -> Seq<char>;

/// What the standard padded base64 engine decodes given text to, if
/// it accepts the text.
pub uninterp spec fn base64_bytes_of(s: Seq<char>) -> Option<Seq<u8>>;

#[verifier::external_type_specification]
#[verifier::external_body]
pub struct ExDecodeError(base64::DecodeError);

/// Relies on base64's `Engine::encode` with the standard padded
/// engine: the text is a function of the bytes alone, and the same
/// engine's `decode` accepts it and returns the bytes.
#[verifier::external_body]
fn base64_encode(b: &[u8]) -> (r: String)
    ensures
        r@ == base64_of(b@),
        base64_bytes_of(r@) == Option::Some(b@),
{
    BASE64_STANDARD.encode(b)
}

/// Relies on base64's `Engine::decode` with the standard padded
/// engine: acceptance and result are a function of the text alone.
#[verifier::external_body]
fn base64_decode(s: &str) -> (r: Result<Vec<u8>, base64::DecodeError>)
    ensures
        match r {
            Ok(v) => base64_bytes_of(s@) == Option::Some(v@),
            Err(_) => base64_bytes_of(s@) is None,
        },
{
    BASE64_STANDARD.decode(s)
}

/// What mime_sniffer reports for given bytes.
pub uninterp spec fn sniffed_mime(b: Seq<u8>) -> Option<Seq<char>>;

/// Relies on mime_sniffer's `sniff_mime_type` on byte content, which
/// computes its result from the bytes alone.
#[verifier::external_body]
fn sniff_mime(b: &Vec<u8>) -> (r: Option<String>)
    ensures
        match r {
            Option::Some(s) => sniffed_mime(b@) == Option::Some(s@),
            Option::None => sniffed_mime(b@) is None,
        },
{
    b.sniff_mime_type().map(|s| s.to_string())
}

/// The picture a stored comment value decodes to: the value's text
/// must be accepted by base64 and the bytes must parse as a picture
/// block; anything else decodes to nothing.
pub open spec fn decoded_pic(s: Seq<char>) -> Option<PictureModel> {
    match base64_bytes_of(s) {
        Option::None => Option::None,
        Option::Some(bytes) => match parse_picture(bytes) {
            PictureParse::Pic { m } => Option::Some(m),
            _ => Option::None,
        },
    }
}

impl Picture {
    /// Every picture type's code is at most 20.
    pub proof fn lemma_code_range(self)
        ensures
            self.model().code <= 20,
    {
    }

    /// Encodes this picture and wraps the block in base64, yielding the
    /// comment value it is stored as. The value decodes back to this
    /// picture, geometry zeroed. Fails exactly as [`Picture::to_bytes`]
    /// does.
    pub fn to_base64(&self) -> (r: Result<String, Error>)
        ensures
            match r {
                Ok(s) => {
                    &&& encode_picture_outcome(self.model()) == Ok::<_, PictureError>(
                        picture_bytes(self.model()),
                    )
                    &&& s@ == base64_of(picture_bytes(self.model()))
                    &&& decoded_pic(s@) == Option::Some(zero_geometry(self.model()))
                },
                Err(e) => match e {
                    Error::Picture(pe) => encode_picture_outcome(self.model()) == Err::<
                        Seq<u8>,
                        _,
                    >(pe),
                    _ => false,
                },
            },
    {
        let bytes = match self.to_bytes() {
            Ok(bytes) => bytes,
            Err(pe) => {
                return Err(Error::Picture(pe));
            },
        };
        let s = base64_encode(bytes.as_slice());
        proof {
            self.lemma_code_range();
            lemma_picture_round_trip(self.model());
        }
        Ok(s)
    }

    /// Unwraps a base64 comment value and decodes the picture block in
    /// it. Fails with `Base64DecodeError` on text the engine rejects,
    /// else exactly as [`Picture::from_bytes`] does.
    pub fn from_base64(data: &str) -> (r: Result<Picture, Error>)
        ensures
            match r {
                Ok(p) => decoded_pic(data@) == Option::Some(p.model()),
                Err(e) => match e {
                    Error::Picture(PictureError::Base64DecodeError) => base64_bytes_of(data@)
                        is None,
                    _ => {
                        &&& base64_bytes_of(data@) matches Option::Some(bytes)
                        &&& picture_error_reports(e, parse_picture(bytes))
                    },
                },
            },
    {
        let bytes = match base64_decode(data) {
            Ok(v) => v,
            Err(_) => {
                return Err(Error::Picture(PictureError::Base64DecodeError));
            },
        };
        Picture::from_bytes(bytes.as_slice())
    }

    /// Builds a picture holding the given bytes: the MIME type is the
    /// one given, or the one sniffed from the bytes; without either the
    /// picture cannot be built. Type, description and geometry start
    /// out as their defaults.
    pub fn read_from(data: Vec<u8>, mime_type: Option<String>) -> (r: Result<Picture, Error>)
        ensures
            match r {
                Ok(p) => {
                    &&& p.model().data == data@
                    &&& p.model().desc == Seq::<char>::empty()
                    &&& p.model().code == 0
                    &&& p.model().width == 0 && p.model().height == 0 && p.model().depth == 0
                        && p.model().num_colors == 0
                    &&& match mime_type {
                        Option::Some(m) => p.model().mime == m@,
                        Option::None => sniffed_mime(data@) == Option::Some(p.model().mime),
                    }
                },
                Err(e) => {
                    &&& e matches Error::Picture(pe) && pe == PictureError::NoMimeType
                    &&& mime_type is None
                    &&& sniffed_mime(data@) is None
                },
            },
    {
        let mime = match mime_type {
            Option::Some(m) => m,
            Option::None => {
                match sniff_mime(&data) {
                    Option::Some(m) => m,
                    Option::None => {
                        return Err(Error::Picture(PictureError::NoMimeType));
                    },
                }
            },
        };
        let mut pic = Picture::new();
        pic.mime_type = mime;
        pic.data = data;
        Ok(pic)
    }
}

} // verus!
