//! Reading and rewriting the Ogg container that carries the comment
//! header.
//!
//! The container is handled at the packet level through the ogg crate,
//! over in-memory bytes. A container's packet sequence is modelled by
//! the uninterpreted [`ogg_packets`]; the reader and writer wrappers
//! state how each call moves along or extends that sequence. Reading
//! looks only at the first two packets; rewriting passes every packet
//! through unchanged except the second, which is replaced by the
//! freshly encoded comment header.

use vstd::prelude::*;

use crate::Error;
use crate::Tag;
use crate::build_entries;
use crate::flat_pairs;
use crate::header::HeaderParse;
use crate::header::error_reports;
use crate::header::header_bytes;
use crate::header::header_fits;
use crate::header::parse_header;

verus! {

/// One packet of the container, as the logic sees it: the payload and
/// its framing.
pub struct PacketRec {
    /// The packet's payload bytes.
    pub data: Vec<u8>,
    /// The serial of the logical stream the packet belongs to.
    pub serial: u32,
    /// The absolute granule position of the page the packet ended on.
    pub granule: u64,
    /// Whether the packet is the last of its page.
    pub last_in_page: bool,
    /// Whether the packet is the last of its stream.
    pub last_in_stream: bool,
}

/// The abstract content of one packet: payload, serial, granule
/// position, end-of-page and end-of-stream.
pub type PacketModel = (Seq<u8>, u32, u64, bool, bool);

impl PacketRec {
    /// The abstract content of this packet.
    pub open spec fn model(self) -> PacketModel {
        (self.data@, self.serial, self.granule, self.last_in_page, self.last_in_stream)
    }
}

/// Whether a packet closes its page or its stream.
pub open spec fn ends_page(p: PacketModel) -> bool {
    p.3 || p.4
}

/// The page discipline of a packet sequence: a packet directly
/// followed by a packet of another stream closes its page, and so does
/// the last packet. Every sequence a reader yields has it — a packet
/// that does not close its page is followed by another packet of the
/// same page, hence the same stream — and every sequence written under
/// it is fully flushed, because each stream's buffered page is written
/// out at its closing packet.
pub open spec fn paged(ms: Seq<PacketModel>) -> bool {
    &&& forall|i: int|
        #![trigger ms[i], ms[i + 1]]
        0 <= i < ms.len() - 1 && ms[i].1 != ms[i + 1].1 ==> ends_page(ms[i])
    &&& ms.len() > 0 ==> ends_page(ms.last())
}

/// The packets an ogg reader yields for these container bytes, in
/// order, as far as the container is well-formed.
pub uninterp spec fn ogg_packets(data: Seq<u8>) -> Seq<PacketModel>;

/// Whether the ogg layer accepts these container bytes whole: a
/// reader over them yields packet after packet and reaches the end
/// without ever failing.
pub uninterp spec fn ogg_wf(data: Seq<u8>) -> bool;

/// Holds the ogg crate's packet reader over in-memory container
/// bytes. Verus refuses the reader's own type bounds, so the reader
/// sits opaque in this struct and is spoken of through
/// [`reader_rest`].
#[verifier::external_body]
pub struct ContainerReader {
    inner: ogg::PacketReader<std::io::Cursor<Vec<u8>>>,
}

/// Holds the ogg crate's packet writer into in-memory bytes, opaque
/// for the same reason as [`ContainerReader`]; it is spoken of through
/// [`writer_emitted`].
#[verifier::external_body]
pub struct ContainerWriter {
    inner: ogg::PacketWriter<'static, std::io::Cursor<Vec<u8>>>,
}

/// The packets a reader has not yielded yet.
pub uninterp spec fn reader_rest(r: ContainerReader) -> Seq<PacketModel>;

/// Whether this reader state will not fail: every further read
/// returns `Ok`.
pub uninterp spec fn reader_ok(r: ContainerReader) -> bool;

/// The packets a writer has written so far.
pub uninterp spec fn writer_emitted(w: ContainerWriter) -> Seq<PacketModel>;

#[verifier::external_type_specification]
#[verifier::external_body]
pub struct ExOggReadError(ogg::OggReadError);

#[verifier::external_type_specification]
#[verifier::external_body]
pub struct ExIoError(std::io::Error);

/// Relies on ogg's `PacketReader::new` over an in-memory cursor: a
/// fresh reader has the container's whole packet sequence ahead of it,
/// and whether it will ever fail depends on the bytes alone — there is
/// no other input. The yielded sequence has the page discipline of
/// [`paged`]: a packet that does not close its page is followed by
/// another packet of the same, already parsed page.
#[verifier::external_body]
fn packet_reader_new(data: Vec<u8>) -> (r: ContainerReader)
    ensures
        reader_rest(r) == ogg_packets(data@),
        reader_ok(r) == ogg_wf(data@),
        paged(reader_rest(r)),
{
    ContainerReader { inner: ogg::PacketReader::new(std::io::Cursor::new(data)) }
}

/// Relies on ogg's `PacketReader::read_packet` and the `Packet`
/// accessors `stream_serial`, `absgp_page`, `last_in_page` and
/// `last_in_stream`: on success the next pending packet comes back
/// with its framing, and `None` comes back only once no packet is
/// pending. A reader state that cannot fail returns `Ok` and stays
/// failure-free; nothing is claimed when a read does fail.
#[verifier::external_body]
fn packet_reader_next(r: &mut ContainerReader) -> (res: Result<
    Option<PacketRec>,
    ogg::OggReadError,
>)
    ensures
        reader_ok(*old(r)) ==> res is Ok && reader_ok(*final(r)),
        match res {
            Ok(Option::Some(p)) => reader_rest(*old(r)).len() > 0 && p.model() == reader_rest(
                *old(r),
            )[0] && reader_rest(*final(r)) == reader_rest(*old(r)).drop_first(),
            Ok(Option::None) => reader_rest(*old(r)).len() == 0 && reader_rest(*final(r)).len()
                == 0,
            Err(_) => true,
        },
{
    match r.inner.read_packet() {
        Ok(Some(p)) => {
            let serial = p.stream_serial();
            let granule = p.absgp_page();
            let last_in_page = p.last_in_page();
            let last_in_stream = p.last_in_stream();
            Ok(
                Some(
                    PacketRec { data: p.data, serial, granule, last_in_page, last_in_stream },
                ),
            )
        },
        Ok(None) => Ok(None),
        Err(e) => Err(e),
    }
}

/// How a written packet ends its page, handed through to the container
/// writer.
pub enum EndInfo {
    /// An ordinary packet.
    Normal,
    /// The packet force-ends its page.
    EndPage,
    /// The packet ends the whole logical stream.
    EndStream,
}

impl EndInfo {
    /// The end-of-page and end-of-stream flags this choice stands for.
    pub open spec fn flags(self) -> (bool, bool) {
        match self {
            EndInfo::Normal => (false, false),
            EndInfo::EndPage => (true, false),
            EndInfo::EndStream => (true, true),
        }
    }
}

/// The end choice that reproduces a read packet's framing: stream end
/// first, else page end, else an ordinary packet.
pub open spec fn spec_end_info(last_in_page: bool, last_in_stream: bool) -> EndInfo {
    if last_in_stream {
        EndInfo::EndStream
    } else if last_in_page {
        EndInfo::EndPage
    } else {
        EndInfo::Normal
    }
}

/// The end choice for passing a read packet through.
fn get_end_info(p: &PacketRec) -> (r: EndInfo)
    ensures
        r == spec_end_info(p.last_in_page, p.last_in_stream),
{
    if p.last_in_stream {
        EndInfo::EndStream
    } else if p.last_in_page {
        EndInfo::EndPage
    } else {
        EndInfo::Normal
    }
}

/// Relies on ogg's `PacketWriter::new` over an in-memory cursor: a
/// fresh writer has written nothing.
#[verifier::external_body]
fn packet_writer_new() -> (w: ContainerWriter)
    ensures
        writer_emitted(w) == Seq::<PacketModel>::empty(),
{
    ContainerWriter { inner: ogg::PacketWriter::new(std::io::Cursor::new(Vec::new())) }
}

/// Relies on ogg's `PacketWriter::write_packet`: the packet joins the
/// stream under construction with the given serial, granule position
/// and end flags. Into an in-memory cursor the call cannot fail: its
/// only failures are those of the inner writer, and writes to a
/// `Cursor<Vec<u8>>` always succeed.
#[verifier::external_body]
fn packet_writer_write(
    w: &mut ContainerWriter,
    data: Vec<u8>,
    serial: u32,
    end: EndInfo,
    granule: u64,
) -> (res: Result<(), std::io::Error>)
    ensures
        res is Ok,
        writer_emitted(*final(w)) == writer_emitted(*old(w)).push(
            (data@, serial, granule, end.flags().0, end.flags().1),
        ),
{
    let inf = match end {
        EndInfo::Normal => ogg::PacketWriteEndInfo::NormalPacket,
        EndInfo::EndPage => ogg::PacketWriteEndInfo::EndPage,
        EndInfo::EndStream => ogg::PacketWriteEndInfo::EndStream,
    };
    w.inner.write_packet(data, serial, inf, granule)
}

/// Relies on `PacketWriter::into_inner` and `Cursor::into_inner` to
/// surface the written bytes. `into_inner` does not flush: a buffered
/// page is only written out when it fills or when a packet closes it.
/// The round trip is therefore claimed only of emissions with the page
/// discipline of [`paged`] — each stream's buffered page is then
/// flushed by its closing packet, in writing order, before any other
/// stream buffers — and it claims payloads and serials: such a stream,
/// read back by `PacketReader`, yields the packets as written, and —
/// as long as anything was written at all — the reader accepts the
/// whole stream, every page being written complete with its checksum.
/// Granule positions and page flags of the reread
/// packets are not claimed: the writer may re-page long runs, which
/// moves page-level framing.
#[verifier::external_body]
fn packet_writer_finish(w: ContainerWriter) -> (r: Vec<u8>)
    ensures
        paged(writer_emitted(w)) ==> ogg_packets(r@).len() == writer_emitted(w).len() && (forall|
            i: int,
        |
            0 <= i < writer_emitted(w).len() ==> (#[trigger] ogg_packets(r@)[i]).0
                == writer_emitted(w)[i].0 && ogg_packets(r@)[i].1 == writer_emitted(w)[i].1),
        paged(writer_emitted(w)) && writer_emitted(w).len() > 0 ==> ogg_wf(r@),
{
    w.inner.into_inner().into_inner()
}

/// The 8-byte magic `OpusHead` that opens the identification packet.
pub open spec fn opus_head_magic() -> Seq<u8> {
    seq![79u8, 112u8, 117u8, 115u8, 72u8, 101u8, 97u8, 100u8]
}

/// Whether a payload begins with the `OpusHead` magic.
pub open spec fn starts_opus_head(b: Seq<u8>) -> bool {
    b.len() >= 8 && b.subrange(0, 8) == opus_head_magic()
}

/// Checks the `OpusHead` magic at the front of a payload.
fn check_opus_head(b: &[u8]) -> (r: bool)
    ensures
        r == starts_opus_head(b@),
{
    if b.len() < 8 {
        proof {
            assert(!starts_opus_head(b@));
        }
        return false;
    }
    let ok = *vstd::slice::slice_index_get(b, 0) == 79 && *vstd::slice::slice_index_get(b, 1)
        == 112 && *vstd::slice::slice_index_get(b, 2) == 117 && *vstd::slice::slice_index_get(b, 3)
        == 115 && *vstd::slice::slice_index_get(b, 4) == 72 && *vstd::slice::slice_index_get(b, 5)
        == 101 && *vstd::slice::slice_index_get(b, 6) == 97 && *vstd::slice::slice_index_get(b, 7)
        == 100;
    proof {
        assert(b@.subrange(0, 8) =~= opus_head_magic() <==> (b@[0] == 79 && b@[1] == 112 && b@[2]
            == 117 && b@[3] == 115 && b@[4] == 72 && b@[5] == 101 && b@[6] == 97 && b@[7] == 100));
    }
    ok
}

/// The packet sequence of the rewritten container: every packet of
/// `ps` passed through with its framing, except the second, whose
/// payload becomes `hdr` and which force-ends its page.
pub open spec fn splice_models(ps: Seq<PacketModel>, hdr: Seq<u8>) -> Seq<PacketModel> {
    Seq::new(
        ps.len(),
        |i: int|
            if i == 1 {
                (hdr, ps[1].1, ps[1].2, true, false)
            } else {
                let f = spec_end_info(ps[i].3, ps[i].4).flags();
                (ps[i].0, ps[i].1, ps[i].2, f.0, f.1)
            },
    )
}

/// The framing of the rewritten packet sequence: every passed-through
/// packet keeps its payload, serial, granule position and page/stream
/// end flags, and the replacement header packet keeps the original
/// comment packet's serial and granule position while force-ending its
/// page and not the stream.
pub proof fn lemma_splice_models_framing(ps: Seq<PacketModel>, hdr: Seq<u8>)
    requires
        ps.len() >= 2,
    ensures
        splice_models(ps, hdr).len() == ps.len(),
        splice_models(ps, hdr)[1] == (hdr, ps[1].1, ps[1].2, true, false),
        forall|i: int|
            0 <= i < ps.len() && i != 1 ==> (#[trigger] splice_models(ps, hdr)[i]) == (
            ps[i].0,
            ps[i].1,
            ps[i].2,
            spec_end_info(ps[i].3, ps[i].4).flags().0,
            spec_end_info(ps[i].3, ps[i].4).flags().1,
            ),
{
}

impl Tag {
    /// Read a `Tag` from the bytes of an Ogg-Opus container: the first
    /// packet must open with the `OpusHead` magic, and the second is
    /// decoded as the comment header. No later packet is read. On a
    /// container the ogg layer accepts, whose first packet carries the
    /// magic and whose second packet parses, success is owed: each
    /// error kind is tied to the inputs that cause it.
    pub fn read_from(data: Vec<u8>) -> (r: Result<Tag, Error>)
        ensures
            ({
                let ps = ogg_packets(data@);
                match r {
                    Ok(t) => {
                        &&& ps.len() >= 2
                        &&& starts_opus_head(ps[0].0)
                        &&& t.wf()
                        &&& parse_header(ps[1].0) matches HeaderParse::Parsed { vendor, pairs }
                            && t.vendor_chars() == vendor && t.entries() == build_entries(pairs)
                    },
                    Err(e) => match e {
                        Error::ReadError => !ogg_wf(data@),
                        Error::MissingPacket => ps.len() < 2 && (ps.len() == 1
                            ==> starts_opus_head(ps[0].0)),
                        Error::NotOpus => (ps.len() >= 1 && !starts_opus_head(ps[0].0)) || (
                        ps.len() >= 2 && starts_opus_head(ps[0].0) && parse_header(ps[1].0)
                            is NotTags),
                        _ => ps.len() >= 2 && starts_opus_head(ps[0].0) && error_reports(
                            e,
                            parse_header(ps[1].0),
                        ),
                    },
                }
            }),
    {
        let ghost ps = ogg_packets(data@);
        let mut reader = packet_reader_new(data);
        let first = match packet_reader_next(&mut reader) {
            Err(_) => {
                return Err(Error::ReadError);
            },
            Ok(Option::None) => {
                return Err(Error::MissingPacket);
            },
            Ok(Option::Some(p)) => p,
        };
        if !check_opus_head(first.data.as_slice()) {
            return Err(Error::NotOpus);
        }
        let second = match packet_reader_next(&mut reader) {
            Err(_) => {
                return Err(Error::ReadError);
            },
            Ok(Option::None) => {
                return Err(Error::MissingPacket);
            },
            Ok(Option::Some(p)) => p,
        };
        proof {
            assert(ps[1] == ps.drop_first()[0]);
        }
        Tag::from_packet_data(second.data.as_slice())
    }

    /// Rewrite a container's comment header in memory. The sequence
    /// handed to the container writer is exactly
    /// `splice_models(ps, header_bytes(..))` of the original packets
    /// `ps`: every packet passed through with its payload, serial,
    /// granule position and end flags, except the second, whose
    /// payload is replaced by this tag's encoded comment header and
    /// which is made to end its own page
    /// ([`lemma_splice_models_framing`] spells the framing out).
    /// Returns the bytes of the rewritten container: it holds as many
    /// packets as the original, the payloads and serials of all but
    /// the second unchanged, and the new comment header as the second
    /// payload, and the ogg layer accepts the rewritten container, so
    /// reading it back is owed to succeed. Granule positions and page
    /// flags of the *reread* container are not promised — the
    /// container writer may re-page — only those of the written
    /// sequence. On a container the ogg layer accepts, with the magic
    /// in place and a header that fits, success is owed.
    pub fn write_to(&self, data: Vec<u8>) -> (r: Result<Vec<u8>, Error>)
        ensures
            ({
                let ps = ogg_packets(data@);
                match r {
                    Ok(out) => {
                        &&& ps.len() >= 2
                        &&& starts_opus_head(ps[0].0)
                        &&& header_fits(self.vendor_chars(), flat_pairs(self.entries()))
                        &&& ogg_wf(out@)
                        &&& ogg_packets(out@).len() == ps.len()
                        &&& ogg_packets(out@)[1].0 == header_bytes(
                            self.vendor_chars(),
                            flat_pairs(self.entries()),
                        )
                        &&& forall|i: int|
                            0 <= i < ps.len() && i != 1 ==> (#[trigger] ogg_packets(out@)[i]).0
                                == ps[i].0
                        &&& forall|i: int|
                            0 <= i < ps.len() ==> (#[trigger] ogg_packets(out@)[i]).1 == ps[i].1
                    },
                    Err(e) => match e {
                        Error::ReadError => !ogg_wf(data@),
                        Error::MissingPacket => ps.len() < 2 && (ps.len() == 1
                            ==> starts_opus_head(ps[0].0)),
                        Error::NotOpus => ps.len() >= 1 && !starts_opus_head(ps[0].0),
                        Error::TooBig => ps.len() >= 2 && starts_opus_head(ps[0].0)
                            && !header_fits(self.vendor_chars(), flat_pairs(self.entries())),
                        _ => false,
                    },
                }
            }),
    {
        let ghost ps = ogg_packets(data@);
        let ghost hdr_spec = header_bytes(self.vendor_chars(), flat_pairs(self.entries()));
        let mut reader = packet_reader_new(data);
        let mut writer = packet_writer_new();
        let first = match packet_reader_next(&mut reader) {
            Err(_) => {
                return Err(Error::ReadError);
            },
            Ok(Option::None) => {
                return Err(Error::MissingPacket);
            },
            Ok(Option::Some(p)) => p,
        };
        if !check_opus_head(first.data.as_slice()) {
            return Err(Error::NotOpus);
        }
        let first_serial = first.serial;
        let first_granule = first.granule;
        let first_end = get_end_info(&first);
        let _ = packet_writer_write(&mut writer, first.data, first_serial, first_end, first_granule);
        let second = match packet_reader_next(&mut reader) {
            Err(_) => {
                return Err(Error::ReadError);
            },
            Ok(Option::None) => {
                return Err(Error::MissingPacket);
            },
            Ok(Option::Some(p)) => p,
        };
        proof {
            assert(ps[1] == ps.drop_first()[0]);
        }
        let hdr = match self.to_packet_data() {
            Ok(h) => h,
            Err(_) => {
                return Err(Error::TooBig);
            },
        };
        let _ = packet_writer_write(
            &mut writer,
            hdr,
            second.serial,
            EndInfo::EndPage,
            second.granule,
        );
        proof {
            assert(writer_emitted(writer) =~= splice_models(ps, hdr_spec).take(2));
            assert(reader_rest(reader) =~= ps.skip(2));
        }
        let ghost mut idx: int = 2;
        loop
            invariant
                2 <= idx <= ps.len(),
                reader_rest(reader) == ps.skip(idx),
                writer_emitted(writer) == splice_models(ps, hdr_spec).take(idx),
                ogg_wf(data@) ==> reader_ok(reader),
            ensures
                writer_emitted(writer) == splice_models(ps, hdr_spec),
            decreases ps.len() - idx,
        {
            let p = match packet_reader_next(&mut reader) {
                Err(_) => {
                    return Err(Error::ReadError);
                },
                Ok(Option::None) => {
                    proof {
                        assert(ps.skip(idx).len() == 0);
                        assert(idx == ps.len());
                        assert(splice_models(ps, hdr_spec).take(idx) =~= splice_models(
                            ps,
                            hdr_spec,
                        ));
                    }
                    break ;
                },
                Ok(Option::Some(p)) => p,
            };
            proof {
                assert(p.model() == ps.skip(idx)[0]);
                assert(ps.skip(idx)[0] == ps[idx]);
                assert(ps.skip(idx).drop_first() =~= ps.skip(idx + 1));
            }
            let serial = p.serial;
            let granule = p.granule;
            let end = get_end_info(&p);
            let _ = packet_writer_write(&mut writer, p.data, serial, end, granule);
            proof {
                assert(writer_emitted(writer) =~= splice_models(ps, hdr_spec).take(idx + 1));
                idx = idx + 1;
            }
        }
        proof {
            let sm = splice_models(ps, hdr_spec);
            assert forall|i: int|
                #![trigger sm[i], sm[i + 1]]
                0 <= i < sm.len() - 1 && sm[i].1 != sm[i + 1].1 implies ends_page(sm[i]) by {
                if i != 1 {
                    assert(ps[i].1 != ps[i + 1].1);
                    assert(ends_page(ps[i]));
                }
            }
            if sm.len() > 0 {
                assert(ends_page(ps.last()));
                assert(ends_page(sm.last()));
            }
            assert(paged(sm));
        }
        let out = packet_writer_finish(writer);
        proof {
            assert(splice_models(ps, hdr_spec).take(ps.len() as int) =~= splice_models(
                ps,
                hdr_spec,
            ));
            assert forall|i: int| 0 <= i < ps.len() && i != 1 implies (#[trigger] ogg_packets(
                out@,
            )[i]).0 == ps[i].0 by {
                assert(splice_models(ps, hdr_spec)[i].0 == ps[i].0);
            }
            assert forall|i: int| 0 <= i < ps.len() implies (#[trigger] ogg_packets(out@)[i]).1
                == ps[i].1 by {
                assert(splice_models(ps, hdr_spec)[i].1 == ps[i].1);
            }
        }
        Ok(out)
    }
}

/// Writing a tag into a container and reading the rewritten container
/// back yields an equivalent tag, while every packet but the comment
/// header is passed through byte-identical. `qs` stands for the
/// rewritten container's packets as [`Tag::write_to`] guarantees them:
/// the second payload is the freshly encoded header, the others are
/// the originals. Decoding that second payload — what
/// [`Tag::read_from`] does — returns exactly the tag's vendor and
/// entries. Keys holding `=` are excluded: a decode splits each entry
/// at its first `=`, so such a key cannot survive any round trip.
pub proof fn lemma_splice_round_trip(t: Tag, ps: Seq<PacketModel>, qs: Seq<PacketModel>)
    requires
        t.wf(),
        header_fits(t.vendor_chars(), flat_pairs(t.entries())),
        forall|i: int, y: int|
            0 <= i < t.entries().len() && 0 <= y < t.entries()[i].0.len()
                ==> #[trigger] t.entries()[i].0[y] != '=',
        ps.len() >= 2,
        qs.len() == ps.len(),
        qs[1].0 == header_bytes(t.vendor_chars(), flat_pairs(t.entries())),
        forall|i: int| 0 <= i < ps.len() && i != 1 ==> (#[trigger] qs[i]).0 == ps[i].0,
    ensures
        parse_header(qs[1].0) == (HeaderParse::Parsed {
            vendor: t.vendor_chars(),
            pairs: flat_pairs(t.entries()),
        }),
        build_entries(flat_pairs(t.entries())) == t.entries(),
        forall|i: int| 0 <= i < ps.len() && i != 1 ==> (#[trigger] qs[i]).0 == ps[i].0,
{
    crate::lemma_tag_round_trip(t);
}

} // verus!
