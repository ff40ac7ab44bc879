use opusmeta::Error;
use opusmeta::Tag;

fn opus_head() -> Vec<u8> {
    let mut head = b"OpusHead".to_vec();
    head.extend_from_slice(&[1, 2, 0, 0, 0, 0, 0, 0, 0, 0, 0]);
    head
}

/// Assembles a real Ogg stream whose first packet is `first`, second is
/// `second`, and the rest follow one per page.
fn build_stream(first: &[u8], second: &[u8], rest: &[&[u8]]) -> Vec<u8> {
    let mut cursor = std::io::Cursor::new(Vec::new());
    {
        let mut writer = ogg::PacketWriter::new(&mut cursor);
        writer
            .write_packet(first.to_vec(), 99, ogg::PacketWriteEndInfo::EndPage, 0)
            .unwrap();
        writer
            .write_packet(second.to_vec(), 99, ogg::PacketWriteEndInfo::EndPage, 0)
            .unwrap();
        for (k, p) in rest.iter().enumerate() {
            let end = if k == rest.len() - 1 {
                ogg::PacketWriteEndInfo::EndStream
            } else {
                ogg::PacketWriteEndInfo::EndPage
            };
            writer.write_packet(p.to_vec(), 99, end, 48000 * (k as u64 + 1)).unwrap();
        }
    }
    cursor.into_inner()
}

fn packets_of(bytes: &[u8]) -> Vec<Vec<u8>> {
    let mut reader = ogg::PacketReader::new(std::io::Cursor::new(bytes.to_vec()));
    let mut out = Vec::new();
    while let Some(p) = reader.read_packet().unwrap() {
        out.push(p.data);
    }
    out
}

#[test]
fn read_from_decodes_second_packet() {
    let tag = Tag::new(
        "test vendor".to_string(),
        vec![("Artist".to_string(), "Someone".to_string())],
    );
    let header = tag.to_packet_data().unwrap();
    let stream = build_stream(&opus_head(), &header, &[b"audio one", b"audio two"]);
    let read = Tag::read_from(stream).unwrap();
    assert_eq!(read.get_vendor(), "test vendor");
    assert_eq!(
        read.get("artist".to_string()).unwrap(),
        &vec!["Someone".to_string()]
    );
}

#[test]
fn write_to_replaces_only_comment_packet() {
    let original_tag = Tag::new("v1".to_string(), vec![]);
    let header = original_tag.to_packet_data().unwrap();
    let stream = build_stream(&opus_head(), &header, &[b"audio one", b"audio two"]);

    let mut new_tag = Tag::new("v2".to_string(), vec![]);
    new_tag.add_one("Album".to_string(), "Later".to_string());
    let rewritten = new_tag.write_to(stream.clone()).unwrap();

    let before = packets_of(&stream);
    let after = packets_of(&rewritten);
    assert_eq!(before.len(), after.len());
    assert_eq!(before[0], after[0]);
    assert_eq!(after[1], new_tag.to_packet_data().unwrap());
    for k in 2..before.len() {
        assert_eq!(before[k], after[k]);
    }

    let read = Tag::read_from(rewritten).unwrap();
    assert_eq!(read.get_vendor(), "v2");
    assert_eq!(
        read.get("album".to_string()).unwrap(),
        &vec!["Later".to_string()]
    );
}

#[test]
fn read_from_rejects_wrong_first_packet() {
    let tag = Tag::new("v".to_string(), vec![]);
    let header = tag.to_packet_data().unwrap();
    let stream = build_stream(b"FlacHead", &header, &[b"audio"]);
    let err = Tag::read_from(stream).unwrap_err();
    assert!(matches!(err, Error::NotOpus));
}

#[test]
fn write_to_rejects_wrong_first_packet() {
    let tag = Tag::new("v".to_string(), vec![]);
    let header = tag.to_packet_data().unwrap();
    let stream = build_stream(b"SomethingElse", &header, &[b"audio"]);
    let err = tag.write_to(stream).unwrap_err();
    assert!(matches!(err, Error::NotOpus));
}

#[test]
fn read_from_missing_second_packet() {
    let mut cursor = std::io::Cursor::new(Vec::new());
    {
        let mut writer = ogg::PacketWriter::new(&mut cursor);
        writer
            .write_packet(opus_head(), 7, ogg::PacketWriteEndInfo::EndStream, 0)
            .unwrap();
    }
    let err = Tag::read_from(cursor.into_inner()).unwrap_err();
    assert!(matches!(err, Error::MissingPacket));
}

#[test]
fn read_from_empty_input() {
    // ogg reports a framing error when no page was ever seen
    let err = Tag::read_from(Vec::new()).unwrap_err();
    assert!(matches!(err, Error::ReadError));
}

#[test]
fn read_from_garbage_input() {
    let err = Tag::read_from(b"this is not an ogg container at all".to_vec()).unwrap_err();
    assert!(matches!(err, Error::ReadError));
}

#[test]
fn written_container_survives_second_edit() {
    let tag = Tag::new("v1".to_string(), vec![]);
    let header = tag.to_packet_data().unwrap();
    let stream = build_stream(&opus_head(), &header, &[b"payload"]);

    let mut t1 = Tag::new("v2".to_string(), vec![]);
    t1.add_one("a".to_string(), "1".to_string());
    let once = t1.write_to(stream).unwrap();

    let mut t2 = Tag::read_from(once.clone()).unwrap();
    t2.add_one("b".to_string(), "2".to_string());
    let twice = t2.write_to(once).unwrap();

    let read = Tag::read_from(twice).unwrap();
    assert_eq!(read.get_vendor(), "v2");
    assert_eq!(read.get("a".to_string()).unwrap(), &vec!["1".to_string()]);
    assert_eq!(read.get("b".to_string()).unwrap(), &vec!["2".to_string()]);
}
