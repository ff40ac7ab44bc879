use opusmeta::Error;
use opusmeta::Tag;

fn le(x: u32) -> Vec<u8> {
    x.to_le_bytes().to_vec()
}

fn header(vendor: &str, entries: &[&str]) -> Vec<u8> {
    let mut out = b"OpusTags".to_vec();
    out.extend_from_slice(&le(vendor.len() as u32));
    out.extend_from_slice(vendor.as_bytes());
    out.extend_from_slice(&le(entries.len() as u32));
    for e in entries {
        out.extend_from_slice(&le(e.len() as u32));
        out.extend_from_slice(e.as_bytes());
    }
    out
}

#[test]
fn empty_header_decodes_to_empty_tag() {
    let bytes = header("libopus 1.3", &[]);
    let tag = Tag::from_packet_data(&bytes).unwrap();
    assert_eq!(tag.get_vendor(), "libopus 1.3");
    assert!(tag.get("artist".to_string()).is_none());
    assert!(tag.pictures().is_empty());
}

#[test]
fn encode_after_adding_one_entry() {
    let bytes = header("libopus 1.3", &[]);
    let mut tag = Tag::from_packet_data(&bytes).unwrap();
    tag.add_one("ARTIST".to_string(), "Test".to_string());
    let out = tag.to_packet_data().unwrap();
    assert_eq!(out, header("libopus 1.3", &["artist=Test"]));
    assert_eq!("artist=Test".len(), 11);
}

#[test]
fn encode_decode_round_trip() {
    let mut tag = Tag::new(
        "vendor \u{e9}\u{1F600}".to_string(),
        vec![
            ("Artist".to_string(), "A=B".to_string()),
            ("artist".to_string(), "two".to_string()),
            ("Title".to_string(), "caf\u{e9}".to_string()),
        ],
    );
    tag.add_many("lang".to_string(), vec!["de".to_string(), "en".to_string()]);
    let bytes = tag.to_packet_data().unwrap();
    let back = Tag::from_packet_data(&bytes).unwrap();
    assert_eq!(back.get_vendor(), "vendor \u{e9}\u{1F600}");
    assert_eq!(
        back.get("artist".to_string()).unwrap(),
        &vec!["A=B".to_string(), "two".to_string()]
    );
    assert_eq!(
        back.get("title".to_string()).unwrap(),
        &vec!["caf\u{e9}".to_string()]
    );
    assert_eq!(
        back.get("lang".to_string()).unwrap(),
        &vec!["de".to_string(), "en".to_string()]
    );
    let again = back.to_packet_data().unwrap();
    assert_eq!(bytes, again);
}

#[test]
fn entry_without_equals_is_malformed() {
    let bytes = header("v", &["noequals"]);
    let err = Tag::from_packet_data(&bytes).unwrap_err();
    assert!(matches!(err, Error::MalformedComment(s) if s == "noequals"));
}

#[test]
fn malformed_entry_aborts_whole_decode() {
    let bytes = header("v", &["good=1", "bad", "alsogood=2"]);
    let err = Tag::from_packet_data(&bytes).unwrap_err();
    assert!(matches!(err, Error::MalformedComment(s) if s == "bad"));
}

#[test]
fn truncated_vendor_is_truncated() {
    let mut bytes = b"OpusTags".to_vec();
    bytes.extend_from_slice(&le(100));
    bytes.extend_from_slice(b"short");
    let err = Tag::from_packet_data(&bytes).unwrap_err();
    assert!(matches!(err, Error::Truncated));
}

#[test]
fn truncated_entry_is_truncated() {
    let mut bytes = header("v", &[]);
    // claim one entry but provide none
    let n = bytes.len();
    bytes[n - 4] = 1;
    let err = Tag::from_packet_data(&bytes).unwrap_err();
    assert!(matches!(err, Error::Truncated));
}

#[test]
fn missing_magic_is_rejected() {
    let mut bytes = header("v", &[]);
    bytes[0] = b'X';
    let err = Tag::from_packet_data(&bytes).unwrap_err();
    assert!(matches!(err, Error::NotOpus));
}

#[test]
fn invalid_utf8_entry_carries_bytes() {
    let mut bytes = header("v", &[]);
    let n = bytes.len();
    bytes[n - 4] = 1;
    bytes.extend_from_slice(&le(3));
    bytes.extend_from_slice(&[b'a', 0xFF, b'b']);
    let err = Tag::from_packet_data(&bytes).unwrap_err();
    assert!(matches!(err, Error::InvalidUtf8(bb) if bb == vec![b'a', 0xFF, b'b']));
}

#[test]
fn trailing_bytes_are_ignored() {
    let mut bytes = header("v", &["a=b"]);
    bytes.extend_from_slice(b"junk after the last entry");
    let tag = Tag::from_packet_data(&bytes).unwrap();
    assert_eq!(tag.get("a".to_string()).unwrap(), &vec!["b".to_string()]);
}

#[test]
fn value_may_be_empty_and_key_lowercased() {
    let bytes = header("v", &["KEY="]);
    let tag = Tag::from_packet_data(&bytes).unwrap();
    assert_eq!(tag.get("key".to_string()).unwrap(), &vec![String::new()]);
}
