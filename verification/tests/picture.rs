use base64::Engine;
use base64::prelude::BASE64_STANDARD;
use opusmeta::Error;
use opusmeta::Tag;
use opusmeta::picture::Picture;
use opusmeta::picture::PictureError;
use opusmeta::picture::PictureType;

fn sample_picture(ty: PictureType, data: &[u8]) -> Picture {
    let mut p = Picture::new();
    p.picture_type = ty;
    p.mime_type = "image/png".to_string();
    p.description = "front cover".to_string();
    p.data = data.to_vec();
    p
}

#[test]
fn type_code_20_is_valid_21_is_not() {
    assert!(matches!(
        PictureType::from_u32(20),
        Ok(PictureType::PublisherLogo)
    ));
    assert!(matches!(
        PictureType::from_u32(21),
        Err(PictureError::InvalidPictureType)
    ));
    assert!(matches!(PictureType::from_u32(0), Ok(PictureType::Other)));
}

#[test]
fn decode_rejects_type_21() {
    let mut bytes = 21u32.to_be_bytes().to_vec();
    bytes.extend_from_slice(&[0; 28]);
    let err = Picture::from_bytes(&bytes).unwrap_err();
    assert!(matches!(
        err,
        Error::Picture(PictureError::InvalidPictureType)
    ));
}

#[test]
fn decode_accepts_type_20() {
    let mut p = sample_picture(PictureType::PublisherLogo, &[1, 2, 3]);
    p.description = String::new();
    let bytes = p.to_bytes().unwrap();
    let back = Picture::from_bytes(&bytes).unwrap();
    assert_eq!(back.picture_type, PictureType::PublisherLogo);
}

#[test]
fn picture_round_trip_zeroes_geometry() {
    let mut p = sample_picture(PictureType::CoverFront, &[9, 8, 7, 6]);
    p.width = 640;
    p.height = 480;
    p.depth = 24;
    p.num_colors = 5;
    let bytes = p.to_bytes().unwrap();
    let back = Picture::from_bytes(&bytes).unwrap();
    assert_eq!(back.picture_type, p.picture_type);
    assert_eq!(back.mime_type, p.mime_type);
    assert_eq!(back.description, p.description);
    assert_eq!(back.data, p.data);
    assert_eq!(back.width, 0);
    assert_eq!(back.height, 0);
    assert_eq!(back.depth, 0);
    assert_eq!(back.num_colors, 0);
}

#[test]
fn encoded_geometry_fields_are_zero() {
    let mut p = sample_picture(PictureType::Media, &[1]);
    p.width = 123;
    let bytes = p.to_bytes().unwrap();
    let mime_len = p.mime_type.len();
    let desc_len = p.description.len();
    let geom_start = 4 + 4 + mime_len + 4 + desc_len;
    assert_eq!(&bytes[geom_start..geom_start + 16], &[0u8; 16]);
}

#[test]
fn picture_truncated_data_is_rejected() {
    let p = sample_picture(PictureType::CoverFront, &[9, 8, 7, 6]);
    let bytes = p.to_bytes().unwrap();
    let err = Picture::from_bytes(&bytes[..bytes.len() - 1]).unwrap_err();
    assert!(matches!(err, Error::Truncated));
}

#[test]
fn base64_round_trip() {
    let p = sample_picture(PictureType::CoverBack, &[0, 255, 17]);
    let text = p.to_base64().unwrap();
    let back = Picture::from_base64(&text).unwrap();
    assert_eq!(back.picture_type, p.picture_type);
    assert_eq!(back.mime_type, p.mime_type);
    assert_eq!(back.description, p.description);
    assert_eq!(back.data, p.data);
}

#[test]
fn base64_text_matches_engine() {
    let p = sample_picture(PictureType::CoverBack, &[0, 255, 17]);
    let text = p.to_base64().unwrap();
    let bytes = p.to_bytes().unwrap();
    assert_eq!(text, BASE64_STANDARD.encode(&bytes));
    assert_eq!(BASE64_STANDARD.decode(&text).unwrap(), bytes);
}

#[test]
fn from_base64_rejects_bad_text() {
    let err = Picture::from_base64("not valid base64!!!").unwrap_err();
    assert!(matches!(
        err,
        Error::Picture(PictureError::Base64DecodeError)
    ));
}

#[test]
fn read_from_uses_given_mime() {
    let p = Picture::read_from(vec![1, 2, 3], Some("image/jpeg".to_string())).unwrap();
    assert_eq!(p.mime_type, "image/jpeg");
    assert_eq!(p.data, vec![1, 2, 3]);
    assert_eq!(p.picture_type, PictureType::Other);
    assert!(p.description.is_empty());
}

#[test]
fn read_from_sniffs_png() {
    let mut data = vec![0x89, b'P', b'N', b'G', 0x0D, 0x0A, 0x1A, 0x0A];
    data.extend_from_slice(&[0; 16]);
    let p = Picture::read_from(data.clone(), None).unwrap();
    assert_eq!(p.mime_type, "image/png");
    assert_eq!(p.data, data);
}

#[test]
fn add_picture_replaces_same_type() {
    let mut tag = Tag::default();
    let p1 = sample_picture(PictureType::CoverFront, &[1, 1, 1]);
    let p2 = sample_picture(PictureType::CoverFront, &[2, 2, 2]);
    tag.add_picture(&p1).unwrap();
    tag.add_picture(&p2).unwrap();
    let got = tag.get_picture_type(PictureType::CoverFront).unwrap();
    assert_eq!(got.data, p2.data);
    assert_eq!(got.mime_type, p2.mime_type);
    let all = tag.pictures();
    let fronts: Vec<_> = all
        .iter()
        .filter(|p| p.picture_type == PictureType::CoverFront)
        .collect();
    assert_eq!(fronts.len(), 1);
}

#[test]
fn add_picture_keeps_other_types() {
    let mut tag = Tag::default();
    let front = sample_picture(PictureType::CoverFront, &[1]);
    let back = sample_picture(PictureType::CoverBack, &[2]);
    tag.add_picture(&front).unwrap();
    tag.add_picture(&back).unwrap();
    assert_eq!(tag.pictures().len(), 2);
    assert_eq!(
        tag.get_picture_type(PictureType::CoverFront).unwrap().data,
        vec![1]
    );
    assert_eq!(
        tag.get_picture_type(PictureType::CoverBack).unwrap().data,
        vec![2]
    );
}

#[test]
fn remove_picture_type_returns_removed() {
    let mut tag = Tag::default();
    let p = sample_picture(PictureType::Artist, &[5, 5]);
    tag.add_picture(&p).unwrap();
    let removed = tag.remove_picture_type(PictureType::Artist).unwrap();
    assert_eq!(removed.unwrap().data, vec![5, 5]);
    assert!(tag.get_picture_type(PictureType::Artist).is_none());
}

#[test]
fn remove_absent_type_changes_nothing() {
    let mut tag = Tag::default();
    let p = sample_picture(PictureType::Artist, &[5]);
    tag.add_picture(&p).unwrap();
    let removed = tag.remove_picture_type(PictureType::CoverFront).unwrap();
    assert!(removed.is_none());
    assert_eq!(tag.pictures().len(), 1);
}

#[test]
fn undecodable_values_are_skipped() {
    let mut tag = Tag::default();
    tag.add_one(
        "METADATA_BLOCK_PICTURE".to_string(),
        "!!not base64!!".to_string(),
    );
    let p = sample_picture(PictureType::CoverFront, &[3]);
    tag.add_picture(&p).unwrap();
    assert_eq!(tag.pictures().len(), 1);
    assert!(tag.get_picture_type(PictureType::CoverFront).is_some());
}

#[test]
fn get_picture_type_absent_is_none() {
    let tag = Tag::default();
    assert!(tag.get_picture_type(PictureType::CoverFront).is_none());
}

#[test]
fn picture_wire_bytes_are_exact() {
    let mut p = Picture::new();
    p.picture_type = PictureType::CoverFront;
    p.mime_type = "a/b".to_string();
    p.description = "d".to_string();
    p.data = vec![0xAA, 0xBB];
    let bytes = p.to_bytes().unwrap();
    let mut expected: Vec<u8> = Vec::new();
    expected.extend_from_slice(&3u32.to_be_bytes());
    expected.extend_from_slice(&3u32.to_be_bytes());
    expected.extend_from_slice(b"a/b");
    expected.extend_from_slice(&1u32.to_be_bytes());
    expected.extend_from_slice(b"d");
    expected.extend_from_slice(&[0u8; 16]);
    expected.extend_from_slice(&2u32.to_be_bytes());
    expected.extend_from_slice(&[0xAA, 0xBB]);
    assert_eq!(bytes, expected);
}

#[test]
fn read_from_without_mime_fails_on_unknown_data() {
    let err = Picture::read_from(vec![0x00, 0x01, 0x02], None).unwrap_err();
    assert!(matches!(err, Error::Picture(PictureError::NoMimeType)));
}
