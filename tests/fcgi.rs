use terrain_impostors::auth::{AuthError, AuthorizeType, Authorizer};
use terrain_impostors::fcgi::{build_params, fetch_field_length, lookup_param, FcgiError, FcgiHeader, FcgiRecType, FcgiRecord, Request};

#[test]
fn header_round_trip() {
    let h = FcgiHeader { version: 1, rec_type: FcgiRecType::Params, id: 0x1234, content_length: 300, padding_length: 4 };
    let b = h.to_bytes();
    assert_eq!(b, [1, 4, 0x12, 0x34, 1, 44, 4, 0]);
    assert_eq!(FcgiHeader::new_from_bytes(&b), Ok(h));
}

#[test]
fn bad_record_type_is_refused() {
    assert_eq!(FcgiHeader::new_from_bytes(&[1, 0, 0, 1, 0, 0, 0, 0]), Err(FcgiError::InvalidRecordType));
    assert_eq!(FcgiHeader::new_from_bytes(&[1, 12, 0, 1, 0, 0, 0, 0]), Err(FcgiError::InvalidRecordType));
}

#[test]
fn padding_rounds_to_eight() {
    assert_eq!(FcgiHeader::calc_padding_length(0), 0);
    assert_eq!(FcgiHeader::calc_padding_length(1), 7);
    assert_eq!(FcgiHeader::calc_padding_length(8), 0);
    assert_eq!(FcgiHeader::calc_padding_length(13), 3);
}

#[test]
fn record_content_is_taken_once() {
    let h = FcgiHeader { version: 1, rec_type: FcgiRecType::Stdin, id: 1, content_length: 3, padding_length: 5 };
    assert_eq!(FcgiRecord::new(h, vec![1, 2]).err(), Some(FcgiError::ContentLengthMismatch));
    let mut r = FcgiRecord::new(h, vec![7, 8, 9]).expect("record");
    assert_eq!(r.take_content(), Some(vec![7, 8, 9]));
    assert_eq!(r.take_content(), None);
}

fn pair(k: &str, v: &str) -> Vec<u8> {
    let mut b = Vec::new();
    for n in [k.len(), v.len()] {
        if n < 128 {
            b.push(n as u8);
        } else {
            b.extend_from_slice(&((n as u32) | 0x8000_0000).to_be_bytes());
        }
    }
    b.extend_from_slice(k.as_bytes());
    b.extend_from_slice(v.as_bytes());
    b
}

#[test]
fn params_decode_short_and_long_lengths() {
    let long = "x".repeat(300);
    let mut b = pair("SERVER_PORT", "80");
    b.extend(pair("QUERY", &long));
    b.extend(pair("EMPTY", ""));
    let p = build_params(&b).expect("params");
    assert_eq!(p.len(), 3);
    assert_eq!(p[0], (b"SERVER_PORT".to_vec(), b"80".to_vec()));
    assert_eq!(p[1].1.len(), 300);
    assert_eq!(p[2], (b"EMPTY".to_vec(), vec![]));
    assert_eq!(build_params(&vec![]), Ok(vec![]));
}

#[test]
fn params_truncated() {
    assert_eq!(build_params(&vec![5, 1, b'a']), Err(FcgiError::TruncatedParams));
    assert_eq!(build_params(&vec![0x80, 0]), Err(FcgiError::TruncatedParams));
    assert_eq!(fetch_field_length(&vec![0x80, 0, 1, 2], 0), Ok(Some((0x102, 4))));
    assert_eq!(fetch_field_length(&vec![7], 1), Ok(None));
}

fn rec(t: FcgiRecType, id: u16, content: Vec<u8>) -> FcgiRecord {
    let h = FcgiHeader { version: 1, rec_type: t, id, content_length: content.len() as u16, padding_length: 0 };
    FcgiRecord::new(h, content).expect("record")
}

#[test]
fn request_from_records() {
    let mut r = Request::new();
    assert_eq!(r.add_record(rec(FcgiRecType::BeginRequest, 1, vec![0, 1, 0, 0, 0, 0, 0, 0])), Ok(false));
    assert_eq!(r.add_record(rec(FcgiRecType::Params, 1, pair("A", "1"))), Ok(false));
    assert_eq!(r.add_record(rec(FcgiRecType::Params, 1, pair("B", "22"))), Ok(false));
    assert_eq!(r.add_record(rec(FcgiRecType::Params, 1, vec![])), Ok(false));
    assert_eq!(r.add_record(rec(FcgiRecType::Stdin, 1, b"ABCDEFGHIJKLMNOP".to_vec())), Ok(false));
    assert_eq!(r.add_record(rec(FcgiRecType::Stdin, 2, vec![])), Err(FcgiError::MultiplexNotSupported));
    assert_eq!(r.add_record(rec(FcgiRecType::Stdin, 1, vec![])), Ok(true));
    assert_eq!(r.standard_input, b"ABCDEFGHIJKLMNOP".to_vec());
    let params = r.params.clone().expect("params");
    assert_eq!(params, vec![(b"A".to_vec(), b"1".to_vec()), (b"B".to_vec(), b"22".to_vec())]);
    assert_eq!(r.add_record(rec(FcgiRecType::Stdout, 1, vec![])), Err(FcgiError::UnexpectedRecordType));
}

#[test]
fn params_later_key_wins_and_utf8() {
    let mut b = vec![3, 5, b'K', b'E', b'Y', b'V', b'A', b'L', b'U', b'E'];
    b.extend(pair("KEY", "OTHER"));
    let p = build_params(&b).expect("params");
    assert_eq!(lookup_param(&p, &b"KEY".to_vec()), Some(b"OTHER".to_vec()));
    assert_eq!(lookup_param(&p, &b"NONE".to_vec()), None);
    let bad = vec![1, 1, b'K', 0xff];
    assert_eq!(build_params(&bad), Err(FcgiError::InvalidUtf8));
}

#[test]
fn authorize_by_owner_name() {
    let mut b = pair("HTTP_X_SECONDLIFE_OWNER_NAME", "  Joe Resident \t");
    b.extend(pair("OTHER", "x"));
    let p = build_params(&b).expect("params");
    assert_eq!(Authorizer::authorize(AuthorizeType::UploadTerrain, &p), Ok(b"Joe Resident".to_vec()));
    let q = build_params(&pair("OTHER", "x")).expect("params");
    assert_eq!(Authorizer::authorize(AuthorizeType::UploadImpostors, &q), Err(AuthError::NotFromGrid));
}
