use kvs::codec::{decode_command, encode_command, Command, DecodeError, REMOVE_TAG, SET_TAG};

#[test]
fn encode_decode_round_trip() {
    let cmd = Command::set("alpha".to_owned(), "beta".to_owned());
    let bytes = encode_command(&cmd);
    let (decoded, end) = decode_command(bytes.as_slice(), 0).unwrap();
    assert_eq!(end, bytes.len());
    match decoded {
        Command::Put { key, value } => {
            assert_eq!(key, "alpha");
            assert_eq!(value, "beta");
        }
        Command::Remove { .. } => panic!("decoded the wrong command kind"),
    }
}

#[test]
fn encode_decode_remove_round_trip() {
    let cmd = Command::remove("gone".to_owned());
    let bytes = encode_command(&cmd);
    let (decoded, end) = decode_command(bytes.as_slice(), 0).unwrap();
    assert_eq!(end, bytes.len());
    assert!(matches!(decoded, Command::Remove { key } if key == "gone"));
}

#[test]
fn encode_decode_non_ascii_round_trip() {
    let cmd = Command::set("clé".to_owned(), "väl→ue".to_owned());
    let bytes = encode_command(&cmd);
    let (decoded, _) = decode_command(bytes.as_slice(), 0).unwrap();
    assert!(matches!(decoded, Command::Put { key, value } if key == "clé" && value == "väl→ue"));
}

#[test]
fn encoding_is_deterministic() {
    let a = encode_command(&Command::set("k".to_owned(), "v".to_owned()));
    let b = encode_command(&Command::set("k".to_owned(), "v".to_owned()));
    assert_eq!(a, b);
}

#[test]
fn concatenated_records_decode_in_sequence() {
    let mut stream = encode_command(&Command::set("a".to_owned(), "1".to_owned()));
    let second = encode_command(&Command::remove("a".to_owned()));
    stream.extend_from_slice(second.as_slice());
    let (first, mid) = decode_command(stream.as_slice(), 0).unwrap();
    assert!(matches!(first, Command::Put { .. }));
    let (rest, end) = decode_command(stream.as_slice(), mid).unwrap();
    assert!(matches!(rest, Command::Remove { .. }));
    assert_eq!(end, stream.len());
}

#[test]
fn truncated_record_reports_unexpected_end() {
    let bytes = encode_command(&Command::set("key".to_owned(), "value".to_owned()));
    for cut in 0..bytes.len() {
        let r = decode_command(&bytes.as_slice()[..cut], 0);
        assert!(matches!(r, Err(DecodeError::UnexpectedEnd)));
    }
}

#[test]
fn corrupt_tag_reports_invalid() {
    let mut bytes = encode_command(&Command::set("key".to_owned(), "value".to_owned()));
    assert_eq!(bytes[0], SET_TAG);
    bytes[0] = 0;
    assert!(matches!(decode_command(bytes.as_slice(), 0), Err(DecodeError::Invalid)));
}

#[test]
fn corrupt_payload_reports_invalid() {
    // a Remove record whose payload is not UTF-8
    let mut bytes = vec![REMOVE_TAG, 1, 0, 0, 0, 0, 0, 0, 0];
    bytes.push(0xff);
    assert!(matches!(decode_command(bytes.as_slice(), 0), Err(DecodeError::Invalid)));
}

#[test]
fn empty_stream_reports_unexpected_end() {
    let bytes: Vec<u8> = Vec::new();
    assert!(matches!(decode_command(bytes.as_slice(), 0), Err(DecodeError::UnexpectedEnd)));
}
