use kvs::cmd::{Cmd, GET_VALUE_LEN, HEADER_BYTES, RM_VALUE_LEN};
use kvs::error::Error;
use kvs::reader::{body_len, CmdReader, Reader};
use kvs::response::Response;

fn parse(cmd: &[u8]) -> Result<Cmd, Error> {
    if cmd.len() < HEADER_BYTES {
        return Err(Error::MalformedRecord);
    }
    let (header, rest) = cmd.split_at(HEADER_BYTES);
    let (key_len, value_len) = Cmd::parse_header(header);
    Cmd::parse_body(key_len, value_len, rest)
}

fn put(k: &str, v: &str) -> Cmd {
    Cmd::Put(k.to_owned(), v.to_owned())
}

#[test]
fn set() {
    let mut bytes = Vec::new();
    bytes.extend(3u32.to_be_bytes());
    bytes.extend(6u64.to_be_bytes());
    bytes.extend(b"foofoobar");
    assert_eq!(parse(&bytes).unwrap(), put("foo", "foobar"));
}

#[test]
fn rm() {
    let mut bytes = Vec::new();
    bytes.extend(3u32.to_be_bytes());
    bytes.extend(RM_VALUE_LEN.to_be_bytes());
    bytes.extend(b"foo");
    assert_eq!(parse(&bytes).unwrap(), Cmd::Rm("foo".to_owned()));
}

#[test]
fn get() {
    let mut bytes = Vec::new();
    bytes.extend(3u32.to_be_bytes());
    bytes.extend(GET_VALUE_LEN.to_be_bytes());
    bytes.extend(b"foo");
    assert_eq!(parse(&bytes).unwrap(), Cmd::Get("foo".to_owned()));
}

#[test]
fn set_ignore_extra() {
    let mut bytes = Vec::new();
    bytes.extend(3u32.to_be_bytes());
    bytes.extend(6u64.to_be_bytes());
    bytes.extend(b"foofoobar_ignoreme");
    assert_eq!(parse(&bytes).unwrap(), put("foo", "foobar"));
}

#[test]
fn rm_ignore_extra() {
    let mut bytes = Vec::new();
    bytes.extend(3u32.to_be_bytes());
    bytes.extend(RM_VALUE_LEN.to_be_bytes());
    bytes.extend(b"foo_ignoreme");
    assert_eq!(parse(&bytes).unwrap(), Cmd::Rm("foo".to_owned()));
}

#[test]
fn get_ignore_extra() {
    let mut bytes = Vec::new();
    bytes.extend(3u32.to_be_bytes());
    bytes.extend(GET_VALUE_LEN.to_be_bytes());
    bytes.extend(b"foo_ignoreme");
    assert_eq!(parse(&bytes).unwrap(), Cmd::Get("foo".to_owned()));
}

#[test]
fn set_identity() {
    let proto = put("abc", "defg");
    let mut buf = vec![];
    assert_eq!(proto.write(&mut buf), 19);
    assert_eq!(parse(&buf).unwrap(), proto);
}

#[test]
fn get_identity() {
    let proto = Cmd::Get("abc".to_owned());
    let mut buf = vec![];
    assert_eq!(proto.write(&mut buf), 15);
    assert_eq!(parse(&buf).unwrap(), proto);
}

#[test]
fn rm_identity() {
    let proto = Cmd::Rm("abc".to_owned());
    let mut buf = vec![];
    assert_eq!(proto.write(&mut buf), 15);
    assert_eq!(parse(&buf).unwrap(), proto);
}

#[test]
fn key_len_chec() {
    let mut bytes = Vec::new();
    bytes.extend(5u32.to_be_bytes());
    bytes.extend(GET_VALUE_LEN.to_be_bytes());
    bytes.extend(b"fo");
    assert!(parse(&bytes).is_err());
}

#[test]
fn set_checks_len() {
    let mut bytes = Vec::new();
    bytes.extend(5u32.to_be_bytes());
    bytes.extend(5u64.to_be_bytes());
    bytes.extend(b"foolsbars");
    assert!(parse(&bytes).is_err());
}

#[test]
fn rm_checks_len() {
    let mut bytes = Vec::new();
    bytes.extend(5u32.to_be_bytes());
    bytes.extend(RM_VALUE_LEN.to_be_bytes());
    bytes.extend(b"fool");
    assert!(parse(&bytes).is_err());
}

#[test]
fn get_checks_len() {
    let mut bytes = Vec::new();
    bytes.extend(5u32.to_be_bytes());
    bytes.extend(GET_VALUE_LEN.to_be_bytes());
    bytes.extend(b"fool");
    assert!(parse(&bytes).is_err());
}

#[test]
fn empty_command() {
    assert!(parse(b"").is_err());
}

#[test]
fn reads_each_cmd() {
    let mut bytes = Vec::new();
    let set = put("foo", "foobar");
    set.write(&mut bytes);
    let get = Cmd::Get("foo".to_owned());
    get.write(&mut bytes);

    let mut reader = Reader::new();
    let result = reader.read_cmd(&bytes).unwrap().unwrap();
    assert_eq!(result.bytes_read(), 21);
    assert_eq!(result.into_cmd(), set);

    let result = reader.read_cmd(&bytes[21..]).unwrap().unwrap();
    assert_eq!(result.bytes_read(), 15);
    assert_eq!(result.into_cmd(), get);

    let result = reader.read_cmd(&bytes[36..]).unwrap();
    assert!(result.is_none());
}

#[test]
fn communicates_set() {
    let mut buf = Vec::new();
    let expected = Response::SuccessfulSet;
    expected.write(&mut buf);
    assert_eq!(Response::from_bytes(&buf), expected);
}

#[test]
fn communicates_rm() {
    let mut buf = Vec::new();
    let expected = Response::SuccessfulRm;
    expected.write(&mut buf);
    assert_eq!(Response::from_bytes(&buf), expected);
}

#[test]
fn communicates_get() {
    let mut buf = Vec::new();
    let expected = Response::SuccessfulGet("foo".to_owned());
    expected.write(&mut buf);
    assert_eq!(Response::from_bytes(&buf), expected);
}

#[test]
fn communicates_empty_get() {
    let mut buf = Vec::new();
    let expected = Response::SuccessfulGet("".to_owned());
    expected.write(&mut buf);
    assert_eq!(Response::from_bytes(&buf), expected);
}

#[test]
fn communicates_not_found() {
    let mut buf = Vec::new();
    let expected = Response::KeyNotFound;
    expected.write(&mut buf);
    assert_eq!(Response::from_bytes(&buf), expected);
}

#[test]
fn communicates_error() {
    let mut buf = Vec::new();
    let expected = Response::Error("some error".to_owned());
    expected.write(&mut buf);
    assert_eq!(Response::from_bytes(&buf), expected);
}

#[test]
fn handles_non_utf8() {
    let bytes = [255];
    assert_eq!(Response::from_bytes(&bytes), Response::Error("Invalid utf8".to_owned()));
}

#[test]
fn handles_invalid_payload() {
    let bytes = b"blahblah";
    assert_eq!(Response::from_bytes(bytes), Response::Error("Invalid start byte".to_owned()));
}

#[test]
fn handles_empty_payload() {
    let bytes = b"";
    assert_eq!(Response::from_bytes(bytes), Response::Error("Invalid start byte".to_owned()));
}

#[test]
fn encodes_set_abc_defg_exactly() {
    let mut buf = Vec::new();
    put("abc", "defg").write(&mut buf);
    let mut expected = vec![0, 0, 0, 3, 0, 0, 0, 0, 0, 0, 0, 4];
    expected.extend(b"abcdefg");
    assert_eq!(buf, expected);
}

#[test]
fn encodes_get_and_rm_sentinels() {
    let mut buf = Vec::new();
    Cmd::Get("abc".to_owned()).write(&mut buf);
    assert_eq!(&buf[..12], &[0, 0, 0, 3, 0xff, 0xff, 0xff, 0xff, 0xff, 0xff, 0xff, 0xff]);
    assert_eq!(&buf[12..], b"abc");
    let mut buf = Vec::new();
    Cmd::Rm("abc".to_owned()).write(&mut buf);
    assert_eq!(&buf[..12], &[0, 0, 0, 3, 0xff, 0xff, 0xff, 0xff, 0xff, 0xff, 0xff, 0xfe]);
}

#[test]
fn round_trip_with_multibyte_text() {
    let original = put("clé", "välue ✓");
    let mut buf = Vec::new();
    let n = original.write(&mut buf);
    buf.extend(b"trailing");
    let mut reader = Reader::new();
    let result = reader.read_cmd(&buf).unwrap().unwrap();
    assert_eq!(result.bytes_read(), n);
    assert_eq!(result.into_cmd(), original);
}

#[test]
fn round_trip_with_empty_value() {
    let original = put("k", "");
    let mut buf = Vec::new();
    assert_eq!(original.write(&mut buf), 13);
    assert_eq!(parse(&buf).unwrap(), original);
}

#[test]
fn non_utf8_key_is_invalid_utf8() {
    let mut bytes = Vec::new();
    bytes.extend(1u32.to_be_bytes());
    bytes.extend(GET_VALUE_LEN.to_be_bytes());
    bytes.push(0xff);
    assert!(matches!(parse(&bytes), Err(Error::InvalidUtf8)));
}

#[test]
fn non_utf8_value_is_invalid_utf8() {
    let mut bytes = Vec::new();
    bytes.extend(1u32.to_be_bytes());
    bytes.extend(1u64.to_be_bytes());
    bytes.push(b'k');
    bytes.push(0xfe);
    assert!(matches!(parse(&bytes), Err(Error::InvalidUtf8)));
}

#[test]
fn short_body_is_malformed() {
    let mut bytes = Vec::new();
    bytes.extend(5u32.to_be_bytes());
    bytes.extend(5u64.to_be_bytes());
    bytes.extend(b"foolsbars");
    let mut reader = Reader::new();
    assert!(matches!(reader.read_cmd(&bytes), Err(Error::MalformedRecord)));
}

#[test]
fn short_header_is_malformed() {
    let mut reader = Reader::new();
    assert!(matches!(reader.read_cmd(&[0, 0, 0]), Err(Error::MalformedRecord)));
}

#[test]
fn cmd_reader_walks_records() {
    let mut bytes = Vec::new();
    put("a", "bc").write(&mut bytes);
    Cmd::Rm("a".to_owned()).write(&mut bytes);
    let mut cmd_reader = CmdReader::new(&bytes);
    let mut buf = Vec::new();
    assert_eq!(cmd_reader.read_cmd_bytes(&mut buf).unwrap(), 15);
    assert_eq!(&buf[..15], &bytes[..15]);
    assert_eq!(cmd_reader.read_cmd_bytes(&mut buf).unwrap(), 13);
    assert_eq!(&buf[..13], &bytes[15..]);
    assert_eq!(cmd_reader.read_cmd_bytes(&mut buf).unwrap(), 0);
}

#[test]
fn body_len_of_header() {
    assert_eq!(body_len(3, GET_VALUE_LEN), Some(3));
    assert_eq!(body_len(3, RM_VALUE_LEN), Some(3));
    assert_eq!(body_len(3, 4), Some(7));
    assert_eq!(body_len(1, u64::MAX - 2), None);
}

#[test]
fn response_tags_and_payload_rules() {
    assert_eq!(Response::from_bytes(b"sjunk"), Response::SuccessfulSet);
    assert_eq!(Response::from_bytes(b"n"), Response::KeyNotFound);
    assert_eq!(Response::from_bytes(b"gvalue"), Response::SuccessfulGet("value".to_owned()));
    let mut buf = Vec::new();
    Response::Error("boom".to_owned()).write(&mut buf);
    assert_eq!(buf, b"eboom".to_vec());
}
