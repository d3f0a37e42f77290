use kvs::bytes::{append_bytes, put_text, take_text, Scan};
use kvs::command::Command;
use kvs::json::{push_escaped, put_string, take_escaped, take_run, take_string};
use kvs::network::{
    frame, unframe, Deserialize, GetResponse, RemoveResponse, Request, Response, Serialize,
    SetResponse, REQUEST_GET, REQUEST_PUT, REQUEST_REMOVE, RESPONSE_ERR, RESPONSE_GET,
    RESPONSE_PUT, RESPONSE_REMOVE,
};
use kvs::error::KvError;

fn put(key: &str, value: &str) -> Command {
    Command::Put { key: key.to_owned(), value: value.to_owned() }
}

fn removal(key: &str) -> Command {
    Command::Remove { key: key.to_owned() }
}

#[test]
fn text_is_written_with_a_big_endian_length() {
    let mut buf = vec![9u8];
    assert!(put_text(&mut buf, &"abc".to_owned()));
    assert_eq!(buf, vec![9, 0, 0, 0, 3, b'a', b'b', b'c']);
}

#[test]
fn text_length_uses_all_four_bytes() {
    let long = "x".repeat(0x0001_0203);
    let mut buf = Vec::new();
    assert!(put_text(&mut buf, &long));
    assert_eq!(&buf[..4], &[0x00, 0x01, 0x02, 0x03]);
    assert_eq!(buf.len(), 4 + 0x0001_0203);
    assert_eq!(take_text(&buf, 0), Scan::Done(long, 4 + 0x0001_0203));
}

#[test]
fn text_is_read_back_at_an_offset() {
    let buf = vec![7, 7, 0, 0, 0, 2, b'h', b'i', 5];
    assert_eq!(take_text(&buf, 2), Scan::Done("hi".to_owned(), 8));
}

#[test]
fn text_of_more_than_one_byte_per_char() {
    let mut buf = Vec::new();
    assert!(put_text(&mut buf, &"é€".to_owned()));
    assert_eq!(buf, vec![0, 0, 0, 5, 0xc3, 0xa9, 0xe2, 0x82, 0xac]);
    assert_eq!(take_text(&buf, 0), Scan::Done("é€".to_owned(), 9));
}

#[test]
fn text_that_is_cut_off_is_short() {
    assert_eq!(take_text(&[0, 0, 0], 0), Scan::Short);
    assert_eq!(take_text(&[0, 0, 0, 2, b'a'], 0), Scan::Short);
    assert_eq!(take_text(&[1, 2], 2), Scan::Short);
}

#[test]
fn text_that_is_not_utf8_is_bad() {
    assert_eq!(take_text(&[0, 0, 0, 1, 0xff], 0), Scan::Bad);
}

#[test]
fn empty_text() {
    let mut buf = Vec::new();
    assert!(put_text(&mut buf, &String::new()));
    assert_eq!(buf, vec![0, 0, 0, 0]);
    assert_eq!(take_text(&buf, 0), Scan::Done(String::new(), 4));
}

#[test]
fn append_bytes_appends() {
    let mut buf = vec![1u8, 2];
    append_bytes(&mut buf, &[3, 4, 5]);
    assert_eq!(buf, vec![1, 2, 3, 4, 5]);
}

fn json_set(key: &str, value: &str) -> Vec<u8> {
    let mut fields = serde_json::Map::new();
    fields.insert("key".to_owned(), serde_json::Value::String(key.to_owned()));
    fields.insert("value".to_owned(), serde_json::Value::String(value.to_owned()));
    let mut command = serde_json::Map::new();
    command.insert("Set".to_owned(), serde_json::Value::Object(fields));
    serde_json::to_vec(&serde_json::Value::Object(command)).unwrap()
}

fn json_remove(key: &str) -> Vec<u8> {
    let mut fields = serde_json::Map::new();
    fields.insert("key".to_owned(), serde_json::Value::String(key.to_owned()));
    let mut command = serde_json::Map::new();
    command.insert("Remove".to_owned(), serde_json::Value::Object(fields));
    serde_json::to_vec(&serde_json::Value::Object(command)).unwrap()
}

fn awkward_texts() -> Vec<String> {
    let mut texts: Vec<String> =
        ["", "a", "key", "with \"quotes\"", "back\\slash", "tab\there", "line\nfeed", "/slash/"]
            .iter()
            .map(|s| s.to_string())
            .collect();
    texts.push((0u8..=0x7f).map(|b| b as char).collect());
    texts.push("é€😀 ключ".to_owned());
    texts.push("\u{7f}\u{80}\u{2028}\u{ffff}".to_owned());
    texts
}

#[test]
fn put_command_bytes() {
    let bytes = put("k1", "v").encode();
    assert_eq!(bytes, b"{\"Set\":{\"key\":\"k1\",\"value\":\"v\"}}".to_vec());
    assert_eq!(put("a", "1").encode().len(), 31);
}

#[test]
fn remove_command_bytes() {
    let bytes = removal("k1").encode();
    assert_eq!(bytes, b"{\"Remove\":{\"key\":\"k1\"}}".to_vec());
    assert_eq!(removal("a").encode().len(), 22);
}

#[test]
fn bytes_inside_a_string() {
    let cases: [(u8, &[u8]); 12] = [
        (b'"', b"\\\""),
        (b'\\', b"\\\\"),
        (8, b"\\b"),
        (9, b"\\t"),
        (10, b"\\n"),
        (12, b"\\f"),
        (13, b"\\r"),
        (0, b"\\u0000"),
        (11, b"\\u000b"),
        (0x1f, b"\\u001f"),
        (b'a', b"a"),
        (0x7f, b"\x7f"),
    ];
    for (byte, expected) in cases {
        let mut out = vec![b'x'];
        push_escaped(&mut out, byte);
        assert_eq!(&out[1..], expected);
        assert_eq!(take_escaped(&out, 1), Scan::Done(byte, out.len()));
    }
}

#[test]
fn strings_are_written_as_serde_json_writes_them() {
    for text in awkward_texts() {
        let mut out = Vec::new();
        put_string(&mut out, &text);
        assert_eq!(out, serde_json::to_vec(&text).unwrap());
        assert_eq!(take_string(&out, 0), Scan::Done(text, out.len()));
    }
}

#[test]
fn commands_are_written_as_serde_json_writes_them() {
    for key in awkward_texts() {
        for value in ["", "v", "\u{1}\"\\"] {
            assert_eq!(put(&key, value).encode(), json_set(&key, value));
        }
        assert_eq!(removal(&key).encode(), json_remove(&key));
    }
}

#[test]
fn commands_that_serde_json_wrote_are_read() {
    for key in awkward_texts() {
        let bytes = json_set(&key, "some value");
        assert_eq!(Command::decode(&bytes, 0), Scan::Done(put(&key, "some value"), bytes.len()));
        let bytes = json_remove(&key);
        assert_eq!(Command::decode(&bytes, 0), Scan::Done(removal(&key), bytes.len()));
    }
}

#[test]
fn strings_in_another_form_are_refused() {
    for bytes in [
        &b"\"\\/\""[..],
        &b"\"\\u0041\""[..],
        &b"\"\\u000B\""[..],
        &b"\"\\u0009\""[..],
        &b"\"\\x\""[..],
        &b"\"\x01\""[..],
        &b"\"\xff\""[..],
        &b"x\""[..],
    ] {
        assert_eq!(take_string(bytes, 0), Scan::Bad);
    }
    for bytes in [&b""[..], &b"\""[..], &b"\"abc"[..], &b"\"\\"[..], &b"\"\\u00"[..]] {
        assert_eq!(take_string(bytes, 0), Scan::Short);
    }
}

#[test]
fn runs_of_fixed_bytes() {
    assert_eq!(take_run(b"xx}}y", 2, b"}}"), Scan::Done((), 4));
    assert_eq!(take_run(b"xx}", 2, b"}}"), Scan::Short);
    assert_eq!(take_run(b"xx", 2, b"}}"), Scan::Short);
    assert_eq!(take_run(b"xx}y", 2, b"}}"), Scan::Bad);
    assert_eq!(take_run(b"xxy", 2, b"}}"), Scan::Bad);
    assert_eq!(take_run(b"xx", 1, b""), Scan::Done((), 1));
}

#[test]
fn command_round_trip() {
    for command in [put("key", "value"), put("", ""), removal("key"), put("ключ", "значение")] {
        let bytes = command.encode();
        assert_eq!(Command::decode(&bytes, 0), Scan::Done(command, bytes.len()));
    }
}

#[test]
fn commands_are_self_delimiting() {
    let first = put("a", "1");
    let second = removal("a");
    let mut log = first.encode();
    let mid = log.len();
    log.extend(second.encode());
    assert_eq!(Command::decode(&log, 0), Scan::Done(first, mid));
    assert_eq!(Command::decode(&log, mid), Scan::Done(second, log.len()));
    assert_eq!(Command::decode(&log, log.len()), Scan::Short);
}

#[test]
fn command_that_is_cut_off_is_short() {
    for bytes in [put("key", "va\nlue").encode(), removal("k\u{0}").encode()] {
        for cut in 0..bytes.len() {
            assert_eq!(Command::decode(&bytes[..cut], 0), Scan::Short);
        }
    }
}

#[test]
fn bytes_that_start_no_command_are_bad() {
    for bytes in [
        &b"x"[..],
        &b"{\"Get\":{\"key\":\"k\"}}"[..],
        &b" {\"Remove\":{\"key\":\"k\"}}"[..],
        &b"{\"Remove\": {\"key\":\"k\"}}"[..],
        &b"{\"Remove\":{\"key\":\"k\"}]"[..],
        &b"{\"Set\":{\"key\":\"k\",\"valve\":\"v\"}}"[..],
        &b"{\"Set\":{\"value\":\"v\",\"key\":\"k\"}}"[..],
        &[1, 0, 0, 0, 0][..],
    ] {
        assert_eq!(Command::decode(bytes, 0), Scan::Bad);
    }
}

#[test]
fn command_text() {
    assert_eq!(put("k", "v").text(), "Set (k, v)");
    assert_eq!(removal("k").text(), "Remove k");
}

#[test]
fn request_tags() {
    assert_eq!(Request::Get { key: "k".to_owned() }.tag(), 1);
    assert_eq!(Request::Put { key: "k".to_owned(), value: "v".to_owned() }.tag(), 2);
    assert_eq!(Request::Remove { key: "k".to_owned() }.tag(), 3);
    assert_eq!((REQUEST_GET, REQUEST_PUT, REQUEST_REMOVE), (1, 2, 3));
}

#[test]
fn request_bytes() {
    let mut buf = Vec::new();
    let n = Request::Get { key: "ab".to_owned() }.serialize(&mut buf).unwrap();
    assert_eq!(buf, vec![1, 0, 0, 0, 2, b'a', b'b']);
    assert_eq!(n, 7);

    let mut buf = vec![0xee];
    let n = Request::Put { key: "a".to_owned(), value: "bc".to_owned() }
        .serialize(&mut buf)
        .unwrap();
    assert_eq!(buf, vec![0xee, 2, 0, 0, 0, 1, b'a', 0, 0, 0, 2, b'b', b'c']);
    assert_eq!(n, 12);

    let mut buf = Vec::new();
    let n = Request::Remove { key: "".to_owned() }.serialize(&mut buf).unwrap();
    assert_eq!(buf, vec![3, 0, 0, 0, 0]);
    assert_eq!(n, 5);
}

#[test]
fn request_round_trip() {
    let requests = [
        Request::Get { key: "key".to_owned() },
        Request::Put { key: "key".to_owned(), value: "value".to_owned() },
        Request::Remove { key: "key".to_owned() },
    ];
    for request in requests {
        let mut buf = Vec::new();
        request.serialize(&mut buf).unwrap();
        buf.push(0x55);
        assert_eq!(Request::deserialize(&buf), Ok(request));
    }
}

#[test]
fn request_that_is_no_request() {
    for bytes in [&[][..], &[0][..], &[4, 0, 0, 0, 0][..], &[1, 0, 0][..], &[2, 0, 0, 0, 0][..]] {
        assert!(matches!(Request::deserialize(bytes), Err(KvError::Serialize(_))));
    }
    assert!(matches!(Request::deserialize(&[1, 0, 0, 0, 1, 0x80]), Err(KvError::Serialize(_))));
}

#[test]
fn request_text() {
    assert_eq!(Request::Get { key: "k".to_owned() }.text(), "[Get] key: k");
    assert_eq!(
        Request::Put { key: "k".to_owned(), value: "v".to_owned() }.text(),
        "[Set] key: k, value: v"
    );
    assert_eq!(Request::Remove { key: "k".to_owned() }.text(), "[Remove] key: k");
}

#[test]
fn response_bytes() {
    let cases = [
        (Response::Get(Some("v".to_owned())), vec![1, 1, 0, 0, 0, 1, b'v']),
        (Response::Get(None), vec![1, 0]),
        (Response::Put, vec![2]),
        (Response::Remove, vec![3]),
        (Response::Error("no".to_owned()), vec![4, 0, 0, 0, 2, b'n', b'o']),
    ];
    for (response, expected) in cases {
        let mut buf = Vec::new();
        let n = response.serialize(&mut buf).unwrap();
        assert_eq!(buf, expected);
        assert_eq!(n, expected.len());
        assert_eq!(Response::deserialize(&buf), Ok(response));
    }
    assert_eq!((RESPONSE_GET, RESPONSE_PUT, RESPONSE_REMOVE, RESPONSE_ERR), (1, 2, 3, 4));
}

#[test]
fn response_tags() {
    assert_eq!(Response::Get(None).tag(), 1);
    assert_eq!(Response::Put.tag(), 2);
    assert_eq!(Response::Remove.tag(), 3);
    assert_eq!(Response::Error(String::new()).tag(), 4);
}

#[test]
fn response_that_is_no_response() {
    for bytes in [&[][..], &[1][..], &[1, 2][..], &[5][..], &[4, 0, 0][..], &[1, 1, 0][..]] {
        assert!(matches!(Response::deserialize(bytes), Err(KvError::Serialize(_))));
    }
}

#[test]
fn frames() {
    assert_eq!(frame(&[1, 2, 3]), Some(vec![0, 0, 0, 3, 1, 2, 3]));
    assert_eq!(frame(&[]), Some(vec![0, 0, 0, 0]));
    let payload = vec![7u8; 258];
    let framed = frame(&payload).unwrap();
    assert_eq!(&framed[..4], &[0, 0, 1, 2]);
    assert_eq!(unframe(&framed), Some(payload));
}

#[test]
fn unframe_waits_for_the_whole_frame() {
    assert_eq!(unframe(&[0, 0, 0]), None);
    assert_eq!(unframe(&[0, 0, 0, 2, 9]), None);
    assert_eq!(unframe(&[0, 0, 0, 2, 9, 8]), Some(vec![9, 8]));
    assert_eq!(unframe(&[0, 0, 0, 2, 9, 8, 7]), Some(vec![9, 8]));
    assert_eq!(unframe(&[0, 0, 0, 0]), Some(vec![]));
}

#[test]
fn framed_request_round_trip() {
    let request = Request::Put { key: "k".to_owned(), value: "v".to_owned() };
    let mut payload = Vec::new();
    request.serialize(&mut payload).unwrap();
    let framed = frame(&payload).unwrap();
    assert_eq!(Request::deserialize(&unframe(&framed).unwrap()), Ok(request));
}

#[test]
fn answers_for_engine_replies() {
    assert_eq!(
        GetResponse::from_engine(Ok(Some("v".to_owned()))),
        GetResponse::Value(Some("v".to_owned()))
    );
    assert_eq!(GetResponse::from_engine(Ok(None)), GetResponse::Value(None));
    assert_eq!(
        GetResponse::from_engine(Err(KvError::KeyNotFound)),
        GetResponse::Error("Key not found".to_owned())
    );
    assert_eq!(SetResponse::from_engine(Ok(())), SetResponse::Done);
    assert_eq!(
        SetResponse::from_engine(Err(KvError::Io("disk".to_owned()))),
        SetResponse::Error("Io Error: disk".to_owned())
    );
    assert_eq!(RemoveResponse::from_engine(Ok(())), RemoveResponse::Done);
    assert_eq!(
        RemoveResponse::from_engine(Err(KvError::KeyNotFound)),
        RemoveResponse::Error("Key not found".to_owned())
    );
}

#[test]
fn answers_as_responses_and_results() {
    assert_eq!(GetResponse::Value(None).into_response(), Response::Get(None));
    assert_eq!(
        GetResponse::Error("e".to_owned()).into_response(),
        Response::Error("e".to_owned())
    );
    assert_eq!(SetResponse::Done.into_response(), Response::Put);
    assert_eq!(RemoveResponse::Done.into_response(), Response::Remove);
    assert_eq!(GetResponse::Value(Some("v".to_owned())).into_result(), Ok(Some("v".to_owned())));
    assert_eq!(
        GetResponse::Error("e".to_owned()).into_result(),
        Err(KvError::StringError("e".to_owned()))
    );
    assert_eq!(SetResponse::Done.into_result(), Ok(()));
    assert_eq!(
        SetResponse::Error("e".to_owned()).into_result(),
        Err(KvError::StringError("e".to_owned()))
    );
    assert_eq!(RemoveResponse::Done.into_result(), Ok(()));
    assert_eq!(
        RemoveResponse::Error("e".to_owned()).into_result(),
        Err(KvError::StringError("e".to_owned()))
    );
}

#[test]
fn error_messages() {
    assert_eq!(KvError::Io("x".to_owned()).message(), "Io Error: x");
    assert_eq!(KvError::Serialize("x".to_owned()).message(), "serialize/deserialize error: x");
    assert_eq!(KvError::KeyNotFound.message(), "Key not found");
    assert_eq!(KvError::ReaderNotFound.message(), "Reader not found");
    assert_eq!(KvError::Utf8.message(), "utf8 error");
    assert_eq!(KvError::StringError("x".to_owned()).message(), "response error message: x");
    assert_eq!(KvError::WrongEngine.message(), "wrone engine");
}
