//! The messages between client and server, and their form on the wire.
//!
//! A message is one tag byte followed by its fields; a text is written with
//! a length prefix. On a connection every message travels in a frame: its
//! length as a big-endian `u32`, then the message.

use crate::bytes::{
    append_bytes, lemma_text_roundtrip, lemma_u32_be_roundtrip, put_text, take_text, text_at,
    text_fits, text_wire, u32_be, u32_from_be, u32_from_be_bytes, u32_to_be_bytes, Parse, Scan,
};
use crate::error::KvError;
use vstd::prelude::*;
use vstd::slice::{slice_subrange, slice_to_vec};
use vstd::string::StringExecFns;

verus! {

/// Something that has a form on the wire.
pub trait Serialize {
    /// The bytes that stand for the value.
    spec fn wire(&self) -> Seq<u8>;

    /// Whether every text of the value is short enough to be written.
    spec fn fits(&self) -> bool;

    /// Appends the wire form of the value to `buf` and returns the number of
    /// bytes appended. A value with a text too long for its length prefix is
    /// refused, and `buf` stays as it is.
    fn serialize(&self, buf: &mut Vec<u8>) -> (written: Result<usize, KvError>)
        ensures
            written is Ok <==> self.fits(),
            written matches Ok(n) ==> final(buf)@ == old(buf)@ + self.wire() && n
                == self.wire().len(),
            written matches Err(e) ==> final(buf)@ == old(buf)@ && e is Serialize,
    ;
}

/// Something that can be read from its form on the wire.
pub trait Deserialize {
    /// The type that the bytes are read to.
    type Output;

    /// Whether `bytes` begin with the wire form of a value.
    spec fn readable(bytes: Seq<u8>) -> bool;

    /// Whether `bytes` begin with the wire form of `value`.
    spec fn reads(bytes: Seq<u8>, value: Self::Output) -> bool;

    /// Reads the value that `buf` begins with. Bytes that end too early or
    /// cannot be a value are an error.
    fn deserialize(buf: &[u8]) -> (read: Result<Self::Output, KvError>)
        ensures
            read is Ok <==> Self::readable(buf@),
            read matches Ok(value) ==> Self::reads(buf@, value),
            read matches Err(e) ==> e is Serialize,
    ;
}

/// The tag byte of a request that reads a key.
pub const REQUEST_GET: u8 = 1;

/// The tag byte of a request that sets a key.
pub const REQUEST_PUT: u8 = 2;

/// The tag byte of a request that removes a key.
pub const REQUEST_REMOVE: u8 = 3;

/// What a client asks of the server.
#[derive(Debug, Clone, PartialEq, Eq)]
pub enum Request {
    Get { key: String },
    Put { key: String, value: String },
    Remove { key: String },
}

/// A request as mathematics sees it.
pub enum RequestView {
    Get { key: Seq<char> },
    Put { key: Seq<char>, value: Seq<char> },
    Remove { key: Seq<char> },
}

impl View for Request {
    type V = RequestView;

    open spec fn view(&self) -> RequestView {
        match self {
            Request::Get { key } => RequestView::Get { key: key@ },
            Request::Put { key, value } => RequestView::Put { key: key@, value: value@ },
            Request::Remove { key } => RequestView::Remove { key: key@ },
        }
    }
}

impl RequestView {
    /// The tag byte of the request.
    pub open spec fn tag(self) -> u8 {
        match self {
            RequestView::Get { .. } => REQUEST_GET,
            RequestView::Put { .. } => REQUEST_PUT,
            RequestView::Remove { .. } => REQUEST_REMOVE,
        }
    }

    /// Whether every text of the request is short enough to be written.
    pub open spec fn fits(self) -> bool {
        match self {
            RequestView::Get { key } => text_fits(key),
            RequestView::Put { key, value } => text_fits(key) && text_fits(value),
            RequestView::Remove { key } => text_fits(key),
        }
    }

    /// The bytes that stand for the request.
    pub open spec fn wire(self) -> Seq<u8> {
        match self {
            RequestView::Get { key } => seq![REQUEST_GET] + text_wire(key),
            RequestView::Put { key, value } => seq![REQUEST_PUT] + text_wire(key) + text_wire(
                value,
            ),
            RequestView::Remove { key } => seq![REQUEST_REMOVE] + text_wire(key),
        }
    }
}

/// The request that starts at offset `at` of `bytes`.
pub open spec fn request_at(bytes: Seq<u8>, at: int) -> Parse<RequestView> {
    if bytes.len() <= at {
        Parse::Short
    } else if bytes[at] == REQUEST_GET {
        match text_at(bytes, at + 1) {
            Parse::Done(key, end) => Parse::Done(RequestView::Get { key }, end),
            Parse::Short => Parse::Short,
            Parse::Bad => Parse::Bad,
        }
    } else if bytes[at] == REQUEST_PUT {
        match text_at(bytes, at + 1) {
            Parse::Done(key, mid) => match text_at(bytes, mid) {
                Parse::Done(value, end) => Parse::Done(RequestView::Put { key, value }, end),
                Parse::Short => Parse::Short,
                Parse::Bad => Parse::Bad,
            },
            Parse::Short => Parse::Short,
            Parse::Bad => Parse::Bad,
        }
    } else if bytes[at] == REQUEST_REMOVE {
        match text_at(bytes, at + 1) {
            Parse::Done(key, end) => Parse::Done(RequestView::Remove { key }, end),
            Parse::Short => Parse::Short,
            Parse::Bad => Parse::Bad,
        }
    } else {
        Parse::Bad
    }
}

/// A request that was written is read back as itself, whatever stands
/// behind it.
pub proof fn law_request_round_trip(request: RequestView, back: Seq<u8>)
    requires
        request.fits(),
    ensures
        request_at(request.wire() + back, 0) == Parse::Done(request, request.wire().len() as int),
{
    let all = request.wire() + back;
    match request {
        RequestView::Get { key } => {
            lemma_text_roundtrip(seq![REQUEST_GET], key, back);
            assert(all =~= seq![REQUEST_GET] + text_wire(key) + back);
        },
        RequestView::Put { key, value } => {
            let b1 = text_wire(value) + back;
            lemma_text_roundtrip(seq![REQUEST_PUT], key, b1);
            assert(all =~= seq![REQUEST_PUT] + text_wire(key) + b1);
            let f2 = seq![REQUEST_PUT] + text_wire(key);
            lemma_text_roundtrip(f2, value, back);
            assert(all =~= f2 + text_wire(value) + back);
        },
        RequestView::Remove { key } => {
            lemma_text_roundtrip(seq![REQUEST_REMOVE], key, back);
            assert(all =~= seq![REQUEST_REMOVE] + text_wire(key) + back);
        },
    }
}

impl Request {
    /// The tag byte of the request.
    pub fn tag(&self) -> (tag: u8)
        ensures
            tag == self@.tag(),
    {
        match self {
            Request::Get { .. } => REQUEST_GET,
            Request::Put { .. } => REQUEST_PUT,
            Request::Remove { .. } => REQUEST_REMOVE,
        }
    }

    /// The request as text, for a log.
    pub open spec fn spec_text(self) -> Seq<char> {
        match self {
            Request::Get { key } => "[Get] key: "@ + key@,
            Request::Put { key, value } => "[Set] key: "@ + key@ + ", value: "@ + value@,
            Request::Remove { key } => "[Remove] key: "@ + key@,
        }
    }

    /// Renders the request as text.
    pub fn text(&self) -> (text: String)
        ensures
            text@ == self.spec_text(),
    {
        match self {
            Request::Get { key } => String::from_str("[Get] key: ").concat(key.as_str()),
            Request::Put { key, value } => String::from_str("[Set] key: ").concat(
                key.as_str(),
            ).concat(", value: ").concat(value.as_str()),
            Request::Remove { key } => String::from_str("[Remove] key: ").concat(key.as_str()),
        }
    }
}

/// What the error says of a value that has a text too long to be written.
pub open spec fn too_long_text() -> Seq<char> {
    "a text is too long"@
}

/// What the error says of bytes that are no message.
pub open spec fn invalid_data_text() -> Seq<char> {
    "invalid data"@
}

/// The error for a value that has a text too long to be written: a failure
/// to serialize, which says so.
fn too_long() -> (e: KvError)
    ensures
        e matches KvError::Serialize(detail) && detail@ == too_long_text(),
{
    KvError::Serialize(String::from_str("a text is too long"))
}

/// The error for bytes that are no message: a failure to deserialize, which
/// says that the data is invalid.
fn invalid_data() -> (e: KvError)
    ensures
        e matches KvError::Serialize(detail) && detail@ == invalid_data_text(),
{
    KvError::Serialize(String::from_str("invalid data"))
}

impl Serialize for Request {
    open spec fn wire(&self) -> Seq<u8> {
        self@.wire()
    }

    open spec fn fits(&self) -> bool {
        self@.fits()
    }

    fn serialize(&self, buf: &mut Vec<u8>) -> (written: Result<usize, KvError>) {
        let mut out: Vec<u8> = Vec::new();
        out.push(self.tag());
        match self {
            Request::Get { key } => {
                if !put_text(&mut out, key) {
                    return Err(too_long());
                }
                assert(out@ =~= self@.wire());
            },
            Request::Put { key, value } => {
                if !put_text(&mut out, key) {
                    return Err(too_long());
                }
                if !put_text(&mut out, value) {
                    return Err(too_long());
                }
                assert(out@ =~= self@.wire());
            },
            Request::Remove { key } => {
                if !put_text(&mut out, key) {
                    return Err(too_long());
                }
                assert(out@ =~= self@.wire());
            },
        }
        append_bytes(buf, out.as_slice());
        Ok(out.len())
    }
}

impl Deserialize for Request {
    type Output = Request;

    open spec fn readable(bytes: Seq<u8>) -> bool {
        request_at(bytes, 0) is Done
    }

    open spec fn reads(bytes: Seq<u8>, value: Request) -> bool {
        request_at(bytes, 0) is Done && request_at(bytes, 0)->Done_0 == value@
    }

    fn deserialize(buf: &[u8]) -> (read: Result<Request, KvError>) {
        if buf.len() == 0 {
            return Err(invalid_data());
        }
        let tag = buf[0];
        if tag == REQUEST_GET {
            match take_text(buf, 1) {
                Scan::Done(key, end) => Ok(Request::Get { key }),
                _ => Err(invalid_data()),
            }
        } else if tag == REQUEST_PUT {
            match take_text(buf, 1) {
                Scan::Done(key, mid) => match take_text(buf, mid) {
                    Scan::Done(value, end) => Ok(Request::Put { key, value }),
                    _ => Err(invalid_data()),
                },
                _ => Err(invalid_data()),
            }
        } else if tag == REQUEST_REMOVE {
            match take_text(buf, 1) {
                Scan::Done(key, end) => Ok(Request::Remove { key }),
                _ => Err(invalid_data()),
            }
        } else {
            Err(invalid_data())
        }
    }
}

/// The tag byte of the answer to a request that reads a key.
pub const RESPONSE_GET: u8 = 1;

/// The tag byte of the answer to a request that sets a key.
pub const RESPONSE_PUT: u8 = 2;

/// The tag byte of the answer to a request that removes a key.
pub const RESPONSE_REMOVE: u8 = 3;

/// The tag byte of an answer that reports an error.
pub const RESPONSE_ERR: u8 = 4;

/// What the server answers: the value of the key that was read, if it has
/// one; that the key was set; that the key was removed; or what went wrong.
#[derive(Debug, Clone, PartialEq, Eq)]
pub enum Response {
    Get(Option<String>),
    Put,
    Remove,
    Error(String),
}

/// A response as mathematics sees it.
pub enum ResponseView {
    Get(Option<Seq<char>>),
    Put,
    Remove,
    Error(Seq<char>),
}

impl View for Response {
    type V = ResponseView;

    open spec fn view(&self) -> ResponseView {
        match self {
            Response::Get(Some(value)) => ResponseView::Get(Some(value@)),
            Response::Get(None) => ResponseView::Get(None),
            Response::Put => ResponseView::Put,
            Response::Remove => ResponseView::Remove,
            Response::Error(message) => ResponseView::Error(message@),
        }
    }
}

impl ResponseView {
    /// The tag byte of the response.
    pub open spec fn tag(self) -> u8 {
        match self {
            ResponseView::Get(_) => RESPONSE_GET,
            ResponseView::Put => RESPONSE_PUT,
            ResponseView::Remove => RESPONSE_REMOVE,
            ResponseView::Error(_) => RESPONSE_ERR,
        }
    }

    /// Whether every text of the response is short enough to be written.
    pub open spec fn fits(self) -> bool {
        match self {
            ResponseView::Get(Some(value)) => text_fits(value),
            ResponseView::Error(message) => text_fits(message),
            _ => true,
        }
    }

    /// The bytes that stand for the response.
    pub open spec fn wire(self) -> Seq<u8> {
        match self {
            ResponseView::Get(Some(value)) => seq![RESPONSE_GET, 1u8] + text_wire(value),
            ResponseView::Get(None) => seq![RESPONSE_GET, 0u8],
            ResponseView::Put => seq![RESPONSE_PUT],
            ResponseView::Remove => seq![RESPONSE_REMOVE],
            ResponseView::Error(message) => seq![RESPONSE_ERR] + text_wire(message),
        }
    }
}

/// The response that starts at offset `at` of `bytes`.
pub open spec fn response_at(bytes: Seq<u8>, at: int) -> Parse<ResponseView> {
    if bytes.len() <= at {
        Parse::Short
    } else if bytes[at] == RESPONSE_GET {
        if bytes.len() <= at + 1 {
            Parse::Short
        } else if bytes[at + 1] == 0 {
            Parse::Done(ResponseView::Get(None), at + 2)
        } else if bytes[at + 1] == 1 {
            match text_at(bytes, at + 2) {
                Parse::Done(value, end) => Parse::Done(ResponseView::Get(Some(value)), end),
                Parse::Short => Parse::Short,
                Parse::Bad => Parse::Bad,
            }
        } else {
            Parse::Bad
        }
    } else if bytes[at] == RESPONSE_PUT {
        Parse::Done(ResponseView::Put, at + 1)
    } else if bytes[at] == RESPONSE_REMOVE {
        Parse::Done(ResponseView::Remove, at + 1)
    } else if bytes[at] == RESPONSE_ERR {
        match text_at(bytes, at + 1) {
            Parse::Done(message, end) => Parse::Done(ResponseView::Error(message), end),
            Parse::Short => Parse::Short,
            Parse::Bad => Parse::Bad,
        }
    } else {
        Parse::Bad
    }
}

/// A response that was written is read back as itself, whatever stands
/// behind it.
pub proof fn law_response_round_trip(response: ResponseView, back: Seq<u8>)
    requires
        response.fits(),
    ensures
        response_at(response.wire() + back, 0) == Parse::Done(
            response,
            response.wire().len() as int,
        ),
{
    let all = response.wire() + back;
    match response {
        ResponseView::Get(Some(value)) => {
            lemma_text_roundtrip(seq![RESPONSE_GET, 1u8], value, back);
            assert(all =~= seq![RESPONSE_GET, 1u8] + text_wire(value) + back);
        },
        ResponseView::Get(None) => {
            assert(all[1] == 0);
        },
        ResponseView::Put => {},
        ResponseView::Remove => {},
        ResponseView::Error(message) => {
            lemma_text_roundtrip(seq![RESPONSE_ERR], message, back);
            assert(all =~= seq![RESPONSE_ERR] + text_wire(message) + back);
        },
    }
}

impl Response {
    /// The tag byte of the response.
    pub fn tag(&self) -> (tag: u8)
        ensures
            tag == self@.tag(),
    {
        match self {
            Response::Get(_) => RESPONSE_GET,
            Response::Put => RESPONSE_PUT,
            Response::Remove => RESPONSE_REMOVE,
            Response::Error(_) => RESPONSE_ERR,
        }
    }
}

impl Serialize for Response {
    open spec fn wire(&self) -> Seq<u8> {
        self@.wire()
    }

    open spec fn fits(&self) -> bool {
        self@.fits()
    }

    fn serialize(&self, buf: &mut Vec<u8>) -> (written: Result<usize, KvError>) {
        let mut out: Vec<u8> = Vec::new();
        out.push(self.tag());
        match self {
            Response::Get(Some(value)) => {
                out.push(1);
                if !put_text(&mut out, value) {
                    return Err(too_long());
                }
                assert(out@ =~= self@.wire());
            },
            Response::Get(None) => {
                out.push(0);
                assert(out@ =~= self@.wire());
            },
            Response::Put => {
                assert(out@ =~= self@.wire());
            },
            Response::Remove => {
                assert(out@ =~= self@.wire());
            },
            Response::Error(message) => {
                if !put_text(&mut out, message) {
                    return Err(too_long());
                }
                assert(out@ =~= self@.wire());
            },
        }
        append_bytes(buf, out.as_slice());
        Ok(out.len())
    }
}

impl Deserialize for Response {
    type Output = Response;

    open spec fn readable(bytes: Seq<u8>) -> bool {
        response_at(bytes, 0) is Done
    }

    open spec fn reads(bytes: Seq<u8>, value: Response) -> bool {
        response_at(bytes, 0) is Done && response_at(bytes, 0)->Done_0 == value@
    }

    fn deserialize(buf: &[u8]) -> (read: Result<Response, KvError>) {
        if buf.len() == 0 {
            return Err(invalid_data());
        }
        let tag = buf[0];
        if tag == RESPONSE_GET {
            if buf.len() == 1 {
                return Err(invalid_data());
            }
            let present = buf[1];
            if present == 0 {
                Ok(Response::Get(None))
            } else if present == 1 {
                match take_text(buf, 2) {
                    Scan::Done(value, end) => Ok(Response::Get(Some(value))),
                    _ => Err(invalid_data()),
                }
            } else {
                Err(invalid_data())
            }
        } else if tag == RESPONSE_PUT {
            Ok(Response::Put)
        } else if tag == RESPONSE_REMOVE {
            Ok(Response::Remove)
        } else if tag == RESPONSE_ERR {
            match take_text(buf, 1) {
                Scan::Done(message, end) => Ok(Response::Error(message)),
                _ => Err(invalid_data()),
            }
        } else {
            Err(invalid_data())
        }
    }
}

/// A message in its frame: the length of the message as a big-endian `u32`,
/// then the message.
pub open spec fn frame_wire(payload: Seq<u8>) -> Seq<u8> {
    u32_be(payload.len() as u32) + payload
}

/// The message of the frame that `bytes` begin with, where the whole frame
/// is there.
pub open spec fn frame_payload(bytes: Seq<u8>) -> Option<Seq<u8>> {
    if bytes.len() < 4 || bytes.len() < 4 + u32_from_be(bytes.subrange(0, 4)) {
        None
    } else {
        Some(bytes.subrange(4, 4 + u32_from_be(bytes.subrange(0, 4))))
    }
}

/// The message of a frame is the message that was put into the frame,
/// whatever stands behind the frame.
pub proof fn law_frame_round_trip(payload: Seq<u8>, back: Seq<u8>)
    requires
        payload.len() <= u32::MAX,
    ensures
        frame_payload(frame_wire(payload) + back) == Some(payload),
        frame_wire(payload).len() == 4 + payload.len(),
{
    let all = frame_wire(payload) + back;
    lemma_u32_be_roundtrip(payload.len() as u32);
    assert(all.subrange(0, 4) =~= u32_be(payload.len() as u32));
    assert(all.subrange(4, 4 + payload.len() as int) =~= payload);
}

/// Puts a message into its frame, unless the message is too long for the
/// length to be written in four bytes.
pub fn frame(payload: &[u8]) -> (framed: Option<Vec<u8>>)
    ensures
        framed is Some <==> payload@.len() <= u32::MAX,
        framed matches Some(bytes) ==> bytes@ == frame_wire(payload@),
{
    if payload.len() > u32::MAX as usize {
        return None;
    }
    let mut bytes = u32_to_be_bytes(payload.len() as u32);
    append_bytes(&mut bytes, payload);
    Some(bytes)
}

/// Takes the message out of the frame that `buf` begins with; there is
/// none while the frame is not all there.
pub fn unframe(buf: &[u8]) -> (payload: Option<Vec<u8>>)
    ensures
        payload is Some <==> frame_payload(buf@) is Some,
        payload matches Some(bytes) ==> Some(bytes@) == frame_payload(buf@),
{
    if buf.len() < 4 {
        return None;
    }
    let n = u32_from_be_bytes(slice_subrange(buf, 0, 4)) as usize;
    if buf.len() - 4 < n {
        return None;
    }
    Some(slice_to_vec(slice_subrange(buf, 4, 4 + n)))
}

/// The answer to a request that reads a key: the value, if the key has
/// one, or the message of the error.
#[derive(Debug, Clone, PartialEq, Eq)]
pub enum GetResponse {
    Value(Option<String>),
    Error(String),
}

/// The answer to a request that sets a key: done, or the message of the
/// error.
#[derive(Debug, Clone, PartialEq, Eq)]
pub enum SetResponse {
    Done,
    Error(String),
}

/// The answer to a request that removes a key: done, or the message of the
/// error.
#[derive(Debug, Clone, PartialEq, Eq)]
pub enum RemoveResponse {
    Done,
    Error(String),
}

impl GetResponse {
    /// The answer that the server owes for what the engine replied: the
    /// value that was found, or the text of the engine's error.
    pub fn from_engine(reply: Result<Option<String>, KvError>) -> (answer: GetResponse)
        ensures
            reply matches Ok(found) ==> answer == GetResponse::Value(found),
            reply matches Err(e) ==> answer matches GetResponse::Error(message) && message@
                == e.spec_message(),
    {
        match reply {
            Ok(found) => GetResponse::Value(found),
            Err(e) => GetResponse::Error(e.message()),
        }
    }

    /// The answer as a response.
    pub fn into_response(self) -> (response: Response)
        ensures
            self matches GetResponse::Value(found) ==> response == Response::Get(found),
            self matches GetResponse::Error(message) ==> response == Response::Error(message),
    {
        match self {
            GetResponse::Value(found) => Response::Get(found),
            GetResponse::Error(message) => Response::Error(message),
        }
    }

    /// What the client makes of the answer: the value, or the error that
    /// carries the server's message.
    pub fn into_result(self) -> (result: Result<Option<String>, KvError>)
        ensures
            self matches GetResponse::Value(found) ==> result == Ok::<Option<String>, KvError>(
                found,
            ),
            self matches GetResponse::Error(message) ==> result == Err::<Option<String>, KvError>(
                KvError::StringError(message),
            ),
    {
        match self {
            GetResponse::Value(found) => Ok(found),
            GetResponse::Error(message) => Err(KvError::StringError(message)),
        }
    }
}

impl SetResponse {
    /// The answer that the server owes for what the engine replied: done,
    /// or the text of the engine's error.
    pub fn from_engine(reply: Result<(), KvError>) -> (answer: SetResponse)
        ensures
            reply is Ok ==> answer == SetResponse::Done,
            reply matches Err(e) ==> answer matches SetResponse::Error(message) && message@
                == e.spec_message(),
    {
        match reply {
            Ok(_) => SetResponse::Done,
            Err(e) => SetResponse::Error(e.message()),
        }
    }

    /// The answer as a response.
    pub fn into_response(self) -> (response: Response)
        ensures
            self is Done ==> response == Response::Put,
            self matches SetResponse::Error(message) ==> response == Response::Error(message),
    {
        match self {
            SetResponse::Done => Response::Put,
            SetResponse::Error(message) => Response::Error(message),
        }
    }

    /// What the client makes of the answer: success, or the error that
    /// carries the server's message.
    pub fn into_result(self) -> (result: Result<(), KvError>)
        ensures
            self is Done ==> result is Ok,
            self matches SetResponse::Error(message) ==> result == Err::<(), KvError>(
                KvError::StringError(message),
            ),
    {
        match self {
            SetResponse::Done => Ok(()),
            SetResponse::Error(message) => Err(KvError::StringError(message)),
        }
    }
}

impl RemoveResponse {
    /// The answer that the server owes for what the engine replied: done,
    /// or the text of the engine's error.
    pub fn from_engine(reply: Result<(), KvError>) -> (answer: RemoveResponse)
        ensures
            reply is Ok ==> answer == RemoveResponse::Done,
            reply matches Err(e) ==> answer matches RemoveResponse::Error(message) && message@
                == e.spec_message(),
    {
        match reply {
            Ok(_) => RemoveResponse::Done,
            Err(e) => RemoveResponse::Error(e.message()),
        }
    }

    /// The answer as a response.
    pub fn into_response(self) -> (response: Response)
        ensures
            self is Done ==> response == Response::Remove,
            self matches RemoveResponse::Error(message) ==> response == Response::Error(message),
    {
        match self {
            RemoveResponse::Done => Response::Remove,
            RemoveResponse::Error(message) => Response::Error(message),
        }
    }

    /// What the client makes of the answer: success, or the error that
    /// carries the server's message.
    pub fn into_result(self) -> (result: Result<(), KvError>)
        ensures
            self is Done ==> result is Ok,
            self matches RemoveResponse::Error(message) ==> result == Err::<(), KvError>(
                KvError::StringError(message),
            ),
    {
        match self {
            RemoveResponse::Done => Ok(()),
            RemoveResponse::Error(message) => Err(KvError::StringError(message)),
        }
    }
}

} // verus!
