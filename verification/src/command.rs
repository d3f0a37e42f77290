//! The two commands that the logs persist, and their encoding.
//!
//! A command is written as compact JSON: `{"Set":{"key":K,"value":V}}` sets
//! a key and `{"Remove":{"key":K}}` removes one, with `K` and `V` as JSON
//! strings. The encoding is self-delimiting: a decoder that stands at the
//! start of a command finds where the command ends. The decoder takes the
//! form that the encoder gives and no other.

use crate::bytes::{append_bytes, Parse, Scan};
use crate::json::{
    lemma_join, lemma_split, lemma_string_roundtrip, lemma_string_wire, lemma_string_wire_len,
    put_string, run_at, string_at, string_wire, take_run, take_string,
};
use vstd::prelude::*;
use vstd::utf8::encode_utf8;
use vstd::string::StringExecFns;

verus! {

/// A mutation of the store as the logs record it.
#[derive(Debug, Clone, PartialEq, Eq)]
pub enum Command {
    Put { key: String, value: String },
    Remove { key: String },
}

/// A command as mathematics sees it.
pub enum CommandView {
    Put { key: Seq<char>, value: Seq<char> },
    Remove { key: Seq<char> },
}

impl View for Command {
    type V = CommandView;

    open spec fn view(&self) -> CommandView {
        match self {
            Command::Put { key, value } => CommandView::Put { key: key@, value: value@ },
            Command::Remove { key } => CommandView::Remove { key: key@ },
        }
    }
}

/// The bytes `{"Set":{"key":`, which open a command that sets a key.
pub open spec fn put_head() -> Seq<u8> {
    seq![123u8, 34, 83, 101, 116, 34, 58, 123, 34, 107, 101, 121, 34, 58]
}

/// The bytes `,"value":`, which stand between the key and the value.
pub open spec fn put_mid() -> Seq<u8> {
    seq![44u8, 34, 118, 97, 108, 117, 101, 34, 58]
}

/// The bytes `{"Remove":{"key":`, which open a command that removes a key.
pub open spec fn remove_head() -> Seq<u8> {
    seq![123u8, 34, 82, 101, 109, 111, 118, 101, 34, 58, 123, 34, 107, 101, 121, 34, 58]
}

/// The bytes `}}`, which close a command.
pub open spec fn tail() -> Seq<u8> {
    seq![125u8, 125]
}

impl CommandView {
    /// The key that the command speaks of.
    pub open spec fn key(self) -> Seq<char> {
        match self {
            CommandView::Put { key, .. } => key,
            CommandView::Remove { key } => key,
        }
    }

    /// The bytes that stand for the command in a log.
    pub open spec fn wire(self) -> Seq<u8> {
        match self {
            CommandView::Put { key, value } => put_head() + string_wire(key) + put_mid()
                + string_wire(value) + tail(),
            CommandView::Remove { key } => remove_head() + string_wire(key) + tail(),
        }
    }
}

/// The command that sets `key` to `value`.
pub open spec fn put(key: Seq<char>, value: Seq<char>) -> CommandView {
    CommandView::Put { key, value }
}

/// The command that removes `key`.
pub open spec fn removal(key: Seq<char>) -> CommandView {
    CommandView::Remove { key }
}

/// The command that sets a key, where its opening bytes end at offset
/// `at`.
pub open spec fn put_at(bytes: Seq<u8>, at: int) -> Parse<CommandView> {
    match string_at(bytes, at) {
        Parse::Done(key, mid) => match run_at(bytes, mid, put_mid()) {
            Parse::Done(unit, from) => match string_at(bytes, from) {
                Parse::Done(value, close) => match run_at(bytes, close, tail()) {
                    Parse::Done(unit, end) => Parse::Done(CommandView::Put { key, value }, end),
                    Parse::Short => Parse::Short,
                    Parse::Bad => Parse::Bad,
                },
                Parse::Short => Parse::Short,
                Parse::Bad => Parse::Bad,
            },
            Parse::Short => Parse::Short,
            Parse::Bad => Parse::Bad,
        },
        Parse::Short => Parse::Short,
        Parse::Bad => Parse::Bad,
    }
}

/// The command that removes a key, where its opening bytes end at offset
/// `at`.
pub open spec fn remove_at(bytes: Seq<u8>, at: int) -> Parse<CommandView> {
    match string_at(bytes, at) {
        Parse::Done(key, close) => match run_at(bytes, close, tail()) {
            Parse::Done(unit, end) => Parse::Done(CommandView::Remove { key }, end),
            Parse::Short => Parse::Short,
            Parse::Bad => Parse::Bad,
        },
        Parse::Short => Parse::Short,
        Parse::Bad => Parse::Bad,
    }
}

/// The command that starts at offset `at` of `bytes`.
pub open spec fn command_at(bytes: Seq<u8>, at: int) -> Parse<CommandView> {
    match run_at(bytes, at, put_head()) {
        Parse::Done(unit, from) => put_at(bytes, from),
        Parse::Short => Parse::Short,
        Parse::Bad => match run_at(bytes, at, remove_head()) {
            Parse::Done(unit, from) => remove_at(bytes, from),
            Parse::Short => Parse::Short,
            Parse::Bad => Parse::Bad,
        },
    }
}

/// What a scan for a command says in terms of `Parse`.
pub open spec fn scan_command_view(scan: Scan<Command>) -> Parse<CommandView> {
    match scan {
        Scan::Done(command, end) => Parse::Done(command@, end as int),
        Scan::Short => Parse::Short,
        Scan::Bad => Parse::Bad,
    }
}

/// Bytes that hold the encoded form of a command at an offset decode to
/// that command there, and the decoder stops at its last byte.
pub proof fn lemma_command_framed(bytes: Seq<u8>, at: int, command: CommandView)
    requires
        0 <= at,
        at + command.wire().len() <= bytes.len(),
        bytes.subrange(at, at + command.wire().len()) == command.wire(),
    ensures
        command_at(bytes, at) == Parse::Done(command, (at + command.wire().len()) as int),
{
    match command {
        CommandView::Put { key, value } => {
            let k = string_wire(key);
            let v = string_wire(value);
            let rest3 = v + tail();
            let rest2 = put_mid() + rest3;
            let rest1 = k + rest2;
            assert(command.wire() =~= put_head() + rest1);
            lemma_split(bytes, at, put_head(), rest1);
            let a = at + put_head().len();
            lemma_split(bytes, a, k, rest2);
            lemma_string_roundtrip(bytes, a, key);
            let b = a + k.len();
            lemma_split(bytes, b, put_mid(), rest3);
            let c = b + put_mid().len();
            lemma_split(bytes, c, v, tail());
            lemma_string_roundtrip(bytes, c, value);
        },
        CommandView::Remove { key } => {
            let k = string_wire(key);
            let rest1 = k + tail();
            assert(command.wire() =~= remove_head() + rest1);
            lemma_split(bytes, at, remove_head(), rest1);
            assert(bytes.subrange(at, at + remove_head().len())[2] == bytes[at + 2]);
            assert(bytes[at + 2] == 82);
            assert(run_at(bytes, at, put_head()) is Bad) by {
                assert(bytes.subrange(at, at + put_head().len())[2] == bytes[at + 2]);
            }
            let a = at + remove_head().len();
            lemma_split(bytes, a, k, tail());
            lemma_string_roundtrip(bytes, a, key);
        },
    }
}

/// A command that was encoded decodes to itself, whatever stands before and
/// behind it, and the decoder stops at its last byte.
pub proof fn lemma_command_roundtrip(front: Seq<u8>, command: CommandView, back: Seq<u8>)
    ensures
        command_at(front + command.wire() + back, front.len() as int) == Parse::Done(
            command,
            (front.len() + command.wire().len()) as int,
        ),
{
    let all = front + command.wire() + back;
    assert(all.subrange(front.len() as int, (front.len() + command.wire().len()) as int)
        =~= command.wire());
    lemma_command_framed(all, front.len() as int, command);
}

/// The bytes of a command that was decoded are the encoded form of the
/// command: a command has one form only.
pub proof fn lemma_command_at_wire(bytes: Seq<u8>, at: int)
    requires
        0 <= at,
        command_at(bytes, at) is Done,
    ensures
        at < command_at(bytes, at)->Done_1 <= bytes.len(),
        bytes.subrange(at, command_at(bytes, at)->Done_1) == command_at(bytes, at)->Done_0.wire(),
{
    let command = command_at(bytes, at)->Done_0;
    let end = command_at(bytes, at)->Done_1;
    if run_at(bytes, at, put_head()) is Done {
        let a = at + put_head().len();
        lemma_string_wire(bytes, a);
        let k = string_wire(string_at(bytes, a)->Done_0);
        let b = string_at(bytes, a)->Done_1;
        let c = b + put_mid().len();
        lemma_string_wire(bytes, c);
        let v = string_wire(string_at(bytes, c)->Done_0);
        let d = string_at(bytes, c)->Done_1;
        lemma_join(bytes, c, v, tail());
        lemma_join(bytes, b, put_mid(), v + tail());
        lemma_join(bytes, a, k, put_mid() + (v + tail()));
        lemma_join(bytes, at, put_head(), k + (put_mid() + (v + tail())));
        assert(put_head() + (k + (put_mid() + (v + tail()))) =~= command.wire());
    } else {
        let a = at + remove_head().len();
        lemma_string_wire(bytes, a);
        let k = string_wire(string_at(bytes, a)->Done_0);
        let b = string_at(bytes, a)->Done_1;
        lemma_join(bytes, a, k, tail());
        lemma_join(bytes, at, remove_head(), k + tail());
        assert(remove_head() + (k + tail()) =~= command.wire());
    }
}

/// How long an encoded command is: the fixed bytes of its kind, and its
/// texts as JSON strings, each two bytes longer than its UTF-8 form at
/// least and than six times that form at most.
pub proof fn law_command_len(command: CommandView)
    ensures
        command matches CommandView::Put { key, value } ==> {
            &&& command.wire().len() == 25 + string_wire(key).len() + string_wire(value).len()
            &&& 29 + encode_utf8(key).len() + encode_utf8(value).len() <= command.wire().len()
            &&& command.wire().len() <= 29 + 6 * (encode_utf8(key).len() + encode_utf8(
                value,
            ).len())
        },
        command matches CommandView::Remove { key } ==> {
            &&& command.wire().len() == 19 + string_wire(key).len()
            &&& 21 + encode_utf8(key).len() <= command.wire().len()
            &&& command.wire().len() <= 21 + 6 * encode_utf8(key).len()
        },
{
    match command {
        CommandView::Put { key, value } => {
            lemma_string_wire_len(key);
            lemma_string_wire_len(value);
        },
        CommandView::Remove { key } => {
            lemma_string_wire_len(key);
        },
    }
}

/// At the end of the bytes no command is found, and none is missed: the
/// decoder says that the bytes are short.
pub proof fn lemma_command_at_end(bytes: Seq<u8>)
    ensures
        command_at(bytes, bytes.len() as int) is Short,
{
    let at = bytes.len() as int;
    assert(bytes.subrange(at, at) =~= put_head().take(0));
}

/// A decoded command ends behind where it starts, within the bytes.
pub proof fn lemma_command_at_advances(bytes: Seq<u8>, at: int)
    requires
        0 <= at,
        command_at(bytes, at) is Done,
    ensures
        at < command_at(bytes, at)->Done_1 <= bytes.len(),
{
    lemma_command_at_wire(bytes, at);
}

/// Decoding a command looks at the bytes of that command only: the same
/// bytes at another place of another sequence decode to the same command.
pub proof fn lemma_command_at_local(b1: Seq<u8>, at1: int, b2: Seq<u8>, at2: int)
    requires
        0 <= at1,
        0 <= at2,
        command_at(b1, at1) is Done,
        at2 + (command_at(b1, at1)->Done_1 - at1) <= b2.len(),
        b2.subrange(at2, at2 + (command_at(b1, at1)->Done_1 - at1)) == b1.subrange(
            at1,
            command_at(b1, at1)->Done_1,
        ),
    ensures
        command_at(b2, at2) == Parse::Done(
            command_at(b1, at1)->Done_0,
            at2 + (command_at(b1, at1)->Done_1 - at1),
        ),
{
    lemma_command_at_wire(b1, at1);
    lemma_command_framed(b2, at2, command_at(b1, at1)->Done_0);
}

/// The bytes `{"Set":{"key":`.
fn put_head_bytes() -> (run: Vec<u8>)
    ensures
        run@ == put_head(),
{
    let run: Vec<u8> = vec![123u8, 34, 83, 101, 116, 34, 58, 123, 34, 107, 101, 121, 34, 58];
    assert(run@ =~= put_head());
    run
}

/// The bytes `,"value":`.
fn put_mid_bytes() -> (run: Vec<u8>)
    ensures
        run@ == put_mid(),
{
    let run: Vec<u8> = vec![44u8, 34, 118, 97, 108, 117, 101, 34, 58];
    assert(run@ =~= put_mid());
    run
}

/// The bytes `{"Remove":{"key":`.
fn remove_head_bytes() -> (run: Vec<u8>)
    ensures
        run@ == remove_head(),
{
    let run: Vec<u8> = vec![
        123u8,
        34,
        82,
        101,
        109,
        111,
        118,
        101,
        34,
        58,
        123,
        34,
        107,
        101,
        121,
        34,
        58,
    ];
    assert(run@ =~= remove_head());
    run
}

/// The bytes `}}`.
fn tail_bytes() -> (run: Vec<u8>)
    ensures
        run@ == tail(),
{
    let run: Vec<u8> = vec![125u8, 125];
    assert(run@ =~= tail());
    run
}

impl Command {
    /// The command as text, for a reader of logs.
    pub open spec fn spec_text(self) -> Seq<char> {
        match self {
            Command::Put { key, value } => "Set ("@ + key@ + ", "@ + value@ + ")"@,
            Command::Remove { key } => "Remove "@ + key@,
        }
    }

    /// Renders the command as text.
    pub fn text(&self) -> (text: String)
        ensures
            text@ == self.spec_text(),
    {
        match self {
            Command::Put { key, value } => String::from_str("Set (").concat(key.as_str()).concat(
                ", ",
            ).concat(value.as_str()).concat(")"),
            Command::Remove { key } => String::from_str("Remove ").concat(key.as_str()),
        }
    }

    /// Encodes the command.
    pub fn encode(&self) -> (bytes: Vec<u8>)
        ensures
            bytes@ == self@.wire(),
    {
        let mut buf: Vec<u8> = Vec::new();
        match self {
            Command::Put { key, value } => {
                append_bytes(&mut buf, put_head_bytes().as_slice());
                put_string(&mut buf, key);
                append_bytes(&mut buf, put_mid_bytes().as_slice());
                put_string(&mut buf, value);
                append_bytes(&mut buf, tail_bytes().as_slice());
                assert(buf@ =~= self@.wire());
            },
            Command::Remove { key } => {
                append_bytes(&mut buf, remove_head_bytes().as_slice());
                put_string(&mut buf, key);
                append_bytes(&mut buf, tail_bytes().as_slice());
                assert(buf@ =~= self@.wire());
            },
        }
        buf
    }

    /// Decodes the command that sets a key, behind its opening bytes.
    fn decode_put(buf: &[u8], at: usize) -> (scan: Scan<Command>)
        requires
            at <= buf@.len(),
        ensures
            scan_command_view(scan) == put_at(buf@, at as int),
    {
        let (key, mid) = match take_string(buf, at) {
            Scan::Done(key, mid) => (key, mid),
            Scan::Short => {
                return Scan::Short;
            },
            Scan::Bad => {
                return Scan::Bad;
            },
        };
        proof {
            lemma_string_wire(buf@, at as int);
        }
        let from = match take_run(buf, mid, put_mid_bytes().as_slice()) {
            Scan::Done(unit, from) => from,
            Scan::Short => {
                return Scan::Short;
            },
            Scan::Bad => {
                return Scan::Bad;
            },
        };
        let (value, close) = match take_string(buf, from) {
            Scan::Done(value, close) => (value, close),
            Scan::Short => {
                return Scan::Short;
            },
            Scan::Bad => {
                return Scan::Bad;
            },
        };
        proof {
            lemma_string_wire(buf@, from as int);
        }
        match take_run(buf, close, tail_bytes().as_slice()) {
            Scan::Done(unit, end) => Scan::Done(Command::Put { key, value }, end),
            Scan::Short => Scan::Short,
            Scan::Bad => Scan::Bad,
        }
    }

    /// Decodes the command that removes a key, behind its opening bytes.
    fn decode_remove(buf: &[u8], at: usize) -> (scan: Scan<Command>)
        requires
            at <= buf@.len(),
        ensures
            scan_command_view(scan) == remove_at(buf@, at as int),
    {
        let (key, close) = match take_string(buf, at) {
            Scan::Done(key, close) => (key, close),
            Scan::Short => {
                return Scan::Short;
            },
            Scan::Bad => {
                return Scan::Bad;
            },
        };
        proof {
            lemma_string_wire(buf@, at as int);
        }
        match take_run(buf, close, tail_bytes().as_slice()) {
            Scan::Done(unit, end) => Scan::Done(Command::Remove { key }, end),
            Scan::Short => Scan::Short,
            Scan::Bad => Scan::Bad,
        }
    }

    /// Decodes the command that starts at offset `at` of `buf` and reports
    /// the offset behind it. A command that the bytes end in is short;
    /// bytes that cannot start a command are bad.
    pub fn decode(buf: &[u8], at: usize) -> (scan: Scan<Command>)
        requires
            at <= buf@.len(),
        ensures
            scan_command_view(scan) == command_at(buf@, at as int),
    {
        match take_run(buf, at, put_head_bytes().as_slice()) {
            Scan::Done(unit, from) => Self::decode_put(buf, from),
            Scan::Short => Scan::Short,
            Scan::Bad => match take_run(buf, at, remove_head_bytes().as_slice()) {
                Scan::Done(unit, from) => Self::decode_remove(buf, from),
                Scan::Short => Scan::Short,
                Scan::Bad => Scan::Bad,
            },
        }
    }
}

} // verus!
