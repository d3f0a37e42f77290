//! JSON strings and fixed runs of bytes, as the logs hold them: the compact
//! form that a JSON writer gives, and a reader that takes that form and no
//! other.

use crate::bytes::{scan_text_view, string_from_utf8, Parse, Scan};
use vstd::prelude::*;
use vstd::utf8::*;

verus! {

/// The byte `"`, which opens and closes a string.
pub const QUOTE: u8 = 34;

/// The byte `\`, which opens an escape.
pub const BACKSLASH: u8 = 92;

/// The lower-case hexadecimal digit for `d`, for `d` below sixteen.
pub open spec fn hex_digit(d: u8) -> u8 {
    if d < 10 {
        (48 + d) as u8
    } else {
        (87 + d) as u8
    }
}

/// Whether a byte below 32 is written with a letter of its own behind the
/// backslash, and not as `\u00..`.
pub open spec fn has_short_escape(b: u8) -> bool {
    b == 8 || b == 9 || b == 10 || b == 12 || b == 13
}

/// The bytes that stand for the byte `b` inside a string: `\"` and `\\` for
/// quote and backslash, `\b`, `\t`, `\n`, `\f`, `\r` for those control
/// bytes, `\u00` and two hexadecimal digits for the other bytes below 32,
/// and the byte itself for every other byte.
pub open spec fn escape_byte(b: u8) -> Seq<u8> {
    if b == QUOTE {
        seq![BACKSLASH, QUOTE]
    } else if b == BACKSLASH {
        seq![BACKSLASH, BACKSLASH]
    } else if b == 8 {
        seq![BACKSLASH, 98u8]
    } else if b == 9 {
        seq![BACKSLASH, 116u8]
    } else if b == 10 {
        seq![BACKSLASH, 110u8]
    } else if b == 12 {
        seq![BACKSLASH, 102u8]
    } else if b == 13 {
        seq![BACKSLASH, 114u8]
    } else if b < 32 {
        seq![BACKSLASH, 117u8, 48u8, 48u8, hex_digit(b / 16), hex_digit(b % 16)]
    } else {
        seq![b]
    }
}

/// The bytes that stand for `raw` inside a string.
pub open spec fn escape(raw: Seq<u8>) -> Seq<u8>
    decreases raw.len(),
{
    if raw.len() == 0 {
        Seq::empty()
    } else {
        escape_byte(raw[0]) + escape(raw.subrange(1, raw.len() as int))
    }
}

/// A text as a JSON string: its UTF-8 form with the escapes, between quotes.
pub open spec fn string_wire(text: Seq<char>) -> Seq<u8> {
    seq![QUOTE] + escape(encode_utf8(text)) + seq![QUOTE]
}

/// A parse result with `front` put before the bytes that were read.
pub open spec fn extend(front: Seq<u8>, rest: Parse<Seq<u8>>) -> Parse<Seq<u8>> {
    match rest {
        Parse::Done(raw, end) => Parse::Done(front + raw, end),
        Parse::Short => Parse::Short,
        Parse::Bad => Parse::Bad,
    }
}

/// The byte that the bytes at offset `at`, inside a string, stand for, and
/// the offset behind them. Only the form that `escape_byte` gives is taken.
pub open spec fn escaped_at(bytes: Seq<u8>, at: int) -> Parse<u8> {
    if bytes.len() <= at {
        Parse::Short
    } else if bytes[at] == BACKSLASH {
        if bytes.len() <= at + 1 {
            Parse::Short
        } else if bytes[at + 1] == QUOTE {
            Parse::Done(QUOTE, at + 2)
        } else if bytes[at + 1] == BACKSLASH {
            Parse::Done(BACKSLASH, at + 2)
        } else if bytes[at + 1] == 98 {
            Parse::Done(8u8, at + 2)
        } else if bytes[at + 1] == 116 {
            Parse::Done(9u8, at + 2)
        } else if bytes[at + 1] == 110 {
            Parse::Done(10u8, at + 2)
        } else if bytes[at + 1] == 102 {
            Parse::Done(12u8, at + 2)
        } else if bytes[at + 1] == 114 {
            Parse::Done(13u8, at + 2)
        } else if bytes[at + 1] == 117 {
            if bytes.len() < at + 6 {
                Parse::Short
            } else if bytes[at + 2] == 48 && bytes[at + 3] == 48 && hex_pair_ok(
                bytes[at + 4],
                bytes[at + 5],
            ) {
                Parse::Done(hex_pair_value(bytes[at + 4], bytes[at + 5]), at + 6)
            } else {
                Parse::Bad
            }
        } else {
            Parse::Bad
        }
    } else if bytes[at] < 32 || bytes[at] == QUOTE {
        Parse::Bad
    } else {
        Parse::Done(bytes[at], at + 1)
    }
}

/// Whether two hexadecimal digits name a byte below 32 that has no short
/// escape: the first is `0` or `1`, the second a digit or a lower-case
/// letter up to `f`.
pub open spec fn hex_pair_ok(high: u8, low: u8) -> bool {
    &&& high == 48 || high == 49
    &&& 48 <= low <= 57 || 97 <= low <= 102
    &&& !has_short_escape(hex_pair_value(high, low))
}

/// The byte that two hexadecimal digits name.
pub open spec fn hex_pair_value(high: u8, low: u8) -> u8 {
    ((high - 48) * 16 + if low <= 57 {
        low - 48
    } else {
        low - 87
    }) as u8
}

/// The bytes that the inside of a string stands for, read from offset `at`
/// up to the closing quote, and the offset behind that quote.
pub open spec fn body_at(bytes: Seq<u8>, at: int) -> Parse<Seq<u8>>
    decreases bytes.len() - at,
{
    if bytes.len() <= at {
        Parse::Short
    } else if bytes[at] == QUOTE {
        Parse::Done(Seq::empty(), at + 1)
    } else {
        match escaped_at(bytes, at) {
            Parse::Done(b, next) => if at < next {
                extend(seq![b], body_at(bytes, next))
            } else {
                Parse::Bad
            },
            Parse::Short => Parse::Short,
            Parse::Bad => Parse::Bad,
        }
    }
}

/// The text of the JSON string that starts at offset `at` of `bytes`.
pub open spec fn string_at(bytes: Seq<u8>, at: int) -> Parse<Seq<char>> {
    if bytes.len() <= at {
        Parse::Short
    } else if bytes[at] != QUOTE {
        Parse::Bad
    } else {
        match body_at(bytes, at + 1) {
            Parse::Done(raw, end) => if valid_utf8(raw) {
                Parse::Done(decode_utf8(raw), end)
            } else {
                Parse::Bad
            },
            Parse::Short => Parse::Short,
            Parse::Bad => Parse::Bad,
        }
    }
}

/// Whether the fixed bytes `run` stand at offset `at` of `bytes`. Bytes that
/// end inside the run, and agree with it so far, are short.
pub open spec fn run_at(bytes: Seq<u8>, at: int, run: Seq<u8>) -> Parse<()> {
    if at + run.len() <= bytes.len() {
        if bytes.subrange(at, at + run.len()) == run {
            Parse::Done((), at + run.len())
        } else {
            Parse::Bad
        }
    } else if bytes.subrange(at, bytes.len() as int) == run.take(bytes.len() - at) {
        Parse::Short
    } else {
        Parse::Bad
    }
}

/// Where `s` holds `x + y` from offset `at`, it holds `x` there and `y`
/// behind it.
pub proof fn lemma_split(s: Seq<u8>, at: int, x: Seq<u8>, y: Seq<u8>)
    requires
        0 <= at,
        at + x.len() + y.len() <= s.len(),
        s.subrange(at, at + x.len() + y.len()) == x + y,
    ensures
        s.subrange(at, at + x.len()) == x,
        s.subrange(at + x.len(), at + x.len() + y.len()) == y,
{
    let w = s.subrange(at, at + x.len() + y.len());
    assert(s.subrange(at, at + x.len()) =~= w.subrange(0, x.len() as int));
    assert(w.subrange(0, x.len() as int) =~= x);
    assert(s.subrange(at + x.len(), at + x.len() + y.len()) =~= w.subrange(
        x.len() as int,
        (x.len() + y.len()) as int,
    ));
    assert(w.subrange(x.len() as int, (x.len() + y.len()) as int) =~= y);
}

/// Where `s` holds `x` from offset `at` and `y` behind it, it holds `x + y`
/// there.
pub proof fn lemma_join(s: Seq<u8>, at: int, x: Seq<u8>, y: Seq<u8>)
    requires
        0 <= at,
        at + x.len() + y.len() <= s.len(),
        s.subrange(at, at + x.len()) == x,
        s.subrange(at + x.len(), at + x.len() + y.len()) == y,
    ensures
        s.subrange(at, at + x.len() + y.len()) == x + y,
{
    let w = s.subrange(at, at + x.len() + y.len());
    assert forall|i: int| 0 <= i < w.len() implies w[i] == (x + y)[i] by {
        if i < x.len() {
            assert(s.subrange(at, at + x.len())[i] == x[i]);
        } else {
            assert(s.subrange(at + x.len(), at + x.len() + y.len())[i - x.len()] == y[i
                - x.len()]);
        }
    }
    assert(w =~= x + y);
}

/// The bytes that `escape_byte` gives for a byte are read back as that byte.
pub proof fn lemma_escaped_roundtrip(bytes: Seq<u8>, at: int, b: u8)
    requires
        0 <= at,
        at + escape_byte(b).len() <= bytes.len(),
        bytes.subrange(at, at + escape_byte(b).len()) == escape_byte(b),
    ensures
        bytes[at] != QUOTE,
        escaped_at(bytes, at) == Parse::Done(b, (at + escape_byte(b).len()) as int),
{
    let e = escape_byte(b);
    let w = bytes.subrange(at, at + e.len());
    assert(w[0] == bytes[at]);
    if e.len() >= 2 {
        assert(w[1] == bytes[at + 1]);
    }
    if e.len() == 6 {
        assert(w[2] == bytes[at + 2]);
        assert(w[3] == bytes[at + 3]);
        assert(w[4] == bytes[at + 4]);
        assert(w[5] == bytes[at + 5]);
        assert(hex_pair_value(hex_digit(b / 16), hex_digit(b % 16)) == b);
    }
}

/// The bytes that were read as one byte of a string are what `escape_byte`
/// gives for that byte.
pub proof fn lemma_escaped_wire(bytes: Seq<u8>, at: int)
    requires
        0 <= at,
        escaped_at(bytes, at) is Done,
    ensures
        at < escaped_at(bytes, at)->Done_1 <= bytes.len(),
        bytes.subrange(at, escaped_at(bytes, at)->Done_1) == escape_byte(
            escaped_at(bytes, at)->Done_0,
        ),
{
    let b = escaped_at(bytes, at)->Done_0;
    let end = escaped_at(bytes, at)->Done_1;
    assert(bytes.subrange(at, end) =~= escape_byte(b));
}

/// The inside of a string that was written is read back as the bytes that
/// it was written for.
pub proof fn lemma_body_roundtrip(bytes: Seq<u8>, at: int, raw: Seq<u8>)
    requires
        0 <= at,
        at + escape(raw).len() + 1 <= bytes.len(),
        bytes.subrange(at, at + escape(raw).len()) == escape(raw),
        bytes[at + escape(raw).len()] == QUOTE,
    ensures
        body_at(bytes, at) == Parse::Done(raw, at + escape(raw).len() + 1),
    decreases raw.len(),
{
    if raw.len() == 0 {
        assert(body_at(bytes, at) == Parse::Done(Seq::<u8>::empty(), at + 1));
        assert(raw =~= Seq::<u8>::empty());
    } else {
        let e = escape_byte(raw[0]);
        let rest = raw.subrange(1, raw.len() as int);
        lemma_split(bytes, at, e, escape(rest));
        lemma_escaped_roundtrip(bytes, at, raw[0]);
        lemma_body_roundtrip(bytes, at + e.len(), rest);
        assert(seq![raw[0]] + rest =~= raw);
    }
}

/// The bytes that were read as the inside of a string are its escaped
/// form and the closing quote: a string has one form only.
pub proof fn lemma_body_wire(bytes: Seq<u8>, at: int)
    requires
        0 <= at,
        body_at(bytes, at) is Done,
    ensures
        at < body_at(bytes, at)->Done_1 <= bytes.len(),
        bytes.subrange(at, body_at(bytes, at)->Done_1) == escape(body_at(bytes, at)->Done_0)
            + seq![QUOTE],
    decreases bytes.len() - at,
{
    let raw = body_at(bytes, at)->Done_0;
    let end = body_at(bytes, at)->Done_1;
    if bytes[at] == QUOTE {
        assert(escape(raw) =~= Seq::<u8>::empty());
        assert(bytes.subrange(at, end) =~= escape(raw) + seq![QUOTE]);
    } else {
        let b = escaped_at(bytes, at)->Done_0;
        let next = escaped_at(bytes, at)->Done_1;
        lemma_escaped_wire(bytes, at);
        lemma_body_wire(bytes, next);
        let rest = body_at(bytes, next)->Done_0;
        assert(raw == seq![b] + rest);
        assert(raw.subrange(1, raw.len() as int) =~= rest);
        assert(escape(raw) == escape_byte(b) + escape(rest));
        lemma_join(bytes, at, escape_byte(b), escape(rest) + seq![QUOTE]);
        assert(escape_byte(b) + (escape(rest) + seq![QUOTE]) =~= escape(raw) + seq![QUOTE]);
    }
}

/// A string that was written is read back as its text.
pub proof fn lemma_string_roundtrip(bytes: Seq<u8>, at: int, text: Seq<char>)
    requires
        0 <= at,
        at + string_wire(text).len() <= bytes.len(),
        bytes.subrange(at, at + string_wire(text).len()) == string_wire(text),
    ensures
        string_at(bytes, at) == Parse::Done(text, (at + string_wire(text).len()) as int),
{
    let raw = encode_utf8(text);
    let inner = escape(raw) + seq![QUOTE];
    assert(string_wire(text) =~= seq![QUOTE] + inner);
    lemma_split(bytes, at, seq![QUOTE], inner);
    assert(bytes.subrange(at, at + 1)[0] == bytes[at]);
    lemma_split(bytes, at + 1, escape(raw), seq![QUOTE]);
    assert(bytes.subrange(at + 1 + escape(raw).len(), at + 1 + escape(raw).len() + 1)[0]
        == bytes[at + 1 + escape(raw).len()]);
    lemma_body_roundtrip(bytes, at + 1, raw);
    encode_utf8_valid_utf8(text);
    encode_utf8_decode_utf8(text);
}

/// The bytes that were read as a string are the string's one form.
pub proof fn lemma_string_wire(bytes: Seq<u8>, at: int)
    requires
        0 <= at,
        string_at(bytes, at) is Done,
    ensures
        at < string_at(bytes, at)->Done_1 <= bytes.len(),
        bytes.subrange(at, string_at(bytes, at)->Done_1) == string_wire(
            string_at(bytes, at)->Done_0,
        ),
{
    let raw = body_at(bytes, at + 1)->Done_0;
    let end = body_at(bytes, at + 1)->Done_1;
    lemma_body_wire(bytes, at + 1);
    decode_utf8_encode_utf8(raw);
    assert(bytes.subrange(at, at + 1) =~= seq![QUOTE]);
    lemma_join(bytes, at, seq![QUOTE], escape(raw) + seq![QUOTE]);
    assert(seq![QUOTE] + (escape(raw) + seq![QUOTE]) =~= string_wire(decode_utf8(raw)));
}

/// The escaped form of some bytes is as long as the bytes at least, and six
/// times as long at most.
pub proof fn lemma_escape_len(raw: Seq<u8>)
    ensures
        raw.len() <= escape(raw).len() <= 6 * raw.len(),
    decreases raw.len(),
{
    if raw.len() > 0 {
        lemma_escape_len(raw.subrange(1, raw.len() as int));
    }
}

/// A text as a JSON string is two bytes longer than its UTF-8 form at
/// least, and two bytes longer than six times that form at most.
pub proof fn lemma_string_wire_len(text: Seq<char>)
    ensures
        encode_utf8(text).len() + 2 <= string_wire(text).len() <= 6 * encode_utf8(text).len() + 2,
{
    lemma_escape_len(encode_utf8(text));
}

/// What a scan for one byte says in terms of `Parse`.
pub open spec fn scan_byte_view(scan: Scan<u8>) -> Parse<u8> {
    match scan {
        Scan::Done(b, end) => Parse::Done(b, end as int),
        Scan::Short => Parse::Short,
        Scan::Bad => Parse::Bad,
    }
}

/// What a scan for a run of fixed bytes says in terms of `Parse`.
pub open spec fn scan_run_view(scan: Scan<()>) -> Parse<()> {
    match scan {
        Scan::Done(unit, end) => Parse::Done((), end as int),
        Scan::Short => Parse::Short,
        Scan::Bad => Parse::Bad,
    }
}

/// The lower-case hexadecimal digit for `d`.
fn hex_digit_of(d: u8) -> (digit: u8)
    requires
        d < 16,
    ensures
        digit == hex_digit(d),
{
    if d < 10 {
        48 + d
    } else {
        87 + d
    }
}

/// Appends to `out` the bytes that stand for the byte `b` inside a string.
pub fn push_escaped(out: &mut Vec<u8>, b: u8)
    ensures
        final(out)@ == old(out)@ + escape_byte(b),
{
    if b == QUOTE {
        out.push(BACKSLASH);
        out.push(QUOTE);
    } else if b == BACKSLASH {
        out.push(BACKSLASH);
        out.push(BACKSLASH);
    } else if b == 8 {
        out.push(BACKSLASH);
        out.push(98);
    } else if b == 9 {
        out.push(BACKSLASH);
        out.push(116);
    } else if b == 10 {
        out.push(BACKSLASH);
        out.push(110);
    } else if b == 12 {
        out.push(BACKSLASH);
        out.push(102);
    } else if b == 13 {
        out.push(BACKSLASH);
        out.push(114);
    } else if b < 32 {
        out.push(BACKSLASH);
        out.push(117);
        out.push(48);
        out.push(48);
        out.push(hex_digit_of(b / 16));
        out.push(hex_digit_of(b % 16));
    } else {
        out.push(b);
    }
    assert(out@ =~= old(out)@ + escape_byte(b));
}

/// Appends `text` to `out` as a JSON string.
pub fn put_string(out: &mut Vec<u8>, text: &String)
    ensures
        final(out)@ == old(out)@ + string_wire(text@),
{
    let raw = text.as_str().as_bytes();
    out.push(QUOTE);
    assert(raw@.subrange(0, raw@.len() as int) =~= raw@);
    let mut i: usize = 0;
    while i < raw.len()
        invariant
            i <= raw@.len(),
            raw@ == encode_utf8(text@),
            out@ + escape(raw@.subrange(i as int, raw@.len() as int)) == old(out)@ + seq![QUOTE]
                + escape(raw@),
        decreases raw@.len() - i,
    {
        let ghost left = raw@.subrange(i as int, raw@.len() as int);
        let ghost before = out@;
        push_escaped(out, raw[i]);
        proof {
            assert(left.subrange(1, left.len() as int) =~= raw@.subrange(
                i + 1,
                raw@.len() as int,
            ));
            assert(before + escape(left) =~= out@ + escape(
                raw@.subrange(i + 1, raw@.len() as int),
            ));
        }
        i = i + 1;
    }
    proof {
        assert(raw@.subrange(raw@.len() as int, raw@.len() as int) =~= Seq::<u8>::empty());
        assert(out@ + Seq::<u8>::empty() =~= out@);
    }
    out.push(QUOTE);
    assert(out@ =~= old(out)@ + string_wire(text@));
}

/// Reads the byte that the bytes at offset `at`, inside a string, stand
/// for.
pub fn take_escaped(buf: &[u8], at: usize) -> (scan: Scan<u8>)
    requires
        at <= buf@.len(),
    ensures
        scan_byte_view(scan) == escaped_at(buf@, at as int),
{
    if buf.len() <= at {
        return Scan::Short;
    }
    let b = buf[at];
    if b == BACKSLASH {
        if buf.len() - at < 2 {
            return Scan::Short;
        }
        let e = buf[at + 1];
        if e == QUOTE {
            Scan::Done(QUOTE, at + 2)
        } else if e == BACKSLASH {
            Scan::Done(BACKSLASH, at + 2)
        } else if e == 98 {
            Scan::Done(8, at + 2)
        } else if e == 116 {
            Scan::Done(9, at + 2)
        } else if e == 110 {
            Scan::Done(10, at + 2)
        } else if e == 102 {
            Scan::Done(12, at + 2)
        } else if e == 114 {
            Scan::Done(13, at + 2)
        } else if e == 117 {
            if buf.len() - at < 6 {
                return Scan::Short;
            }
            let high = buf[at + 4];
            let low = buf[at + 5];
            if buf[at + 2] != 48 || buf[at + 3] != 48 {
                return Scan::Bad;
            }
            if high != 48 && high != 49 {
                return Scan::Bad;
            }
            if !((48 <= low && low <= 57) || (97 <= low && low <= 102)) {
                return Scan::Bad;
            }
            let units: u8 = if low <= 57 {
                low - 48
            } else {
                low - 87
            };
            let value: u8 = (high - 48) * 16 + units;
            if value == 8 || value == 9 || value == 10 || value == 12 || value == 13 {
                return Scan::Bad;
            }
            Scan::Done(value, at + 6)
        } else {
            Scan::Bad
        }
    } else if b < 32 || b == QUOTE {
        Scan::Bad
    } else {
        Scan::Done(b, at + 1)
    }
}

/// Reads the JSON string that starts at offset `at` of `buf`.
pub fn take_string(buf: &[u8], at: usize) -> (scan: Scan<String>)
    requires
        at <= buf@.len(),
    ensures
        scan_text_view(scan) == string_at(buf@, at as int),
{
    if buf.len() <= at {
        return Scan::Short;
    }
    if buf[at] != QUOTE {
        return Scan::Bad;
    }
    let mut raw: Vec<u8> = Vec::new();
    let mut i: usize = at + 1;
    assert(raw@ + body_at(buf@, at + 1)->Done_0 =~= body_at(buf@, at + 1)->Done_0);
    loop
        invariant
            at < i <= buf@.len(),
            buf@[at as int] == QUOTE,
            body_at(buf@, at + 1) == extend(raw@, body_at(buf@, i as int)),
        decreases buf@.len() - i,
    {
        if buf.len() <= i {
            return Scan::Short;
        }
        if buf[i] == QUOTE {
            assert(raw@ + Seq::<u8>::empty() =~= raw@);
            return match string_from_utf8(raw) {
                Some(text) => Scan::Done(text, i + 1),
                None => Scan::Bad,
            };
        }
        match take_escaped(buf, i) {
            Scan::Done(b, next) => {
                proof {
                    lemma_escaped_wire(buf@, i as int);
                    let rest = body_at(buf@, next as int);
                    assert(extend(raw@, extend(seq![b], rest)) == extend(raw@.push(b), rest)) by {
                        if rest is Done {
                            assert(raw@ + (seq![b] + rest->Done_0) =~= raw@.push(b)
                                + rest->Done_0);
                        }
                    }
                }
                raw.push(b);
                i = next;
            },
            Scan::Short => {
                return Scan::Short;
            },
            Scan::Bad => {
                return Scan::Bad;
            },
        }
    }
}

/// Tells whether the fixed bytes `run` stand at offset `at` of `buf`.
pub fn take_run(buf: &[u8], at: usize, run: &[u8]) -> (scan: Scan<()>)
    requires
        at <= buf@.len(),
    ensures
        scan_run_view(scan) == run_at(buf@, at as int, run@),
{
    let left = buf.len() - at;
    let mut i: usize = 0;
    while i < run.len() && i < left
        invariant
            at <= buf@.len() <= usize::MAX,
            left == buf@.len() - at,
            i <= run@.len(),
            i <= left,
            forall|j: int| 0 <= j < i ==> buf@[at + j] == run@[j],
        decreases run@.len() - i,
    {
        if buf[at + i] != run[i] {
            proof {
                if at + run@.len() <= buf@.len() {
                    assert(buf@.subrange(at as int, at + run@.len())[i as int] != run@[i as int]);
                } else {
                    assert(buf@.subrange(at as int, buf@.len() as int)[i as int] != run@.take(
                        buf@.len() - at,
                    )[i as int]);
                }
            }
            return Scan::Bad;
        }
        i = i + 1;
    }
    if i == run.len() {
        assert(buf@.subrange(at as int, at + run@.len()) =~= run@);
        Scan::Done((), at + i)
    } else {
        assert(buf@.subrange(at as int, buf@.len() as int) =~= run@.take(buf@.len() - at));
        Scan::Short
    }
}

} // verus!
