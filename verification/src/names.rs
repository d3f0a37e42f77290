//! The names of log files: a generation written in base ten, with nothing
//! before or behind it.

use vstd::prelude::*;
use vstd::seq_lib::{to_multiset_build, to_multiset_insert};
use vstd::string::{StringExecFns, StrSliceExecFns};

verus! {

/// Whether `c` is one of the ten digits.
pub open spec fn is_digit(c: char) -> bool {
    '0' <= c <= '9'
}

/// The digit that stands for `d`, for `d` below ten.
pub open spec fn digit_char(d: nat) -> char {
    if d == 0 {
        '0'
    } else if d == 1 {
        '1'
    } else if d == 2 {
        '2'
    } else if d == 3 {
        '3'
    } else if d == 4 {
        '4'
    } else if d == 5 {
        '5'
    } else if d == 6 {
        '6'
    } else if d == 7 {
        '7'
    } else if d == 8 {
        '8'
    } else {
        '9'
    }
}

/// The number that a digit stands for.
pub open spec fn digit_value(c: char) -> nat {
    (c as u32 - '0' as u32) as nat
}

/// Whether `s` holds digits only.
pub open spec fn all_digits(s: Seq<char>) -> bool {
    forall|i: int| 0 <= i < s.len() ==> is_digit(#[trigger] s[i])
}

/// The number that a run of digits stands for in base ten.
pub open spec fn digits_value(s: Seq<char>) -> nat
    decreases s.len(),
{
    if s.len() == 0 {
        0
    } else {
        digits_value(s.drop_last()) * 10 + digit_value(s.last())
    }
}

/// A number written in base ten, without leading zeros.
pub open spec fn decimal(n: nat) -> Seq<char>
    decreases n,
{
    if n < 10 {
        seq![digit_char(n)]
    } else {
        decimal(n / 10).push(digit_char(n % 10))
    }
}

/// The generation that a file name stands for: the name is an optional `+`
/// and then one digit or more, which together stay within `u64`.
pub open spec fn parse_gen(name: Seq<char>) -> Option<u64> {
    let digits = if name.len() > 0 && name[0] == '+' {
        name.subrange(1, name.len() as int)
    } else {
        name
    };
    if digits.len() > 0 && all_digits(digits) && digits_value(digits) <= u64::MAX {
        Some(digits_value(digits) as u64)
    } else {
        None
    }
}

/// A generation that is written as a name is read back from that name.
pub proof fn law_generation_name_round_trip(n: u64)
    ensures
        parse_gen(decimal(n as nat)) == Some(n),
{
    lemma_decimal_value(n as nat);
}

/// The base-ten form of a number holds digits only, starts with no sign, and
/// has the number as its value.
pub proof fn lemma_decimal_value(n: nat)
    ensures
        decimal(n).len() > 0,
        all_digits(decimal(n)),
        digits_value(decimal(n)) == n,
        decimal(n)[0] != '+',
    decreases n,
{
    if n < 10 {
        let s = decimal(n);
        assert(s.drop_last() =~= Seq::<char>::empty());
        assert(digits_value(s.drop_last()) == 0);
        assert(digit_value(digit_char(n)) == n);
    } else {
        lemma_decimal_value(n / 10);
        let s = decimal(n);
        assert(s.drop_last() =~= decimal(n / 10));
        assert(digit_value(digit_char(n % 10)) == n % 10);
        assert(s[0] == decimal(n / 10)[0]);
    }
}

/// A run of digits is worth at least as much as any of its beginnings.
pub proof fn lemma_digits_value_grows(s: Seq<char>, i: int)
    requires
        0 <= i <= s.len(),
    ensures
        digits_value(s.take(i)) <= digits_value(s),
    decreases s.len(),
{
    if i == s.len() {
        assert(s.take(i) =~= s);
    } else {
        lemma_digits_value_grows(s.drop_last(), i);
        assert(s.drop_last().take(i) =~= s.take(i));
    }
}

/// The text of one digit.
fn digit_text(d: u64) -> (text: &'static str)
    requires
        d < 10,
    ensures
        text@ == seq![digit_char(d as nat)],
{
    proof {
        reveal_strlit("0");
        reveal_strlit("1");
        reveal_strlit("2");
        reveal_strlit("3");
        reveal_strlit("4");
        reveal_strlit("5");
        reveal_strlit("6");
        reveal_strlit("7");
        reveal_strlit("8");
        reveal_strlit("9");
    }
    let text = if d == 0 {
        "0"
    } else if d == 1 {
        "1"
    } else if d == 2 {
        "2"
    } else if d == 3 {
        "3"
    } else if d == 4 {
        "4"
    } else if d == 5 {
        "5"
    } else if d == 6 {
        "6"
    } else if d == 7 {
        "7"
    } else if d == 8 {
        "8"
    } else {
        "9"
    };
    assert(text@ =~= seq![digit_char(d as nat)]);
    text
}

/// Writes `n` in base ten.
pub fn decimal_text(n: u64) -> (text: String)
    ensures
        text@ == decimal(n as nat),
    decreases n,
{
    if n < 10 {
        String::from_str(digit_text(n))
    } else {
        let text = decimal_text(n / 10).concat(digit_text(n % 10));
        assert(text@ =~= decimal(n as nat));
        text
    }
}

/// Reads a file name as a generation.
pub fn parse_gen_name(name: &str) -> (gen: Option<u64>)
    ensures
        gen == parse_gen(name@),
{
    let len = name.unicode_len();
    let start: usize = if len > 0 && name.get_char(0) == '+' {
        1
    } else {
        0
    };
    let ghost digits = name@.subrange(start as int, len as int);
    proof {
        if start == 0 {
            assert(digits =~= name@);
        }
    }
    if start == len {
        return None;
    }
    let mut value: u64 = 0;
    let mut i: usize = start;
    while i < len
        invariant
            start <= i <= len,
            len == name@.len(),
            digits == name@.subrange(start as int, len as int),
            digits.len() > 0,
            parse_gen(name@) == if all_digits(digits) && digits_value(digits) <= u64::MAX {
                Some(digits_value(digits) as u64)
            } else {
                None
            },
            all_digits(digits.take(i - start)),
            value == digits_value(digits.take(i - start)),
        decreases len - i,
    {
        let c = name.get_char(i);
        let ghost before = digits.take(i - start);
        let ghost after = digits.take(i - start + 1);
        proof {
            assert(c == digits[i - start]);
            assert(after.drop_last() =~= before);
            assert(after.last() == c);
            lemma_digits_value_grows(digits, i - start + 1);
            assert(digits_value(after) == digits_value(before) * 10 + digit_value(c));
        }
        if !('0' <= c && c <= '9') {
            assert(!is_digit(digits[i - start]));
            return None;
        }
        let d = (c as u32 - '0' as u32) as u64;
        if value > (u64::MAX - d) / 10 {
            return None;
        }
        value = value * 10 + d;
        i = i + 1;
        assert forall|j: int| 0 <= j < after.len() implies is_digit(#[trigger] after[j]) by {
            if j < before.len() {
                assert(before[j] == after[j]);
            }
        }
    }
    assert(digits.take(len - start) =~= digits);
    Some(value)
}

/// The path of the log file of generation `gen` in directory `dir`.
pub open spec fn spec_log_path(dir: Seq<char>, gen: u64) -> Seq<char> {
    if dir.len() == 0 || dir.last() == '/' {
        dir + decimal(gen as nat)
    } else {
        dir + seq!['/'] + decimal(gen as nat)
    }
}

/// Names the log file of generation `gen` in directory `dir`: the directory,
/// a separator where the directory's name does not end in one, and the
/// generation in base ten.
pub fn log_path(dir: &str, gen: u64) -> (path: String)
    ensures
        path@ == spec_log_path(dir@, gen),
{
    proof {
        reveal_strlit("/");
    }
    let name = decimal_text(gen);
    let len = dir.unicode_len();
    if len == 0 || dir.get_char(len - 1) == '/' {
        String::from_str(dir).concat(name.as_str())
    } else {
        let path = String::from_str(dir).concat("/").concat(name.as_str());
        assert(path@ =~= spec_log_path(dir@, gen));
        path
    }
}

/// The generations that a list of file names stands for, in the order of the
/// names; a name that is no generation is passed over.
pub open spec fn parsed_gens(names: Seq<String>) -> Seq<u64>
    decreases names.len(),
{
    if names.len() == 0 {
        Seq::empty()
    } else {
        match parse_gen(names.last()@) {
            Some(gen) => parsed_gens(names.drop_last()).push(gen),
            None => parsed_gens(names.drop_last()),
        }
    }
}

/// Whether a list of generations never descends.
pub open spec fn sorted(gens: Seq<u64>) -> bool {
    forall|i: int, j: int| 0 <= i <= j < gens.len() ==> gens[i] <= gens[j]
}

/// Lists the generations among the names of a directory's files, in
/// ascending order. Names that are no generation are ignored.
pub fn sorted_gen_list(names: &Vec<String>) -> (gens: Vec<u64>)
    ensures
        sorted(gens@),
        gens@.to_multiset() == parsed_gens(names@).to_multiset(),
{
    let mut gens: Vec<u64> = Vec::new();
    let mut n: usize = 0;
    while n < names.len()
        invariant
            n <= names@.len(),
            sorted(gens@),
            gens@.to_multiset() == parsed_gens(names@.take(n as int)).to_multiset(),
        decreases names@.len() - n,
    {
        proof {
            assert(names@.take(n + 1).drop_last() =~= names@.take(n as int));
        }
        match parse_gen_name(names[n].as_str()) {
            Some(gen) => {
                let mut at: usize = 0;
                while at < gens.len() && gens[at] <= gen
                    invariant
                        at <= gens@.len(),
                        sorted(gens@),
                        forall|i: int| 0 <= i < at ==> gens@[i] <= gen,
                    decreases gens@.len() - at,
                {
                    at = at + 1;
                }
                proof {
                    to_multiset_insert(gens@, at as int, gen);
                    to_multiset_build(parsed_gens(names@.take(n as int)), gen);
                }
                gens.insert(at, gen);
            },
            None => {},
        }
        n = n + 1;
    }
    assert(names@.take(names@.len() as int) =~= names@);
    gens
}

} // verus!
