//! The options of a run, and how each flag of the command line sets them.

use crate::text::{begins_with, chars_of, spells};
use vstd::prelude::*;

verus! {

/// The size of the read buffer where no flag sets it: 8 KiB.
pub const DEFAULT_BUFFER_SIZE: usize = 8 * 1024;

/// The number of bytes in a kilobyte, the unit of the buffer-size flag.
pub const KILOBYTE: usize = 1024;

/// Whether `c` is a decimal digit.
pub open spec fn is_digit(c: char) -> bool {
    '0' <= c <= '9'
}

/// The value of a decimal digit; 0 for any other character.
pub open spec fn digit_value(c: char) -> nat {
    if is_digit(c) {
        (c as nat - '0' as nat) as nat
    } else {
        0
    }
}

/// The number that `digits` spell in base ten.
pub open spec fn decimal_value(digits: Seq<char>) -> nat
    decreases digits.len(),
{
    if digits.len() == 0 {
        0
    } else {
        10 * decimal_value(digits.drop_last()) + digit_value(digits.last())
    }
}

/// The digits of a number: the text without the plus sign that may stand in
/// front.
pub open spec fn digits_of(text: Seq<char>) -> Seq<char> {
    if text.len() > 0 && text[0] == '+' {
        text.drop_first()
    } else {
        text
    }
}

/// Whether `text` is a number: one digit or more, with or without a plus
/// sign in front, and nothing else.
pub open spec fn is_number(text: Seq<char>) -> bool {
    &&& digits_of(text).len() > 0
    &&& forall|i: int| 0 <= i < digits_of(text).len() ==> is_digit(#[trigger] digits_of(text)[i])
}

/// The buffer size in bytes that `text` asks for: `text` is a number of
/// kilobytes, and the bytes fit the machine's word. `None` where it is not.
pub open spec fn buffer_size_of(text: Seq<char>) -> Option<usize> {
    if is_number(text) && decimal_value(digits_of(text)) * KILOBYTE <= usize::MAX {
        Some((decimal_value(digits_of(text)) * KILOBYTE) as usize)
    } else {
        None
    }
}

/// The buffer size in bytes that a run uses when `text` is given for it, and
/// whether `text` is valid. A valid text is a number of kilobytes whose bytes
/// fit the machine's word, and gives that number of bytes. Any other text
/// gives the default of 8 KiB, and a warning is due.
pub open spec fn size_or_default(text: Seq<char>) -> (usize, bool) {
    match buffer_size_of(text) {
        Some(size) => (size, true),
        None => (DEFAULT_BUFFER_SIZE, false),
    }
}

/// A number grows with every digit.
proof fn lemma_decimal_value_grows(digits: Seq<char>, n: int)
    requires
        0 <= n <= digits.len(),
    ensures
        decimal_value(digits.take(n)) <= decimal_value(digits),
    decreases digits.len() - n,
{
    if n < digits.len() {
        assert(digits.take(n + 1).drop_last() =~= digits.take(n));
        lemma_decimal_value_grows(digits, n + 1);
    } else {
        assert(digits.take(n) =~= digits);
    }
}

/// The buffer size in bytes that the characters of `chars` from `start` on
/// ask for.
fn parse_kilobytes(chars: &Vec<char>, start: usize) -> (size: Option<usize>)
    requires
        start <= chars.len(),
    ensures
        size == buffer_size_of(chars@.skip(start as int)),
{
    let ghost text = chars@.skip(start as int);
    let mut i = start;
    if i < chars.len() && chars[i] == '+' {
        i = i + 1;
    }
    let ghost digits = digits_of(text);
    assert(digits =~= chars@.skip(i as int));
    if i == chars.len() {
        return None;
    }
    let first = i;
    let mut value: usize = 0;
    while i < chars.len()
        invariant
            first <= i <= chars.len(),
            text == chars@.skip(start as int),
            digits == digits_of(text),
            digits == chars@.skip(first as int),
            forall|j: int| 0 <= j < i - first ==> is_digit(#[trigger] digits[j]),
            value == decimal_value(digits.take(i - first)),
        decreases chars.len() - i,
    {
        let c = chars[i];
        assert(digits[i - first] == c);
        if !('0' <= c && c <= '9') {
            return None;
        }
        let digit = (c as u8 - 48) as usize;
        proof {
            let longer = digits.take(i - first + 1);
            assert(longer.drop_last() =~= digits.take(i - first));
            assert(longer.last() == c);
            assert(decimal_value(longer) == 10 * value + digit);
            lemma_decimal_value_grows(digits, i - first + 1);
        }
        value = match value.checked_mul(10) {
            Some(tens) => match tens.checked_add(digit) {
                Some(sum) => sum,
                None => {
                    return None;
                },
            },
            None => {
                return None;
            },
        };
        i = i + 1;
    }
    assert(digits.take(i - first) =~= digits);
    value.checked_mul(KILOBYTE)
}

/// The buffer size that a run uses when the characters of `chars` from
/// `start` on are given for it, and whether they are valid.
fn parse_size(chars: &Vec<char>, start: usize) -> (r: (usize, bool))
    requires
        start <= chars.len(),
    ensures
        r == size_or_default(chars@.skip(start as int)),
{
    match parse_kilobytes(chars, start) {
        Some(size) => (size, true),
        None => (DEFAULT_BUFFER_SIZE, false),
    }
}

/// The buffer size in bytes that a run uses when `s` is given for it, and
/// whether `s` is valid. A number of kilobytes (decimal digits, with or
/// without a plus sign in front) gives that many bytes. Anything else, or a
/// number whose bytes are more than the machine's word holds, gives the
/// default of 8 KiB and `false`: the caller owes a warning.
pub fn parse_buffer_size(s: &str) -> (r: (usize, bool))
    ensures
        r == size_or_default(s@),
        r.0 == match buffer_size_of(s@) {
            Some(size) => size,
            None => DEFAULT_BUFFER_SIZE,
        },
        r.1 == buffer_size_of(s@) is Some,
{
    let chars = chars_of(s);
    assert(chars@.skip(0) =~= s@);
    parse_size(&chars, 0)
}

/// The options of a run.
#[derive(Clone, Copy, Debug)]
pub struct Options {
    /// The size of the read buffer in bytes.
    pub buffer_size: usize,
    /// Whether lines without content are skipped.
    pub skip_empty: bool,
    /// Whether directories are traversed through all levels.
    pub recursive: bool,
}

/// What one argument of the command line asks for.
pub enum Flag {
    /// `--buffer-size=` and a text: the buffer size in bytes that the text
    /// gives, which is the default where the text is not valid, and whether
    /// it is valid.
    BufferSize(usize, bool),
    /// `--skip-empty`.
    SkipEmpty,
    /// `--recursive`.
    Recursive,
    /// Anything else.
    Unknown,
}

/// What `arg` asks for.
pub open spec fn flag_of(arg: Seq<char>) -> Flag {
    if "--buffer-size="@.is_prefix_of(arg) {
        let given = size_or_default(arg.skip("--buffer-size="@.len() as int));
        Flag::BufferSize(given.0, given.1)
    } else if arg == "--skip-empty"@ {
        Flag::SkipEmpty
    } else if arg == "--recursive"@ {
        Flag::Recursive
    } else {
        Flag::Unknown
    }
}

/// The options after `flag`: a buffer size replaces the one before it (so one
/// that is not valid brings the default back); the two switches are set and
/// stay set; anything else changes nothing.
pub open spec fn with_flag(options: Options, flag: Flag) -> Options {
    match flag {
        Flag::BufferSize(size, _) => Options { buffer_size: size, ..options },
        Flag::SkipEmpty => Options { skip_empty: true, ..options },
        Flag::Recursive => Options { recursive: true, ..options },
        Flag::Unknown => options,
    }
}

/// Whether `flag` could be used as it was given: all but a buffer size that
/// is not valid.
pub open spec fn is_valid_flag(flag: Flag) -> bool {
    match flag {
        Flag::BufferSize(_, valid) => valid,
        _ => true,
    }
}

/// Reads one argument of the command line.
pub fn parse_flag(arg: &str) -> (flag: Flag)
    ensures
        flag == flag_of(arg@),
{
    let chars = chars_of(arg);
    let prefix = chars_of("--buffer-size=");
    if begins_with(&chars, &prefix) {
        let given = parse_size(&chars, prefix.len());
        Flag::BufferSize(given.0, given.1)
    } else if spells(&chars, "--skip-empty") {
        Flag::SkipEmpty
    } else if spells(&chars, "--recursive") {
        Flag::Recursive
    } else {
        Flag::Unknown
    }
}

impl Options {
    /// The options of a run without flags: a buffer of 8 KiB, every newline
    /// counted, directories one level deep.
    pub fn new() -> (options: Options)
        ensures
            options == (Options {
                buffer_size: DEFAULT_BUFFER_SIZE,
                skip_empty: false,
                recursive: false,
            }),
    {
        Options { buffer_size: DEFAULT_BUFFER_SIZE, skip_empty: false, recursive: false }
    }

    /// Takes one argument of the command line into the options. The result
    /// says whether the argument could be used as it was given: it is `false`
    /// for a buffer size that is not valid, which sets the default size and
    /// for which the caller owes a warning.
    pub fn apply(&mut self, arg: &str) -> (valid: bool)
        ensures
            *final(self) == with_flag(*old(self), flag_of(arg@)),
            valid == is_valid_flag(flag_of(arg@)),
    {
        match parse_flag(arg) {
            Flag::BufferSize(size, valid) => {
                self.buffer_size = size;
                valid
            },
            Flag::SkipEmpty => {
                self.skip_empty = true;
                true
            },
            Flag::Recursive => {
                self.recursive = true;
                true
            },
            Flag::Unknown => true,
        }
    }
}

} // verus!
