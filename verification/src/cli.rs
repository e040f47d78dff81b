//! What a command line asks for, once its options are told apart.

use vstd::prelude::*;
use vstd::string::{StrSliceExecFns, StringExecFns};

verus! {

/// The tolerance that is used where none is given.
pub const DEFAULT_THRESHOLD: u32 = 5;

/// Why a command line is turned down.
#[derive(Debug, Clone, Copy, PartialEq, Eq, Structural)]
pub enum ArgumentError {
    /// An option is unknown, lacks its value, or has a value that is no
    /// number.
    Unparsable,
    /// No directory is named.
    NoDirectories,
}

/// What a run works with.
#[derive(Debug)]
pub struct Settings {
    pub threshold: u32,
    pub debug: bool,
    pub directories: Vec<String>,
}

/// Whether a character is a decimal digit.
pub open spec fn is_digit(c: char) -> bool {
    '0' <= c <= '9'
}

/// The number that a string of decimal digits stands for.
pub open spec fn digits_value(digits: Seq<char>) -> nat
    decreases digits.len(),
{
    if digits.len() == 0 {
        0
    } else {
        10 * digits_value(digits.drop_last()) + (digits.last() as nat - '0' as nat) as nat
    }
}

/// A text without the plus sign that may stand before its digits.
pub open spec fn unsigned_part(text: Seq<char>) -> Seq<char> {
    if text.len() > 0 && text[0] == '+' {
        text.skip(1)
    } else {
        text
    }
}

/// The tolerance that a text stands for: decimal digits, at least one,
/// with or without a plus sign before them, and a value that a `u32`
/// holds.
pub open spec fn parsed_threshold(text: Seq<char>) -> Option<u32> {
    let digits = unsigned_part(text);
    if digits.len() > 0 && (forall|i: int| 0 <= i < digits.len() ==> is_digit(#[trigger] digits[i]))
        && digits_value(digits) <= u32::MAX {
        Some(digits_value(digits) as u32)
    } else {
        None
    }
}

/// What is settled for a command line: without a directory it is turned
/// down; else the tolerance is the default where none is given, and the
/// given one where its text stands for one.
pub open spec fn settled_of(threshold: Option<Seq<char>>, debug: bool, directories: Vec<String>) -> Result<
    Settings,
    ArgumentError,
> {
    if directories@.len() == 0 {
        Err(ArgumentError::NoDirectories)
    } else {
        match threshold {
            None => Ok(Settings { threshold: DEFAULT_THRESHOLD, debug, directories }),
            Some(text) => match parsed_threshold(text) {
                Some(value) => Ok(Settings { threshold: value, debug, directories }),
                None => Err(ArgumentError::Unparsable),
            },
        }
    }
}

/// The line that tells how the program is called.
pub open spec fn brief_of(prog_name: Seq<char>) -> Seq<char> {
    "Usage: "@ + prog_name + " [--threshold=5] dir-1 [..dir-n]"@
}

/// More digits do not make a smaller number.
proof fn digits_value_grows(digits: Seq<char>, i: int)
    requires
        0 <= i <= digits.len(),
    ensures
        digits_value(digits.take(i)) <= digits_value(digits),
    decreases digits.len() - i,
{
    if i < digits.len() {
        digits_value_grows(digits, i + 1);
        assert(digits.take(i + 1).drop_last() =~= digits.take(i));
    } else {
        assert(digits.take(i) =~= digits);
    }
}

impl ArgumentError {
    /// The code with which the process ends on this error.
    pub fn exit_code(&self) -> (code: i32)
        ensures
            code == match *self {
                ArgumentError::Unparsable => -1i32,
                ArgumentError::NoDirectories => -2i32,
            },
    {
        match self {
            ArgumentError::Unparsable => -1,
            ArgumentError::NoDirectories => -2,
        }
    }
}

/// Reads a tolerance from the text of an option.
pub fn parse_threshold(text: &str) -> (threshold: Option<u32>)
    ensures
        threshold == parsed_threshold(text@),
{
    let len = text.unicode_len();
    let start: usize = if len > 0 && text.get_char(0) == '+' {
        1
    } else {
        0
    };
    let ghost digits = unsigned_part(text@);
    if start == len {
        return None;
    }
    let mut value: u64 = 0;
    let mut i: usize = start;
    while i < len
        invariant
            start <= i <= len,
            len == text@.len(),
            digits == unsigned_part(text@),
            digits == text@.skip(start as int),
            forall|j: int| 0 <= j < i - start ==> is_digit(#[trigger] digits[j]),
            value == digits_value(digits.take(i - start)),
            value <= u32::MAX,
        decreases len - i,
    {
        let c = text.get_char(i);
        proof {
            assert(digits[i - start] == c);
            assert(digits.take(i - start + 1).drop_last() =~= digits.take(i - start));
        }
        if c < '0' || c > '9' {
            return None;
        }
        let digit: u64 = (c as u32 - '0' as u32) as u64;
        value = 10 * value + digit;
        if value > 0xffff_ffff {
            proof {
                digits_value_grows(digits, i - start + 1);
            }
            return None;
        }
        i = i + 1;
    }
    proof {
        assert(digits.take(len - start) =~= digits);
    }
    Some(value as u32)
}

/// Settles what a run works with. Directories are asked for before the
/// tolerance is read.
pub fn settings(threshold: Option<&str>, debug: bool, directories: Vec<String>) -> (settled: Result<
    Settings,
    ArgumentError,
>)
    ensures
        settled == settled_of(
            match threshold {
                Some(text) => Some(text@),
                None => None,
            },
            debug,
            directories,
        ),
{
    if directories.len() == 0 {
        return Err(ArgumentError::NoDirectories);
    }
    let threshold: u32 = match threshold {
        Some(text) => match parse_threshold(text) {
            Some(value) => value,
            None => {
                return Err(ArgumentError::Unparsable);
            },
        },
        None => DEFAULT_THRESHOLD,
    };
    Ok(Settings { threshold, debug, directories })
}

/// Writes the line that tells how the program is called.
pub fn usage_brief(prog_name: &str) -> (brief: String)
    ensures
        brief@ == brief_of(prog_name@),
{
    let mut brief = String::from_str("Usage: ");
    brief.append(prog_name);
    brief.append(" [--threshold=5] dir-1 [..dir-n]");
    brief
}

} // verus!
