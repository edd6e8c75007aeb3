//! Password samples: random generation, and the rule that a list read from
//! a file holds passwords of one length.
use vstd::prelude::*;
use vstd::string::*;
use vstd::utf8::*;
use crate::text::{decimal, decimal_text, lemma_ascii_bytes_are_utf8, text_from_utf8};

verus! {

/// Why a password list was refused.
#[derive(Clone, Copy, Debug, PartialEq, Eq, Structural)]
pub enum PasswordError {
    /// The line with this number, counted from one, has another length than
    /// the first line (or, with number zero, a length of zero was asked for).
    InvalidLength(usize),
    /// A count of zero was asked for.
    InvalidCount,
}

impl PasswordError {
    /// What the error says.
    pub open spec fn message(self) -> Seq<char> {
        match self {
            PasswordError::InvalidLength(line) => "Invalid password length at line "@
                + decimal_text(line as nat),
            PasswordError::InvalidCount => "Invalid password count"@,
        }
    }

    /// What the error says.
    pub fn to_string(&self) -> (text: String)
        ensures
            text@ == self.message(),
    {
        match self {
            PasswordError::InvalidLength(line) => String::from_str(
                "Invalid password length at line ",
            ).concat(decimal(*line as u128).as_str()),
            PasswordError::InvalidCount => String::from_str("Invalid password count"),
        }
    }
}

/// The lowest and the highest byte of a generated password.
pub const PRINTABLE_LOW: u8 = 32;

pub const PRINTABLE_HIGH: u8 = 126;

/// Whether every character is printable ASCII.
pub open spec fn is_printable(text: Seq<char>) -> bool {
    forall|i: int|
        0 <= i < text.len() ==> PRINTABLE_LOW as int <= (#[trigger] text[i]) as int
            <= PRINTABLE_HIGH as int
}

/// `Rng::gen_range` on `rand::thread_rng()` with an inclusive range: some
/// value within the bounds.
#[verifier::external_body]
fn random_between(low: u8, high: u8) -> (value: u8)
    requires
        low <= high,
    ensures
        low <= value <= high,
{
    rand::Rng::gen_range(&mut rand::thread_rng(), low..=high)
}

/// A random password of `length` printable ASCII characters.
pub fn generate_password(length: usize) -> (password: String)
    ensures
        password@.len() == length,
        is_printable(password@),
{
    let mut bytes: Vec<u8> = Vec::new();
    let mut i: usize = 0;
    while i < length
        invariant
            i <= length,
            bytes@.len() == i,
            forall|k: int|
                0 <= k < i ==> PRINTABLE_LOW <= (#[trigger] bytes@[k]) <= PRINTABLE_HIGH,
        decreases length - i,
    {
        let b: u8 = random_between(PRINTABLE_LOW, PRINTABLE_HIGH);
        bytes.push(b);
        i += 1;
    }
    proof {
        lemma_ascii_bytes_are_utf8(bytes@);
    }
    match text_from_utf8(bytes) {
        Ok(password) => password,
        Err(_) => String::new(),
    }
}

/// What a request for passwords must meet: a count and a length above zero.
pub open spec fn request_fault(count: usize, length: usize) -> Option<PasswordError> {
    if count == 0 {
        Some(PasswordError::InvalidCount)
    } else if length == 0 {
        Some(PasswordError::InvalidLength(0))
    } else {
        None
    }
}

/// Checks a request for `count` passwords of `length` characters.
pub fn check_request(count: usize, length: usize) -> (res: Result<(), PasswordError>)
    ensures
        match res {
            Ok(_) => request_fault(count, length) is None,
            Err(e) => request_fault(count, length) == Some(e),
        },
{
    if count == 0 {
        return Err(PasswordError::InvalidCount);
    }
    if length == 0 {
        return Err(PasswordError::InvalidLength(0));
    }
    Ok(())
}

/// `count` random passwords of `length` printable ASCII characters each.
pub fn generate_passwords(count: usize, length: usize) -> (res: Result<Vec<String>, PasswordError>)
    ensures
        match res {
            Ok(passwords) => request_fault(count, length) is None && passwords@.len() == count
                && forall|i: int|
                0 <= i < count ==> (#[trigger] passwords@[i])@.len() == length && is_printable(
                    passwords@[i]@,
                ),
            Err(e) => request_fault(count, length) == Some(e),
        },
{
    check_request(count, length)?;
    let mut passwords: Vec<String> = Vec::new();
    let mut i: usize = 0;
    while i < count
        invariant
            i <= count,
            passwords@.len() == i,
            forall|k: int|
                0 <= k < i ==> (#[trigger] passwords@[k])@.len() == length && is_printable(
                    passwords@[k]@,
                ),
        decreases count - i,
    {
        let password = generate_password(length);
        passwords.push(password);
        i += 1;
    }
    Ok(passwords)
}

/// The length in bytes of a line as it stands in a file.
pub open spec fn byte_len(line: Seq<char>) -> nat {
    encode_utf8(line).len()
}

/// The first line, counted from zero, whose length in bytes differs from
/// that of line zero, if there is one.
pub open spec fn first_odd_line(lines: Seq<String>, upto: nat) -> Option<nat>
    decreases upto,
{
    if upto == 0 {
        None
    } else {
        match first_odd_line(lines, (upto - 1) as nat) {
            Some(i) => Some(i),
            None => if byte_len(lines[upto - 1]@) != byte_len(lines[0]@) {
                Some((upto - 1) as nat)
            } else {
                None
            },
        }
    }
}

/// Before `first_odd_line` every line has the length of line zero, and the
/// line it names has not.
pub proof fn lemma_first_odd_line(lines: Seq<String>, upto: nat)
    requires
        upto <= lines.len(),
    ensures
        match first_odd_line(lines, upto) {
            Some(i) => i < upto && byte_len(lines[i as int]@) != byte_len(lines[0]@)
                && forall|k: int|
                0 <= k < i ==> byte_len((#[trigger] lines[k])@) == byte_len(lines[0]@),
            None => forall|k: int|
                0 <= k < upto ==> byte_len((#[trigger] lines[k])@) == byte_len(lines[0]@),
        },
    decreases upto,
{
    if upto > 0 {
        lemma_first_odd_line(lines, (upto - 1) as nat);
    }
}

/// Accepts the lines of a password file if all have the length of the first
/// one; otherwise names the first line that has not, counted from one.
pub fn read_passwords(lines: Vec<String>) -> (res: Result<Vec<String>, PasswordError>)
    ensures
        match first_odd_line(lines@, lines@.len()) {
            Some(i) => res == Err::<Vec<String>, PasswordError>(
                PasswordError::InvalidLength((i + 1) as usize),
            ),
            None => res == Ok::<Vec<String>, PasswordError>(lines),
        },
{
    proof {
        lemma_first_odd_line(lines@, lines@.len());
    }
    let mut i: usize = 1;
    while i < lines.len()
        invariant
            1 <= i,
            forall|k: int|
                0 <= k < i && k < lines@.len() ==> byte_len((#[trigger] lines@[k])@) == byte_len(
                    lines@[0]@,
                ),
        decreases lines@.len() - i,
    {
        if lines[i].as_str().as_bytes().len() != lines[0].as_str().as_bytes().len() {
            proof {
                lemma_first_odd_line(lines@, lines@.len());
                assert(byte_len(lines@[i as int]@) != byte_len(lines@[0]@));
            }
            return Err(PasswordError::InvalidLength(i + 1));
        }
        i += 1;
    }
    Ok(lines)
}

} // verus!
