//! The reduction function: from a digest to a candidate password.
use vstd::prelude::*;
use vstd::string::*;
use vstd::utf8::*;
use crate::rainbow::error::{RainbowError, RainbowFault};
use crate::text::{decimal, decimal_sum, decimal_text};

verus! {

/// The byte at position `k` of the digest repeated without end; zero where
/// the digest is empty.
pub open spec fn cycle_byte(digest: Seq<u8>, k: int) -> u8
    recommends
        0 <= k,
{
    if digest.len() == 0 {
        0u8
    } else {
        digest[k % digest.len() as int]
    }
}

/// The accumulator for character `j`: the four bytes `4j .. 4j + 3` of the
/// repeated digest, each shifted in behind the one before, that is, read as
/// one number with the first byte the most significant.
pub open spec fn accumulated(digest: Seq<u8>, j: int) -> u128
    recommends
        0 <= j,
{
    (cycle_byte(digest, 4 * j) as int * 0x100_0000 + cycle_byte(digest, 4 * j + 1) as int
        * 0x1_0000 + cycle_byte(digest, 4 * j + 2) as int * 0x100 + cycle_byte(
        digest,
        4 * j + 3,
    ) as int) as u128
}

/// The code point of character `j`.
pub open spec fn code_point(digest: Seq<u8>, charset_size: u128, offset: u128, j: int) -> int
    recommends
        0 <= j,
        charset_size > 0,
{
    offset as int + accumulated(digest, j) as int % charset_size as int
}

/// Whether a code point is a Unicode scalar value.
pub open spec fn is_scalar_value(cp: int) -> bool {
    0 <= cp <= 0x10FFFF && !(0xD800 <= cp <= 0xDFFF)
}

/// The message for a code point that is no ASCII character; `None` for one
/// that is.
pub open spec fn code_point_fault(cp: int) -> Option<Seq<char>>
    recommends
        0 <= cp,
{
    if cp <= 127 {
        None
    } else if is_scalar_value(cp) {
        Some("Non-ASCII character generated: "@ + seq![cp as char])
    } else {
        Some("Invalid Unicode code point: "@ + decimal_text(cp as nat))
    }
}

/// Why character `j` cannot be produced, if it cannot.
pub open spec fn char_fault(digest: Seq<u8>, charset_size: u128, offset: u128, j: int) -> Option<
    Seq<char>,
>
    recommends
        0 <= j,
{
    if charset_size == 0 {
        Some("Invalid charset size: 0"@)
    } else {
        code_point_fault(code_point(digest, charset_size, offset, j))
    }
}

/// The first `n` characters of the reduction, or the failure of the first
/// character among them that cannot be produced.
pub open spec fn reduce_prefix(digest: Seq<u8>, charset_size: u128, offset: u128, n: nat) -> Result<
    Seq<u8>,
    RainbowFault,
>
    decreases n,
{
    if n == 0 {
        Ok(Seq::empty())
    } else {
        match reduce_prefix(digest, charset_size, offset, (n - 1) as nat) {
            Err(fault) => Err(fault),
            Ok(head) => match char_fault(digest, charset_size, offset, n - 1) {
                Some(text) => Err(RainbowFault::UnicodeError(text)),
                None => Ok(head.push(code_point(digest, charset_size, offset, n - 1) as u8)),
            },
        }
    }
}

/// The password that a digest reduces to.
pub open spec fn reduced(
    digest: Seq<u8>,
    password_length: nat,
    charset_size: u128,
    offset: u128,
) -> Result<Seq<u8>, RainbowFault> {
    reduce_prefix(digest, charset_size, offset, password_length)
}

/// Whether every code point that the parameters can give is ASCII.
pub open spec fn ascii_charset(charset_size: u128, offset: u128) -> bool {
    charset_size > 0 && offset + charset_size - 1 <= 127
}

/// Whether all bytes are ASCII.
pub open spec fn is_ascii_bytes(bytes: Seq<u8>) -> bool {
    forall|i: int| 0 <= i < bytes.len() ==> (#[trigger] bytes[i]) < 128
}

/// A reduction that succeeds has the asked length, holds the code points in
/// order, and is ASCII; one that fails, fails with a Unicode error, and it
/// fails exactly if some character cannot be produced.
pub proof fn lemma_reduce_prefix(digest: Seq<u8>, charset_size: u128, offset: u128, n: nat)
    ensures
        match reduce_prefix(digest, charset_size, offset, n) {
            Ok(password) => {
                &&& password.len() == n
                &&& is_ascii_bytes(password)
                &&& n > 0 ==> charset_size > 0
                &&& forall|j: int|
                    0 <= j < n ==> (#[trigger] password[j]) as int == code_point(
                        digest,
                        charset_size,
                        offset,
                        j,
                    )
            },
            Err(fault) => fault is UnicodeError,
        },
        reduce_prefix(digest, charset_size, offset, n) is Err <==> exists|j: int|
            0 <= j < n && #[trigger] char_fault(digest, charset_size, offset, j) is Some,
        n == 0 || ascii_charset(charset_size, offset) ==> reduce_prefix(
            digest,
            charset_size,
            offset,
            n,
        ) is Ok,
    decreases n,
{
    if n > 0 {
        lemma_reduce_prefix(digest, charset_size, offset, (n - 1) as nat);
        if ascii_charset(charset_size, offset) {
            let acc = accumulated(digest, n - 1);
            assert(0 <= (acc as int) % (charset_size as int) < (charset_size as int));
        }
        if reduce_prefix(digest, charset_size, offset, n) is Err {
            if reduce_prefix(digest, charset_size, offset, (n - 1) as nat) is Err {
                let j = choose|j: int|
                    0 <= j < n - 1 && #[trigger] char_fault(digest, charset_size, offset, j)
                        is Some;
                assert(char_fault(digest, charset_size, offset, j) is Some);
            } else {
                assert(char_fault(digest, charset_size, offset, n - 1) is Some);
            }
        }
        if exists|j: int|
            0 <= j < n && #[trigger] char_fault(digest, charset_size, offset, j) is Some {
            let j = choose|j: int|
                0 <= j < n && #[trigger] char_fault(digest, charset_size, offset, j) is Some;
            if j < n - 1 {
                assert(char_fault(digest, charset_size, offset, j) is Some);
            }
        }
    }
}

/// `char::from_u32`: the character with this scalar value, where it is one.
#[verifier::external_body]
fn char_from_u32(value: u32) -> (res: Option<char>)
    ensures
        match res {
            Some(c) => c as u32 == value,
            None => !is_scalar_value(value as int),
        },
{
    char::from_u32(value)
}

/// `String::push`: the character is appended.
#[verifier::external_body]
fn push_char(text: &mut String, c: char)
    ensures
        final(text)@ == old(text)@.push(c),
{
    text.push(c)
}

/// The error for the code point `offset + rest`, which is no ASCII character.
fn code_point_error(offset: u128, rest: u128) -> (e: RainbowError)
    requires
        offset + rest > 127,
    ensures
        code_point_fault(offset + rest) is Some,
        e@ == RainbowFault::UnicodeError(code_point_fault(offset + rest)->0),
{
    if let Some(cp) = offset.checked_add(rest) {
        if cp <= 0xFFFF_FFFF {
            if let Some(c) = char_from_u32(cp as u32) {
                let mut text = String::from_str("Non-ASCII character generated: ");
                push_char(&mut text, c);
                proof {
                    char_is_scalar(c);
                    char_u32_cast(c, cp as u32);
                    assert(is_scalar_value(cp as int));
                    assert(c == (cp as int) as char);
                    assert(text@ =~= "Non-ASCII character generated: "@ + seq![cp as char]);
                }
                return RainbowError::UnicodeError(text);
            }
        }
        let text = String::from_str("Invalid Unicode code point: ").concat(decimal(cp).as_str());
        RainbowError::UnicodeError(text)
    } else {
        let text = String::from_str("Invalid Unicode code point: ").concat(
            decimal_sum(offset, rest).as_str(),
        );
        RainbowError::UnicodeError(text)
    }
}

/// The byte at position `k` of the repeated digest, where `pos` is that
/// position within the digest, and the position within the digest of `k + 1`.
fn cycled(hash: &[u8], pos: usize, Ghost(k): Ghost<int>) -> (out: (u8, usize))
    requires
        0 <= k,
        hash@.len() == 0 ==> pos == 0,
        hash@.len() > 0 ==> pos == k % hash@.len() as int,
    ensures
        out.0 == cycle_byte(hash@, k),
        hash@.len() == 0 ==> out.1 == 0,
        hash@.len() > 0 ==> out.1 == (k + 1) % hash@.len() as int,
{
    if hash.len() == 0 {
        (0u8, 0)
    } else {
        let n: usize = hash.len();
        let next: usize = if pos + 1 == n {
            0
        } else {
            pos + 1
        };
        assert(next == (k + 1) % n as int) by (nonlinear_arith)
            requires
                0 <= k,
                n > 0,
                pos == k % n as int,
                next == if pos + 1 == n {
                    0int
                } else {
                    pos + 1
                },
        ;
        (hash[pos], next)
    }
}

/// The accumulator for character `j`, where `pos` is the position within
/// the digest of its first byte, and the position of the byte after its last.
fn accumulate(hash: &[u8], pos: usize, Ghost(j): Ghost<int>) -> (out: (u128, usize))
    requires
        0 <= j,
        hash@.len() == 0 ==> pos == 0,
        hash@.len() > 0 ==> pos == (4 * j) % hash@.len() as int,
    ensures
        out.0 == accumulated(hash@, j),
        hash@.len() == 0 ==> out.1 == 0,
        hash@.len() > 0 ==> out.1 == (4 * (j + 1)) % hash@.len() as int,
{
    let (first, pos) = cycled(hash, pos, Ghost(4 * j));
    let (second, pos) = cycled(hash, pos, Ghost(4 * j + 1));
    let (third, pos) = cycled(hash, pos, Ghost(4 * j + 2));
    let (fourth, pos) = cycled(hash, pos, Ghost(4 * j + 3));
    let mut acc: u128 = first as u128;
    acc = acc * 256 + second as u128;
    acc = acc * 256 + third as u128;
    acc = acc * 256 + fourth as u128;
    (acc, pos)
}

/// Reduces a digest to a candidate password of `password_length` ASCII
/// bytes. Each character takes four bytes of the digest, which is repeated
/// as often as needed, and reads them as one number; its code point is that
/// number modulo the charset size, plus the offset. The first character that
/// is not ASCII fails the whole reduction.
pub fn reduce(hash: &[u8], password_length: usize, charset_size: u128, offset: u128) -> (res:
    Result<Vec<u8>, RainbowError>)
    ensures
        match res {
            Ok(password) => reduced(hash@, password_length as nat, charset_size, offset) == Ok::<
                Seq<u8>,
                RainbowFault,
            >(password@),
            Err(e) => reduced(hash@, password_length as nat, charset_size, offset) == Err::<
                Seq<u8>,
                RainbowFault,
            >(e@),
        },
        res is Ok ==> res->Ok_0@.len() == password_length && is_ascii_bytes(res->Ok_0@),
        res is Err ==> res->Err_0 is UnicodeError,
        res is Err <==> exists|j: int|
            0 <= j < password_length && #[trigger] char_fault(hash@, charset_size, offset, j)
                is Some,
        password_length == 0 || ascii_charset(charset_size, offset) ==> res is Ok,
{
    proof {
        lemma_reduce_prefix(hash@, charset_size, offset, password_length as nat);
        if hash@.len() > 0 {
            vstd::arithmetic::div_mod::lemma_small_mod(0, hash@.len());
        }
    }
    let mut password: Vec<u8> = Vec::new();
    let mut pos: usize = 0;
    let mut j: usize = 0;
    while j < password_length
        invariant
            j <= password_length,
            reduce_prefix(hash@, charset_size, offset, j as nat) == Ok::<Seq<u8>, RainbowFault>(
                password@,
            ),
            hash@.len() == 0 ==> pos == 0,
            hash@.len() > 0 ==> pos == (4 * j) % hash@.len() as int,
        decreases password_length - j,
    {
        if charset_size == 0 {
            let e = RainbowError::UnicodeError(String::from_str("Invalid charset size: 0"));
            proof {
                assert(reduce_prefix(hash@, charset_size, offset, (j + 1) as nat) == Err::<
                    Seq<u8>,
                    RainbowFault,
                >(e@));
                lemma_failure_stays(
                    hash@,
                    charset_size,
                    offset,
                    (j + 1) as nat,
                    password_length as nat,
                );
            }
            return Err(e);
        }
        let (acc, next) = accumulate(hash, pos, Ghost(j as int));
        pos = next;
        let rest: u128 = acc % charset_size;
        assert(code_point(hash@, charset_size, offset, j as int) == offset + rest);
        if rest > 127 || offset > 127 - rest {
            let e = code_point_error(offset, rest);
            proof {
                assert(reduce_prefix(hash@, charset_size, offset, (j + 1) as nat) == Err::<
                    Seq<u8>,
                    RainbowFault,
                >(e@));
                lemma_failure_stays(
                    hash@,
                    charset_size,
                    offset,
                    (j + 1) as nat,
                    password_length as nat,
                );
            }
            return Err(e);
        }
        password.push((offset + rest) as u8);
        assert(reduce_prefix(hash@, charset_size, offset, (j + 1) as nat) == Ok::<
            Seq<u8>,
            RainbowFault,
        >(password@));
        j += 1;
    }
    Ok(password)
}

/// Once a prefix fails, every longer prefix fails in the same way.
pub proof fn lemma_failure_stays(
    digest: Seq<u8>,
    charset_size: u128,
    offset: u128,
    n: nat,
    m: nat,
)
    requires
        n <= m,
        reduce_prefix(digest, charset_size, offset, n) is Err,
    ensures
        reduce_prefix(digest, charset_size, offset, m) == reduce_prefix(
            digest,
            charset_size,
            offset,
            n,
        ),
    decreases m,
{
    if n < m {
        lemma_failure_stays(digest, charset_size, offset, n, (m - 1) as nat);
    }
}

} // verus!
