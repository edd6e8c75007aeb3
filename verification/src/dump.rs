//! The diagnostic listing of a file of digests.
use vstd::prelude::*;
use vstd::string::*;
use vstd::utf8::*;
use vstd::slice::{slice_subrange, slice_to_vec};
use crate::bytes::{byte_views, chunks, chunks_of};
use crate::hashing::{Algorithm, HashError, HashFault};
use crate::text::{decimal, decimal_text, hex_encode, hex_text, text_from_utf8};

verus! {

/// The line that shows one digest: hexadecimal for the raw digests, the text
/// itself for a Scrypt record, which must be well-formed UTF-8.
pub open spec fn digest_line(algorithm: Algorithm, digest: Seq<u8>) -> Option<Seq<char>> {
    if algorithm == Algorithm::Scrypt {
        if valid_utf8(digest) {
            Some(decode_utf8(digest))
        } else {
            None
        }
    } else {
        Some(hex_text(digest))
    }
}

/// The lines of the first `n` digests, up to the first one that cannot be
/// shown, and whether all of them could.
pub open spec fn digest_lines(algorithm: Algorithm, digests: Seq<Seq<u8>>, n: nat) -> (
    Seq<Seq<char>>,
    bool,
)
    decreases n,
{
    if n == 0 {
        (Seq::empty(), true)
    } else {
        let (head, fine) = digest_lines(algorithm, digests, (n - 1) as nat);
        if !fine {
            (head, false)
        } else {
            match digest_line(algorithm, digests[n - 1]) {
                Some(line) => (head.push(line), true),
                None => (head, false),
            }
        }
    }
}

/// The listing of a file of digests: the lines to show, and how the listing
/// ends. A file that is too short, names no known algorithm or whose digests
/// do not fill it exactly is refused before any line; a Scrypt record that
/// is no text ends the listing behind the lines before it.
pub open spec fn hash_dump(bytes: Seq<u8>) -> (Seq<Seq<char>>, Result<(), HashFault>) {
    if bytes.len() < 3 || 2 + bytes[1] >= bytes.len() {
        (Seq::empty(), Err(HashFault::InvalidAlgorithm))
    } else {
        let name_end = 2 + bytes[1] as int;
        match Algorithm::named_bytes(bytes.subrange(2, name_end)) {
            None => (Seq::empty(), Err(HashFault::InvalidAlgorithm)),
            Some(algorithm) => {
                let data = bytes.skip(name_end + 1);
                if data.len() % algorithm.digest_size() != 0 {
                    (Seq::empty(), Err(HashFault::InvalidAlgorithm))
                } else {
                    let digests = chunks_of(data, algorithm.digest_size());
                    let (lines, fine) = digest_lines(algorithm, digests, digests.len());
                    (
                        seq![
                            "VERSION: "@ + decimal_text(bytes[0] as nat),
                            "ALGORITHM: "@ + algorithm.canonical_name(),
                            "PASSWORD LENGTH: "@ + decimal_text(bytes[name_end] as nat),
                        ] + lines,
                        if fine {
                            Ok(())
                        } else {
                            Err(HashFault::InvalidAlgorithm)
                        },
                    )
                }
            },
        }
    }
}

/// The lines of a list as sequences of characters.
pub open spec fn text_views(lines: Seq<String>) -> Seq<Seq<char>> {
    Seq::new(lines.len(), |i: int| lines[i]@)
}

/// Lists a file of digests: version, algorithm and password length, then
/// one line for each digest. Gives the lines to show and how the listing
/// ends.
pub fn dump_hashes(bytes: &[u8]) -> (out: (Vec<String>, Result<(), HashError>))
    ensures
        text_views(out.0@) == hash_dump(bytes@).0,
        match out.1 {
            Ok(_) => hash_dump(bytes@).1 is Ok,
            Err(e) => hash_dump(bytes@).1 == Err::<(), HashFault>(e@),
        },
{
    let mut lines: Vec<String> = Vec::new();
    assert(text_views(lines@) =~= Seq::<Seq<char>>::empty());
    if bytes.len() < 3 {
        return (lines, Err(HashError::InvalidAlgorithm));
    }
    let name_end: usize = 2 + bytes[1] as usize;
    if name_end >= bytes.len() {
        return (lines, Err(HashError::InvalidAlgorithm));
    }
    let algorithm = match Algorithm::from_bytes(slice_subrange(bytes, 2, name_end)) {
        Some(algorithm) => algorithm,
        None => {
            return (lines, Err(HashError::InvalidAlgorithm));
        },
    };
    let hash_size = algorithm.hash_size();
    let data = slice_subrange(bytes, name_end + 1, bytes.len());
    assert(data@ =~= bytes@.skip(name_end + 1));
    if data.len() % hash_size != 0 {
        return (lines, Err(HashError::InvalidAlgorithm));
    }
    lines.push(String::from_str("VERSION: ").concat(decimal(bytes[0] as u128).as_str()));
    lines.push(String::from_str("ALGORITHM: ").concat(algorithm.name()));
    lines.push(
        String::from_str("PASSWORD LENGTH: ").concat(decimal(bytes[name_end] as u128).as_str()),
    );
    let ghost head = text_views(lines@);
    assert(head =~= seq![
        "VERSION: "@ + decimal_text(bytes@[0] as nat),
        "ALGORITHM: "@ + algorithm.canonical_name(),
        "PASSWORD LENGTH: "@ + decimal_text(bytes@[name_end as int] as nat),
    ]);
    let digests = chunks(data, hash_size);
    let ghost views = byte_views(digests@);
    let mut i: usize = 0;
    assert(text_views(lines@) =~= head + digest_lines(algorithm, views, 0).0);
    assert(hash_dump(bytes@).0 == head + digest_lines(algorithm, views, views.len()).0);
    assert(hash_dump(bytes@).1 is Ok == digest_lines(algorithm, views, views.len()).1);
    while i < digests.len()
        invariant
            i <= digests@.len(),
            views == byte_views(digests@),
            hash_dump(bytes@).0 == head + digest_lines(algorithm, views, views.len()).0,
            hash_dump(bytes@).1 is Ok == digest_lines(algorithm, views, views.len()).1,
            hash_dump(bytes@).1 is Err ==> hash_dump(bytes@).1 == Err::<(), HashFault>(
                HashFault::InvalidAlgorithm,
            ),
            digest_lines(algorithm, views, i as nat).1,
            text_views(lines@) == head + digest_lines(algorithm, views, i as nat).0,
        decreases digests@.len() - i,
    {
        let ghost before = text_views(lines@);
        let line = match algorithm {
            Algorithm::Scrypt => match text_from_utf8(slice_to_vec(digests[i].as_slice())) {
                Ok(text) => text,
                Err(_) => {
                    proof {
                        assert(digest_line(algorithm, views[i as int]) is None);
                        lemma_lines_stop(algorithm, views, (i + 1) as nat, views.len());
                    }
                    return (lines, Err(HashError::InvalidAlgorithm));
                },
            },
            _ => hex_encode(digests[i].as_slice()),
        };
        assert(digest_line(algorithm, views[i as int]) == Some(line@));
        lines.push(line);
        assert(text_views(lines@) =~= before.push(line@));
        assert(text_views(lines@) =~= head + digest_lines(algorithm, views, (i + 1) as nat).0);
        i += 1;
    }
    (lines, Ok(()))
}

/// Once a digest cannot be shown, the listing stays as it is.
pub proof fn lemma_lines_stop(algorithm: Algorithm, digests: Seq<Seq<u8>>, n: nat, m: nat)
    requires
        n <= m,
        !digest_lines(algorithm, digests, n).1,
    ensures
        digest_lines(algorithm, digests, m) == digest_lines(algorithm, digests, n),
    decreases m,
{
    if n < m {
        lemma_lines_stop(algorithm, digests, n, (m - 1) as nat);
    }
}

} // verus!
