//! The digest provider: the supported algorithms and the digest of a password.
use vstd::prelude::*;
use vstd::arithmetic::power2::{lemma2_to64, pow2};
use vstd::string::*;
use vstd::utf8::*;
use digest::Digest;
use crate::bytes::{byte_views, bytes_equal, joined};
use crate::password::PasswordError;

verus! {

/// A supported digest algorithm.
#[derive(Clone, Copy, Debug, PartialEq, Eq, Structural)]
#[non_exhaustive]
pub enum Algorithm {
    Md5,
    Sha256,
    Sha3_512,
    Scrypt,
}

impl Algorithm {
    /// The canonical lowercase name, as it stands in file headers.
    pub open spec fn canonical_name(self) -> Seq<char> {
        match self {
            Algorithm::Md5 => "md5"@,
            Algorithm::Sha256 => "sha256"@,
            Algorithm::Sha3_512 => "sha3-512"@,
            Algorithm::Scrypt => "scrypt"@,
        }
    }

    /// The number of bytes one serialized digest takes.
    pub open spec fn digest_size(self) -> nat {
        match self {
            Algorithm::Md5 => 16,
            Algorithm::Sha256 => 32,
            Algorithm::Sha3_512 => 64,
            Algorithm::Scrypt => 91,
        }
    }

    /// The algorithm that a name stands for, if any.
    pub open spec fn named(name: Seq<char>) -> Option<Algorithm> {
        if name == Algorithm::Md5.canonical_name() {
            Some(Algorithm::Md5)
        } else if name == Algorithm::Sha256.canonical_name() {
            Some(Algorithm::Sha256)
        } else if name == Algorithm::Sha3_512.canonical_name() {
            Some(Algorithm::Sha3_512)
        } else if name == Algorithm::Scrypt.canonical_name() {
            Some(Algorithm::Scrypt)
        } else {
            None
        }
    }

    /// The canonical name.
    pub fn name(&self) -> (text: &'static str)
        ensures
            text@ == self.canonical_name(),
    {
        match self {
            Algorithm::Md5 => "md5",
            Algorithm::Sha256 => "sha256",
            Algorithm::Sha3_512 => "sha3-512",
            Algorithm::Scrypt => "scrypt",
        }
    }

    /// The number of bytes one serialized digest takes.
    pub fn hash_size(&self) -> (size: usize)
        ensures
            size == self.digest_size(),
    {
        match self {
            Algorithm::Md5 => 16,
            Algorithm::Sha256 => 32,
            Algorithm::Sha3_512 => 64,
            Algorithm::Scrypt => 91,
        }
    }

    /// The canonical name as the bytes that stand in a file header.
    pub open spec fn name_bytes(self) -> Seq<u8> {
        encode_utf8(self.canonical_name())
    }

    /// The algorithm whose name these bytes are, if any.
    pub open spec fn named_bytes(name: Seq<u8>) -> Option<Algorithm> {
        if name == Algorithm::Md5.name_bytes() {
            Some(Algorithm::Md5)
        } else if name == Algorithm::Sha256.name_bytes() {
            Some(Algorithm::Sha256)
        } else if name == Algorithm::Sha3_512.name_bytes() {
            Some(Algorithm::Sha3_512)
        } else if name == Algorithm::Scrypt.name_bytes() {
            Some(Algorithm::Scrypt)
        } else {
            None
        }
    }

    /// Every name is ASCII, at most eight bytes long, and the name of its
    /// algorithm alone.
    pub proof fn lemma_names(self)
        ensures
            self.name_bytes().len() == self.canonical_name().len(),
            0 < self.name_bytes().len() <= 8,
            Algorithm::named_bytes(self.name_bytes()) == Some(self),
            Algorithm::named(self.canonical_name()) == Some(self),
    {
        reveal_strlit("md5");
        reveal_strlit("sha256");
        reveal_strlit("sha3-512");
        reveal_strlit("scrypt");
        let a = Algorithm::Md5.canonical_name();
        let b = Algorithm::Sha256.canonical_name();
        let c = Algorithm::Sha3_512.canonical_name();
        let d = Algorithm::Scrypt.canonical_name();
        assert(is_ascii_chars(a) && is_ascii_chars(b) && is_ascii_chars(c) && is_ascii_chars(d));
        is_ascii_chars_encode_utf8(a);
        is_ascii_chars_encode_utf8(b);
        is_ascii_chars_encode_utf8(c);
        is_ascii_chars_encode_utf8(d);
        assert(b[1] != d[1]);
        assert(encode_utf8(b)[1] != encode_utf8(d)[1]);
    }

    /// A name and its bytes stand for the same algorithm.
    pub proof fn lemma_named_by_bytes(name: Seq<char>)
        ensures
            Algorithm::named(name) == Algorithm::named_bytes(encode_utf8(name)),
    {
        encode_utf8_decode_utf8(name);
        encode_utf8_decode_utf8(Algorithm::Md5.canonical_name());
        encode_utf8_decode_utf8(Algorithm::Sha256.canonical_name());
        encode_utf8_decode_utf8(Algorithm::Sha3_512.canonical_name());
        encode_utf8_decode_utf8(Algorithm::Scrypt.canonical_name());
    }

    /// The algorithm whose canonical name these bytes are.
    pub fn from_bytes(name: &[u8]) -> (found: Option<Algorithm>)
        ensures
            found == Algorithm::named_bytes(name@),
    {
        if bytes_equal(name, Algorithm::Md5.name().as_bytes()) {
            Some(Algorithm::Md5)
        } else if bytes_equal(name, Algorithm::Sha256.name().as_bytes()) {
            Some(Algorithm::Sha256)
        } else if bytes_equal(name, Algorithm::Sha3_512.name().as_bytes()) {
            Some(Algorithm::Sha3_512)
        } else if bytes_equal(name, Algorithm::Scrypt.name().as_bytes()) {
            Some(Algorithm::Scrypt)
        } else {
            None
        }
    }

    /// The algorithm with this canonical name.
    pub fn from_str(s: &str) -> (found: Option<Algorithm>)
        ensures
            found == Algorithm::named(s@),
    {
        proof {
            Algorithm::lemma_named_by_bytes(s@);
        }
        Algorithm::from_bytes(s.as_bytes())
    }

    /// The canonical name as a string of its own.
    pub fn to_string(&self) -> (text: String)
        ensures
            text@ == self.canonical_name(),
    {
        String::from_str(self.name())
    }
}

/// Why a digest or a file of digests could not be made.
#[derive(Debug)]
pub enum HashError {
    Password(PasswordError),
    InvalidAlgorithm,
    Scrypt(String),
}

/// A `HashError` with its message as a sequence of characters.
pub enum HashFault {
    Password(PasswordError),
    InvalidAlgorithm,
    Scrypt(Seq<char>),
}

impl View for HashError {
    type V = HashFault;

    open spec fn view(&self) -> HashFault {
        match self {
            HashError::Password(e) => HashFault::Password(*e),
            HashError::InvalidAlgorithm => HashFault::InvalidAlgorithm,
            HashError::Scrypt(text) => HashFault::Scrypt(text@),
        }
    }
}

impl HashFault {
    /// What the error says.
    pub open spec fn message(self) -> Seq<char> {
        match self {
            HashFault::Password(e) => "Password error: "@ + e.message(),
            HashFault::InvalidAlgorithm => "Invalid algorithm"@,
            HashFault::Scrypt(text) => "Scrypt error: "@ + text,
        }
    }
}

impl HashError {
    /// What the error says.
    pub fn to_string(&self) -> (text: String)
        ensures
            text@ == self@.message(),
    {
        match self {
            HashError::Password(e) => String::from_str("Password error: ").concat(
                e.to_string().as_str(),
            ),
            HashError::InvalidAlgorithm => String::from_str("Invalid algorithm"),
            HashError::Scrypt(text) => String::from_str("Scrypt error: ").concat(text.as_str()),
        }
    }
}

/// `scrypt::errors::InvalidParams`: the refusal of cost parameters.
#[verifier::external_type_specification]
#[verifier::external_body]
pub struct ExInvalidParams(scrypt::errors::InvalidParams);

/// `scrypt::errors::InvalidOutputLen`: the refusal of a key length.
#[verifier::external_type_specification]
#[verifier::external_body]
pub struct ExInvalidOutputLen(scrypt::errors::InvalidOutputLen);

/// The MD5 digest of a message.
pub uninterp spec fn md5_of(data: Seq<u8>) -> Seq<u8>;

/// The SHA-256 digest of a message.
pub uninterp spec fn sha256_of(data: Seq<u8>) -> Seq<u8>;

/// The SHA3-512 digest of a message.
pub uninterp spec fn sha3_512_of(data: Seq<u8>) -> Seq<u8>;

/// The padded base64 text of some bytes in the standard alphabet, as bytes.
pub uninterp spec fn base64_of(data: Seq<u8>) -> Seq<u8>;

/// `Digest::digest` on `md5::Md5`: the MD5 digest of the message, which has
/// 16 bytes.
#[verifier::external_body]
fn md5_digest(data: &[u8]) -> (out: Vec<u8>)
    ensures
        out@ == md5_of(data@),
        out@.len() == 16,
{
    md5::Md5::digest(data).to_vec()
}

/// `Digest::digest` on `sha2::Sha256`: the SHA-256 digest of the message,
/// which has 32 bytes.
#[verifier::external_body]
fn sha256_digest(data: &[u8]) -> (out: Vec<u8>)
    ensures
        out@ == sha256_of(data@),
        out@.len() == 32,
{
    sha2::Sha256::digest(data).to_vec()
}

/// `Digest::digest` on `sha3::Sha3_512`: the SHA3-512 digest of the message,
/// which has 64 bytes.
#[verifier::external_body]
fn sha3_512_digest(data: &[u8]) -> (out: Vec<u8>)
    ensures
        out@ == sha3_512_of(data@),
        out@.len() == 64,
{
    sha3::Sha3_512::digest(data).to_vec()
}

/// `Rng::gen` on `rand::thread_rng()` for an array of 16 bytes: any 16 bytes.
#[verifier::external_body]
fn random_salt() -> (salt: Vec<u8>)
    ensures
        salt@.len() == SALT_LEN,
{
    rand::Rng::gen::<[u8; 16]>(&mut rand::thread_rng()).to_vec()
}

/// The cost values and key length that `scrypt::Params::new` accepts.
pub open spec fn scrypt_params_accepted(log_n: u8, r: u32, p: u32, len: usize) -> bool {
    &&& r > 0
    &&& p > 0
    &&& (log_n as int) < usize::BITS
    &&& 10 <= len <= 64
    &&& r * 128 * pow2(log_n as nat) <= usize::MAX
    &&& r * 128 * p <= usize::MAX
    &&& (log_n as int) < r * 16
    &&& r * p < 0x4000_0000
}

/// The key that scrypt derives from a password and a salt under the cost
/// values `log_n`, `r` and `p`, in `len` bytes.
pub uninterp spec fn scrypt_of(
    password: Seq<u8>,
    salt: Seq<u8>,
    log_n: u8,
    r: u32,
    p: u32,
    len: usize,
) -> Seq<u8>;

/// `scrypt::scrypt` into a fresh buffer of `len` bytes, the cost values
/// handed over as the `scrypt::Params` that `Params::new` makes of them. The
/// outer failure is that of the cost values, which `Params::new` refuses
/// exactly where they fail its range and overflow checks; the inner one that
/// of a buffer that is empty or longer than `scrypt` allows. Otherwise the
/// buffer holds the derived key.
#[verifier::external_body]
fn scrypt_key(password: &[u8], salt: &[u8], log_n: u8, r: u32, p: u32, len: usize) -> (res: Result<
    Result<Vec<u8>, scrypt::errors::InvalidOutputLen>,
    scrypt::errors::InvalidParams,
>)
    ensures
        match res {
            Ok(Ok(key)) => scrypt_params_accepted(log_n, r, p, len) && 0 < len && len / 32
                <= 0xffff_ffff && key@.len() == len && key@ == scrypt_of(
                password@,
                salt@,
                log_n,
                r,
                p,
                len,
            ),
            Ok(Err(_)) => scrypt_params_accepted(log_n, r, p, len) && (len == 0 || len / 32
                > 0xffff_ffff),
            Err(_) => !scrypt_params_accepted(log_n, r, p, len),
        },
{
    match scrypt::Params::new(log_n, r, p, len) {
        Ok(params) => {
            let mut key = vec![0u8; len];
            match scrypt::scrypt(password, salt, &params, &mut key) {
                Ok(()) => Ok(Ok(key)),
                Err(e) => Ok(Err(e)),
            }
        },
        Err(e) => Err(e),
    }
}

/// `Engine::encode` on `base64::engine::general_purpose::STANDARD`: the
/// padded base64 text, four characters for every three bytes begun.
#[verifier::external_body]
fn base64_standard(data: &[u8]) -> (out: Vec<u8>)
    requires
        4 * ((data@.len() + 2) / 3) <= usize::MAX,
    ensures
        out@ == base64_of(data@),
        out@.len() == 4 * ((data@.len() + 2) / 3),
{
    base64::Engine::encode(&base64::engine::general_purpose::STANDARD, data).into_bytes()
}

/// The cost parameters of the Scrypt digests, and the sizes of salt and key.
pub const SCRYPT_LOG_N: u8 = 14;

pub const SCRYPT_R: u32 = 8;

pub const SCRYPT_P: u32 = 1;

pub const SCRYPT_KEY_LEN: usize = 32;

pub const SALT_LEN: usize = 16;

/// What every Scrypt digest starts with: the scheme and its parameters.
pub open spec fn scrypt_prefix() -> Seq<char> {
    "$scrypt$ln=14,r=8,p=1$"@
}

/// The textual Scrypt digest made of a salt and the key derived with it.
pub open spec fn scrypt_record(salt: Seq<u8>, key: Seq<u8>) -> Seq<u8> {
    encode_utf8(scrypt_prefix()) + base64_of(salt) + seq![36u8] + base64_of(key)
}

/// The Scrypt digest of a message under a salt: the record of the salt and
/// of the key that scrypt derives from the message with it.
pub open spec fn scrypt_digest_of(data: Seq<u8>, salt: Seq<u8>) -> Seq<u8> {
    scrypt_record(
        salt,
        scrypt_of(data, salt, SCRYPT_LOG_N, SCRYPT_R, SCRYPT_P, SCRYPT_KEY_LEN),
    )
}

impl Algorithm {
    /// Whether the digest of a message is the same on every call.
    pub open spec fn is_deterministic(self) -> bool {
        self != Algorithm::Scrypt
    }

    /// Whether the digest of a message is the same on every call.
    pub fn deterministic(&self) -> (yes: bool)
        ensures
            yes == self.is_deterministic(),
    {
        match self {
            Algorithm::Scrypt => false,
            _ => true,
        }
    }
}

/// The digest of a message under a deterministic algorithm.
pub open spec fn digest_of(algorithm: Algorithm, data: Seq<u8>) -> Seq<u8>
    recommends
        algorithm.is_deterministic(),
{
    match algorithm {
        Algorithm::Md5 => md5_of(data),
        Algorithm::Sha256 => sha256_of(data),
        Algorithm::Sha3_512 => sha3_512_of(data),
        Algorithm::Scrypt => Seq::empty(),
    }
}

/// Whether `out` can be what the digest provider returns for a message:
/// the one digest of a deterministic algorithm, or for Scrypt the digest of
/// the message under any salt of sixteen bytes.
pub open spec fn is_digest(algorithm: Algorithm, data: Seq<u8>, out: Seq<u8>) -> bool {
    if algorithm.is_deterministic() {
        out == digest_of(algorithm, data)
    } else {
        exists|salt: Seq<u8>| salt.len() == SALT_LEN && out == #[trigger] scrypt_digest_of(data, salt)
    }
}

fn scrypt_prefix_bytes() -> (out: &'static [u8])
    ensures
        out@ == encode_utf8(scrypt_prefix()),
        out@.len() == 22,
{
    let text: &'static str = "$scrypt$ln=14,r=8,p=1$";
    proof {
        reveal_strlit("$scrypt$ln=14,r=8,p=1$");
        assert(is_ascii_chars(text@));
        is_ascii_chars_encode_utf8(text@);
    }
    text.as_bytes()
}

/// A Scrypt digest of a message with a fresh random salt.
fn scrypt_digest(data: &[u8]) -> (res: Result<Vec<u8>, HashError>)
    ensures
        res is Ok,
        is_digest(Algorithm::Scrypt, data@, res->Ok_0@),
        res->Ok_0@.len() == Algorithm::Scrypt.digest_size(),
{
    let salt = random_salt();
    proof {
        lemma2_to64();
    }
    let key = match scrypt_key(
        data,
        salt.as_slice(),
        SCRYPT_LOG_N,
        SCRYPT_R,
        SCRYPT_P,
        SCRYPT_KEY_LEN,
    ) {
        Ok(Ok(key)) => key,
        Ok(Err(_)) => {
            return Err(
                HashError::Scrypt(
                    String::from_str("Scrypt computation failed: InvalidOutputLen"),
                ),
            );
        },
        Err(_) => {
            return Err(
                HashError::Scrypt(
                    String::from_str("Invalid Scrypt parameters: InvalidParams"),
                ),
            );
        },
    };
    let mut record: Vec<u8> = Vec::new();
    record.extend_from_slice(scrypt_prefix_bytes());
    let salt_text = base64_standard(salt.as_slice());
    record.extend_from_slice(salt_text.as_slice());
    record.push(36u8);
    let key_text = base64_standard(key.as_slice());
    record.extend_from_slice(key_text.as_slice());
    assert(record@ =~= scrypt_digest_of(data@, salt@));
    Ok(record)
}

/// The digest of a message as the provider returns it.
pub fn digest_bytes(data: &[u8], algorithm: Algorithm) -> (res: Result<Vec<u8>, HashError>)
    ensures
        res is Ok,
        is_digest(algorithm, data@, res->Ok_0@),
        res->Ok_0@.len() == algorithm.digest_size(),
{
    match algorithm {
        Algorithm::Md5 => Ok(md5_digest(data)),
        Algorithm::Sha256 => Ok(sha256_digest(data)),
        Algorithm::Sha3_512 => Ok(sha3_512_digest(data)),
        Algorithm::Scrypt => scrypt_digest(data),
    }
}

/// The digest of a password: of the bytes of its UTF-8 text.
pub fn compute_hash(password: &str, algorithm: Algorithm) -> (res: Result<Vec<u8>, HashError>)
    ensures
        res is Ok,
        is_digest(algorithm, encode_utf8(password@), res->Ok_0@),
        res->Ok_0@.len() == algorithm.digest_size(),
{
    digest_bytes(password.as_bytes(), algorithm)
}

/// The version of the layout of a file of digests.
pub const HASH_FILE_VERSION: u8 = 1;

/// A file of digests: the version, the algorithm's name with its length
/// before it, the low byte of the password length, then the digests.
pub open spec fn hash_file_bytes(
    algorithm: Algorithm,
    password_length: nat,
    digests: Seq<Seq<u8>>,
) -> Seq<u8> {
    seq![HASH_FILE_VERSION] + seq![algorithm.name_bytes().len() as u8] + algorithm.name_bytes()
        + seq![(password_length % 256) as u8] + joined(digests)
}

/// Whether every digest has the size of the algorithm.
pub open spec fn digests_fit(algorithm: Algorithm, digests: Seq<Seq<u8>>) -> bool {
    forall|i: int| 0 <= i < digests.len() ==> (#[trigger] digests[i]).len() == algorithm.digest_size()
}

/// The file of some digests. A digest of another size than the algorithm's
/// is refused.
pub fn encode_hash_file(algorithm: Algorithm, password_length: usize, hashes: &Vec<Vec<u8>>) -> (res:
    Result<Vec<u8>, HashError>)
    ensures
        match res {
            Ok(bytes) => digests_fit(algorithm, byte_views(hashes@)) && bytes@ == hash_file_bytes(
                algorithm,
                password_length as nat,
                byte_views(hashes@),
            ),
            Err(e) => !digests_fit(algorithm, byte_views(hashes@)) && e@
                == HashFault::InvalidAlgorithm,
        },
{
    proof {
        algorithm.lemma_names();
    }
    let name = algorithm.name().as_bytes();
    let hash_size = algorithm.hash_size();
    let mut out: Vec<u8> = Vec::new();
    out.push(HASH_FILE_VERSION);
    out.push(name.len() as u8);
    out.extend_from_slice(name);
    out.push((password_length % 256) as u8);
    let ghost head = out@;
    let ghost digests = byte_views(hashes@);
    let mut k: usize = 0;
    assert(digests.take(0) =~= Seq::<Seq<u8>>::empty());
    while k < hashes.len()
        invariant
            k <= hashes@.len(),
            digests == byte_views(hashes@),
            hash_size == algorithm.digest_size(),
            forall|j: int| 0 <= j < k ==> (#[trigger] digests[j]).len() == algorithm.digest_size(),
            out@ == head + joined(digests.take(k as int)),
        decreases hashes@.len() - k,
    {
        if hashes[k].len() != hash_size {
            assert(digests[k as int].len() != algorithm.digest_size());
            return Err(HashError::InvalidAlgorithm);
        }
        out.extend_from_slice(hashes[k].as_slice());
        proof {
            assert(digests.take(k + 1).drop_last() =~= digests.take(k as int));
            assert(digests.take(k + 1).last() == digests[k as int]);
            assert(out@ =~= head + joined(digests.take(k + 1)));
        }
        k += 1;
    }
    proof {
        assert(digests.take(k as int) =~= digests);
        assert(head =~= seq![HASH_FILE_VERSION] + seq![algorithm.name_bytes().len() as u8]
            + algorithm.name_bytes() + seq![(password_length % 256) as u8]);
    }
    Ok(out)
}

/// The length in bytes of the first password, which the header of a file of
/// digests names. An empty list is refused.
pub fn first_password_length(passwords: &Vec<String>) -> (res: Result<usize, HashError>)
    ensures
        match res {
            Ok(length) => passwords@.len() > 0 && length == encode_utf8(passwords@[0]@).len(),
            Err(e) => passwords@.len() == 0 && e@ == HashFault::InvalidAlgorithm,
        },
{
    if passwords.len() == 0 {
        return Err(HashError::InvalidAlgorithm);
    }
    Ok(passwords[0].as_str().as_bytes().len())
}

/// The file of the digests of a list of passwords: each digest has the size
/// of the algorithm, and they stand in the order of the passwords. An empty
/// list is refused. The header names the length of the first password.
pub fn generate_hashes(passwords: &Vec<String>, algorithm: Algorithm) -> (res: Result<
    Vec<u8>,
    HashError,
>)
    ensures
        passwords@.len() == 0 ==> res is Err && res->Err_0@ == HashFault::InvalidAlgorithm,
        passwords@.len() > 0 ==> res is Ok && exists|digests: Seq<Seq<u8>>|
            {
                &&& digests.len() == passwords@.len()
                &&& digests_fit(algorithm, digests)
                &&& forall|i: int|
                    0 <= i < digests.len() ==> is_digest(
                        algorithm,
                        encode_utf8(passwords@[i]@),
                        #[trigger] digests[i],
                    )
                &&& res->Ok_0@ == #[trigger] hash_file_bytes(
                    algorithm,
                    encode_utf8(passwords@[0]@).len(),
                    digests,
                )
            },
{
    let first_len = first_password_length(passwords)?;
    let mut hashes: Vec<Vec<u8>> = Vec::new();
    let mut i: usize = 0;
    while i < passwords.len()
        invariant
            i <= passwords@.len(),
            hashes@.len() == i,
            forall|k: int|
                0 <= k < i ==> is_digest(
                    algorithm,
                    encode_utf8(passwords@[k]@),
                    (#[trigger] hashes@[k])@,
                ) && hashes@[k]@.len() == algorithm.digest_size(),
        decreases passwords@.len() - i,
    {
        let hash = compute_hash(passwords[i].as_str(), algorithm)?;
        hashes.push(hash);
        i += 1;
    }
    let ghost digests = byte_views(hashes@);
    assert(digests_fit(algorithm, digests)) by {
        assert forall|k: int| 0 <= k < digests.len() implies (#[trigger] digests[k]).len()
            == algorithm.digest_size() by {
            assert(hashes@[k]@.len() == algorithm.digest_size());
        }
    }
    let res = encode_hash_file(algorithm, first_len, &hashes);
    proof {
        assert forall|k: int| 0 <= k < digests.len() implies is_digest(
            algorithm,
            encode_utf8(passwords@[k]@),
            #[trigger] digests[k],
        ) by {
            assert(digests[k] == hashes@[k]@);
        }
        assert(res->Ok_0@ == hash_file_bytes(
            algorithm,
            encode_utf8(passwords@[0]@).len(),
            digests,
        ));
    }
    res
}

} // verus!
