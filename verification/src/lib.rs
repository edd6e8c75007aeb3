//! Rainbow tables over fixed-length passwords: digest provider, reduction,
//! chain construction, the table's binary layout and the guess-and-verify
//! lookup that recovers plaintexts from digests.
#![allow(non_camel_case_types)]

pub mod bytes;
pub mod dump;
pub mod hashing;
pub mod password;
pub mod rainbow;
pub mod text;

pub use dump::dump_hashes;
pub use hashing::{compute_hash, generate_hashes, Algorithm, HashError};
pub use password::{generate_passwords, read_passwords, PasswordError};
pub use rainbow::{crack, dump_rainbow_table, generate_rainbow_table, RainbowError};
