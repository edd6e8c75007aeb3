//! Table generation: from a list of passwords to the bytes of a table file.
use vstd::prelude::*;
use vstd::utf8::*;
use crate::hashing::Algorithm;
use crate::password::byte_len;
use crate::rainbow::chain::{build_chains, chain_views, password_bytes, ChainRule, ChainView};
use crate::rainbow::codec::{encode_table, table_bytes, RainbowTable, TableView};
use crate::rainbow::error::{RainbowError, RainbowFault};
use crate::rainbow::reduce::{ascii_charset, is_ascii_bytes};

verus! {

/// The length in bytes that all passwords of a list share, or why the list
/// is refused: it is empty, or its passwords differ in length.
pub open spec fn shared_length(passwords: Seq<String>) -> Result<nat, RainbowFault> {
    if passwords.len() == 0 {
        Err(RainbowFault::EmptyInput)
    } else if exists|i: int|
        0 <= i < passwords.len() && byte_len((#[trigger] passwords[i])@) != byte_len(
            passwords[0]@,
        ) {
        Err(RainbowFault::VaryingLengths)
    } else {
        Ok(byte_len(passwords[0]@))
    }
}

/// Checks a list of passwords and gives the length that they share.
pub fn check_passwords(passwords: &Vec<String>) -> (res: Result<usize, RainbowError>)
    ensures
        match res {
            Ok(length) => shared_length(passwords@) == Ok::<nat, RainbowFault>(length as nat),
            Err(e) => shared_length(passwords@) == Err::<nat, RainbowFault>(e@),
        },
{
    if passwords.len() == 0 {
        return Err(RainbowError::EmptyInput);
    }
    let length: usize = passwords[0].as_str().as_bytes().len();
    let mut i: usize = 0;
    while i < passwords.len()
        invariant
            i <= passwords@.len(),
            passwords@.len() > 0,
            length == byte_len(passwords@[0]@),
            forall|k: int| 0 <= k < i ==> byte_len((#[trigger] passwords@[k])@) == length,
        decreases passwords@.len() - i,
    {
        if passwords[i].as_str().as_bytes().len() != length {
            assert(byte_len(passwords@[i as int]@) != byte_len(passwords@[0]@));
            return Err(RainbowError::VaryingLengths);
        }
        i += 1;
    }
    Ok(length)
}

/// The file of the table that a list of passwords gives under a
/// deterministic algorithm, or under any algorithm without links, or the
/// failure of the generation: that of the
/// password check, else that of the first chain that fails, else that of a
/// password length too large for the header.
pub open spec fn generated(
    passwords: Seq<String>,
    algorithm: Algorithm,
    num_links: nat,
    charset_size: u128,
    unicode_offset: u128,
) -> Result<Seq<u8>, RainbowFault>
    recommends
        algorithm.is_deterministic() || num_links == 0,
{
    match shared_length(passwords) {
        Err(fault) => Err(fault),
        Ok(length) => {
            let rule = ChainRule {
                algorithm,
                password_length: length as usize,
                charset_size,
                unicode_offset,
            };
            match rule.chains_of(password_bytes(passwords), num_links, passwords.len()) {
                Err(fault) => Err(fault),
                Ok(chains) => if length > 255 {
                    Err(RainbowFault::InvalidHeader)
                } else {
                    Ok(table_bytes(TableView { rule, num_links: num_links as u128, chains }))
                },
            }
        },
    }
}

/// Generates the file of a rainbow table: one chain of `num_links` links for
/// each password, in the order of the passwords, behind the header. An empty
/// list and passwords of differing lengths are refused before anything is
/// hashed.
pub fn generate_rainbow_table(
    passwords: &Vec<String>,
    algorithm: Algorithm,
    num_links: usize,
    charset_size: u128,
    unicode_offset: u128,
) -> (res: Result<Vec<u8>, RainbowError>)
    ensures
        shared_length(passwords@) is Err ==> res is Err && shared_length(passwords@) == Err::<
            nat,
            RainbowFault,
        >(res->Err_0@),
        algorithm.is_deterministic() || num_links == 0 ==> match res {
            Ok(bytes) => generated(
                passwords@,
                algorithm,
                num_links as nat,
                charset_size,
                unicode_offset,
            ) == Ok::<Seq<u8>, RainbowFault>(bytes@),
            Err(e) => generated(
                passwords@,
                algorithm,
                num_links as nat,
                charset_size,
                unicode_offset,
            ) == Err::<Seq<u8>, RainbowFault>(e@),
        },
        shared_length(passwords@) is Ok ==> match res {
            Ok(bytes) => shared_length(passwords@)->Ok_0 <= 255 && exists|table: TableView|
                {
                    &&& #[trigger] table_bytes(table) == bytes@
                    &&& table.rule == (ChainRule {
                        algorithm,
                        password_length: shared_length(passwords@)->Ok_0 as usize,
                        charset_size,
                        unicode_offset,
                    })
                    &&& table.num_links == num_links
                    &&& table.wf()
                    &&& table.chains.len() == passwords@.len()
                    &&& num_links > 0 ==> forall|i: int|
                        0 <= i < passwords@.len() ==> is_ascii_bytes(
                            (#[trigger] table.chains[i]).end,
                        )
                    &&& forall|i: int|
                        0 <= i < passwords@.len() ==> (#[trigger] table.chains[i]).start
                            == encode_utf8(passwords@[i]@) && table.rule.may_walk(
                            table.chains[i].start,
                            num_links as nat,
                            table.chains[i].end,
                        )
                },
            Err(e) => e is UnicodeError || e is InvalidHeader,
        },
        shared_length(passwords@) is Ok && shared_length(passwords@)->Ok_0 <= 255 && (num_links
            == 0 || shared_length(passwords@)->Ok_0 == 0 || ascii_charset(
            charset_size,
            unicode_offset,
        )) ==> res is Ok,
{
    let password_length = check_passwords(passwords)?;
    let rule = ChainRule { algorithm, password_length, charset_size, unicode_offset };
    let chains = build_chains(passwords, &rule, num_links as u128)?;
    let table = RainbowTable { rule, num_links: num_links as u128, chains };
    let res = encode_table(&table);
    proof {
        if res is Ok {
            assert(table_bytes(table@) == res->Ok_0@);
            assert forall|i: int| 0 <= i < table@.chains.len() implies (#[trigger] table@.chains[i]).start.len()
                == password_length && table@.chains[i].end.len() == password_length by {
                assert(table@.chains[i] == table.chains@[i]@);
                assert(byte_len(passwords@[i]@) == password_length);
            }
            assert(table@.wf());
            if num_links > 0 {
                assert forall|i: int| 0 <= i < passwords@.len() implies is_ascii_bytes(
                    (#[trigger] table@.chains[i]).end,
                ) by {
                    assert(table@.chains[i] == table.chains@[i]@);
                }
            }
            assert forall|i: int| 0 <= i < passwords@.len() implies (#[trigger] table@.chains[i]).start
                == encode_utf8(passwords@[i]@) && table@.rule.may_walk(
                table@.chains[i].start,
                num_links as nat,
                table@.chains[i].end,
            ) by {
                assert(table@.chains[i] == table.chains@[i]@);
            }
        }
    }
    res
}

} // verus!
