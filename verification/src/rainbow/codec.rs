//! The rainbow table and its binary layout: a header of fixed order, then
//! one record of start and end for each chain.
use vstd::prelude::*;
use vstd::string::*;
use vstd::utf8::*;
use vstd::slice::slice_subrange;
use crate::bytes::{be_bytes, be_value, bytes_equal, copy_range, lemma_be_value_bound, lemma_radix_16, push_be, read_be};
use crate::hashing::Algorithm;
use crate::rainbow::chain::{chain_views, Chain, ChainRule, ChainView};
use crate::rainbow::error::{RainbowError, RainbowFault};

verus! {

/// A rainbow table: how its chains were made, and the chains.
#[derive(Clone, Debug, PartialEq, Eq)]
pub struct RainbowTable {
    pub rule: ChainRule,
    pub num_links: u128,
    pub chains: Vec<Chain>,
}

/// A rainbow table with its chains as pairs of byte sequences.
pub struct TableView {
    pub rule: ChainRule,
    pub num_links: u128,
    pub chains: Seq<ChainView>,
}

impl View for RainbowTable {
    type V = TableView;

    open spec fn view(&self) -> TableView {
        TableView { rule: self.rule, num_links: self.num_links, chains: chain_views(self.chains@) }
    }
}

/// Whether the start and the end of every chain have this length.
pub open spec fn chains_fit(chains: Seq<ChainView>, length: nat) -> bool {
    forall|i: int|
        0 <= i < chains.len() ==> (#[trigger] chains[i]).start.len() == length
            && chains[i].end.len() == length
}

impl TableView {
    /// The table's invariant: every chain's start and end have the password
    /// length.
    pub open spec fn wf(self) -> bool {
        chains_fit(self.chains, self.rule.password_length as nat)
    }
}

/// The version of the layout.
pub const VERSION: u8 = 1;

/// The marker that a table file begins with: the text `rainbowtable`.
pub open spec fn magic() -> Seq<u8> {
    seq![114u8, 97u8, 105u8, 110u8, 98u8, 111u8, 119u8, 116u8, 97u8, 98u8, 108u8, 101u8]
}

/// The header of a table whose password length fits into one byte.
pub open spec fn header_bytes(rule: ChainRule, num_links: u128) -> Seq<u8>
    recommends
        rule.password_length <= 255,
{
    magic() + seq![VERSION] + seq![rule.algorithm.name_bytes().len() as u8]
        + rule.algorithm.name_bytes() + seq![rule.password_length as u8] + be_bytes(
        rule.charset_size as nat,
        16,
    ) + be_bytes(num_links as nat, 16) + be_bytes(rule.unicode_offset as nat, 16)
}

/// The records of the chains in their order: each start, then its end.
pub open spec fn record_bytes(chains: Seq<ChainView>) -> Seq<u8>
    decreases chains.len(),
{
    if chains.len() == 0 {
        Seq::empty()
    } else {
        chains[0].start + chains[0].end + record_bytes(chains.drop_first())
    }
}

/// The whole file of a table.
pub open spec fn table_bytes(table: TableView) -> Seq<u8>
    recommends
        table.rule.password_length <= 255,
{
    header_bytes(table.rule, table.num_links) + record_bytes(table.chains)
}

/// What a header says, and how many bytes it takes.
#[derive(Clone, Copy, Debug, PartialEq, Eq, Structural)]
pub struct Header {
    pub rule: ChainRule,
    pub num_links: u128,
    pub size: usize,
}

/// What the header at the front of a file says, or why it is refused: a
/// wrong marker, a wrong version or a header cut short, an unknown algorithm
/// name.
pub open spec fn parsed_header(bytes: Seq<u8>) -> Result<Header, RainbowFault> {
    if bytes.len() < 12 || bytes.subrange(0, 12) != magic() {
        Err(RainbowFault::InvalidMagic)
    } else if bytes.len() < 13 || bytes[12] != VERSION {
        Err(RainbowFault::InvalidHeader)
    } else if bytes.len() < 14 || bytes.len() < 14 + bytes[13] {
        Err(RainbowFault::InvalidHeader)
    } else {
        let at = 14 + bytes[13] as int;
        match Algorithm::named_bytes(bytes.subrange(14, at)) {
            None => Err(RainbowFault::InvalidAlgorithm),
            Some(algorithm) => if bytes.len() < at + 49 {
                Err(RainbowFault::InvalidHeader)
            } else {
                Ok(
                    Header {
                        rule: ChainRule {
                            algorithm,
                            password_length: bytes[at] as usize,
                            charset_size: be_value(bytes.subrange(at + 1, at + 17)) as u128,
                            unicode_offset: be_value(bytes.subrange(at + 33, at + 49)) as u128,
                        },
                        num_links: be_value(bytes.subrange(at + 17, at + 33)) as u128,
                        size: (at + 49) as usize,
                    },
                )
            },
        }
    }
}

/// The complete records at the front of the data, in their order. What is
/// left behind them and is shorter than one record is dropped; records of no
/// bytes are none.
pub open spec fn records_in(data: Seq<u8>, length: nat) -> Seq<ChainView>
    decreases data.len(),
{
    if length == 0 || data.len() < 2 * length {
        Seq::empty()
    } else {
        seq![
            ChainView {
                start: data.subrange(0, length as int),
                end: data.subrange(length as int, 2 * length as int),
            },
        ] + records_in(data.skip(2 * length as int), length)
    }
}

/// The table that a file holds.
pub open spec fn parsed(bytes: Seq<u8>) -> Result<TableView, RainbowFault> {
    match parsed_header(bytes) {
        Err(fault) => Err(fault),
        Ok(header) => Ok(
            TableView {
                rule: header.rule,
                num_links: header.num_links,
                chains: records_in(
                    bytes.skip(header.size as int),
                    header.rule.password_length as nat,
                ),
            },
        ),
    }
}

/// The records that are read have the asked length.
pub proof fn lemma_records_fit(data: Seq<u8>, length: nat)
    ensures
        chains_fit(records_in(data, length), length),
    decreases data.len(),
{
    if !(length == 0 || data.len() < 2 * length) {
        lemma_records_fit(data.skip(2 * length as int), length);
    }
}

/// The records of a list with one more chain at its end.
pub proof fn lemma_record_bytes_push(chains: Seq<ChainView>, last: ChainView)
    ensures
        record_bytes(chains.push(last)) == record_bytes(chains) + last.start + last.end,
    decreases chains.len(),
{
    if chains.len() == 0 {
        let none = Seq::<ChainView>::empty();
        assert(chains.push(last).drop_first() =~= none);
        assert(record_bytes(none) =~= Seq::<u8>::empty());
        assert(record_bytes(chains) =~= Seq::<u8>::empty());
        assert(record_bytes(chains.push(last)) == last.start + last.end + record_bytes(none));
        assert(record_bytes(chains.push(last)) =~= record_bytes(chains) + last.start + last.end);
    } else {
        lemma_record_bytes_push(chains.drop_first(), last);
        assert(chains.push(last).drop_first() =~= chains.drop_first().push(last));
        assert(record_bytes(chains.push(last)) =~= record_bytes(chains) + last.start + last.end);
    }
}

/// The marker that a table file begins with.
pub fn magic_word() -> (word: &'static [u8])
    ensures
        word@ == magic(),
{
    let text: &'static str = "rainbowtable";
    proof {
        reveal_strlit("rainbowtable");
        assert(is_ascii_chars(text@));
        is_ascii_chars_encode_utf8(text@);
        assert(encode_utf8(text@) =~= magic());
    }
    text.as_bytes()
}

/// Appends the header of a table. A password length that does not fit into
/// one byte is refused, and nothing is appended.
pub fn write_header(out: &mut Vec<u8>, rule: &ChainRule, num_links: u128) -> (res: Result<
    (),
    RainbowError,
>)
    ensures
        match res {
            Ok(_) => rule.password_length <= 255 && final(out)@ == old(out)@ + header_bytes(
                *rule,
                num_links,
            ),
            Err(e) => rule.password_length > 255 && e@ == RainbowFault::InvalidHeader
                && final(out)@ == old(out)@,
        },
{
    if rule.password_length > 255 {
        return Err(RainbowError::InvalidHeader);
    }
    proof {
        rule.algorithm.lemma_names();
    }
    let name = rule.algorithm.name().as_bytes();
    out.extend_from_slice(magic_word());
    out.push(VERSION);
    out.push(name.len() as u8);
    out.extend_from_slice(name);
    out.push(rule.password_length as u8);
    push_be(out, rule.charset_size, 16);
    push_be(out, num_links, 16);
    push_be(out, rule.unicode_offset, 16);
    assert(out@ =~= old(out)@ + header_bytes(*rule, num_links));
    Ok(())
}

/// The file of a table: its header, then its chains in their order.
pub fn encode_table(table: &RainbowTable) -> (res: Result<Vec<u8>, RainbowError>)
    ensures
        match res {
            Ok(bytes) => table.rule.password_length <= 255 && bytes@ == table_bytes(table@),
            Err(e) => table.rule.password_length > 255 && e@ == RainbowFault::InvalidHeader,
        },
{
    let mut out: Vec<u8> = Vec::new();
    write_header(&mut out, &table.rule, table.num_links)?;
    let ghost header = out@;
    let ghost views = chain_views(table.chains@);
    let mut i: usize = 0;
    assert(views.take(0) =~= Seq::<ChainView>::empty());
    while i < table.chains.len()
        invariant
            i <= table.chains@.len(),
            views == chain_views(table.chains@),
            out@ == header + record_bytes(views.take(i as int)),
        decreases table.chains@.len() - i,
    {
        out.extend_from_slice(table.chains[i].start.as_slice());
        out.extend_from_slice(table.chains[i].end.as_slice());
        proof {
            lemma_record_bytes_push(views.take(i as int), views[i as int]);
            assert(views.take(i + 1) =~= views.take(i as int).push(views[i as int]));
            assert(out@ =~= header + record_bytes(views.take(i + 1)));
        }
        i += 1;
    }
    assert(views.take(i as int) =~= views);
    Ok(out)
}

/// Reads the header at the front of a table file.
pub fn parse_header(bytes: &[u8]) -> (res: Result<Header, RainbowError>)
    ensures
        match res {
            Ok(header) => parsed_header(bytes@) == Ok::<Header, RainbowFault>(header),
            Err(e) => parsed_header(bytes@) == Err::<Header, RainbowFault>(e@),
        },
        res is Ok ==> res->Ok_0.size <= bytes@.len() && res->Ok_0.rule.password_length <= 255,
{
    if bytes.len() < 12 || !bytes_equal(slice_subrange(bytes, 0, 12), magic_word()) {
        return Err(RainbowError::InvalidMagic);
    }
    if bytes.len() < 13 || bytes[12] != VERSION {
        return Err(RainbowError::InvalidHeader);
    }
    if bytes.len() < 14 || bytes.len() - 14 < bytes[13] as usize {
        return Err(RainbowError::InvalidHeader);
    }
    let at: usize = 14 + bytes[13] as usize;
    let algorithm = match Algorithm::from_bytes(slice_subrange(bytes, 14, at)) {
        Some(algorithm) => algorithm,
        None => {
            return Err(RainbowError::InvalidAlgorithm);
        },
    };
    if bytes.len() - at < 49 {
        return Err(RainbowError::InvalidHeader);
    }
    let password_length: usize = bytes[at] as usize;
    let charset_size = read_be(slice_subrange(bytes, at + 1, at + 17));
    let num_links = read_be(slice_subrange(bytes, at + 17, at + 33));
    let unicode_offset = read_be(slice_subrange(bytes, at + 33, at + 49));
    Ok(
        Header {
            rule: ChainRule { algorithm, password_length, charset_size, unicode_offset },
            num_links,
            size: at + 49,
        },
    )
}

/// Reads the complete records at the front of the data.
pub fn parse_records(data: &[u8], length: usize) -> (chains: Vec<Chain>)
    requires
        2 * length <= usize::MAX,
    ensures
        chain_views(chains@) == records_in(data@, length as nat),
{
    let mut chains: Vec<Chain> = Vec::new();
    if length == 0 {
        assert(chain_views(chains@) =~= records_in(data@, length as nat));
        return chains;
    }
    let mut cursor: usize = 0;
    assert(data@.skip(0) =~= data@);
    assert(chain_views(chains@) + records_in(data@.skip(0), length as nat) =~= records_in(
        data@,
        length as nat,
    ));
    while data.len() - cursor >= 2 * length
        invariant
            0 < length,
            2 * length <= usize::MAX,
            cursor <= data@.len(),
            chain_views(chains@) + records_in(data@.skip(cursor as int), length as nat)
                == records_in(data@, length as nat),
        decreases data@.len() - cursor,
    {
        let ghost before = chain_views(chains@);
        let ghost rest = data@.skip(cursor as int);
        let start = copy_range(data, cursor, cursor + length);
        let end = copy_range(data, cursor + length, cursor + 2 * length);
        let chain = Chain { start, end };
        proof {
            assert(chain@.start =~= rest.subrange(0, length as int));
            assert(chain@.end =~= rest.subrange(length as int, 2 * length));
            assert(rest.skip(2 * length) =~= data@.skip(cursor + 2 * length));
        }
        chains.push(chain);
        proof {
            assert(chain_views(chains@) =~= before.push(chain@));
            assert(chain_views(chains@) + records_in(
                data@.skip(cursor + 2 * length),
                length as nat,
            ) =~= before + records_in(rest, length as nat));
        }
        cursor += 2 * length;
    }
    assert(chain_views(chains@) =~= records_in(data@, length as nat));
    chains
}

/// Reads a table file: the header, which must be whole and valid, then the
/// chain records up to the last complete one.
pub fn parse_rainbow(bytes: &[u8]) -> (res: Result<RainbowTable, RainbowError>)
    ensures
        match res {
            Ok(table) => parsed(bytes@) == Ok::<TableView, RainbowFault>(table@),
            Err(e) => parsed(bytes@) == Err::<TableView, RainbowFault>(e@),
        },
        res is Ok ==> res->Ok_0@.wf(),
{
    let header = parse_header(bytes)?;
    let data = slice_subrange(bytes, header.size, bytes.len());
    let chains = parse_records(data, header.rule.password_length);
    proof {
        assert(data@ =~= bytes@.skip(header.size as int));
        lemma_records_fit(data@, header.rule.password_length as nat);
    }
    Ok(RainbowTable { rule: header.rule, num_links: header.num_links, chains })
}

} // verus!
