//! What holds of the table operations together.
use vstd::prelude::*;
use vstd::utf8::*;
use crate::bytes::{be_bytes, be_value, lemma_be_bytes_len, lemma_be_round_trip, lemma_chunks_of_joined, lemma_radix_16};
use crate::hashing::{digest_of, digests_fit, hash_file_bytes, Algorithm};
use crate::rainbow::batch::parsed_hash_file;
use crate::rainbow::crack::BatchView;
use crate::rainbow::chain::{ChainRule, ChainView};
use crate::rainbow::codec::{chains_fit, header_bytes, magic, parsed, parsed_header, record_bytes, records_in, table_bytes, Header, TableView};
use crate::rainbow::crack::Lookup;
use crate::rainbow::dump::{chain_line, dump_lines, header_lines};
use crate::rainbow::error::RainbowFault;
use crate::text::shown_text;
use crate::rainbow::index::{end_map, lemma_end_map_last, lemma_end_map_source};

verus! {

/// The records of chains of one positive length are read back as the same
/// chains.
pub proof fn lemma_records_round_trip(chains: Seq<ChainView>, length: nat)
    requires
        length > 0,
        chains_fit(chains, length),
    ensures
        records_in(record_bytes(chains), length) == chains,
        record_bytes(chains).len() == 2 * length * chains.len(),
    decreases chains.len(),
{
    if chains.len() == 0 {
        assert(records_in(record_bytes(chains), length) =~= chains);
    } else {
        let rest = chains.drop_first();
        assert(chains_fit(rest, length)) by {
            assert forall|i: int| 0 <= i < rest.len() implies (#[trigger] rest[i]).start.len()
                == length && rest[i].end.len() == length by {
                assert(rest[i] == chains[i + 1]);
            }
        }
        lemma_records_round_trip(rest, length);
        let data = record_bytes(chains);
        assert(chains[0].start.len() == length && chains[0].end.len() == length);
        assert(data.subrange(0, length as int) =~= chains[0].start);
        assert(data.subrange(length as int, 2 * length as int) =~= chains[0].end);
        assert(data.skip(2 * length as int) =~= record_bytes(rest));
        assert(records_in(data, length) =~= chains);
        assert(2 * length * chains.len() == 2 * length * rest.len() + 2 * length)
            by (nonlinear_arith)
            requires
                chains.len() == rest.len() + 1,
        ;
    }
}

/// The header that is written is read back as it was.
pub proof fn lemma_header_round_trip(rule: ChainRule, num_links: u128, rest: Seq<u8>)
    requires
        rule.password_length <= 255,
    ensures
        header_bytes(rule, num_links).len() <= 71,
        parsed_header(header_bytes(rule, num_links) + rest) == Ok::<Header, RainbowFault>(
            Header { rule, num_links, size: header_bytes(rule, num_links).len() as usize },
        ),
{
    let name = rule.algorithm.name_bytes();
    let header = header_bytes(rule, num_links);
    let bytes = header + rest;
    rule.algorithm.lemma_names();
    lemma_radix_16();
    lemma_be_bytes_len(rule.charset_size as nat, 16);
    lemma_be_bytes_len(num_links as nat, 16);
    lemma_be_bytes_len(rule.unicode_offset as nat, 16);
    lemma_be_round_trip(rule.charset_size as nat, 16);
    lemma_be_round_trip(num_links as nat, 16);
    lemma_be_round_trip(rule.unicode_offset as nat, 16);
    let at = 14 + name.len() as int;
    assert(header.len() == at + 49);
    assert(bytes.subrange(0, 12) =~= magic());
    assert(bytes[12] == 1u8);
    assert(bytes[13] == name.len() as u8);
    assert(bytes.subrange(14, at) =~= name);
    assert(bytes[at] == rule.password_length as u8);
    assert(bytes.subrange(at + 1, at + 17) =~= be_bytes(rule.charset_size as nat, 16));
    assert(bytes.subrange(at + 17, at + 33) =~= be_bytes(num_links as nat, 16));
    assert(bytes.subrange(at + 33, at + 49) =~= be_bytes(rule.unicode_offset as nat, 16));
}

/// Writing a table and reading the file gives the table back: the same
/// algorithm, password length, charset size, number of links and offset, and
/// the same chains in the same order, hence the same index from ends to
/// starts. The password length must fit into the header's byte; a table
/// with chains must have a positive password length, as records of no bytes
/// cannot be counted.
pub proof fn law_table_round_trip(table: TableView)
    requires
        table.wf(),
        table.rule.password_length <= 255,
        table.rule.password_length > 0 || table.chains.len() == 0,
    ensures
        parsed(table_bytes(table)) == Ok::<TableView, RainbowFault>(table),
        parsed(table_bytes(table))->Ok_0.lookup() == table.lookup(),
{
    let header = header_bytes(table.rule, table.num_links);
    let records = record_bytes(table.chains);
    let length = table.rule.password_length as nat;
    lemma_header_round_trip(table.rule, table.num_links, records);
    assert(table_bytes(table).skip(header.len() as int) =~= records);
    if length > 0 {
        lemma_records_round_trip(table.chains, length);
    } else {
        assert(records_in(records, length) =~= table.chains);
    }
}

/// The listing of a written table shows the table: seven lines for what the
/// header says, then one line for each chain in the order of the chains,
/// start and end with a tab between them; a start or an end that is
/// well-formed UTF-8 shows as its characters. The conditions are those of
/// the round trip.
pub proof fn law_listing_shows_the_table(table: TableView)
    requires
        table.wf(),
        table.rule.password_length <= 255,
        table.rule.password_length > 0 || table.chains.len() == 0,
    ensures
        parsed(table_bytes(table)) is Ok,
        dump_lines(parsed(table_bytes(table))->Ok_0) == dump_lines(table),
        dump_lines(table).len() == 7 + table.chains.len(),
        dump_lines(table).subrange(0, 7) == header_lines(table),
        forall|i: int|
            0 <= i < table.chains.len() ==> #[trigger] dump_lines(table)[7 + i] == chain_line(
                table.chains[i],
            ),
        forall|i: int|
            0 <= i < table.chains.len() && valid_utf8(table.chains[i].start) && valid_utf8(
                table.chains[i].end,
            ) ==> #[trigger] dump_lines(table)[7 + i] == decode_utf8(table.chains[i].start)
                + "\t"@ + decode_utf8(table.chains[i].end),
{
    law_table_round_trip(table);
    assert(dump_lines(table).subrange(0, 7) =~= header_lines(table));
}

/// A file of digests is read back as the batch it was written from: the
/// same algorithm, and the same digests in the same order, as long as each
/// digest has the size of the algorithm.
pub proof fn law_hash_file_round_trip(
    algorithm: Algorithm,
    password_length: nat,
    digests: Seq<Seq<u8>>,
)
    requires
        digests_fit(algorithm, digests),
    ensures
        parsed_hash_file(hash_file_bytes(algorithm, password_length, digests)) == Ok::<
            BatchView,
            RainbowFault,
        >(BatchView { algorithm, digests }),
{
    let name = algorithm.name_bytes();
    let bytes = hash_file_bytes(algorithm, password_length, digests);
    algorithm.lemma_names();
    lemma_chunks_of_joined(digests, algorithm.digest_size());
    let at = 3 + name.len() as int;
    assert(bytes[0] == 1u8);
    assert(bytes[1] == name.len() as u8);
    assert(bytes.subrange(2, 2 + name.len() as int) =~= name);
    assert(bytes.skip(at) =~= crate::bytes::joined(digests));
}

/// A chain without links ends where it starts.
pub proof fn law_no_links_no_change(rule: ChainRule, start: Seq<u8>)
    ensures
        rule.chain_of(start, 0) == Ok::<ChainView, RainbowFault>(ChainView { start, end: start }),
{
}

impl ChainRule {
    /// A walk that succeeds has succeeded at every link before.
    pub proof fn lemma_walk_prefix(self, start: Seq<u8>, k: nat, n: nat)
        requires
            k <= n,
            self.walk(start, n) is Ok,
        ensures
            self.walk(start, k) is Ok,
    {
        if self.walk(start, k) is Err {
            self.lemma_walk_failure_stays(start, k, n);
        }
    }

    /// What a replay finds has the target as its digest and lies on the
    /// chain, fewer links from the start than the replay may take.
    pub proof fn lemma_replay_finds_preimage(self, start: Seq<u8>, target: Seq<u8>, steps: nat)
        requires
            self.replay(start, target, steps) matches Ok(Some(_)),
        ensures
            digest_of(self.algorithm, self.replay(start, target, steps)->Ok_0->0) == target,
            exists|k: nat|
                k < steps && #[trigger] self.walk(start, k) == Ok::<Seq<u8>, RainbowFault>(
                    self.replay(start, target, steps)->Ok_0->0,
                ),
        decreases steps,
    {
        let found = self.replay(start, target, steps)->Ok_0->0;
        if digest_of(self.algorithm, start) == target {
            assert(self.walk(start, 0) == Ok::<Seq<u8>, RainbowFault>(found));
        } else {
            let next = self.step(start)->Ok_0;
            self.lemma_replay_finds_preimage(next, target, (steps - 1) as nat);
            let k = choose|k: nat|
                k < steps - 1 && #[trigger] self.walk(next, k) == Ok::<Seq<u8>, RainbowFault>(
                    found,
                );
            assert(self.walk(start, 1) == Ok::<Seq<u8>, RainbowFault>(next));
            self.lemma_walk_splits(start, 1, k);
            assert(self.walk(start, 1 + k) == Ok::<Seq<u8>, RainbowFault>(found));
        }
    }
}

impl Lookup {
    /// From the digest of a chain's start, `k` cycles lead to the digest of
    /// the password `k` links down the chain.
    pub proof fn lemma_advance_follows_chain(self, start: Seq<u8>, k: nat)
        requires
            self.rule.walk(start, k) is Ok,
        ensures
            self.advance(digest_of(self.rule.algorithm, start), k) == Ok::<Seq<u8>, RainbowFault>(
                digest_of(self.rule.algorithm, self.rule.walk(start, k)->Ok_0),
            ),
        decreases k,
    {
        if k > 0 {
            self.rule.lemma_walk_prefix(start, (k - 1) as nat, k);
            self.lemma_advance_follows_chain(start, (k - 1) as nat);
        }
    }

    /// Every plaintext that the search gives has the target as its digest:
    /// what ends on a recorded chain end by a collision of the reduction is
    /// sorted out by the replay.
    pub proof fn law_results_are_preimages(self, target: Seq<u8>)
        requires
            self.rule.algorithm.is_deterministic(),
            self.cracked(target) is Some,
        ensures
            digest_of(self.rule.algorithm, self.cracked(target)->0) == target,
    {
        self.lemma_first_match(target, 0);
        let found = self.cracked(target)->0;
        let i = choose|i: nat|
            0 <= i < self.num_links && #[trigger] self.attempt(target, i) == Some(found);
        let end = self.candidate_end(target, i)->0;
        self.rule.lemma_replay_finds_preimage(
            self.index[end],
            target,
            (self.num_links - i) as nat,
        );
    }
}

/// Cracking finds the passwords of the table: where a table with at least
/// one link holds a chain that its links lead along from a password, and no
/// later chain of the table ends like it, the search for the digest of that password gives a
/// plaintext with this digest. The last position yields the password itself;
/// the plaintext is another one only where an earlier position yields
/// another password with the same digest.
pub proof fn law_crack_finds_table_passwords(table: TableView, i: int)
    requires
        table.rule.algorithm.is_deterministic(),
        table.num_links > 0,
        0 <= i < table.chains.len(),
        valid_utf8(table.chains[i].start),
        table.rule.may_walk(
            table.chains[i].start,
            table.num_links as nat,
            table.chains[i].end,
        ),
        forall|j: int|
            i < j < table.chains.len() ==> (#[trigger] table.chains[j]).end != table.chains[i].end,
    ensures
        table.lookup().attempt(
            digest_of(table.rule.algorithm, table.chains[i].start),
            (table.num_links - 1) as nat,
        ) == Some(table.chains[i].start),
        table.lookup().cracked(digest_of(table.rule.algorithm, table.chains[i].start)) is Some,
        digest_of(
            table.rule.algorithm,
            table.lookup().cracked(digest_of(table.rule.algorithm, table.chains[i].start))->0,
        ) == digest_of(table.rule.algorithm, table.chains[i].start),
{
    let lookup = table.lookup();
    let start = table.chains[i].start;
    let end = table.chains[i].end;
    let target = digest_of(table.rule.algorithm, start);
    let last = (table.num_links - 1) as nat;
    table.rule.lemma_may_walk_is_walk(start, table.num_links as nat, end);
    table.rule.lemma_walk_prefix(start, last, table.num_links as nat);
    lookup.lemma_advance_follows_chain(start, last);
    assert(lookup.candidate_end(target, last) == Some(end));
    lemma_end_map_last(table.chains, i);
    assert(table.rule.replay(start, target, 1) == Ok::<Option<Seq<u8>>, RainbowFault>(Some(start)));
    assert(lookup.attempt(target, last) == Some(start));
    lookup.lemma_first_match(target, 0);
    lookup.law_results_are_preimages(target);
}

/// Cracking finds the passwords that a table was generated from: where the
/// chains of some start passwords were built with at least one link, the
/// search in their table for the digest of a start password gives a
/// plaintext with this digest, as long as the start is text and no later
/// chain ends like its own.
pub proof fn law_crack_finds_generated_passwords(
    rule: ChainRule,
    starts: Seq<Seq<u8>>,
    num_links: u128,
    i: int,
)
    requires
        rule.algorithm.is_deterministic(),
        num_links > 0,
        rule.chains_of(starts, num_links as nat, starts.len()) is Ok,
        0 <= i < starts.len(),
        valid_utf8(starts[i]),
        forall|j: int|
            i < j < starts.len() ==> (#[trigger] rule.chains_of(
                starts,
                num_links as nat,
                starts.len(),
            )->Ok_0[j]).end != rule.chains_of(starts, num_links as nat, starts.len())->Ok_0[i].end,
    ensures
        ({
            let table = TableView {
                rule,
                num_links,
                chains: rule.chains_of(starts, num_links as nat, starts.len())->Ok_0,
            };
            let target = digest_of(rule.algorithm, starts[i]);
            &&& table.lookup().cracked(target) is Some
            &&& digest_of(rule.algorithm, table.lookup().cracked(target)->0) == target
        }),
{
    let chains = rule.chains_of(starts, num_links as nat, starts.len())->Ok_0;
    rule.lemma_chains_of(starts, num_links as nat, starts.len());
    assert(chains[i].start == starts[i]);
    rule.lemma_may_walk_is_walk(starts[i], num_links as nat, chains[i].end);
    law_crack_finds_table_passwords(TableView { rule, num_links, chains }, i);
}

/// Cracking rejects what the table cannot derive: a target that is the
/// digest of no password on any chain of the table, within the table's
/// number of links from the chain's start, is left without result, also
/// where its reductions lead to a recorded chain end.
pub proof fn law_crack_rejects_underivable(table: TableView, target: Seq<u8>)
    requires
        table.rule.algorithm.is_deterministic(),
        forall|j: int, k: nat|
            0 <= j < table.chains.len() && k < table.num_links ==> !(#[trigger] table.rule.walk(
                table.chains[j].start,
                k,
            ) matches Ok(password) && digest_of(table.rule.algorithm, password) == target),
    ensures
        table.lookup().cracked(target) is None,
{
    let lookup = table.lookup();
    if lookup.cracked(target) is Some {
        lookup.lemma_first_match(target, 0);
        let found = lookup.cracked(target)->0;
        let i = choose|i: nat|
            0 <= i < lookup.num_links && #[trigger] lookup.attempt(target, i) == Some(found);
        let end = lookup.candidate_end(target, i)->0;
        let start = lookup.index[end];
        let steps = (lookup.num_links - i) as nat;
        lemma_end_map_source(table.chains, end);
        let j = choose|j: int|
            0 <= j < table.chains.len() && (#[trigger] table.chains[j]).end == end
                && table.chains[j].start == end_map(table.chains)[end];
        table.rule.lemma_replay_finds_preimage(start, target, steps);
        let k = choose|k: nat|
            k < steps && #[trigger] table.rule.walk(start, k) == Ok::<Seq<u8>, RainbowFault>(
                found,
            );
        assert(table.rule.walk(table.chains[j].start, k) matches Ok(password) && digest_of(
            table.rule.algorithm,
            password,
        ) == target);
    }
}

} // verus!
