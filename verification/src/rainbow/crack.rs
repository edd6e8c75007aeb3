//! The cracker: the staged guess-and-verify search that recovers the
//! plaintext of a target digest from a table.
use vstd::prelude::*;
use vstd::string::*;
use vstd::utf8::*;
use vstd::slice::slice_to_vec;
use crate::bytes::{byte_views, bytes_equal};
use crate::hashing::{digest_of, is_digest, Algorithm};
use crate::rainbow::chain::{compute_hash_rainbow, ChainRule};
use crate::rainbow::codec::{RainbowTable, TableView};
use crate::rainbow::error::{RainbowError, RainbowFault};
use crate::rainbow::index::{end_map, EndIndex};
use crate::rainbow::reduce::reduce;
use crate::text::{hex_encode, hex_text, lemma_ascii_bytes_are_utf8, text_from_utf8, utf8_error_text};

verus! {

/// A target digest with the plaintext recovered for it.
#[derive(Clone, Debug, PartialEq, Eq)]
pub struct CrackResult {
    pub digest: Vec<u8>,
    pub plaintext: String,
}

/// A result as byte sequences: the digest, and the bytes of the plaintext.
pub struct CrackView {
    pub digest: Seq<u8>,
    pub plaintext: Seq<u8>,
}

impl View for CrackResult {
    type V = CrackView;

    open spec fn view(&self) -> CrackView {
        CrackView { digest: self.digest@, plaintext: encode_utf8(self.plaintext@) }
    }
}

impl ChainRule {
    /// Replays a chain from `start` for at most `steps` links and looks for
    /// the password whose digest is the target: the first one on the way, if
    /// any. A link that fails, fails the replay.
    pub open spec fn replay(self, start: Seq<u8>, target: Seq<u8>, steps: nat) -> Result<
        Option<Seq<u8>>,
        RainbowFault,
    >
        recommends
            self.algorithm.is_deterministic(),
        decreases steps,
    {
        if steps == 0 {
            Ok(None)
        } else if digest_of(self.algorithm, start) == target {
            Ok(Some(start))
        } else {
            match self.step(start) {
                Ok(next) => self.replay(next, target, (steps - 1) as nat),
                Err(fault) => Err(fault),
            }
        }
    }

    /// What the replay of a recorded start yields for the search: the
    /// plaintext that it finds. A start that is no well-formed UTF-8 and a
    /// replay that fails yield nothing.
    pub open spec fn regenerated(self, start: Seq<u8>, target: Seq<u8>, steps: nat) -> Option<
        Seq<u8>,
    >
        recommends
            self.algorithm.is_deterministic(),
    {
        if !valid_utf8(start) {
            None
        } else {
            match self.replay(start, target, steps) {
                Ok(Some(plaintext)) => Some(plaintext),
                _ => None,
            }
        }
    }
}

/// Replays the chain that starts at `start` for `steps` links. At each link
/// the digest of the current password is held against the target; the first
/// password whose digest is the target is the plaintext. A start that is no
/// well-formed UTF-8 is refused with a Unicode error.
pub fn regenerate_chain(start: &[u8], target_hash: &[u8], steps: u128, rule: &ChainRule) -> (res:
    Result<Option<(Vec<u8>, String)>, RainbowError>)
    ensures
        !valid_utf8(start@) ==> res is Err,
        valid_utf8(start@) && rule.algorithm.is_deterministic() ==> match res {
            Ok(Some(found)) => rule.replay(start@, target_hash@, steps as nat) == Ok::<
                Option<Seq<u8>>,
                RainbowFault,
            >(Some(encode_utf8(found.1@))),
            Ok(None) => rule.replay(start@, target_hash@, steps as nat) == Ok::<
                Option<Seq<u8>>,
                RainbowFault,
            >(None),
            Err(e) => rule.replay(start@, target_hash@, steps as nat) == Err::<
                Option<Seq<u8>>,
                RainbowFault,
            >(e@),
        },
        valid_utf8(start@) && steps == 0 ==> res is Ok && res->Ok_0 is None,
        res matches Ok(Some(found)) ==> found.0@ == target_hash@ && is_digest(
            rule.algorithm,
            encode_utf8(found.1@),
            target_hash@,
        ),
        res is Err ==> res->Err_0 is UnicodeError,
{
    if let Err(e) = text_from_utf8(slice_to_vec(start)) {
        return Err(RainbowError::UnicodeError(utf8_error_text(&e)));
    }
    let mut current: Vec<u8> = slice_to_vec(start);
    let mut done: u128 = 0;
    while done < steps
        invariant
            done <= steps,
            valid_utf8(current@),
            valid_utf8(start@),
            rule.algorithm.is_deterministic() ==> rule.replay(
                current@,
                target_hash@,
                (steps - done) as nat,
            ) == rule.replay(start@, target_hash@, steps as nat),
        decreases steps - done,
    {
        let hash = match compute_hash_rainbow(current.as_slice(), rule.algorithm) {
            Ok(hash) => hash,
            Err(e) => {
                return Err(e);
            },
        };
        if bytes_equal(hash.as_slice(), target_hash) {
            proof {
                decode_utf8_encode_utf8(current@);
            }
            return match text_from_utf8(current) {
                Ok(plaintext) => Ok(Some((slice_to_vec(target_hash), plaintext))),
                Err(e) => Err(RainbowError::UnicodeError(utf8_error_text(&e))),
            };
        }
        match reduce(
            hash.as_slice(),
            rule.password_length,
            rule.charset_size,
            rule.unicode_offset,
        ) {
            Ok(next) => {
                proof {
                    lemma_ascii_bytes_are_utf8(next@);
                }
                current = next;
            },
            Err(e) => {
                return Err(e);
            },
        }
        done += 1;
    }
    Ok(None)
}

/// What the search looks things up in: the chain rule, the number of links,
/// and the map from chain ends to chain starts.
pub struct Lookup {
    pub rule: ChainRule,
    pub num_links: u128,
    pub index: Map<Seq<u8>, Seq<u8>>,
}

impl Lookup {
    /// The digest that `i` cycles of reduce-and-digest lead to from the
    /// target.
    pub open spec fn advance(self, target: Seq<u8>, i: nat) -> Result<Seq<u8>, RainbowFault>
        decreases i,
    {
        if i == 0 {
            Ok(target)
        } else {
            match self.advance(target, (i - 1) as nat) {
                Err(fault) => Err(fault),
                Ok(hash) => match self.rule.reduction(hash) {
                    Ok(password) => Ok(digest_of(self.rule.algorithm, password)),
                    Err(fault) => Err(fault),
                },
            }
        }
    }

    /// The chain end that the target leads to if it sits `i` links before a
    /// chain's last reduction.
    pub open spec fn candidate_end(self, target: Seq<u8>, i: nat) -> Option<Seq<u8>> {
        match self.advance(target, i) {
            Err(_) => None,
            Ok(hash) => match self.rule.reduction(hash) {
                Ok(end) => Some(end),
                Err(_) => None,
            },
        }
    }

    /// The plaintext that position `i` yields: the candidate end must be a
    /// recorded end, and the replay of its chain for `num_links - i` links
    /// must meet the target.
    pub open spec fn attempt(self, target: Seq<u8>, i: nat) -> Option<Seq<u8>> {
        match self.candidate_end(target, i) {
            None => None,
            Some(end) => if self.index.contains_key(end) {
                self.rule.regenerated(self.index[end], target, (self.num_links - i) as nat)
            } else {
                None
            },
        }
    }

    /// The plaintext of the first position from `from` on that yields one.
    pub open spec fn first_match(self, target: Seq<u8>, from: nat) -> Option<Seq<u8>>
        decreases self.num_links - from,
    {
        if from >= self.num_links {
            None
        } else {
            match self.attempt(target, from) {
                Some(plaintext) => Some(plaintext),
                None => self.first_match(target, from + 1),
            }
        }
    }

    /// The plaintext recovered for a target: that of the first position, in
    /// ascending order, whose replay meets the target.
    pub open spec fn cracked(self, target: Seq<u8>) -> Option<Seq<u8>> {
        self.first_match(target, 0)
    }

    /// The result for a target, if a plaintext is recovered.
    pub open spec fn outcome(self, target: Seq<u8>) -> Option<CrackView> {
        match self.cracked(target) {
            Some(plaintext) => Some(CrackView { digest: target, plaintext }),
            None => None,
        }
    }

    /// The outcome of each target, in the order of the targets.
    pub open spec fn outcomes(self, targets: Seq<Seq<u8>>) -> Seq<Option<CrackView>> {
        Seq::new(targets.len(), |i: int| self.outcome(targets[i]))
    }

    /// Once no candidate end can be computed, no later position yields
    /// anything.
    pub proof fn lemma_dead_end(self, target: Seq<u8>, i: nat)
        requires
            self.candidate_end(target, i) is None,
        ensures
            self.first_match(target, i) is None,
        decreases self.num_links - i,
    {
        if i < self.num_links {
            assert(self.advance(target, i + 1) is Err);
            self.lemma_dead_end(target, i + 1);
        }
    }

    /// What `first_match` says: the position it took its plaintext from, and
    /// that no position before it yields one.
    pub proof fn lemma_first_match(self, target: Seq<u8>, from: nat)
        ensures
            match self.first_match(target, from) {
                Some(plaintext) => exists|i: nat|
                    from <= i < self.num_links && #[trigger] self.attempt(target, i) == Some(
                        plaintext,
                    ) && forall|k: nat| from <= k < i ==> #[trigger] self.attempt(target, k) is None,
                None => forall|i: nat|
                    from <= i < self.num_links ==> #[trigger] self.attempt(target, i) is None,
            },
        decreases self.num_links - from,
    {
        if from < self.num_links {
            self.lemma_first_match(target, from + 1);
            match self.attempt(target, from) {
                Some(plaintext) => {
                    assert(self.attempt(target, from) == Some(plaintext));
                },
                None => {
                    match self.first_match(target, from + 1) {
                        Some(plaintext) => {
                            let i = choose|i: nat|
                                from + 1 <= i < self.num_links && #[trigger] self.attempt(
                                    target,
                                    i,
                                ) == Some(plaintext) && forall|k: nat|
                                    from + 1 <= k < i ==> #[trigger] self.attempt(target, k)
                                        is None;
                            assert(self.attempt(target, i) == Some(plaintext));
                        },
                        None => {},
                    }
                },
            }
        }
    }
}

impl TableView {
    /// What the search looks things up in, for this table.
    pub open spec fn lookup(self) -> Lookup {
        Lookup { rule: self.rule, num_links: self.num_links, index: end_map(self.chains) }
    }
}

/// A table made ready for cracking: its rule and length, and the index of
/// its chains.
pub struct Cracker {
    pub rule: ChainRule,
    pub num_links: u128,
    pub index: EndIndex,
}

impl View for Cracker {
    type V = Lookup;

    open spec fn view(&self) -> Lookup {
        Lookup { rule: self.rule, num_links: self.num_links, index: self.index@ }
    }
}

impl Cracker {
    /// Builds the index of a table's chains.
    pub fn new(table: &RainbowTable) -> (cracker: Cracker)
        ensures
            cracker@ == table@.lookup(),
    {
        Cracker { rule: table.rule, num_links: table.num_links, index: EndIndex::build(&table.chains) }
    }

    /// Searches the plaintext of one target digest. The positions
    /// `0 .. num_links - 1` are tried in ascending order; the first whose
    /// replay meets the target gives the result. A target for which no
    /// position does is left without result.
    pub fn crack_one(&self, target: &[u8]) -> (found: Option<CrackResult>)
        ensures
            self.rule.algorithm.is_deterministic() || self.num_links == 0 ==> match found {
                Some(result) => self@.outcome(target@) == Some(result@),
                None => self@.outcome(target@) is None,
            },
            self.num_links == 0 ==> found is None,
            found matches Some(result) ==> result.digest@ == target@ && is_digest(
                self.rule.algorithm,
                result@.plaintext,
                target@,
            ),
    {
        let ghost lookup = self@;
        let ghost exact = self.rule.algorithm.is_deterministic();
        if self.num_links == 0 {
            return None;
        }
        let mut hash: Vec<u8> = slice_to_vec(target);
        let mut i: u128 = 0;
        while i < self.num_links
            invariant
                i <= self.num_links,
                lookup == self@,
                exact == self.rule.algorithm.is_deterministic(),
                self.num_links > 0,
                exact ==> lookup.advance(target@, i as nat) == Ok::<Seq<u8>, RainbowFault>(hash@),
                exact ==> lookup.first_match(target@, i as nat) == lookup.cracked(target@),
            decreases self.num_links - i,
        {
            let end = match reduce(
                hash.as_slice(),
                self.rule.password_length,
                self.rule.charset_size,
                self.rule.unicode_offset,
            ) {
                Ok(end) => end,
                Err(_) => {
                    proof {
                        if exact {
                            lookup.lemma_dead_end(target@, i as nat);
                        }
                    }
                    return None;
                },
            };
            if let Some(start) = self.index.get(end.as_slice()) {
                match regenerate_chain(start.as_slice(), target, self.num_links - i, &self.rule) {
                    Ok(Some(found)) => {
                        let result = CrackResult { digest: found.0, plaintext: found.1 };
                        return Some(result);
                    },
                    _ => {},
                }
            }
            hash = match compute_hash_rainbow(end.as_slice(), self.rule.algorithm) {
                Ok(next) => next,
                Err(_) => {
                    return None;
                },
            };
            i += 1;
        }
        None
    }
}

/// The targets of one cracking run: the algorithm of the hash file, and its
/// digests in their order.
#[derive(Clone, Debug, PartialEq, Eq)]
pub struct HashBatch {
    pub algorithm: Algorithm,
    pub digests: Vec<Vec<u8>>,
}

/// A batch with its digests as byte sequences.
pub struct BatchView {
    pub algorithm: Algorithm,
    pub digests: Seq<Seq<u8>>,
}

impl View for HashBatch {
    type V = BatchView;

    open spec fn view(&self) -> BatchView {
        BatchView { algorithm: self.algorithm, digests: byte_views(self.digests@) }
    }
}

/// The results of a list as byte sequences.
pub open spec fn result_views(results: Seq<CrackResult>) -> Seq<CrackView> {
    Seq::new(results.len(), |i: int| results[i]@)
}

/// The outcomes of a list as byte sequences.
pub open spec fn outcome_views(found: Seq<Option<CrackResult>>) -> Seq<Option<CrackView>> {
    Seq::new(
        found.len(),
        |i: int|
            match found[i] {
                Some(result) => Some(result@),
                None => None,
            },
    )
}

/// The results among the outcomes, in their order.
pub open spec fn kept(outcomes: Seq<Option<CrackView>>) -> Seq<CrackView>
    decreases outcomes.len(),
{
    if outcomes.len() == 0 {
        Seq::empty()
    } else {
        match outcomes.last() {
            Some(result) => kept(outcomes.drop_last()).push(result),
            None => kept(outcomes.drop_last()),
        }
    }
}

/// Every kept result is one of the outcomes, and something is kept exactly
/// if some outcome is a result.
pub proof fn lemma_kept(outcomes: Seq<Option<CrackView>>)
    ensures
        forall|k: int|
            0 <= k < kept(outcomes).len() ==> exists|j: int|
                0 <= j < outcomes.len() && outcomes[j] == Some(#[trigger] kept(outcomes)[k]),
        kept(outcomes).len() > 0 <==> exists|j: int|
            0 <= j < outcomes.len() && (#[trigger] outcomes[j]) is Some,
        kept(outcomes).len() <= outcomes.len(),
    decreases outcomes.len(),
{
    if outcomes.len() > 0 {
        let head = outcomes.drop_last();
        lemma_kept(head);
        assert forall|k: int| 0 <= k < kept(outcomes).len() implies exists|j: int|
            0 <= j < outcomes.len() && outcomes[j] == Some(#[trigger] kept(outcomes)[k]) by {
            if k < kept(head).len() {
                let j = choose|j: int| 0 <= j < head.len() && head[j] == Some(kept(head)[k]);
                assert(outcomes[j] == Some(kept(outcomes)[k]));
            } else {
                assert(outcomes[outcomes.len() - 1] == Some(kept(outcomes)[k]));
            }
        }
        if kept(outcomes).len() > 0 {
            if outcomes.last() is Some {
                assert(outcomes[outcomes.len() - 1] is Some);
            } else {
                let j = choose|j: int| 0 <= j < head.len() && (#[trigger] head[j]) is Some;
                assert(outcomes[j] is Some);
            }
        }
        if exists|j: int| 0 <= j < outcomes.len() && (#[trigger] outcomes[j]) is Some {
            let j = choose|j: int| 0 <= j < outcomes.len() && (#[trigger] outcomes[j]) is Some;
            if j < head.len() {
                assert(head[j] is Some);
            }
        }
    }
}

/// The positions of the results among the outcomes, in ascending order.
pub open spec fn kept_positions(outcomes: Seq<Option<CrackView>>) -> Seq<int>
    decreases outcomes.len(),
{
    if outcomes.len() == 0 {
        Seq::empty()
    } else {
        match outcomes.last() {
            Some(_) => kept_positions(outcomes.drop_last()).push(outcomes.len() - 1),
            None => kept_positions(outcomes.drop_last()),
        }
    }
}

/// The kept results stand at `kept_positions` among the outcomes, which
/// ascend: the results keep the order of the outcomes.
pub proof fn lemma_kept_positions(outcomes: Seq<Option<CrackView>>)
    ensures
        kept_positions(outcomes).len() == kept(outcomes).len(),
        forall|k: int|
            0 <= k < kept(outcomes).len() ==> 0 <= (#[trigger] kept_positions(outcomes)[k])
                < outcomes.len() && outcomes[kept_positions(outcomes)[k]] == Some(
                kept(outcomes)[k],
            ),
        forall|a: int, b: int|
            0 <= a < b < kept(outcomes).len() ==> (#[trigger] kept_positions(outcomes)[a]) < (
            #[trigger] kept_positions(outcomes)[b]),
    decreases outcomes.len(),
{
    if outcomes.len() > 0 {
        let head = outcomes.drop_last();
        lemma_kept_positions(head);
        assert forall|k: int| 0 <= k < kept(outcomes).len() implies 0 <= (#[trigger] kept_positions(
            outcomes,
        )[k]) < outcomes.len() && outcomes[kept_positions(outcomes)[k]] == Some(
            kept(outcomes)[k],
        ) by {
            if k < kept(head).len() {
                assert(kept_positions(outcomes)[k] == kept_positions(head)[k]);
                assert(outcomes[kept_positions(head)[k]] == head[kept_positions(head)[k]]);
            }
        }
        assert forall|a: int, b: int| 0 <= a < b < kept(outcomes).len() implies (
        #[trigger] kept_positions(outcomes)[a]) < (#[trigger] kept_positions(outcomes)[b]) by {
            assert(kept_positions(outcomes)[a] == kept_positions(head)[a]);
            if b < kept(head).len() {
                assert(kept_positions(outcomes)[b] == kept_positions(head)[b]);
            }
        }
    }
}

/// Whether the results are those of the targets at the positions `at`,
/// which ascend, each with a plaintext that the digest provider can turn
/// into its target.
pub open spec fn in_target_order(
    algorithm: Algorithm,
    results: Seq<CrackView>,
    targets: Seq<Seq<u8>>,
    at: Seq<int>,
) -> bool {
    &&& at.len() == results.len()
    &&& forall|k: int|
        0 <= k < results.len() ==> {
            &&& 0 <= (#[trigger] at[k]) < targets.len()
            &&& results[k].digest == targets[at[k]]
            &&& is_digest(algorithm, results[k].plaintext, results[k].digest)
        }
    &&& forall|a: int, b: int| 0 <= a < b < at.len() ==> (#[trigger] at[a]) < (#[trigger] at[b])
}

/// Gathers the results of a batch: the targets without result are left out,
/// the others kept in their order. A batch without any result fails.
pub fn gather_results(found: &Vec<Option<CrackResult>>) -> (res: Result<
    Vec<CrackResult>,
    RainbowError,
>)
    ensures
        match res {
            Ok(results) => results@.len() > 0 && result_views(results@) == kept(
                outcome_views(found@),
            ),
            Err(e) => e@ == RainbowFault::NoPasswordsFound && kept(outcome_views(found@)).len()
                == 0,
        },
{
    let ghost outcomes = outcome_views(found@);
    let mut results: Vec<CrackResult> = Vec::new();
    let mut i: usize = 0;
    assert(outcomes.take(0) =~= Seq::<Option<CrackView>>::empty());
    assert(result_views(results@) =~= kept(outcomes.take(0)));
    while i < found.len()
        invariant
            i <= found@.len(),
            outcomes == outcome_views(found@),
            result_views(results@) == kept(outcomes.take(i as int)),
        decreases found@.len() - i,
    {
        let ghost before = result_views(results@);
        proof {
            assert(outcomes.take(i + 1).drop_last() =~= outcomes.take(i as int));
            assert(outcomes.take(i + 1).last() == outcomes[i as int]);
        }
        match &found[i] {
            Some(result) => {
                let copy = CrackResult {
                    digest: slice_to_vec(result.digest.as_slice()),
                    plaintext: result.plaintext.clone(),
                };
                assert(copy@ == result@);
                results.push(copy);
                assert(result_views(results@) =~= before.push(copy@));
            },
            None => {},
        }
        i += 1;
    }
    assert(outcomes.take(i as int) =~= outcomes);
    if results.len() == 0 {
        return Err(RainbowError::NoPasswordsFound);
    }
    Ok(results)
}

/// Checks that a table and a batch of targets are of one algorithm.
pub fn check_algorithms(table: &RainbowTable, batch: &HashBatch) -> (res: Result<(), RainbowError>)
    ensures
        match res {
            Ok(_) => table.rule.algorithm == batch.algorithm,
            Err(e) => table.rule.algorithm != batch.algorithm && e@
                == RainbowFault::AlgorithmMismatch,
        },
{
    if table.rule.algorithm != batch.algorithm {
        return Err(RainbowError::AlgorithmMismatch);
    }
    Ok(())
}

/// Cracks a batch of target digests against a table. The algorithms of
/// table and batch must be the same, which is checked before any target is
/// looked at. Each target is searched on its own; those without result are
/// left out, the others kept in the order of the targets, and only a batch
/// without any result fails. A table without links gives no result.
pub fn crack(table: &RainbowTable, batch: &HashBatch) -> (res: Result<Vec<CrackResult>, RainbowError>)
    ensures
        table.rule.algorithm != batch.algorithm ==> res is Err && res->Err_0@
            == RainbowFault::AlgorithmMismatch,
        table.rule.algorithm == batch.algorithm && (batch.algorithm.is_deterministic()
            || table.num_links == 0) ==> match res {
            Ok(results) => results@.len() > 0 && result_views(results@) == kept(
                table@.lookup().outcomes(batch@.digests),
            ),
            Err(e) => e@ == RainbowFault::NoPasswordsFound && kept(
                table@.lookup().outcomes(batch@.digests),
            ).len() == 0,
        },
        table.rule.algorithm == batch.algorithm && table.num_links == 0 ==> res is Err,
        table.rule.algorithm == batch.algorithm ==> match res {
            Ok(results) => results@.len() > 0 && exists|at: Seq<int>| #[trigger]
                in_target_order(batch.algorithm, result_views(results@), batch@.digests, at),
            Err(e) => e@ == RainbowFault::NoPasswordsFound,
        },
{
    check_algorithms(table, batch)?;
    let cracker = Cracker::new(table);
    let ghost targets = batch@.digests;
    let ghost exact = batch.algorithm.is_deterministic() || table.num_links == 0;
    let mut found: Vec<Option<CrackResult>> = Vec::new();
    let mut i: usize = 0;
    while i < batch.digests.len()
        invariant
            i <= batch.digests@.len(),
            targets == batch@.digests,
            cracker@ == table@.lookup(),
            cracker.rule == table.rule,
            cracker.num_links == table.num_links,
            table.rule.algorithm == batch.algorithm,
            exact == (batch.algorithm.is_deterministic() || table.num_links == 0),
            found@.len() == i,
            exact ==> outcome_views(found@) =~= cracker@.outcomes(targets).take(i as int),
            table.num_links == 0 ==> forall|k: int| 0 <= k < i ==> (#[trigger] found@[k]) is None,
            forall|k: int|
                0 <= k < i ==> ((#[trigger] found@[k]) matches Some(result) ==> result.digest@
                    == batch.digests@[k]@ && is_digest(
                    batch.algorithm,
                    result@.plaintext,
                    result.digest@,
                )),
        decreases batch.digests@.len() - i,
    {
        let outcome = cracker.crack_one(batch.digests[i].as_slice());
        found.push(outcome);
        i += 1;
    }
    assert(cracker@.outcomes(targets).take(i as int) =~= cracker@.outcomes(targets));
    let res = gather_results(&found);
    proof {
        let outcomes = outcome_views(found@);
        lemma_kept(outcomes);
        lemma_kept_positions(outcomes);
        if table.num_links == 0 {
            assert forall|j: int| 0 <= j < outcomes.len() implies !((#[trigger] outcomes[j])
                is Some) by {
                assert(found@[j] is None);
            }
        }
        if res is Ok {
            let results = result_views(res->Ok_0@);
            let at = kept_positions(outcomes);
            assert forall|k: int| 0 <= k < results.len() implies {
                &&& 0 <= (#[trigger] at[k]) < targets.len()
                &&& results[k].digest == targets[at[k]]
                &&& is_digest(batch.algorithm, results[k].plaintext, results[k].digest)
            } by {
                assert(outcomes[at[k]] == Some(results[k]));
                assert(found@[at[k]] is Some);
                assert(targets[at[k]] == batch.digests@[at[k]]@);
            }
            assert(in_target_order(batch.algorithm, results, targets, at));
        }
    }
    res
}

/// The line that reports a result: the digest in hexadecimal, a tab, the
/// plaintext.
pub fn result_line(result: &CrackResult) -> (line: String)
    ensures
        line@ == hex_text(result.digest@) + "\t"@ + result.plaintext@,
{
    let line = hex_encode(result.digest.as_slice()).concat("\t").concat(result.plaintext.as_str());
    line
}

} // verus!
