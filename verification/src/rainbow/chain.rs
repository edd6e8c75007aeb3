//! Chains: a start password, and the password that a number of
//! digest-and-reduce links lead to.
use vstd::prelude::*;
use vstd::utf8::*;
use vstd::slice::slice_to_vec;
use crate::hashing::{digest_bytes, digest_of, is_digest, Algorithm, HashError};
use crate::rainbow::error::{RainbowError, RainbowFault};
use crate::rainbow::reduce::{ascii_charset, is_ascii_bytes, reduce, reduced};

verus! {

/// What one link of a chain is made with: the digest algorithm and the
/// parameters of the reduction.
#[derive(Clone, Copy, Debug, PartialEq, Eq, Structural)]
pub struct ChainRule {
    pub algorithm: Algorithm,
    pub password_length: usize,
    pub charset_size: u128,
    pub unicode_offset: u128,
}

/// A chain: where it starts and where it ends.
#[derive(Clone, Debug, PartialEq, Eq)]
pub struct Chain {
    pub start: Vec<u8>,
    pub end: Vec<u8>,
}

/// A chain as a pair of byte sequences.
pub struct ChainView {
    pub start: Seq<u8>,
    pub end: Seq<u8>,
}

impl View for Chain {
    type V = ChainView;

    open spec fn view(&self) -> ChainView {
        ChainView { start: self.start@, end: self.end@ }
    }
}

/// The chains of a list as pairs of byte sequences.
pub open spec fn chain_views(chains: Seq<Chain>) -> Seq<ChainView> {
    Seq::new(chains.len(), |i: int| chains[i]@)
}

impl ChainRule {
    /// Whether the reduction can only give ASCII passwords.
    pub open spec fn is_ascii(self) -> bool {
        ascii_charset(self.charset_size, self.unicode_offset)
    }

    /// What a digest reduces to.
    pub open spec fn reduction(self, digest: Seq<u8>) -> Result<Seq<u8>, RainbowFault> {
        reduced(digest, self.password_length as nat, self.charset_size, self.unicode_offset)
    }

    /// One link: the password's digest, reduced.
    pub open spec fn step(self, password: Seq<u8>) -> Result<Seq<u8>, RainbowFault>
        recommends
            self.algorithm.is_deterministic(),
    {
        self.reduction(digest_of(self.algorithm, password))
    }

    /// The password that `links` links lead to from `start`, or the failure
    /// of the first link that fails. No links lead to the start itself,
    /// whatever the algorithm.
    pub open spec fn walk(self, start: Seq<u8>, links: nat) -> Result<Seq<u8>, RainbowFault>
        recommends
            self.algorithm.is_deterministic(),
        decreases links,
    {
        if links == 0 {
            Ok(start)
        } else {
            match self.walk(start, (links - 1) as nat) {
                Ok(password) => self.step(password),
                Err(fault) => Err(fault),
            }
        }
    }

    /// Whether one link can lead from `password` to `next`: `next` is the
    /// reduction of something that the digest provider can return for
    /// `password`. Under a deterministic algorithm that is `step`.
    pub open spec fn may_step(self, password: Seq<u8>, next: Seq<u8>) -> bool {
        exists|digest: Seq<u8>|
            #[trigger] is_digest(self.algorithm, password, digest) && self.reduction(digest)
                == Ok::<Seq<u8>, RainbowFault>(next)
    }

    /// Whether `links` links can lead from `start` to `end`. Under a
    /// deterministic algorithm that is `walk`.
    pub open spec fn may_walk(self, start: Seq<u8>, links: nat, end: Seq<u8>) -> bool
        decreases links,
    {
        if links == 0 {
            end == start
        } else {
            exists|middle: Seq<u8>|
                self.may_walk(start, (links - 1) as nat, middle) && #[trigger] self.may_step(
                    middle,
                    end,
                )
        }
    }

    /// Under a deterministic algorithm the links that can be taken are
    /// those of `walk`.
    pub proof fn lemma_may_walk_is_walk(self, start: Seq<u8>, links: nat, end: Seq<u8>)
        requires
            self.algorithm.is_deterministic(),
        ensures
            self.may_walk(start, links, end) <==> self.walk(start, links) == Ok::<
                Seq<u8>,
                RainbowFault,
            >(end),
        decreases links,
    {
        if links > 0 {
            let before = (links - 1) as nat;
            if self.may_walk(start, links, end) {
                let middle = choose|middle: Seq<u8>|
                    self.may_walk(start, before, middle) && #[trigger] self.may_step(middle, end);
                self.lemma_may_walk_is_walk(start, before, middle);
                let digest = choose|digest: Seq<u8>|
                    #[trigger] is_digest(self.algorithm, middle, digest) && self.reduction(digest)
                        == Ok::<Seq<u8>, RainbowFault>(end);
                assert(digest == digest_of(self.algorithm, middle));
            }
            if self.walk(start, links) == Ok::<Seq<u8>, RainbowFault>(end) {
                let middle = self.walk(start, before)->Ok_0;
                self.lemma_may_walk_is_walk(start, before, middle);
                assert(is_digest(self.algorithm, middle, digest_of(self.algorithm, middle)));
                assert(self.may_step(middle, end));
            }
        }
    }

    /// The chain of one start password.
    pub open spec fn chain_of(self, start: Seq<u8>, links: nat) -> Result<ChainView, RainbowFault>
        recommends
            self.algorithm.is_deterministic(),
    {
        match self.walk(start, links) {
            Ok(end) => Ok(ChainView { start, end }),
            Err(fault) => Err(fault),
        }
    }

    /// The chains of the first `n` start passwords, in their order, or the
    /// failure of the first chain that fails.
    pub open spec fn chains_of(self, starts: Seq<Seq<u8>>, links: nat, n: nat) -> Result<
        Seq<ChainView>,
        RainbowFault,
    >
        recommends
            self.algorithm.is_deterministic(),
            n <= starts.len(),
        decreases n,
    {
        if n == 0 {
            Ok(Seq::empty())
        } else {
            match self.chains_of(starts, links, (n - 1) as nat) {
                Err(fault) => Err(fault),
                Ok(head) => match self.chain_of(starts[n - 1], links) {
                    Err(fault) => Err(fault),
                    Ok(chain) => Ok(head.push(chain)),
                },
            }
        }
    }

    /// A walk that has failed stays failed, however many links follow.
    pub proof fn lemma_walk_failure_stays(self, start: Seq<u8>, n: nat, m: nat)
        requires
            n <= m,
            self.walk(start, n) is Err,
        ensures
            self.walk(start, m) == self.walk(start, n),
        decreases m,
    {
        if n < m {
            self.lemma_walk_failure_stays(start, n, (m - 1) as nat);
        }
    }

    /// A walk continues from any point on it: `n + m` links from the start
    /// are `m` links from where `n` links lead.
    pub proof fn lemma_walk_splits(self, start: Seq<u8>, n: nat, m: nat)
        requires
            self.walk(start, n) is Ok,
        ensures
            self.walk(start, n + m) == self.walk(self.walk(start, n)->Ok_0, m),
        decreases m,
    {
        if m > 0 {
            self.lemma_walk_splits(start, n, (m - 1) as nat);
        }
    }

    /// A chain list that has failed stays failed, however many starts follow.
    pub proof fn lemma_chains_failure_stays(self, starts: Seq<Seq<u8>>, links: nat, n: nat, m: nat)
        requires
            n <= m,
            self.chains_of(starts, links, n) is Err,
        ensures
            self.chains_of(starts, links, m) == self.chains_of(starts, links, n),
        decreases m,
    {
        if n < m {
            self.lemma_chains_failure_stays(starts, links, n, (m - 1) as nat);
        }
    }

    /// The chains hold the start passwords in their order, each with the
    /// end of its walk.
    pub proof fn lemma_chains_of(self, starts: Seq<Seq<u8>>, links: nat, n: nat)
        ensures
            match self.chains_of(starts, links, n) {
                Ok(chains) => chains.len() == n && forall|i: int|
                    0 <= i < n ==> self.walk(starts[i], links) == Ok::<Seq<u8>, RainbowFault>(
                        (#[trigger] chains[i]).end,
                    ) && chains[i].start == starts[i],
                Err(fault) => exists|i: int|
                    0 <= i < n && #[trigger] self.walk(starts[i], links) == Err::<
                        Seq<u8>,
                        RainbowFault,
                    >(fault),
            },
        decreases n,
    {
        if n > 0 {
            self.lemma_chains_of(starts, links, (n - 1) as nat);
        }
    }

    /// One link of a chain: digest, then reduce.
    pub fn next_password(&self, password: &[u8]) -> (res: Result<Vec<u8>, RainbowError>)
        ensures
            self.algorithm.is_deterministic() ==> match res {
                Ok(next) => self.step(password@) == Ok::<Seq<u8>, RainbowFault>(next@),
                Err(e) => self.step(password@) == Err::<Seq<u8>, RainbowFault>(e@),
            },
            res is Ok ==> self.may_step(password@, res->Ok_0@) && res->Ok_0@.len()
                == self.password_length && is_ascii_bytes(res->Ok_0@),
            res is Err ==> res->Err_0 is UnicodeError,
            self.password_length == 0 || self.is_ascii() ==> res is Ok,
    {
        let digest = compute_hash_rainbow(password, self.algorithm)?;
        let res = reduce(
            digest.as_slice(),
            self.password_length,
            self.charset_size,
            self.unicode_offset,
        );
        proof {
            if res is Ok {
                assert(is_digest(self.algorithm, password@, digest@));
            }
        }
        res
    }
}

/// The digest of a password for the chain operations, with the provider's
/// failures told in their terms.
pub fn compute_hash_rainbow(password: &[u8], algorithm: Algorithm) -> (res: Result<
    Vec<u8>,
    RainbowError,
>)
    ensures
        res is Ok,
        is_digest(algorithm, password@, res->Ok_0@),
        res->Ok_0@.len() == algorithm.digest_size(),
{
    match digest_bytes(password, algorithm) {
        Ok(digest) => Ok(digest),
        Err(HashError::Scrypt(_)) => Err(RainbowError::InvalidAlgorithm),
        Err(HashError::InvalidAlgorithm) => Err(RainbowError::InvalidAlgorithm),
        Err(HashError::Password(e)) => Err(RainbowError::Password(e)),
    }
}

/// Builds the chain of one start password: `num_links` times the current
/// password is hashed and the digest reduced. The start is kept unchanged;
/// with no links the chain ends where it starts.
pub fn build_chain(start: &[u8], rule: &ChainRule, num_links: u128) -> (res: Result<
    Chain,
    RainbowError,
>)
    ensures
        rule.algorithm.is_deterministic() || num_links == 0 ==> match res {
            Ok(chain) => rule.chain_of(start@, num_links as nat) == Ok::<ChainView, RainbowFault>(
                chain@,
            ),
            Err(e) => rule.chain_of(start@, num_links as nat) == Err::<ChainView, RainbowFault>(
                e@,
            ),
        },
        res is Ok ==> res->Ok_0.start@ == start@ && rule.may_walk(
            start@,
            num_links as nat,
            res->Ok_0.end@,
        ),
        res is Ok && num_links == 0 ==> res->Ok_0.end@ == start@,
        res is Ok && num_links > 0 ==> res->Ok_0.end@.len() == rule.password_length
            && is_ascii_bytes(res->Ok_0.end@),
        res is Err ==> res->Err_0 is UnicodeError,
        num_links == 0 || rule.password_length == 0 || rule.is_ascii() ==> res is Ok,
{
    let mut current: Vec<u8> = slice_to_vec(start);
    let mut done: u128 = 0;
    while done < num_links
        invariant
            done <= num_links,
            rule.algorithm.is_deterministic() || num_links == 0 ==> rule.walk(
                start@,
                done as nat,
            ) == Ok::<
                Seq<u8>,
                RainbowFault,
            >(current@),
            rule.may_walk(start@, done as nat, current@),
            done == 0 ==> current@ == start@,
            done > 0 ==> current@.len() == rule.password_length && is_ascii_bytes(current@),
        decreases num_links - done,
    {
        match rule.next_password(current.as_slice()) {
            Ok(next) => {
                proof {
                    assert(rule.may_step(current@, next@));
                }
                current = next;
            },
            Err(e) => {
                proof {
                    if rule.algorithm.is_deterministic() {
                        assert(rule.walk(start@, (done + 1) as nat) == Err::<
                            Seq<u8>,
                            RainbowFault,
                        >(e@));
                        rule.lemma_walk_failure_stays(
                            start@,
                            (done + 1) as nat,
                            num_links as nat,
                        );
                    }
                }
                return Err(e);
            },
        }
        done += 1;
    }
    Ok(Chain { start: slice_to_vec(start), end: current })
}

/// The bytes of each password's UTF-8 text.
pub open spec fn password_bytes(passwords: Seq<String>) -> Seq<Seq<u8>> {
    Seq::new(passwords.len(), |i: int| encode_utf8(passwords[i]@))
}

/// Builds one chain for each password, in the order of the passwords. The
/// first chain that fails, fails the whole list.
pub fn build_chains(passwords: &Vec<String>, rule: &ChainRule, num_links: u128) -> (res: Result<
    Vec<Chain>,
    RainbowError,
>)
    ensures
        rule.algorithm.is_deterministic() || num_links == 0 ==> match res {
            Ok(chains) => rule.chains_of(
                password_bytes(passwords@),
                num_links as nat,
                passwords@.len(),
            ) == Ok::<Seq<ChainView>, RainbowFault>(chain_views(chains@)),
            Err(e) => rule.chains_of(password_bytes(passwords@), num_links as nat, passwords@.len())
                == Err::<Seq<ChainView>, RainbowFault>(e@),
        },
        res is Ok ==> res->Ok_0@.len() == passwords@.len() && forall|i: int|
            0 <= i < passwords@.len() ==> {
                &&& (#[trigger] res->Ok_0@[i]).start@ == encode_utf8(passwords@[i]@)
                &&& rule.may_walk(res->Ok_0@[i].start@, num_links as nat, res->Ok_0@[i].end@)
                &&& num_links == 0 ==> res->Ok_0@[i].end@ == res->Ok_0@[i].start@
                &&& num_links > 0 ==> res->Ok_0@[i].end@.len() == rule.password_length
                    && is_ascii_bytes(res->Ok_0@[i].end@)
            },
        res is Err ==> res->Err_0 is UnicodeError,
        num_links == 0 || rule.password_length == 0 || rule.is_ascii() ==> res is Ok,
{
    let ghost starts = password_bytes(passwords@);
    let mut chains: Vec<Chain> = Vec::new();
    let mut i: usize = 0;
    assert(chain_views(chains@) =~= Seq::<ChainView>::empty());
    while i < passwords.len()
        invariant
            i <= passwords@.len(),
            starts == password_bytes(passwords@),
            chains@.len() == i,
            rule.algorithm.is_deterministic() || num_links == 0 ==> rule.chains_of(
                starts,
                num_links as nat,
                i as nat,
            ) == Ok::<Seq<ChainView>, RainbowFault>(chain_views(chains@)),
            forall|k: int|
                0 <= k < i ==> {
                    &&& (#[trigger] chains@[k]).start@ == encode_utf8(passwords@[k]@)
                    &&& rule.may_walk(chains@[k].start@, num_links as nat, chains@[k].end@)
                    &&& num_links == 0 ==> chains@[k].end@ == chains@[k].start@
                    &&& num_links > 0 ==> chains@[k].end@.len() == rule.password_length
                        && is_ascii_bytes(chains@[k].end@)
                },
        decreases passwords@.len() - i,
    {
        let ghost before = chain_views(chains@);
        match build_chain(passwords[i].as_str().as_bytes(), rule, num_links) {
            Ok(chain) => {
                chains.push(chain);
                proof {
                    assert(chain_views(chains@) =~= before.push(chain@));
                }
            },
            Err(e) => {
                proof {
                    if rule.algorithm.is_deterministic() || num_links == 0 {
                        assert(rule.chains_of(starts, num_links as nat, (i + 1) as nat) == Err::<
                            Seq<ChainView>,
                            RainbowFault,
                        >(e@));
                        rule.lemma_chains_failure_stays(
                            starts,
                            num_links as nat,
                            (i + 1) as nat,
                            passwords@.len(),
                        );
                    }
                }
                return Err(e);
            },
        }
        i += 1;
    }
    Ok(chains)
}

} // verus!
