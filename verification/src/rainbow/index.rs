//! The index from the end of a chain to its start.
use vstd::prelude::*;
use std::collections::HashMap;
use crate::bytes::{bytes_equal, copy_range};
use crate::rainbow::chain::{chain_views, Chain, ChainView};

verus! {

/// The map from each chain's end to its start. Where several chains end
/// alike, the last of them in the list decides.
pub open spec fn end_map(chains: Seq<ChainView>) -> Map<Seq<u8>, Seq<u8>>
    decreases chains.len(),
{
    if chains.len() == 0 {
        Map::empty()
    } else {
        end_map(chains.drop_last()).insert(chains.last().end, chains.last().start)
    }
}

/// A chain that no later chain shares its end with: the map leads from its
/// end to its start.
pub proof fn lemma_end_map_last(chains: Seq<ChainView>, i: int)
    requires
        0 <= i < chains.len(),
        forall|j: int| i < j < chains.len() ==> (#[trigger] chains[j]).end != chains[i].end,
    ensures
        end_map(chains).contains_key(chains[i].end),
        end_map(chains)[chains[i].end] == chains[i].start,
    decreases chains.len(),
{
    if i < chains.len() - 1 {
        let head = chains.drop_last();
        assert(head[i] == chains[i]);
        assert forall|j: int| i < j < head.len() implies (#[trigger] head[j]).end
            != head[i].end by {
            assert(chains[j].end != chains[i].end);
        }
        lemma_end_map_last(head, i);
        assert(chains[chains.len() - 1].end != chains[i].end);
    }
}

/// Whatever the map leads to is the start of a chain with that end.
pub proof fn lemma_end_map_source(chains: Seq<ChainView>, end: Seq<u8>)
    requires
        end_map(chains).contains_key(end),
    ensures
        exists|i: int|
            0 <= i < chains.len() && (#[trigger] chains[i]).end == end && chains[i].start
                == end_map(chains)[end],
    decreases chains.len(),
{
    if chains.len() > 0 {
        if chains.last().end == end {
            let i = chains.len() - 1;
            assert(chains[i].end == end && chains[i].start == end_map(chains)[end]);
        } else {
            let head = chains.drop_last();
            lemma_end_map_source(head, end);
            let i = choose|i: int|
                0 <= i < head.len() && (#[trigger] head[i]).end == end && head[i].start
                    == end_map(head)[end];
            assert(chains[i].end == end && chains[i].start == end_map(chains)[end]);
        }
    }
}

/// A fingerprint of some bytes, by which the index sorts the chain ends
/// into buckets.
pub closed spec fn fingerprint(bytes: Seq<u8>) -> u64
    decreases bytes.len(),
{
    if bytes.len() == 0 {
        0xcbf2_9ce4_8422_2325u64
    } else {
        (fingerprint(bytes.drop_last()) ^ (bytes.last() as u64)).wrapping_mul(0x100_0000_01b3u64)
    }
}

fn fingerprint_of(bytes: &[u8]) -> (mark: u64)
    ensures
        mark == fingerprint(bytes@),
{
    let mut mark: u64 = 0xcbf2_9ce4_8422_2325u64;
    let mut i: usize = 0;
    assert(bytes@.take(0) =~= Seq::<u8>::empty());
    while i < bytes.len()
        invariant
            i <= bytes@.len(),
            mark == fingerprint(bytes@.take(i as int)),
        decreases bytes@.len() - i,
    {
        proof {
            assert(bytes@.take(i + 1).drop_last() =~= bytes@.take(i as int));
        }
        mark = (mark ^ (bytes[i] as u64)).wrapping_mul(0x100_0000_01b3u64);
        i += 1;
    }
    assert(bytes@.take(i as int) =~= bytes@);
    mark
}

/// The fingerprint of the end of chain `k`.
spec fn mark_at(chains: Seq<Chain>, k: int) -> u64 {
    fingerprint(chains[k].end@)
}

/// Whether the buckets are right for the first `m` chains: `last` leads
/// from each fingerprint to the last chain that has it, and `before` from
/// each chain to the one before it with the same fingerprint, counted from
/// one, with zero for none.
spec fn linked(chains: Seq<Chain>, before: Seq<usize>, last: Map<u64, usize>, m: int) -> bool {
    &&& 0 <= m <= chains.len()
    &&& before.len() == m
    &&& forall|j: int|
        0 <= j < m ==> {
            &&& (#[trigger] before[j]) <= j
            &&& before[j] > 0 ==> mark_at(chains, before[j] - 1) == mark_at(chains, j)
        }
    &&& forall|j: int, k: int|
        0 <= j < m && before[j] <= k < j ==> #[trigger] mark_at(chains, k) != #[trigger] mark_at(
            chains,
            j,
        )
    &&& forall|h: u64| #[trigger]
        last.contains_key(h) ==> last[h] < m && mark_at(chains, last[h] as int) == h
    &&& forall|h: u64, k: int|
        #[trigger] last.contains_key(h) && last[h] < k < m ==> #[trigger] mark_at(chains, k) != h
    &&& forall|j: int| 0 <= j < m ==> last.contains_key(#[trigger] mark_at(chains, j))
}

/// The end-to-start index of a list of chains: the chains, sorted into
/// buckets by the fingerprints of their ends.
pub struct EndIndex {
    chains: Vec<Chain>,
    before: Vec<usize>,
    last: HashMap<u64, usize>,
}

impl View for EndIndex {
    type V = Map<Seq<u8>, Seq<u8>>;

    closed spec fn view(&self) -> Map<Seq<u8>, Seq<u8>> {
        end_map(chain_views(self.chains@))
    }
}

impl EndIndex {
    #[verifier::type_invariant]
    spec fn buckets_hold(self) -> bool {
        linked(self.chains@, self.before@, self.last@, self.chains@.len() as int)
    }

    /// Builds the index of the chains, taken in their order.
    pub fn build(chains: &Vec<Chain>) -> (index: EndIndex)
        ensures
            index@ == end_map(chain_views(chains@)),
    {
        let mut copy: Vec<Chain> = Vec::new();
        let mut before: Vec<usize> = Vec::new();
        let mut last: HashMap<u64, usize> = HashMap::new();
        let mut i: usize = 0;
        while i < chains.len()
            invariant
                i <= chains@.len(),
                copy@.len() == i,
                chain_views(copy@) =~= chain_views(chains@).take(i as int),
                linked(copy@, before@, last@, i as int),
            decreases chains@.len() - i,
        {
            let ghost views = chain_views(copy@);
            let ghost old_copy = copy@;
            let ghost old_before = before@;
            let ghost old_last = last@;
            let start = copy_range(chains[i].start.as_slice(), 0, chains[i].start.len());
            let end = copy_range(chains[i].end.as_slice(), 0, chains[i].end.len());
            let mark = fingerprint_of(end.as_slice());
            let chain = Chain { start, end };
            proof {
                assert(chain.start@ =~= chains@[i as int].start@);
                assert(chain.end@ =~= chains@[i as int].end@);
                assert(chain@ == chains@[i as int]@);
            }
            copy.push(chain);
            let link: usize = match last.insert(mark, i) {
                Some(prior) => prior + 1,
                None => 0,
            };
            before.push(link);
            proof {
                assert(chain_views(copy@) =~= views.push(chain@));
                assert(chain_views(chains@).take(i + 1) =~= chain_views(chains@).take(
                    i as int,
                ).push(chains@[i as int]@));
                assert forall|k: int| 0 <= k <= i implies mark_at(copy@, k) == (if k < i {
                    mark_at(old_copy, k)
                } else {
                    mark
                }) by {
                    if k < i {
                        assert(copy@[k] == old_copy[k]);
                    }
                }
                assert forall|j: int| 0 <= j < i + 1 implies {
                    &&& (#[trigger] before@[j]) <= j
                    &&& before@[j] > 0 ==> mark_at(copy@, before@[j] - 1) == mark_at(copy@, j)
                } by {
                    if j < i {
                        assert(before@[j] == old_before[j]);
                    }
                }
                assert forall|j: int, k: int| 0 <= j < i + 1 && before@[j] <= k < j implies 
                    #[trigger] mark_at(copy@, k) != #[trigger] mark_at(copy@, j) by {
                    if j < i {
                        assert(before@[j] == old_before[j]);
                        assert(mark_at(old_copy, k) != mark_at(old_copy, j));
                    } else {
                        if old_last.contains_key(mark) {
                            assert(mark_at(old_copy, k) != mark);
                        } else {
                            assert(old_last.contains_key(mark_at(old_copy, k)));
                        }
                    }
                }
                assert forall|h: u64| #[trigger] last@.contains_key(h) implies last@[h] < i + 1
                    && mark_at(copy@, last@[h] as int) == h by {
                    if h != mark {
                        assert(old_last.contains_key(h));
                    }
                }
                assert forall|h: u64, k: int| #[trigger]
                    last@.contains_key(h) && last@[h] < k < i + 1 implies #[trigger] mark_at(
                    copy@,
                    k,
                ) != h by {
                    if h != mark {
                        assert(old_last.contains_key(h));
                        if k < i {
                            assert(mark_at(old_copy, k) != h);
                        }
                    }
                }
                assert forall|j: int| 0 <= j < i + 1 implies last@.contains_key(
                    #[trigger] mark_at(copy@, j),
                ) by {
                    if j < i {
                        assert(old_last.contains_key(mark_at(old_copy, j)));
                    }
                }
            }
            i += 1;
        }
        assert(chain_views(chains@).take(i as int) =~= chain_views(chains@));
        EndIndex { chains: copy, before, last }
    }

    /// The start of the chain that ends here, if there is one.
    pub fn get(&self, end: &[u8]) -> (found: Option<&Vec<u8>>)
        ensures
            match found {
                Some(start) => self@.contains_key(end@) && self@[end@] == start@,
                None => !self@.contains_key(end@),
            },
    {
        proof {
            use_type_invariant(self);
        }
        let ghost views = chain_views(self.chains@);
        let mark = fingerprint_of(end);
        let mut at: usize = match self.last.get(&mark) {
            Some(at) => *at,
            None => {
                proof {
                    if end_map(views).contains_key(end@) {
                        lemma_end_map_source(views, end@);
                        let i = choose|i: int|
                            0 <= i < views.len() && (#[trigger] views[i]).end == end@;
                        assert(self.last@.contains_key(mark_at(self.chains@, i)));
                    }
                }
                return None;
            },
        };
        proof {
            assert forall|k: int| at < k < views.len() implies (#[trigger] views[k]).end
                != end@ by {
                assert(mark_at(self.chains@, k) != mark);
            }
        }
        loop
            invariant
                views == chain_views(self.chains@),
                mark == fingerprint(end@),
                at < self.chains@.len(),
                linked(self.chains@, self.before@, self.last@, self.chains@.len() as int),
                mark_at(self.chains@, at as int) == mark,
                forall|k: int| at < k < views.len() ==> (#[trigger] views[k]).end != end@,
            decreases at,
        {
            if bytes_equal(self.chains[at].end.as_slice(), end) {
                proof {
                    assert(views[at as int].end == end@);
                    lemma_end_map_last(views, at as int);
                }
                return Some(&self.chains[at].start);
            }
            let link: usize = self.before[at];
            proof {
                assert forall|k: int| link <= k < at implies (#[trigger] views[k]).end != end@ by {
                    assert(mark_at(self.chains@, k) != mark_at(self.chains@, at as int));
                }
            }
            if link == 0 {
                proof {
                    if end_map(views).contains_key(end@) {
                        lemma_end_map_source(views, end@);
                    }
                }
                return None;
            }
            at = link - 1;
        }
    }
}

} // verus!
