//! The file of target digests that a cracking run reads.
use vstd::prelude::*;
use vstd::slice::slice_subrange;
use crate::bytes::{byte_views, chunks, chunks_of, lemma_chunks_of};
use crate::hashing::{Algorithm, HASH_FILE_VERSION};
use crate::rainbow::crack::{BatchView, HashBatch};
use crate::rainbow::error::{RainbowError, RainbowFault};

verus! {

/// The batch that a file of digests holds, or why the file is refused: a
/// wrong version or a header cut short, an unknown algorithm name, or
/// digests that do not fill the rest of the file exactly. The byte with the
/// password length is passed over.
pub open spec fn parsed_hash_file(bytes: Seq<u8>) -> Result<BatchView, RainbowFault> {
    if bytes.len() < 3 || bytes[0] != HASH_FILE_VERSION {
        Err(RainbowFault::InvalidHeader)
    } else if bytes.len() < 2 + bytes[1] {
        Err(RainbowFault::InvalidHeader)
    } else {
        match Algorithm::named_bytes(bytes.subrange(2, 2 + bytes[1] as int)) {
            None => Err(RainbowFault::InvalidAlgorithm),
            Some(algorithm) => {
                let at = 3 + bytes[1] as int;
                if bytes.len() < at {
                    Err(RainbowFault::InvalidHeader)
                } else if (bytes.len() - at) % algorithm.digest_size() as int != 0 {
                    Err(RainbowFault::InvalidHeader)
                } else {
                    Ok(
                        BatchView {
                            algorithm,
                            digests: chunks_of(bytes.skip(at), algorithm.digest_size()),
                        },
                    )
                }
            },
        }
    }
}

/// Reads a file of digests into a batch of targets.
pub fn parse_hash_file(bytes: &[u8]) -> (res: Result<HashBatch, RainbowError>)
    ensures
        match res {
            Ok(batch) => parsed_hash_file(bytes@) == Ok::<BatchView, RainbowFault>(batch@),
            Err(e) => parsed_hash_file(bytes@) == Err::<BatchView, RainbowFault>(e@),
        },
        res matches Ok(batch) ==> forall|i: int|
            0 <= i < batch.digests@.len() ==> (#[trigger] batch.digests@[i])@.len()
                == batch.algorithm.digest_size(),
{
    if bytes.len() < 3 || bytes[0] != HASH_FILE_VERSION {
        return Err(RainbowError::InvalidHeader);
    }
    let name_len: usize = bytes[1] as usize;
    if bytes.len() - 2 < name_len {
        return Err(RainbowError::InvalidHeader);
    }
    let algorithm = match Algorithm::from_bytes(slice_subrange(bytes, 2, 2 + name_len)) {
        Some(algorithm) => algorithm,
        None => {
            return Err(RainbowError::InvalidAlgorithm);
        },
    };
    let at: usize = 3 + name_len;
    if bytes.len() < at {
        return Err(RainbowError::InvalidHeader);
    }
    let hash_size = algorithm.hash_size();
    if (bytes.len() - at) % hash_size != 0 {
        return Err(RainbowError::InvalidHeader);
    }
    let data = slice_subrange(bytes, at, bytes.len());
    assert(data@ =~= bytes@.skip(at as int));
    let digests = chunks(data, hash_size);
    let batch = HashBatch { algorithm, digests };
    proof {
        lemma_chunks_of(data@, hash_size as nat);
        assert forall|i: int| 0 <= i < batch.digests@.len() implies (#[trigger] batch.digests@[i])@.len()
            == algorithm.digest_size() by {
            assert(byte_views(batch.digests@)[i] == batch.digests@[i]@);
        }
    }
    Ok(batch)
}

} // verus!
