//! Merkle Proof for a MMR path

use crate::codec::{
    compact_len, lemma_parse_compact_len_is_encoding, lemma_parse_compact_len_of_encoding,
    parse_compact_len, push_compact_len, read_compact_len, Encodable,
};
use crate::error::Error;
use crate::hash;
use crate::hash::{hash_with_index, Hashable};
use crate::utils;
use vstd::bytes::{
    lemma_auto_spec_u64_to_from_le_bytes, spec_u64_from_le_bytes, spec_u64_to_le_bytes,
    u64_from_le_bytes, u64_to_le_bytes,
};
use vstd::prelude::*;
use vstd::slice::slice_subrange;

verus! {

/// A membership proof for one leaf: the size of the MMR that it was made
/// for, and the hashes that lead from the leaf to the root.
#[derive(Clone, Debug, PartialEq)]
pub struct MerkleProof {
    pub mmr_size: u64,
    pub path: Vec<hash::Hash>,
}

impl View for MerkleProof {
    type V = (u64, Seq<hash::Hash>);

    open spec fn view(&self) -> (u64, Seq<hash::Hash>) {
        (self.mmr_size, self.path@)
    }
}

/// The tag of the hash of the node at `pos` in a MMR with `mmr_size` nodes:
/// the index of the node, or `mmr_size` for what lies above the peaks.
pub open spec fn tag_of(pos: nat, mmr_size: u64) -> u64 {
    if pos > mmr_size {
        mmr_size
    } else {
        (pos - 1) as u64
    }
}

/// The hash that the hashes of `path` lead to, from the node at `pos` with
/// hash `hash` upward: within a tree the sibling stands on the side that its
/// position gives, a peak is joined with what lies to its right or, where it
/// is the last one, to its left, and above the peaks every hash of the path
/// stands on the left.
pub open spec fn replay(
    path: Seq<hash::Hash>,
    mmr_size: u64,
    peaks: Seq<nat>,
    pos: nat,
    hash: hash::Hash,
) -> hash::Hash
    decreases path.len(),
{
    if path.len() == 0 {
        hash
    } else {
        let sibling = path[0];
        let (parent, sibling_pos) = utils::spec_family(pos);
        let sibling_first = if peaks.contains(pos) {
            peaks.last() == pos
        } else if parent > mmr_size {
            true
        } else {
            utils::spec_is_left(sibling_pos)
        };
        let tag = tag_of(parent, mmr_size);
        let joined = if sibling_first {
            hash::node_hash(tag, sibling, hash)
        } else {
            hash::node_hash(tag, hash, sibling)
        };
        replay(path.drop_first(), mmr_size, peaks, parent, joined)
    }
}

/// The verdict on a proof for the node at `pos` whose content hashes to
/// `content`, given the peak positions `peaks`.
pub open spec fn spec_do_verify(
    proof: (u64, Seq<hash::Hash>),
    root: hash::Hash,
    content: hash::Hash,
    pos: u64,
    peaks: Seq<nat>,
) -> Result<bool, Error> {
    let start = hash::indexed_hash(tag_of(pos as nat, proof.0), content);
    let top = replay(proof.1, proof.0, peaks, pos as nat, start);
    if top == root {
        Ok(true)
    } else {
        Err(Error::InvalidRootHash(top, root))
    }
}

/// The verdict on a proof for the leaf at `pos` with the given encoding.
pub open spec fn spec_verify(
    proof: (u64, Seq<hash::Hash>),
    root: hash::Hash,
    encoding: Seq<u8>,
    pos: u64,
) -> Result<bool, Error> {
    spec_do_verify(proof, root, hash::digest(encoding), pos, utils::spec_peaks(proof.0 as nat))
}

/// The bytes of the hashes of `path`, one hash after the other.
pub open spec fn concat_hashes(path: Seq<hash::Hash>) -> Seq<u8>
    decreases path.len(),
{
    if path.len() == 0 {
        Seq::<u8>::empty()
    } else {
        concat_hashes(path.drop_last()) + path.last()@
    }
}

/// The 32 bytes that hold the hash number `i` in `bytes`.
pub open spec fn chunk(bytes: Seq<u8>, i: int) -> Seq<u8> {
    bytes.subrange(32 * i, 32 * i + 32)
}

/// The `count` hashes whose bytes stand in `bytes`, one after the other.
pub open spec fn split_hashes(bytes: Seq<u8>, count: nat) -> Seq<hash::Hash> {
    Seq::new(count, |i: int| hash::hash_of_bytes(chunk(bytes, i)))
}

/// The wire format of a proof: the size as 8 little-endian bytes, the number
/// of hashes as a compact length, and the hashes with 32 bytes each.
pub open spec fn spec_encode(proof: (u64, Seq<hash::Hash>)) -> Seq<u8> {
    spec_u64_to_le_bytes(proof.0) + compact_len(proof.1.len()) + concat_hashes(proof.1)
}

/// The proof that `bytes` hold in the wire format, where they hold one and
/// nothing else.
pub open spec fn spec_decode(bytes: Seq<u8>) -> Option<(u64, Seq<hash::Hash>)> {
    if bytes.len() < 8 {
        None
    } else {
        match parse_compact_len(bytes.skip(8)) {
            None => None,
            Some((count, used)) => {
                if bytes.len() == 8 + used + 32 * count {
                    Some(
                        (
                            spec_u64_from_le_bytes(bytes.take(8)),
                            split_hashes(bytes.skip(8 + used as int), count),
                        ),
                    )
                } else {
                    None
                }
            },
        }
    }
}

impl Default for MerkleProof {
    fn default() -> (p: Self)
        ensures
            p@ == (0u64, Seq::<hash::Hash>::empty()),
    {
        MerkleProof::new()
    }
}

/// Is `pos` among `peaks`.
fn is_peak(peaks: &[u64], pos: u64) -> (r: bool)
    ensures
        r == utils::positions(peaks@).contains(pos as nat),
{
    let mut i: usize = 0;
    while i < peaks.len()
        invariant
            i <= peaks.len(),
            forall|j: int| 0 <= j < i ==> utils::positions(peaks@)[j] != pos as nat,
        decreases peaks.len() - i,
    {
        if peaks[i] == pos {
            proof {
                assert(utils::positions(peaks@)[i as int] == pos as nat);
            }
            return true;
        }
        i += 1;
    }
    false
}

impl MerkleProof {
    /// The proof without any hash, for a MMR of size 0.
    pub fn new() -> (p: MerkleProof)
        ensures
            p@ == (0u64, Seq::<hash::Hash>::empty()),
    {
        MerkleProof { mmr_size: 0, path: Vec::new() }
    }

    /// Verify that `elem` is a MMR node at position `pos` given the root hash `root`.
    pub fn verify<T: Encodable>(&self, root: hash::Hash, elem: &T, pos: u64) -> (r: Result<
        bool,
        Error,
    >)
        requires
            pos >= 1,
            elem.has_encoding(),
        ensures
            r == spec_verify(self@, root, elem.encoding(), pos),
    {
        let peaks = utils::peaks(self.mmr_size);
        self.do_verify(root, &elem.encode(), pos, peaks.as_slice())
    }

    /// Verify that the node at `pos`, whose content is `elem`, leads to `root`
    /// along the path of this proof, given the peak positions `peaks`.
    pub fn do_verify<E: Hashable>(
        &self,
        root: hash::Hash,
        elem: &E,
        pos: u64,
        peaks: &[u64],
    ) -> (r: Result<bool, Error>)
        requires
            pos >= 1,
        ensures
            r == spec_do_verify(self@, root, elem.hashed(), pos, utils::positions(peaks@)),
    {
        let mut hash = if pos > self.mmr_size {
            hash_with_index(self.mmr_size, &elem.hash())
        } else {
            hash_with_index(pos - 1, &elem.hash())
        };
        // the position of the node that `hash` belongs to, as long as it fits
        let mut node: Option<u64> = Some(pos);
        let ghost node_pos: nat = pos as nat;
        let ghost top = replay(
            self.path@,
            self.mmr_size,
            utils::positions(peaks@),
            pos as nat,
            hash,
        );
        let mut i: usize = 0;
        proof {
            assert(self.path@.skip(0) =~= self.path@);
        }
        while i < self.path.len()
            invariant
                i <= self.path.len(),
                node_pos >= 1,
                match node {
                    Some(p) => node_pos == p,
                    None => node_pos > u64::MAX,
                },
                top == replay(
                    self.path@.skip(i as int),
                    self.mmr_size,
                    utils::positions(peaks@),
                    node_pos,
                    hash,
                ),
            decreases self.path.len() - i,
        {
            let sibling = self.path[i];
            proof {
                assert(self.path@.skip(i as int).drop_first() =~= self.path@.skip(i + 1));
                assert(self.path@.skip(i as int)[0] == sibling);
                utils::lemma_family_order(node_pos);
                if node is None {
                    assert forall|j: int|
                        0 <= j < utils::positions(peaks@).len() implies utils::positions(
                        peaks@,
                    )[j] != node_pos by {}
                }
            }
            // the parent's position where it fits, and on which side the sibling stands
            let family = match node {
                Some(p) => utils::checked_family(p),
                None => None,
            };
            let sibling_first = match node {
                Some(p) => {
                    if is_peak(peaks, p) {
                        peaks[peaks.len() - 1] == p
                    } else {
                        match family {
                            Some((parent_pos, sibling_pos)) => parent_pos > self.mmr_size
                                || utils::is_left(sibling_pos),
                            None => true,
                        }
                    }
                },
                None => true,
            };
            let tag = match family {
                Some((parent_pos, _)) => if parent_pos > self.mmr_size {
                    self.mmr_size
                } else {
                    parent_pos - 1
                },
                None => self.mmr_size,
            };
            let joined = if sibling_first {
                (sibling, hash).hash()
            } else {
                (hash, sibling).hash()
            };
            hash = hash_with_index(tag, &joined);
            node = match family {
                Some((parent_pos, _)) => Some(parent_pos),
                None => None,
            };
            proof {
                node_pos = utils::spec_family(node_pos).0;
            }
            i += 1;
        }
        // the path is used up: what it led to has to be the root
        if root == hash {
            Ok(true)
        } else {
            Err(Error::InvalidRootHash(hash, root))
        }
    }
}

impl MerkleProof {
    /// The proof in its wire format.
    pub fn encode(&self) -> (out: Vec<u8>)
        requires
            self.path@.len() <= u32::MAX,
        ensures
            out@ == spec_encode(self@),
    {
        let mut out = u64_to_le_bytes(self.mmr_size);
        push_compact_len(&mut out, self.path.len() as u32);
        let ghost head = out@;
        let mut i: usize = 0;
        proof {
            assert(self.path@.take(0) =~= Seq::<hash::Hash>::empty());
            assert(out@ =~= head + concat_hashes(self.path@.take(0)));
        }
        while i < self.path.len()
            invariant
                i <= self.path.len(),
                out@ == head + concat_hashes(self.path@.take(i as int)),
            decreases self.path.len() - i,
        {
            let h = &self.path[i];
            let ghost before = out@;
            let mut j: usize = 0;
            while j < 32
                invariant
                    j <= 32,
                    h == self.path@[i as int],
                    out@ == before + h@.take(j as int),
                decreases 32 - j,
            {
                out.push(h.0[j]);
                j += 1;
                proof {
                    assert(out@ =~= before + h@.take(j as int));
                }
            }
            proof {
                assert(h@.take(32) =~= h@);
                assert(self.path@.take(i + 1).drop_last() =~= self.path@.take(i as int));
                assert(self.path@.take(i + 1).last() == *h);
                assert(out@ =~= head + concat_hashes(self.path@.take(i + 1)));
            }
            i += 1;
        }
        proof {
            assert(self.path@.take(i as int) =~= self.path@);
        }
        out
    }

    /// Read a proof from its wire format. The bytes have to hold the proof
    /// and nothing else.
    pub fn decode(bytes: &[u8]) -> (r: Option<MerkleProof>)
        ensures
            match r {
                Some(p) => spec_decode(bytes@) == Some(p@),
                None => spec_decode(bytes@) is None,
            },
    {
        if bytes.len() < 8 {
            return None;
        }
        let mmr_size = u64_from_le_bytes(slice_subrange(bytes, 0, 8));
        let rest = slice_subrange(bytes, 8, bytes.len());
        proof {
            assert(rest@ =~= bytes@.skip(8));
            assert(bytes@.subrange(0, 8) =~= bytes@.take(8));
        }
        let (count, used) = match read_compact_len(rest) {
            Some(len) => len,
            None => {
                return None;
            },
        };
        if bytes.len() as u64 != 8 + used as u64 + 32 * (count as u64) {
            return None;
        }
        let body = slice_subrange(bytes, 8 + used, bytes.len());
        proof {
            assert(body@ =~= bytes@.skip(8 + used as int));
        }
        let mut path: Vec<hash::Hash> = Vec::new();
        let mut i: usize = 0;
        assert(body@.len() == body.len());
        while i < count as usize
            invariant
                i <= count,
                body@.len() == 32 * count,
                32 * count <= usize::MAX,
                path@.len() == i,
                forall|j: int| 0 <= j < i ==> path@[j] == split_hashes(body@, count as nat)[j],
            decreases count - i,
        {
            let h = hash::Hash::from_vec(slice_subrange(body, 32 * i, 32 * i + 32));
            proof {
                let part = chunk(body@, i as int);
                assert(hash::padded(part) =~= part);
                hash::lemma_hash_of_bytes(part);
                hash::lemma_hash_ext(h, hash::hash_of_bytes(part));
            }
            path.push(h);
            i += 1;
        }
        proof {
            assert(path@ =~= split_hashes(body@, count as nat));
        }
        Some(MerkleProof { mmr_size, path })
    }
}

/// The bytes of `path` are 32 for each hash, and each hash stands at its place.
pub proof fn lemma_concat_hashes(path: Seq<hash::Hash>)
    ensures
        concat_hashes(path).len() == 32 * path.len(),
        forall|i: int| 0 <= i < path.len() ==> #[trigger] chunk(concat_hashes(path), i) == path[i]@,
    decreases path.len(),
{
    broadcast use vstd::array::group_array_axioms;

    if path.len() > 0 {
        let front = path.drop_last();
        lemma_concat_hashes(front);
        assert(path.last()@.len() == 32);
        assert forall|i: int| 0 <= i < path.len() implies #[trigger] chunk(
            concat_hashes(path),
            i,
        ) == path[i]@ by {
            if i < path.len() - 1 {
                assert(chunk(concat_hashes(path), i) =~= chunk(concat_hashes(front), i));
                assert(front[i] == path[i]);
            } else {
                assert(chunk(concat_hashes(path), i) =~= path.last()@);
            }
        }
    }
}

/// Hashes that were split off a string of bytes give that string back.
pub proof fn lemma_concat_of_split(bytes: Seq<u8>, count: nat)
    requires
        bytes.len() == 32 * count,
    ensures
        concat_hashes(split_hashes(bytes, count)) == bytes,
    decreases count,
{
    if count == 0 {
        assert(bytes =~= Seq::<u8>::empty());
    } else {
        let front = bytes.take(32 * (count - 1));
        let last = bytes.subrange(32 * (count - 1), 32 * count as int);
        lemma_concat_of_split(front, (count - 1) as nat);
        hash::lemma_hash_of_bytes(last);
        let hashes = split_hashes(bytes, count);
        assert(hashes.drop_last() =~= split_hashes(front, (count - 1) as nat)) by {
            assert forall|i: int| 0 <= i < count - 1 implies #[trigger] chunk(bytes, i) == chunk(
                front,
                i,
            ) by {
                assert(chunk(bytes, i) =~= chunk(front, i));
            }
        }
        assert(concat_hashes(hashes) =~= bytes);
    }
}

/// A proof is read back from its wire format as it was written.
pub proof fn lemma_decode_encode(proof: (u64, Seq<hash::Hash>))
    requires
        proof.1.len() <= u32::MAX,
    ensures
        spec_decode(spec_encode(proof)) == Some(proof),
{
    lemma_auto_spec_u64_to_from_le_bytes();
    let size_bytes = spec_u64_to_le_bytes(proof.0);
    let count = proof.1.len();
    let body = concat_hashes(proof.1);
    let bytes = spec_encode(proof);
    lemma_concat_hashes(proof.1);
    lemma_parse_compact_len_of_encoding(count, body);
    assert(bytes.skip(8) =~= compact_len(count) + body);
    assert(bytes.take(8) =~= size_bytes);
    let used = compact_len(count).len();
    assert(bytes.skip(8 + used as int) =~= body);
    assert forall|i: int| 0 <= i < count implies split_hashes(body, count)[i] == proof.1[i] by {
        assert(chunk(body, i) == proof.1[i]@);
        hash::lemma_hash_ext(hash::hash_of_bytes(proof.1[i]@), proof.1[i]);
    }
    assert(split_hashes(body, count) =~= proof.1);
}

/// Bytes from which a proof is read are the wire format of that proof.
pub proof fn lemma_encode_decode(bytes: Seq<u8>)
    requires
        spec_decode(bytes) is Some,
    ensures
        spec_decode(bytes) matches Some(proof) && spec_encode(proof) == bytes && proof.1.len()
            <= u32::MAX,
{
    lemma_auto_spec_u64_to_from_le_bytes();
    let proof = spec_decode(bytes)->0;
    let (count, used) = parse_compact_len(bytes.skip(8))->0;
    lemma_parse_compact_len_is_encoding(bytes.skip(8));
    let body = bytes.skip(8 + used as int);
    lemma_concat_of_split(body, count);
    assert(bytes.skip(8).subrange(0, used as int) =~= bytes.subrange(8, 8 + used as int));
    assert(bytes =~= bytes.take(8) + bytes.subrange(8, 8 + used as int) + body);
}

} // verus!
