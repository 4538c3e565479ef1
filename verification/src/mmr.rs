//! The Merkle-Mountain-Range itself: appending leaves, checking the stored
//! hashes, and producing roots and membership proofs.

use crate::codec::Encodable;
use crate::error::Error;
use crate::geometry::{lemma_merge_walk, ones_from};
use crate::hash;
use crate::hash::{hash_with_index, Hashable};
use crate::merkle_proof::MerkleProof;
use crate::store::{lookup, Store};
use crate::utils;
use core::marker::PhantomData;
use vstd::arithmetic::power2::pow2;
use vstd::prelude::*;

verus! {

/// The index in the store of the node at position `pos`.
pub open spec fn index_of(pos: nat) -> nat {
    if pos == 0 {
        0
    } else {
        (pos - 1) as nat
    }
}

/// The hashes at `positions`, in their order, or the first of them that the
/// log does not hold.
pub open spec fn collect(log: Seq<hash::Hash>, positions: Seq<nat>) -> Result<
    Seq<hash::Hash>,
    Error,
>
    decreases positions.len(),
{
    if positions.len() == 0 {
        Ok(Seq::<hash::Hash>::empty())
    } else {
        match collect(log, positions.drop_last()) {
            Err(e) => Err(e),
            Ok(found) => {
                let idx = index_of(positions.last());
                if idx < log.len() {
                    Ok(found.push(log[idx as int]))
                } else {
                    Err(Error::MissingHashAtIndex(idx as u64))
                }
            },
        }
    }
}

/// The peaks' hashes `hashes`, leftmost first, folded from the right into
/// one hash, each step tagged with `size`; `None` where there is no peak.
pub open spec fn bag(hashes: Seq<hash::Hash>, size: u64) -> Option<hash::Hash>
    decreases hashes.len(),
{
    if hashes.len() == 0 {
        None
    } else {
        match bag(hashes.drop_first(), size) {
            None => Some(hashes[0]),
            Some(lower) => Some(hash::node_hash(size, hashes[0], lower)),
        }
    }
}

/// The hashes of the peaks of a MMR with `size` nodes, leftmost first.
pub open spec fn spec_peak_hashes(log: Seq<hash::Hash>, size: u64) -> Result<
    Seq<hash::Hash>,
    Error,
> {
    collect(log, utils::spec_peaks(size as nat))
}

/// The root of a MMR with `size` nodes.
pub open spec fn spec_root(log: Seq<hash::Hash>, size: u64) -> Result<hash::Hash, Error> {
    if size == 0 {
        Ok(hash::spec_zero_hash())
    } else {
        match spec_peak_hashes(log, size) {
            Err(e) => Err(e),
            Ok(peaks) => match bag(peaks, size) {
                None => Err(Error::MissingRootNode),
                Some(root) => Ok(root),
            },
        }
    }
}

/// The hashes that the log holds of those of `positions` that lie behind
/// `pivot` (where `behind` holds) or before it (where it does not).
pub open spec fn select(log: Seq<hash::Hash>, positions: Seq<nat>, pivot: nat, behind: bool) -> Seq<
    hash::Hash,
>
    decreases positions.len(),
{
    if positions.len() == 0 {
        Seq::<hash::Hash>::empty()
    } else {
        let found = select(log, positions.drop_last(), pivot, behind);
        let p = positions.last();
        let wanted = if behind {
            p > pivot
        } else {
            p < pivot
        };
        if wanted && index_of(p) < log.len() {
            found.push(log[index_of(p) as int])
        } else {
            found
        }
    }
}

/// The bagged hash of the peaks that stand to the right of the peak at `pos`
/// in a MMR with `size` nodes.
pub open spec fn spec_bag_lower_peaks(log: Seq<hash::Hash>, size: u64, pos: nat) -> Option<
    hash::Hash,
> {
    bag(select(log, utils::spec_peaks(size as nat), pos, true), size)
}

/// What a proof holds behind the hashes of the family path: the bagged hash
/// of the lower peaks first, then the higher peaks from right to left.
pub open spec fn spec_peak_path(log: Seq<hash::Hash>, size: u64, pos: nat) -> Seq<hash::Hash> {
    let higher = select(log, utils::spec_peaks(size as nat), pos, false);
    match spec_bag_lower_peaks(log, size, pos) {
        Some(lower) => higher.push(lower).reverse(),
        None => higher.reverse(),
    }
}

/// The hashes that the log holds of the siblings on a family path.
pub open spec fn siblings(log: Seq<hash::Hash>, family_path: Seq<(nat, nat)>) -> Seq<hash::Hash>
    decreases family_path.len(),
{
    if family_path.len() == 0 {
        Seq::<hash::Hash>::empty()
    } else {
        let found = siblings(log, family_path.drop_last());
        let idx = index_of(family_path.last().1);
        if idx < log.len() {
            found.push(log[idx as int])
        } else {
            found
        }
    }
}

/// The path of the membership proof for the leaf at `pos` in a MMR with
/// `size` nodes.
pub open spec fn spec_proof(log: Seq<hash::Hash>, size: u64, pos: u64) -> Result<
    Seq<hash::Hash>,
    Error,
> {
    if !utils::spec_is_leaf(index_of(pos as nat)) {
        Err(Error::ExpectingLeafNode(pos))
    } else {
        match lookup(log, index_of(pos as nat) as u64) {
            Err(e) => Err(e),
            Ok(_) => {
                let family_path = utils::spec_family_path(pos as nat, size as nat);
                let peak = if family_path.len() > 0 {
                    family_path.last().0
                } else {
                    pos as nat
                };
                Ok(siblings(log, family_path) + spec_peak_path(log, size, peak))
            },
        }
    }
}

/// The hash that commits the leaf with the given encoding to the index `idx`.
pub open spec fn leaf_hash(idx: u64, encoding: Seq<u8>) -> hash::Hash {
    hash::indexed_hash(idx, hash::digest(encoding))
}

/// The hashes of the parents that come to stand above the node at index
/// `cur_idx` with hash `cur`, which is the root of a tree of height `level`,
/// as long as `map` has a peak of that height to its left; or the index of
/// the first such peak that the log does not hold.
pub open spec fn merges(
    log: Seq<hash::Hash>,
    cur_idx: nat,
    cur: hash::Hash,
    map: nat,
    level: nat,
) -> Result<Seq<hash::Hash>, Error>
    decreases 64 - level,
{
    if level < 64 && utils::has_bit(map, level) {
        let left_idx = (cur_idx + 1 - 2 * pow2(level)) as nat;
        if left_idx < log.len() {
            let parent = hash::node_hash((cur_idx + 1) as u64, log[left_idx as int], cur);
            prefixed(seq![parent], merges(log, cur_idx + 1, parent, map, level + 1))
        } else {
            Err(Error::MissingHashAtIndex(left_idx as u64))
        }
    } else {
        Ok(Seq::<hash::Hash>::empty())
    }
}

/// `prefix` put before the hashes of a successful result.
pub open spec fn prefixed(prefix: Seq<hash::Hash>, r: Result<Seq<hash::Hash>, Error>) -> Result<
    Seq<hash::Hash>,
    Error,
> {
    match r {
        Ok(rest) => Ok(prefix + rest),
        Err(e) => Err(e),
    }
}

/// The hashes that appending a leaf with the given encoding adds to a MMR
/// with `size` nodes: the hash of the leaf, then those of the parents that
/// the leaf completes.
pub open spec fn spec_append(log: Seq<hash::Hash>, size: u64, encoding: Seq<u8>) -> Result<
    Seq<hash::Hash>,
    Error,
> {
    let (map, height) = utils::spec_peak_height_map(size as nat);
    if height != 0 {
        Err(Error::InvalidNodeHeight(height as u64))
    } else {
        let leaf = leaf_hash(size, encoding);
        prefixed(seq![leaf], merges(log, size as nat, leaf, map, 0))
    }
}

/// What is wrong with the node at index `idx`, if anything: an inner node
/// has to hold the hash of its two children, tagged with its own index.
pub open spec fn node_fault(log: Seq<hash::Hash>, idx: nat) -> Option<Error> {
    let height = utils::spec_node_height(idx);
    let left_idx = (idx - pow2(height)) as nat;
    let right_idx = (idx - 1) as nat;
    if height == 0 {
        None
    } else if left_idx >= log.len() {
        Some(Error::MissingHashAtIndex(left_idx as u64))
    } else if right_idx >= log.len() {
        Some(Error::MissingHashAtIndex(right_idx as u64))
    } else if idx >= log.len() {
        Some(Error::MissingHashAtIndex(idx as u64))
    } else {
        let expected = hash::node_hash(idx as u64, log[left_idx as int], log[right_idx as int]);
        if log[idx as int] != expected {
            Some(Error::InvalidNodeHash(idx as u64, log[idx as int], expected))
        } else {
            None
        }
    }
}

/// The first fault among the first `size` nodes, if there is any.
pub open spec fn first_fault(log: Seq<hash::Hash>, size: nat) -> Option<Error>
    decreases size,
{
    if size == 0 {
        None
    } else {
        match first_fault(log, (size - 1) as nat) {
            Some(e) => Some(e),
            None => node_fault(log, (size - 1) as nat),
        }
    }
}

/// A fault among the first nodes stays the first fault of every larger MMR.
pub proof fn lemma_fault_stays(log: Seq<hash::Hash>, n: nat, size: nat)
    requires
        n <= size,
        first_fault(log, n) is Some,
    ensures
        first_fault(log, size) == first_fault(log, n),
    decreases size - n,
{
    if n < size {
        lemma_fault_stays(log, n, (size - 1) as nat);
    }
}

/// Merkle-Mountain-Range (MMR) implementation.
///
/// All tree positions start at `'1'`. MMR positions are depth-first, post-order tree
/// traversal node positions and should not be seen as array indices.
///
/// The MMR `Store`, however, is a flat list representation of the MMR, i.e. an array of
/// nodes. Hence, `Store` elements are accessed using a `'0'` based index.
///
/// Again, positions are `'1'` based tree node positions, indices are `'0'` based `Store`
/// locations.
pub struct MerkleMountainRange<T, S> where T: Clone + Encodable, S: Store<T> {
    /// total number of MMR nodes, i.e. MMR size
    pub size: u64,
    /// backing store for the MMR
    pub store: S,
    /// ties the MMR to the type of its leaves
    pub marker: PhantomData<T>,
}

impl<T, S> MerkleMountainRange<T, S> where T: Clone + Encodable, S: Store<T> {
    /// The hashes of the nodes that the store holds.
    pub open spec fn log(&self) -> Seq<hash::Hash> {
        self.store.hash_log()
    }

    /// A MMR with `size` nodes whose hashes `store` holds: an empty one, or
    /// one that takes up a store that was filled before.
    pub fn new(size: u64, store: S) -> (mmr: Self)
        ensures
            mmr.size == size,
            mmr.store == store,
    {
        MerkleMountainRange { size, store, marker: PhantomData }
    }

    /// Return node hash at `pos`.
    ///
    /// Note that in case of an error, [`Error::MissingHashAtIndex`] is returned and
    /// the error is referring to `pos - 1`, i.e. an index.
    pub fn hash(&self, pos: u64) -> (r: Result<hash::Hash, Error>)
        ensures
            r == lookup(self.log(), index_of(pos as nat) as u64),
    {
        self.store.hash_at(pos.saturating_sub(1))
    }

    /// Return MMR size, i.e. total number of nodes.
    pub fn size(&self) -> (n: u64)
        ensures
            n == self.size,
    {
        self.size
    }

    /// Return MMR peak hashes as a vec
    ///
    /// Peaks are listed left to right, starting with the leftmost peak. The leftmost
    /// peak is also always the 'highest' peak.
    pub fn peaks(&self) -> (r: Result<Vec<hash::Hash>, Error>)
        ensures
            match r {
                Ok(hashes) => spec_peak_hashes(self.log(), self.size) == Ok::<
                    Seq<hash::Hash>,
                    Error,
                >(hashes@),
                Err(e) => spec_peak_hashes(self.log(), self.size) == Err::<Seq<hash::Hash>, Error>(
                    e,
                ),
            },
    {
        let peaks = utils::peaks(self.size);
        let mut hashes: Vec<hash::Hash> = Vec::new();
        let mut i: usize = 0;
        proof {
            assert(utils::positions(peaks@).take(0) =~= Seq::<nat>::empty());
        }
        while i < peaks.len()
            invariant
                i <= peaks.len(),
                utils::positions(peaks@) == utils::spec_peaks(self.size as nat),
                collect(self.log(), utils::positions(peaks@).take(i as int)) == Ok::<
                    Seq<hash::Hash>,
                    Error,
                >(hashes@),
            decreases peaks.len() - i,
        {
            let p = peaks[i];
            proof {
                let all = utils::positions(peaks@);
                assert(all.take(i + 1).drop_last() =~= all.take(i as int));
                assert(all.take(i + 1).last() == p as nat);
            }
            match self.store.hash_at(p.saturating_sub(1)) {
                Ok(h) => {
                    hashes.push(h);
                },
                Err(e) => {
                    proof {
                        lemma_collect_fails(
                            self.log(),
                            utils::positions(peaks@),
                            i + 1,
                        );
                    }
                    return Err(e);
                },
            }
            i += 1;
        }
        proof {
            assert(utils::positions(peaks@).take(i as int) =~= utils::positions(peaks@));
        }
        Ok(hashes)
    }

    /// Return the root hash of the MMR.
    ///
    /// Find all the current peaks and bag them together into a single peak hash.
    pub fn root(&self) -> (r: Result<hash::Hash, Error>)
        ensures
            r == spec_root(self.log(), self.size),
    {
        if self.size == 0 {
            return Ok(hash::zero_hash());
        }
        let peaks = match self.peaks() {
            Ok(peaks) => peaks,
            Err(e) => {
                return Err(e);
            },
        };
        match bag_hashes(&peaks, self.size) {
            Some(root) => Ok(root),
            None => Err(Error::MissingRootNode),
        }
    }

    /// Append `elem` to the MMR. Return new MMR size.
    pub fn append(&mut self, elem: &T) -> (r: Result<u64, Error>)
        requires
            elem.has_encoding(),
            old(self).size < u64::MAX,
        ensures
            match r {
                Ok(n) => spec_append(old(self).log(), old(self).size, elem.encoding()) matches Ok(
                    added,
                ) && final(self).log() == old(self).log() + added && n == old(self).size
                    + added.len() && final(self).size == n,
                Err(e) => {
                    &&& final(self).log() == old(self).log()
                    &&& final(self).size == old(self).size
                    &&& spec_append(old(self).log(), old(self).size, elem.encoding()) matches Err(
                        cause,
                    ) ==> e == cause
                },
            },
            spec_append(old(self).log(), old(self).size, elem.encoding()) is Err ==> r is Err,
            r is Ok ==> final(self).size > old(self).size && final(self).log()[old(
                self,
            ).log().len() as int] == leaf_hash(old(self).size, elem.encoding()),
    {
        let idx = self.size;
        let node_hash = hash_with_index(idx, &elem.encode().hash());

        let (peak_map, node_height) = utils::peak_height_map(idx);

        // a new node always has to be a leaf node (height = 0)
        if node_height != 0 {
            return Err(Error::InvalidNodeHeight(node_height));
        }
        proof {
            vstd::arithmetic::power2::lemma2_to64_rest();
            lemma_merge_walk(idx as nat, peak_map as nat, 0);
        }
        let (new, peak_hashes) = match self.bag_the_peaks(node_hash, peak_map) {
            Ok(bagged) => bagged,
            Err(e) => {
                return Err(e);
            },
        };
        let stored = self.store.append(elem, peak_hashes.as_slice());
        self.settle(new, stored)
    }

    /// Take into account what the store made of the `new` hashes of an
    /// append: where it took them, the MMR has grown by them; where it did
    /// not, the MMR is as it was and the error of the store is handed on.
    fn settle(&mut self, new: u64, stored: Result<(), Error>) -> (r: Result<u64, Error>)
        requires
            old(self).size + new <= u64::MAX,
        ensures
            final(self).store == old(self).store,
            match stored {
                Ok(_) => final(self).size == old(self).size + new && r == Ok::<u64, Error>(
                    final(self).size,
                ),
                Err(e) => final(self).size == old(self).size && r == Err::<u64, Error>(e),
            },
    {
        match stored {
            Ok(_) => {
                self.size += new;
                Ok(self.size)
            },
            Err(e) => Err(e),
        }
    }

    /// Validate the MMR by re-calculating the hash of all inner, i.e. parent nodes.
    /// Return `true`, if the MMR is valid or an error.
    pub fn validate(&self) -> (r: Result<bool, Error>)
        ensures
            r == match first_fault(self.log(), self.size as nat) {
                None => Ok::<bool, Error>(true),
                Some(e) => Err::<bool, Error>(e),
            },
    {
        let mut idx: u64 = 0;
        while idx < self.size
            invariant
                idx <= self.size,
                first_fault(self.log(), idx as nat) is None,
            decreases self.size - idx,
        {
            let height = utils::node_height(idx);
            proof {
                if height > 0 {
                    utils::lemma_inner_node_children(idx as nat);
                    utils::lemma_bit_test(0, height);
                }
                if node_fault(self.log(), idx as nat) is Some {
                    lemma_fault_stays(self.log(), (idx + 1) as nat, self.size as nat);
                }
            }
            // inner nodes, i.e. parents start at height 1
            if height > 0 {
                // recalculate parent hash
                let left_idx = idx - (1u64 << height);
                let left_hash = match self.store.hash_at(left_idx) {
                    Ok(h) => h,
                    Err(e) => {
                        return Err(e);
                    },
                };
                let right_idx = idx - 1;
                let right_hash = match self.store.hash_at(right_idx) {
                    Ok(h) => h,
                    Err(e) => {
                        return Err(e);
                    },
                };
                let tmp = (left_hash, right_hash).hash();
                let tmp = hash_with_index(idx, &tmp);

                // check against expected parent hash
                let parent_hash = match self.store.hash_at(idx) {
                    Ok(h) => h,
                    Err(e) => {
                        return Err(e);
                    },
                };
                if tmp != parent_hash {
                    return Err(Error::InvalidNodeHash(idx, parent_hash, tmp));
                }
            }
            idx += 1;
        }
        Ok(true)
    }

    /// Calculate a single MMR root by 'bagging the peaks'.
    ///
    /// Return the number of new nodes added as well as a merkle path to the MMR root.
    ///
    /// `peak_map` is obtained from  [`utils::peak_height_map`] and contains an encoded
    /// list of the height for already existing MMR peaks.
    fn bag_the_peaks(&self, node_hash: hash::Hash, peak_map: u64) -> (r: Result<
        (u64, Vec<hash::Hash>),
        Error,
    >)
        requires
            peak_map as nat == utils::spec_peak_height_map(self.size as nat).0,
            self.size as nat + 1 + ones_from(peak_map as nat, 0) <= u64::MAX,
        ensures
            match r {
                Ok((new, path)) => prefixed(
                    seq![node_hash],
                    merges(self.log(), self.size as nat, node_hash, peak_map as nat, 0),
                ) == Ok::<Seq<hash::Hash>, Error>(path@) && new == path@.len() && self.size + new
                    <= u64::MAX,
                Err(e) => merges(self.log(), self.size as nat, node_hash, peak_map as nat, 0)
                    == Err::<Seq<hash::Hash>, Error>(e),
            },
    {
        // start with the node added before `node_hash`
        let mut idx = self.size;
        // number of new nodes added while bagging
        let mut new: u64 = 0;
        // current height encoded as power of 2
        let mut height = 1u64;
        // merkle path to the root, always starts with the new node
        let mut merkle_path: Vec<hash::Hash> = Vec::new();
        merkle_path.push(node_hash);
        // init peak hash with new node
        let mut peak_hash = node_hash;

        new += 1;  // we add at least `node_hash`

        let ghost map = peak_map as nat;
        let ghost level: u64 = 0;
        let ghost target = prefixed(
            seq![node_hash],
            merges(self.log(), self.size as nat, node_hash, map, 0),
        );
        proof {
            utils::lemma_bit_test(peak_map, 0);
            assert(height == 1u64 << 0) by (bit_vector)
                requires
                    height == 1,
            ;
        }
        loop
            invariant
                level <= 63,
                map == peak_map as nat,
                map == utils::descend(self.size as nat, 64).0,
                height == 1u64 << level,
                idx == self.size + level,
                new == level + 1,
                merkle_path@.len() == level + 1,
                idx + 1 + ones_from(map, level as nat) <= u64::MAX,
                target == prefixed(
                    seq![node_hash],
                    merges(self.log(), self.size as nat, node_hash, map, 0),
                ),
                target == prefixed(
                    merkle_path@,
                    merges(self.log(), idx as nat, peak_hash, map, level as nat),
                ),
            ensures
                target == Ok::<Seq<hash::Hash>, Error>(merkle_path@),
                new == merkle_path@.len(),
                self.size + new <= u64::MAX,
                target == prefixed(
                    seq![node_hash],
                    merges(self.log(), self.size as nat, node_hash, map, 0),
                ),
            decreases 64 - level,
        {
            proof {
                utils::lemma_bit_test(peak_map, level);
            }
            if (peak_map & height) == 0 {
                proof {
                    assert(merkle_path@ + Seq::<hash::Hash>::empty() =~= merkle_path@);
                }
                break ;
            }
            proof {
                utils::lemma_descend_bit_taken(self.size as nat, 64, level as nat);
                vstd::arithmetic::power2::lemma_pow2_unfold((level + 1) as nat);
                if level == 63 {
                    vstd::arithmetic::power2::lemma2_to64_rest();
                    assert(false);
                }
            }
            let left_idx = idx + 1 - 2 * height;
            let left_hash = match self.store.hash_at(left_idx) {
                Ok(h) => h,
                Err(e) => {
                    return Err(e);
                },
            };

            idx += 1;  // idx for new peak

            peak_hash = (left_hash, peak_hash).hash();
            peak_hash = hash_with_index(idx, &peak_hash);
            let ghost before = merkle_path@;
            merkle_path.push(peak_hash);
            proof {
                let rest = merges(self.log(), idx as nat, peak_hash, map, (level + 1) as nat);
                if let Ok(tail) = rest {
                    assert(merkle_path@ + tail =~= before + (seq![peak_hash] + tail));
                }
            }
            let ghost old_height = height;
            height = height * 2;  // next power of 2
            assert(height == 1u64 << ((level + 1) as u64)) by (bit_vector)
                requires
                    height == old_height * 2,
                    old_height == 1u64 << level,
                    level < 63,
            ;
            new += 1;  // new peak added
            proof {
                level = (level + 1) as u64;
            }
        }
        Ok((new, merkle_path))
    }

    /// Return a MMR membership proof for a leaf node at position `pos`.
    ///
    /// Note that this proof is `complete` in the sense that it does include all
    /// nodes up to the MMR root.
    ///
    /// See [`Self::partial_proof`] for a proof containing only a subset of the nodes.
    ///
    pub fn prove(&self, pos: u64) -> (r: Result<MerkleProof, Error>)
        ensures
            match r {
                Ok(p) => spec_proof(self.log(), self.size, pos) == Ok::<Seq<hash::Hash>, Error>(
                    p.path@,
                ) && p.mmr_size == self.size,
                Err(e) => spec_proof(self.log(), self.size, pos) == Err::<Seq<hash::Hash>, Error>(
                    e,
                ),
            },
    {
        self.partial_proof(pos, self.size)
    }

    /// Return a MMR membership proof for a leaf at position `pos` including `size` nodes.
    ///
    /// Note that this is a `partial` proof in the sense that it does **not** include all
    /// nodes. Only a subset of nodes for a MMR with the given size is included.
    ///
    /// See [`Self::prove`] for a complete proof.
    ///
    pub fn partial_proof(&self, pos: u64, size: u64) -> (r: Result<MerkleProof, Error>)
        ensures
            match r {
                Ok(p) => spec_proof(self.log(), size, pos) == Ok::<Seq<hash::Hash>, Error>(
                    p.path@,
                ) && p.mmr_size == size,
                Err(e) => spec_proof(self.log(), size, pos) == Err::<Seq<hash::Hash>, Error>(e),
            },
    {
        if !utils::is_leaf(pos.saturating_sub(1)) {
            return Err(Error::ExpectingLeafNode(pos));
        }
        match self.hash(pos) {
            Ok(_) => {},
            Err(e) => {
                return Err(e);
            },
        }
        let family_path = utils::family_path(pos, size);
        let mut path: Vec<hash::Hash> = Vec::new();
        let ghost steps = utils::position_pairs(family_path@);
        let mut i: usize = 0;
        proof {
            assert(steps.take(0) =~= Seq::<(nat, nat)>::empty());
        }
        while i < family_path.len()
            invariant
                i <= family_path.len(),
                steps == utils::position_pairs(family_path@),
                path@ == siblings(self.log(), steps.take(i as int)),
            decreases family_path.len() - i,
        {
            let sibling = family_path[i].1;
            proof {
                assert(steps.take(i + 1).drop_last() =~= steps.take(i as int));
                assert(steps.take(i + 1).last() == steps[i as int]);
            }
            match self.hash(sibling) {
                Ok(h) => {
                    path.push(h);
                },
                Err(_) => {},
            }
            i += 1;
        }
        proof {
            assert(steps.take(i as int) =~= steps);
        }
        let peak = if family_path.len() > 0 {
            family_path[family_path.len() - 1].0
        } else {
            pos
        };
        let mut peak_path = self.peak_path_at(peak, size);
        path.append(&mut peak_path);
        Ok(MerkleProof { mmr_size: size, path })
    }

    /// The hashes that the store holds of those of `positions` that lie behind
    /// `pivot` (where `behind` holds) or before it (where it does not).
    fn select_hashes(&self, positions: &Vec<u64>, pivot: u64, behind: bool) -> (found: Vec<
        hash::Hash,
    >)
        ensures
            found@ == select(self.log(), utils::positions(positions@), pivot as nat, behind),
    {
        let mut found: Vec<hash::Hash> = Vec::new();
        let ghost all = utils::positions(positions@);
        let mut i: usize = 0;
        proof {
            assert(all.take(0) =~= Seq::<nat>::empty());
        }
        while i < positions.len()
            invariant
                i <= positions.len(),
                all == utils::positions(positions@),
                found@ == select(self.log(), all.take(i as int), pivot as nat, behind),
            decreases positions.len() - i,
        {
            let p = positions[i];
            proof {
                assert(all.take(i + 1).drop_last() =~= all.take(i as int));
                assert(all.take(i + 1).last() == p as nat);
            }
            let wanted = if behind {
                p > pivot
            } else {
                p < pivot
            };
            if wanted {
                match self.hash(p) {
                    Ok(h) => {
                        found.push(h);
                    },
                    Err(_) => {},
                }
            }
            i += 1;
        }
        proof {
            assert(all.take(i as int) =~= all);
        }
        found
    }

    /// Path with all peak hashes excluding the peak at `pos`.
    ///
    /// The returned path vector will contain the peak hashes from right to left,
    /// i.e. from the lowest to the highest peak.
    pub fn peak_path(&self, pos: u64) -> (path: Vec<hash::Hash>)
        ensures
            path@ == spec_peak_path(self.log(), self.size, pos as nat),
    {
        self.peak_path_at(pos, self.size)
    }

    /// The peak path for the peak at `pos` of the MMR as it was with `size` nodes.
    pub fn peak_path_at(&self, pos: u64, size: u64) -> (path: Vec<hash::Hash>)
        ensures
            path@ == spec_peak_path(self.log(), size, pos as nat),
    {
        let lower = self.bag_lower_peaks_at(pos, size);
        let peaks = utils::peaks(size);
        // path with higher peaks, if there are any
        let mut path = self.select_hashes(&peaks, pos, false);
        if let Some(lower) = lower {
            path.push(lower);
        }
        reversed(&path)
    }

    /// Bag all the peaks 'lower' than the peak at `pos`.
    ///
    /// Peaks are ordered left to right. The leftmost peak is always the 'highest' peak.
    /// Due to this ordering, a 'lower' peak will always have a **higher** index.
    pub fn bag_lower_peaks(&self, pos: u64) -> (r: Option<hash::Hash>)
        ensures
            r == spec_bag_lower_peaks(self.log(), self.size, pos as nat),
    {
        self.bag_lower_peaks_at(pos, self.size)
    }

    /// The bagged lower peaks for the peak at `pos` of the MMR as it was with
    /// `size` nodes.
    pub fn bag_lower_peaks_at(&self, pos: u64, size: u64) -> (r: Option<hash::Hash>)
        ensures
            r == spec_bag_lower_peaks(self.log(), size, pos as nat),
    {
        let peaks = utils::peaks(size);
        let lower = self.select_hashes(&peaks, pos, true);
        bag_hashes(&lower, size)
    }
}

/// The hashes of `hashes` in reverse order.
fn reversed(hashes: &Vec<hash::Hash>) -> (r: Vec<hash::Hash>)
    ensures
        r@ == hashes@.reverse(),
{
    let mut r: Vec<hash::Hash> = Vec::new();
    let mut i: usize = hashes.len();
    while i > 0
        invariant
            i <= hashes.len(),
            r@.len() == hashes.len() - i,
            forall|j: int| 0 <= j < r@.len() ==> r@[j] == hashes@[hashes@.len() - 1 - j],
        decreases i,
    {
        i -= 1;
        r.push(hashes[i]);
    }
    proof {
        assert(r@ =~= hashes@.reverse());
    }
    r
}

/// Collecting fails on every longer run of positions once it failed on one.
pub proof fn lemma_collect_fails(log: Seq<hash::Hash>, positions: Seq<nat>, n: int)
    requires
        0 <= n <= positions.len(),
        collect(log, positions.take(n)) is Err,
    ensures
        collect(log, positions) == collect(log, positions.take(n)),
    decreases positions.len() - n,
{
    if n < positions.len() {
        assert(positions.take(n + 1).drop_last() =~= positions.take(n));
        lemma_collect_fails(log, positions, n + 1);
    } else {
        assert(positions.take(n) =~= positions);
    }
}

/// Fold `hashes` from the right into one hash, each step tagged with `size`.
pub fn bag_hashes(hashes: &Vec<hash::Hash>, size: u64) -> (r: Option<hash::Hash>)
    ensures
        r == bag(hashes@, size),
{
    let mut acc: Option<hash::Hash> = None;
    let mut i: usize = hashes.len();
    proof {
        assert(hashes@.subrange(i as int, hashes@.len() as int) =~= Seq::<hash::Hash>::empty());
    }
    while i > 0
        invariant
            i <= hashes.len(),
            acc == bag(hashes@.subrange(i as int, hashes@.len() as int), size),
        decreases i,
    {
        i -= 1;
        let p = hashes[i];
        proof {
            let tail = hashes@.subrange(i as int, hashes@.len() as int);
            assert(tail.drop_first() =~= hashes@.subrange(i + 1, hashes@.len() as int));
            assert(tail[0] == p);
        }
        acc = match acc {
            None => Some(p),
            Some(h) => Some(hash_with_index(size, &(p, h).hash())),
        };
    }
    proof {
        assert(hashes@.subrange(0, hashes@.len() as int) =~= hashes@);
    }
    acc
}

} // verus!
