//! What holds of the MMR as a whole: what a check of the hashes establishes,
//! and that the proofs which a sound MMR hands out are accepted.

use crate::error::Error;
use crate::geometry::{
    is_ascent, lemma_climb_is_ascent, lemma_merge_walk, lemma_next_is_leaf, lemma_peak_iff,
    lemma_peaks_order, lemma_peaks_rest_is_descend_rest, lemma_relatives, lemma_relatives_bits,
    ones_from, parent_pos,
};
use crate::hash;
use crate::merkle_proof::{replay, spec_verify, tag_of};
use crate::mmr::{
    bag, collect, first_fault, index_of, leaf_hash, merges, node_fault, select, siblings,
    spec_append, spec_bag_lower_peaks, spec_peak_hashes, spec_peak_path, spec_proof, spec_root,
};
use crate::utils;
use vstd::arithmetic::power2::{
    lemma2_to64, lemma2_to64_rest, lemma_pow2_pos, lemma_pow2_unfold, pow2,
};
use vstd::prelude::*;

verus! {

/// A MMR is sound where the log holds a hash for each of its nodes and each
/// inner node holds the hash of its children.
pub open spec fn is_sound(log: Seq<hash::Hash>, size: u64) -> bool {
    size <= log.len() && first_fault(log, size as nat) is None
}

/// A MMR without a first fault has no faulty node.
pub proof fn lemma_no_fault(log: Seq<hash::Hash>, size: nat, idx: nat)
    requires
        first_fault(log, size) is None,
        idx < size,
    ensures
        node_fault(log, idx) is None,
    decreases size,
{
    if idx + 1 < size {
        lemma_no_fault(log, (size - 1) as nat, idx);
    }
}

/// Where the check of a MMR finds no fault, every inner node among the
/// first `size` nodes holds the hash of its two children, tagged with the
/// node's own index.
pub proof fn lemma_validated(log: Seq<hash::Hash>, size: u64, idx: u64)
    requires
        first_fault(log, size as nat) is None,
        idx < size,
        utils::spec_node_height(idx as nat) > 0,
    ensures
        idx < log.len(),
        pow2(utils::spec_node_height(idx as nat)) <= idx,
        log[idx as int] == hash::node_hash(
            idx,
            log[idx - pow2(utils::spec_node_height(idx as nat))],
            log[idx - 1],
        ),
{
    lemma_no_fault(log, size as nat, idx as nat);
    utils::lemma_inner_node_children(idx as nat);
}

/// The siblings on an ascent lie within the MMR, each before its parent.
pub proof fn lemma_ascent_bounds(path: Seq<(nat, nat)>, node: nat, size: nat)
    requires
        1 <= node,
        is_ascent(path, node, size),
    ensures
        forall|i: int| 0 <= i < path.len() ==> 1 <= (#[trigger] path[i]).1 < path[i].0 <= size,
        path.len() > 0 ==> node < path.last().0,
    decreases path.len(),
{
    if path.len() > 0 {
        utils::lemma_family_order(node);
        let tail = path.drop_first();
        lemma_ascent_bounds(tail, path[0].0, size);
        assert forall|i: int| 0 <= i < path.len() implies 1 <= (#[trigger] path[i]).1 < path[i].0
            <= size by {
            if i > 0 {
                assert(path[i] == tail[i - 1]);
            }
        }
        if tail.len() > 0 {
            assert(path.last() == tail.last());
        }
    }
}

/// Where the log holds every sibling of a family path, the hashes of the
/// siblings are those at their positions.
pub proof fn lemma_siblings_present(log: Seq<hash::Hash>, path: Seq<(nat, nat)>)
    requires
        forall|i: int| 0 <= i < path.len() ==> 1 <= (#[trigger] path[i]).1 <= log.len(),
    ensures
        siblings(log, path) == Seq::new(path.len(), |i: int| log[path[i].1 - 1]),
    decreases path.len(),
{
    if path.len() > 0 {
        let front = path.drop_last();
        assert forall|i: int| 0 <= i < front.len() implies 1 <= (#[trigger] front[i]).1
            <= log.len() by {
            assert(front[i] == path[i]);
        }
        lemma_siblings_present(log, front);
        assert(1 <= path[path.len() - 1].1 <= log.len());
        assert(siblings(log, path) =~= Seq::new(path.len(), |i: int| log[path[i].1 - 1]));
    } else {
        assert(siblings(log, path) =~= Seq::new(path.len(), |i: int| log[path[i].1 - 1]));
    }
}

/// The node that an ascent from `node` ends at.
pub open spec fn top_of(path: Seq<(nat, nat)>, node: nat) -> nat {
    if path.len() > 0 {
        path.last().0
    } else {
        node
    }
}

/// Replaying the siblings of an ascent in a sound MMR leads from the hash of
/// the node to the hash of the node that the ascent ends at, which is a peak.
pub proof fn lemma_replay_ascent(
    log: Seq<hash::Hash>,
    size: u64,
    path: Seq<(nat, nat)>,
    node: nat,
    rest: Seq<hash::Hash>,
)
    requires
        is_sound(log, size),
        utils::is_stable(size as nat),
        1 <= node <= size,
        is_ascent(path, node, size as nat),
    ensures
        node <= top_of(path, node) <= size,
        utils::spec_family(top_of(path, node)).0 > size,
        replay(
            siblings(log, path) + rest,
            size,
            utils::spec_peaks(size as nat),
            node,
            log[node - 1],
        ) == replay(
            rest,
            size,
            utils::spec_peaks(size as nat),
            top_of(path, node),
            log[top_of(path, node) - 1],
        ),
    decreases path.len(),
{
    let peaks = utils::spec_peaks(size as nat);
    lemma_ascent_bounds(path, node, size as nat);
    lemma_siblings_present(log, path);
    if path.len() == 0 {
        assert(siblings(log, path) + rest =~= rest);
    } else {
        let n = (node - 1) as nat;
        let (map, height) = utils::descend(n, 64);
        let (parent, sibling) = utils::spec_family(node);
        let tail = path.drop_first();
        let hashes = siblings(log, path) + rest;
        lemma2_to64();
        lemma2_to64_rest();
        utils::lemma_node_height_bound(n);
        utils::lemma_family_order(node);
        lemma_pow2_pos(height);
        lemma_pow2_unfold(height + 1);
        lemma_relatives(n, 64);
        lemma_relatives_bits(n, 64, height);
        // the node has a parent within the MMR, so it is no peak
        lemma_peak_iff(size as nat, n, 64, 0);
        assert(parent_pos(n, 64) == parent);
        assert(!peaks.contains(node));
        // the parent holds the hash of the node and its sibling
        lemma_validated(log, size, (parent - 1) as u64);
        assert(tag_of(parent, size) == (parent - 1) as u64);
        let joined = if utils::spec_is_left(sibling) {
            hash::node_hash((parent - 1) as u64, log[sibling - 1], log[node - 1])
        } else {
            hash::node_hash((parent - 1) as u64, log[node - 1], log[sibling - 1])
        };
        assert(joined == log[parent - 1]);
        // the rest of the way is the ascent from the parent
        lemma_ascent_bounds(tail, parent, size as nat);
        lemma_siblings_present(log, tail);
        assert(hashes[0] == log[sibling - 1]);
        assert(hashes.drop_first() =~= siblings(log, tail) + rest) by {
            assert forall|i: int| 0 <= i < tail.len() implies tail[i] == path[i + 1] by {}
        }
        lemma_replay_ascent(log, size, tail, parent, rest);
        if tail.len() > 0 {
            assert(path.last() == tail.last());
        }
    }
}

/// The hashes that the log holds at `positions`.
pub open spec fn hashes_at(log: Seq<hash::Hash>, positions: Seq<nat>) -> Seq<hash::Hash> {
    Seq::new(positions.len(), |i: int| log[positions[i] - 1])
}

/// Where the log holds a hash at each of the positions, they are all collected.
pub proof fn lemma_collect_all(log: Seq<hash::Hash>, positions: Seq<nat>)
    requires
        forall|i: int| 0 <= i < positions.len() ==> 1 <= #[trigger] positions[i] <= log.len(),
    ensures
        collect(log, positions) == Ok::<Seq<hash::Hash>, Error>(hashes_at(log, positions)),
    decreases positions.len(),
{
    if positions.len() > 0 {
        let front = positions.drop_last();
        assert forall|i: int| 0 <= i < front.len() implies 1 <= #[trigger] front[i]
            <= log.len() by {
            assert(front[i] == positions[i]);
        }
        lemma_collect_all(log, front);
        assert(1 <= positions[positions.len() - 1] <= log.len());
        assert(hashes_at(log, front).push(log[positions.last() - 1]) =~= hashes_at(
            log,
            positions,
        ));
    } else {
        assert(hashes_at(log, positions) =~= Seq::<hash::Hash>::empty());
    }
}

/// Among positions in rising order, those before one of them and those
/// behind it are what stands before and behind it in the sequence.
pub proof fn lemma_select_split(log: Seq<hash::Hash>, positions: Seq<nat>, t: int, n: int)
    requires
        forall|i: int| 0 <= i < positions.len() ==> 1 <= #[trigger] positions[i] <= log.len(),
        forall|i: int, j: int| 0 <= i < j < positions.len() ==> positions[i] < positions[j],
        0 <= t < positions.len(),
        0 <= n <= positions.len(),
    ensures
        select(log, positions.take(n), positions[t], false) == hashes_at(log, positions).take(
            if n < t {
                n
            } else {
                t
            },
        ),
        select(log, positions.take(n), positions[t], true) == if n > t + 1 {
            hashes_at(log, positions).subrange(t + 1, n)
        } else {
            Seq::<hash::Hash>::empty()
        },
    decreases n,
{
    let all = hashes_at(log, positions);
    let pivot = positions[t];
    if n == 0 {
        assert(positions.take(0) =~= Seq::<nat>::empty());
        assert(all.take(0) =~= Seq::<hash::Hash>::empty());
    } else {
        lemma_select_split(log, positions, t, n - 1);
        let now = positions.take(n);
        assert(now.drop_last() =~= positions.take(n - 1));
        assert(now.last() == positions[n - 1]);
        let p = positions[n - 1];
        assert(1 <= p <= log.len());
        if n - 1 < t {
            assert(p < pivot);
            assert(all.take(n - 1).push(log[p - 1]) =~= all.take(n));
        } else if n - 1 == t {
            assert(all.take(t) =~= all.take(t));
        } else {
            assert(p > pivot);
            if n - 1 == t + 1 {
                assert(Seq::<hash::Hash>::empty().push(log[p - 1]) =~= all.subrange(t + 1, n));
            } else {
                assert(all.subrange(t + 1, n - 1).push(log[p - 1]) =~= all.subrange(t + 1, n));
            }
        }
    }
}

/// The hashes of `path` put on `hash` one after the other, each on the
/// left and tagged with `size`.
pub open spec fn stack(path: Seq<hash::Hash>, size: u64, hash: hash::Hash) -> hash::Hash
    decreases path.len(),
{
    if path.len() == 0 {
        hash
    } else {
        stack(path.drop_first(), size, hash::node_hash(size, path[0], hash))
    }
}

/// Above the peaks a replay puts every hash of the path on the left.
pub proof fn lemma_replay_beyond(
    path: Seq<hash::Hash>,
    size: u64,
    peaks: Seq<nat>,
    pos: nat,
    hash: hash::Hash,
)
    requires
        pos > size,
        forall|i: int| 0 <= i < peaks.len() ==> #[trigger] peaks[i] <= size,
    ensures
        replay(path, size, peaks, pos, hash) == stack(path, size, hash),
    decreases path.len(),
{
    if path.len() > 0 {
        utils::lemma_family_order(pos);
        let parent = utils::spec_family(pos).0;
        assert(!peaks.contains(pos));
        lemma_replay_beyond(
            path.drop_first(),
            size,
            peaks,
            parent,
            hash::node_hash(size, path[0], hash),
        );
    }
}

/// Hashes, if there are any, are bagged into one.
pub proof fn lemma_bag_some(hashes: Seq<hash::Hash>, size: u64)
    requires
        hashes.len() > 0,
    ensures
        bag(hashes, size) is Some,
{
}

/// Putting the hashes before the `j`th, from right to left, on what the
/// hashes from the `j`th on are bagged into gives what all are bagged into.
pub proof fn lemma_stack_bag(hashes: Seq<hash::Hash>, size: u64, j: int)
    requires
        0 <= j < hashes.len(),
    ensures
        bag(hashes.skip(j), size) is Some,
        bag(hashes, size) is Some,
        stack(hashes.take(j).reverse(), size, bag(hashes.skip(j), size)->0) == bag(
            hashes,
            size,
        )->0,
    decreases j,
{
    lemma_bag_some(hashes.skip(j), size);
    lemma_bag_some(hashes, size);
    if j == 0 {
        assert(hashes.skip(0) =~= hashes);
        assert(hashes.take(0).reverse() =~= Seq::<hash::Hash>::empty());
    } else {
        let lower = hashes.skip(j);
        let path = hashes.take(j).reverse();
        lemma_stack_bag(hashes, size, j - 1);
        assert(path[0] == hashes[j - 1]);
        assert(path.drop_first() =~= hashes.take(j - 1).reverse());
        assert(hashes.skip(j - 1).drop_first() =~= lower);
        assert(hashes.skip(j - 1)[0] == hashes[j - 1]);
    }
}

/// Replaying the peak path from a peak of a stable MMR leads to the root.
pub proof fn lemma_replay_peak_path(log: Seq<hash::Hash>, size: u64, t: int)
    requires
        utils::is_stable(size as nat),
        size <= log.len(),
        0 <= t < utils::spec_peaks(size as nat).len(),
    ensures
        spec_root(log, size) matches Ok(root) && replay(
            spec_peak_path(log, size, utils::spec_peaks(size as nat)[t]),
            size,
            utils::spec_peaks(size as nat),
            utils::spec_peaks(size as nat)[t],
            log[utils::spec_peaks(size as nat)[t] - 1],
        ) == root,
{
    let peaks = utils::spec_peaks(size as nat);
    let peak = peaks[t];
    let all = hashes_at(log, peaks);
    let last = peaks.len() - 1;
    lemma_peaks_order(size as nat, 64, 0);
    lemma_collect_all(log, peaks);
    lemma_select_split(log, peaks, t, peaks.len() as int);
    assert(peaks.take(peaks.len() as int) =~= peaks);
    lemma_stack_bag(all, size, t);
    let higher = select(log, peaks, peak, false);
    let lower = select(log, peaks, peak, true);
    assert(higher == all.take(t));
    let path = spec_peak_path(log, size, peak);
    // the peak is the last one where it is the last position
    assert(peaks.contains(peak));
    assert((peaks.last() == peak) == (t == last));
    // the parent of a peak lies outside
    lemma2_to64();
    lemma2_to64_rest();
    assert(1 <= peaks[t] <= size);
    lemma_peak_iff(size as nat, (peak - 1) as nat, 64, 0);
    assert(parent_pos((peak - 1) as nat, 64) == utils::spec_family(peak).0);
    let parent = utils::spec_family(peak).0;
    assert(parent > size);
    assert(tag_of(parent, size) == size);
    assert(all.skip(t)[0] == log[peak - 1]);
    if t < last {
        assert(lower =~= all.skip(t + 1));
        assert(all.skip(t).drop_first() =~= all.skip(t + 1));
        lemma_bag_some(lower, size);
        let bagged = bag(lower, size)->0;
        assert(path =~= seq![bagged] + all.take(t).reverse());
        assert(path.drop_first() =~= all.take(t).reverse());
        lemma_replay_beyond(
            path.drop_first(),
            size,
            peaks,
            parent,
            hash::node_hash(size, log[peak - 1], bagged),
        );
    } else {
        assert(lower =~= Seq::<hash::Hash>::empty());
        assert(all.skip(t).drop_first() =~= Seq::<hash::Hash>::empty());
        assert(path =~= all.take(t).reverse());
        if t > 0 {
            lemma_stack_bag(all, size, t - 1);
            assert(path[0] == all[t - 1]);
            assert(path.drop_first() =~= all.take(t - 1).reverse());
            assert(all.skip(t - 1).drop_first() =~= all.skip(t));
            assert(all.skip(t - 1)[0] == all[t - 1]);
            lemma_replay_beyond(
                path.drop_first(),
                size,
                peaks,
                parent,
                hash::node_hash(size, all[t - 1], log[peak - 1]),
            );
        }
    }
}

/// In a sound and stable MMR, the proof for a leaf is accepted for that
/// leaf, at its position and against the root of the MMR.
pub proof fn lemma_proof_verifies(log: Seq<hash::Hash>, size: u64, pos: u64, encoding: Seq<u8>)
    requires
        is_sound(log, size),
        utils::is_stable(size as nat),
        1 <= pos <= size,
        utils::spec_is_leaf((pos - 1) as nat),
        log[pos - 1] == leaf_hash((pos - 1) as u64, encoding),
    ensures
        spec_proof(log, size, pos) matches Ok(path) && spec_root(log, size) matches Ok(root)
            && spec_verify((size, path), root, encoding, pos) == Ok::<bool, Error>(true),
{
    let peaks = utils::spec_peaks(size as nat);
    let (map, height) = utils::spec_peak_height_map((pos - 1) as nat);
    let family_path = utils::spec_family_path(pos as nat, size as nat);
    lemma_climb_is_ascent(map, pos as nat, height, size as nat);
    let peak = top_of(family_path, pos as nat);
    let rest = spec_peak_path(log, size, peak);
    lemma_replay_ascent(log, size, family_path, pos as nat, rest);
    // the ascent ends at a peak
    lemma2_to64();
    lemma2_to64_rest();
    lemma_peak_iff(size as nat, (peak - 1) as nat, 64, 0);
    assert(parent_pos((peak - 1) as nat, 64) == utils::spec_family(peak).0);
    assert(peaks.contains(peak));
    let t = choose|t: int| 0 <= t < peaks.len() && peaks[t] == peak;
    lemma_replay_peak_path(log, size, t);
    assert(tag_of(pos as nat, size) == (pos - 1) as u64);
}

/// Where no node among the first `size` is faulty, there is no first fault.
pub proof fn lemma_no_first_fault(log: Seq<hash::Hash>, size: nat)
    requires
        forall|idx: nat| idx < size ==> node_fault(log, idx) is None,
    ensures
        first_fault(log, size) is None,
    decreases size,
{
    if size > 0 {
        lemma_no_first_fault(log, (size - 1) as nat);
    }
}

/// Whether a node is faulty depends on the hashes up to that node only.
pub proof fn lemma_fault_of_prefix(log: Seq<hash::Hash>, longer: Seq<hash::Hash>, idx: nat)
    requires
        idx < log.len() <= longer.len(),
        idx <= u64::MAX,
        forall|i: int| 0 <= i < log.len() ==> log[i] == longer[i],
    ensures
        node_fault(longer, idx) == node_fault(log, idx),
{
    if utils::spec_node_height(idx) > 0 {
        utils::lemma_inner_node_children(idx);
        lemma_pow2_pos(utils::spec_node_height(idx));
    }
}

/// The parents that an append puts above the new leaf hold the hashes of
/// their children, and there is one for each tree that the leaf completes.
pub proof fn lemma_merges_are_sound(
    log: Seq<hash::Hash>,
    grown: Seq<hash::Hash>,
    cur_idx: nat,
    map: nat,
    level: nat,
)
    requires
        cur_idx <= 2 * utils::tree_size(63),
        utils::descend(cur_idx, 63) == (map, level),
        grown.len() == cur_idx + 1,
        log.len() + level < grown.len(),
        forall|i: int| 0 <= i < log.len() ==> log[i] == grown[i],
        merges(log, cur_idx, grown[cur_idx as int], map, level) is Ok,
    ensures
        ({
            let added = merges(log, cur_idx, grown[cur_idx as int], map, level)->Ok_0;
            &&& added.len() == ones_from(map, level)
            &&& forall|idx: nat|
                grown.len() <= idx < grown.len() + added.len() ==> node_fault(grown + added, idx)
                    is None
        }),
    decreases 64 - level,
{
    let cur = grown[cur_idx as int];
    let added = merges(log, cur_idx, cur, map, level)->Ok_0;
    lemma2_to64();
    lemma2_to64_rest();
    if level < 64 && utils::has_bit(map, level) {
        lemma_relatives(cur_idx, 63);
        lemma_pow2_pos(level);
        lemma_pow2_unfold(level + 1);
        let left_idx = (cur_idx + 1 - 2 * pow2(level)) as nat;
        let parent = hash::node_hash((cur_idx + 1) as u64, log[left_idx as int], cur);
        let next = grown.push(parent);
        let tail = merges(log, cur_idx + 1, parent, map, level + 1)->Ok_0;
        assert(added == seq![parent] + tail);
        lemma_merges_are_sound(log, next, cur_idx + 1, map, level + 1);
        assert(next + tail =~= grown + added);
        let all = grown + added;
        assert forall|idx: nat| grown.len() <= idx < grown.len() + added.len() implies node_fault(
            all,
            idx,
        ) is None by {
            if idx == grown.len() {
                // the height of the new parent is one more than that of its child
                assert(utils::descend(idx, 64) == utils::descend(idx, 63));
                assert(utils::spec_node_height(idx) == level + 1);
                assert(all[idx as int] == parent);
                assert(all[left_idx as int] == log[left_idx as int]);
                assert(all[cur_idx as int] == cur);
            }
        }
    }
}

/// Appending a leaf to a sound MMR that holds its hashes and nothing else
/// gives such a MMR again, which is stable and holds the hash of the new
/// leaf behind the hashes that were there. Besides the leaf it gains one
/// parent for each peak that the leaf is merged with.
pub proof fn lemma_append_keeps_sound(log: Seq<hash::Hash>, size: u64, encoding: Seq<u8>)
    requires
        is_sound(log, size),
        log.len() == size,
        size < u64::MAX,
        spec_append(log, size, encoding) is Ok,
    ensures
        ({
            let added = spec_append(log, size, encoding)->Ok_0;
            &&& added.len() == 1 + ones_from(utils::spec_peak_height_map(size as nat).0, 0)
            &&& size + added.len() <= u64::MAX
            &&& added[0] == leaf_hash(size, encoding)
            &&& utils::spec_is_leaf(size as nat)
            &&& is_sound(log + added, (size + added.len()) as u64)
            &&& utils::is_stable((size + added.len()) as nat)
        }),
{
    let (map, height) = utils::spec_peak_height_map(size as nat);
    let leaf = leaf_hash(size, encoding);
    let added = spec_append(log, size, encoding)->Ok_0;
    let tail = merges(log, size as nat, leaf, map, 0)->Ok_0;
    let grown = log.push(leaf);
    let all = log + added;
    lemma2_to64();
    lemma2_to64_rest();
    assert(utils::descend(size as nat, 64) == utils::descend(size as nat, 63));
    assert(added == seq![leaf] + tail);
    lemma_merges_are_sound(log, grown, size as nat, map, 0);
    lemma_merge_walk(size as nat, map, 0);
    assert(grown + tail =~= all);
    assert forall|idx: nat| idx < all.len() implies node_fault(all, idx) is None by {
        if idx < size {
            lemma_no_fault(log, size as nat, idx);
            lemma_fault_of_prefix(log, all, idx);
        } else if idx == size {
            assert(utils::spec_node_height(idx) == 0);
        }
    }
    lemma_no_first_fault(all, all.len());
    // behind the last parent comes a leaf again
    let last = (size + ones_from(map, 0)) as nat;
    assert(utils::descend(last, 64) == utils::descend(last, 63));
    lemma_next_is_leaf(last, 64);
    lemma_peaks_rest_is_descend_rest(last + 1, 64, 0);
}

/// Appending to a MMR that holds a hash for each of its nodes succeeds,
/// where the next node is a leaf: that is, where the MMR is empty or stable.
pub proof fn lemma_append_succeeds(log: Seq<hash::Hash>, size: u64, encoding: Seq<u8>)
    requires
        size <= log.len(),
        size < u64::MAX,
        utils::spec_is_leaf(size as nat),
    ensures
        spec_append(log, size, encoding) is Ok,
{
    let map = utils::spec_peak_height_map(size as nat).0;
    lemma2_to64();
    lemma2_to64_rest();
    assert(utils::descend(size as nat, 64) == utils::descend(size as nat, 63));
    lemma_merges_succeed(log, size as nat, leaf_hash(size, encoding), map, 0);
}

proof fn lemma_merges_succeed(
    log: Seq<hash::Hash>,
    cur_idx: nat,
    cur: hash::Hash,
    map: nat,
    level: nat,
)
    requires
        cur_idx <= 2 * utils::tree_size(63),
        utils::descend(cur_idx, 63) == (map, level),
        cur_idx <= log.len() + level,
    ensures
        merges(log, cur_idx, cur, map, level) is Ok,
    decreases 64 - level,
{
    if level < 64 && utils::has_bit(map, level) {
        lemma_relatives(cur_idx, 63);
        lemma_pow2_pos(level);
        lemma_pow2_unfold(level + 1);
        lemma_level_below_power(level);
        let left_idx = (cur_idx + 1 - 2 * pow2(level)) as nat;
        let parent = hash::node_hash((cur_idx + 1) as u64, log[left_idx as int], cur);
        lemma_merges_succeed(log, cur_idx + 1, parent, map, level + 1);
    }
}

proof fn lemma_level_below_power(level: nat)
    ensures
        level + 1 < 2 * pow2(level),
    decreases level,
{
    if level == 0 {
        lemma2_to64();
    } else {
        lemma_level_below_power((level - 1) as nat);
        lemma_pow2_unfold(level);
    }
}

/// The log of the MMR that grows from nothing when leaves with the given
/// encodings are appended one after the other; `None` where an append fails.
pub open spec fn grown(leaves: Seq<Seq<u8>>) -> Option<Seq<hash::Hash>>
    decreases leaves.len(),
{
    if leaves.len() == 0 {
        Some(Seq::<hash::Hash>::empty())
    } else {
        match grown(leaves.drop_last()) {
            None => None,
            Some(log) => {
                if log.len() >= u64::MAX {
                    None
                } else {
                    match spec_append(log, log.len() as u64, leaves.last()) {
                        Ok(added) => Some(log + added),
                        Err(_) => None,
                    }
                }
            },
        }
    }
}

/// The position at which the leaf number `i` of `leaves` comes to stand.
pub open spec fn leaf_position(leaves: Seq<Seq<u8>>, i: int) -> nat {
    grown(leaves.take(i))->0.len() + 1
}

/// A MMR that grows by appends is sound, is stable once it holds a leaf,
/// grows as long as its size fits in 64 bits, and holds for each leaf the
/// hash of that leaf at the leaf's position.
pub proof fn lemma_grown_is_sound(leaves: Seq<Seq<u8>>)
    requires
        grown(leaves) is Some,
    ensures
        grown(leaves)->0.len() <= u64::MAX,
        is_sound(grown(leaves)->0, grown(leaves)->0.len() as u64),
        leaves.len() > 0 ==> utils::is_stable(grown(leaves)->0.len()),
        utils::spec_is_leaf(grown(leaves)->0.len()),
        forall|i: int|
            0 <= i < leaves.len() ==> {
                &&& 1 <= #[trigger] leaf_position(leaves, i) <= grown(leaves)->0.len()
                &&& utils::spec_is_leaf((leaf_position(leaves, i) - 1) as nat)
                &&& grown(leaves)->0[leaf_position(leaves, i) - 1] == leaf_hash(
                    (leaf_position(leaves, i) - 1) as u64,
                    leaves[i],
                )
            },
    decreases leaves.len(),
{
    let log = grown(leaves)->0;
    lemma2_to64();
    if leaves.len() == 0 {
        utils::lemma_descend_skip(0, 0, 64);
    } else {
        let front = leaves.drop_last();
        let before = grown(front)->0;
        let added = spec_append(before, before.len() as u64, leaves.last())->Ok_0;
        lemma_grown_is_sound(front);
        lemma_append_keeps_sound(before, before.len() as u64, leaves.last());
        assert(log == before + added);
        lemma_peaks_rest_is_descend_rest(log.len(), 64, 0);
        assert forall|i: int| 0 <= i < leaves.len() implies {
            &&& 1 <= #[trigger] leaf_position(leaves, i) <= log.len()
            &&& utils::spec_is_leaf((leaf_position(leaves, i) - 1) as nat)
            &&& log[leaf_position(leaves, i) - 1] == leaf_hash(
                (leaf_position(leaves, i) - 1) as u64,
                leaves[i],
            )
        } by {
            if i < front.len() {
                assert(leaves.take(i) =~= front.take(i));
                assert(leaf_position(leaves, i) == leaf_position(front, i));
                assert(leaves[i] == front[i]);
            } else {
                assert(leaves.take(i) =~= front);
                assert(leaves[i] == leaves.last());
            }
        }
    }
}

/// In a MMR that grew by appends, the proof for each leaf is accepted for
/// that leaf, at its position and against the root of the MMR.
pub proof fn lemma_grown_proofs_verify(leaves: Seq<Seq<u8>>, i: int)
    requires
        grown(leaves) is Some,
        0 <= i < leaves.len(),
    ensures
        ({
            let log = grown(leaves)->0;
            let size = log.len() as u64;
            let pos = leaf_position(leaves, i) as u64;
            spec_proof(log, size, pos) matches Ok(path) && spec_root(log, size) matches Ok(root)
                && spec_verify((size, path), root, leaves[i], pos) == Ok::<bool, Error>(true)
        }),
{
    lemma_grown_is_sound(leaves);
    let log = grown(leaves)->0;
    let pos = leaf_position(leaves, i);
    lemma_proof_verifies(log, log.len() as u64, pos as u64, leaves[i]);
}

/// A MMR grows as long as its size fits in 64 bits.
pub proof fn lemma_grown_unless_full(leaves: Seq<Seq<u8>>)
    requires
        leaves.len() > 0,
        grown(leaves.drop_last()) matches Some(log) && log.len() < u64::MAX,
    ensures
        grown(leaves) is Some,
{
    let before = grown(leaves.drop_last())->0;
    lemma_grown_is_sound(leaves.drop_last());
    lemma_append_succeeds(before, before.len() as u64, leaves.last());
}

/// The states that a MMR goes through while `leaves` are appended to it,
/// each with its log and its size.
pub open spec fn is_run(states: Seq<(Seq<hash::Hash>, u64)>, leaves: Seq<Seq<u8>>) -> bool {
    &&& states.len() == leaves.len() + 1
    &&& forall|i: int|
        0 <= i < leaves.len() ==> is_step(#[trigger] states[i], states[i + 1], leaves[i])
}

/// Does appending a leaf with the given encoding lead from the state
/// `before` to the state `after`.
pub open spec fn is_step(
    before: (Seq<hash::Hash>, u64),
    after: (Seq<hash::Hash>, u64),
    encoding: Seq<u8>,
) -> bool {
    match spec_append(before.0, before.1, encoding) {
        Ok(added) => after == (before.0 + added, (before.1 + added.len()) as u64),
        Err(_) => false,
    }
}

/// Two MMRs that start alike and have the same leaves appended go through
/// the same states: they hold the same hashes and have the same roots.
pub proof fn lemma_growth_is_determined(
    first: Seq<(Seq<hash::Hash>, u64)>,
    second: Seq<(Seq<hash::Hash>, u64)>,
    leaves: Seq<Seq<u8>>,
)
    requires
        is_run(first, leaves),
        is_run(second, leaves),
        first[0] == second[0],
    ensures
        first == second,
        spec_root(first.last().0, first.last().1) == spec_root(second.last().0, second.last().1),
{
    lemma_runs_agree(first, second, leaves, leaves.len() as int);
    assert(first =~= second);
}

proof fn lemma_runs_agree(
    first: Seq<(Seq<hash::Hash>, u64)>,
    second: Seq<(Seq<hash::Hash>, u64)>,
    leaves: Seq<Seq<u8>>,
    n: int,
)
    requires
        is_run(first, leaves),
        is_run(second, leaves),
        first[0] == second[0],
        0 <= n <= leaves.len(),
    ensures
        forall|i: int| 0 <= i <= n ==> first[i] == second[i],
    decreases n,
{
    if n > 0 {
        lemma_runs_agree(first, second, leaves, n - 1);
        assert(first[n - 1] == second[n - 1]);
    }
}

/// A forged hash in the place of an inner node is found by the check of the
/// MMR, as long as the hashes of the node's children are left alone.
pub proof fn lemma_forged_parent_is_found(
    log: Seq<hash::Hash>,
    size: u64,
    idx: u64,
    forged: hash::Hash,
)
    requires
        is_sound(log, size),
        idx < size,
        utils::spec_node_height(idx as nat) > 0,
        forged != log[idx as int],
    ensures
        first_fault(log.update(idx as int, forged), size as nat) is Some,
{
    let tampered = log.update(idx as int, forged);
    lemma_validated(log, size, idx);
    lemma_pow2_pos(utils::spec_node_height(idx as nat));
    assert(node_fault(tampered, idx as nat) is Some);
    if first_fault(tampered, size as nat) is None {
        lemma_no_fault(tampered, size as nat, idx as nat);
    }
}

/// A forged hash in the place of a node that has its parent within the MMR
/// is found by the check of the MMR, unless the forged hash gives, together
/// with the hash of the sibling, the very hash that the parent holds.
pub proof fn lemma_forged_child_is_found(
    log: Seq<hash::Hash>,
    size: u64,
    idx: u64,
    forged: hash::Hash,
)
    requires
        is_sound(log, size),
        idx < size,
        utils::spec_family((idx + 1) as nat).0 <= size,
        ({
            let (parent, sibling) = utils::spec_family((idx + 1) as nat);
            let joined = if utils::spec_is_left((idx + 1) as nat) {
                hash::node_hash((parent - 1) as u64, forged, log[sibling - 1])
            } else {
                hash::node_hash((parent - 1) as u64, log[sibling - 1], forged)
            };
            joined != log[parent - 1]
        }),
    ensures
        first_fault(log.update(idx as int, forged), size as nat) is Some,
{
    let tampered = log.update(idx as int, forged);
    let (parent, sibling) = utils::spec_family((idx + 1) as nat);
    let height = utils::spec_node_height(idx as nat);
    lemma2_to64();
    lemma2_to64_rest();
    utils::lemma_node_height_bound(idx as nat);
    utils::lemma_family_order((idx + 1) as nat);
    lemma_pow2_pos(height);
    lemma_pow2_unfold(height + 1);
    lemma_relatives(idx as nat, 64);
    assert(utils::spec_node_height((parent - 1) as nat) == height + 1);
    assert(node_fault(tampered, (parent - 1) as nat) is Some);
    if first_fault(tampered, size as nat) is None {
        lemma_no_fault(tampered, size as nat, (parent - 1) as nat);
    }
}

/// A MMR that holds a hash for each of its nodes has a root where it is
/// stable, and only there.
pub proof fn lemma_root_iff_stable(log: Seq<hash::Hash>, size: u64)
    requires
        0 < size <= log.len(),
    ensures
        utils::is_stable(size as nat) ==> spec_root(log, size) is Ok,
        !utils::is_stable(size as nat) ==> spec_root(log, size) == Err::<hash::Hash, Error>(
            Error::MissingRootNode,
        ),
{
    let peaks = utils::spec_peaks(size as nat);
    if utils::is_stable(size as nat) {
        lemma_peaks_order(size as nat, 64, 0);
        lemma_collect_all(log, peaks);
        lemma_bag_some(hashes_at(log, peaks), size);
    }
}

/// The empty MMR: its root is the zero hash, it has no peaks, and without
/// any hash in the log there is no proof for any position.
pub proof fn lemma_empty_mmr(log: Seq<hash::Hash>, pos: u64)
    ensures
        spec_root(log, 0) == Ok::<hash::Hash, Error>(hash::spec_zero_hash()),
        utils::spec_peaks(0) == Seq::<nat>::empty(),
        spec_peak_hashes(log, 0) == Ok::<Seq<hash::Hash>, Error>(Seq::<hash::Hash>::empty()),
        spec_proof(Seq::<hash::Hash>::empty(), 0, pos) is Err,
{
}

/// The MMR with a single node: the root is the hash of that node, the proof
/// for it holds no hash, and it is accepted for the leaf whose hash the root is.
pub proof fn lemma_single_node(log: Seq<hash::Hash>, root: hash::Hash, encoding: Seq<u8>)
    requires
        log.len() >= 1,
    ensures
        utils::spec_peaks(1) == seq![1nat],
        spec_root(log, 1) == Ok::<hash::Hash, Error>(log[0]),
        spec_proof(log, 1, 1) == Ok::<Seq<hash::Hash>, Error>(Seq::<hash::Hash>::empty()),
        spec_verify((1u64, Seq::<hash::Hash>::empty()), root, encoding, 1) == if root
            == leaf_hash(0, encoding) {
            Ok::<bool, Error>(true)
        } else {
            Err::<bool, Error>(Error::InvalidRootHash(leaf_hash(0, encoding), root))
        },
{
    lemma2_to64();
    utils::lemma_peaks_skip(1, 1, 64, 0);
    utils::lemma_descend_skip(0, 0, 64);
    let peaks = utils::spec_peaks(1);
    assert(utils::peaks_from(0, 0, 1) == (Seq::<nat>::empty(), 0nat));
    assert(utils::peaks_from(1, 1, 0).0 =~= seq![1nat]);
    assert(peaks =~= seq![1nat]);
    // the one peak, bagged
    assert(peaks.drop_last() =~= Seq::<nat>::empty());
    assert(collect(log, peaks.drop_last()) == Ok::<Seq<hash::Hash>, Error>(
        Seq::<hash::Hash>::empty(),
    ));
    let hashes = Seq::<hash::Hash>::empty().push(log[0]);
    assert(collect(log, peaks) == Ok::<Seq<hash::Hash>, Error>(hashes));
    assert(hashes.drop_first() =~= Seq::<hash::Hash>::empty());
    assert(bag(hashes.drop_first(), 1) is None);
    assert(bag(hashes, 1) == Some(log[0]));
    // the proof for the one leaf
    assert(select(log, peaks.drop_last(), 1, false) == Seq::<hash::Hash>::empty());
    assert(select(log, peaks.drop_last(), 1, true) == Seq::<hash::Hash>::empty());
    assert(select(log, peaks, 1, false) == Seq::<hash::Hash>::empty());
    assert(select(log, peaks, 1, true) == Seq::<hash::Hash>::empty());
    assert(spec_bag_lower_peaks(log, 1, 1) is None);
    assert(Seq::<hash::Hash>::empty().reverse() =~= Seq::<hash::Hash>::empty());
    assert(spec_peak_path(log, 1, 1) == Seq::<hash::Hash>::empty());
    assert(utils::spec_family_path(1, 1) == Seq::<(nat, nat)>::empty());
    assert(siblings(log, Seq::<(nat, nat)>::empty()) + Seq::<hash::Hash>::empty()
        =~= Seq::<hash::Hash>::empty());
}

proof fn lemma_select_of_prefix(
    log: Seq<hash::Hash>,
    n: int,
    positions: Seq<nat>,
    pivot: nat,
    behind: bool,
)
    requires
        0 <= n <= log.len(),
        forall|i: int| 0 <= i < positions.len() ==> 1 <= #[trigger] positions[i] <= n,
    ensures
        select(log.take(n), positions, pivot, behind) == select(log, positions, pivot, behind),
    decreases positions.len(),
{
    if positions.len() > 0 {
        let front = positions.drop_last();
        assert forall|i: int| 0 <= i < front.len() implies 1 <= #[trigger] front[i] <= n by {
            assert(front[i] == positions[i]);
        }
        lemma_select_of_prefix(log, n, front, pivot, behind);
        assert(1 <= positions[positions.len() - 1] <= n);
    }
}

/// The proof for a leaf of an earlier state of the MMR, made from the MMR
/// as it is now, is the proof that the MMR gave in that state: it depends on
/// the first `snapshot` hashes only.
pub proof fn lemma_partial_proof_is_historic(log: Seq<hash::Hash>, snapshot: u64, pos: u64)
    requires
        snapshot <= log.len(),
        1 <= pos <= snapshot,
    ensures
        spec_proof(log, snapshot, pos) == spec_proof(log.take(snapshot as int), snapshot, pos),
{
    let then = log.take(snapshot as int);
    if utils::spec_is_leaf(index_of(pos as nat)) {
        let (map, height) = utils::spec_peak_height_map((pos - 1) as nat);
        let family_path = utils::spec_family_path(pos as nat, snapshot as nat);
        lemma_climb_is_ascent(map, pos as nat, height, snapshot as nat);
        lemma_ascent_bounds(family_path, pos as nat, snapshot as nat);
        lemma_siblings_present(log, family_path);
        lemma_siblings_present(then, family_path);
        assert(siblings(log, family_path) =~= siblings(then, family_path));
        let peak = top_of(family_path, pos as nat);
        let peaks = utils::spec_peaks(snapshot as nat);
        lemma_peaks_order(snapshot as nat, 64, 0);
        lemma_select_of_prefix(log, snapshot as int, peaks, peak, true);
        lemma_select_of_prefix(log, snapshot as int, peaks, peak, false);
    }
}

} // verus!
