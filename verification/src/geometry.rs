//! How the positions of a MMR lie to each other: siblings, parents and peaks.

use crate::utils::{
    climb, descend, has_bit, lemma_descend_bounds, lemma_descend_chain, lemma_descend_map_bound,
    lemma_family_order, lemma_has_bit_top, lemma_node_height_bound, peaks_from, spec_family,
    is_stable, spec_family_path, spec_is_leaf, spec_is_left, spec_node_height,
    spec_peak_height_map, spec_peaks, tree_size,
};
use vstd::arithmetic::power2::{lemma2_to64, lemma_pow2_pos, lemma_pow2_unfold, pow2};
use vstd::prelude::*;

verus! {

proof fn lemma_sizes(k: nat)
    requires
        k > 0,
    ensures
        tree_size(k) == 2 * tree_size((k - 1) as nat) + 1,
        tree_size(k) == 2 * pow2((k - 1) as nat) - 1,
        pow2(k) == 2 * pow2((k - 1) as nat),
        pow2((k - 1) as nat) > 0,
{
    lemma_pow2_unfold(k);
    lemma_pow2_pos((k - 1) as nat);
}

/// The root above two trees of `levels` levels has every lower tree to its left.
pub proof fn lemma_descend_root(levels: nat)
    ensures
        descend(2 * tree_size(levels), levels) == ((pow2(levels) - 1) as nat, levels),
{
    lemma_pow2_pos(levels);
    if levels == 0 {
        lemma2_to64();
    } else {
        lemma_sizes(levels);
        let k1 = (levels - 1) as nat;
        assert((2 * tree_size(levels) - tree_size(levels)) as nat == 2 * tree_size(k1) + 1 + 0);
        lemma_descend_chain(k1, 0);
    }
}

/// The indices of the sibling and of the parent of the node at index `n`,
/// and what `descend` makes of them: the sibling stands at the same height
/// on the other side, the parent one level higher, and the trees further
/// left are the same for all three.
pub proof fn lemma_relatives(n: nat, levels: nat)
    requires
        n <= 2 * tree_size(levels),
    ensures
        ({
            let (map, height) = descend(n, levels);
            let below = tree_size(height + 1);
            &&& height < levels && !has_bit(map, height) ==> {
                &&& n + below + 1 <= 2 * tree_size(levels)
                &&& descend(n + below, levels) == (map + pow2(height), height)
                &&& descend(n + below + 1, levels) == (map + pow2(height), height + 1)
            }
            &&& has_bit(map, height) ==> {
                &&& height < levels
                &&& n >= below
                &&& map >= pow2(height)
                &&& n + 1 <= 2 * tree_size(levels)
                &&& descend((n - below) as nat, levels) == ((map - pow2(height)) as nat, height)
                &&& descend(n + 1, levels) == (map, height + 1)
            }
        }),
    decreases levels,
{
    let (map, height) = descend(n, levels);
    let below = tree_size(height + 1);
    lemma_descend_bounds(n, levels);
    lemma_pow2_pos(levels);
    lemma_pow2_pos(height);
    lemma_sizes(height + 1);
    if levels == 0 {
        lemma2_to64();
        lemma_has_bit_top(0, 0, height);
        vstd::arithmetic::div_mod::lemma_basic_div(0, pow2(height) as int);
    } else {
        let k1 = (levels - 1) as nat;
        let full = tree_size(levels);
        lemma_sizes(levels);
        lemma_descend_root(k1);
        lemma_descend_root(levels);
        if n < full {
            // the node lies in the first tree
            lemma_descend_bounds(n, k1);
            lemma_descend_map_bound(n, k1);
            lemma_has_bit_top(map, k1, height);
            if height == k1 {
                // it is the root of that tree: the sibling is the root of the
                // second tree, the parent the root above both
                assert(n == 2 * tree_size(k1));
                assert((n + below - full) as nat == 2 * tree_size(k1));
            } else {
                lemma_relatives(n, k1);
            }
        } else {
            let n1 = (n - full) as nat;
            if n1 <= 2 * tree_size(k1) {
                // the node lies in the second tree
                let (map1, height1) = descend(n1, k1);
                lemma_descend_bounds(n1, k1);
                lemma_descend_map_bound(n1, k1);
                lemma_has_bit_top(map1, k1, height);
                lemma_relatives(n1, k1);
                if height == k1 {
                    // it is the root of the second tree
                    assert(n1 == 2 * tree_size(k1));
                    assert((n - below) as nat == 2 * tree_size(k1));
                    assert(n + 1 == 2 * full);
                } else if has_bit(map1, height) {
                    assert(((n - below) as nat - full) as nat == (n1 - below) as nat);
                    assert(n + 1 >= full);
                    assert((n + 1 - full) as nat == n1 + 1);
                    assert(n1 + 1 <= 2 * tree_size(k1));
                } else {
                    assert((n + below - full) as nat == n1 + below);
                    assert((n + below + 1 - full) as nat == n1 + below + 1);
                }
            } else {
                // the node is the root above both trees
                lemma_has_bit_top(map, levels, height);
            }
        }
    }
}

/// The position of the parent of the node at index `n`, among trees of at
/// most `levels` levels.
pub open spec fn parent_pos(n: nat, levels: nat) -> nat {
    let (map, height) = descend(n, levels);
    if has_bit(map, height) {
        n + 2
    } else {
        n + 1 + 2 * pow2(height)
    }
}

/// The peaks among `n` nodes behind `base` lie behind `base`, one behind the
/// other, and the last one is the last node that a peak covers.
pub proof fn lemma_peaks_order(n: nat, levels: nat, base: nat)
    ensures
        ({
            let (peaks, rest) = peaks_from(n, levels, base);
            &&& rest <= n
            &&& forall|i: int|
                0 <= i < peaks.len() ==> base < #[trigger] peaks[i] <= base + n - rest
            &&& forall|i: int, j: int| 0 <= i < j < peaks.len() ==> peaks[i] < peaks[j]
            &&& peaks.len() > 0 ==> peaks.last() == base + n - rest
            &&& peaks.len() == 0 ==> rest == n
        }),
    decreases levels,
{
    if levels > 0 {
        let k1 = (levels - 1) as nat;
        lemma_sizes(levels);
        if n >= tree_size(levels) {
            let peak = base + tree_size(levels);
            lemma_peaks_order((n - tree_size(levels)) as nat, k1, peak);
            let (tail, rest) = peaks_from((n - tree_size(levels)) as nat, k1, peak);
            let peaks = seq![peak] + tail;
            assert forall|i: int| 0 <= i < peaks.len() implies base < #[trigger] peaks[i] <= base
                + n - rest by {
                if i > 0 {
                    assert(peaks[i] == tail[i - 1]);
                }
            }
            assert forall|i: int, j: int| 0 <= i < j < peaks.len() implies peaks[i] < peaks[j] by {
                assert(peaks[j] == tail[j - 1]);
                if i > 0 {
                    assert(peaks[i] == tail[i - 1]);
                }
            }
            if tail.len() > 0 {
                assert(peaks.last() == tail.last());
            }
        } else {
            lemma_peaks_order(n, k1, base);
        }
    }
}

/// In a stable MMR the peaks are the nodes whose parent lies outside of it.
pub proof fn lemma_peak_iff(size: nat, n: nat, levels: nat, base: nat)
    requires
        n < size <= 2 * tree_size(levels),
        peaks_from(size, levels, base).1 == 0,
    ensures
        peaks_from(size, levels, base).0.contains(base + n + 1) <==> parent_pos(n, levels) > size,
    decreases levels,
{
    let peaks = peaks_from(size, levels, base).0;
    lemma_pow2_pos(levels);
    if levels == 0 {
        lemma2_to64();
    } else {
        let k1 = (levels - 1) as nat;
        let full = tree_size(levels);
        lemma_sizes(levels);
        if size < full {
            lemma_peak_iff(size, n, k1, base);
        } else {
            let size1 = (size - full) as nat;
            let tail = peaks_from(size1, k1, base + full).0;
            assert(peaks == seq![base + full] + tail);
            // what is left behind the first tree is less than another such tree
            if size1 > 2 * tree_size(k1) {
                assert(size1 == 2 * tree_size(k1) + 1 + 0);
                lemma_peaks_rest_is_descend_rest(size1, k1, base + full);
                lemma_descend_chain(k1, 0);
                assert(false);
            }
            lemma_peaks_order(size1, k1, base + full);
            assert forall|i: int| 0 <= i < peaks.len() && peaks[i] == base + n + 1 implies (i == 0
                || tail.contains(base + n + 1)) by {
                if i > 0 {
                    assert(tail[i - 1] == base + n + 1);
                }
            }
            if n >= full {
                let n1 = (n - full) as nat;
                lemma_peak_iff(size1, n1, k1, base + full);
                lemma_descend_bounds(n1, k1);
                lemma_descend_map_bound(n1, k1);
                lemma_has_bit_top(descend(n1, k1).0, k1, descend(n1, k1).1);
                if tail.contains(base + n + 1) {
                    let i = choose|i: int| 0 <= i < tail.len() && tail[i] == base + n + 1;
                    assert(peaks[i + 1] == base + n + 1);
                }
            } else {
                lemma_descend_bounds(n, k1);
                lemma_descend_map_bound(n, k1);
                lemma_has_bit_top(descend(n, k1).0, k1, descend(n, k1).1);
                lemma_relatives(n, k1);
                if n + 1 == full {
                    assert(peaks[0] == base + n + 1);
                } else {
                    if tail.contains(base + n + 1) {
                        let i = choose|i: int| 0 <= i < tail.len() && tail[i] == base + n + 1;
                        assert(false);
                    }
                    lemma_sizes(descend(n, k1).1 + 1);
                }
            }
        }
    }
}

/// What no peak covers of `n` nodes is what `descend` leaves of `n`.
pub proof fn lemma_peaks_rest_is_descend_rest(n: nat, levels: nat, base: nat)
    ensures
        peaks_from(n, levels, base).1 == descend(n, levels).1,
    decreases levels,
{
    if levels > 0 {
        if n >= tree_size(levels) {
            lemma_peaks_rest_is_descend_rest(
                (n - tree_size(levels)) as nat,
                (levels - 1) as nat,
                base + tree_size(levels),
            );
        } else {
            lemma_peaks_rest_is_descend_rest(n, (levels - 1) as nat, base);
        }
    }
}

/// The bitmaps of the sibling and of the parent differ from that of the node
/// in the bit of the node's height only, as far as higher trees go.
pub proof fn lemma_relatives_bits(n: nat, levels: nat, j: nat)
    requires
        n <= 2 * tree_size(levels),
        j >= descend(n, levels).1,
    ensures
        ({
            let (map, height) = descend(n, levels);
            &&& height < levels && !has_bit(map, height) ==> has_bit(map + pow2(height), j) == (j
                == height || has_bit(map, j))
            &&& has_bit(map, height) ==> has_bit((map - pow2(height)) as nat, j) == (j != height
                && has_bit(map, j))
        }),
    decreases levels,
{
    let (map, height) = descend(n, levels);
    lemma_descend_bounds(n, levels);
    lemma_descend_map_bound(n, levels);
    lemma_pow2_pos(levels);
    lemma_pow2_pos(height);
    if levels == 0 {
        lemma2_to64();
        lemma_has_bit_top(0, 0, height);
    } else {
        let k1 = (levels - 1) as nat;
        let full = tree_size(levels);
        lemma_sizes(levels);
        if n < full {
            lemma_descend_bounds(n, k1);
            lemma_descend_map_bound(n, k1);
            lemma_has_bit_top(map, k1, j);
            lemma_has_bit_top(map, k1, height);
            if height != k1 {
                lemma_relatives_bits(n, k1, j);
            }
        } else {
            let n1 = (n - full) as nat;
            if n1 <= 2 * tree_size(k1) {
                let map1 = descend(n1, k1).0;
                lemma_descend_bounds(n1, k1);
                lemma_descend_map_bound(n1, k1);
                lemma_has_bit_top(map1, k1, j);
                lemma_has_bit_top(map1, k1, height);
                if height != k1 {
                    lemma_relatives_bits(n1, k1, j);
                    lemma_relatives(n1, k1);
                    let below = tree_size(height + 1);
                    if has_bit(map1, height) {
                        lemma_descend_map_bound((n1 - below) as nat, k1);
                        lemma_has_bit_top((map1 - pow2(height)) as nat, k1, j);
                        assert((map - pow2(height)) as nat == (map1 - pow2(height)) as nat + pow2(
                            k1,
                        ));
                    } else {
                        lemma_descend_map_bound(n1 + below, k1);
                        lemma_has_bit_top(map1 + pow2(height), k1, j);
                        assert(map + pow2(height) == (map1 + pow2(height)) + pow2(k1));
                    }
                }
            } else {
                lemma_descend_root(levels);
                lemma_has_bit_top(map, levels, height);
            }
        }
    }
}

/// Is `path` the walk from `node` upward, family by family, that ends below
/// the first parent that lies outside of the first `size` nodes.
pub open spec fn is_ascent(path: Seq<(nat, nat)>, node: nat, size: nat) -> bool
    decreases path.len(),
{
    if path.len() == 0 {
        spec_family(node).0 > size
    } else {
        path[0] == spec_family(node) && path[0].0 <= size && is_ascent(
            path.drop_first(),
            path[0].0,
            size,
        )
    }
}

/// The bitmap of a node says for each of its ancestors on which side it
/// stands: the walk that `climb` takes with one bitmap is the walk from
/// family to family.
pub proof fn lemma_climb_is_ascent(map: nat, node: nat, level: nat, size: nat)
    requires
        1 <= node,
        size <= u64::MAX,
        descend((node - 1) as nat, 64).1 == level,
        forall|j: nat|
            j >= level ==> has_bit(descend((node - 1) as nat, 64).0, j) == has_bit(map, j),
    ensures
        is_ascent(climb(map, node, level, size), node, size),
    decreases size - node,
{
    let n = (node - 1) as nat;
    let own = descend(n, 64).0;
    lemma_family_order(node);
    lemma_pow2_pos(level);
    if node < size {
        lemma2_to64();
        vstd::arithmetic::power2::lemma2_to64_rest();
        lemma_node_height_bound(n);
        lemma_relatives(n, 64);
        lemma_sizes(level + 1);
        let (parent, sibling) = spec_family(node);
        if parent <= size {
            let tail = climb(map, parent, level + 1, size);
            assert forall|j: nat| j >= level + 1 implies has_bit(
                descend((parent - 1) as nat, 64).0,
                j,
            ) == has_bit(map, j) by {
                lemma_relatives_bits(n, 64, j);
            }
            lemma_climb_is_ascent(map, parent, level + 1, size);
            let path = climb(map, node, level, size);
            assert(path == seq![(parent, sibling)] + tail);
            assert(path.drop_first() =~= tail);
        }
    }
}

/// The family path of a node is the walk from the node upward, family by
/// family, up to the last ancestor that lies within the first `end` nodes.
pub proof fn lemma_family_path_is_ascent(pos: nat, end: nat)
    requires
        1 <= pos,
        end <= u64::MAX,
    ensures
        is_ascent(spec_family_path(pos, end), pos, end),
{
    let (map, height) = spec_peak_height_map((pos - 1) as nat);
    lemma_climb_is_ascent(map, pos, height, end);
}

/// The number of bits that are set in `map` from `level` upward without a gap.
pub open spec fn ones_from(map: nat, level: nat) -> nat
    decreases 64 - level,
{
    if level < 64 && has_bit(map, level) {
        1 + ones_from(map, level + 1)
    } else {
        0
    }
}

/// The node behind a node that has no tree of its own height to its left is
/// a leaf.
pub proof fn lemma_next_is_leaf(n: nat, levels: nat)
    requires
        n <= 2 * tree_size(levels),
        descend(n, levels).1 < levels,
        !has_bit(descend(n, levels).0, descend(n, levels).1),
    ensures
        n + 1 <= 2 * tree_size(levels),
        descend(n + 1, levels).1 == 0,
    decreases levels,
{
    let (map, height) = descend(n, levels);
    lemma_descend_bounds(n, levels);
    lemma_relatives(n, levels);
    lemma_sizes(height + 1);
    lemma_pow2_pos(height);
    if levels > 0 {
        let k1 = (levels - 1) as nat;
        let full = tree_size(levels);
        lemma_sizes(levels);
        if n < full {
            lemma_descend_bounds(n, k1);
            if height == k1 {
                assert(n + 1 == full);
                crate::utils::lemma_descend_skip(0, 0, k1);
                lemma2_to64();
            } else {
                lemma_next_is_leaf(n, k1);
            }
        } else {
            let n1 = (n - full) as nat;
            lemma_descend_root(levels);
            if n1 <= 2 * tree_size(k1) {
                let map1 = descend(n1, k1).0;
                lemma_descend_bounds(n1, k1);
                lemma_descend_map_bound(n1, k1);
                lemma_has_bit_top(map1, k1, height);
                lemma_next_is_leaf(n1, k1);
                assert((n + 1 - full) as nat == n1 + 1);
            }
        }
    }
}

/// Where a node has trees of its own height and of the heights above it to
/// its left, without a gap, the nodes behind it are its parent, the parent
/// of that, and so on: one for each such tree, all within the same range.
pub proof fn lemma_merge_walk(n: nat, map: nat, level: nat)
    requires
        n <= 2 * tree_size(63),
        descend(n, 63) == (map, level),
    ensures
        n + ones_from(map, level) <= 2 * tree_size(63),
        level + ones_from(map, level) <= 63,
        descend(n + ones_from(map, level), 63) == (map, level + ones_from(map, level)),
        !has_bit(map, level + ones_from(map, level)),
    decreases 64 - level,
{
    lemma_descend_bounds(n, 63);
    lemma_descend_map_bound(n, 63);
    if level < 64 && has_bit(map, level) {
        lemma_relatives(n, 63);
        lemma_merge_walk(n + 1, map, level + 1);
    } else {
        lemma_has_bit_top(map, 63, level);
    }
}

/// An inner node stands right behind its right child, and `2^height` nodes
/// behind its left child. Both children stand one level below it, and each
/// has the inner node as its parent and the other child as its sibling.
pub proof fn lemma_children(idx: nat)
    requires
        idx <= u64::MAX,
        spec_node_height(idx) > 0,
    ensures
        ({
            let height = spec_node_height(idx);
            let right = (idx - 1) as nat;
            let left = (idx - pow2(height)) as nat;
            &&& idx >= pow2(height)
            &&& spec_node_height(right) == height - 1
            &&& spec_node_height(left) == height - 1
            &&& !spec_is_left(right + 1)
            &&& spec_is_left(left + 1)
            &&& spec_family(right + 1) == (idx + 1, left + 1)
            &&& spec_family(left + 1) == (idx + 1, right + 1)
        }),
{
    lemma2_to64();
    vstd::arithmetic::power2::lemma2_to64_rest();
    crate::utils::lemma_descend_skip(0, 0, 64);
    let child = (idx - 1) as nat;
    let (map, height) = descend(child, 64);
    lemma_node_height_bound(child);
    lemma_pow2_pos(height);
    lemma_sizes(height + 1);
    lemma_relatives(child, 64);
    lemma_relatives_bits(child, 64, height);
    if !has_bit(map, height) {
        lemma_next_is_leaf(child, 64);
    }
}

/// A MMR is stable where it is not empty and the node that comes next is a leaf.
pub proof fn lemma_stable_iff_next_is_leaf(size: nat)
    ensures
        is_stable(size) <==> size > 0 && spec_is_leaf(size),
{
    lemma_peaks_rest_is_descend_rest(size, 64, 0);
}

/// The peaks of a stable MMR are those of its nodes whose parent lies
/// outside of it. They stand one behind the other, and the last node of the
/// MMR is its last peak.
pub proof fn lemma_peaks_have_no_parent(size: nat, pos: nat)
    requires
        is_stable(size),
        size <= u64::MAX,
        1 <= pos <= size,
    ensures
        spec_peaks(size).contains(pos) <==> spec_family(pos).0 > size,
        spec_peaks(size).len() > 0,
        spec_peaks(size).last() == size,
        forall|i: int, j: int|
            0 <= i < j < spec_peaks(size).len() ==> spec_peaks(size)[i] < spec_peaks(size)[j],
{
    lemma2_to64();
    vstd::arithmetic::power2::lemma2_to64_rest();
    lemma_peak_iff(size, (pos - 1) as nat, 64, 0);
    lemma_peaks_order(size, 64, 0);
    assert(parent_pos((pos - 1) as nat, 64) == spec_family(pos).0);
}

/// The numbers of levels of the trees below the peaks among `n` nodes, in
/// the order of the peaks.
pub open spec fn peak_levels(n: nat, levels: nat) -> Seq<nat>
    decreases levels,
{
    if levels == 0 {
        Seq::<nat>::empty()
    } else if n >= tree_size(levels) {
        seq![levels] + peak_levels((n - tree_size(levels)) as nat, (levels - 1) as nat)
    } else {
        peak_levels(n, (levels - 1) as nat)
    }
}

/// Below each peak stands a perfect tree, and each of these trees is lower
/// than the one before it.
pub proof fn lemma_peak_levels(n: nat, levels: nat, base: nat)
    requires
        n <= 2 * tree_size(levels),
        peaks_from(n, levels, base).1 == 0,
    ensures
        ({
            let peaks = peaks_from(n, levels, base).0;
            let trees = peak_levels(n, levels);
            &&& trees.len() == peaks.len()
            &&& forall|i: int| 0 <= i < trees.len() ==> 1 <= #[trigger] trees[i] <= levels
            &&& forall|i: int, j: int| 0 <= i < j < trees.len() ==> trees[i] > trees[j]
            &&& forall|i: int|
                0 <= i < peaks.len() ==> base < #[trigger] peaks[i] && descend(
                    (peaks[i] - 1 - base) as nat,
                    levels,
                ).1 + 1 == trees[i]
            &&& forall|i: int|
                0 <= i < peaks.len() ==> #[trigger] peaks[i] == tree_size(trees[i]) + if i == 0 {
                    base
                } else {
                    peaks[i - 1]
                }
        }),
    decreases levels,
{
    let peaks = peaks_from(n, levels, base).0;
    let trees = peak_levels(n, levels);
    lemma_peaks_order(n, levels, base);
    if levels > 0 {
        let k1 = (levels - 1) as nat;
        let full = tree_size(levels);
        lemma_sizes(levels);
        if n < full {
            lemma_peak_levels(n, k1, base);
            assert forall|i: int| 0 <= i < peaks.len() implies base < #[trigger] peaks[i]
                && descend((peaks[i] - 1 - base) as nat, levels).1 + 1 == trees[i] by {
                assert(peaks[i] <= base + n);
            }
        } else {
            let n1 = (n - full) as nat;
            if n1 > 2 * tree_size(k1) {
                assert(n1 == 2 * tree_size(k1) + 1 + 0);
                lemma_peaks_rest_is_descend_rest(n1, k1, base + full);
                lemma_descend_chain(k1, 0);
                assert(false);
            }
            let tail = peaks_from(n1, k1, base + full).0;
            let lower = peak_levels(n1, k1);
            lemma_peak_levels(n1, k1, base + full);
            lemma_peaks_order(n1, k1, base + full);
            lemma_descend_root(k1);
            assert(peaks == seq![base + full] + tail);
            assert(trees == seq![levels] + lower);
            assert forall|i: int| 0 <= i < trees.len() implies 1 <= #[trigger] trees[i]
                <= levels by {
                if i > 0 {
                    assert(trees[i] == lower[i - 1]);
                }
            }
            assert forall|i: int, j: int| 0 <= i < j < trees.len() implies trees[i] > trees[j] by {
                assert(trees[j] == lower[j - 1]);
                if i > 0 {
                    assert(trees[i] == lower[i - 1]);
                }
            }
            assert forall|i: int| 0 <= i < peaks.len() implies base < #[trigger] peaks[i]
                && descend((peaks[i] - 1 - base) as nat, levels).1 + 1 == trees[i] by {
                if i > 0 {
                    assert(peaks[i] == tail[i - 1]);
                    assert(trees[i] == lower[i - 1]);
                    let inner = (tail[i - 1] - 1 - (base + full)) as nat;
                    assert((peaks[i] - 1 - base) as nat == full + inner);
                    assert(((full + inner) - full) as nat == inner);
                } else {
                    assert((peaks[0] - 1 - base) as nat == 2 * tree_size(k1));
                }
            }
            assert forall|i: int| 0 <= i < peaks.len() implies #[trigger] peaks[i] == tree_size(
                trees[i],
            ) + if i == 0 {
                base
            } else {
                peaks[i - 1]
            } by {
                if i > 0 {
                    assert(peaks[i] == tail[i - 1]);
                    assert(trees[i] == lower[i - 1]);
                    if i > 1 {
                        assert(peaks[i - 1] == tail[i - 2]);
                    }
                }
            }
        }
    }
}

/// The peaks of a stable MMR fall in height from left to right.
pub proof fn lemma_peaks_fall_in_height(size: nat, i: int, j: int)
    requires
        is_stable(size),
        size <= u64::MAX,
        0 <= i < j < spec_peaks(size).len(),
    ensures
        1 <= spec_peaks(size)[i] < spec_peaks(size)[j] <= size,
        spec_node_height((spec_peaks(size)[i] - 1) as nat) > spec_node_height(
            (spec_peaks(size)[j] - 1) as nat,
        ),
{
    lemma2_to64();
    vstd::arithmetic::power2::lemma2_to64_rest();
    lemma_peak_levels(size, 64, 0);
    lemma_peaks_order(size, 64, 0);
    let peaks = spec_peaks(size);
    let trees = peak_levels(size, 64);
    assert(descend((peaks[i] - 1 - 0) as nat, 64).1 + 1 == trees[i]);
    assert(descend((peaks[j] - 1 - 0) as nat, 64).1 + 1 == trees[j]);
}

} // verus!
