//! Utility functions mainly for MMR navigation

use vstd::arithmetic::div_mod::{
    lemma_basic_div, lemma_fundamental_div_mod, lemma_fundamental_div_mod_converse,
};
use vstd::arithmetic::power2::{
    lemma2_to64, lemma2_to64_rest, lemma_pow2_adds, lemma_pow2_pos, lemma_pow2_unfold, pow2,
};
use vstd::bits::{lemma_u64_shl_is_mul, lemma_u64_shr_is_div};
use vstd::prelude::*;
use vstd::std_specs::bits::{axiom_u64_leading_zeros, u64_leading_zeros};

verus! {

/// 64-bit all being binary ones: 0b1111111...1
const ALL_ONES: u64 = 0xffff_ffff_ffff_ffff;

/// Number of nodes of a perfect binary tree with `levels` levels.
pub open spec fn tree_size(levels: nat) -> nat {
    (pow2(levels) - 1) as nat
}

/// Walk over the perfect trees of `levels`, `levels - 1`, .., 1 levels, from the
/// largest down, and take each one away from `n` that still fits into what is
/// left. The result is the bitmap of the trees taken (bit `h` stands for the
/// tree of height `h`) and what is left of `n`.
pub open spec fn descend(n: nat, levels: nat) -> (nat, nat)
    decreases levels,
{
    if levels == 0 {
        (0, n)
    } else if n >= tree_size(levels) {
        let (map, rest) = descend((n - tree_size(levels)) as nat, (levels - 1) as nat);
        (map + pow2((levels - 1) as nat), rest)
    } else {
        descend(n, (levels - 1) as nat)
    }
}

/// The peak bitmap before the node at index `idx` is added, and the height at
/// which that node lands.
pub open spec fn spec_peak_height_map(idx: nat) -> (nat, nat) {
    descend(idx, 64)
}

/// The height of the node at index `idx`.
pub open spec fn spec_node_height(idx: nat) -> nat {
    descend(idx, 64).1
}

/// Is the node at index `idx` a leaf.
pub open spec fn spec_is_leaf(idx: nat) -> bool {
    spec_node_height(idx) == 0
}

/// Is bit `j` set in `map`.
pub open spec fn has_bit(map: nat, j: nat) -> bool {
    (map / pow2(j)) % 2 == 1
}

proof fn lemma_tree_size_step(k: nat)
    requires
        k > 0,
    ensures
        tree_size(k) == 2 * tree_size((k - 1) as nat) + 1,
        tree_size(k) > tree_size((k - 1) as nat),
        pow2(k) == 2 * pow2((k - 1) as nat),
        pow2((k - 1) as nat) > 0,
{
    lemma_pow2_unfold(k);
    lemma_pow2_pos((k - 1) as nat);
}

proof fn lemma_tree_size_monotonic(a: nat, b: nat)
    requires
        a <= b,
    ensures
        tree_size(a) <= tree_size(b),
        pow2(a) <= pow2(b),
    decreases b - a,
{
    lemma_pow2_pos(a);
    if a < b {
        lemma_tree_size_step(b);
        lemma_tree_size_monotonic(a, (b - 1) as nat);
    }
}

/// Trees that are larger than what is left are passed over.
pub proof fn lemma_descend_skip(n: nat, low: nat, high: nat)
    requires
        low <= high,
        n <= tree_size(low),
    ensures
        descend(n, high) == descend(n, low),
    decreases high - low,
{
    if low < high {
        lemma_tree_size_step(high);
        lemma_tree_size_monotonic(low, (high - 1) as nat);
        lemma_descend_skip(n, low, (high - 1) as nat);
    }
}

/// Once two full trees of one size stand side by side with `extra` more
/// nodes, every smaller tree is taken, and the rest counts the levels.
pub proof fn lemma_descend_chain(j: nat, extra: nat)
    ensures
        descend(2 * tree_size(j) + 1 + extra, j) == ((pow2(j) - 1) as nat, j + 1 + extra),
    decreases j,
{
    lemma_pow2_pos(j);
    if j == 0 {
        lemma2_to64();
    } else {
        lemma_tree_size_step(j);
        let n = 2 * tree_size(j) + 1 + extra;
        assert((n - tree_size(j)) as nat == 2 * tree_size((j - 1) as nat) + 1 + (extra + 1));
        lemma_descend_chain((j - 1) as nat, extra + 1);
    }
}

/// What `descend` leaves of an index that lies within two trees of `levels`
/// levels: the bitmap fits in `levels` bits, and the rest is at most `levels`,
/// which it reaches only for the root above those two trees.
pub proof fn lemma_descend_bounds(n: nat, levels: nat)
    requires
        n <= 2 * tree_size(levels),
    ensures
        descend(n, levels).0 < pow2(levels),
        descend(n, levels).1 <= levels,
        descend(n, levels).1 == levels ==> n == 2 * tree_size(levels),
    decreases levels,
{
    lemma_pow2_pos(levels);
    if levels == 0 {
        lemma2_to64();
    } else {
        let k1 = (levels - 1) as nat;
        lemma_tree_size_step(levels);
        if n < tree_size(levels) {
            lemma_descend_bounds(n, k1);
        } else {
            let n1 = (n - tree_size(levels)) as nat;
            if n1 <= 2 * tree_size(k1) {
                lemma_descend_bounds(n1, k1);
            } else {
                assert(n1 == 2 * tree_size(k1) + 1 + 0);
                lemma_descend_chain(k1, 0);
            }
        }
    }
}

/// The height of a node whose index fits in 64 bits is below 64.
pub proof fn lemma_node_height_bound(idx: nat)
    requires
        idx <= u64::MAX,
    ensures
        spec_node_height(idx) <= 63,
        spec_peak_height_map(idx).0 <= u64::MAX,
{
    lemma2_to64();
    lemma2_to64_rest();
    lemma_descend_bounds(idx, 64);
}

proof fn lemma_all_ones_shr(lz: u64)
    requires
        lz < 64,
    ensures
        (ALL_ONES >> lz) as nat == tree_size((64 - lz) as nat),
{
    lemma_u64_shr_is_div(ALL_ONES, lz);
    lemma2_to64();
    lemma2_to64_rest();
    let k = (64 - lz) as nat;
    lemma_pow2_pos(lz as nat);
    lemma_pow2_pos(k);
    vstd::arithmetic::power2::lemma_pow2_adds(lz as nat, k);
    assert(pow2(64) == pow2(lz as nat) * pow2(k));
    let d = pow2(lz as nat) as int;
    let q = (pow2(k) - 1) as int;
    assert(ALL_ONES as int == q * d + (d - 1)) by (nonlinear_arith)
        requires
            ALL_ONES as int == d * (q + 1) - 1,
    ;
    vstd::arithmetic::div_mod::lemma_fundamental_div_mod_converse(ALL_ONES as int, d, q, d - 1);
}

/// The largest tree that the walk for `idx` has to look at.
proof fn lemma_start_levels(idx: u64, lz: u32)
    requires
        idx != 0,
        lz as int == u64_leading_zeros(idx),
    ensures
        lz < 64,
        idx as nat <= tree_size((64 - lz) as nat),
        (ALL_ONES >> lz) as nat == tree_size((64 - lz) as nat),
{
    axiom_u64_leading_zeros(idx);
    let l = lz as u64;
    lemma_all_ones_shr(l);
    assert(ALL_ONES >> lz == ALL_ONES >> l) by (bit_vector)
        requires
            l == lz as u64,
    ;
    if lz == 0 {
        lemma2_to64_rest();
    } else {
        let s = (64 - l) as u64;
        assert(idx >> s == 0);
        assert(idx <= (ALL_ONES >> l)) by (bit_vector)
            requires
                0 < l < 64,
                s == 64 - l,
                idx >> s == 0,
                ALL_ONES == 0xffff_ffff_ffff_ffffu64,
        ;
    }
}

/// Return the height of the MMR peaks **before** a node at (0-based) index `idx`
/// is added as well as the height node `idx` itself will be added.
///
/// This information is returned as a tuple of the form `(peak_map, node_height)`.
/// The peak heights are encoded as a bitmap.
///
/// For example `peak_height_map(4)` will return `(0b11, 0)`, as the MMR at this
///  point looked like:
/// ```no
///    2
///   / \
///  0   1   3
/// ```
/// The return value `(0b11, 0)` indicates, that there are peaks at heights 0 and 1.
/// The new node itself will be positioned at height 0.
pub fn peak_height_map(idx: u64) -> (r: (u64, u64))
    ensures
        (r.0 as nat, r.1 as nat) == spec_peak_height_map(idx as nat),
        r.1 <= 63,
{
    proof {
        lemma_node_height_bound(idx as nat);
    }
    if idx == 0 {
        proof {
            lemma2_to64();
            lemma_descend_skip(0, 0, 64);
        }
        return (0, 0);
    }
    let lz = idx.leading_zeros();
    proof {
        lemma_start_levels(idx, lz);
        lemma_descend_skip(idx as nat, (64 - lz) as nat, 64);
    }
    let mut peak_idx: u64 = ALL_ONES >> lz;
    let mut peak_map: u64 = 0;
    let mut rest: u64 = idx;
    let ghost top: nat = (64 - lz) as nat;
    let ghost k: nat = top;
    proof {
        lemma_pow2_pos(0);
        assert(0 * pow2(k) == 0) by (nonlinear_arith);
    }
    while peak_idx != 0
        invariant
            k <= top <= 64,
            peak_idx as nat == tree_size(k),
            (peak_map as nat) < pow2((top - k) as nat),
            descend(idx as nat, 64) == descend(idx as nat, top),
            descend(idx as nat, top) == (
                peak_map as nat * pow2(k) + descend(rest as nat, k).0,
                descend(rest as nat, k).1,
            ),
        decreases peak_idx,
    {
        proof {
            lemma_pow2_pos(k);
            if k == 0 {
                lemma2_to64();
            }
            lemma_tree_size_step(k);
            lemma_tree_size_step((top - k + 1) as nat);
            lemma_tree_size_monotonic((top - k) as nat, 63);
            lemma2_to64_rest();
        }
        let ghost old_map = peak_map;
        let ghost p1 = pow2((k - 1) as nat);
        peak_map = peak_map << 1;
        assert(peak_map == old_map * 2) by (bit_vector)
            requires
                peak_map == old_map << 1,
                old_map < 0x8000_0000_0000_0000u64,
        ;
        if rest >= peak_idx {
            rest = rest - peak_idx;
            let ghost even_map = peak_map;
            peak_map = peak_map | 1;
            assert(peak_map == even_map + 1) by (bit_vector)
                requires
                    peak_map == even_map | 1,
                    even_map == old_map * 2,
                    old_map < 0x8000_0000_0000_0000u64,
            ;
            proof {
                assert(peak_map as nat * p1 == old_map as nat * pow2(k) + p1) by (nonlinear_arith)
                    requires
                        peak_map as nat == old_map as nat * 2 + 1,
                        pow2(k) == 2 * p1,
                ;
            }
        } else {
            proof {
                assert(peak_map as nat * p1 == old_map as nat * pow2(k)) by (nonlinear_arith)
                    requires
                        peak_map as nat == old_map as nat * 2,
                        pow2(k) == 2 * p1,
                ;
            }
        }
        let ghost old_peak = peak_idx;
        peak_idx = peak_idx >> 1;
        assert(peak_idx == old_peak / 2) by (bit_vector)
            requires
                peak_idx == old_peak >> 1,
        ;
        proof {
            k = (k - 1) as nat;
        }
    }
    proof {
        lemma_pow2_pos(k);
        if k > 0 {
            lemma_tree_size_step(k);
        }
        lemma2_to64();
        assert(peak_map as nat * pow2(0) == peak_map as nat) by (nonlinear_arith)
            requires
                pow2(0) == 1,
        ;
        lemma_node_height_bound(idx as nat);
    }
    (peak_map, rest)
}

/// Return the height of a node at index `idx`.
///
/// The height is calculated as if the node is part of a fully balanced binary
/// tree and the nodes are visited in postorder traversal.
pub fn node_height(idx: u64) -> (h: u64)
    ensures
        h as nat == spec_node_height(idx as nat),
        h <= 63,
{
    if idx == 0 {
        proof {
            lemma2_to64();
            lemma_descend_skip(0, 0, 64);
        }
        return 0;
    }
    let lz = idx.leading_zeros();
    proof {
        lemma_start_levels(idx, lz);
        lemma_descend_skip(idx as nat, (64 - lz) as nat, 64);
    }
    let mut peak_idx: u64 = ALL_ONES >> lz;
    let mut rest: u64 = idx;
    let ghost k: nat = (64 - lz) as nat;
    while peak_idx != 0
        invariant
            k <= 64,
            peak_idx as nat == tree_size(k),
            descend(idx as nat, 64).1 == descend(rest as nat, k).1,
        decreases peak_idx,
    {
        proof {
            lemma_pow2_pos(k);
            if k == 0 {
                lemma2_to64();
            }
            lemma_tree_size_step(k);
        }
        if rest >= peak_idx {
            rest = rest - peak_idx;
        }
        let ghost old_peak = peak_idx;
        peak_idx = peak_idx >> 1;
        assert(peak_idx == old_peak / 2) by (bit_vector)
            requires
                peak_idx == old_peak >> 1,
        ;
        proof {
            k = (k - 1) as nat;
        }
    }
    proof {
        lemma_pow2_pos(k);
        if k > 0 {
            lemma_tree_size_step(k);
        }
        lemma_node_height_bound(idx as nat);
    }
    rest
}

/// Return true if the node at `idx` is a leaf node.
///
/// This is a convenience wrapper around [`node_height`]
pub fn is_leaf(idx: u64) -> (r: bool)
    ensures
        r == spec_is_leaf(idx as nat),
{
    node_height(idx) == 0
}

/// The positions of the peaks among `n` nodes that follow `base` earlier
/// nodes, looking at trees of at most `levels` levels, and the number of nodes
/// that no peak covers.
pub open spec fn peaks_from(n: nat, levels: nat, base: nat) -> (Seq<nat>, nat)
    decreases levels,
{
    if levels == 0 {
        (Seq::<nat>::empty(), n)
    } else if n >= tree_size(levels) {
        let (peaks, rest) = peaks_from(
            (n - tree_size(levels)) as nat,
            (levels - 1) as nat,
            base + tree_size(levels),
        );
        (seq![base + tree_size(levels)] + peaks, rest)
    } else {
        peaks_from(n, (levels - 1) as nat, base)
    }
}

/// Can `size` nodes be split into perfect trees of strictly falling height.
pub open spec fn is_stable(size: nat) -> bool {
    size > 0 && peaks_from(size, 64, 0).1 == 0
}

/// The peak positions of a MMR with `size` nodes, leftmost first; empty where
/// the MMR is empty or unstable.
pub open spec fn spec_peaks(size: nat) -> Seq<nat> {
    if is_stable(size) {
        peaks_from(size, 64, 0).0
    } else {
        Seq::<nat>::empty()
    }
}

/// The positions in `v` as natural numbers.
pub open spec fn positions(v: Seq<u64>) -> Seq<nat> {
    v.map_values(|p: u64| p as nat)
}

pub proof fn lemma_peaks_skip(n: nat, low: nat, high: nat, base: nat)
    requires
        low <= high,
        n <= tree_size(low),
    ensures
        peaks_from(n, high, base) == peaks_from(n, low, base),
    decreases high - low,
{
    if low < high {
        lemma_tree_size_step(high);
        lemma_tree_size_monotonic(low, (high - 1) as nat);
        lemma_peaks_skip(n, low, (high - 1) as nat, base);
    }
}

/// Return the positions for all peaks given a MMR with `size` nodes.
///
/// Peaks are listed left to right, starting with the leftmost peak. The leftmost
/// peak is also always the 'highest' peak.
///
/// Note that for an 'unstable' MMR, the result vector will be empty!
///
/// We denote a MMR as unstable if the given number of nodes would lead to two leaf
/// nodes. Two inner nodes at the same height without a parent will also result in
/// an unstable MMR.
///
/// For example, the MMR below with `size = 5` is unstable.
/// ```no
///    3
///   / \
///  1   2   4   5
/// ```
pub fn peaks(size: u64) -> (r: Vec<u64>)
    ensures
        positions(r@) == spec_peaks(size as nat),
{
    if size == 0 {
        let r: Vec<u64> = Vec::new();
        proof {
            assert(positions(r@) =~= Seq::<nat>::empty());
        }
        return r;
    }
    let lz = size.leading_zeros();
    proof {
        lemma_start_levels(size, lz);
        lemma_peaks_skip(size as nat, (64 - lz) as nat, 64, 0);
    }
    let mut peak_idx: u64 = ALL_ONES >> lz;
    let mut nodes_left: u64 = size;
    let mut prev_peak_idx: u64 = 0;
    let mut peaks: Vec<u64> = Vec::new();
    let ghost k: nat = (64 - lz) as nat;
    proof {
        assert(positions(peaks@) + peaks_from(nodes_left as nat, k, 0).0 =~= peaks_from(
            nodes_left as nat,
            k,
            0,
        ).0);
    }
    while peak_idx != 0
        invariant
            k <= 64,
            peak_idx as nat == tree_size(k),
            prev_peak_idx + nodes_left == size,
            peaks_from(size as nat, 64, 0).0 == positions(peaks@) + peaks_from(
                nodes_left as nat,
                k,
                prev_peak_idx as nat,
            ).0,
            peaks_from(size as nat, 64, 0).1 == peaks_from(
                nodes_left as nat,
                k,
                prev_peak_idx as nat,
            ).1,
        decreases peak_idx,
    {
        proof {
            lemma_pow2_pos(k);
            if k == 0 {
                lemma2_to64();
            }
            lemma_tree_size_step(k);
        }
        if nodes_left >= peak_idx {
            let ghost before = peaks@;
            peaks.push(prev_peak_idx + peak_idx);
            prev_peak_idx += peak_idx;
            nodes_left -= peak_idx;
            proof {
                assert(positions(peaks@) =~= positions(before) + seq![prev_peak_idx as nat]);
                let tail = peaks_from(nodes_left as nat, (k - 1) as nat, prev_peak_idx as nat).0;
                assert(positions(peaks@) + tail =~= positions(before) + (seq![
                    prev_peak_idx as nat,
                ] + tail));
            }
        }
        let ghost old_peak = peak_idx;
        peak_idx = peak_idx >> 1;
        assert(peak_idx == old_peak / 2) by (bit_vector)
            requires
                peak_idx == old_peak >> 1,
        ;
        proof {
            k = (k - 1) as nat;
        }
    }
    proof {
        lemma_pow2_pos(k);
        if k > 0 {
            lemma_tree_size_step(k);
        }
        assert(positions(peaks@) + Seq::<nat>::empty() =~= positions(peaks@));
    }
    // if, at this point, we have a node left, the MMR is unstable.
    if nodes_left > 0 {
        let r: Vec<u64> = Vec::new();
        proof {
            assert(positions(r@) =~= Seq::<nat>::empty());
        }
        return r;
    }
    peaks
}

/// The bits of a bitmap to which a higher bit is added.
pub proof fn lemma_has_bit_top(map: nat, top: nat, j: nat)
    requires
        map < pow2(top),
    ensures
        has_bit(map + pow2(top), j) == (j == top || (j < top && has_bit(map, j))),
        j >= top ==> !has_bit(map, j),
{
    let d = pow2(j) as int;
    lemma_pow2_pos(j);
    lemma_pow2_pos(top);
    if j > top {
        lemma_tree_size_step(top + 1);
        lemma_tree_size_monotonic(top + 1, j);
        lemma_basic_div((map + pow2(top)) as int, d);
        lemma_basic_div(map as int, d);
    } else if j == top {
        lemma_fundamental_div_mod_converse((map + d) as int, d, 1, map as int);
        lemma_basic_div(map as int, d);
    } else {
        let e = pow2((top - j) as nat) as int;
        lemma_pow2_adds((top - j) as nat, j);
        lemma_tree_size_step((top - j) as nat);
        let q = map as int / d;
        let r = map as int % d;
        lemma_fundamental_div_mod(map as int, d);
        assert(map + pow2(top) == (q + e) * d + r) by (nonlinear_arith)
            requires
                map as int == d * q + r,
                pow2(top) as int == e * d,
        ;
        lemma_fundamental_div_mod_converse((map + pow2(top)) as int, d, q + e, r);
    }
}

/// The bitmap that `descend` returns holds bits below `levels` only.
pub proof fn lemma_descend_map_bound(n: nat, levels: nat)
    ensures
        descend(n, levels).0 < pow2(levels),
    decreases levels,
{
    lemma_pow2_pos(levels);
    if levels > 0 {
        lemma_tree_size_step(levels);
        if n >= tree_size(levels) {
            lemma_descend_map_bound((n - tree_size(levels)) as nat, (levels - 1) as nat);
        } else {
            lemma_descend_map_bound(n, (levels - 1) as nat);
        }
    }
}

/// A bit of the bitmap stands for a tree that was taken away from `n`.
pub proof fn lemma_descend_bit_taken(n: nat, levels: nat, j: nat)
    requires
        has_bit(descend(n, levels).0, j),
    ensures
        j < levels,
        n >= tree_size(j + 1),
    decreases levels,
{
    lemma_pow2_pos(j);
    if levels == 0 {
        lemma_basic_div(0, pow2(j) as int);
    } else {
        let l1 = (levels - 1) as nat;
        lemma_tree_size_step(levels);
        if n >= tree_size(levels) {
            let n1 = (n - tree_size(levels)) as nat;
            lemma_descend_map_bound(n1, l1);
            lemma_has_bit_top(descend(n1, l1).0, l1, j);
            if j != l1 {
                lemma_descend_bit_taken(n1, l1, j);
            }
        } else {
            lemma_descend_bit_taken(n, l1, j);
        }
    }
}

/// Testing a bit of a 64 bit bitmap with a mask.
pub proof fn lemma_bit_test(map: u64, h: u64)
    requires
        h < 64,
    ensures
        (1u64 << h) as nat == pow2(h as nat),
        ((map & (1u64 << h)) != 0) == has_bit(map as nat, h as nat),
{
    vstd::bits::lemma_u64_pow2_no_overflow(h as nat);
    lemma_u64_shl_is_mul(1, h);
    lemma_u64_shr_is_div(map, h);
    let low = map >> h;
    assert(((map & (1u64 << h)) != 0) == ((low & 1) == 1)) by (bit_vector)
        requires
            h < 64,
            low == map >> h,
    ;
    assert(low & 1 == low % 2) by (bit_vector);
}

/// Is the node at `pos` the left child of its parent.
pub open spec fn spec_is_left(pos: nat) -> bool {
    let (map, height) = spec_peak_height_map((pos - 1) as nat);
    !has_bit(map, height)
}

/// The positions of the parent and of the sibling of the node at `pos`.
pub open spec fn spec_family(pos: nat) -> (nat, nat) {
    let (map, height) = spec_peak_height_map((pos - 1) as nat);
    if has_bit(map, height) {
        (pos + 1, (pos + 1 - 2 * pow2(height)) as nat)
    } else {
        (pos + 2 * pow2(height), (pos + 2 * pow2(height) - 1) as nat)
    }
}

/// The sibling of a node lies at a position of its own, before the parent.
pub proof fn lemma_family_order(pos: nat)
    requires
        pos >= 1,
    ensures
        spec_family(pos).0 > pos,
        1 <= spec_family(pos).1 < spec_family(pos).0,
        spec_family(pos).1 != pos,
        !spec_is_left(pos) ==> pos >= 2 * pow2(spec_node_height((pos - 1) as nat)),
{
    let (map, height) = spec_peak_height_map((pos - 1) as nat);
    lemma_pow2_pos(height);
    if has_bit(map, height) {
        lemma_descend_bit_taken((pos - 1) as nat, 64, height);
        lemma_tree_size_step(height + 1);
    }
}

/// Is the node at `pos` the left child node of its parent.
pub fn is_left(pos: u64) -> (r: bool)
    requires
        pos >= 1,
    ensures
        r == spec_is_left(pos as nat),
{
    let (peak_map, node_height) = peak_height_map(pos - 1);
    let peak = 1u64 << node_height;
    proof {
        lemma_bit_test(peak_map, node_height);
    }
    (peak_map & peak) == 0
}

/// For a node at `pos`, calculate the positions of its parent and sibling.
/// Sibling might either be the left or right one, depending on which is
/// missing.
///
/// The family is returned as a tuple of the form `(parent, sibling)`.
pub fn family(pos: u64) -> (r: (u64, u64))
    requires
        pos >= 1,
        spec_family(pos as nat).0 <= u64::MAX,
    ensures
        (r.0 as nat, r.1 as nat) == spec_family(pos as nat),
{
    let (peak_map, node_height) = peak_height_map(pos - 1);
    let peak = 1u64 << node_height;
    proof {
        lemma_bit_test(peak_map, node_height);
        lemma_family_order(pos as nat);
        lemma_pow2_pos(node_height as nat);
    }
    if (peak_map & peak) != 0 {
        (pos + 1, pos + 1 - 2 * peak)
    } else {
        (pos + 2 * peak, pos + 2 * peak - 1)
    }
}

/// The family of the node at `pos`, or `None` where the parent's position does
/// not fit in 64 bits.
pub fn checked_family(pos: u64) -> (r: Option<(u64, u64)>)
    requires
        pos >= 1,
    ensures
        match r {
            Some(f) => (f.0 as nat, f.1 as nat) == spec_family(pos as nat),
            None => spec_family(pos as nat).0 > u64::MAX,
        },
{
    let (peak_map, node_height) = peak_height_map(pos - 1);
    let peak = 1u64 << node_height;
    proof {
        lemma_bit_test(peak_map, node_height);
        lemma_family_order(pos as nat);
        lemma_pow2_pos(node_height as nat);
        lemma2_to64_rest();
        lemma_tree_size_monotonic(node_height as nat, 63);
    }
    if (peak_map & peak) != 0 {
        match pos.checked_add(1) {
            Some(parent) => Some((parent, parent - 2 * peak)),
            None => None,
        }
    } else {
        if peak > (u64::MAX - pos) / 2 {
            None
        } else {
            Some((pos + 2 * peak, pos + 2 * peak - 1))
        }
    }
}

/// The walk from `node`, which stands `level` levels above the leaves, up to
/// its ancestors, as long as they lie within `end` nodes. Each step gives the
/// parent and the sibling; `map` says at which levels the node on the walk is
/// a right child.
pub open spec fn climb(map: nat, node: nat, level: nat, end: nat) -> Seq<(nat, nat)>
    decreases end - node,
{
    let step = 2 * pow2(level);
    let parent = if has_bit(map, level) {
        node + 1
    } else {
        node + step
    };
    let sibling = if has_bit(map, level) {
        (node + 1 - step) as nat
    } else {
        (node + step - 1) as nat
    };
    if node >= end || parent > end || parent <= node {
        Seq::<(nat, nat)>::empty()
    } else {
        seq![(parent, sibling)] + climb(map, parent, level + 1, end)
    }
}

/// The family path of the node at `pos` within the first `end` nodes: the
/// parent and sibling positions of the node and of each of its ancestors up
/// to the peak above it. It is empty where `pos` is no position or lies at
/// or behind `end`.
pub open spec fn spec_family_path(pos: nat, end: nat) -> Seq<(nat, nat)> {
    if pos == 0 {
        Seq::<(nat, nat)>::empty()
    } else {
        let (map, height) = spec_peak_height_map((pos - 1) as nat);
        climb(map, pos, height, end)
    }
}

/// The pairs of positions in `v` as natural numbers.
pub open spec fn position_pairs(v: Seq<(u64, u64)>) -> Seq<(nat, nat)> {
    v.map_values(|f: (u64, u64)| (f.0 as nat, f.1 as nat))
}

/// For a given node at position `pos` calculate the parent and sibling positions
///  for a path up to the `end_pos` node. This `family_path` will contain the nodes
/// needed in order to generate a membership Merkle proof for the node at `pos`.
///
/// For example, given the tree below, the family path for position '8' would be
/// '9 - 13 - 7'.
///
///```no
///               15
///            /      \
///           /        \
///          /          \
///         /            \
///        7             14
///      /    \        /    \
///     3      6      10     13     
///    / \    /  \   /  \   /  \   
///   1   2  4    5 8    9 11  12
///````
/// The returned family path is encoded as a vector of tuples. Each tuple is of
/// the form `(parent, sibling)`, where `sibling` is the position of the tree node
/// needed in order to calculate the hash for `parent`. Starting with the node
/// at position `pos`.
///
/// For example, given the tree above and starting at node '8', the encoded family
/// path will look like:
/// ```no
/// [(10, 9), (14, 13), (15, 7)]
/// ```
pub fn family_path(pos: u64, end_pos: u64) -> (path: Vec<(u64, u64)>)
    ensures
        position_pairs(path@) == spec_family_path(pos as nat, end_pos as nat),
        pos >= 1 ==> crate::geometry::is_ascent(position_pairs(path@), pos as nat, end_pos as nat),
{
    proof {
        if pos >= 1 {
            crate::geometry::lemma_family_path_is_ascent(pos as nat, end_pos as nat);
        }
    }
    let mut path: Vec<(u64, u64)> = Vec::new();
    if pos == 0 {
        proof {
            assert(position_pairs(path@) =~= Seq::<(nat, nat)>::empty());
        }
        return path;
    }
    let (peak_map, node_height) = peak_height_map(pos - 1);
    let mut parent_height: u64 = 1u64 << node_height;
    let mut node_pos: u64 = pos;
    let ghost level: u64 = node_height;
    let ghost map: nat = peak_map as nat;
    proof {
        lemma_bit_test(peak_map, node_height);
        assert(position_pairs(path@) + climb(map, pos as nat, level as nat, end_pos as nat)
            =~= climb(map, pos as nat, level as nat, end_pos as nat));
    }
    while node_pos < end_pos
        invariant
            1 <= pos <= node_pos,
            level <= 63,
            map == peak_map as nat,
            map == descend((pos - 1) as nat, 64).0,
            parent_height == 1u64 << level,
            spec_family_path(pos as nat, end_pos as nat) == position_pairs(path@) + climb(
                map,
                node_pos as nat,
                level as nat,
                end_pos as nat,
            ),
        ensures
            position_pairs(path@) == spec_family_path(pos as nat, end_pos as nat),
        decreases end_pos - node_pos,
    {
        proof {
            lemma_bit_test(peak_map, level);
            lemma_pow2_pos(level as nat);
            lemma2_to64_rest();
            lemma_tree_size_monotonic(level as nat, 63);
            if has_bit(map, level as nat) {
                lemma_descend_bit_taken((pos - 1) as nat, 64, level as nat);
                lemma_tree_size_step((level + 1) as nat);
                if level == 63 {
                    assert(false);
                }
                lemma_tree_size_monotonic((level + 1) as nat, 63);
            }
        }
        let parent: u64;
        let sibling: u64;
        if (peak_map & parent_height) != 0 {
            parent = node_pos + 1;
            sibling = parent - 2 * parent_height;
        } else {
            if parent_height > (u64::MAX - node_pos) / 2 {
                proof {
                    assert(position_pairs(path@) + Seq::<(nat, nat)>::empty() =~= position_pairs(
                        path@,
                    ));
                }
                break ;
            }
            parent = node_pos + 2 * parent_height;
            sibling = parent - 1;
        }
        if parent > end_pos {
            proof {
                assert(position_pairs(path@) + Seq::<(nat, nat)>::empty() =~= position_pairs(
                    path@,
                ));
            }
            break ;
        }
        let ghost before = path@;
        path.push((parent, sibling));
        proof {
            let tail = climb(map, parent as nat, (level + 1) as nat, end_pos as nat);
            assert(position_pairs(path@) =~= position_pairs(before) + seq![
                (parent as nat, sibling as nat),
            ]);
            assert(position_pairs(path@) + tail =~= position_pairs(before) + (seq![
                (parent as nat, sibling as nat),
            ] + tail));
            if level == 63 {
                lemma_tree_size_step(64);
                assert(false);
            }
        }
        node_pos = parent;
        let ghost old_height = parent_height;
        parent_height = parent_height << 1;
        assert(parent_height == 1u64 << ((level + 1) as u64)) by (bit_vector)
            requires
                parent_height == old_height << 1,
                old_height == 1u64 << level,
                level < 63,
        ;
        proof {
            level = (level + 1) as u64;
        }
    }
    proof {
        assert(position_pairs(path@) + Seq::<(nat, nat)>::empty() =~= position_pairs(path@));
    }
    path
}

/// A node of height `h` comes after the two trees below it: its index is
/// at least twice the size of a tree with `h` levels.
pub proof fn lemma_height_floor(n: nat, levels: nat)
    requires
        n <= 2 * tree_size(levels),
    ensures
        n >= 2 * tree_size(descend(n, levels).1),
    decreases levels,
{
    lemma_pow2_pos(levels);
    if levels == 0 {
        lemma2_to64();
    } else {
        let k1 = (levels - 1) as nat;
        lemma_tree_size_step(levels);
        if n < tree_size(levels) {
            lemma_height_floor(n, k1);
        } else {
            let n1 = (n - tree_size(levels)) as nat;
            if n1 <= 2 * tree_size(k1) {
                lemma_height_floor(n1, k1);
            } else {
                assert(n1 == 2 * tree_size(k1) + 1 + 0);
                lemma_descend_chain(k1, 0);
            }
        }
    }
}

/// The children of an inner node lie before it: the index of the node is
/// at least `2^height`.
pub proof fn lemma_inner_node_children(idx: nat)
    requires
        idx <= u64::MAX,
        spec_node_height(idx) > 0,
    ensures
        idx >= pow2(spec_node_height(idx)) + 0,
        idx >= 2,
{
    lemma2_to64();
    lemma2_to64_rest();
    lemma_height_floor(idx, 64);
    let h = spec_node_height(idx);
    lemma_tree_size_step(h);
    lemma_pow2_pos((h - 1) as nat);
}

} // verus!
