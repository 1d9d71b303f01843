//! The integer side of the region-aware dark build: a two-theme image straight
//! from raw RGBA, whose light theme is bit-exact and whose dark theme is seeded
//! per region.
//!
//! - [`regional_plan`] counts and indexes the distinct colors and picks the
//!   index width; [`splits_by_region`] says whether the build splits by region
//!   or quantizes.
//! - [`grow_text_mask`] grows the foreground core into its anti-aliasing shell
//!   along edge pixels (which pixels are edges, and which are foreground, the
//!   floating-point caller decides).
//! - [`split_keys`] splits the colors by `(color, text?)` into provisional
//!   entries, each with its own dark color.
//! - [`merge_splits`] folds them back together in two passes: the *feature
//!   merge* sends an entry to the first earlier kept entry of the same color
//!   whose dark color is near-identical (floating-point OKLab distance, handed
//!   in as the matrix `close`); if more entries are kept than `capacity` allows,
//!   the *capacity merge* sends the least-used kept entries that are not their
//!   color's first entry (the primary) back to that primary, fewest uses first,
//!   ties by index. The survivors keep their index order and are numbered from 0.
//! - [`assemble_regional`] merges the split entries, orders the survivors by use
//!   (ties by light color, then by entry) and builds the image: every pixel keeps
//!   its light color, and its dark color is the seed of the entry it merged into.
//! - [`assemble_unsplit`] builds the image of a strategy that does not split:
//!   every color its own entry, with the strategy's dark color.

use vstd::prelude::*;

use crate::abilities;
use crate::container::{
    color_fits, first_bad_abilities, ColorDepth, DifImage, Frame, FrameModel, ImageModel, IndexWidth,
    Rgba, Theme,
};
use crate::derive::{
    arithmetic_fits, dark_color_for, derive_dark_base_color, lemma_invert_involution,
    spec_dark_base, spec_dark_color, RegionClass, Strategy,
};
use crate::error::{DifError, DifResult};
use crate::ranking::rank_keys;

verus! {

/// Entry `i` may merge into entry `j`: same color id, and `close` says their
/// dark colors are near-identical (`close` is row-major, `n` by `n`).
pub open spec fn may_merge(cid: Seq<u32>, close: Seq<bool>, i: int, j: int) -> bool {
    cid[i] == cid[j] && close[i * cid.len() + j]
}

/// The first position `p >= from` of `k` whose entry `i` may merge into, or
/// `k.len()` when there is none.
pub open spec fn first_merge_from(cid: Seq<u32>, close: Seq<bool>, k: Seq<int>, i: int, from: int) -> int
    decreases k.len() - from,
{
    if from < 0 || from >= k.len() {
        k.len() as int
    } else if may_merge(cid, close, i, k[from]) {
        from
    } else {
        first_merge_from(cid, close, k, i, from + 1)
    }
}

/// The entries among the first `i` that the feature merge keeps, in index order.
pub open spec fn feature_kept(cid: Seq<u32>, close: Seq<bool>, i: nat) -> Seq<int>
    decreases i,
{
    if i == 0 {
        Seq::empty()
    } else {
        let k = feature_kept(cid, close, (i - 1) as nat);
        if first_merge_from(cid, close, k, i - 1, 0) < k.len() {
            k
        } else {
            k.push(i - 1)
        }
    }
}

/// Where the feature merge sends entry `i`: the first kept earlier entry it may
/// merge into, else `i` itself (it is kept).
pub open spec fn feature_target(cid: Seq<u32>, close: Seq<bool>, i: int) -> int {
    let k = feature_kept(cid, close, i as nat);
    let p = first_merge_from(cid, close, k, i, 0);
    if p < k.len() {
        k[p]
    } else {
        i
    }
}

/// The first index `>= from` whose color id is `x`, or `cid.len()`.
pub open spec fn first_of_cid(cid: Seq<u32>, x: u32, from: int) -> int
    decreases cid.len() - from,
{
    if from < 0 || from >= cid.len() {
        cid.len() as int
    } else if cid[from] == x {
        from
    } else {
        first_of_cid(cid, x, from + 1)
    }
}

/// The primary entry of entry `i`'s color: the first entry with that color id.
pub open spec fn primary_of(cid: Seq<u32>, i: int) -> int {
    first_of_cid(cid, cid[i], 0)
}

/// Entry `j` is used less than entry `i` (fewer uses, ties by index).
pub open spec fn used_before(freq: Seq<u32>, j: int, i: int) -> bool {
    freq[j] < freq[i] || (freq[j] == freq[i] && j < i)
}

/// Entry `j` is kept by the feature merge and is not its color's primary: the
/// entries that the capacity merge may send back.
pub open spec fn mergeable(cid: Seq<u32>, close: Seq<bool>, j: int) -> bool {
    feature_target(cid, close, j) == j && primary_of(cid, j) != j
}

/// How many of the first `x` entries are mergeable and used less than entry `i`.
pub open spec fn rank_below(cid: Seq<u32>, freq: Seq<u32>, close: Seq<bool>, i: int, x: nat) -> nat
    decreases x,
{
    if x == 0 {
        0
    } else {
        rank_below(cid, freq, close, i, (x - 1) as nat) + if mergeable(cid, close, x - 1)
            && used_before(freq, x - 1, i) {
            1nat
        } else {
            0nat
        }
    }
}

/// The capacity merge sends kept entry `i` back to its primary: the kept entries
/// outnumber `cap`, and `i` is among the `kept - cap` least-used mergeable ones.
pub open spec fn capacity_merged(
    cid: Seq<u32>,
    freq: Seq<u32>,
    close: Seq<bool>,
    cap: int,
    i: int,
) -> bool {
    let k = feature_kept(cid, close, cid.len());
    &&& k.len() > cap
    &&& mergeable(cid, close, i)
    &&& rank_below(cid, freq, close, i, cid.len()) < k.len() - cap
}

/// Entry `i` survives both merges.
pub open spec fn survives(cid: Seq<u32>, freq: Seq<u32>, close: Seq<bool>, cap: int, i: int) -> bool {
    feature_target(cid, close, i) == i && !capacity_merged(cid, freq, close, cap, i)
}

/// The surviving entry that entry `i` ends up in.
pub open spec fn merge_root(cid: Seq<u32>, freq: Seq<u32>, close: Seq<bool>, cap: int, i: int) -> int {
    let t = feature_target(cid, close, i);
    if capacity_merged(cid, freq, close, cap, t) {
        primary_of(cid, t)
    } else {
        t
    }
}

/// The surviving entries among the first `x`, in index order.
pub open spec fn survivors(cid: Seq<u32>, freq: Seq<u32>, close: Seq<bool>, cap: int, x: nat) -> Seq<int>
    decreases x,
{
    if x == 0 {
        Seq::empty()
    } else {
        let s = survivors(cid, freq, close, cap, (x - 1) as nat);
        if survives(cid, freq, close, cap, x - 1) {
            s.push(x - 1)
        } else {
            s
        }
    }
}

proof fn lemma_first_merge_from(cid: Seq<u32>, close: Seq<bool>, k: Seq<int>, i: int, from: int)
    requires
        0 <= from <= k.len(),
    ensures
        from <= first_merge_from(cid, close, k, i, from) <= k.len(),
        first_merge_from(cid, close, k, i, from) < k.len() ==> may_merge(
            cid,
            close,
            i,
            k[first_merge_from(cid, close, k, i, from)],
        ),
    decreases k.len() - from,
{
    if from < k.len() && !may_merge(cid, close, i, k[from]) {
        lemma_first_merge_from(cid, close, k, i, from + 1);
    }
}

proof fn lemma_first_of_cid(cid: Seq<u32>, x: u32, from: int, j: int)
    requires
        0 <= from <= j < cid.len(),
        cid[j] == x,
    ensures
        from <= first_of_cid(cid, x, from) <= j,
        cid[first_of_cid(cid, x, from)] == x,
    decreases cid.len() - from,
{
    if cid[from] != x {
        lemma_first_of_cid(cid, x, from + 1, j);
    }
}

/// The kept entries before `i` are increasing, below `i`, and each is its own target.
proof fn lemma_feature_kept(cid: Seq<u32>, close: Seq<bool>, i: nat)
    ensures
        forall|p: int|
            0 <= p < feature_kept(cid, close, i).len() ==> 0 <= #[trigger] feature_kept(
                cid,
                close,
                i,
            )[p] < i,
        forall|p: int, q: int|
            0 <= p < q < feature_kept(cid, close, i).len() ==> feature_kept(cid, close, i)[p]
                < feature_kept(cid, close, i)[q],
        forall|p: int|
            0 <= p < feature_kept(cid, close, i).len() ==> feature_target(
                cid,
                close,
                #[trigger] feature_kept(cid, close, i)[p],
            ) == feature_kept(cid, close, i)[p],
    decreases i,
{
    if i > 0 {
        let k = feature_kept(cid, close, (i - 1) as nat);
        lemma_feature_kept(cid, close, (i - 1) as nat);
        lemma_first_merge_from(cid, close, k, i - 1, 0);
    }
}

/// Facts about the feature target of entry `i`.
proof fn lemma_feature_target(cid: Seq<u32>, close: Seq<bool>, i: int)
    requires
        0 <= i,
    ensures
        0 <= feature_target(cid, close, i) <= i,
        feature_target(cid, close, feature_target(cid, close, i)) == feature_target(cid, close, i),
        feature_target(cid, close, i) != i ==> may_merge(cid, close, i, feature_target(cid, close, i)),
{
    let k = feature_kept(cid, close, i as nat);
    lemma_feature_kept(cid, close, i as nat);
    lemma_first_merge_from(cid, close, k, i, 0);
}

/// A primary entry is kept by the feature merge, and is never capacity-merged.
proof fn lemma_primary_kept(cid: Seq<u32>, close: Seq<bool>, i: int)
    requires
        0 <= i < cid.len(),
        primary_of(cid, i) == i,
    ensures
        feature_target(cid, close, i) == i,
{
    let k = feature_kept(cid, close, i as nat);
    lemma_feature_kept(cid, close, i as nat);
    lemma_first_merge_from(cid, close, k, i, 0);
    let p = first_merge_from(cid, close, k, i, 0);
    if p < k.len() {
        let j = k[p];
        assert(0 <= j < i);
        lemma_first_of_cid(cid, cid[i], 0, j);
    }
}

/// The root of an entry is a survivor at or before it, with the same color id;
/// it is the entry itself exactly when the entry survives.
proof fn lemma_merge_root(cid: Seq<u32>, freq: Seq<u32>, close: Seq<bool>, cap: int, i: int)
    requires
        0 <= i < cid.len(),
    ensures
        0 <= merge_root(cid, freq, close, cap, i) <= i,
        survives(cid, freq, close, cap, merge_root(cid, freq, close, cap, i)),
        merge_root(cid, freq, close, cap, i) == i <==> survives(cid, freq, close, cap, i),
        cid[merge_root(cid, freq, close, cap, i)] == cid[i],
{
    let t = feature_target(cid, close, i);
    lemma_feature_target(cid, close, i);
    lemma_first_of_cid(cid, cid[t], 0, t);
    let p = primary_of(cid, t);
    lemma_first_of_cid(cid, cid[p], 0, p);
    assert(primary_of(cid, p) == p) by {
        lemma_first_of_cid(cid, cid[t], 0, p);
    }
    lemma_primary_kept(cid, close, p);
}

proof fn lemma_survivors(cid: Seq<u32>, freq: Seq<u32>, close: Seq<bool>, cap: int, x: nat, y: nat)
    requires
        x <= y,
    ensures
        survivors(cid, freq, close, cap, x).len() <= survivors(cid, freq, close, cap, y).len(),
        forall|p: int|
            0 <= p < survivors(cid, freq, close, cap, x).len() ==> survivors(
                cid,
                freq,
                close,
                cap,
                y,
            )[p] == #[trigger] survivors(cid, freq, close, cap, x)[p],
        survivors(cid, freq, close, cap, y).len() <= y,
    decreases y,
{
    if y > 0 {
        if x < y {
            lemma_survivors(cid, freq, close, cap, x, (y - 1) as nat);
        } else {
            lemma_survivors(cid, freq, close, cap, (y - 1) as nat, (y - 1) as nat);
        }
    }
}

/// How many of the first `x` entries are their color's primary: the number of
/// distinct color ids among them.
pub open spec fn primary_count(cid: Seq<u32>, x: nat) -> nat
    decreases x,
{
    if x == 0 {
        0
    } else {
        primary_count(cid, (x - 1) as nat) + if primary_of(cid, x - 1) == x - 1 {
            1nat
        } else {
            0nat
        }
    }
}

spec fn mergeable_count(cid: Seq<u32>, close: Seq<bool>, x: nat) -> nat
    decreases x,
{
    if x == 0 {
        0
    } else {
        mergeable_count(cid, close, (x - 1) as nat) + if mergeable(cid, close, x - 1) {
            1nat
        } else {
            0nat
        }
    }
}

spec fn merged_count(cid: Seq<u32>, freq: Seq<u32>, close: Seq<bool>, cap: int, x: nat) -> nat
    decreases x,
{
    if x == 0 {
        0
    } else {
        merged_count(cid, freq, close, cap, (x - 1) as nat) + if capacity_merged(
            cid,
            freq,
            close,
            cap,
            x - 1,
        ) {
            1nat
        } else {
            0nat
        }
    }
}

/// Counting the entries: kept = primaries + mergeable = survivors + capacity-merged.
proof fn lemma_counts(cid: Seq<u32>, freq: Seq<u32>, close: Seq<bool>, cap: int, x: nat)
    requires
        x <= cid.len(),
    ensures
        feature_kept(cid, close, x).len() == primary_count(cid, x) + mergeable_count(cid, close, x),
        feature_kept(cid, close, x).len() == survivors(cid, freq, close, cap, x).len()
            + merged_count(cid, freq, close, cap, x),
    decreases x,
{
    if x > 0 {
        let i = x - 1;
        lemma_counts(cid, freq, close, cap, (x - 1) as nat);
        let k = feature_kept(cid, close, i as nat);
        lemma_feature_kept(cid, close, i as nat);
        lemma_first_merge_from(cid, close, k, i, 0);
        if primary_of(cid, i) == i {
            lemma_primary_kept(cid, close, i);
        }
    }
}

/// The mergeable entries used less than `i`, as a set.
spec fn below_set(cid: Seq<u32>, freq: Seq<u32>, close: Seq<bool>, i: int, x: int) -> Set<int> {
    Set::new(|j: int| 0 <= j < x && mergeable(cid, close, j) && used_before(freq, j, i))
}

spec fn mergeable_set(cid: Seq<u32>, close: Seq<bool>, x: int) -> Set<int> {
    Set::new(|j: int| 0 <= j < x && mergeable(cid, close, j))
}

spec fn merged_set(cid: Seq<u32>, freq: Seq<u32>, close: Seq<bool>, cap: int, x: int) -> Set<int> {
    Set::new(|j: int| 0 <= j < x && capacity_merged(cid, freq, close, cap, j))
}

proof fn lemma_sets(cid: Seq<u32>, freq: Seq<u32>, close: Seq<bool>, cap: int, i: int, x: nat)
    ensures
        below_set(cid, freq, close, i, x as int).finite(),
        below_set(cid, freq, close, i, x as int).len() == rank_below(cid, freq, close, i, x),
        mergeable_set(cid, close, x as int).finite(),
        mergeable_set(cid, close, x as int).len() == mergeable_count(cid, close, x),
        merged_set(cid, freq, close, cap, x as int).finite(),
        merged_set(cid, freq, close, cap, x as int).len() == merged_count(cid, freq, close, cap, x),
    decreases x,
{
    if x == 0 {
        assert(below_set(cid, freq, close, i, 0) =~= Set::empty());
        assert(mergeable_set(cid, close, 0) =~= Set::empty());
        assert(merged_set(cid, freq, close, cap, 0) =~= Set::empty());
    } else {
        let y = x - 1;
        lemma_sets(cid, freq, close, cap, i, y as nat);
        let b0 = below_set(cid, freq, close, i, y);
        let m0 = mergeable_set(cid, close, y);
        let t0 = merged_set(cid, freq, close, cap, y);
        if mergeable(cid, close, y) && used_before(freq, y, i) {
            assert(below_set(cid, freq, close, i, x as int) =~= b0.insert(y));
        } else {
            assert(below_set(cid, freq, close, i, x as int) =~= b0);
        }
        if mergeable(cid, close, y) {
            assert(mergeable_set(cid, close, x as int) =~= m0.insert(y));
        } else {
            assert(mergeable_set(cid, close, x as int) =~= m0);
        }
        if capacity_merged(cid, freq, close, cap, y) {
            assert(merged_set(cid, freq, close, cap, x as int) =~= t0.insert(y));
        } else {
            assert(merged_set(cid, freq, close, cap, x as int) =~= t0);
        }
    }
}

/// With more kept entries than `cap`, the capacity merge sends back
/// `min(kept - cap, mergeable)` entries: the ranks of the mergeable entries are
/// exactly `0 .. mergeable`.
proof fn lemma_merged_count(cid: Seq<u32>, freq: Seq<u32>, close: Seq<bool>, cap: int)
    requires
        feature_kept(cid, close, cid.len()).len() > cap,
    ensures
        ({
            let need = feature_kept(cid, close, cid.len()).len() - cap;
            let m = mergeable_count(cid, close, cid.len());
            merged_count(cid, freq, close, cap, cid.len()) == if need < m {
                need
            } else {
                m as int
            }
        }),
{
    let n = cid.len() as int;
    let need = feature_kept(cid, close, cid.len()).len() - cap;
    let m = mergeable_count(cid, close, cid.len()) as int;
    let s = mergeable_set(cid, close, n);
    let r = |i: int| rank_below(cid, freq, close, i, cid.len()) as int;
    lemma_sets(cid, freq, close, cap, 0, cid.len());
    assert forall|i: int| s.contains(i) implies 0 <= #[trigger] r(i) < m by {
        lemma_sets(cid, freq, close, cap, i, cid.len());
        let b = below_set(cid, freq, close, i, n);
        assert(b.subset_of(s.remove(i)));
        vstd::set_lib::lemma_len_subset(b, s.remove(i));
    }
    assert forall|a: int, c: int| s.contains(a) && s.contains(c) && used_before(freq, a, c) implies #[trigger] r(a) < #[trigger] r(c) by {
        lemma_sets(cid, freq, close, cap, a, cid.len());
        lemma_sets(cid, freq, close, cap, c, cid.len());
        let ba = below_set(cid, freq, close, a, n);
        let bc = below_set(cid, freq, close, c, n);
        assert(ba.insert(a).subset_of(bc));
        vstd::set_lib::lemma_len_subset(ba.insert(a), bc);
    }
    assert(vstd::relations::injective_on(r, s)) by {
        assert forall|a: int, c: int| s.contains(a) && s.contains(c) && #[trigger] r(a) == #[trigger] r(c) implies a == c by {
            if a != c {
                if used_before(freq, a, c) {
                    assert(r(a) < r(c));
                } else {
                    assert(used_before(freq, c, a));
                    assert(r(c) < r(a));
                }
            }
        }
    }
    let img = s.map(r);
    vstd::set_lib::lemma_map_size(s, img, r);
    vstd::set_lib::lemma_int_range(0, m);
    assert(img.subset_of(vstd::set_lib::set_int_range(0, m)));
    vstd::set_lib::lemma_subset_equality(img, vstd::set_lib::set_int_range(0, m));
    let t = merged_set(cid, freq, close, cap, n);
    assert(t =~= s.filter(|i: int| r(i) < need));
    assert(t.subset_of(s));
    let lim = if need < m {
        need
    } else {
        m
    };
    vstd::set_lib::lemma_int_range(0, lim);
    assert(t.map(r) =~= vstd::set_lib::set_int_range(0, lim)) by {
        assert forall|v: int| vstd::set_lib::set_int_range(0, lim).contains(v) implies t.map(r).contains(v) by {
            assert(img.contains(v));
            let i = choose|i: int| s.contains(i) && v == r(i);
            assert(t.contains(i));
        }
    }
    vstd::set_lib::lemma_len_subset(t, s);
    vstd::set_lib::lemma_map_size(t, t.map(r), r);
}

/// The number of surviving entries: all kept entries when they fit in `cap`;
/// otherwise `cap`, but never fewer than the distinct color ids, since no color
/// loses its primary. So distinct ids <= survivors, and survivors <= `cap`
/// whenever the distinct ids fit in `cap`.
pub proof fn lemma_merge_size(cid: Seq<u32>, freq: Seq<u32>, close: Seq<bool>, cap: int)
    ensures
        ({
            let k = feature_kept(cid, close, cid.len()).len();
            let d = primary_count(cid, cid.len());
            &&& d <= k
            &&& survivors(cid, freq, close, cap, cid.len()).len() == if k <= cap {
                k as int
            } else if d <= cap {
                cap
            } else {
                d as int
            }
        }),
{
    lemma_counts(cid, freq, close, cap, cid.len());
    let k = feature_kept(cid, close, cid.len()).len();
    if k <= cap {
        lemma_sets(cid, freq, close, cap, 0, cid.len());
        assert(merged_set(cid, freq, close, cap, cid.len() as int) =~= Set::empty());
    } else {
        lemma_merged_count(cid, freq, close, cap);
    }
}

/// Pixel `p` of an RGBA8 buffer.
pub open spec fn pixel_of(rgba: Seq<u8>, p: int) -> Rgba {
    Rgba {
        r: rgba[4 * p] as u16,
        g: rgba[4 * p + 1] as u16,
        b: rgba[4 * p + 2] as u16,
        a: rgba[4 * p + 3] as u16,
    }
}

/// The little-endian `u32` of a color's four 8-bit channels.
pub open spec fn color_key(c: Rgba) -> int {
    c.r + 256 * (c.g + 256 * (c.b + 256 * c.a))
}

/// The color whose four 8-bit channels make up the `u32` key `k`.
pub open spec fn color_of_key(k: int) -> Rgba {
    Rgba {
        r: (k % 256) as u16,
        g: ((k / 256) % 256) as u16,
        b: ((k / 256 / 256) % 256) as u16,
        a: (k / 256 / 256 / 256) as u16,
    }
}

/// The keys of the first `n` pixels.
pub open spec fn pixel_keys(rgba: Seq<u8>, n: nat) -> Seq<u64> {
    Seq::new(n, |p: int| color_key(pixel_of(rgba, p)) as u64)
}

/// The index width a region-aware build uses for `count` distinct colors: the
/// one asked for, else the narrowest that holds them, 16 bits when none of the
/// supported ones does.
pub open spec fn spec_plan_width(want: Option<IndexWidth>, count: nat) -> IndexWidth {
    match want {
        Some(w) => w,
        None => if count <= 0x100 {
            IndexWidth::Bit8
        } else {
            IndexWidth::Bit16
        },
    }
}

/// Every channel of `c` is a byte.
pub open spec fn byte_channels(c: Rgba) -> bool {
    c.r < 256 && c.g < 256 && c.b < 256 && c.a < 256
}

proof fn lemma_color_key(c: Rgba)
    requires
        byte_channels(c),
    ensures
        color_of_key(color_key(c)) == c,
        0 <= color_key(c) < 0x1_0000_0000,
{
    let k = color_key(c);
    let q1 = c.g + 256 * (c.b + 256 * c.a);
    let q2 = c.b + 256 * c.a;
    vstd::arithmetic::div_mod::lemma_fundamental_div_mod_converse(k, 256, q1, c.r as int);
    vstd::arithmetic::div_mod::lemma_fundamental_div_mod_converse(q1, 256, q2, c.g as int);
    vstd::arithmetic::div_mod::lemma_fundamental_div_mod_converse(q2, 256, c.a as int, c.b as int);
}

proof fn lemma_key_color(k: int)
    requires
        0 <= k < 0x1_0000_0000,
    ensures
        byte_channels(color_of_key(k)),
        color_key(color_of_key(k)) == k,
{
    vstd::arithmetic::div_mod::lemma_fundamental_div_mod(k, 256);
    vstd::arithmetic::div_mod::lemma_fundamental_div_mod(k / 256, 256);
    vstd::arithmetic::div_mod::lemma_fundamental_div_mod(k / 256 / 256, 256);
    assert(k / 256 / 256 / 256 < 256) by {
        vstd::arithmetic::div_mod::lemma_div_is_ordered(k, 0xFFFF_FFFF, 256);
        vstd::arithmetic::div_mod::lemma_div_is_ordered(k / 256, 0xFF_FFFF, 256);
        vstd::arithmetic::div_mod::lemma_div_is_ordered(k / 256 / 256, 0xFFFF, 256);
    }
}

/// Count the distinct colors of a `width * height` RGBA8 image and index it by
/// them. The colors come most frequent first, ties by the smaller little-endian
/// `u32` key; `ids[p]` is the color of pixel `p` and `freq[k]` how many pixels
/// have color `k`. The index width is the one asked for or, with none asked for,
/// the narrowest that holds the colors (16 bits when neither supported one
/// does); an unsupported width is refused.
pub fn regional_plan(width: u32, height: u32, rgba: &[u8], want: Option<IndexWidth>) -> (r:
    DifResult<(Vec<u32>, Vec<Rgba>, Vec<u32>, IndexWidth)>)
    requires
        width as int * height as int <= u32::MAX,
    ensures
        rgba@.len() != 4 * width * height ==> r == Err::<(Vec<u32>, Vec<Rgba>, Vec<u32>, IndexWidth), DifError>(
            DifError::Invalid("rgba length != 4*width*height"),
        ),
        rgba@.len() == 4 * width * height ==> {
            let keys = pixel_keys(rgba@, (width * height) as nat);
            let w = spec_plan_width(want, keys.to_set().len());
            &&& !w.spec_supported() ==> r == Err::<(Vec<u32>, Vec<Rgba>, Vec<u32>, IndexWidth), DifError>(
                DifError::BadIndexWidth((w.spec_bytes() * 8) as u8),
            )
            &&& w.spec_supported() ==> r is Ok
        },
        r matches Ok((ids, colors, freq, iw)) ==> {
            let keys = pixel_keys(rgba@, (width * height) as nat);
            &&& iw == spec_plan_width(want, colors@.len())
            &&& colors@.len() == keys.to_set().len()
            &&& colors@.no_duplicates()
            &&& freq@.len() == colors@.len()
            &&& ids@.len() == width * height
            &&& forall|p: int|
                0 <= p < width * height ==> #[trigger] ids@[p] < colors@.len() && colors@[ids@[p] as int]
                    == pixel_of(rgba@, p)
            &&& forall|k: int|
                0 <= k < colors@.len() ==> byte_channels(#[trigger] colors@[k]) && freq@[k]
                    == keys.to_multiset().count(color_key(colors@[k]) as u64) && freq@[k] >= 1
            &&& forall|k: int, l: int|
                0 <= k < l < colors@.len() ==> freq@[k] > freq@[l] || (freq@[k] == freq@[l]
                    && color_key(colors@[k]) < color_key(colors@[l]))
            &&& forall|k: u32| k < colors@.len() ==> #[trigger] ids@.contains(k)
        },
{
    assert(4 * (width as int) * (height as int) <= 4 * 0xFFFF_FFFF) by (nonlinear_arith)
        requires
            width as int * height as int <= u32::MAX,
    ;
    let total = 4 * (width as u128) * (height as u128);
    if rgba.len() as u128 != total {
        return Err(DifError::Invalid("rgba length != 4*width*height"));
    }
    let px = rgba.len() / 4;
    assert(4 * width * height == 4 * (width * height)) by (nonlinear_arith);
    assert(rgba@.len() == 4 * px);
    let ghost pk = pixel_keys(rgba@, (width * height) as nat);
    let mut keys: Vec<u64> = Vec::new();
    let mut p: usize = 0;
    while p < px
        invariant
            px == width * height,
            rgba@.len() == 4 * px,
            rgba.len() == rgba@.len(),
            4 * px <= usize::MAX,
            p <= px,
            keys@.len() == p,
            forall|q: int| 0 <= q < p ==> keys@[q] == pk[q],
            pk == pixel_keys(rgba@, (width * height) as nat),
        decreases px - p,
    {
        let o = 4 * p;
        let k = rgba[o] as u64 + 256 * (rgba[o + 1] as u64 + 256 * (rgba[o + 2] as u64 + 256
            * rgba[o + 3] as u64));
        keys.push(k);
        p = p + 1;
    }
    assert(keys@ =~= pk);
    let (ranked, counts, idx) = rank_keys(&keys);
    let n = ranked.len();
    let iw = match want {
        Some(w) => w,
        None => if n <= 0x100 {
            IndexWidth::Bit8
        } else {
            IndexWidth::Bit16
        },
    };
    if !iw.supported() {
        return Err(DifError::BadIndexWidth((iw.bytes() * 8) as u8));
    }
    proof {
        broadcast use vstd::seq_lib::group_to_multiset_ensures;

        assert forall|t: int| 0 <= t < ranked@.len() implies ranked@[t] < 0x1_0000_0000 by {
            assert(counts@[t] >= 1);
            assert(keys@.contains(ranked@[t]));
            let q = choose|q: int| 0 <= q < keys@.len() && keys@[q] == ranked@[t];
            lemma_color_key(pixel_of(rgba@, q));
        }
    }
    let mut colors: Vec<Rgba> = Vec::new();
    let mut i: usize = 0;
    while i < n
        invariant
            n == ranked@.len(),
            i <= n,
            colors@.len() == i,
            forall|t: int| 0 <= t < ranked@.len() ==> ranked@[t] < 0x1_0000_0000,
            forall|t: int| 0 <= t < i ==> #[trigger] colors@[t] == color_of_key(ranked@[t] as int),
        decreases n - i,
    {
        let k = ranked[i];
        let q1 = k / 256;
        let q2 = q1 / 256;
        colors.push(Rgba::new((k % 256) as u16, (q1 % 256) as u16, (q2 % 256) as u16, (q2 / 256) as u16));
        i = i + 1;
    }
    proof {
        assert forall|t: int| 0 <= t < n implies byte_channels(#[trigger] colors@[t]) && color_key(
            colors@[t],
        ) == ranked@[t] by {
            lemma_key_color(ranked@[t] as int);
        }
        assert forall|q: int| 0 <= q < px implies #[trigger] idx@[q] < n && colors@[idx@[q] as int]
            == pixel_of(rgba@, q) by {
            lemma_color_key(pixel_of(rgba@, q));
        }
        assert forall|k: u32| k < n implies #[trigger] idx@.contains(k) by {
            broadcast use vstd::seq_lib::group_to_multiset_ensures;

            assert(counts@[k as int] >= 1);
            assert(keys@.contains(ranked@[k as int]));
            let q = choose|q: int| 0 <= q < keys@.len() && keys@[q] == ranked@[k as int];
            assert(ranked@[idx@[q] as int] == ranked@[k as int]);
            assert(idx@[q] == k);
        }
        assert forall|a: int, b: int| 0 <= a < n && 0 <= b < n && a != b implies colors@[a]
            != colors@[b] by {
            assert(color_key(colors@[a]) == ranked@[a]);
            assert(color_key(colors@[b]) == ranked@[b]);
        }
    }
    Ok((idx, colors, counts, iw))
}

/// The sort key of a pixel's `(color, text?)` split: color id first, the
/// non-text split before the text one.
pub open spec fn split_key(id: u32, fg: bool) -> int {
    2 * id + if fg {
        1int
    } else {
        0int
    }
}

/// The split keys of every pixel.
pub open spec fn split_key_seq(ids: Seq<u32>, fg: Seq<bool>) -> Seq<u64> {
    Seq::new(ids.len(), |p: int| split_key(ids[p], fg[p]) as u64)
}

proof fn lemma_split_key(a: u32, fa: bool, b: u32, fb: bool)
    ensures
        split_key(a, fa) == split_key(b, fb) <==> (a == b && fa == fb),
        split_key(a, fa) < split_key(b, fb) <==> (a < b || (a == b && !fa && fb)),
{
}

/// The provisional entries of a region split.
pub struct RegionSplit {
    /// Each entry's color id.
    pub cid: Vec<u32>,
    /// Whether each entry is the text split of its color.
    pub text: Vec<bool>,
    /// How many pixels each entry has.
    pub uses: Vec<u32>,
    /// Each pixel's entry.
    pub entry_of: Vec<u32>,
}

/// `cid`, `text`, `uses` and `entry_of` are the region split of the pixels with
/// colors `ids` and text marks `fg`: every distinct `(color id, text?)` pair of
/// the pixels once, most used first and ties by color id then non-text first,
/// with how many pixels use it; and for every pixel the entry of its pair.
pub open spec fn is_split_of(
    ids: Seq<u32>,
    fg: Seq<bool>,
    cid: Seq<u32>,
    text: Seq<bool>,
    uses: Seq<u32>,
    entry_of: Seq<u32>,
) -> bool {
    let ks = split_key_seq(ids, fg);
    &&& cid.len() == ks.to_set().len()
    &&& text.len() == cid.len()
    &&& uses.len() == cid.len()
    &&& entry_of.len() == ids.len()
    &&& forall|p: int|
        0 <= p < ids.len() ==> #[trigger] entry_of[p] < cid.len() && cid[entry_of[p] as int]
            == ids[p] && text[entry_of[p] as int] == fg[p]
    &&& forall|k: int|
        0 <= k < cid.len() ==> #[trigger] uses[k] == ks.to_multiset().count(
            split_key(cid[k], text[k]) as u64,
        ) && uses[k] >= 1
    &&& forall|a: int, b: int|
        0 <= a < b < cid.len() ==> uses[a] > uses[b] || (uses[a] == uses[b] && split_key(
            cid[a],
            text[a],
        ) < split_key(cid[b], text[b]))
    &&& forall|a: int, b: int|
        0 <= a < cid.len() && 0 <= b < cid.len() && a != b ==> (cid[a] != cid[b] || text[a]
            != text[b])
}

/// Split the pixels with colors `ids` and text marks `fg` by `(color, text?)`:
/// see [`is_split_of`].
pub fn split_keys(ids: &[u32], fg: &[bool]) -> (r: RegionSplit)
    requires
        fg.len() == ids.len(),
        ids.len() <= u32::MAX,
        forall|p: int| 0 <= p < ids.len() ==> ids@[p] < 0x8000_0000,
    ensures
        is_split_of(ids@, fg@, r.cid@, r.text@, r.uses@, r.entry_of@),
{
    let n = ids.len();
    let ghost ks = split_key_seq(ids@, fg@);
    let mut keys: Vec<u64> = Vec::new();
    let mut p: usize = 0;
    while p < n
        invariant
            n == ids.len() == fg.len(),
            ks == split_key_seq(ids@, fg@),
            p <= n,
            keys@.len() == p,
            forall|q: int| 0 <= q < p ==> keys@[q] == ks[q],
        decreases n - p,
    {
        let k = 2 * (ids[p] as u64) + if fg[p] {
            1u64
        } else {
            0u64
        };
        keys.push(k);
        p = p + 1;
    }
    assert(keys@ =~= ks);
    let (ranked, counts, idx) = rank_keys(&keys);
    let m = ranked.len();
    proof {
        broadcast use vstd::seq_lib::group_to_multiset_ensures;

        assert forall|t: int| 0 <= t < m implies ranked@[t] < 0x1_0000_0000 by {
            assert(counts@[t] >= 1);
            assert(keys@.contains(ranked@[t]));
        }
    }
    let mut cid: Vec<u32> = Vec::new();
    let mut kfg: Vec<bool> = Vec::new();
    let mut i: usize = 0;
    while i < m
        invariant
            m == ranked@.len(),
            i <= m,
            cid@.len() == i,
            kfg@.len() == i,
            forall|t: int|
                0 <= t < m ==> ranked@[t] < 0x1_0000_0000,
            forall|t: int|
                0 <= t < i ==> split_key(#[trigger] cid@[t], kfg@[t]) == ranked@[t],
        decreases m - i,
    {
        let k = ranked[i];
        cid.push((k / 2) as u32);
        kfg.push(k % 2 == 1);
        i = i + 1;
    }
    proof {
        assert forall|q: int| 0 <= q < n implies #[trigger] idx@[q] < m && cid@[idx@[q] as int]
            == ids@[q] && kfg@[idx@[q] as int] == fg@[q] by {
            lemma_split_key(cid@[idx@[q] as int], kfg@[idx@[q] as int], ids@[q], fg@[q]);
        }
        assert forall|a: int, b: int|
            0 <= a < m && 0 <= b < m && a != b implies (cid@[a] != cid@[b] || kfg@[a] != kfg@[b]) by {
            lemma_split_key(cid@[a], kfg@[a], cid@[b], kfg@[b]);
        }
    }
    RegionSplit { cid, text: kfg, uses: counts, entry_of: idx }
}

/// Survivor number `f` is itself numbered `f`: it survives, and exactly `f`
/// survivors come before it.
pub proof fn lemma_survivor_numbered(
    cid: Seq<u32>,
    freq: Seq<u32>,
    close: Seq<bool>,
    cap: int,
    x: nat,
    f: int,
)
    requires
        0 <= f < survivors(cid, freq, close, cap, x).len(),
    ensures
        ({
            let e = survivors(cid, freq, close, cap, x)[f];
            &&& 0 <= e < x
            &&& survives(cid, freq, close, cap, e)
            &&& survivors(cid, freq, close, cap, e as nat).len() == f
        }),
    decreases x,
{
    let s = survivors(cid, freq, close, cap, (x - 1) as nat);
    if f < s.len() {
        lemma_survivor_numbered(cid, freq, close, cap, (x - 1) as nat, f);
    }
}

spec fn primary_set(cid: Seq<u32>, x: int) -> Set<int> {
    Set::new(|j: int| 0 <= j < x && primary_of(cid, j) == j)
}

proof fn lemma_primary_set(cid: Seq<u32>, x: nat)
    ensures
        primary_set(cid, x as int).finite(),
        primary_set(cid, x as int).len() == primary_count(cid, x),
    decreases x,
{
    if x == 0 {
        assert(primary_set(cid, 0) =~= Set::empty());
    } else {
        let y = x - 1;
        lemma_primary_set(cid, y as nat);
        if primary_of(cid, y) == y {
            assert(primary_set(cid, x as int) =~= primary_set(cid, y).insert(y));
        } else {
            assert(primary_set(cid, x as int) =~= primary_set(cid, y));
        }
    }
}

/// Color ids below `bound` have at most `bound` primaries.
pub proof fn lemma_primary_bound(cid: Seq<u32>, bound: int)
    requires
        0 <= bound,
        forall|i: int| 0 <= i < cid.len() ==> #[trigger] cid[i] < bound,
    ensures
        primary_count(cid, cid.len()) <= bound,
{
    let ps = primary_set(cid, cid.len() as int);
    lemma_primary_set(cid, cid.len());
    let f = |i: int| cid[i] as int;
    assert(vstd::relations::injective_on(f, ps)) by {
        assert forall|a: int, b: int| ps.contains(a) && ps.contains(b) && #[trigger] f(a) == #[trigger] f(b) implies a == b by {
            assert(primary_of(cid, a) == primary_of(cid, b));
        }
    }
    vstd::set_lib::lemma_map_size(ps, ps.map(f), f);
    vstd::set_lib::lemma_int_range(0, bound);
    assert(ps.map(f).subset_of(vstd::set_lib::set_int_range(0, bound)));
    vstd::set_lib::lemma_len_subset(ps.map(f), vstd::set_lib::set_int_range(0, bound));
}

/// Every entry is numbered by a surviving entry at or before it with the same
/// color id: its root, the survivor with that number.
pub proof fn lemma_merge_labels(cid: Seq<u32>, freq: Seq<u32>, close: Seq<bool>, cap: int, i: int)
    requires
        0 <= i < cid.len(),
    ensures
        ({
            let all = survivors(cid, freq, close, cap, cid.len());
            let r = merge_root(cid, freq, close, cap, i);
            let k = survivors(cid, freq, close, cap, r as nat).len();
            &&& 0 <= r <= i
            &&& k < all.len()
            &&& all[k as int] == r
            &&& cid[r] == cid[i]
            &&& k <= survivors(cid, freq, close, cap, i as nat).len()
        }),
        survivors(cid, freq, close, cap, cid.len()).len() <= cid.len(),
{
    let r = merge_root(cid, freq, close, cap, i);
    lemma_merge_root(cid, freq, close, cap, i);
    lemma_survivors(cid, freq, close, cap, (r + 1) as nat, cid.len());
    lemma_survivors(cid, freq, close, cap, r as nat, (r + 1) as nat);
    lemma_survivors(cid, freq, close, cap, r as nat, i as nat);
    lemma_survivors(cid, freq, close, cap, i as nat, i as nat);
    let sr = survivors(cid, freq, close, cap, r as nat);
    let sr1 = survivors(cid, freq, close, cap, (r + 1) as nat);
    assert(sr1 == sr.push(r));
    assert(sr1[sr.len() as int] == r);
    if r < i {
        lemma_survivors(cid, freq, close, cap, (r + 1) as nat, i as nat);
    }
}

/// Merge the provisional entries of a region-split palette: see the module
/// documentation. Entry `i` has color id `cid[i]`, use count `freq[i]` and
/// provisional colors `prov_light[i]`, `prov_dark[i]`; `close[i * n + j]` says
/// whether the dark colors of entries `i` and `j` are near-identical. Returns,
/// per entry, the index of the surviving entry it ends up in, and the light and
/// dark colors of the survivors in index order.
pub fn merge_splits(
    cid: &[u32],
    freq: &[u32],
    prov_light: &[Rgba],
    prov_dark: &[Rgba],
    close: &[bool],
    capacity: usize,
) -> (r: (Vec<u32>, Vec<Rgba>, Vec<Rgba>))
    requires
        cid.len() <= u32::MAX,
        freq.len() == cid.len(),
        prov_light.len() == cid.len(),
        prov_dark.len() == cid.len(),
        close.len() == cid.len() * cid.len(),
    ensures
        r.0@.len() == cid.len(),
        forall|i: int|
            0 <= i < cid.len() ==> r.0@[i] == survivors(
                cid@,
                freq@,
                close@,
                capacity as int,
                merge_root(cid@, freq@, close@, capacity as int, i) as nat,
            ).len(),
        r.1@ == survivors(cid@, freq@, close@, capacity as int, cid.len() as nat).map_values(
            |e: int| prov_light@[e],
        ),
        r.2@ == survivors(cid@, freq@, close@, capacity as int, cid.len() as nat).map_values(
            |e: int| prov_dark@[e],
        ),
        r.1@.len() <= cid.len(),
        ({
            let k = feature_kept(cid@, close@, cid.len() as nat).len();
            let d = primary_count(cid@, cid.len() as nat);
            &&& d <= r.1@.len()
            &&& r.1@.len() == if k <= capacity {
                k as int
            } else if d <= capacity {
                capacity as int
            } else {
                d as int
            }
        }),
        forall|i: int| 0 <= i < cid.len() ==> (#[trigger] r.0@[i] as int) < r.1@.len(),
        forall|k: int|
            0 <= k < r.1@.len() ==> {
                let e = #[trigger] survivors(
                    cid@,
                    freq@,
                    close@,
                    capacity as int,
                    cid.len() as nat,
                )[k];
                0 <= e < cid.len() && r.0@[e] == k
            },
        forall|i: int|
            0 <= i < cid.len() ==> cid@[survivors(
                cid@,
                freq@,
                close@,
                capacity as int,
                cid.len() as nat,
            )[#[trigger] r.0@[i] as int]] == cid@[i],
        (forall|i: int, j: int|
            0 <= i < cid.len() && 0 <= j < cid.len() && cid@[i] == cid@[j] ==> prov_light@[i]
                == prov_light@[j]) ==> forall|i: int|
            0 <= i < cid.len() ==> r.1@[#[trigger] r.0@[i] as int] == prov_light@[i],
{
    let n = cid.len();
    let ghost gc = cid@;
    let ghost gl = close@;
    let ghost gf = freq@;
    let ghost cap = capacity as int;
    // Feature merge.
    let mut kept: Vec<usize> = Vec::new();
    let mut target: Vec<usize> = Vec::new();
    let mut i: usize = 0;
    while i < n
        invariant
            n == cid.len(),
            gc == cid@,
            gl == close@,
            close.len() == n * n,
            i <= n,
            kept@.map_values(|e: usize| e as int) == feature_kept(gc, gl, i as nat),
            target.len() == i,
            forall|t: int| 0 <= t < i ==> target@[t] == feature_target(gc, gl, t),
        decreases n - i,
    {
        let ghost k = kept@.map_values(|e: usize| e as int);
        proof {
            lemma_feature_kept(gc, gl, i as nat);
        }
        let mut p: usize = 0;
        let mut found: usize = i;
        while p < kept.len() && found == i
            invariant
                n == cid.len(),
                gc == cid@,
                gl == close@,
                close.len() == n * n,
                i < n,
                k == kept@.map_values(|e: usize| e as int),
                k == feature_kept(gc, gl, i as nat),
                forall|q: int| 0 <= q < k.len() ==> 0 <= #[trigger] k[q] < i,
                p <= kept.len(),
                first_merge_from(gc, gl, k, i as int, 0) == first_merge_from(
                    gc,
                    gl,
                    k,
                    i as int,
                    p as int,
                ),
                found != i ==> p < kept.len() && found == kept@[p as int] && may_merge(
                    gc,
                    gl,
                    i as int,
                    k[p as int],
                ),
            decreases kept.len() - p + if found == i {
                1int
            } else {
                0int
            },
        {
            let j = kept[p];
            assert(k[p as int] == j as int);
            assert(i * n + j < n * n) by (nonlinear_arith)
                requires
                    i < n,
                    j < n,
            ;
            if cid[i] == cid[j] && close[i * n + j] {
                found = j;
            } else {
                p = p + 1;
            }
        }
        proof {
            lemma_first_merge_from(gc, gl, k, i as int, 0);
        }
        target.push(found);
        if found == i {
            kept.push(i);
            assert(kept@.map_values(|e: usize| e as int) =~= k.push(i as int));
        }
        i = i + 1;
    }
    let ghost fk = feature_kept(gc, gl, n as nat);
    let kn = kept.len();
    // Primaries: the first entry of each color id.
    let mut prim: Vec<usize> = Vec::new();
    let mut e: usize = 0;
    while e < n
        invariant
            n == cid.len(),
            gc == cid@,
            e <= n,
            prim.len() == e,
            forall|t: int| 0 <= t < e ==> prim@[t] == primary_of(gc, t),
        decreases n - e,
    {
        let mut j: usize = 0;
        while j < e && cid[j] != cid[e]
            invariant
                n == cid.len(),
                gc == cid@,
                e < n,
                j <= e,
                first_of_cid(gc, gc[e as int], 0) == first_of_cid(gc, gc[e as int], j as int),
            decreases e - j,
        {
            j = j + 1;
        }
        proof {
            if j == e {
                assert(first_of_cid(gc, gc[e as int], e as int) == e);
            }
        }
        prim.push(j);
        e = e + 1;
    }
    // Capacity merge flags.
    let mut cm: Vec<bool> = Vec::new();
    let mut e: usize = 0;
    while e < n
        invariant
            n == cid.len(),
            n == freq.len(),
            gc == cid@,
            gl == close@,
            gf == freq@,
            cap == capacity as int,
            e <= n,
            kept@.map_values(|x: usize| x as int) == fk,
            fk == feature_kept(gc, gl, n as nat),
            kn == kept.len(),
            target.len() == n,
            forall|t: int| 0 <= t < n ==> target@[t] == feature_target(gc, gl, t),
            prim.len() == n,
            forall|t: int| 0 <= t < n ==> prim@[t] == primary_of(gc, t),
            cm.len() == e,
            forall|t: int| 0 <= t < e ==> cm@[t] == capacity_merged(gc, gf, gl, cap, t),
        decreases n - e,
    {
        let mut flag = false;
        if kn > capacity && target[e] == e && prim[e] != e {
            let mut cnt: usize = 0;
            let mut j: usize = 0;
            while j < n
                invariant
                    n == cid.len(),
                    n == freq.len(),
                    gc == cid@,
                    gl == close@,
                    gf == freq@,
                    e < n,
                    j <= n,
                    target.len() == n,
                    forall|t: int| 0 <= t < n ==> target@[t] == feature_target(gc, gl, t),
                    prim.len() == n,
                    forall|t: int| 0 <= t < n ==> prim@[t] == primary_of(gc, t),
                    cnt == rank_below(gc, gf, gl, e as int, j as nat),
                    cnt <= j,
                decreases n - j,
            {
                if target[j] == j && prim[j] != j && (freq[j] < freq[e] || (freq[j] == freq[e]
                    && j < e)) {
                    cnt = cnt + 1;
                }
                j = j + 1;
            }
            flag = cnt < kn - capacity;
        }
        cm.push(flag);
        e = e + 1;
    }
    // Survivors, numbered in index order.
    let mut label: Vec<u32> = Vec::new();
    let mut to_final: Vec<u32> = Vec::new();
    let mut fin_light: Vec<Rgba> = Vec::new();
    let mut fin_dark: Vec<Rgba> = Vec::new();
    let mut i: usize = 0;
    while i < n
        invariant
            n == cid.len(),
            n == freq.len(),
            n == prov_light.len(),
            n == prov_dark.len(),
            n <= u32::MAX,
            gc == cid@,
            gl == close@,
            gf == freq@,
            cap == capacity as int,
            i <= n,
            target.len() == n,
            forall|t: int| 0 <= t < n ==> target@[t] == feature_target(gc, gl, t),
            prim.len() == n,
            forall|t: int| 0 <= t < n ==> prim@[t] == primary_of(gc, t),
            cm.len() == n,
            forall|t: int| 0 <= t < n ==> cm@[t] == capacity_merged(gc, gf, gl, cap, t),
            label.len() == i,
            forall|t: int|
                0 <= t < i ==> label@[t] == survivors(gc, gf, gl, cap, t as nat).len(),
            to_final.len() == i,
            forall|t: int|
                0 <= t < i ==> to_final@[t] == survivors(
                    gc,
                    gf,
                    gl,
                    cap,
                    merge_root(gc, gf, gl, cap, t) as nat,
                ).len(),
            fin_light@ == survivors(gc, gf, gl, cap, i as nat).map_values(|x: int| prov_light@[x]),
            fin_dark@ == survivors(gc, gf, gl, cap, i as nat).map_values(|x: int| prov_dark@[x]),
        decreases n - i,
    {
        proof {
            lemma_merge_root(gc, gf, gl, cap, i as int);
            lemma_feature_target(gc, gl, i as int);
            lemma_survivors(gc, gf, gl, cap, i as nat, i as nat);
        }
        let ghost s = survivors(gc, gf, gl, cap, i as nat);
        let t = target[i];
        let root = if cm[t] {
            prim[t]
        } else {
            t
        };
        assert(root as int == merge_root(gc, gf, gl, cap, i as int));
        label.push(fin_light.len() as u32);
        if root == i {
            fin_light.push(prov_light[i]);
            fin_dark.push(prov_dark[i]);
            assert(fin_light@ =~= s.push(i as int).map_values(|x: int| prov_light@[x]));
            assert(fin_dark@ =~= s.push(i as int).map_values(|x: int| prov_dark@[x]));
        }
        to_final.push(label[root]);
        i = i + 1;
    }
    proof {
        assert forall|t: int| 0 <= t < n implies {
            let all = survivors(gc, gf, gl, cap, n as nat);
            &&& (#[trigger] to_final@[t] as int) < all.len()
            &&& all[to_final@[t] as int] == merge_root(gc, gf, gl, cap, t)
            &&& gc[all[to_final@[t] as int]] == gc[t]
        } by {
            lemma_merge_labels(gc, gf, gl, cap, t);
        }
        if forall|a: int, b: int|
            0 <= a < n && 0 <= b < n && gc[a] == gc[b] ==> prov_light@[a] == prov_light@[b] {
            assert forall|t: int| 0 <= t < n implies fin_light@[#[trigger] to_final@[t] as int]
                == prov_light@[t] by {
                lemma_merge_labels(gc, gf, gl, cap, t);
            }
        }
        lemma_merge_size(gc, gf, gl, cap);
        assert forall|k: int| 0 <= k < fin_light@.len() implies {
            let e = #[trigger] survivors(gc, gf, gl, cap, n as nat)[k];
            0 <= e < n && to_final@[e] == k
        } by {
            let all = survivors(gc, gf, gl, cap, n as nat);
            lemma_survivor_numbered(gc, gf, gl, cap, n as nat, k);
            let e = all[k];
            lemma_merge_root(gc, gf, gl, cap, e);
            assert(to_final@[e] == k);
        }
        if n > 0 {
            lemma_merge_labels(gc, gf, gl, cap, 0);
        } else {
            assert(survivors(gc, gf, gl, cap, 0).len() == 0);
        }
    }
    (to_final, fin_light, fin_dark)
}


/// Palette sizes of a region-aware build, before and after the split and merge.
#[derive(Clone, Copy, Debug, PartialEq, Eq)]
pub struct RegionalReport {
    /// Distinct light colors before splitting.
    pub base_indices: u64,
    /// Palette length after the split and both merges.
    pub split_indices: u64,
}

/// Whether a build splits the palette by region: only under the perceptual
/// strategy, and only when every distinct color fits the index width. Otherwise
/// the image is quantized and each color gets its plain dark color.
pub fn splits_by_region(strategy: Strategy, color_count: usize, iw: IndexWidth) -> (r: bool)
    ensures
        r == (strategy == Strategy::Arithmetic && color_count <= iw.spec_capacity()),
{
    strategy == Strategy::Arithmetic && (color_count as u64) <= iw.capacity()
}

/// The sort key of a light color: its channels as one number, red highest.
pub open spec fn light_key(c: Rgba) -> int {
    c.a + 256 * (c.b + 256 * (c.g + 256 * c.r))
}

proof fn lemma_count_relabel(s: Seq<u64>, t: Seq<u64>, a: u64, v: u64)
    requires
        s.len() == t.len(),
        forall|p: int| 0 <= p < s.len() ==> (s[p] == a <==> t[p] == v),
    ensures
        s.to_multiset().count(a) == t.to_multiset().count(v),
    decreases s.len(),
{
    broadcast use {vstd::seq_lib::group_to_multiset_ensures, vstd::multiset::group_multiset_axioms};

    if s.len() > 0 {
        lemma_count_relabel(s.drop_last(), t.drop_last(), a, v);
        assert(s =~= s.drop_last().push(s.last()));
        assert(t =~= t.drop_last().push(t.last()));
    } else {
        assert(s =~= Seq::<u64>::empty());
        assert(t =~= Seq::<u64>::empty());
    }
}

/// The final palette entry, numbered among the survivors, that split entry `k`
/// ends up in.
pub open spec fn entry_label(cid: Seq<u32>, uses: Seq<u32>, close: Seq<bool>, cap: int, k: int) -> nat {
    survivors(cid, uses, close, cap, merge_root(cid, uses, close, cap, k) as nat).len()
}

proof fn lemma_radix_order(h1: int, k1: int, h2: int, k2: int, span: int)
    requires
        0 <= k1 < span,
        0 <= k2 < span,
        h1 * span + k1 < h2 * span + k2,
    ensures
        h1 < h2 || (h1 == h2 && k1 < k2),
{
    if h1 > h2 {
        assert(h1 * span + k1 > h2 * span + k2) by (nonlinear_arith)
            requires
                h1 >= h2 + 1,
                0 <= k1,
                0 <= k2 < span,
        {
            assert(h1 * span >= (h2 + 1) * span);
            assert((h2 + 1) * span == h2 * span + span);
        }
    }
}

/// Assemble the two-theme image of a region-aware build. `colors` and `ids` are
/// the distinct colors and the per-pixel color plane of [`regional_plan`]; `fg`
/// marks the pixels of text regions. The pixels are split by `(color, text?)`
/// into the entries of [`split_keys`], whose dark colors `prov_dark` and
/// near-identity matrix `close` the caller computed; [`merge_splits`] folds them
/// to fit the index width; the survivors are ordered by how many pixels use
/// them (most first, ties by light color, then by entry). The light theme keeps
/// every pixel's own color; the dark theme's base is the dark color of white.
#[verifier::rlimit(100)]
#[verifier::spinoff_prover]
pub fn assemble_regional(
    width: u32,
    height: u32,
    colors: &[Rgba],
    ids: &[u32],
    fg: &[bool],
    split: &RegionSplit,
    prov_dark: &[Rgba],
    close: &[bool],
    iw: IndexWidth,
    strategy: Strategy,
    arithmetic_base: Option<(u16, u16, u16)>,
) -> (r: DifResult<(DifImage, RegionalReport)>)
    requires
        width as int * height as int <= u32::MAX,
        ids.len() == width * height,
        fg.len() == ids.len(),
        iw.spec_supported(),
        colors.len() <= iw.spec_capacity(),
        colors@.no_duplicates(),
        forall|k: int| 0 <= k < colors.len() ==> byte_channels(#[trigger] colors@[k]),
        forall|p: int| 0 <= p < ids.len() ==> #[trigger] ids@[p] < colors.len(),
        forall|k: u32| k < colors.len() ==> #[trigger] ids@.contains(k),
        is_split_of(ids@, fg@, split.cid@, split.text@, split.uses@, split.entry_of@),
        prov_dark.len() == split.cid.len(),
        close.len() == prov_dark.len() * prov_dark.len(),
        strategy == Strategy::Arithmetic ==> arithmetic_fits(arithmetic_base, ColorDepth::Rgba8),
    ensures
        r matches Ok((img, rep)) ==> {
            &&& img@.valid()
            &&& img.width == width && img.height == height
            &&& img.color_depth == ColorDepth::Rgba8
            &&& img.index_width == iw
            &&& img.replay_count == 1
            &&& img@.themes.len() == 2
            &&& img@.themes[0] == (Theme { abilities: abilities::LIGHT, base_color: [255, 255, 255] })
            &&& img@.themes[1] == (Theme {
                abilities: abilities::DARK,
                base_color: spec_dark_base([255, 255, 255], strategy, arithmetic_base),
            })
            &&& img@.palettes.len() == 2
            &&& img@.frames.len() == 1
            &&& img@.frames[0].delay_us == 0
            &&& img@.frames[0].indices.len() == ids.len()
            &&& forall|p: int|
                0 <= p < ids.len() ==> img@.palettes[0][#[trigger] img@.frames[0].indices[p] as int]
                    == colors@[ids@[p] as int]
            &&& forall|a: int, b: int|
                #![trigger img@.palettes[0][a], img@.palettes[0][b]]
                0 <= a < b < img@.palettes[0].len() ==> img@.frames[0].indices.to_multiset().count(
                    a as u64,
                ) >= img@.frames[0].indices.to_multiset().count(b as u64)
            &&& forall|p: int|
                0 <= p < ids.len() ==> img@.palettes[1][#[trigger] img@.frames[0].indices[p] as int]
                    == prov_dark@[merge_root(
                    split.cid@,
                    split.uses@,
                    close@,
                    iw.spec_capacity() as int,
                    split.entry_of@[p] as int,
                )]
            &&& forall|p: int, q: int|
                0 <= p < ids.len() && 0 <= q < ids.len() ==> (#[trigger] img@.frames[0].indices[p]
                    == #[trigger] img@.frames[0].indices[q] <==> entry_label(
                    split.cid@,
                    split.uses@,
                    close@,
                    iw.spec_capacity() as int,
                    split.entry_of@[p] as int,
                ) == entry_label(
                    split.cid@,
                    split.uses@,
                    close@,
                    iw.spec_capacity() as int,
                    split.entry_of@[q] as int,
                ))
            &&& forall|p: int, q: int|
                0 <= p < ids.len() && 0 <= q < ids.len() && #[trigger] img@.frames[0].indices[p]
                    < #[trigger] img@.frames[0].indices[q] ==> {
                    let ip = img@.frames[0].indices[p];
                    let iq = img@.frames[0].indices[q];
                    let cp = img@.frames[0].indices.to_multiset().count(ip);
                    let cq = img@.frames[0].indices.to_multiset().count(iq);
                    let lp = light_key(img@.palettes[0][ip as int]);
                    let lq = light_key(img@.palettes[0][iq as int]);
                    ||| cp > cq
                    ||| cp == cq && lp < lq
                    ||| cp == cq && lp == lq && entry_label(
                        split.cid@,
                        split.uses@,
                        close@,
                        iw.spec_capacity() as int,
                        split.entry_of@[p] as int,
                    ) < entry_label(
                        split.cid@,
                        split.uses@,
                        close@,
                        iw.spec_capacity() as int,
                        split.entry_of@[q] as int,
                    )
                }
            &&& forall|a: int|
                #![trigger img@.palettes[0][a]]
                0 <= a < img@.palettes[0].len() ==> img@.frames[0].indices.to_multiset().count(
                    a as u64,
                ) >= 1
            &&& rep.base_indices == colors.len()
            &&& rep.base_indices <= rep.split_indices
            &&& rep.split_indices == img@.palettes[0].len()
            &&& rep.split_indices <= iw.spec_capacity()
        },
        (forall|k: int| 0 <= k < prov_dark.len() ==> byte_channels(#[trigger] prov_dark@[k]))
            ==> r is Ok,
        r is Err ==> r == Err::<(DifImage, RegionalReport), DifError>(
            DifError::Invalid("color channel exceeds the color depth"),
        ),
{
    let capacity = iw.capacity() as usize;
    let cid = &split.cid;
    let kfg = &split.text;
    let kfreq = &split.uses;
    let key_of = &split.entry_of;
    let nk = cid.len();
    let ghost ks = split_key_seq(ids@, fg@);
    proof {
        broadcast use vstd::seq_lib::group_to_multiset_ensures;

        ks.lemma_cardinality_of_set();
        assert forall|k: int| 0 <= k < nk implies #[trigger] cid@[k] < colors.len() by {
            assert(kfreq@[k] >= 1);
            assert(ks.contains(split_key(cid@[k], kfg@[k]) as u64));
            let q = choose|q: int| 0 <= q < ks.len() && ks[q] == split_key(cid@[k], kfg@[k]) as u64;
            lemma_split_key(cid@[k], kfg@[k], ids@[q], fg@[q]);
        }
    }
    let mut prov_light: Vec<Rgba> = Vec::new();
    let mut k: usize = 0;
    while k < nk
        invariant
            nk == cid@.len(),
            k <= nk,
            forall|t: int| 0 <= t < nk ==> #[trigger] cid@[t] < colors.len(),
            prov_light@.len() == k,
            forall|t: int| 0 <= t < k ==> #[trigger] prov_light@[t] == colors@[cid@[t] as int],
        decreases nk - k,
    {
        prov_light.push(colors[cid[k] as usize]);
        k = k + 1;
    }
    let (to_final, fl, fd) = merge_splits(cid, kfreq, &prov_light, prov_dark, close, capacity);
    let ghost gsurv = survivors(cid@, kfreq@, close@, capacity as int, nk as nat);
    proof {
        assert forall|f: int| 0 <= f < fl@.len() implies byte_channels(#[trigger] fl@[f]) by {
            let e = gsurv[f];
            assert(0 <= e < nk);
        }
    }
    // Per pixel: its final entry, keyed by light color then entry.
    let npx = ids.len();
    let mut fkeys: Vec<u64> = Vec::new();
    let mut p: usize = 0;
    while p < npx
        invariant
            npx == ids@.len() == key_of@.len(),
            p <= npx,
            forall|q: int| 0 <= q < npx ==> #[trigger] key_of@[q] < nk,
            to_final@.len() == nk,
            forall|t: int| 0 <= t < nk ==> (#[trigger] to_final@[t] as int) < fl@.len(),
            forall|f: int| 0 <= f < fl@.len() ==> byte_channels(#[trigger] fl@[f]),
            fkeys@.len() == p,
            forall|q: int|
                0 <= q < p ==> #[trigger] fkeys@[q] == light_key(fl@[to_final@[key_of@[q] as int] as int])
                    * 0x1_0000_0000 + to_final@[key_of@[q] as int],
        decreases npx - p,
    {
        let f = to_final[key_of[p] as usize] as usize;
        let c = fl[f];
        let lk = c.a as u64 + 256 * (c.b as u64 + 256 * (c.g as u64 + 256 * c.r as u64));
        fkeys.push(lk * 0x1_0000_0000 + f as u64);
        p = p + 1;
    }
    let (order, uses, idx) = rank_keys(&fkeys);
    let nf = order.len();
    proof {
        broadcast use vstd::seq_lib::group_to_multiset_ensures;

        assert forall|q: int| 0 <= q < npx implies (#[trigger] fkeys@[q] % 0x1_0000_0000) as int
            == to_final@[key_of@[q] as int] by {
            vstd::arithmetic::div_mod::lemma_fundamental_div_mod_converse(
                fkeys@[q] as int,
                0x1_0000_0000,
                light_key(fl@[to_final@[key_of@[q] as int] as int]),
                to_final@[key_of@[q] as int] as int,
            );
        }
        assert forall|t: int| 0 <= t < nf implies (#[trigger] order@[t] % 0x1_0000_0000) < fl@.len() by {
            assert(uses@[t] >= 1);
            assert(fkeys@.contains(order@[t]));
            let q = choose|q: int| 0 <= q < npx && fkeys@[q] == order@[t];
            assert(fkeys@[q] % 0x1_0000_0000 == to_final@[key_of@[q] as int]);
        }
    }
    let mut fin_light: Vec<Rgba> = Vec::new();
    let mut fin_dark: Vec<Rgba> = Vec::new();
    let mut i: usize = 0;
    while i < nf
        invariant
            nf == order@.len(),
            i <= nf,
            fin_light@.len() == i,
            fin_dark@.len() == i,
            fl@.len() == fd@.len(),
            forall|t: int| 0 <= t < nf ==> (#[trigger] order@[t] % 0x1_0000_0000) < fl@.len(),
            forall|t: int|
                0 <= t < i ==> #[trigger] fin_light@[t] == fl@[(order@[t] % 0x1_0000_0000) as int]
                    && fin_dark@[t] == fd@[(order@[t] % 0x1_0000_0000) as int],
        decreases nf - i,
    {
        let f = (order[i] % 0x1_0000_0000) as usize;
        assert(f as int == (order@[i as int] % 0x1_0000_0000) as int);
        fin_light.push(fl[f]);
        fin_dark.push(fd[f]);
        assert(fin_light@[i as int] == fl@[(order@[i as int] % 0x1_0000_0000) as int]);
        i = i + 1;
    }
    let mut indices: Vec<u64> = Vec::new();
    let mut p: usize = 0;
    while p < npx
        invariant
            npx == idx@.len(),
            p <= npx,
            indices@.len() == p,
            forall|q: int| 0 <= q < p ==> #[trigger] indices@[q] == idx@[q] as u64,
        decreases npx - p,
    {
        indices.push(idx[p] as u64);
        p = p + 1;
    }
    let dark_base = derive_dark_base_color([255, 255, 255], strategy, arithmetic_base);
    let split_len = fin_light.len() as u64;
    let img = DifImage {
        width,
        height,
        color_depth: ColorDepth::Rgba8,
        index_width: iw,
        themes: vec![
            Theme { abilities: abilities::LIGHT, base_color: [255, 255, 255] },
            Theme { abilities: abilities::DARK, base_color: dark_base },
        ],
        palettes: vec![fin_light, fin_dark],
        frames: vec![Frame { delay_us: 0, indices }],
        replay_count: 1,
    };
    proof {
        let pal = img@.palettes[0];
        assert(pal == fin_light@);
        assert(img@.frames[0].indices == indices@);
        assert forall|a: int, b: int|
            0 <= a < nk && 0 <= b < nk && cid@[a] == cid@[b] implies prov_light@[a] == prov_light@[b] by {}
        assert forall|q: int| 0 <= q < npx implies pal[#[trigger] indices@[q] as int] == colors@[ids@[q] as int] by {
            assert(order@[idx@[q] as int] == fkeys@[q]);
            assert(fkeys@[q] % 0x1_0000_0000 == to_final@[key_of@[q] as int]);
            assert(fl@[to_final@[key_of@[q] as int] as int] == prov_light@[key_of@[q] as int]);
        }
        // Every color is some pixel's, and the palette shows it there: so the
        // palette holds at least as many entries as there are colors.
        let nc = colors@.len() as int;
        let at = |c: int| {
            let q = choose|q: int| 0 <= q < npx && ids@[q] == c;
            indices@[q] as int
        };
        let dom = vstd::set_lib::set_int_range(0, nc);
        assert forall|c: int| dom.contains(c) implies 0 <= #[trigger] at(c) < nf && pal[at(c)] == colors@[c] by {
            assert(ids@.contains(c as u32));
            let q = choose|q: int| 0 <= q < npx && ids@[q] == c;
        }
        assert(vstd::relations::injective_on(at, dom)) by {
            assert forall|a: int, b: int| dom.contains(a) && dom.contains(b) && #[trigger] at(a) == #[trigger] at(b) implies a == b by {
                assert(colors@[a] == colors@[b]);
            }
        }
        vstd::set_lib::lemma_int_range(0, nc);
        vstd::set_lib::lemma_int_range(0, nf as int);
        vstd::set_lib::lemma_map_size(dom, dom.map(at), at);
        assert(dom.map(at).subset_of(vstd::set_lib::set_int_range(0, nf as int)));
        vstd::set_lib::lemma_len_subset(dom.map(at), vstd::set_lib::set_int_range(0, nf as int));
        // The palette fits the index width: it has at most one entry per survivor,
        // and the survivors fit since the colors do.
        let g = |t: int| (order@[t] % 0x1_0000_0000) as int;
        let odom = vstd::set_lib::set_int_range(0, nf as int);
        assert(vstd::relations::injective_on(g, odom)) by {
            assert forall|a: int, b: int| odom.contains(a) && odom.contains(b) && #[trigger] g(a) == #[trigger] g(b) implies a == b by {
                broadcast use vstd::seq_lib::group_to_multiset_ensures;

                assert(uses@[a] >= 1);
                assert(fkeys@.contains(order@[a]));
                let qa = choose|q: int| 0 <= q < npx && fkeys@[q] == order@[a];
                assert(uses@[b] >= 1);
                assert(fkeys@.contains(order@[b]));
                let qb = choose|q: int| 0 <= q < npx && fkeys@[q] == order@[b];
                assert(fkeys@[qa] % 0x1_0000_0000 == to_final@[key_of@[qa] as int]);
                assert(fkeys@[qb] % 0x1_0000_0000 == to_final@[key_of@[qb] as int]);
                assert(order@[a] == order@[b]);
            }
        }
        vstd::set_lib::lemma_map_size(odom, odom.map(g), g);
        vstd::set_lib::lemma_int_range(0, fl@.len() as int);
        assert(odom.map(g).subset_of(vstd::set_lib::set_int_range(0, fl@.len() as int)));
        vstd::set_lib::lemma_len_subset(odom.map(g), vstd::set_lib::set_int_range(0, fl@.len() as int));
        lemma_primary_bound(cid@, colors@.len() as int);
        // The palette comes most used first.
        assert forall|a: int| 0 <= a < nf implies #[trigger] indices@.to_multiset().count(a as u64)
            == uses@[a] by {
            assert forall|q: int| 0 <= q < npx implies (indices@[q] == a as u64 <==> fkeys@[q]
                == order@[a]) by {
                assert(order@[idx@[q] as int] == fkeys@[q]);
            }
            lemma_count_relabel(indices@, fkeys@, a as u64, order@[a]);
        }
        assert forall|a: int, b: int|
            #![trigger fin_light@[a], fin_light@[b]]
            0 <= a < b < nf implies indices@.to_multiset().count(a as u64)
            >= indices@.to_multiset().count(b as u64) by {
            assert(indices@.to_multiset().count(a as u64) == uses@[a]);
            assert(indices@.to_multiset().count(b as u64) == uses@[b]);
        }
        assert(nf <= capacity);
        // Which entry each pixel gets, and the dark color it carries.
        let cap = capacity as int;
        assert forall|a: int|
            #![trigger fin_light@[a]]
            0 <= a < nf implies indices@.to_multiset().count(a as u64) >= 1 by {
            assert(indices@.to_multiset().count(a as u64) == uses@[a]);
        }
        assert forall|q: int| 0 <= q < npx implies (#[trigger] fkeys@[q] % 0x1_0000_0000) as int
            == entry_label(cid@, kfreq@, close@, cap, key_of@[q] as int) && fkeys@[q]
            == light_key(fl@[entry_label(cid@, kfreq@, close@, cap, key_of@[q] as int) as int])
            * 0x1_0000_0000 + entry_label(cid@, kfreq@, close@, cap, key_of@[q] as int) by {}
        assert forall|q: int| 0 <= q < npx implies order@[#[trigger] idx@[q] as int] == fkeys@[q] by {}
        assert forall|p: int, q: int| 0 <= p < npx && 0 <= q < npx implies (#[trigger] indices@[p]
            == #[trigger] indices@[q] <==> entry_label(cid@, kfreq@, close@, cap, key_of@[p] as int)
            == entry_label(cid@, kfreq@, close@, cap, key_of@[q] as int)) by {
            assert(order@[idx@[p] as int] == fkeys@[p]);
            assert(order@[idx@[q] as int] == fkeys@[q]);
            if idx@[p] != idx@[q] {
                assert(order@[idx@[p] as int] != order@[idx@[q] as int]);
            }
        }
        assert forall|q: int| 0 <= q < npx implies fin_dark@[#[trigger] indices@[q] as int]
            == prov_dark@[merge_root(cid@, kfreq@, close@, cap, key_of@[q] as int)] by {
            let a = idx@[q] as int;
            let k = key_of@[q] as int;
            let l = entry_label(cid@, kfreq@, close@, cap, k) as int;
            assert(order@[a] == fkeys@[q]);
            assert(fin_light@[a] == fl@[l]);
            assert(fin_dark@[a] == fd@[l]);
            lemma_merge_labels(cid@, kfreq@, close@, cap, k);
            assert(gsurv[l] == merge_root(cid@, kfreq@, close@, cap, k));
        }
        assert forall|p: int, q: int| 0 <= p < npx && 0 <= q < npx && #[trigger] indices@[p]
            < #[trigger] indices@[q] implies ({
            let ip = indices@[p];
            let iq = indices@[q];
            let cp = indices@.to_multiset().count(ip);
            let cq = indices@.to_multiset().count(iq);
            let lp = light_key(fin_light@[ip as int]);
            let lq = light_key(fin_light@[iq as int]);
            ||| cp > cq
            ||| cp == cq && lp < lq
            ||| cp == cq && lp == lq && entry_label(cid@, kfreq@, close@, cap, key_of@[p] as int)
                < entry_label(cid@, kfreq@, close@, cap, key_of@[q] as int)
        }) by {
            let a = idx@[p] as int;
            let b = idx@[q] as int;
            let lab_p = entry_label(cid@, kfreq@, close@, cap, key_of@[p] as int) as int;
            let lab_q = entry_label(cid@, kfreq@, close@, cap, key_of@[q] as int) as int;
            assert(indices@.to_multiset().count(a as u64) == uses@[a]);
            assert(indices@.to_multiset().count(b as u64) == uses@[b]);
            assert(order@[a] == fkeys@[p]);
            assert(order@[b] == fkeys@[q]);
            assert(fin_light@[a] == fl@[lab_p]);
            assert(fin_light@[b] == fl@[lab_q]);
            assert(lab_p < 0x1_0000_0000 && lab_q < 0x1_0000_0000);
            if uses@[a] == uses@[b] {
                lemma_radix_order(light_key(fl@[lab_p]), lab_p, light_key(fl@[lab_q]), lab_q, 0x1_0000_0000);
            }
        }
        let m = img@;
        assert(m.themes == seq![m.themes[0], m.themes[1]]);
        assert(m.themes.drop_first().drop_first().len() == 0);
        assert(m.themes.drop_first()[0] == m.themes[1]);
        assert(first_bad_abilities(m.themes.drop_first().drop_first()) is None);
        assert(first_bad_abilities(m.themes.drop_first()) is None);
        assert(first_bad_abilities(m.themes) is None);
        assert(m.index_count() == nf);
        assert(forall|t: int| 0 <= t < m.palettes.len() ==> #[trigger] m.palettes[t].len() == m.index_count());
        assert(forall|j: int| 0 <= j < m.frames.len() ==> #[trigger] m.frames[j].indices.len() == m.pixel_count());
        assert(forall|j: int, q: int| 0 <= j < m.frames.len() && 0 <= q < m.frames[j].indices.len() ==> #[trigger] m.frames[j].indices[q] < m.index_count());
        assert(forall|i: int| 0 <= i < nf ==> color_fits(#[trigger] m.palettes[0][i], ColorDepth::Rgba8));
        if forall|k: int| 0 <= k < prov_dark.len() ==> byte_channels(#[trigger] prov_dark@[k]) {
            assert forall|i: int| 0 <= i < nf implies color_fits(#[trigger] m.palettes[1][i], ColorDepth::Rgba8) by {
                let f = (order@[i] % 0x1_0000_0000) as int;
                assert(m.palettes[1] == fin_dark@);
                assert(fin_light@[i] == fl@[f]);
                assert(fin_dark@[i] == fd@[f]);
                assert(0 <= gsurv[f] < nk);
                assert(fd@[f] == prov_dark@[gsurv[f]]);
                assert(byte_channels(prov_dark@[gsurv[f]]));
            }
            assert(m.validation() is Ok);
        }
    }
    match img.validate() {
        Ok(()) => Ok((img, RegionalReport { base_indices: colors.len() as u64, split_indices: split_len })),
        Err(e) => Err(e),
    }
}


/// The two-theme image of an unsplit build: the colors as the light palette, each
/// color's own dark color as the dark palette, and the color plane as the frame.
pub open spec fn unsplit_model(
    width: u32,
    height: u32,
    colors: Seq<Rgba>,
    ids: Seq<u32>,
    iw: IndexWidth,
    strategy: Strategy,
) -> ImageModel {
    ImageModel {
        width,
        height,
        color_depth: ColorDepth::Rgba8,
        index_width: iw,
        themes: seq![
            Theme { abilities: abilities::LIGHT, base_color: [255, 255, 255] },
            Theme { abilities: abilities::DARK, base_color: spec_dark_base([255, 255, 255], strategy, None) },
        ],
        palettes: seq![
            colors,
            colors.map_values(|c: Rgba| spec_dark_color(c, strategy, ColorDepth::Rgba8, None)),
        ],
        frames: seq![FrameModel { delay_us: 0, indices: ids.map_values(|i: u32| i as u64) }],
        replay_count: 1,
    }
}

/// Assemble the image of a build that does not split by region (a strategy
/// other than the perceptual one): every color is its own entry, and its dark
/// color is the strategy's.
pub fn assemble_unsplit(
    width: u32,
    height: u32,
    colors: &[Rgba],
    ids: &[u32],
    iw: IndexWidth,
    strategy: Strategy,
) -> (r: (DifImage, RegionalReport))
    requires
        ids.len() == width * height,
        iw.spec_supported(),
        colors.len() <= iw.spec_capacity(),
        strategy != Strategy::Arithmetic,
        forall|k: int| 0 <= k < colors.len() ==> byte_channels(#[trigger] colors@[k]),
        forall|p: int| 0 <= p < ids.len() ==> #[trigger] ids@[p] < colors.len(),
    ensures
        r.0@ == unsplit_model(width, height, colors@, ids@, iw, strategy),
        r.0@.valid(),
        r.1 == (RegionalReport { base_indices: colors.len() as u64, split_indices: colors.len() as u64 }),
{
    let mut light: Vec<Rgba> = Vec::new();
    let mut dark: Vec<Rgba> = Vec::new();
    let mut k: usize = 0;
    while k < colors.len()
        invariant
            k <= colors.len(),
            strategy != Strategy::Arithmetic,
            forall|t: int| 0 <= t < colors.len() ==> byte_channels(#[trigger] colors@[t]),
            light@ == colors@.take(k as int),
            dark@ == colors@.take(k as int).map_values(
                |c: Rgba| spec_dark_color(c, strategy, ColorDepth::Rgba8, None),
            ),
        decreases colors.len() - k,
    {
        let c = colors[k];
        let d = dark_color_for(c, strategy, ColorDepth::Rgba8, None);
        light.push(c);
        dark.push(d);
        assert(colors@.take(k + 1) =~= colors@.take(k as int).push(c));
        assert(dark@ =~= colors@.take(k + 1).map_values(
            |c: Rgba| spec_dark_color(c, strategy, ColorDepth::Rgba8, None),
        ));
        k = k + 1;
    }
    assert(colors@.take(colors.len() as int) =~= colors@);
    let mut indices: Vec<u64> = Vec::new();
    let mut p: usize = 0;
    while p < ids.len()
        invariant
            p <= ids.len(),
            indices@ == ids@.take(p as int).map_values(|i: u32| i as u64),
        decreases ids.len() - p,
    {
        indices.push(ids[p] as u64);
        assert(ids@.take(p + 1) =~= ids@.take(p as int).push(ids@[p as int]));
        assert(indices@ =~= ids@.take(p + 1).map_values(|i: u32| i as u64));
        p = p + 1;
    }
    assert(ids@.take(ids.len() as int) =~= ids@);
    let dark_base = derive_dark_base_color([255, 255, 255], strategy, None);
    let n = colors.len() as u64;
    let img = DifImage {
        width,
        height,
        color_depth: ColorDepth::Rgba8,
        index_width: iw,
        themes: vec![
            Theme { abilities: abilities::LIGHT, base_color: [255, 255, 255] },
            Theme { abilities: abilities::DARK, base_color: dark_base },
        ],
        palettes: vec![light, dark],
        frames: vec![Frame { delay_us: 0, indices }],
        replay_count: 1,
    };
    proof {
        let m = img@;
        assert(m.themes =~= unsplit_model(width, height, colors@, ids@, iw, strategy).themes);
        assert(m.palettes =~= unsplit_model(width, height, colors@, ids@, iw, strategy).palettes);
        assert(m.frames =~= unsplit_model(width, height, colors@, ids@, iw, strategy).frames);
        assert(m.themes.drop_first().drop_first().len() == 0);
        assert(m.themes.drop_first()[0] == m.themes[1]);
        assert(first_bad_abilities(m.themes.drop_first().drop_first()) is None);
        assert(first_bad_abilities(m.themes.drop_first()) is None);
        assert(first_bad_abilities(m.themes) is None);
        assert(m.index_count() == colors.len());
        assert(forall|t: int| 0 <= t < m.palettes.len() ==> #[trigger] m.palettes[t].len() == m.index_count());
        assert(forall|j: int| 0 <= j < m.frames.len() ==> #[trigger] m.frames[j].indices.len() == m.pixel_count());
        assert(forall|j: int, q: int| 0 <= j < m.frames.len() && 0 <= q < m.frames[j].indices.len() ==> #[trigger] m.frames[j].indices[q] < m.index_count());
        assert forall|t: int, i: int| 0 <= t < m.palettes.len() && 0 <= i < m.palettes[t].len() implies color_fits(#[trigger] m.palettes[t][i], ColorDepth::Rgba8) by {
            if t == 1 {
                lemma_invert_involution(colors@[i], ColorDepth::Rgba8);
            }
        }
        assert(m.validation() is Ok);
    }
    (img, RegionalReport { base_indices: n, split_indices: n })
}

/// Growth passes that take a text core into its anti-aliasing shell.
pub const TEXT_GROW: usize = 2;

/// Pixel `(x + dx, y + dy)` lies in the `w` by `h` frame and is in `mask`.
pub open spec fn marked_at(w: int, h: int, mask: Seq<bool>, x: int, y: int, dx: int, dy: int) -> bool {
    0 <= x + dx < w && 0 <= y + dy < h && mask[(y + dy) * w + (x + dx)]
}

/// Some pixel of the 3 by 3 block around `(x, y)` is in `mask`.
pub open spec fn block_marked(w: int, h: int, mask: Seq<bool>, x: int, y: int) -> bool {
    ||| marked_at(w, h, mask, x, y, -1, -1)
    ||| marked_at(w, h, mask, x, y, 0, -1)
    ||| marked_at(w, h, mask, x, y, 1, -1)
    ||| marked_at(w, h, mask, x, y, -1, 0)
    ||| marked_at(w, h, mask, x, y, 0, 0)
    ||| marked_at(w, h, mask, x, y, 1, 0)
    ||| marked_at(w, h, mask, x, y, -1, 1)
    ||| marked_at(w, h, mask, x, y, 0, 1)
    ||| marked_at(w, h, mask, x, y, 1, 1)
}

/// One growth pass: a pixel joins the mask when it is an edge pixel next to
/// (8-connectivity) a pixel already in it.
pub open spec fn grow_pass(w: int, h: int, mask: Seq<bool>, edge: Seq<bool>) -> Seq<bool> {
    Seq::new(
        mask.len(),
        |p: int| mask[p] || (edge[p] && block_marked(w, h, mask, p % w, p / w)),
    )
}

/// The text mask after `passes` growth passes from the foreground core.
pub open spec fn grown_mask(
    w: int,
    h: int,
    core: Seq<RegionClass>,
    edge: Seq<bool>,
    passes: nat,
) -> Seq<bool>
    decreases passes,
{
    if passes == 0 {
        Seq::new(core.len(), |p: int| core[p] == RegionClass::Foreground)
    } else {
        grow_pass(w, h, grown_mask(w, h, core, edge, (passes - 1) as nat), edge)
    }
}

proof fn lemma_grown_len(w: int, h: int, core: Seq<RegionClass>, edge: Seq<bool>, passes: nat)
    ensures
        grown_mask(w, h, core, edge, passes).len() == core.len(),
    decreases passes,
{
    if passes > 0 {
        lemma_grown_len(w, h, core, edge, (passes - 1) as nat);
    }
}

/// A pixel in the mask stays in it through further passes.
proof fn lemma_grown_monotone(w: int, h: int, core: Seq<RegionClass>, edge: Seq<bool>, a: nat, b: nat, p: int)
    requires
        a <= b,
        0 <= p < core.len(),
        grown_mask(w, h, core, edge, a)[p],
    ensures
        grown_mask(w, h, core, edge, b)[p],
    decreases b,
{
    if b > a {
        lemma_grown_monotone(w, h, core, edge, a, (b - 1) as nat, p);
        lemma_grown_len(w, h, core, edge, (b - 1) as nat);
    }
}

/// Text grows into the anti-aliasing shell by 8-connectivity: an edge pixel
/// `(x, y)` joins the text mask whenever any of its eight neighbours, the
/// diagonal ones included, is a foreground core pixel.
pub proof fn lemma_grow_takes_neighbours(
    w: int,
    h: int,
    core: Seq<RegionClass>,
    edge: Seq<bool>,
    x: int,
    y: int,
    dx: int,
    dy: int,
)
    requires
        0 <= x < w,
        0 <= y < h,
        core.len() == w * h,
        edge.len() == w * h,
        -1 <= dx <= 1,
        -1 <= dy <= 1,
        0 <= x + dx < w,
        0 <= y + dy < h,
        core[(y + dy) * w + (x + dx)] == RegionClass::Foreground,
        edge[y * w + x],
    ensures
        grown_mask(w, h, core, edge, TEXT_GROW as nat)[y * w + x],
{
    let p = y * w + x;
    let q = (y + dy) * w + (x + dx);
    assert(p < w * h && q < w * h && 0 <= q) by (nonlinear_arith)
        requires
            0 <= x < w,
            0 <= y < h,
            0 <= x + dx < w,
            0 <= y + dy < h,
            p == y * w + x,
            q == (y + dy) * w + (x + dx),
    ;
    vstd::arithmetic::div_mod::lemma_fundamental_div_mod_converse(p, w, y, x);
    let m0 = grown_mask(w, h, core, edge, 0);
    assert(m0[q]);
    assert(marked_at(w, h, m0, x, y, dx, dy));
    assert(block_marked(w, h, m0, p % w, p / w));
    lemma_grown_len(w, h, core, edge, 0);
    assert(grown_mask(w, h, core, edge, 1)[p]);
    lemma_grown_monotone(w, h, core, edge, 1, TEXT_GROW as nat, p);
}

/// The core stays text, and nothing else joins that is not an edge pixel.
pub proof fn lemma_grow_core_and_edges(w: int, h: int, core: Seq<RegionClass>, edge: Seq<bool>, passes: nat, p: int)
    requires
        0 <= p < core.len(),
        edge.len() == core.len(),
    ensures
        core[p] == RegionClass::Foreground ==> grown_mask(w, h, core, edge, passes)[p],
        grown_mask(w, h, core, edge, passes)[p] ==> core[p] == RegionClass::Foreground || edge[p],
    decreases passes,
{
    lemma_grown_len(w, h, core, edge, passes);
    if passes > 0 {
        lemma_grow_core_and_edges(w, h, core, edge, (passes - 1) as nat, p);
        lemma_grown_len(w, h, core, edge, (passes - 1) as nat);
    }
}

fn marked(mask: &Vec<bool>, w: usize, h: usize, x: usize, y: usize, dx: usize, dy: usize) -> (r: bool)
    requires
        mask@.len() == w * h,
        w * h <= usize::MAX,
        x < w,
        y < h,
        dx <= 2,
        dy <= 2,
    ensures
        r == marked_at(w as int, h as int, mask@, x as int, y as int, dx - 1, dy - 1),
{
    if (dx == 0 && x == 0) || (dx == 2 && x + 1 >= w) || (dy == 0 && y == 0) || (dy == 2 && y
        + 1 >= h) {
        return false;
    }
    let nx = if dx == 0 {
        x - 1
    } else {
        x + dx - 1
    };
    let ny = if dy == 0 {
        y - 1
    } else {
        y + dy - 1
    };
    assert(ny * w + nx < w * h) by (nonlinear_arith)
        requires
            ny < h,
            nx < w,
    ;
    mask[ny * w + nx]
}

/// Grow the foreground `core` of a `w` by `h` frame into its anti-aliasing
/// fringe: [`TEXT_GROW`] times, every edge pixel (as `edge` marks them) next to
/// the mask joins it. The fringe follows edges and never crosses into a flat
/// fill, which has none.
pub fn grow_text_mask(w: usize, h: usize, core: &[RegionClass], edge: &[bool]) -> (r: Vec<bool>)
    requires
        w * h <= usize::MAX,
        core.len() == w * h,
        edge.len() == w * h,
    ensures
        r@ == grown_mask(w as int, h as int, core@, edge@, TEXT_GROW as nat),
{
    let n = w * h;
    let mut mask: Vec<bool> = Vec::new();
    let mut p: usize = 0;
    while p < n
        invariant
            n == core.len(),
            p <= n,
            mask@.len() == p,
            forall|q: int| 0 <= q < p ==> mask@[q] == (core@[q] == RegionClass::Foreground),
        decreases n - p,
    {
        mask.push(core[p] == RegionClass::Foreground);
        p = p + 1;
    }
    assert(mask@ =~= grown_mask(w as int, h as int, core@, edge@, 0));
    let mut pass: usize = 0;
    while pass < TEXT_GROW
        invariant
            n == w * h == core.len() == edge.len(),
            pass <= TEXT_GROW,
            mask@ == grown_mask(w as int, h as int, core@, edge@, pass as nat),
            mask@.len() == n,
        decreases TEXT_GROW - pass,
    {
        let mut next: Vec<bool> = Vec::new();
        let mut y: usize = 0;
        while y < h
            invariant
                n == w * h == edge.len() == mask@.len(),
                n <= usize::MAX,
                y <= h,
                next@.len() == y * w,
                forall|q: int|
                    0 <= q < y * w ==> #[trigger] next@[q] == grow_pass(w as int, h as int, mask@, edge@)[q],
            decreases h - y,
        {
            let mut x: usize = 0;
            while x < w
                invariant
                    n == w * h == edge.len() == mask@.len(),
                    n <= usize::MAX,
                    y < h,
                    x <= w,
                    next@.len() == y * w + x,
                    forall|q: int|
                        0 <= q < y * w + x ==> #[trigger] next@[q] == grow_pass(w as int, h as int, mask@, edge@)[q],
                decreases w - x,
            {
                assert(y * w + x < w * h) by (nonlinear_arith)
                    requires
                        y < h,
                        x < w,
                ;
                let p = y * w + x;
                let joins = mask[p] || (edge[p] && (marked(&mask, w, h, x, y, 0, 0) || marked(&mask, w, h, x, y, 1, 0)
                    || marked(&mask, w, h, x, y, 2, 0) || marked(&mask, w, h, x, y, 0, 1) || marked(&mask, w, h, x, y, 1, 1)
                    || marked(&mask, w, h, x, y, 2, 1) || marked(&mask, w, h, x, y, 0, 2) || marked(&mask, w, h, x, y, 1, 2)
                    || marked(&mask, w, h, x, y, 2, 2)));
                proof {
                    vstd::arithmetic::div_mod::lemma_fundamental_div_mod_converse(p as int, w as int, y as int, x as int);
                }
                next.push(joins);
                x = x + 1;
            }
            assert((y + 1) * w == y * w + w) by (nonlinear_arith);
            y = y + 1;
        }
        assert(h * w == w * h) by (nonlinear_arith);
        assert(next@ =~= grow_pass(w as int, h as int, mask@, edge@));
        mask = next;
        pass = pass + 1;
    }
    mask
}

} // verus!
