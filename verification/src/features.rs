//! Per-component features of an index plane, the structural half of the region
//! labeling: each component's area, its perimeter (pixel sides facing the border
//! or another index), its index, and the index it borders most.

use vstd::prelude::*;

use crate::regions::{find, is_forest, root_of};
use crate::tally::{tally_contents, Tally};

verus! {

/// The neighbour of pixel `q` across side `d` (0 left, 1 right, 2 up, 3 down) in
/// a row-major plane `w` pixels wide and `n` pixels long, when there is one.
pub open spec fn neighbour(w: int, n: int, q: int, d: int) -> Option<int> {
    if d == 0 {
        if q % w > 0 {
            Some(q - 1)
        } else {
            None
        }
    } else if d == 1 {
        if q % w + 1 < w && q + 1 < n {
            Some(q + 1)
        } else {
            None
        }
    } else if d == 2 {
        if q >= w {
            Some(q - w)
        } else {
            None
        }
    } else {
        if q + w < n {
            Some(q + w)
        } else {
            None
        }
    }
}

/// Side `d` of pixel `q` faces the border or a pixel of another index.
pub open spec fn side_open(w: int, idx: Seq<u32>, q: int, d: int) -> bool {
    match neighbour(w, idx.len() as int, q, d) {
        None => true,
        Some(t) => idx[t] != idx[q],
    }
}

/// The other index across side `d` of pixel `q`, when it differs from `q`'s.
pub open spec fn side_other(w: int, idx: Seq<u32>, q: int, d: int) -> Option<u32> {
    match neighbour(w, idx.len() as int, q, d) {
        Some(t) => if idx[t] != idx[q] {
            Some(idx[t])
        } else {
            None
        },
        None => None,
    }
}

/// How many of the first `k` pixels have root `r`.
pub open spec fn area_upto(p: Seq<u32>, r: int, k: int) -> nat
    decreases k,
{
    if k <= 0 {
        0
    } else {
        area_upto(p, r, k - 1) + if root_of(p, k - 1) == r {
            1nat
        } else {
            0nat
        }
    }
}

/// The index of the last of the first `k` pixels with root `r` (0 when none).
pub open spec fn last_index_upto(p: Seq<u32>, idx: Seq<u32>, r: int, k: int) -> u32
    decreases k,
{
    if k <= 0 {
        0
    } else if root_of(p, k - 1) == r {
        idx[k - 1]
    } else {
        last_index_upto(p, idx, r, k - 1)
    }
}

/// Over the first `t` pixel sides (side `t % 4` of pixel `t / 4`), how many
/// belong to a pixel with root `r` and face the border or another index.
pub open spec fn perimeter_upto(p: Seq<u32>, w: int, idx: Seq<u32>, r: int, t: int) -> nat
    decreases t,
{
    if t <= 0 {
        0
    } else {
        perimeter_upto(p, w, idx, r, t - 1) + if root_of(p, (t - 1) / 4) == r && side_open(
            w,
            idx,
            (t - 1) / 4,
            (t - 1) % 4,
        ) {
            1nat
        } else {
            0nat
        }
    }
}

/// Over the first `t` pixel sides, how many belong to a pixel with root `r` and
/// face a pixel of index `v` (other than the pixel's own).
pub open spec fn contact_upto(p: Seq<u32>, w: int, idx: Seq<u32>, r: int, v: u32, t: int) -> nat
    decreases t,
{
    if t <= 0 {
        0
    } else {
        contact_upto(p, w, idx, r, v, t - 1) + if root_of(p, (t - 1) / 4) == r && side_other(
            w,
            idx,
            (t - 1) / 4,
            (t - 1) % 4,
        ) == Some(v) {
            1nat
        } else {
            0nat
        }
    }
}

/// How many pixel sides of component `r` face index `v`.
pub open spec fn contact(p: Seq<u32>, w: int, idx: Seq<u32>, r: int, v: u32) -> nat {
    contact_upto(p, w, idx, r, v, 4 * idx.len() as int)
}

/// `v` is the index component `r` borders most, the smaller index on a tie.
pub open spec fn dominant(p: Seq<u32>, w: int, idx: Seq<u32>, r: int, v: u32) -> bool {
    &&& contact(p, w, idx, r, v) > 0
    &&& forall|u: u32|
        #![trigger contact(p, w, idx, r, u)]
        contact(p, w, idx, r, u) > 0 ==> contact(p, w, idx, r, u) < contact(p, w, idx, r, v) || (
        contact(p, w, idx, r, u) == contact(p, w, idx, r, v) && v <= u)
}

/// The accumulated features of one component, stored at its root.
#[derive(Clone, Copy, Debug, PartialEq, Eq)]
pub struct Comp {
    /// Pixels in the component.
    pub area: u32,
    /// Pixel sides facing the border or another index.
    pub perimeter: u32,
    /// The component's index.
    pub index: u32,
    /// Whether the component touches another index at all.
    pub has_nbr: bool,
    /// How many sides face the index it borders most.
    pub best_nbr_count: u32,
    /// The index it borders most (the smaller one on a tie).
    pub best_nbr_index: u32,
}

/// The packed map key of a (component root, other index) pair.
pub open spec fn contact_key(r: int, v: u32) -> int {
    r * 0x1_0000_0000 + v
}

/// The pass over pixel sides, done up to side `t`: areas and perimeters are
/// counted, the contact tally holds every positive count, and `edges` lists
/// the tally's keys.
pub open spec fn tallied(
    p: Seq<u32>,
    w: int,
    idx: Seq<u32>,
    comps: Seq<Comp>,
    tally: Map<u64, u32>,
    edges: Seq<u64>,
    t: int,
) -> bool {
    &&& comps.len() == idx.len()
    &&& forall|r: int|
        0 <= r < idx.len() ==> (#[trigger] comps[r]).perimeter == perimeter_upto(p, w, idx, r, t)
    &&& forall|r: int, v: u32|
        #![trigger tally.contains_key(contact_key(r, v) as u64)]
        0 <= r < idx.len() ==> (tally.contains_key(contact_key(r, v) as u64) <==> contact_upto(
            p,
            w,
            idx,
            r,
            v,
            t,
        ) > 0)
    &&& forall|r: int, v: u32|
        #![trigger tally[contact_key(r, v) as u64]]
        0 <= r < idx.len() && tally.contains_key(contact_key(r, v) as u64) ==> tally[contact_key(
            r,
            v,
        ) as u64] == contact_upto(p, w, idx, r, v, t)
    &&& forall|k: u64| #[trigger]
        tally.contains_key(k) ==> k / 0x1_0000_0000 < idx.len()
    &&& forall|i: int| 0 <= i < edges.len() ==> tally.contains_key(#[trigger] edges[i])
    &&& forall|k: u64| #[trigger] tally.contains_key(k) ==> edges.contains(k)
}

proof fn lemma_counts_bounded(p: Seq<u32>, w: int, idx: Seq<u32>, r: int, v: u32, t: int)
    requires
        t >= 0,
    ensures
        perimeter_upto(p, w, idx, r, t) <= t,
        contact_upto(p, w, idx, r, v, t) <= t,
    decreases t,
{
    if t > 0 {
        lemma_counts_bounded(p, w, idx, r, v, t - 1);
    }
}

proof fn lemma_area_bounded(p: Seq<u32>, r: int, k: int)
    requires
        k >= 0,
    ensures
        area_upto(p, r, k) <= k,
    decreases k,
{
    if k > 0 {
        lemma_area_bounded(p, r, k - 1);
    }
}

/// Two keys are equal only for the same pair.
proof fn lemma_key_unique(r1: int, v1: u32, r2: int, v2: u32)
    requires
        0 <= r1 < 0x1_0000_0000,
        0 <= r2 < 0x1_0000_0000,
    ensures
        (contact_key(r1, v1) == contact_key(r2, v2)) <==> (r1 == r2 && v1 == v2),
        0 <= contact_key(r1, v1) < 0x1_0000_0000_0000_0000,
        contact_key(r1, v1) / 0x1_0000_0000 == r1,
        contact_key(r1, v1) % 0x1_0000_0000 == v1,
{
}

/// Count side `d` of pixel `q` (whose root is `root`) into the features.
fn tally_side(
    w: usize,
    idx: &[u32],
    q: usize,
    d: usize,
    root: u32,
    comps: &mut Vec<Comp>,
    tally: &mut Tally,
    edges: &mut Vec<u64>,
    Ghost(p): Ghost<Seq<u32>>,
)
    requires
        q < idx@.len(),
        d < 4,
        w > 0,
        4 * idx@.len() <= u32::MAX,
        root == root_of(p, q as int),
        root < idx@.len(),
        tallied(p, w as int, idx@, old(comps)@, tally_contents(*old(tally)), old(edges)@, 4 * q + d),
    ensures
        tallied(p, w as int, idx@, final(comps)@, tally_contents(*final(tally)), final(edges)@, 4 * q + d + 1),
        forall|r: int|
            0 <= r < idx@.len() ==> (#[trigger] final(comps)@[r]).area == old(comps)@[r].area
                && final(comps)@[r].index == old(comps)@[r].index && final(comps)@[r].has_nbr
                == old(comps)@[r].has_nbr,
{
    let n = idx.len();
    let ghost t = 4 * q + d;
    let ghost wi = w as int;
    assert((t + 1 - 1) / 4 == q as int && (t + 1 - 1) % 4 == d as int);
    let nb: Option<usize> = if d == 0 {
        if q % w > 0 {
            assert(q > 0) by (nonlinear_arith)
                requires
                    q % w > 0,
                    w > 0,
            ;
            Some(q - 1)
        } else {
            None
        }
    } else if d == 1 {
        if q % w + 1 < w && q + 1 < n {
            Some(q + 1)
        } else {
            None
        }
    } else if d == 2 {
        if q >= w {
            Some(q - w)
        } else {
            None
        }
    } else {
        if q < n && w < n - q {
            Some(q + w)
        } else {
            None
        }
    };
    assert(match nb {
        Some(t2) => neighbour(wi, n as int, q as int, d as int) == Some(t2 as int),
        None => neighbour(wi, n as int, q as int, d as int) is None,
    });
    let other: Option<u32> = match nb {
        None => None,
        Some(t2) => if idx[t2] != idx[q] {
            Some(idx[t2])
        } else {
            None
        },
    };
    let open = match nb {
        None => true,
        Some(_) => other.is_some(),
    };
    assert(open == side_open(wi, idx@, q as int, d as int));
    assert(other == side_other(wi, idx@, q as int, d as int));
    let ghost comps0 = comps@;
    let ghost tally0 = tally_contents(*tally);
    let ghost edges0 = edges@;
    proof {
        lemma_counts_bounded(p, wi, idx@, root as int, 0, t);
    }
    if open {
        let mut c = comps[root as usize];
        c.perimeter = c.perimeter + 1;
        comps.set(root as usize, c);
    }
    assert forall|r: int| 0 <= r < idx@.len() implies (#[trigger] comps@[r]).perimeter
        == perimeter_upto(p, wi, idx@, r, t + 1) by {
        assert(comps0[r].perimeter == perimeter_upto(p, wi, idx@, r, t));
    }
    match other {
        None => {
            assert forall|r: int, v: u32| 0 <= r < idx@.len() implies contact_upto(
                p,
                wi,
                idx@,
                r,
                v,
                t + 1,
            ) == contact_upto(p, wi, idx@, r, v, t) by {}
        },
        Some(v) => {
            proof {
                lemma_counts_bounded(p, wi, idx@, root as int, v, t);
                lemma_key_unique(root as int, v, root as int, v);
            }
            let key: u64 = (root as u64) * 0x1_0000_0000 + (v as u64);
            assert(key == contact_key(root as int, v));
            match tally.get(key) {
                Some(c) => {
                    let c2 = c + 1;
                    tally.insert(key, c2);
                },
                None => {
                    tally.insert(key, 1);
                    edges.push(key);
                },
            }
            assert forall|r: int, u: u32|
                #![trigger tally_contents(*tally).contains_key(contact_key(r, u) as u64)]
                0 <= r < idx@.len() implies (tally_contents(*tally).contains_key(contact_key(r, u) as u64)
                <==> contact_upto(p, wi, idx@, r, u, t + 1) > 0) by {
                lemma_key_unique(r, u, root as int, v);
                assert(tally0.contains_key(contact_key(r, u) as u64) <==> contact_upto(
                    p,
                    wi,
                    idx@,
                    r,
                    u,
                    t,
                ) > 0);
            }
            assert forall|r: int, u: u32|
                #![trigger tally_contents(*tally)[contact_key(r, u) as u64]]
                0 <= r < idx@.len() && tally_contents(*tally).contains_key(contact_key(r, u) as u64) implies tally_contents(*tally)[contact_key(
                    r,
                    u,
                ) as u64] == contact_upto(p, wi, idx@, r, u, t + 1) by {
                lemma_key_unique(r, u, root as int, v);
                if tally0.contains_key(contact_key(r, u) as u64) {
                    assert(tally0[contact_key(r, u) as u64] == contact_upto(p, wi, idx@, r, u, t));
                } else {
                    assert(tally0.contains_key(contact_key(r, u) as u64) <==> contact_upto(
                        p,
                        wi,
                        idx@,
                        r,
                        u,
                        t,
                    ) > 0);
                }
            }
            assert forall|k: u64| #[trigger] tally_contents(*tally).contains_key(k) implies k / 0x1_0000_0000
                < idx@.len() by {
                if k != key {
                    assert(tally0.contains_key(k));
                }
            }
            assert forall|i: int| 0 <= i < edges@.len() implies tally_contents(*tally).contains_key(
                #[trigger] edges@[i],
            ) by {
                if i < edges0.len() {
                    assert(edges@[i] == edges0[i]);
                    assert(tally0.contains_key(edges0[i]));
                }
            }
            assert forall|k: u64| #[trigger] tally_contents(*tally).contains_key(k) implies edges@.contains(k) by {
                if k == key {
                    if !tally0.contains_key(key) {
                        assert(edges@[edges@.len() - 1] == key);
                    } else {
                        let i = choose|i: int| 0 <= i < edges0.len() && edges0[i] == key;
                        assert(edges@[i] == key);
                    }
                } else {
                    assert(tally0.contains_key(k));
                    let i = choose|i: int| 0 <= i < edges0.len() && edges0[i] == k;
                    assert(edges@[i] == k);
                }
            }
        },
    }
}

/// The features of every component of a row-major `width * height` index
/// plane, given the plane's component forest `parent` (see
/// `crate::regions::components`). Entry `r` describes the component rooted at
/// pixel `r`: its area, its perimeter, the index of its last pixel, and, when it
/// touches another index, the index it borders most (the smaller on a tie) with
/// how many sides face it.
#[verifier::loop_isolation(false)]
pub fn component_features(width: usize, height: usize, indices: &[u32], parent: &mut Vec<u32>) -> (comps: Vec<Comp>)
    requires
        indices@.len() == width * height,
        4 * indices@.len() <= u32::MAX,
        old(parent)@.len() == indices@.len(),
        is_forest(old(parent)@),
    ensures
        final(parent)@.len() == old(parent)@.len(),
        is_forest(final(parent)@),
        forall|i: int|
            0 <= i < final(parent)@.len() ==> #[trigger] root_of(final(parent)@, i) == root_of(
                old(parent)@,
                i,
            ),
        comps@.len() == indices@.len(),
        forall|r: int|
            #![trigger comps@[r]]
            0 <= r < indices@.len() ==> {
                let p = old(parent)@;
                let n = indices@.len() as int;
                let w = width as int;
                &&& comps@[r].area == area_upto(p, r, n)
                &&& comps@[r].perimeter == perimeter_upto(p, w, indices@, r, 4 * n)
                &&& comps@[r].index == last_index_upto(p, indices@, r, n)
                &&& (comps@[r].has_nbr <==> exists|u: u32|
                    #[trigger] contact(p, w, indices@, r, u) > 0)
                &&& comps@[r].has_nbr ==> dominant(p, w, indices@, r, comps@[r].best_nbr_index)
                    && comps@[r].best_nbr_count == contact(p, w, indices@, r, comps@[r].best_nbr_index)
            },
{
    let ghost p0 = parent@;
    let ghost idx = indices@;
    let ghost wi = width as int;
    let n = indices.len();
    let zero = Comp { area: 0, perimeter: 0, index: 0, has_nbr: false, best_nbr_count: 0, best_nbr_index: 0 };
    let mut comps: Vec<Comp> = Vec::new();
    let mut k: usize = 0;
    while k < n
        invariant
            k <= n,
            comps@.len() == k,
            forall|r: int| 0 <= r < k ==> #[trigger] comps@[r] == zero,
        decreases n - k,
    {
        comps.push(zero);
        k = k + 1;
    }
    let mut tally = Tally::new();
    let mut edges: Vec<u64> = Vec::new();
    if n == 0 {
        return comps;
    }
    assert(width > 0) by (nonlinear_arith)
        requires
            n == width * height,
            n > 0,
    ;
    let mut q: usize = 0;
    while q < n
        invariant
            n == idx.len(),
            q <= n,
            parent@.len() == n,
            is_forest(parent@),
            forall|i: int| 0 <= i < n ==> #[trigger] root_of(parent@, i) == root_of(p0, i),
            tallied(p0, wi, idx, comps@, tally_contents(tally), edges@, 4 * q),
            forall|r: int|
                0 <= r < n ==> (#[trigger] comps@[r]).area == area_upto(p0, r, q as int)
                    && comps@[r].index == last_index_upto(p0, idx, r, q as int)
                    && !comps@[r].has_nbr,
        decreases n - q,
    {
        let root = find(parent, q as u32);
        proof {
            crate::regions::lemma_root_is_root(p0, q as int);
            lemma_area_bounded(p0, root as int, q as int);
        }
        let mut c = comps[root as usize];
        c.area = c.area + 1;
        c.index = indices[q];
        comps.set(root as usize, c);
        assert forall|r: int| 0 <= r < n implies (#[trigger] comps@[r]).area == area_upto(
            p0,
            r,
            q + 1,
        ) && comps@[r].index == last_index_upto(p0, idx, r, q + 1) && !comps@[r].has_nbr by {}
        assert forall|r: int| 0 <= r < idx.len() implies (#[trigger] comps@[r]).perimeter
            == perimeter_upto(p0, wi, idx, r, 4 * q) by {}
        let mut d: usize = 0;
        while d < 4
            invariant
                n == idx.len(),
                q < n,
                d <= 4,
                root == root_of(p0, q as int),
                root < n,
                tallied(p0, wi, idx, comps@, tally_contents(tally), edges@, 4 * q + d),
                forall|r: int|
                    0 <= r < n ==> (#[trigger] comps@[r]).area == area_upto(p0, r, q + 1)
                        && comps@[r].index == last_index_upto(p0, idx, r, q + 1)
                        && !comps@[r].has_nbr,
            decreases 4 - d,
        {
            tally_side(width, indices, q, d, root, &mut comps, &mut tally, &mut edges, Ghost(p0));
            d = d + 1;
        }
        q = q + 1;
    }
    let ghost comps1 = comps@;
    let mut j: usize = 0;
    while j < edges.len()
        invariant
            n == idx.len(),
            tallied(p0, wi, idx, comps1, tally_contents(tally), edges@, 4 * n),
            comps@.len() == n,
            j <= edges@.len(),
            forall|r: int|
                0 <= r < n ==> (#[trigger] comps@[r]).area == comps1[r].area
                    && comps@[r].perimeter == comps1[r].perimeter
                    && comps@[r].index == comps1[r].index,
            forall|r: int|
                0 <= r < n ==> ((#[trigger] comps@[r]).has_nbr <==> exists|i: int|
                    0 <= i < j && #[trigger] edges@[i] / 0x1_0000_0000 == r),
            forall|r: int|
                0 <= r < n && (#[trigger] comps@[r]).has_nbr ==> contact(
                    p0,
                    wi,
                    idx,
                    r,
                    comps@[r].best_nbr_index,
                ) == comps@[r].best_nbr_count && comps@[r].best_nbr_count > 0,
            forall|i: int|
                #![trigger edges@[i]]
                0 <= i < j ==> {
                    let r = edges@[i] / 0x1_0000_0000;
                    let v = (edges@[i] % 0x1_0000_0000) as u32;
                    &&& comps@[r as int].has_nbr
                    &&& !(contact(p0, wi, idx, r as int, v) > comps@[r as int].best_nbr_count || (
                    contact(p0, wi, idx, r as int, v) == comps@[r as int].best_nbr_count && v
                        < comps@[r as int].best_nbr_index))
                },
        decreases edges.len() - j,
    {
        let e = edges[j];
        let r = (e / 0x1_0000_0000) as usize;
        let v = (e % 0x1_0000_0000) as u32;
        proof {
            assert(tally_contents(tally).contains_key(e));
            assert(contact_key(r as int, v) == e as int);
            assert(tally_contents(tally).contains_key(contact_key(r as int, v) as u64));
        }
        let cnt = tally.get(e).unwrap();
        assert(cnt == contact(p0, wi, idx, r as int, v));
        let cur = comps[r];
        if !cur.has_nbr || cnt > cur.best_nbr_count || (cnt == cur.best_nbr_count
            && v < cur.best_nbr_index) {
            let mut c = cur;
            c.has_nbr = true;
            c.best_nbr_count = cnt;
            c.best_nbr_index = v;
            comps.set(r, c);
        }
        proof {
            assert forall|r2: int| 0 <= r2 < n implies ((#[trigger] comps@[r2]).has_nbr
                <==> exists|i: int| 0 <= i < j + 1 && #[trigger] edges@[i] / 0x1_0000_0000 == r2) by {
                if r2 == r as int {
                    assert(edges@[j as int] / 0x1_0000_0000 == r2);
                }
            }
        }
        j = j + 1;
    }
    proof {
        assert forall|r: int| 0 <= r < n implies {
            &&& (#[trigger] comps@[r]).has_nbr ==> dominant(p0, wi, idx, r, comps@[r].best_nbr_index)
            &&& (comps@[r].has_nbr <==> exists|u: u32| #[trigger] contact(p0, wi, idx, r, u) > 0)
        } by {
            if comps@[r].has_nbr {
                let i = choose|i: int| 0 <= i < edges@.len() && #[trigger] edges@[i] / 0x1_0000_0000 == r;
                let v = (edges@[i] % 0x1_0000_0000) as u32;
                assert(tally_contents(tally).contains_key(edges@[i]));
                lemma_key_unique(r, v, r, v);
                assert(contact_key(r, v) == edges@[i] as int);
                assert(tally_contents(tally).contains_key(contact_key(r, v) as u64));
                assert(contact(p0, wi, idx, r, v) > 0);
                assert forall|u: u32| #[trigger] contact(p0, wi, idx, r, u) > 0 implies contact(
                    p0,
                    wi,
                    idx,
                    r,
                    u,
                ) < contact(p0, wi, idx, r, comps@[r].best_nbr_index) || (contact(
                    p0,
                    wi,
                    idx,
                    r,
                    u,
                ) == contact(p0, wi, idx, r, comps@[r].best_nbr_index) && comps@[r].best_nbr_index
                    <= u) by {
                    lemma_key_unique(r, u, r, u);
                    assert(tally_contents(tally).contains_key(contact_key(r, u) as u64));
                    let k = contact_key(r, u) as u64;
                    assert(edges@.contains(k));
                    let i2 = choose|i2: int| 0 <= i2 < edges@.len() && edges@[i2] == k;
                    assert(edges@[i2] / 0x1_0000_0000 == r);
                    assert((edges@[i2] % 0x1_0000_0000) as u32 == u);
                }
            } else {
                if exists|u: u32| #[trigger] contact(p0, wi, idx, r, u) > 0 {
                    let u = choose|u: u32| #[trigger] contact(p0, wi, idx, r, u) > 0;
                    lemma_key_unique(r, u, r, u);
                    assert(tally_contents(tally).contains_key(contact_key(r, u) as u64));
                    let k = contact_key(r, u) as u64;
                    assert(edges@.contains(k));
                    let i2 = choose|i2: int| 0 <= i2 < edges@.len() && edges@[i2] == k;
                    assert(edges@[i2] / 0x1_0000_0000 == r);
                }
            }
        }
    }
    comps
}

} // verus!
