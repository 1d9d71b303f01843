//! Connected components of an index plane: a union-find forest over pixel
//! positions in which every node's parent is itself or a smaller position, so
//! each component's root is its first pixel.

use vstd::prelude::*;

verus! {

/// A forest over `0..p.len()`: every node's parent is itself or a smaller node.
pub open spec fn is_forest(p: Seq<u32>) -> bool {
    forall|i: int| 0 <= i < p.len() ==> #[trigger] p[i] <= i
}

/// The root of `x`: follow parents until a node is its own parent.
pub open spec fn root_of(p: Seq<u32>, x: int) -> int
    decreases x,
{
    if x < 0 || x >= p.len() || p[x] >= x {
        x
    } else {
        root_of(p, p[x] as int)
    }
}

/// A root is its own parent and no larger than the node it is the root of.
pub proof fn lemma_root_is_root(p: Seq<u32>, x: int)
    requires
        is_forest(p),
        0 <= x < p.len(),
    ensures
        0 <= root_of(p, x) <= x,
        p[root_of(p, x)] == root_of(p, x),
    decreases x,
{
    if p[x] < x {
        lemma_root_is_root(p, p[x] as int);
    }
}

/// Pointing `c` at its grandparent keeps the forest and every node's root.
proof fn lemma_halving_keeps_roots(p: Seq<u32>, c: int, i: int)
    requires
        is_forest(p),
        0 <= c < p.len(),
        0 <= i < p.len(),
    ensures
        is_forest(p.update(c, p[p[c] as int])),
        root_of(p.update(c, p[p[c] as int]), i) == root_of(p, i),
    decreases i,
{
    let q = p.update(c, p[p[c] as int]);
    assert forall|j: int| 0 <= j < q.len() implies #[trigger] q[j] <= j by {
        if j == c {
            assert(p[p[c] as int] <= p[c]);
        }
    }
    if q[i] < i {
        lemma_halving_keeps_roots(p, c, q[i] as int);
        if i == c && p[p[c] as int] < p[c] {
            assert(root_of(p, p[c] as int) == root_of(p, p[p[c] as int] as int));
        }
    }
}

/// Hanging root `hi` under the smaller root `lo` sends every node of `hi`'s tree
/// to `lo` and leaves every other node's root alone.
proof fn lemma_link_roots(p: Seq<u32>, lo: int, hi: int, i: int)
    requires
        is_forest(p),
        0 <= lo < hi < p.len(),
        p[lo] == lo,
        p[hi] == hi,
        0 <= i < p.len(),
    ensures
        is_forest(p.update(hi, lo as u32)),
        root_of(p.update(hi, lo as u32), i) == (if root_of(p, i) == hi {
            lo
        } else {
            root_of(p, i)
        }),
    decreases i,
{
    let q = p.update(hi, lo as u32);
    assert forall|j: int| 0 <= j < q.len() implies #[trigger] q[j] <= j by {}
    if i == hi {
        lemma_link_roots(p, lo, hi, lo);
    } else if q[i] < i {
        lemma_link_roots(p, lo, hi, q[i] as int);
    }
}

/// `n` separate one-node components: every node its own parent.
pub fn singletons(n: u32) -> (p: Vec<u32>)
    ensures
        p@.len() == n,
        forall|i: int| 0 <= i < n ==> #[trigger] p@[i] == i,
        is_forest(p@),
{
    let mut p: Vec<u32> = Vec::new();
    let mut i: u32 = 0;
    while i < n
        invariant
            i <= n,
            p@.len() == i,
            forall|j: int| 0 <= j < i ==> #[trigger] p@[j] == j,
        decreases n - i,
    {
        p.push(i);
        i = i + 1;
    }
    p
}

/// The root of `x`, halving the path to it on the way.
pub fn find(parent: &mut Vec<u32>, x: u32) -> (r: u32)
    requires
        is_forest(old(parent)@),
        x < old(parent)@.len(),
    ensures
        r == root_of(old(parent)@, x as int),
        final(parent)@.len() == old(parent)@.len(),
        is_forest(final(parent)@),
        forall|i: int|
            0 <= i < final(parent)@.len() ==> #[trigger] root_of(final(parent)@, i) == root_of(
                old(parent)@,
                i,
            ),
{
    let ghost p0 = parent@;
    let mut cur = x;
    while parent[cur as usize] != cur
        invariant
            parent@.len() == p0.len(),
            is_forest(parent@),
            cur < parent@.len(),
            root_of(parent@, cur as int) == root_of(p0, x as int),
            forall|i: int|
                0 <= i < parent@.len() ==> #[trigger] root_of(parent@, i) == root_of(p0, i),
        decreases cur,
    {
        let ghost p = parent@;
        let c = cur as usize;
        let g = parent[parent[c] as usize];
        parent.set(c, g);
        proof {
            assert(parent@ == p.update(c as int, p[p[c as int] as int]));
            assert forall|i: int| 0 <= i < parent@.len() implies #[trigger] root_of(parent@, i)
                == root_of(p0, i) by {
                lemma_halving_keeps_roots(p, c as int, i);
            }
            lemma_halving_keeps_roots(p, c as int, 0);
            lemma_halving_keeps_roots(p, c as int, g as int);
            assert(root_of(p, c as int) == root_of(p, p[c as int] as int));
            assert(root_of(p, p[c as int] as int) == root_of(p, g as int));
        }
        cur = g;
    }
    cur
}

/// Join the components of `a` and `b`: the larger of their two roots is hung
/// under the smaller, so every node of either component ends up rooted at the
/// smaller root.
pub fn union(parent: &mut Vec<u32>, a: u32, b: u32)
    requires
        is_forest(old(parent)@),
        a < old(parent)@.len(),
        b < old(parent)@.len(),
    ensures
        final(parent)@.len() == old(parent)@.len(),
        is_forest(final(parent)@),
        forall|i: int|
            0 <= i < final(parent)@.len() ==> #[trigger] root_of(final(parent)@, i) == {
                let ra = root_of(old(parent)@, a as int);
                let rb = root_of(old(parent)@, b as int);
                let ri = root_of(old(parent)@, i);
                if ri == ra || ri == rb {
                    if ra < rb {
                        ra
                    } else {
                        rb
                    }
                } else {
                    ri
                }
            },
{
    let ghost p0 = parent@;
    let ra = find(parent, a);
    let rb = find(parent, b);
    let ghost p1 = parent@;
    proof {
        lemma_root_is_root(p1, a as int);
        lemma_root_is_root(p1, b as int);
    }
    if ra != rb {
        let (lo, hi) = if ra < rb {
            (ra, rb)
        } else {
            (rb, ra)
        };
        parent.set(hi as usize, lo);
        proof {
            assert(parent@ == p1.update(hi as int, lo as u32));
            assert forall|i: int| 0 <= i < parent@.len() implies #[trigger] root_of(parent@, i)
                == (if root_of(p1, i) == hi {
                lo as int
            } else {
                root_of(p1, i)
            }) by {
                lemma_link_roots(p1, lo as int, hi as int, i);
            }
            lemma_link_roots(p1, lo as int, hi as int, 0);
        }
    }
}

/// Every node has the same index as its component's root, so two nodes in one
/// component carry the same index.
pub open spec fn roots_keep_index(p: Seq<u32>, indices: Seq<u32>) -> bool {
    forall|i: int| 0 <= i < p.len() ==> #[trigger] indices[root_of(p, i)] == indices[i]
}

/// The right neighbour of pixel `q` in a `w`-wide plane exists and has the
/// same index.
pub open spec fn joins_right(w: int, indices: Seq<u32>, q: int) -> bool {
    q % w + 1 < w && q + 1 < indices.len() && indices[q + 1] == indices[q]
}

/// The pixel below `q` exists and has the same index.
pub open spec fn joins_down(w: int, indices: Seq<u32>, q: int) -> bool {
    q + w < indices.len() && indices[q + w] == indices[q]
}

/// The components are closed under 4-neighbourhood of equal index for the
/// first `k` pixels.
pub open spec fn neighbours_joined(p: Seq<u32>, w: int, indices: Seq<u32>, k: int) -> bool {
    forall|q: int|
        0 <= q < k ==> (#[trigger] joins_right(w, indices, q) ==> root_of(p, q) == root_of(
            p,
            q + 1,
        )) && (joins_down(w, indices, q) ==> root_of(p, q) == root_of(p, q + w))
}

/// Pixels `a` and `b` are 4-neighbours of the same index.
pub open spec fn linked(w: int, indices: Seq<u32>, a: int, b: int) -> bool {
    ||| joins_right(w, indices, a) && b == a + 1
    ||| joins_right(w, indices, b) && a == b + 1
    ||| joins_down(w, indices, a) && b == a + w
    ||| joins_down(w, indices, b) && a == b + w
}

/// `path` is a walk of pixels, each linked to the next.
pub open spec fn is_walk(w: int, indices: Seq<u32>, path: Seq<int>) -> bool {
    &&& path.len() >= 1
    &&& forall|i: int| 0 <= i < path.len() ==> 0 <= #[trigger] path[i] < indices.len()
    &&& forall|i: int|
        0 <= i < path.len() - 1 ==> linked(w, indices, #[trigger] path[i], path[i + 1])
}

/// Pixels `a` and `b` are joined by a walk of equal-index 4-neighbours.
pub open spec fn connected(w: int, indices: Seq<u32>, a: int, b: int) -> bool {
    exists|path: Seq<int>|
        #[trigger] is_walk(w, indices, path) && path[0] == a && path[path.len() - 1] == b
}

proof fn lemma_connected_refl(w: int, indices: Seq<u32>, a: int)
    requires
        0 <= a < indices.len(),
    ensures
        connected(w, indices, a, a),
{
    let path = seq![a];
    assert(is_walk(w, indices, path));
}

proof fn lemma_linked_connected(w: int, indices: Seq<u32>, a: int, b: int)
    requires
        0 <= a < indices.len(),
        0 <= b < indices.len(),
        linked(w, indices, a, b),
    ensures
        connected(w, indices, a, b),
{
    let path = seq![a, b];
    assert(is_walk(w, indices, path));
}

proof fn lemma_connected_sym(w: int, indices: Seq<u32>, a: int, b: int)
    requires
        connected(w, indices, a, b),
    ensures
        connected(w, indices, b, a),
{
    let path = choose|path: Seq<int>|
        #[trigger] is_walk(w, indices, path) && path[0] == a && path[path.len() - 1] == b;
    let back = path.reverse();
    assert forall|i: int| 0 <= i < back.len() - 1 implies linked(
        w,
        indices,
        #[trigger] back[i],
        back[i + 1],
    ) by {
        let k = path.len() - 2 - i;
        assert(linked(w, indices, path[k], path[k + 1]));
    }
    assert(is_walk(w, indices, back));
}

proof fn lemma_connected_trans(w: int, indices: Seq<u32>, a: int, b: int, c: int)
    requires
        connected(w, indices, a, b),
        connected(w, indices, b, c),
    ensures
        connected(w, indices, a, c),
{
    let p1 = choose|path: Seq<int>|
        #[trigger] is_walk(w, indices, path) && path[0] == a && path[path.len() - 1] == b;
    let p2 = choose|path: Seq<int>|
        #[trigger] is_walk(w, indices, path) && path[0] == b && path[path.len() - 1] == c;
    let joined = p1 + p2.drop_first();
    assert forall|i: int| 0 <= i < joined.len() - 1 implies linked(
        w,
        indices,
        #[trigger] joined[i],
        joined[i + 1],
    ) by {
        if i < p1.len() - 1 {
            assert(linked(w, indices, p1[i], p1[i + 1]));
        } else {
            let k = i - p1.len() + 1;
            assert(linked(w, indices, p2[k], p2[k + 1]));
        }
    }
    assert(is_walk(w, indices, joined));
}

/// Every node is connected to its root.
pub open spec fn roots_connected(p: Seq<u32>, w: int, indices: Seq<u32>) -> bool {
    forall|i: int| 0 <= i < p.len() ==> connected(w, indices, i, #[trigger] root_of(p, i))
}

/// A walk never leaves a component whose neighbours are all joined.
proof fn lemma_walk_same_root(p: Seq<u32>, w: int, indices: Seq<u32>, path: Seq<int>)
    requires
        is_walk(w, indices, path),
        p.len() == indices.len(),
        neighbours_joined(p, w, indices, indices.len() as int),
    ensures
        root_of(p, path[0]) == root_of(p, path[path.len() - 1]),
    decreases path.len(),
{
    if path.len() > 1 {
        let rest = path.drop_first();
        assert forall|i: int| 0 <= i < rest.len() - 1 implies linked(
            w,
            indices,
            #[trigger] rest[i],
            rest[i + 1],
        ) by {
            assert(linked(w, indices, path[i + 1], path[i + 2]));
        }
        assert(is_walk(w, indices, rest));
        lemma_walk_same_root(p, w, indices, rest);
        assert(linked(w, indices, path[0], path[1]));
        let a = path[0];
        let b = path[1];
        if joins_right(w, indices, a) && b == a + 1 {
        } else if joins_right(w, indices, b) && a == b + 1 {
        } else if joins_down(w, indices, a) && b == a + w {
        } else {
        }
    }
}

/// A completed component forest: two pixels share a root exactly when a walk of
/// equal-index 4-neighbours joins them.
pub proof fn lemma_components_are_connectivity(
    p: Seq<u32>,
    w: int,
    indices: Seq<u32>,
    a: int,
    b: int,
)
    requires
        p.len() == indices.len(),
        is_forest(p),
        roots_connected(p, w, indices),
        neighbours_joined(p, w, indices, indices.len() as int),
        0 <= a < indices.len(),
        0 <= b < indices.len(),
    ensures
        (root_of(p, a) == root_of(p, b)) <==> connected(w, indices, a, b),
{
    if root_of(p, a) == root_of(p, b) {
        assert(connected(w, indices, a, root_of(p, a)));
        assert(connected(w, indices, b, root_of(p, b)));
        lemma_connected_sym(w, indices, b, root_of(p, b));
        lemma_connected_trans(w, indices, a, root_of(p, a), b);
    }
    if connected(w, indices, a, b) {
        let path = choose|path: Seq<int>|
            #[trigger] is_walk(w, indices, path) && path[0] == a && path[path.len() - 1] == b;
        lemma_walk_same_root(p, w, indices, path);
    }
}

/// After a union of two linked nodes, every node is still connected to its root.
proof fn lemma_union_keeps_connected(
    p: Seq<u32>,
    q: Seq<u32>,
    w: int,
    indices: Seq<u32>,
    a: int,
    b: int,
)
    requires
        is_forest(p),
        p.len() == indices.len(),
        q.len() == p.len(),
        roots_connected(p, w, indices),
        0 <= a < p.len(),
        0 <= b < p.len(),
        linked(w, indices, a, b),
        forall|i: int|
            0 <= i < q.len() ==> #[trigger] root_of(q, i) == {
                let ra = root_of(p, a);
                let rb = root_of(p, b);
                let ri = root_of(p, i);
                if ri == ra || ri == rb {
                    if ra < rb {
                        ra
                    } else {
                        rb
                    }
                } else {
                    ri
                }
            },
    ensures
        roots_connected(q, w, indices),
{
    let ra = root_of(p, a);
    let rb = root_of(p, b);
    assert(connected(w, indices, a, ra));
    assert(connected(w, indices, b, rb));
    lemma_linked_connected(w, indices, a, b);
    lemma_connected_sym(w, indices, a, ra);
    lemma_connected_trans(w, indices, ra, a, b);
    lemma_connected_trans(w, indices, ra, b, rb);
    lemma_connected_sym(w, indices, ra, rb);
    assert forall|i: int| 0 <= i < q.len() implies connected(w, indices, i, #[trigger] root_of(q, i)) by {
        let ri = root_of(p, i);
        assert(connected(w, indices, i, ri));
        if ri == ra && rb < ra {
            lemma_connected_trans(w, indices, i, ra, rb);
        } else if ri == rb && ra < rb {
            lemma_connected_trans(w, indices, i, rb, ra);
        }
    }
}

/// The connected components (4-connectivity) of equal index of a row-major
/// `width * height` index plane, as a union-find forest over pixel positions:
/// two pixels share a root exactly when a walk of equal-index 4-neighbours
/// joins them.
pub fn components(width: usize, height: usize, indices: &[u32]) -> (p: Vec<u32>)
    requires
        indices@.len() == width * height,
        width * height <= u32::MAX,
    ensures
        p@.len() == indices@.len(),
        is_forest(p@),
        roots_keep_index(p@, indices@),
        neighbours_joined(p@, width as int, indices@, indices@.len() as int),
        roots_connected(p@, width as int, indices@),
        forall|a: int, b: int|
            0 <= a < indices@.len() && 0 <= b < indices@.len() ==> ((#[trigger] root_of(p@, a)
                == #[trigger] root_of(p@, b)) <==> connected(width as int, indices@, a, b)),
{
    let n = indices.len();
    let mut parent = singletons(n as u32);
    assert forall|i: int| 0 <= i < parent@.len() implies #[trigger] indices@[root_of(parent@, i)]
        == indices@[i] by {}
    assert forall|i: int| 0 <= i < parent@.len() implies connected(
        width as int,
        indices@,
        i,
        #[trigger] root_of(parent@, i),
    ) by {
        lemma_connected_refl(width as int, indices@, i);
    }
    let mut y: usize = 0;
    let mut row: usize = 0;
    while y < height
        invariant
            n == indices@.len() == width * height,
            n <= u32::MAX,
            parent@.len() == n,
            is_forest(parent@),
            roots_keep_index(parent@, indices@),
            roots_connected(parent@, width as int, indices@),
            y <= height,
            row == y * width,
            neighbours_joined(parent@, width as int, indices@, row as int),
        decreases height - y,
    {
        assert(row + width <= n) by (nonlinear_arith)
            requires
                row == y * width,
                y < height,
                n == width * height,
        ;
        let mut x: usize = 0;
        while x < width
            invariant
                n == indices@.len() == width * height,
                n <= u32::MAX,
                parent@.len() == n,
                is_forest(parent@),
                roots_keep_index(parent@, indices@),
                roots_connected(parent@, width as int, indices@),
                y < height,
                row == y * width,
                row + width <= n,
                x <= width,
                neighbours_joined(parent@, width as int, indices@, row + x),
            decreases width - x,
        {
            let p = row + x;
            let ghost q = p as int;
            assert(q % (width as int) == x as int) by (nonlinear_arith)
                requires
                    q == y * width + x,
                    x < width,
            ;
            let idx = indices[p];
            if x + 1 < width && indices[p + 1] == idx {
                proof {
                    lemma_union_keeps_index(parent@, indices@, p as int, (p + 1) as int);
                }
                let ghost before = parent@;
                union(&mut parent, p as u32, (p + 1) as u32);
                proof {
                    lemma_union_keeps_joins(before, parent@, p as int, (p + 1) as int);
                    assert(joins_right(width as int, indices@, p as int));
                    lemma_union_keeps_connected(
                        before,
                        parent@,
                        width as int,
                        indices@,
                        p as int,
                        (p + 1) as int,
                    );
                }
            }
            if y + 1 < height {
                assert(p + width < n) by (nonlinear_arith)
                    requires
                        p == y * width + x,
                        x < width,
                        y + 1 < height,
                        n == width * height,
                ;
                if indices[p + width] == idx {
                    proof {
                        lemma_union_keeps_index(parent@, indices@, p as int, (p + width) as int);
                    }
                    let ghost before = parent@;
                    union(&mut parent, p as u32, (p + width) as u32);
                    proof {
                        lemma_union_keeps_joins(before, parent@, p as int, (p + width) as int);
                        assert(joins_down(width as int, indices@, p as int));
                        lemma_union_keeps_connected(
                            before,
                            parent@,
                            width as int,
                            indices@,
                            p as int,
                            (p + width) as int,
                        );
                    }
                }
            } else {
                proof {
                    if p + width < n {
                        assert(y + 1 < height) by (nonlinear_arith)
                            requires
                                p == y * width + x,
                                p + width < n,
                                n == width * height,
                                x < width,
                        ;
                    }
                }
            }
            proof {
                let k = (row + x) as int;
                assert forall|r: int| 0 <= r < k + 1 implies (#[trigger] joins_right(
                    width as int,
                    indices@,
                    r,
                ) ==> root_of(parent@, r) == root_of(parent@, r + 1)) && (joins_down(
                    width as int,
                    indices@,
                    r,
                ) ==> root_of(parent@, r) == root_of(parent@, r + width)) by {
                    if r < k {
                        assert(joins_right(width as int, indices@, r) ==> root_of(parent@, r)
                            == root_of(parent@, r + 1));
                    }
                }
            }
            x = x + 1;
        }
        proof {
            assert(row + width == (y + 1) * width) by (nonlinear_arith)
                requires
                    row == y * width,
            ;
        }
        row = row + width;
        y = y + 1;
    }
    assert(row == n) by (nonlinear_arith)
        requires
            row == y * width,
            y == height,
            n == width * height,
    ;
    assert forall|a: int, b: int| 0 <= a < n && 0 <= b < n implies ((#[trigger] root_of(parent@, a)
        == #[trigger] root_of(parent@, b)) <==> connected(width as int, indices@, a, b)) by {
        lemma_components_are_connectivity(parent@, width as int, indices@, a, b);
    }
    parent
}

/// Joining two nodes of equal index keeps every node's index equal to its root's.
proof fn lemma_union_keeps_index(p: Seq<u32>, indices: Seq<u32>, a: int, b: int)
    requires
        is_forest(p),
        roots_keep_index(p, indices),
        p.len() == indices.len(),
        0 <= a < p.len(),
        0 <= b < p.len(),
        indices[a] == indices[b],
    ensures
        forall|q: Seq<u32>|
            #![trigger roots_keep_index(q, indices)]
            q.len() == p.len() && (forall|i: int|
                0 <= i < q.len() ==> #[trigger] root_of(q, i) == {
                    let ra = root_of(p, a);
                    let rb = root_of(p, b);
                    let ri = root_of(p, i);
                    if ri == ra || ri == rb {
                        if ra < rb {
                            ra
                        } else {
                            rb
                        }
                    } else {
                        ri
                    }
                }) ==> roots_keep_index(q, indices),
{
    assert(indices[root_of(p, a)] == indices[a]);
    assert(indices[root_of(p, b)] == indices[b]);
}

/// A union keeps nodes that shared a root together, and puts its two nodes
/// together.
proof fn lemma_union_keeps_joins(p: Seq<u32>, q: Seq<u32>, a: int, b: int)
    requires
        q.len() == p.len(),
        0 <= a < p.len(),
        0 <= b < p.len(),
        forall|i: int|
            0 <= i < q.len() ==> #[trigger] root_of(q, i) == {
                let ra = root_of(p, a);
                let rb = root_of(p, b);
                let ri = root_of(p, i);
                if ri == ra || ri == rb {
                    if ra < rb {
                        ra
                    } else {
                        rb
                    }
                } else {
                    ri
                }
            },
    ensures
        root_of(q, a) == root_of(q, b),
        forall|i: int, j: int|
            0 <= i < p.len() && 0 <= j < p.len() && root_of(p, i) == root_of(p, j) ==> #[trigger] root_of(
                q,
                i,
            ) == #[trigger] root_of(q, j),
{
    assert(root_of(q, a) == root_of(q, a));
    assert(root_of(q, b) == root_of(q, b));
}

} // verus!
