//! How many leaves lie under each node, and why an index cannot grow tall.
//!
//! Beside the plan of an index the proofs keep a census: for every node the
//! number of leaves under it. A node that is not the root has at least
//! sixteen children, so the count grows sixteenfold from level to level; and
//! every leaf takes up a block of the arena.

use crate::node::{B, SENTINEL};
use crate::shape::{
    absorbed, child_live, child_ok, grown, inner_split, key_in, leaf_split, lemma_absorb,
    lemma_absorbed_slots, lemma_half_moved, lemma_inner_split_arena, lemma_put_in,
    lemma_same_node, link, no_parent, node_ok, pending, ptr_in, put_in, rank_at, same_node, sound,
    sound_but, NodeInfo, Plan,
};
use vstd::prelude::*;

verus! {

/// For every node the number of leaves under it, and the number of all
/// leaves.
pub struct Census {
    pub sizes: Map<int, nat>,
    pub leaves: nat,
}

/// Sixteen to the power of `n`.
pub open spec fn pow16(n: nat) -> nat
    decreases n,
{
    if n == 0 {
        1
    } else {
        16 * pow16((n - 1) as nat)
    }
}

/// The fewest leaves that lie under a node: two subtrees under a root that
/// is no leaf, sixteen under every other internal node.
pub open spec fn least_size(info: NodeInfo) -> nat {
    if info.level <= 1 {
        1
    } else if info.parent == no_parent() {
        2 * pow16((info.level - 2) as nat)
    } else {
        pow16((info.level - 1) as nat)
    }
}

/// The leaves under the children of the node at `c` that its first `j` child
/// slots refer to.
pub open spec fn kids(arena: Seq<i32>, sizes: Map<int, nat>, c: int, j: int) -> nat
    decreases j,
{
    if j <= 0 {
        0
    } else {
        kids(arena, sizes, c, j - 1) + if child_live(arena, c, j - 1) {
            sizes[ptr_in(arena, c, j - 1)]
        } else {
            0
        }
    }
}

/// The count of the node at `c` is right: one for a leaf, and for an
/// internal node what its children count together.
pub open spec fn size_ok(arena: Seq<i32>, nodes: Map<int, NodeInfo>, sizes: Map<int, nat>, c: int) -> bool {
    &&& sizes.contains_key(c)
    &&& sizes[c] >= least_size(nodes[c])
    &&& if nodes[c].level == 1 {
        sizes[c] == 1
    } else {
        sizes[c] == kids(arena, sizes, c, B as int)
    }
}

/// Every node but those of `skip` is counted right.
pub open spec fn sizes_ok(
    arena: Seq<i32>,
    nodes: Map<int, NodeInfo>,
    sizes: Map<int, nat>,
    skip: Set<int>,
) -> bool {
    forall|c: int| #[trigger]
        nodes.contains_key(c) && !skip.contains(c) ==> size_ok(arena, nodes, sizes, c)
}

/// The census of a sound index.
pub closed spec fn counted(st: Plan, cs: Census) -> bool {
    &&& sizes_ok(st.arena, st.nodes, cs.sizes, Set::empty())
    &&& cs.sizes[st.root] == cs.leaves
    &&& B * cs.leaves <= st.n_tree
}

/// The census between the split of the node at `c` and the arrival of its
/// new sibling `q` in the node `k` above, which counts `q` already. Where
/// `k` is negative, `c` is the root.
pub closed spec fn counting(st: Plan, cs: Census, k: int, c: int, q: int) -> bool {
    &&& B * cs.leaves <= st.n_tree
    &&& cs.sizes.contains_key(c)
    &&& cs.sizes.contains_key(q)
    &&& cs.sizes[c] >= pow16((st.nodes[c].level - 1) as nat)
    &&& cs.sizes[q] >= pow16((st.nodes[c].level - 1) as nat)
    &&& if k < 0 {
        &&& sizes_ok(st.arena, st.nodes, cs.sizes, Set::empty().insert(c))
        &&& cs.sizes[c] + cs.sizes[q] == cs.leaves
        &&& if st.nodes[c].level == 1 {
            cs.sizes[c] == 1
        } else {
            cs.sizes[c] == kids(st.arena, cs.sizes, c, B as int)
        }
    } else {
        &&& sizes_ok(st.arena, st.nodes, cs.sizes, Set::empty().insert(k))
        &&& cs.sizes[st.root] == cs.leaves
        &&& cs.sizes.contains_key(k)
        &&& cs.sizes[k] >= least_size(st.nodes[k])
        &&& cs.sizes[k] == kids(st.arena, cs.sizes, k, B as int) + cs.sizes[q]
    }
}

/// The children count the same where neither the node nor their counts
/// change.
pub proof fn lemma_kids_same(
    a0: Seq<i32>,
    z0: Map<int, nat>,
    a1: Seq<i32>,
    z1: Map<int, nat>,
    c: int,
    j: int,
)
    requires
        j <= B,
        same_node(a0, a1, c, 2),
        forall|i: int|
            0 <= i < j && #[trigger] child_live(a0, c, i) ==> z1[ptr_in(a0, c, i)] == z0[ptr_in(
                a0,
                c,
                i,
            )],
    ensures
        kids(a1, z1, c, j) == kids(a0, z0, c, j),
    decreases j,
{
    if j > 0 {
        lemma_kids_same(a0, z0, a1, z1, c, j - 1);
        if j - 1 > 0 {
            assert(key_in(a1, c, j - 2) == key_in(a0, c, j - 2));
        }
        assert(ptr_in(a1, c, j - 1) == ptr_in(a0, c, j - 1));
        if child_live(a0, c, j - 1) {
        }
    }
}

/// One more leaf under the child at slot `i` is one more leaf under the
/// children together.
pub proof fn lemma_kids_bump(arena: Seq<i32>, z0: Map<int, nat>, z1: Map<int, nat>, c: int, j: int, i: int)
    requires
        0 <= i,
        child_live(arena, c, i),
        z1[ptr_in(arena, c, i)] == z0[ptr_in(arena, c, i)] + 1,
        forall|e: int|
            0 <= e < j && e != i && #[trigger] child_live(arena, c, e) ==> z1[ptr_in(arena, c, e)]
                == z0[ptr_in(arena, c, e)],
    ensures
        kids(arena, z1, c, j) == kids(arena, z0, c, j) + if i < j {
            1nat
        } else {
            0nat
        },
    decreases j,
{
    if j > 0 {
        lemma_kids_bump(arena, z0, z1, c, j - 1, i);
        if j - 1 != i && child_live(arena, c, j - 1) {
        }
    }
}

/// Children that count at least `m` each count at least `m` times their
/// number together.
pub proof fn lemma_kids_least(arena: Seq<i32>, sizes: Map<int, nat>, c: int, from: int, j: int, m: nat)
    requires
        0 <= from <= j,
        forall|e: int| from <= e < j ==> #[trigger] child_live(arena, c, e),
        forall|e: int|
            from <= e < j && #[trigger] child_live(arena, c, e) ==> sizes[ptr_in(arena, c, e)] >= m,
    ensures
        kids(arena, sizes, c, j) >= kids(arena, sizes, c, from) + (j - from) * m,
    decreases j - from,
{
    if j > from {
        lemma_kids_least(arena, sizes, c, from, j - 1, m);
        assert(child_live(arena, c, j - 1));
        assert((j - 1 - from) * m + m == (j - from) * m) by (nonlinear_arith);
    } else {
        assert((j - from) * m == 0) by (nonlinear_arith)
            requires
                j == from,
        ;
    }
}

/// The change of the count of one child is the change of the children's
/// count together.
pub proof fn lemma_kids_change(
    arena: Seq<i32>,
    z0: Map<int, nat>,
    z1: Map<int, nat>,
    c: int,
    j: int,
    i: int,
)
    requires
        0 <= i,
        child_live(arena, c, i),
        forall|e: int|
            0 <= e < j && e != i && #[trigger] child_live(arena, c, e) ==> z1[ptr_in(arena, c, e)]
                == z0[ptr_in(arena, c, e)],
    ensures
        kids(arena, z1, c, j) - kids(arena, z0, c, j) == if i < j {
            z1[ptr_in(arena, c, i)] - z0[ptr_in(arena, c, i)]
        } else {
            0
        },
    decreases j,
{
    if j > 0 {
        lemma_kids_change(arena, z0, z1, c, j - 1, i);
        if j - 1 != i && child_live(arena, c, j - 1) {
        }
    }
}

/// Child slots that are not in use count nothing.
pub proof fn lemma_kids_end(arena: Seq<i32>, sizes: Map<int, nat>, c: int, from: int, j: int)
    requires
        0 <= from <= j,
        forall|e: int| from <= e < j ==> !#[trigger] child_live(arena, c, e),
    ensures
        kids(arena, sizes, c, j) == kids(arena, sizes, c, from),
    decreases j - from,
{
    if j > from {
        lemma_kids_end(arena, sizes, c, from, j - 1);
        assert(!child_live(arena, c, j - 1));
    }
}

/// The counts stay right where neither the slots of the internal nodes nor
/// any count changes.
pub proof fn lemma_sizes_frame(
    a0: Seq<i32>,
    a1: Seq<i32>,
    n0: Map<int, NodeInfo>,
    n1: Map<int, NodeInfo>,
    sizes: Map<int, nat>,
    skip: Set<int>,
)
    requires
        sizes_ok(a0, n0, sizes, skip),
        forall|d: int| #[trigger]
            n1.contains_key(d) && !skip.contains(d) ==> {
                &&& n0.contains_key(d)
                &&& n1[d].level == n0[d].level
                &&& least_size(n1[d]) == least_size(n0[d])
                &&& n0[d].level != 1 ==> same_node(a0, a1, d, 2)
            },
    ensures
        sizes_ok(a1, n1, sizes, skip),
{
    assert forall|d: int| #[trigger] n1.contains_key(d) && !skip.contains(d) implies size_ok(
        a1,
        n1,
        sizes,
        d,
    ) by {
        assert(size_ok(a0, n0, sizes, d));
        if n0[d].level != 1 {
            lemma_kids_same(a0, sizes, a1, sizes, d, B as int);
        }
    }
}

/// The census of an index that holds no key yet: one leaf.
pub open spec fn first_census() -> Census {
    Census { sizes: Map::<int, nat>::empty().insert(0, 1), leaves: 1 }
}

/// The first census is the census of an index that holds no key yet.
pub proof fn lemma_count_first(st: Plan)
    requires
        st.nodes == Map::<int, NodeInfo>::empty().insert(0, crate::shape::root_info(1, SENTINEL as int)),
        st.root == 0,
        st.n_tree == B,
    ensures
        counted(st, first_census()),
{
    assert(pow16(0) == 1);
}

/// Putting a key into a leaf changes no count.
pub proof fn lemma_count_leaf_insert(st: Plan, cs: Census, c: usize, x: i32)
    requires
        sound(st),
        counted(st, cs),
        st.nodes.contains_key(c as int),
        st.nodes[c as int].level == 1,
    ensures
        counted(Plan { arena: put_in(st.arena, c, rank_at(st.arena, c, x), x), ..st }, cs),
{
    let a0 = st.arena;
    let i = rank_at(a0, c, x);
    let a1 = put_in(a0, c, i, x);
    crate::shape::lemma_rank_at(a0, c, x);
    assert(node_ok(a0, st.nodes, c as int));
    if i > B - 1 {
        assert(key_in(a0, c as int, B - 1) < x);
    }
    lemma_put_in(a0, c, i, x);
    assert forall|d: int| #[trigger] st.nodes.contains_key(d) && st.nodes[d].level != 1 implies same_node(
        a0,
        a1,
        d,
        2,
    ) by {
        assert(st.nodes.contains_key(c as int));
        lemma_same_node(a0, a1, d, 2);
    }
    lemma_sizes_frame(a0, a1, st.nodes, st.nodes, cs.sizes, Set::empty());
}

/// The arrival of the sibling in the node above sets the census right.
pub proof fn lemma_count_absorb(p: Plan, cs: Census, k: usize, i: int, c: int, v: i32, q: int, h: int)
    requires
        pending(p, k as int, i, c, v, q, h),
        counting(p, cs, k as int, c, q),
    ensures
        counted(absorbed(p, k, i, v, q), cs),
{
    let kk = k as int;
    let a0 = p.arena;
    let n0 = p.nodes;
    let st3 = absorbed(p, k, i, v, q);
    let a3 = st3.arena;
    let n3 = st3.nodes;
    let z = cs.sizes;
    lemma_absorb(p, k, i, c, v, q, h);
    lemma_absorbed_slots(p, k, i, v, q);
    assert(n0.contains_key(kk));
    assert(n0.contains_key(q));
    assert forall|d: int| #[trigger] n3.contains_key(d) && d != kk implies n0.contains_key(d)
        && n3[d].level == n0[d].level && least_size(n3[d]) == least_size(n0[d]) && (n0[d].level
        != 1 ==> same_node(a0, a3, d, 2)) by {
        assert(n0.contains_key(d));
        if n0[d].level != 1 {
            assert(n0.contains_key(kk));
            lemma_same_node(a0, a3, d, 2);
        }
    }
    lemma_sizes_frame(a0, a3, n0, n3, z, Set::empty().insert(kk));
    // the node itself
    lemma_kids_absorbed(a0, a3, z, kk, i, q, B as int);
    assert(!child_live(a0, kk, B - 1));
    assert(kids(a0, z, kk, B as int) == kids(a0, z, kk, B - 1));
    assert(size_ok(a3, n3, z, kk));
    assert(n3.contains_key(p.root));
}

/// The children of a node that has taken in a sibling at child slot `i + 1`
/// count what they counted, and the sibling.
pub proof fn lemma_kids_absorbed(
    a0: Seq<i32>,
    a3: Seq<i32>,
    z: Map<int, nat>,
    k: int,
    i: int,
    q: int,
    j: int,
)
    requires
        0 <= i <= B - 2,
        0 <= j <= B,
        forall|s: int|
            0 <= s < B ==> #[trigger] key_in(a3, k, s) == if s < i {
                key_in(a0, k, s)
            } else if s == i {
                key_in(a3, k, i)
            } else {
                key_in(a0, k, s - 1)
            },
        key_in(a3, k, i) < SENTINEL,
        forall|e: int|
            0 <= e < B ==> #[trigger] ptr_in(a3, k, e) == if e < i + 1 {
                ptr_in(a0, k, e)
            } else if e == i + 1 {
                q
            } else {
                ptr_in(a0, k, e - 1)
            },
    ensures
        kids(a3, z, k, j) == if j <= i + 1 {
            kids(a0, z, k, j)
        } else {
            kids(a0, z, k, j - 1) + z[q]
        },
    decreases j,
{
    if j > 0 {
        lemma_kids_absorbed(a0, a3, z, k, i, q, j - 1);
        let e = j - 1;
        assert(ptr_in(a3, k, e) == if e < i + 1 {
            ptr_in(a0, k, e)
        } else if e == i + 1 {
            q
        } else {
            ptr_in(a0, k, e - 1)
        });
        if e > 0 {
            assert(key_in(a3, k, e - 1) == if e - 1 < i {
                key_in(a0, k, e - 1)
            } else if e - 1 == i {
                key_in(a3, k, i)
            } else {
                key_in(a0, k, e - 2)
            });
        }
    }
}

/// The census after a new root has come above a split root: the new root
/// counts what its two children count.
pub open spec fn grown_census(p: Plan, cs: Census, q: int) -> Census {
    Census { sizes: cs.sizes.insert(p.n_tree, cs.sizes[p.root] + cs.sizes[q]), ..cs }
}

/// A new root above a split root sets the census right.
pub proof fn lemma_count_grow(p: Plan, cs: Census, i: int, v: i32, q: int)
    requires
        pending(p, no_parent(), i, p.root, v, q, SENTINEL as int),
        counting(p, cs, no_parent(), p.root, q),
        p.n_tree + 2 * B <= p.arena.len(),
    ensures
        counted(grown(p, v, q), grown_census(p, cs, q)),
{
    let a0 = p.arena;
    let n0 = p.nodes;
    let z0 = cs.sizes;
    let st5 = grown(p, v, q);
    let a5 = st5.arena;
    let n5 = st5.nodes;
    let z5 = grown_census(p, cs, q).sizes;
    let n = p.n_tree;
    let r = p.root;
    assert(n0.contains_key(r));
    assert(n0.contains_key(q));
    assert(!n0.contains_key(n));
    assert(r as i32 as int == r);
    assert(q as i32 as int == q);
    assert forall|j: int| 0 <= j < n implies a5[j] == a0[j] by {}
    assert forall|s: int| 0 <= s < B implies #[trigger] key_in(a5, n, s) == if s == 0 {
        v
    } else {
        SENTINEL
    } by {
        assert(a0[n + s] == SENTINEL);
    }
    assert(ptr_in(a5, n, 0) == r);
    assert(ptr_in(a5, n, 1) == q);
    assert forall|d: int| #[trigger] n5.contains_key(d) implies size_ok(a5, n5, z5, d) by {
        if d == n {
            assert(child_live(a5, n, 0));
            assert(key_in(a5, n, 0) == v);
            assert(child_live(a5, n, 1));
            assert(kids(a5, z5, n, 2) == z5[r] + z5[q]) by {
                assert(kids(a5, z5, n, 0) == 0);
                assert(kids(a5, z5, n, 1) == z5[r]);
            }
            assert forall|e: int| 2 <= e < B implies !#[trigger] child_live(a5, n, e) by {
                assert(key_in(a5, n, e - 1) == SENTINEL);
            }
            lemma_kids_end(a5, z5, n, 2, B as int);
        } else {
            assert(n0.contains_key(d));
            assert(node_ok(a0, n0, d));
            if n0[d].level != 1 {
                lemma_same_node(a0, a5, d, 2);
                assert forall|e: int| 0 <= e < B && #[trigger] child_live(a0, d, e) implies z5[ptr_in(
                    a0,
                    d,
                    e,
                )] == z0[ptr_in(a0, d, e)] by {
                    assert(child_ok(a0, n0, d, e));
                }
                lemma_kids_same(a0, z0, a5, z5, d, B as int);
            }
            if d != r {
                assert(size_ok(a0, n0, z0, d));
            }
        }
    }
}

/// The census after the full internal node at `k` has split: each half
/// counts what its children count.
pub open spec fn inner_split_census(p: Plan, cs: Census, k: int) -> Census {
    let lower = kids(p.arena, cs.sizes, k, (B / 2) as int);
    let all = kids(p.arena, cs.sizes, k, B as int);
    Census { sizes: cs.sizes.insert(k, lower).insert(p.n_tree, (all - lower) as nat), ..cs }
}

/// The children in the upper half of a node count, in the node that they
/// move to, what they counted where they were.
pub proof fn lemma_kids_moved(
    a3: Seq<i32>,
    a4: Seq<i32>,
    z3: Map<int, nat>,
    z4: Map<int, nat>,
    k: int,
    n: int,
    j: int,
)
    requires
        0 <= j <= B / 2,
        key_in(a3, k, B / 2 - 1) < SENTINEL,
        forall|s: int|
            0 <= s < B / 2 ==> #[trigger] key_in(a4, n, s) == key_in(a3, k, s + B / 2),
        forall|e: int| 0 <= e < B / 2 ==> #[trigger] ptr_in(a4, n, e) == ptr_in(a3, k, e + B / 2),
        forall|e: int|
            B / 2 <= e < B && #[trigger] child_live(a3, k, e) ==> z4[ptr_in(a3, k, e)] == z3[ptr_in(
                a3,
                k,
                e,
            )],
    ensures
        kids(a4, z4, n, j) == kids(a3, z3, k, j + B / 2) - kids(a3, z3, k, (B / 2) as int),
    decreases j,
{
    if j > 0 {
        lemma_kids_moved(a3, a4, z3, z4, k, n, j - 1);
        let e = j - 1;
        assert(ptr_in(a4, n, e) == ptr_in(a3, k, e + B / 2));
        if e > 0 {
            assert(key_in(a4, n, e - 1) == key_in(a3, k, e - 1 + B / 2));
        }
        assert(child_live(a4, n, e) == child_live(a3, k, e + B / 2));
        if child_live(a3, k, e + B / 2) {
        }
    }
}

/// The split of an internal node leaves the census right but for the node
/// above, which counts the new node already.
#[verifier::rlimit(30)]
pub proof fn lemma_count_inner_split(p: Plan, cs: Census, k: int, g: int, ig: int)
    requires
        sound_but(p, k),
        p.nodes[k].level != 1,
        crate::shape::inner_loose(p.arena, p.nodes, k),
        key_in(p.arena, k, B - 2) < SENTINEL,
        p.n_tree + 2 * B <= p.arena.len(),
        g < 0 ==> k == p.root,
        g >= 0 ==> p.nodes.contains_key(g) && p.nodes[g].level != 1 && link(p.arena, g, ig, k),
        counted(p, cs),
    ensures
        counting(inner_split(p, k), inner_split_census(p, cs, k), g, k, p.n_tree),
{
    let a3 = p.arena;
    let n3 = p.nodes;
    let z3 = cs.sizes;
    let st4 = inner_split(p, k);
    let a4 = st4.arena;
    let n4 = st4.nodes;
    let cs4 = inner_split_census(p, cs, k);
    let z4 = cs4.sizes;
    let n = p.n_tree;
    let level = n3[k].level;
    let m = pow16((level - 2) as nat);
    crate::shape::lemma_inner_split(p, k, g, ig);
    lemma_inner_split_arena(a3, k, n);
    assert(n3.contains_key(k));
    assert(!n3.contains_key(n));
    assert(size_ok(a3, n3, z3, k));
    if n3[k].parent == k {
        assert(n3[n3[k].parent].level == n3[k].level + 1);
    }
    // every child slot of the full node is in use, and each child counts its share
    assert forall|e: int| 0 <= e < B implies #[trigger] child_live(a3, k, e) by {
        if e > 0 {
            assert(key_in(a3, k, e - 1) <= key_in(a3, k, B - 2));
        }
    }
    assert forall|e: int| 0 <= e < B && #[trigger] child_live(a3, k, e) implies z3[ptr_in(a3, k, e)]
        >= m && z4[ptr_in(a3, k, e)] == z3[ptr_in(a3, k, e)] by {
        assert(child_ok(a3, n3, k, e));
        let q = ptr_in(a3, k, e);
        assert(n3.contains_key(q));
        assert(size_ok(a3, n3, z3, q));
    }
    lemma_kids_least(a3, z3, k, 0, (B / 2) as int, m);
    lemma_kids_least(a3, z3, k, (B / 2) as int, B as int, m);
    assert(16 * m == pow16((level - 1) as nat));
    let lower = kids(a3, z3, k, (B / 2) as int);
    let all = kids(a3, z3, k, B as int);
    assert(kids(a3, z3, k, 0) == 0);
    assert(z4[k] == lower);
    assert(z4[n] == all - lower);
    // the lower half
    assert(kids(a4, z4, k, B as int) == lower) by {
        assert forall|s: int| 0 <= s < B implies #[trigger] key_in(a4, k, s) == if s < B / 2 - 1 {
            key_in(a3, k, s)
        } else {
            SENTINEL
        } by {}
        assert forall|e: int| B / 2 <= e < B implies !#[trigger] child_live(a4, k, e) by {
            assert(key_in(a4, k, e - 1) == SENTINEL);
        }
        lemma_kids_end(a4, z4, k, (B / 2) as int, B as int);
        lemma_kids_front(a3, a4, z3, z4, k, (B / 2) as int);
    }
    // the upper half
    assert(kids(a4, z4, n, B as int) == all - lower) by {
        assert forall|s: int| B / 2 <= s < B implies #[trigger] key_in(a4, n, s) == SENTINEL by {
            assert(a3[n + s] == SENTINEL);
        }
        assert(key_in(a4, n, B / 2 - 1) == key_in(a3, k, B - 1));
        assert forall|e: int| B / 2 <= e < B implies !#[trigger] child_live(a4, n, e) by {
            assert(key_in(a4, n, e - 1) == SENTINEL);
        }
        lemma_kids_end(a4, z4, n, (B / 2) as int, B as int);
        assert(key_in(a3, k, B / 2 - 1) <= key_in(a3, k, B - 2));
        lemma_kids_moved(a3, a4, z3, z4, k, n, (B / 2) as int);
    }
    // the others
    assert forall|d: int| #[trigger] n4.contains_key(d) && d != k && d != n && d != g implies size_ok(
        a4,
        n4,
        z4,
        d,
    ) by {
        assert(n3.contains_key(d));
        assert(size_ok(a3, n3, z3, d));
        assert(node_ok(a3, n3, d));
        if n3[d].level != 1 {
            lemma_same_node(a3, a4, d, 2);
            assert forall|e: int| 0 <= e < B && #[trigger] child_live(a3, d, e) implies z4[ptr_in(
                a3,
                d,
                e,
            )] == z3[ptr_in(a3, d, e)] by {
                assert(child_ok(a3, n3, d, e));
                if g >= 0 {
                    assert(node_ok(a3, n3, g));
                    assert(child_live(a3, g, ig));
                    assert(child_ok(a3, n3, g, ig));
                }
            }
            lemma_kids_same(a3, z3, a4, z4, d, B as int);
        }
    }
    if g >= 0 {
        assert(node_ok(a3, n3, g));
        assert(child_live(a3, g, ig));
        assert(child_ok(a3, n3, g, ig));
        assert(size_ok(a3, n3, z3, g));
        lemma_same_node(a3, a4, g, 2);
        assert(n4[g] == n3[g]) by {
            if n3[g].parent == k {
                assert(n3[n3[g].parent].level == n3[g].level + 1);
            }
        }
        assert forall|e: int| 0 <= e < B && e != ig && #[trigger] child_live(a3, g, e) implies z4[ptr_in(
            a3,
            g,
            e,
        )] == z3[ptr_in(a3, g, e)] by {
            assert(child_ok(a3, n3, g, e));
        }
        lemma_kids_change(a3, z3, z4, g, B as int, ig);
        lemma_kids_same(a3, z4, a4, z4, g, B as int);
        assert(n4.contains_key(p.root));
        assert(p.root != k);
        assert(z4[p.root] == z3[p.root]);
    }
    assert(n4[k].level == level);
}

/// The children in the lower half of a node that has split count what they
/// counted.
pub proof fn lemma_kids_front(
    a3: Seq<i32>,
    a4: Seq<i32>,
    z3: Map<int, nat>,
    z4: Map<int, nat>,
    k: int,
    j: int,
)
    requires
        0 <= j <= B / 2,
        forall|s: int| 0 <= s < B / 2 - 1 ==> #[trigger] key_in(a4, k, s) == key_in(a3, k, s),
        forall|e: int| 0 <= e < B / 2 ==> #[trigger] ptr_in(a4, k, e) == ptr_in(a3, k, e),
        forall|e: int|
            0 <= e < B / 2 && #[trigger] child_live(a3, k, e) ==> z4[ptr_in(a3, k, e)] == z3[ptr_in(
                a3,
                k,
                e,
            )],
    ensures
        kids(a4, z4, k, j) == kids(a3, z3, k, j),
    decreases j,
{
    if j > 0 {
        lemma_kids_front(a3, a4, z3, z4, k, j - 1);
        let e = j - 1;
        assert(ptr_in(a4, k, e) == ptr_in(a3, k, e));
        if e > 0 {
            assert(key_in(a4, k, e - 1) == key_in(a3, k, e - 1));
        }
        if child_live(a3, k, e) {
        }
    }
}

/// Whether the trail `t` passed through the node `t[d]` at depth `d`, and
/// went on from its child slot `si[d]` to `t[d + 1]`.
pub open spec fn passed(st: Plan, t: Seq<int>, si: Seq<int>, d: int) -> bool {
    &&& st.nodes.contains_key(t[d])
    &&& st.nodes[t[d]].level == st.height - d
    &&& link(st.arena, t[d], si[d], t[d + 1])
}

/// Whether `t` is the trail of a descent from the root to the leaf `t[h]`,
/// through the child slots `si`.
pub open spec fn trailed(st: Plan, t: Seq<int>, si: Seq<int>, h: int) -> bool {
    &&& h == st.height - 1
    &&& t.len() == h + 1
    &&& si.len() >= h
    &&& t[0] == st.root
    &&& forall|d: int| 0 <= d < h ==> #[trigger] passed(st, t, si, d)
}

/// Whether `e` is a node of the trail `t` above depth `h`.
pub open spec fn on_trail(st: Plan, t: Seq<int>, h: int, e: int) -> bool {
    0 <= st.height - st.nodes[e].level < h && t[st.height - st.nodes[e].level] == e
}

/// The census after the leaf at the end of the trail `t` has split: one leaf
/// more, under every node of the trail.
pub open spec fn leaf_split_census(st: Plan, cs: Census, t: Seq<int>, h: int) -> Census {
    Census {
        sizes: Map::new(
            |e: int| cs.sizes.contains_key(e) || e == st.n_tree,
            |e: int|
                if e == st.n_tree {
                    1nat
                } else if on_trail(st, t, h, e) {
                    cs.sizes[e] + 1
                } else {
                    cs.sizes[e]
                },
        ),
        leaves: cs.leaves + 1,
    }
}

/// A child of a node is on the trail only if the node is, and then it is the
/// child that the trail went on to.
pub proof fn lemma_trail_child(st: Plan, t: Seq<int>, si: Seq<int>, h: int, c: int, d: int, j: int)
    requires
        sound_but(st, c),
        st.nodes[c].level == 1,
        trailed(st, t, si, h),
        st.nodes.contains_key(d),
        d != c,
        st.nodes[d].level != 1,
        0 <= j < B,
        child_live(st.arena, d, j),
        on_trail(st, t, h, ptr_in(st.arena, d, j)),
    ensures
        on_trail(st, t, h, d),
        j == si[st.height - st.nodes[d].level],
        st.height - st.nodes[d].level < h - 1,
{
    let e = ptr_in(st.arena, d, j);
    assert(node_ok(st.arena, st.nodes, d));
    assert(child_ok(st.arena, st.nodes, d, j));
    let de = st.height - st.nodes[e].level;
    if de == 0 {
        assert(e == st.root);
    } else {
        assert(passed(st, t, si, de - 1));
        let up = t[de - 1];
        assert(st.nodes[up].level >= 2);
        assert(up != c);
        assert(node_ok(st.arena, st.nodes, up));
        assert(child_live(st.arena, up, si[de - 1]));
        assert(child_ok(st.arena, st.nodes, up, si[de - 1]));
    }
}

/// The split of a leaf leaves the census right but for the node above,
/// which counts the new leaf already.
pub proof fn lemma_count_leaf_split(st: Plan, cs: Census, c: int, t: Seq<int>, si: Seq<int>)
    requires
        sound_but(st, c),
        st.nodes[c].level == 1,
        crate::shape::leaf_loose(st.arena, st.nodes[c], c),
        key_in(st.arena, c, B - 2) < SENTINEL,
        st.n_tree + B <= st.arena.len(),
        trailed(st, t, si, st.height - 1),
        t[st.height - 1] == c,
        counted(st, cs),
    ensures
        counting(
            leaf_split(st, c),
            leaf_split_census(st, cs, t, st.height - 1),
            if st.height > 1 {
                t[st.height - 2]
            } else {
                no_parent()
            },
            c,
            st.n_tree,
        ),
{
    let h = st.height - 1;
    let k = if h > 0 {
        t[h - 1]
    } else {
        no_parent()
    };
    let i = if h > 0 {
        si[h - 1]
    } else {
        0
    };
    let a1 = st.arena;
    let n1 = st.nodes;
    let z1 = cs.sizes;
    let st2 = leaf_split(st, c);
    let a2 = st2.arena;
    let n2 = st2.nodes;
    let cs2 = leaf_split_census(st, cs, t, h);
    let z2 = cs2.sizes;
    let q = st.n_tree;
    assert(n1.contains_key(c));
    assert(!n1.contains_key(q));
    if h > 0 {
        assert(passed(st, t, si, h - 1));
    } else {
        assert(c == st.root);
    }
    crate::shape::lemma_leaf_split(st, c, k, i);
    lemma_half_moved(a1, c, q);
    assert(size_ok(a1, n1, z1, c));
    assert(!on_trail(st, t, h, c));
    assert(z2[c] == 1);
    assert(z2[q] == 1);
    assert(pow16(0) == 1);
    assert forall|d: int| #[trigger] n2.contains_key(d) && d != c && d != q implies {
        &&& z2.contains_key(d)
        &&& z2[d] >= least_size(n2[d])
        &&& n2[d].level == 1 ==> z2[d] == 1
        &&& n2[d].level != 1 ==> kids(a2, z2, d, B as int) == kids(a1, z1, d, B as int) + if on_trail(
            st,
            t,
            h,
            d,
        ) && st.height - n1[d].level < h - 1 {
            1nat
        } else {
            0nat
        }
    } by {
        assert(n1.contains_key(d));
        assert(size_ok(a1, n1, z1, d));
        assert(n2[d] == n1[d]);
        if n1[d].level != 1 {
            assert(node_ok(a1, n1, d));
            lemma_same_node(a1, a2, d, 2);
            let dd = st.height - n1[d].level;
            if on_trail(st, t, h, d) && dd < h - 1 {
                assert(passed(st, t, si, dd));
                assert(passed(st, t, si, dd + 1));
                let e = t[dd + 1];
                assert(child_live(a1, d, si[dd]));
                assert(child_ok(a1, n1, d, si[dd]));
                assert(on_trail(st, t, h, e));
                assert forall|j: int|
                    0 <= j < B && j != si[dd] && #[trigger] child_live(a1, d, j) implies z2[ptr_in(
                    a1,
                    d,
                    j,
                )] == z1[ptr_in(a1, d, j)] by {
                    assert(child_ok(a1, n1, d, j));
                    if on_trail(st, t, h, ptr_in(a1, d, j)) {
                        lemma_trail_child(st, t, si, h, c, d, j);
                    }
                }
                lemma_kids_bump(a1, z1, z2, d, B as int, si[dd]);
                lemma_kids_same(a1, z2, a2, z2, d, B as int);
            } else {
                assert forall|j: int| 0 <= j < B && #[trigger] child_live(a1, d, j) implies z2[ptr_in(
                    a1,
                    d,
                    j,
                )] == z1[ptr_in(a1, d, j)] by {
                    assert(child_ok(a1, n1, d, j));
                    if on_trail(st, t, h, ptr_in(a1, d, j)) {
                        lemma_trail_child(st, t, si, h, c, d, j);
                    }
                }
                lemma_kids_same(a1, z1, a2, z2, d, B as int);
            }
        }
    }
    if h > 0 {
        assert(passed(st, t, si, 0));
        assert(on_trail(st, t, h, st.root));
        assert(n2.contains_key(st.root));
        assert(n2.contains_key(k));
        assert(on_trail(st, t, h, k));
        assert(size_ok(a1, n1, z1, k));
    }
}

/// Every power of sixteen from the seventh on is at least the seventh.
pub proof fn lemma_pow16_from_seven(n: nat)
    requires
        n >= 7,
    ensures
        pow16(n) >= 268_435_456,
    decreases n,
{
    if n == 7 {
        assert(pow16(0) == 1);
        assert(pow16(1) == 16);
        assert(pow16(2) == 256);
        assert(pow16(3) == 4_096);
        assert(pow16(4) == 65_536);
        assert(pow16(5) == 1_048_576);
        assert(pow16(6) == 16_777_216);
        assert(pow16(7) == 268_435_456);
    } else {
        lemma_pow16_from_seven((n - 1) as nat);
    }
}

/// An index grows tall only slowly. With two levels or more, the leaves
/// under the root are at least twice sixteen to the power of the levels
/// between the root and the leaves, and each of them takes up a block of
/// the arena: every level more asks for sixteen times the slots. An arena
/// that 32-bit offsets can address has room for eight levels at most.
pub proof fn lemma_tall(st: Plan, cs: Census)
    requires
        sound(st),
        counted(st, cs),
    ensures
        st.height >= 2 ==> 2 * B * pow16((st.height - 2) as nat) <= st.n_tree,
        st.height <= 8,
{
    assert(st.nodes.contains_key(st.root));
    assert(size_ok(st.arena, st.nodes, cs.sizes, st.root));
    if st.height >= 2 {
        let m = pow16((st.height - 2) as nat);
        assert(cs.leaves >= 2 * m);
        assert(2 * B * m <= B * cs.leaves) by (nonlinear_arith)
            requires
                cs.leaves >= 2 * m,
        ;
        if st.height >= 9 {
            lemma_pow16_from_seven((st.height - 2) as nat);
        }
    }
}

} // verus!
