//! What a sound index looks like: the arena read as a tree of nodes, and what
//! each node owes to its place in that tree.
//!
//! The proofs keep, for every node, a record of its level, of the bounds that
//! its keys lie within, and of the child slot that refers to it. The arena and
//! these records together form a `Plan`; the index is sound when the plan is.

use crate::node::{
    ascending, count_below, half_moved, lemma_rank_ascending, node_at, shifted_in, with_slots, B,
    SENTINEL,
};
use vstd::prelude::*;

verus! {

/// What the proof knows of a node: its level (1 for a leaf), the bounds that
/// its keys lie within, both included, and the child slot that refers to it.
pub struct NodeInfo {
    pub level: nat,
    pub lo: int,
    pub hi: int,
    pub parent: int,
    pub slot: int,
}

/// The arena, the records of its nodes, and the index's three counters.
pub struct Plan {
    pub arena: Seq<i32>,
    pub nodes: Map<int, NodeInfo>,
    pub root: int,
    pub n_tree: int,
    pub height: nat,
}

/// The parent recorded for the root.
pub open spec fn no_parent() -> int {
    -1
}

/// The parent recorded for a node that was split off and is not yet referred
/// to by any child slot.
pub open spec fn detached() -> int {
    -2
}

/// A bound below every key.
pub open spec fn below_all() -> int {
    i32::MIN - 1
}

/// Key slot `s` of the node at offset `c`.
pub open spec fn key_in(arena: Seq<i32>, c: int, s: int) -> i32 {
    arena[c + s]
}

/// Child slot `j` of the internal node at offset `c`.
pub open spec fn ptr_in(arena: Seq<i32>, c: int, j: int) -> int {
    arena[c + B + j] as int
}

/// Slots that a node of the given level takes up.
pub open spec fn span(level: nat) -> int {
    if level == 1 {
        B as int
    } else {
        2 * B
    }
}

/// Whether the keys of the node at `c` ascend, equal neighbours allowed.
pub open spec fn sorted_at(arena: Seq<i32>, c: int) -> bool {
    forall|s: int, t: int|
        0 <= s <= t < B ==> #[trigger] key_in(arena, c, s) <= #[trigger] key_in(arena, c, t)
}

/// Whether the keys of the node at `c` lie between `lo` and `hi`.
pub open spec fn bounded_at(arena: Seq<i32>, c: int, lo: int, hi: int) -> bool {
    forall|s: int|
        0 <= s < B && #[trigger] key_in(arena, c, s) < SENTINEL ==> lo <= key_in(arena, c, s) <= hi
}

/// Whether some slot of the node at `c` holds `y`.
pub open spec fn has_key(arena: Seq<i32>, c: int, y: int) -> bool {
    exists|s: int| 0 <= s < B && #[trigger] key_in(arena, c, s) == y
}

/// A leaf but for the room that it must keep: its keys ascend and lie within
/// its bounds, and its upper bound, where it is a key, is one of them.
pub open spec fn leaf_loose(arena: Seq<i32>, info: NodeInfo, c: int) -> bool {
    &&& sorted_at(arena, c)
    &&& bounded_at(arena, c, info.lo, info.hi)
    &&& info.hi < SENTINEL ==> has_key(arena, c, info.hi)
}

/// A sound leaf: it keeps its last slot unused.
pub open spec fn leaf_ok(arena: Seq<i32>, info: NodeInfo, c: int) -> bool {
    &&& leaf_loose(arena, info, c)
    &&& key_in(arena, c, B - 1) == SENTINEL
}

/// Whether child slot `j` is in use: the first is, and each one that follows
/// a key.
pub open spec fn child_live(arena: Seq<i32>, c: int, j: int) -> bool {
    j == 0 || key_in(arena, c, j - 1) < SENTINEL
}

/// The lower bound of child `j`: the key before its slot, or the node's own
/// lower bound for the first child.
pub open spec fn child_lo(arena: Seq<i32>, c: int, lo: int, j: int) -> int {
    if j == 0 {
        lo
    } else {
        key_in(arena, c, j - 1) as int
    }
}

/// The upper bound of child `j`: the key at its slot, or the node's own upper
/// bound for the child behind the last key.
pub open spec fn child_hi(arena: Seq<i32>, c: int, hi: int, j: int) -> int {
    if key_in(arena, c, j) < SENTINEL {
        key_in(arena, c, j) as int
    } else {
        hi
    }
}

/// Child slot `j` of the node at `c` refers to a node one level down whose
/// bounds are the keys on either side of the slot.
pub open spec fn child_ok(arena: Seq<i32>, nodes: Map<int, NodeInfo>, c: int, j: int) -> bool {
    let q = ptr_in(arena, c, j);
    &&& 0 <= q
    &&& nodes.contains_key(q)
    &&& nodes[q] == (NodeInfo {
        level: (nodes[c].level - 1) as nat,
        lo: child_lo(arena, c, nodes[c].lo, j),
        hi: child_hi(arena, c, nodes[c].hi, j),
        parent: c,
        slot: j,
    })
}

/// Every child slot in use refers to a child that fits it.
pub open spec fn children_ok(arena: Seq<i32>, nodes: Map<int, NodeInfo>, c: int) -> bool {
    forall|j: int| 0 <= j < B && #[trigger] child_live(arena, c, j) ==> child_ok(arena, nodes, c, j)
}

/// An internal node but for the room that it must keep.
pub open spec fn inner_loose(arena: Seq<i32>, nodes: Map<int, NodeInfo>, c: int) -> bool {
    &&& sorted_at(arena, c)
    &&& key_in(arena, c, B - 1) == SENTINEL
    &&& bounded_at(arena, c, nodes[c].lo, nodes[c].hi)
    &&& children_ok(arena, nodes, c)
}

/// A sound internal node: it keeps its last two key slots unused.
pub open spec fn inner_ok(arena: Seq<i32>, nodes: Map<int, NodeInfo>, c: int) -> bool {
    &&& inner_loose(arena, nodes, c)
    &&& key_in(arena, c, B - 2) == SENTINEL
}

/// A sound node, leaf or internal by its level.
pub open spec fn node_ok(arena: Seq<i32>, nodes: Map<int, NodeInfo>, c: int) -> bool {
    if nodes[c].level == 1 {
        leaf_ok(arena, nodes[c], c)
    } else {
        inner_ok(arena, nodes, c)
    }
}

/// Every node lies within the used part of the arena, no two overlap, and
/// the unused part holds the sentinel throughout.
pub open spec fn layout_ok(p: Plan) -> bool {
    &&& p.arena.len() <= i32::MAX
    &&& 0 <= p.n_tree <= p.arena.len()
    &&& p.height >= 1
    &&& forall|j: int| p.n_tree <= j < p.arena.len() ==> p.arena[j] == SENTINEL
    &&& forall|c: int| #[trigger]
        p.nodes.contains_key(c) ==> {
            &&& 0 <= c
            &&& p.nodes[c].level >= 1
            &&& c + span(p.nodes[c].level) <= p.n_tree
        }
    &&& forall|c: int, d: int|
        #![trigger p.nodes.contains_key(c), p.nodes.contains_key(d)]
        p.nodes.contains_key(c) && p.nodes.contains_key(d) && c != d ==> {
            ||| c + span(p.nodes[c].level) <= d
            ||| d + span(p.nodes[d].level) <= c
        }
    &&& parents_above(p.nodes)
}

/// The node that a record names as parent exists, one level up.
pub open spec fn parents_above(nodes: Map<int, NodeInfo>) -> bool {
    forall|c: int| #[trigger]
        nodes.contains_key(c) && nodes[c].parent >= 0 ==> {
            &&& nodes.contains_key(nodes[c].parent)
            &&& nodes[nodes[c].parent].level == nodes[c].level + 1
        }
}

/// The key ranges of two leaves meet at their ends at most.
pub open spec fn leaves_ordered(nodes: Map<int, NodeInfo>) -> bool {
    forall|c: int, d: int|
        #![trigger nodes.contains_key(c), nodes.contains_key(d)]
        nodes.contains_key(c) && nodes.contains_key(d) && c != d && nodes[c].level == 1
            && nodes[d].level == 1 ==> {
            ||| nodes[c].hi <= nodes[d].lo
            ||| nodes[d].hi <= nodes[c].lo
        }
}

/// The record of a root whose keys reach up to `hi`.
pub open spec fn root_info(height: nat, hi: int) -> NodeInfo {
    NodeInfo { level: height, lo: below_all(), hi, parent: no_parent(), slot: 0 }
}

/// The root is recorded as the one node of the top level, with all keys
/// within its bounds.
pub open spec fn root_ok(p: Plan) -> bool {
    &&& p.nodes.contains_key(p.root)
    &&& p.nodes[p.root] == root_info(p.height, SENTINEL as int)
}

/// Every node but those of `skip` is sound.
pub open spec fn nodes_ok(arena: Seq<i32>, nodes: Map<int, NodeInfo>, skip: Set<int>) -> bool {
    forall|c: int| #[trigger] nodes.contains_key(c) && !skip.contains(c) ==> node_ok(arena, nodes, c)
}

/// The plan of a sound index.
pub open spec fn sound(p: Plan) -> bool {
    &&& layout_ok(p)
    &&& leaves_ordered(p.nodes)
    &&& root_ok(p)
    &&& nodes_ok(p.arena, p.nodes, Set::empty())
}

/// Sound but for the node at `c`, of which nothing is said.
pub open spec fn sound_but(p: Plan, c: int) -> bool {
    &&& layout_ok(p)
    &&& leaves_ordered(p.nodes)
    &&& root_ok(p)
    &&& nodes_ok(p.arena, p.nodes, set![c])
    &&& p.nodes.contains_key(c)
}

/// Whether some leaf holds `y`.
pub open spec fn held(arena: Seq<i32>, nodes: Map<int, NodeInfo>, y: i32) -> bool {
    exists|c: int, s: int|
        #![trigger nodes.contains_key(c), key_in(arena, c, s)]
        nodes.contains_key(c) && nodes[c].level == 1 && 0 <= s < B && key_in(arena, c, s) == y
}

/// The keys that the leaves hold.
pub open spec fn keys_of(p: Plan) -> Set<i32> {
    Set::new(|y: i32| y < SENTINEL && held(p.arena, p.nodes, y))
}

/// Whether two arenas agree on the node at `c`.
pub open spec fn same_node(a0: Seq<i32>, a1: Seq<i32>, c: int, level: nat) -> bool {
    &&& forall|s: int| 0 <= s < B ==> #[trigger] key_in(a1, c, s) == key_in(a0, c, s)
    &&& level != 1 ==> forall|j: int| 0 <= j < B ==> #[trigger] ptr_in(a1, c, j) == ptr_in(a0, c, j)
}

/// A sound node stays sound where neither its slots nor the records of its
/// children change.
pub proof fn lemma_node_frame(
    a0: Seq<i32>,
    n0: Map<int, NodeInfo>,
    a1: Seq<i32>,
    n1: Map<int, NodeInfo>,
    c: int,
)
    requires
        n0.contains_key(c),
        node_ok(a0, n0, c),
        same_node(a0, a1, c, n0[c].level),
        n1.contains_key(c),
        n1[c].level == n0[c].level,
        n1[c].lo == n0[c].lo,
        n1[c].hi == n0[c].hi,
        forall|q: int| #[trigger]
            n0.contains_key(q) && n0[q].parent == c ==> n1.contains_key(q) && n1[q] == n0[q],
    ensures
        node_ok(a1, n1, c),
{
    if n0[c].level == 1 {
        assert(sorted_at(a1, c)) by {
            assert forall|s: int, t: int| 0 <= s <= t < B implies #[trigger] key_in(a1, c, s)
                <= #[trigger] key_in(a1, c, t) by {
                assert(key_in(a0, c, s) <= key_in(a0, c, t));
            }
        }
        if n0[c].hi < SENTINEL {
            let s = choose|s: int| 0 <= s < B && #[trigger] key_in(a0, c, s) == n0[c].hi;
            assert(key_in(a1, c, s) == n0[c].hi);
        }
    } else {
        assert(sorted_at(a1, c)) by {
            assert forall|s: int, t: int| 0 <= s <= t < B implies #[trigger] key_in(a1, c, s)
                <= #[trigger] key_in(a1, c, t) by {
                assert(key_in(a0, c, s) <= key_in(a0, c, t));
            }
        }
        assert forall|j: int| 0 <= j < B && #[trigger] child_live(a1, c, j) implies child_ok(
            a1,
            n1,
            c,
            j,
        ) by {
            if j > 0 {
                assert(key_in(a1, c, j - 1) == key_in(a0, c, j - 1));
            }
            assert(child_live(a0, c, j));
            assert(child_ok(a0, n0, c, j));
            assert(ptr_in(a1, c, j) == ptr_in(a0, c, j));
            assert(key_in(a1, c, j) == key_in(a0, c, j));
            let q = ptr_in(a0, c, j);
            assert(n0.contains_key(q) && n0[q].parent == c);
        }
    }
}

/// Whether `r` is the lower bound of `x` in `keys`: the least key of the set
/// that is not below `x`, or the sentinel where the set has no such key.
pub open spec fn is_lower_bound(keys: Set<i32>, x: i32, r: i32) -> bool {
    &&& x <= r
    &&& r == SENTINEL || keys.contains(r)
    &&& forall|y: i32| keys.contains(y) && x <= y ==> r <= y
}

/// The node at `k` read slot by slot.
pub proof fn lemma_node_at(arena: Seq<i32>, k: usize)
    requires
        k + B <= arena.len(),
    ensures
        forall|s: int| 0 <= s < B ==> node_at(arena, k)[s] == #[trigger] key_in(arena, k as int, s),
        sorted_at(arena, k as int) ==> ascending(node_at(arena, k)),
{
    let node = node_at(arena, k);
    assert forall|s: int| 0 <= s < B implies node[s] == #[trigger] key_in(arena, k as int, s) by {}
    if sorted_at(arena, k as int) {
        assert forall|s: int, t: int| 0 <= s <= t < node.len() implies node[s] <= node[t] by {
            assert(key_in(arena, k as int, s) <= key_in(arena, k as int, t));
        }
    }
}

/// The rank of `x` in the node at `k`.
pub open spec fn rank_at(arena: Seq<i32>, k: usize, x: i32) -> int {
    count_below(node_at(arena, k), x) as int
}

/// In a node whose keys ascend, the rank of `x` parts the keys below `x` from
/// the others.
pub proof fn lemma_rank_at(arena: Seq<i32>, k: usize, x: i32)
    requires
        k + B <= arena.len(),
        sorted_at(arena, k as int),
    ensures
        0 <= rank_at(arena, k, x) <= B,
        forall|s: int| 0 <= s < rank_at(arena, k, x) ==> #[trigger] key_in(arena, k as int, s) < x,
        forall|s: int| rank_at(arena, k, x) <= s < B ==> #[trigger] key_in(arena, k as int, s) >= x,
{
    lemma_node_at(arena, k);
    let node = node_at(arena, k);
    lemma_rank_ascending(node, x);
    assert forall|s: int| 0 <= s < rank_at(arena, k, x) implies #[trigger] key_in(
        arena,
        k as int,
        s,
    ) < x by {
        assert(node[s] < x);
    }
    assert forall|s: int| rank_at(arena, k, x) <= s < B implies #[trigger] key_in(
        arena,
        k as int,
        s,
    ) >= x by {
        assert(node[s] >= x);
    }
}

/// Whether child slot `i` of the node at `k` is in use and refers to `c`.
pub open spec fn link(arena: Seq<i32>, k: int, i: int, c: int) -> bool {
    &&& 0 <= i <= B - 2
    &&& child_live(arena, k, i)
    &&& ptr_in(arena, k, i) == c
}

/// One step of a descent for `x` leads to a child whose bounds enclose `x`.
pub proof fn lemma_descend(p: Plan, k: usize, x: i32)
    requires
        layout_ok(p),
        p.nodes.contains_key(k as int),
        inner_ok(p.arena, p.nodes, k as int),
        p.nodes[k as int].level > 1,
        p.nodes[k as int].lo < x <= p.nodes[k as int].hi,
    ensures
        ({
            let i = rank_at(p.arena, k, x);
            let q = ptr_in(p.arena, k as int, i);
            &&& k + 2 * B <= p.n_tree
            &&& link(p.arena, k as int, i, q)
            &&& child_ok(p.arena, p.nodes, k as int, i)
            &&& 0 <= q < p.n_tree
            &&& p.nodes.contains_key(q)
            &&& p.nodes[q].level == p.nodes[k as int].level - 1
            &&& p.nodes[q].lo < x <= p.nodes[q].hi
            &&& x <= key_in(p.arena, k as int, i)
        }),
{
    let arena = p.arena;
    let c = k as int;
    lemma_rank_at(arena, k, x);
    let i = rank_at(arena, k, x);
    if i > B - 2 {
        assert(key_in(arena, c, B - 2) < x);
    }
    if i > 0 {
        assert(key_in(arena, c, i - 1) < x);
    }
    assert(key_in(arena, c, i) >= x);
    assert(child_live(arena, c, i));
    assert(child_ok(arena, p.nodes, c, i));
    let q = ptr_in(arena, c, i);
    assert(p.nodes.contains_key(q));
}

/// The slot that a descent for `x` ends at holds the lower bound of `x`.
pub proof fn lemma_leaf_answer(p: Plan, k: usize, x: i32)
    requires
        sound(p),
        p.nodes.contains_key(k as int),
        p.nodes[k as int].level == 1,
        p.nodes[k as int].lo < x <= p.nodes[k as int].hi,
    ensures
        k + B <= p.n_tree,
        0 <= rank_at(p.arena, k, x) <= B - 1,
        is_lower_bound(keys_of(p), x, key_in(p.arena, k as int, rank_at(p.arena, k, x))),
{
    let arena = p.arena;
    let nodes = p.nodes;
    let c = k as int;
    assert(node_ok(arena, nodes, c));
    lemma_rank_at(arena, k, x);
    let i = rank_at(arena, k, x);
    if i > B - 1 {
        assert(key_in(arena, c, B - 1) < x);
    }
    let r = key_in(arena, c, i);
    if r < SENTINEL {
        assert(held(arena, nodes, r));
    }
    assert forall|y: i32| keys_of(p).contains(y) && x <= y implies r <= y by {
        let (d, s) = choose|d: int, s: int|
            #![trigger nodes.contains_key(d), key_in(arena, d, s)]
            nodes.contains_key(d) && nodes[d].level == 1 && 0 <= s < B && key_in(arena, d, s) == y;
        if d == c {
            if s < i {
                assert(key_in(arena, c, s) < x);
            } else {
                assert(key_in(arena, c, i) <= key_in(arena, c, s));
            }
        } else {
            assert(node_ok(arena, nodes, d));
            assert(nodes[d].lo <= key_in(arena, d, s) <= nodes[d].hi);
            assert(nodes[c].hi <= nodes[d].lo || nodes[d].hi <= nodes[c].lo);
            if nodes[c].hi <= nodes[d].lo {
                if r == SENTINEL {
                    assert(nodes[c].hi < SENTINEL);
                    let t = choose|t: int| 0 <= t < B && #[trigger] key_in(arena, c, t) == nodes[c].hi;
                    if t < i {
                        assert(key_in(arena, c, t) < x);
                    } else {
                        assert(key_in(arena, c, i) <= key_in(arena, c, t));
                    }
                } else {
                    assert(r <= nodes[c].hi);
                }
            }
        }
    }
}

/// The keys of an index after `x` has gone in. The sentinel is no key.
pub open spec fn with_key(keys: Set<i32>, x: i32) -> Set<i32> {
    if x < SENTINEL {
        keys.insert(x)
    } else {
        keys
    }
}

/// The keys of an index after the values of `xs` have gone in one after
/// another.
pub open spec fn with_keys(keys: Set<i32>, xs: Seq<i32>) -> Set<i32>
    decreases xs.len(),
{
    if xs.len() == 0 {
        keys
    } else {
        with_key(with_keys(keys, xs.drop_last()), xs.last())
    }
}

/// After insertions into an empty index, the keys are the values that went
/// in, the sentinel left out.
pub proof fn lemma_with_keys(xs: Seq<i32>, y: i32)
    ensures
        with_keys(Set::empty(), xs).contains(y) <==> y < SENTINEL && exists|j: int|
            0 <= j < xs.len() && xs[j] == y,
    decreases xs.len(),
{
    if xs.len() > 0 {
        let front = xs.drop_last();
        lemma_with_keys(front, y);
        if y < SENTINEL && exists|j: int| 0 <= j < xs.len() && xs[j] == y {
            let j = choose|j: int| 0 <= j < xs.len() && xs[j] == y;
            if j < front.len() {
                assert(front[j] == y);
            }
        }
        if with_keys(Set::empty(), front).contains(y) {
            let j = choose|j: int| 0 <= j < front.len() && front[j] == y;
            assert(xs[j] == y);
        }
        if xs.last() == y {
            assert(xs[xs.len() - 1] == y);
        }
    }
}

/// Lookup agrees with insertion. After the values of `xs` have gone into an
/// empty index, whatever their order and however often each came, the lower
/// bound of `k` is the least of them that is not below `k`, and the sentinel
/// where all of them are below `k`.
pub proof fn lemma_lookup_after_inserts(xs: Seq<i32>, k: i32, r: i32)
    requires
        is_lower_bound(with_keys(Set::empty(), xs), k, r),
    ensures
        (forall|j: int| 0 <= j < xs.len() ==> xs[j] < k) ==> r == SENTINEL,
        (exists|j: int| 0 <= j < xs.len() && xs[j] >= k) ==> {
            &&& r >= k
            &&& exists|j: int| 0 <= j < xs.len() && xs[j] == r
            &&& forall|j: int| 0 <= j < xs.len() && xs[j] >= k ==> r <= xs[j]
        },
{
    let keys = with_keys(Set::empty(), xs);
    lemma_with_keys(xs, r);
    if forall|j: int| 0 <= j < xs.len() ==> xs[j] < k {
        if r != SENTINEL {
            let j = choose|j: int| 0 <= j < xs.len() && xs[j] == r;
            assert(xs[j] < k);
        }
    }
    if exists|j: int| 0 <= j < xs.len() && xs[j] >= k {
        let w = choose|j: int| 0 <= j < xs.len() && xs[j] >= k;
        assert forall|j: int| 0 <= j < xs.len() && xs[j] >= k implies r <= xs[j] by {
            lemma_with_keys(xs, xs[j]);
        }
        if r == SENTINEL {
            lemma_with_keys(xs, xs[w]);
            assert(xs[w] == SENTINEL);
        }
    }
}

/// The arena after a value has been put into the block at `k`.
pub open spec fn put_in(arena: Seq<i32>, k: usize, i: int, x: i32) -> Seq<i32> {
    with_slots(arena, k as int, shifted_in(node_at(arena, k), i, x))
}

/// `put_in`, slot by slot.
pub proof fn lemma_put_in(arena: Seq<i32>, k: usize, i: int, x: i32)
    requires
        k + B <= arena.len(),
        0 <= i < B,
    ensures
        put_in(arena, k, i, x).len() == arena.len(),
        forall|j: int|
            0 <= j < arena.len() && !(k <= j < k + B) ==> #[trigger] put_in(arena, k, i, x)[j]
                == arena[j],
        forall|s: int|
            0 <= s < B ==> #[trigger] key_in(put_in(arena, k, i, x), k as int, s) == if s < i {
                key_in(arena, k as int, s)
            } else if s == i {
                x
            } else {
                key_in(arena, k as int, s - 1)
            },
{
    let a1 = put_in(arena, k, i, x);
    let node = node_at(arena, k);
    assert forall|s: int| 0 <= s < B implies #[trigger] key_in(a1, k as int, s) == if s < i {
        key_in(arena, k as int, s)
    } else if s == i {
        x
    } else {
        key_in(arena, k as int, s - 1)
    } by {
        assert(a1[k + s] == shifted_in(node, i, x)[s]);
        if s < i {
            assert(node[s] == arena[k + s]);
        } else if s > i {
            assert(node[s - 1] == arena[k + s - 1]);
        }
    }
}

/// Two arenas that agree on the slots of a node agree on the node.
pub proof fn lemma_same_node(a0: Seq<i32>, a1: Seq<i32>, c: int, level: nat)
    requires
        forall|j: int| c <= j < c + span(level) ==> a1[j] == a0[j],
    ensures
        same_node(a0, a1, c, level),
{
    assert forall|s: int| 0 <= s < B implies #[trigger] key_in(a1, c, s) == key_in(a0, c, s) by {
        assert(a1[c + s] == a0[c + s]);
    }
    if level != 1 {
        assert forall|j: int| 0 <= j < B implies #[trigger] ptr_in(a1, c, j) == ptr_in(a0, c, j) by {
            assert(a1[c + B + j] == a0[c + B + j]);
        }
    }
}

/// What putting `x` into the leaf that a descent for it ends at does to a
/// sound index: the keys gain `x`, and the index stays sound but for the
/// room that the leaf must keep.
pub proof fn lemma_leaf_insert(st0: Plan, c: usize, x: i32)
    requires
        sound(st0),
        st0.nodes.contains_key(c as int),
        st0.nodes[c as int].level == 1,
        st0.nodes[c as int].lo < x <= st0.nodes[c as int].hi,
    ensures
        ({
            let a1 = put_in(st0.arena, c, rank_at(st0.arena, c, x), x);
            let st1 = Plan { arena: a1, ..st0 };
            &&& sound_but(st1, c as int)
            &&& leaf_loose(a1, st0.nodes[c as int], c as int)
            &&& keys_of(st1) == with_key(keys_of(st0), x)
            &&& key_in(st0.arena, c as int, B - 2) == SENTINEL ==> sound(st1)
            &&& key_in(st0.arena, c as int, B - 2) < SENTINEL ==> key_in(a1, c as int, B - 2)
                < SENTINEL
        }),
{
    let a0 = st0.arena;
    let nodes = st0.nodes;
    let k = c as int;
    let i = rank_at(a0, c, x);
    let a1 = put_in(a0, c, i, x);
    let st1 = Plan { arena: a1, ..st0 };
    let info = nodes[k];
    assert(node_ok(a0, nodes, k));
    lemma_rank_at(a0, c, x);
    if i > B - 1 {
        assert(key_in(a0, k, B - 1) < x);
    }
    lemma_put_in(a0, c, i, x);
    assert(sorted_at(a1, k)) by {
        assert forall|s: int, t: int| 0 <= s <= t < B implies #[trigger] key_in(a1, k, s)
            <= #[trigger] key_in(a1, k, t) by {
            if t < i {
                assert(key_in(a0, k, s) <= key_in(a0, k, t));
            } else if t == i {
                if s < i {
                    assert(key_in(a0, k, s) < x);
                }
            } else {
                assert(key_in(a0, k, t - 1) >= x);
                if s < i {
                    assert(key_in(a0, k, s) <= key_in(a0, k, t - 1));
                } else if s > i {
                    assert(key_in(a0, k, s - 1) <= key_in(a0, k, t - 1));
                }
            }
        }
    }
    assert(bounded_at(a1, k, info.lo, info.hi)) by {
        assert forall|s: int| 0 <= s < B && #[trigger] key_in(a1, k, s) < SENTINEL implies info.lo
            <= key_in(a1, k, s) <= info.hi by {
            if s < i {
                assert(key_in(a0, k, s) < SENTINEL);
            } else if s > i {
                assert(key_in(a0, k, s - 1) < SENTINEL);
            }
        }
    }
    if info.hi < SENTINEL {
        let s = choose|s: int| 0 <= s < B && #[trigger] key_in(a0, k, s) == info.hi;
        if s < i {
            assert(key_in(a1, k, s) == info.hi);
        } else {
            assert(key_in(a1, k, s + 1) == info.hi);
        }
    }
    assert forall|d: int| #[trigger] nodes.contains_key(d) && d != k implies node_ok(a1, nodes, d) by {
        assert(node_ok(a0, nodes, d));
        lemma_same_node(a0, a1, d, nodes[d].level);
        if nodes[d].level == 1 {
            lemma_node_frame(a0, nodes, a1, nodes, d);
        } else {
            lemma_node_frame(a0, nodes, a1, nodes, d);
        }
    }
    assert(keys_of(st1) =~= with_key(keys_of(st0), x)) by {
        assert forall|y: i32| keys_of(st1).contains(y) implies with_key(keys_of(st0), x).contains(y) by {
            let (d, s) = choose|d: int, s: int|
                #![trigger nodes.contains_key(d), key_in(a1, d, s)]
                nodes.contains_key(d) && nodes[d].level == 1 && 0 <= s < B && key_in(a1, d, s) == y;
            if d == k {
                if s < i {
                    assert(key_in(a0, k, s) == y);
                } else if s > i {
                    assert(key_in(a0, k, s - 1) == y);
                }
            } else {
                assert(a1[d + s] == a0[d + s]);
                assert(key_in(a0, d, s) == y);
            }
        }
        assert forall|y: i32| with_key(keys_of(st0), x).contains(y) implies keys_of(st1).contains(y) by {
            if keys_of(st0).contains(y) {
                let (d, s) = choose|d: int, s: int|
                    #![trigger nodes.contains_key(d), key_in(a0, d, s)]
                    nodes.contains_key(d) && nodes[d].level == 1 && 0 <= s < B && key_in(a0, d, s)
                        == y;
                if d == k {
                    if s < i {
                        assert(key_in(a1, k, s) == y);
                    } else {
                        assert(key_in(a1, k, s + 1) == y);
                    }
                } else {
                    assert(a1[d + s] == a0[d + s]);
                    assert(key_in(a1, d, s) == y);
                }
            } else {
                assert(key_in(a1, k, i) == y);
            }
        }
    }
    if key_in(a0, k, B - 2) == SENTINEL {
        if i > B - 2 {
            assert(key_in(a0, k, B - 2) < x);
        }
        assert(key_in(a1, k, B - 1) == SENTINEL);
        assert(node_ok(a1, nodes, k));
    } else {
        assert(key_in(a0, k, B - 3) <= key_in(a0, k, B - 2));
    }
}

/// The node at `k` is sound but for one thing: its child `c` at slot `i` has
/// split, and the key `v` that now bounds `c` from above, with the sibling
/// that took the keys between `v` and `h`, has yet to be put into it.
pub open spec fn awaiting(
    arena: Seq<i32>,
    nodes: Map<int, NodeInfo>,
    k: int,
    i: int,
    c: int,
    v: int,
    h: int,
) -> bool {
    &&& sorted_at(arena, k)
    &&& key_in(arena, k, B - 2) == SENTINEL
    &&& key_in(arena, k, B - 1) == SENTINEL
    &&& bounded_at(arena, k, nodes[k].lo, nodes[k].hi)
    &&& link(arena, k, i, c)
    &&& nodes[c] == (NodeInfo {
        level: (nodes[k].level - 1) as nat,
        lo: child_lo(arena, k, nodes[k].lo, i),
        hi: v,
        parent: k,
        slot: i,
    })
    &&& h == child_hi(arena, k, nodes[k].hi, i)
    &&& forall|j: int|
        0 <= j < B && j != i && #[trigger] child_live(arena, k, j) ==> child_ok(arena, nodes, k, j)
}

/// The state between the split of the node at `c` and the arrival of its new
/// sibling `q` in the node above: all is sound but for the parent `k`, which
/// awaits the separator `v` and `q`. Where `k` is negative, `c` is the root.
pub open spec fn pending(p: Plan, k: int, i: int, c: int, v: i32, q: int, h: int) -> bool {
    &&& layout_ok(p)
    &&& leaves_ordered(p.nodes)
    &&& p.nodes.contains_key(c)
    &&& p.nodes.contains_key(q)
    &&& v < SENTINEL
    &&& p.nodes[c].lo <= v <= h
    &&& p.nodes[q] == (NodeInfo {
        level: p.nodes[c].level,
        lo: v as int,
        hi: h,
        parent: detached(),
        slot: 0,
    })
    &&& if k < 0 {
        &&& c == p.root
        &&& p.nodes[c] == root_info(p.height, v as int)
        &&& h == SENTINEL
        &&& nodes_ok(p.arena, p.nodes, Set::empty())
    } else {
        &&& root_ok(p)
        &&& p.nodes.contains_key(k)
        &&& p.nodes[k].level != 1
        &&& nodes_ok(p.arena, p.nodes, set![k])
        &&& awaiting(p.arena, p.nodes, k, i, c, v as int, h)
    }
}

/// `half_moved`, slot by slot.
pub proof fn lemma_half_moved(arena: Seq<i32>, from: int, to: int)
    requires
        0 <= from,
        from + B <= to,
        to + B <= arena.len(),
    ensures
        half_moved(arena, from, to).len() == arena.len(),
        forall|j: int|
            0 <= j < arena.len() && !(from + B / 2 <= j < from + B) && !(to <= j < to + B / 2)
                ==> #[trigger] half_moved(arena, from, to)[j] == arena[j],
        forall|s: int|
            0 <= s < B ==> #[trigger] key_in(half_moved(arena, from, to), from, s) == if s < B / 2 {
                key_in(arena, from, s)
            } else {
                SENTINEL
            },
        forall|s: int|
            0 <= s < B ==> #[trigger] key_in(half_moved(arena, from, to), to, s) == if s < B / 2 {
                key_in(arena, from, s + B / 2)
            } else {
                key_in(arena, to, s)
            },
{
    let a2 = half_moved(arena, from, to);
    assert forall|s: int| 0 <= s < B implies #[trigger] key_in(a2, from, s) == if s < B / 2 {
        key_in(arena, from, s)
    } else {
        SENTINEL
    } by {
        assert(a2[from + s] == if s < B / 2 {
            arena[from + s]
        } else {
            SENTINEL
        });
    }
    assert forall|s: int| 0 <= s < B implies #[trigger] key_in(a2, to, s) == if s < B / 2 {
        key_in(arena, from, s + B / 2)
    } else {
        key_in(arena, to, s)
    } by {
        assert(a2[to + s] == if s < B / 2 {
            arena[to + s - to + from + B / 2]
        } else {
            arena[to + s]
        });
    }
}

/// The plan after the full leaf at `c` has given its upper half to a new leaf.
pub open spec fn leaf_split(p: Plan, c: int) -> Plan {
    let v = key_in(p.arena, c, B / 2 - 1);
    let old_info = p.nodes[c];
    Plan {
        arena: half_moved(p.arena, c, p.n_tree),
        nodes: p.nodes.insert(c, NodeInfo { hi: v as int, ..old_info }).insert(
            p.n_tree,
            NodeInfo { level: 1, lo: v as int, hi: old_info.hi, parent: detached(), slot: 0 },
        ),
        n_tree: p.n_tree + B,
        ..p
    }
}

/// Splitting a full leaf keeps the keys and leaves the node above, if there
/// is one, awaiting the separator and the new leaf.
pub proof fn lemma_leaf_split(st1: Plan, c: int, k: int, i: int)
    requires
        sound_but(st1, c),
        st1.nodes[c].level == 1,
        leaf_loose(st1.arena, st1.nodes[c], c),
        key_in(st1.arena, c, B - 2) < SENTINEL,
        st1.n_tree + B <= st1.arena.len(),
        k < 0 ==> c == st1.root,
        k >= 0 ==> st1.nodes.contains_key(k) && st1.nodes[k].level != 1 && link(st1.arena, k, i, c),
    ensures
        pending(
            leaf_split(st1, c),
            k,
            i,
            c,
            key_in(st1.arena, c, B / 2 - 1),
            st1.n_tree,
            st1.nodes[c].hi,
        ),
        keys_of(leaf_split(st1, c)) == keys_of(st1),
{
    let a1 = st1.arena;
    let n1 = st1.nodes;
    let st2 = leaf_split(st1, c);
    let a2 = st2.arena;
    let n2 = st2.nodes;
    let q = st1.n_tree;
    let v = key_in(a1, c, B / 2 - 1);
    let h = n1[c].hi;
    assert(n1.contains_key(c));
    lemma_half_moved(a1, c, q);
    assert(key_in(a1, c, B / 2 - 1) <= key_in(a1, c, B - 2));
    assert(!n1.contains_key(q));
    // the layout
    assert(layout_ok(st2)) by {
        assert forall|j: int| st2.n_tree <= j < a2.len() implies a2[j] == SENTINEL by {
            assert(a1[j] == SENTINEL);
        }
        assert forall|d: int| #[trigger] n2.contains_key(d) implies 0 <= d && n2[d].level >= 1 && d
            + span(n2[d].level) <= st2.n_tree by {
            if d != q {
                assert(n1.contains_key(d));
            }
        }
        assert forall|d: int, e: int|
            #![trigger n2.contains_key(d), n2.contains_key(e)]
            n2.contains_key(d) && n2.contains_key(e) && d != e implies d + span(n2[d].level) <= e
            || e + span(n2[e].level) <= d by {
            if d != q {
                assert(n1.contains_key(d));
            }
            if e != q {
                assert(n1.contains_key(e));
            }
        }
    }
    assert(n1[c].lo <= v <= h);
    assert(leaves_ordered(n2)) by {
        assert forall|d: int, e: int|
            #![trigger n2.contains_key(d), n2.contains_key(e)]
            n2.contains_key(d) && n2.contains_key(e) && d != e && n2[d].level == 1 && n2[e].level
                == 1 implies n2[d].hi <= n2[e].lo || n2[e].hi <= n2[d].lo by {
            if d != q && d != c && e != q && e != c {
                assert(n1.contains_key(d) && n1.contains_key(e));
            } else if d != q && d != c {
                assert(n1.contains_key(d) && n1.contains_key(c));
            } else if e != q && e != c {
                assert(n1.contains_key(e) && n1.contains_key(c));
            }
        }
    }
    // the two halves
    assert(leaf_ok(a2, n2[c], c)) by {
        assert forall|s: int, t: int| 0 <= s <= t < B implies #[trigger] key_in(a2, c, s)
            <= #[trigger] key_in(a2, c, t) by {
            if t < B / 2 {
                assert(key_in(a1, c, s) <= key_in(a1, c, t));
            }
        }
        assert forall|s: int| 0 <= s < B && #[trigger] key_in(a2, c, s) < SENTINEL implies n2[c].lo
            <= key_in(a2, c, s) <= n2[c].hi by {
            assert(key_in(a1, c, s) < SENTINEL);
            assert(key_in(a1, c, s) <= key_in(a1, c, B / 2 - 1));
        }
        assert(key_in(a2, c, B / 2 - 1) == v);
    }
    assert(leaf_ok(a2, n2[q], q)) by {
        assert forall|s: int| B / 2 <= s < B implies #[trigger] key_in(a2, q, s) == SENTINEL by {
            assert(a1[q + s] == SENTINEL);
        }
        assert forall|s: int, t: int| 0 <= s <= t < B implies #[trigger] key_in(a2, q, s)
            <= #[trigger] key_in(a2, q, t) by {
            if t < B / 2 {
                assert(key_in(a1, c, s + B / 2) <= key_in(a1, c, t + B / 2));
            }
        }
        assert forall|s: int| 0 <= s < B && #[trigger] key_in(a2, q, s) < SENTINEL implies n2[q].lo
            <= key_in(a2, q, s) <= n2[q].hi by {
            assert(key_in(a1, c, s + B / 2) < SENTINEL);
            assert(key_in(a1, c, B / 2 - 1) <= key_in(a1, c, s + B / 2));
        }
        if h < SENTINEL {
            let s = choose|s: int| 0 <= s < B && #[trigger] key_in(a1, c, s) == h;
            if s < B - 2 {
                assert(key_in(a1, c, s) <= key_in(a1, c, B - 2));
                assert(key_in(a2, q, B / 2 - 2) == h);
            } else {
                assert(key_in(a2, q, s - B / 2) == h);
            }
        }
    }
    // the others
    assert forall|d: int| #[trigger] n2.contains_key(d) && d != c && d != q && d != k implies node_ok(
        a2,
        n2,
        d,
    ) by {
        assert(n1.contains_key(d));
        assert(node_ok(a1, n1, d));
        lemma_same_node(a1, a2, d, n1[d].level);
        assert forall|e: int| #[trigger] n1.contains_key(e) && n1[e].parent == d implies n2.contains_key(
            e,
        ) && n2[e] == n1[e] by {
            if e == c && k >= 0 {
                assert(node_ok(a1, n1, k));
                assert(child_live(a1, k, i));
                assert(child_ok(a1, n1, k, i));
            }
        }
        lemma_node_frame(a1, n1, a2, n2, d);
    }
    if k >= 0 {
        assert(node_ok(a1, n1, k));
        assert(child_live(a1, k, i));
        assert(child_ok(a1, n1, k, i));
        lemma_same_node(a1, a2, k, n1[k].level);
        assert(awaiting(a2, n2, k, i, c, v as int, h)) by {
            assert forall|s: int, t: int| 0 <= s <= t < B implies #[trigger] key_in(a2, k, s)
                <= #[trigger] key_in(a2, k, t) by {
                assert(key_in(a1, k, s) <= key_in(a1, k, t));
            }
            assert(key_in(a2, k, i) == key_in(a1, k, i));
            if i > 0 {
                assert(key_in(a2, k, i - 1) == key_in(a1, k, i - 1));
            }
            assert(ptr_in(a2, k, i) == ptr_in(a1, k, i));
            assert forall|j: int| 0 <= j < B && j != i && #[trigger] child_live(a2, k, j) implies child_ok(
                a2,
                n2,
                k,
                j,
            ) by {
                if j > 0 {
                    assert(key_in(a2, k, j - 1) == key_in(a1, k, j - 1));
                }
                assert(child_live(a1, k, j));
                assert(child_ok(a1, n1, k, j));
                assert(ptr_in(a2, k, j) == ptr_in(a1, k, j));
                assert(key_in(a2, k, j) == key_in(a1, k, j));
            }
        }
    }
    // the keys
    assert(keys_of(st2) =~= keys_of(st1)) by {
        assert forall|y: i32| keys_of(st2).contains(y) implies keys_of(st1).contains(y) by {
            let (d, s) = choose|d: int, s: int|
                #![trigger n2.contains_key(d), key_in(a2, d, s)]
                n2.contains_key(d) && n2[d].level == 1 && 0 <= s < B && key_in(a2, d, s) == y;
            if d == c {
                assert(key_in(a1, c, s) == y);
            } else if d == q {
                assert(key_in(a1, c, s + B / 2) == y);
            } else {
                assert(n1.contains_key(d));
                assert(a2[d + s] == a1[d + s]);
                assert(key_in(a1, d, s) == y);
            }
        }
        assert forall|y: i32| keys_of(st1).contains(y) implies keys_of(st2).contains(y) by {
            let (d, s) = choose|d: int, s: int|
                #![trigger n1.contains_key(d), key_in(a1, d, s)]
                n1.contains_key(d) && n1[d].level == 1 && 0 <= s < B && key_in(a1, d, s) == y;
            assert(n2.contains_key(d));
            if d == c {
                if s < B / 2 {
                    assert(key_in(a2, c, s) == y);
                } else {
                    assert(n2.contains_key(q));
                    assert(key_in(a2, q, s - B / 2) == y);
                }
            } else {
                assert(a2[d + s] == a1[d + s]);
                assert(key_in(a2, d, s) == y);
            }
        }
    }
}

/// The records after the node at `k` has taken in, at child slot `i + 1`, the
/// sibling `q`: the children behind it move one slot on.
pub open spec fn absorbed_nodes(nodes: Map<int, NodeInfo>, k: int, i: int, q: int) -> Map<
    int,
    NodeInfo,
> {
    Map::new(
        |e: int| nodes.contains_key(e),
        |e: int|
            if e == q {
                NodeInfo { parent: k, slot: i + 1, ..nodes[e] }
            } else if nodes[e].parent == k && nodes[e].slot > i {
                NodeInfo { slot: nodes[e].slot + 1, ..nodes[e] }
            } else {
                nodes[e]
            },
    )
}

/// The plan after the node at `k` has taken in the separator `v` at key slot
/// `i` and the sibling `q` at child slot `i + 1`.
pub open spec fn absorbed(p: Plan, k: usize, i: int, v: i32, q: int) -> Plan {
    Plan {
        arena: put_in(put_in(p.arena, k, i, v), (k + B) as usize, i + 1, q as i32),
        nodes: absorbed_nodes(p.nodes, k as int, i, q),
        ..p
    }
}

/// The slots of the node at `k` after it has taken in a separator and a
/// sibling.
pub proof fn lemma_absorbed_slots(p: Plan, k: usize, i: int, v: i32, q: int)
    requires
        k + 2 * B <= p.arena.len() <= i32::MAX,
        0 <= i <= B - 2,
        0 <= q <= i32::MAX,
    ensures
        absorbed(p, k, i, v, q).arena.len() == p.arena.len(),
        forall|s: int|
            0 <= s < B ==> #[trigger] key_in(absorbed(p, k, i, v, q).arena, k as int, s) == if s < i {
                key_in(p.arena, k as int, s)
            } else if s == i {
                v
            } else {
                key_in(p.arena, k as int, s - 1)
            },
        forall|j: int|
            0 <= j < B ==> #[trigger] ptr_in(absorbed(p, k, i, v, q).arena, k as int, j) == if j < i
                + 1 {
                ptr_in(p.arena, k as int, j)
            } else if j == i + 1 {
                q
            } else {
                ptr_in(p.arena, k as int, j - 1)
            },
        forall|j: int|
            0 <= j < p.arena.len() && !(k <= j < k + 2 * B) ==> #[trigger] absorbed(
                p,
                k,
                i,
                v,
                q,
            ).arena[j] == p.arena[j],
{
    let kk = k as int;
    let a0 = p.arena;
    let a3 = absorbed(p, k, i, v, q).arena;
    let am = put_in(a0, k, i, v);
    let kb = (k + B) as usize;
    lemma_put_in(a0, k, i, v);
    lemma_put_in(am, kb, i + 1, q as i32);
    assert(q as i32 as int == q);
    assert forall|s: int| 0 <= s < B implies #[trigger] key_in(a3, kk, s) == if s < i {
        key_in(a0, kk, s)
    } else if s == i {
        v
    } else {
        key_in(a0, kk, s - 1)
    } by {
        assert(a3[kk + s] == am[kk + s]);
        assert(key_in(am, kk, s) == am[kk + s]);
    }
    assert forall|j: int| 0 <= j < B implies #[trigger] ptr_in(a3, kk, j) == if j < i + 1 {
        ptr_in(a0, kk, j)
    } else if j == i + 1 {
        q
    } else {
        ptr_in(a0, kk, j - 1)
    } by {
        assert(key_in(a3, kb as int, j) == a3[kk + B + j]);
        if j < i + 1 {
            assert(key_in(am, kb as int, j) == am[kk + B + j]);
            assert(am[kk + B + j] == a0[kk + B + j]);
        } else if j > i + 1 {
            assert(key_in(am, kb as int, j - 1) == am[kk + B + j - 1]);
            assert(am[kk + B + j - 1] == a0[kk + B + j - 1]);
        }
    }
    assert forall|j: int| 0 <= j < a0.len() && !(k <= j < k + 2 * B) implies #[trigger] a3[j]
        == a0[j] by {
        assert(a3[j] == am[j]);
    }
}

/// Taking in the separator and the sibling leaves the index sound but for
/// the room that the node must keep, and sound where the node had room.
pub proof fn lemma_absorb(p: Plan, k: usize, i: int, c: int, v: i32, q: int, h: int)
    requires
        pending(p, k as int, i, c, v, q, h),
    ensures
        ({
            let st3 = absorbed(p, k, i, v, q);
            &&& k + 2 * B <= p.n_tree
            &&& 0 <= q <= i32::MAX
            &&& sound_but(st3, k as int)
            &&& inner_loose(st3.arena, st3.nodes, k as int)
            &&& st3.nodes[k as int] == p.nodes[k as int]
            &&& key_in(st3.arena, k as int, B - 2) < SENTINEL <==> key_in(p.arena, k as int, B - 3)
                < SENTINEL
            &&& key_in(p.arena, k as int, B - 3) == SENTINEL ==> sound(st3)
            &&& keys_of(st3) == keys_of(p)
            &&& forall|j: int|
                0 <= j < p.arena.len() && !(k <= j < k + 2 * B) ==> #[trigger] st3.arena[j]
                    == p.arena[j]
            &&& forall|e: int| #[trigger]
                p.nodes.contains_key(e) && p.nodes[e].level != p.nodes[c].level ==> st3.nodes[e]
                    == p.nodes[e]
        }),
{
    let kk = k as int;
    let a0 = p.arena;
    let n0 = p.nodes;
    let st3 = absorbed(p, k, i, v, q);
    let a3 = st3.arena;
    let n3 = st3.nodes;
    let am = put_in(a0, k, i, v);
    let kb = (k + B) as usize;
    assert(n0.contains_key(kk));
    assert(n0.contains_key(q));
    assert(n0.contains_key(c));
    assert(kk + 2 * B <= p.n_tree);
    assert(q as i32 as int == q);
    lemma_absorbed_slots(p, k, i, v, q);
    // its keys
    let lo = n0[kk].lo;
    let hi = n0[kk].hi;
    if i > 0 {
        assert(key_in(a0, kk, i - 1) < SENTINEL);
        assert(lo <= key_in(a0, kk, i - 1));
    }
    assert(sorted_at(a3, kk)) by {
        assert forall|s: int, t: int| 0 <= s <= t < B implies #[trigger] key_in(a3, kk, s)
            <= #[trigger] key_in(a3, kk, t) by {
            if t < i {
                assert(key_in(a0, kk, s) <= key_in(a0, kk, t));
            } else if t == i {
                if s < i {
                    assert(key_in(a0, kk, s) <= key_in(a0, kk, i - 1));
                }
            } else {
                assert(key_in(a0, kk, i) <= key_in(a0, kk, t - 1));
                if s < i {
                    assert(key_in(a0, kk, s) <= key_in(a0, kk, t - 1));
                } else if s > i {
                    assert(key_in(a0, kk, s - 1) <= key_in(a0, kk, t - 1));
                }
            }
        }
    }
    assert(bounded_at(a3, kk, lo, hi)) by {
        assert forall|s: int| 0 <= s < B && #[trigger] key_in(a3, kk, s) < SENTINEL implies lo
            <= key_in(a3, kk, s) <= hi by {
            if s < i {
                assert(key_in(a0, kk, s) < SENTINEL);
            } else if s > i {
                assert(key_in(a0, kk, s - 1) < SENTINEL);
            } else {
                if key_in(a0, kk, i) < SENTINEL {
                    assert(key_in(a0, kk, i) <= hi);
                }
            }
        }
    }
    // its children
    assert(n3[kk] == n0[kk]) by {
        if n0[kk].parent == kk {
            assert(n0[n0[kk].parent].level == n0[kk].level + 1);
        }
    }
    assert(children_ok(a3, n3, kk)) by {
        assert forall|j: int| 0 <= j < B && #[trigger] child_live(a3, kk, j) implies child_ok(
            a3,
            n3,
            kk,
            j,
        ) by {
            if j <= i {
                if j > 0 {
                    assert(key_in(a3, kk, j - 1) == key_in(a0, kk, j - 1));
                }
                assert(child_live(a0, kk, j));
                if j < i {
                    assert(child_ok(a0, n0, kk, j));
                }
                let e = ptr_in(a0, kk, j);
                assert(n0.contains_key(e));
                assert(n3.contains_key(e));
                assert(ptr_in(a3, kk, j) == e);
            } else if j == i + 1 {
                assert(ptr_in(a3, kk, j) == q);
                assert(n3.contains_key(q));
                assert(key_in(a3, kk, j - 1) == v);
                assert(key_in(a3, kk, j) == key_in(a0, kk, i));
            } else {
                assert(key_in(a3, kk, j - 1) == key_in(a0, kk, j - 2));
                assert(child_live(a0, kk, j - 1));
                assert(child_ok(a0, n0, kk, j - 1));
                let e = ptr_in(a0, kk, j - 1);
                assert(n3.contains_key(e));
                assert(ptr_in(a3, kk, j) == e);
                assert(key_in(a3, kk, j) == key_in(a0, kk, j - 1));
            }
        }
    }
    assert(key_in(a3, kk, B - 1) == SENTINEL);
    if i > B - 3 {
        assert(key_in(a0, kk, B - 3) <= key_in(a0, kk, i - 1));
    }
    // the rest of the plan
    assert(layout_ok(st3)) by {
        assert forall|j: int| st3.n_tree <= j < a3.len() implies a3[j] == SENTINEL by {
            assert(a3[j] == a0[j]);
        }
        assert forall|d: int| #[trigger] n3.contains_key(d) implies 0 <= d && n3[d].level >= 1 && d
            + span(n3[d].level) <= st3.n_tree by {
            assert(n0.contains_key(d));
        }
        assert forall|d: int, e: int|
            #![trigger n3.contains_key(d), n3.contains_key(e)]
            n3.contains_key(d) && n3.contains_key(e) && d != e implies d + span(n3[d].level) <= e
            || e + span(n3[e].level) <= d by {
            assert(n0.contains_key(d) && n0.contains_key(e));
        }
        assert forall|d: int| #[trigger] n3.contains_key(d) && n3[d].parent >= 0 implies n3.contains_key(
            n3[d].parent,
        ) && n3[n3[d].parent].level == n3[d].level + 1 by {
            assert(n0.contains_key(d));
            if d != q {
                assert(n0.contains_key(n0[d].parent));
            }
        }
    }
    assert(leaves_ordered(n3)) by {
        assert forall|d: int, e: int|
            #![trigger n3.contains_key(d), n3.contains_key(e)]
            n3.contains_key(d) && n3.contains_key(e) && d != e && n3[d].level == 1 && n3[e].level
                == 1 implies n3[d].hi <= n3[e].lo || n3[e].hi <= n3[d].lo by {
            assert(n0.contains_key(d) && n0.contains_key(e));
        }
    }
    assert(root_ok(st3));
    assert forall|d: int| #[trigger] n3.contains_key(d) && d != kk implies node_ok(a3, n3, d) by {
        assert(n0.contains_key(d));
        assert(node_ok(a0, n0, d));
        lemma_same_node(a0, a3, d, n0[d].level);
        assert forall|e: int| #[trigger] n0.contains_key(e) && n0[e].parent == d implies n3.contains_key(
            e,
        ) && n3[e] == n0[e] by {}
        lemma_node_frame(a0, n0, a3, n3, d);
    }
    assert(keys_of(st3) =~= keys_of(p)) by {
        assert forall|y: i32| keys_of(st3).contains(y) implies keys_of(p).contains(y) by {
            let (d, s) = choose|d: int, s: int|
                #![trigger n3.contains_key(d), key_in(a3, d, s)]
                n3.contains_key(d) && n3[d].level == 1 && 0 <= s < B && key_in(a3, d, s) == y;
            assert(n0.contains_key(d));
            assert(a3[d + s] == a0[d + s]);
            assert(key_in(a0, d, s) == y);
        }
        assert forall|y: i32| keys_of(p).contains(y) implies keys_of(st3).contains(y) by {
            let (d, s) = choose|d: int, s: int|
                #![trigger n0.contains_key(d), key_in(a0, d, s)]
                n0.contains_key(d) && n0[d].level == 1 && 0 <= s < B && key_in(a0, d, s) == y;
            assert(n3.contains_key(d));
            assert(a3[d + s] == a0[d + s]);
            assert(key_in(a3, d, s) == y);
        }
    }
    assert forall|e: int| #[trigger] n0.contains_key(e) && n0[e].level != n0[c].level implies n3[e]
        == n0[e] by {
        if n0[e].parent == kk {
            assert(n0[n0[e].parent].level == n0[e].level + 1);
        }
    }
}

/// The records after the internal node at `k` has given the children of its
/// upper half to a new node at `n`, and the key `v` between the halves to
/// the node above.
pub open spec fn inner_split_nodes(nodes: Map<int, NodeInfo>, k: int, n: int, v: int) -> Map<
    int,
    NodeInfo,
> {
    Map::new(
        |e: int| nodes.contains_key(e) || e == n,
        |e: int|
            if e == n {
                NodeInfo { level: nodes[k].level, lo: v, hi: nodes[k].hi, parent: detached(), slot: 0 }
            } else if e == k {
                NodeInfo { hi: v, ..nodes[k] }
            } else if nodes[e].parent == k && nodes[e].slot >= B / 2 {
                NodeInfo { parent: n, slot: nodes[e].slot - B / 2, ..nodes[e] }
            } else {
                nodes[e]
            },
    )
}

/// The arena after the internal node at `k` has given the upper halves of its
/// two blocks to a new node at `n`, and has let go of the key between the
/// halves.
pub open spec fn inner_split_arena(arena: Seq<i32>, k: int, n: int) -> Seq<i32> {
    half_moved(half_moved(arena, k, n), k + B, n + B).update(k + B / 2 - 1, SENTINEL)
}

/// The plan after the full internal node at `k` has split.
pub open spec fn inner_split(p: Plan, k: int) -> Plan {
    Plan {
        arena: inner_split_arena(p.arena, k, p.n_tree),
        nodes: inner_split_nodes(p.nodes, k, p.n_tree, key_in(p.arena, k, B / 2 - 1) as int),
        n_tree: p.n_tree + 2 * B,
        ..p
    }
}

/// `inner_split_arena`, slot by slot.
pub proof fn lemma_inner_split_arena(arena: Seq<i32>, k: int, n: int)
    requires
        0 <= k,
        k + 2 * B <= n,
        n + 2 * B <= arena.len(),
    ensures
        inner_split_arena(arena, k, n).len() == arena.len(),
        forall|j: int|
            0 <= j < arena.len() && !(k <= j < k + 2 * B) && !(n <= j < n + B / 2) && !(n + B <= j
                < n + B + B / 2) ==> #[trigger] inner_split_arena(arena, k, n)[j] == arena[j],
        forall|s: int|
            0 <= s < B ==> #[trigger] key_in(inner_split_arena(arena, k, n), k, s) == if s < B / 2
                - 1 {
                key_in(arena, k, s)
            } else {
                SENTINEL
            },
        forall|s: int|
            0 <= s < B / 2 ==> #[trigger] ptr_in(inner_split_arena(arena, k, n), k, s) == ptr_in(
                arena,
                k,
                s,
            ),
        forall|s: int|
            0 <= s < B ==> #[trigger] key_in(inner_split_arena(arena, k, n), n, s) == if s < B / 2 {
                key_in(arena, k, s + B / 2)
            } else {
                key_in(arena, n, s)
            },
        forall|s: int|
            0 <= s < B / 2 ==> #[trigger] ptr_in(inner_split_arena(arena, k, n), n, s) == ptr_in(
                arena,
                k,
                s + B / 2,
            ),
{
    let a1 = half_moved(arena, k, n);
    let a2 = half_moved(a1, k + B, n + B);
    let a3 = inner_split_arena(arena, k, n);
    lemma_half_moved(arena, k, n);
    lemma_half_moved(a1, k + B, n + B);
    assert forall|s: int| 0 <= s < B implies #[trigger] key_in(a3, k, s) == if s < B / 2 - 1 {
        key_in(arena, k, s)
    } else {
        SENTINEL
    } by {
        assert(a2[k + s] == a1[k + s]);
        assert(key_in(a1, k, s) == a1[k + s]);
    }
    assert forall|s: int| 0 <= s < B / 2 implies #[trigger] ptr_in(a3, k, s) == ptr_in(
        arena,
        k,
        s,
    ) by {
        assert(key_in(a2, k + B, s) == a2[k + B + s]);
        assert(key_in(a1, k + B, s) == a1[k + B + s]);
        assert(a1[k + B + s] == arena[k + B + s]);
    }
    assert forall|s: int| 0 <= s < B implies #[trigger] key_in(a3, n, s) == if s < B / 2 {
        key_in(arena, k, s + B / 2)
    } else {
        key_in(arena, n, s)
    } by {
        assert(a2[n + s] == a1[n + s]);
        assert(key_in(a1, n, s) == a1[n + s]);
    }
    assert forall|s: int| 0 <= s < B / 2 implies #[trigger] ptr_in(a3, n, s) == ptr_in(
        arena,
        k,
        s + B / 2,
    ) by {
        assert(key_in(a2, n + B, s) == a2[n + B + s]);
        assert(key_in(a1, k + B, s + B / 2) == a1[k + B + s + B / 2]);
        assert(a1[k + B + s + B / 2] == arena[k + B + s + B / 2]);
    }
    assert forall|j: int|
        0 <= j < arena.len() && !(k <= j < k + 2 * B) && !(n <= j < n + B / 2) && !(n + B <= j < n
            + B + B / 2) implies #[trigger] a3[j] == arena[j] by {
        assert(a2[j] == a1[j]);
        assert(a1[j] == arena[j]);
    }
}

/// Splitting a full internal node keeps the keys and leaves the node above,
/// if there is one, awaiting the separator and the new node.
#[verifier::rlimit(40)]
pub proof fn lemma_inner_split(st3: Plan, k: int, g: int, ig: int)
    requires
        sound_but(st3, k),
        st3.nodes[k].level != 1,
        inner_loose(st3.arena, st3.nodes, k),
        key_in(st3.arena, k, B - 2) < SENTINEL,
        st3.n_tree + 2 * B <= st3.arena.len(),
        g < 0 ==> k == st3.root,
        g >= 0 ==> st3.nodes.contains_key(g) && st3.nodes[g].level != 1 && link(st3.arena, g, ig, k),
    ensures
        pending(
            inner_split(st3, k),
            g,
            ig,
            k,
            key_in(st3.arena, k, B / 2 - 1),
            st3.n_tree,
            st3.nodes[k].hi,
        ),
        keys_of(inner_split(st3, k)) == keys_of(st3),
        forall|e: int| #[trigger]
            st3.nodes.contains_key(e) && st3.nodes[e].level > st3.nodes[k].level ==> inner_split(
                st3,
                k,
            ).nodes[e] == st3.nodes[e],
{
    let a3 = st3.arena;
    let n3 = st3.nodes;
    let st4 = inner_split(st3, k);
    let a4 = st4.arena;
    let n4 = st4.nodes;
    let n = st3.n_tree;
    let v = key_in(a3, k, B / 2 - 1);
    let h = n3[k].hi;
    assert(n3.contains_key(k));
    assert(!n3.contains_key(n));
    lemma_inner_split_arena(a3, k, n);
    assert(key_in(a3, k, B / 2 - 1) <= key_in(a3, k, B - 2));
    assert(n3[k].lo <= v <= h);
    if n3[k].parent == k {
        assert(n3[n3[k].parent].level == n3[k].level + 1);
    }
    if g >= 0 {
        assert(node_ok(a3, n3, g));
        assert(child_live(a3, g, ig));
        assert(child_ok(a3, n3, g, ig));
    }
    assert(layout_ok(st4)) by {
        assert forall|j: int| st4.n_tree <= j < a4.len() implies a4[j] == SENTINEL by {
            assert(a3[j] == SENTINEL);
        }
        assert forall|d: int| #[trigger] n4.contains_key(d) implies 0 <= d && n4[d].level >= 1 && d
            + span(n4[d].level) <= st4.n_tree by {
            if d != n {
                assert(n3.contains_key(d));
            }
        }
        assert forall|d: int, e: int|
            #![trigger n4.contains_key(d), n4.contains_key(e)]
            n4.contains_key(d) && n4.contains_key(e) && d != e implies d + span(n4[d].level) <= e
            || e + span(n4[e].level) <= d by {
            if d != n {
                assert(n3.contains_key(d));
            }
            if e != n {
                assert(n3.contains_key(e));
            }
        }
        assert forall|d: int| #[trigger] n4.contains_key(d) && n4[d].parent >= 0 implies n4.contains_key(
            n4[d].parent,
        ) && n4[n4[d].parent].level == n4[d].level + 1 by {
            if d != n {
                assert(n3.contains_key(d));
                if n3[d].parent >= 0 {
                    assert(n3.contains_key(n3[d].parent));
                }
            }
        }
    }
    assert(leaves_ordered(n4)) by {
        assert forall|d: int, e: int|
            #![trigger n4.contains_key(d), n4.contains_key(e)]
            n4.contains_key(d) && n4.contains_key(e) && d != e && n4[d].level == 1 && n4[e].level
                == 1 implies n4[d].hi <= n4[e].lo || n4[e].hi <= n4[d].lo by {
            assert(n3.contains_key(d) && n3.contains_key(e));
        }
    }
    // the lower half
    assert(inner_ok(a4, n4, k)) by {
        assert forall|s: int, t: int| 0 <= s <= t < B implies #[trigger] key_in(a4, k, s)
            <= #[trigger] key_in(a4, k, t) by {
            if t < B / 2 - 1 {
                assert(key_in(a3, k, s) <= key_in(a3, k, t));
            }
        }
        assert forall|s: int| 0 <= s < B && #[trigger] key_in(a4, k, s) < SENTINEL implies n4[k].lo
            <= key_in(a4, k, s) <= n4[k].hi by {
            assert(key_in(a3, k, s) < SENTINEL);
            assert(key_in(a3, k, s) <= key_in(a3, k, B / 2 - 1));
        }
        assert forall|j: int| 0 <= j < B && #[trigger] child_live(a4, k, j) implies child_ok(
            a4,
            n4,
            k,
            j,
        ) by {
            if j > 0 {
                assert(key_in(a4, k, j - 1) < SENTINEL);
                assert(j - 1 < B / 2 - 1);
                assert(key_in(a3, k, j - 1) == key_in(a4, k, j - 1));
            }
            assert(child_live(a3, k, j));
            assert(child_ok(a3, n3, k, j));
            assert(ptr_in(a4, k, j) == ptr_in(a3, k, j));
            let e = ptr_in(a3, k, j);
            assert(n4.contains_key(e));
            if j < B / 2 - 1 {
                assert(key_in(a4, k, j) == key_in(a3, k, j));
                assert(key_in(a3, k, j) <= key_in(a3, k, B / 2 - 1));
            }
        }
    }
    // the upper half
    assert(inner_ok(a4, n4, n)) by {
        assert forall|s: int| B / 2 <= s < B implies #[trigger] key_in(a4, n, s) == SENTINEL by {
            assert(a3[n + s] == SENTINEL);
        }
        assert forall|s: int, t: int| 0 <= s <= t < B implies #[trigger] key_in(a4, n, s)
            <= #[trigger] key_in(a4, n, t) by {
            if t < B / 2 {
                assert(key_in(a3, k, s + B / 2) <= key_in(a3, k, t + B / 2));
            }
        }
        assert forall|s: int| 0 <= s < B && #[trigger] key_in(a4, n, s) < SENTINEL implies n4[n].lo
            <= key_in(a4, n, s) <= n4[n].hi by {
            assert(key_in(a3, k, s + B / 2) < SENTINEL);
            assert(key_in(a3, k, B / 2 - 1) <= key_in(a3, k, s + B / 2));
        }
        assert forall|j: int| 0 <= j < B && #[trigger] child_live(a4, n, j) implies child_ok(
            a4,
            n4,
            n,
            j,
        ) by {
            if j > 0 {
                assert(key_in(a4, n, j - 1) < SENTINEL);
                assert(j - 1 < B / 2);
                assert(key_in(a3, k, j - 1 + B / 2) == key_in(a4, n, j - 1));
                assert(j - 1 + B / 2 != B - 1);
            }
            assert(j < B / 2);
            assert(child_live(a3, k, j + B / 2));
            assert(child_ok(a3, n3, k, j + B / 2));
            assert(ptr_in(a4, n, j) == ptr_in(a3, k, j + B / 2));
            let e = ptr_in(a3, k, j + B / 2);
            assert(n4.contains_key(e));
            assert(key_in(a4, n, j) == key_in(a3, k, j + B / 2));
        }
    }
    // the others
    assert forall|d: int| #[trigger] n4.contains_key(d) && d != k && d != n && d != g implies node_ok(
        a4,
        n4,
        d,
    ) by {
        assert(n3.contains_key(d));
        assert(node_ok(a3, n3, d));
        lemma_same_node(a3, a4, d, n3[d].level);
        assert forall|e: int| #[trigger] n3.contains_key(e) && n3[e].parent == d implies n4.contains_key(
            e,
        ) && n4[e] == n3[e] by {}
        lemma_node_frame(a3, n3, a4, n4, d);
    }
    if g >= 0 {
        lemma_same_node(a3, a4, g, n3[g].level);
        assert(n4[g] == n3[g]) by {
            if n3[g].parent == k {
                assert(n3[n3[g].parent].level == n3[g].level + 1);
            }
        }
        assert(awaiting(a4, n4, g, ig, k, v as int, h)) by {
            assert forall|s: int, t: int| 0 <= s <= t < B implies #[trigger] key_in(a4, g, s)
                <= #[trigger] key_in(a4, g, t) by {
                assert(key_in(a3, g, s) <= key_in(a3, g, t));
            }
            assert(key_in(a4, g, ig) == key_in(a3, g, ig));
            if ig > 0 {
                assert(key_in(a4, g, ig - 1) == key_in(a3, g, ig - 1));
            }
            assert(ptr_in(a4, g, ig) == ptr_in(a3, g, ig));
            assert(key_in(a3, g, B - 2) <= key_in(a3, g, B - 1));
            assert forall|j: int| 0 <= j < B && j != ig && #[trigger] child_live(a4, g, j) implies child_ok(
                a4,
                n4,
                g,
                j,
            ) by {
                if j > 0 {
                    assert(key_in(a4, g, j - 1) == key_in(a3, g, j - 1));
                }
                assert(child_live(a3, g, j));
                assert(child_ok(a3, n3, g, j));
                assert(ptr_in(a4, g, j) == ptr_in(a3, g, j));
                assert(key_in(a4, g, j) == key_in(a3, g, j));
            }
        }
    }
    assert(keys_of(st4) =~= keys_of(st3)) by {
        assert forall|y: i32| keys_of(st4).contains(y) implies keys_of(st3).contains(y) by {
            let (d, s) = choose|d: int, s: int|
                #![trigger n4.contains_key(d), key_in(a4, d, s)]
                n4.contains_key(d) && n4[d].level == 1 && 0 <= s < B && key_in(a4, d, s) == y;
            assert(n3.contains_key(d));
            assert(a4[d + s] == a3[d + s]);
            assert(key_in(a3, d, s) == y);
        }
        assert forall|y: i32| keys_of(st3).contains(y) implies keys_of(st4).contains(y) by {
            let (d, s) = choose|d: int, s: int|
                #![trigger n3.contains_key(d), key_in(a3, d, s)]
                n3.contains_key(d) && n3[d].level == 1 && 0 <= s < B && key_in(a3, d, s) == y;
            assert(n4.contains_key(d));
            assert(a4[d + s] == a3[d + s]);
            assert(key_in(a4, d, s) == y);
        }
    }
    assert forall|e: int| #[trigger] n3.contains_key(e) && n3[e].level > n3[k].level implies n4[e]
        == n3[e] by {
        if n3[e].parent == k {
            assert(n3[n3[e].parent].level == n3[e].level + 1);
        }
    }
}

/// The plan after a split root has been given a new root above it, with the
/// separator `v` as its one key and the old root and `q` as its children.
pub open spec fn grown(p: Plan, v: i32, q: int) -> Plan {
    let n = p.n_tree;
    Plan {
        arena: p.arena.update(n, v).update(n + B, p.root as i32).update(n + B + 1, q as i32),
        nodes: p.nodes.insert(p.root, NodeInfo { parent: n, slot: 0, ..p.nodes[p.root] }).insert(
            q,
            NodeInfo { parent: n, slot: 1, ..p.nodes[q] },
        ).insert(n, root_info(p.height + 1, SENTINEL as int)),
        root: n,
        n_tree: n + 2 * B,
        height: p.height + 1,
    }
}

/// A new root above a split root makes the index sound again, one level
/// higher, with the keys it had.
pub proof fn lemma_grow(p: Plan, i: int, v: i32, q: int)
    requires
        pending(p, no_parent(), i, p.root, v, q, SENTINEL as int),
        p.n_tree + 2 * B <= p.arena.len(),
    ensures
        sound(grown(p, v, q)),
        keys_of(grown(p, v, q)) == keys_of(p),
        0 <= p.root <= i32::MAX,
        0 <= q <= i32::MAX,
{
    let a0 = p.arena;
    let n0 = p.nodes;
    let st5 = grown(p, v, q);
    let a5 = st5.arena;
    let n5 = st5.nodes;
    let n = p.n_tree;
    let r = p.root;
    assert(n0.contains_key(r));
    assert(n0.contains_key(q));
    assert(!n0.contains_key(n));
    assert(r != q);
    assert(r as i32 as int == r);
    assert(q as i32 as int == q);
    assert forall|j: int| 0 <= j < n implies a5[j] == a0[j] by {}
    assert forall|s: int| 0 <= s < B implies #[trigger] key_in(a5, n, s) == if s == 0 {
        v
    } else {
        SENTINEL
    } by {
        assert(a0[n + s] == SENTINEL);
    }
    assert(ptr_in(a5, n, 0) == r);
    assert(ptr_in(a5, n, 1) == q);
    assert(layout_ok(st5)) by {
        assert forall|j: int| st5.n_tree <= j < a5.len() implies a5[j] == SENTINEL by {
            assert(a0[j] == SENTINEL);
        }
        assert forall|d: int| #[trigger] n5.contains_key(d) implies 0 <= d && n5[d].level >= 1 && d
            + span(n5[d].level) <= st5.n_tree by {
            if d != n {
                assert(n0.contains_key(d));
            }
        }
        assert forall|d: int, e: int|
            #![trigger n5.contains_key(d), n5.contains_key(e)]
            n5.contains_key(d) && n5.contains_key(e) && d != e implies d + span(n5[d].level) <= e
            || e + span(n5[e].level) <= d by {
            if d != n {
                assert(n0.contains_key(d));
            }
            if e != n {
                assert(n0.contains_key(e));
            }
        }
        assert forall|d: int| #[trigger] n5.contains_key(d) && n5[d].parent >= 0 implies n5.contains_key(
            n5[d].parent,
        ) && n5[n5[d].parent].level == n5[d].level + 1 by {
            if d != n && d != r && d != q {
                assert(n0.contains_key(d));
                assert(n0.contains_key(n0[d].parent));
                if n0[d].parent == q {
                    assert(n5[q].level == n0[q].level);
                }
            }
        }
    }
    assert(leaves_ordered(n5)) by {
        assert forall|d: int, e: int|
            #![trigger n5.contains_key(d), n5.contains_key(e)]
            n5.contains_key(d) && n5.contains_key(e) && d != e && n5[d].level == 1 && n5[e].level
                == 1 implies n5[d].hi <= n5[e].lo || n5[e].hi <= n5[d].lo by {
            assert(n0.contains_key(d) && n0.contains_key(e));
        }
    }
    assert(inner_ok(a5, n5, n)) by {
        assert forall|j: int| 0 <= j < B && #[trigger] child_live(a5, n, j) implies child_ok(
            a5,
            n5,
            n,
            j,
        ) by {
            if j > 1 {
                assert(key_in(a5, n, j - 1) == SENTINEL);
            }
            assert(key_in(a5, n, 0) == v);
            assert(key_in(a5, n, 1) == SENTINEL);
        }
    }
    assert forall|d: int| #[trigger] n5.contains_key(d) && d != n implies node_ok(a5, n5, d) by {
        assert(n0.contains_key(d));
        assert(node_ok(a0, n0, d));
        lemma_same_node(a0, a5, d, n0[d].level);
        assert forall|e: int| #[trigger] n0.contains_key(e) && n0[e].parent == d implies n5.contains_key(
            e,
        ) && n5[e] == n0[e] by {}
        lemma_node_frame(a0, n0, a5, n5, d);
    }
    assert(keys_of(st5) =~= keys_of(p)) by {
        assert forall|y: i32| keys_of(st5).contains(y) implies keys_of(p).contains(y) by {
            let (d, s) = choose|d: int, s: int|
                #![trigger n5.contains_key(d), key_in(a5, d, s)]
                n5.contains_key(d) && n5[d].level == 1 && 0 <= s < B && key_in(a5, d, s) == y;
            assert(n0.contains_key(d));
            assert(a5[d + s] == a0[d + s]);
            assert(key_in(a0, d, s) == y);
        }
        assert forall|y: i32| keys_of(p).contains(y) implies keys_of(st5).contains(y) by {
            let (d, s) = choose|d: int, s: int|
                #![trigger n0.contains_key(d), key_in(a0, d, s)]
                n0.contains_key(d) && n0[d].level == 1 && 0 <= s < B && key_in(a0, d, s) == y;
            assert(n5.contains_key(d));
            assert(a5[d + s] == a0[d + s]);
            assert(key_in(a5, d, s) == y);
        }
    }
}

} // verus!
