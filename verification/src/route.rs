//! The way down for a key, what an insertion along it costs, and the way
//! back up that a split takes.

use crate::census::{
    counted, counting, first_census, grown_census, inner_split_census, leaf_split_census,
    lemma_count_absorb, lemma_count_grow, lemma_count_inner_split, lemma_count_leaf_insert,
    lemma_count_first, lemma_count_leaf_split, lemma_tall, passed, pow16, trailed, Census,
};
use crate::node::{B, SENTINEL};
use crate::shape::{
    absorbed, grown, inner_loose, inner_split, is_lower_bound, key_in, keys_of,
    leaf_split, lemma_absorb, lemma_descend, lemma_grow, lemma_half_moved, lemma_inner_split,
    lemma_inner_split_arena, lemma_leaf_answer, lemma_leaf_insert, lemma_leaf_split, lemma_put_in,
    lemma_same_node, link, no_parent, node_ok, pending, ptr_in, put_in, rank_at, root_info,
    same_node, sound, sound_but, with_key, NodeInfo, Plan,
};
use vstd::prelude::*;

verus! {

/// The node at depth `d` on the way down for `x`, the root being at depth 0.
pub open spec fn path(p: Plan, x: i32, d: nat) -> int
    decreases d,
{
    if d == 0 {
        p.root
    } else {
        let k = path(p, x, (d - 1) as nat);
        ptr_in(p.arena, k, rank_at(p.arena, k as usize, x))
    }
}

/// Whether the leaf at `c` splits when one more key goes into it.
pub open spec fn leaf_full(arena: Seq<i32>, c: int) -> bool {
    key_in(arena, c, B - 2) < SENTINEL
}

/// Whether the internal node at `c` splits when one more key goes into it.
pub open spec fn inner_full(arena: Seq<i32>, c: int) -> bool {
    key_in(arena, c, B - 3) < SENTINEL
}

/// Slots taken from the arena by a split that arrives from below at depth
/// `d`; a negative depth stands for the new root above a split root.
pub open spec fn climb(p: Plan, x: i32, d: int) -> nat
    decreases d + 1,
{
    if d < 0 {
        2 * B as nat
    } else if inner_full(p.arena, path(p, x, d as nat)) {
        2 * B as nat + climb(p, x, d - 1)
    } else {
        0
    }
}

/// Whether a split that arrives from below at depth `d` goes on to split the
/// root.
pub open spec fn rises(p: Plan, x: i32, d: int) -> bool
    decreases d + 1,
{
    d < 0 || (inner_full(p.arena, path(p, x, d as nat)) && rises(p, x, d - 1))
}

/// Slots that inserting `x` takes from the arena.
pub open spec fn demand(p: Plan, x: i32) -> nat {
    if leaf_full(p.arena, path(p, x, (p.height - 1) as nat)) {
        B as nat + climb(p, x, p.height - 2)
    } else {
        0
    }
}

/// Whether inserting `x` splits the root.
pub open spec fn splits_root(p: Plan, x: i32) -> bool {
    leaf_full(p.arena, path(p, x, (p.height - 1) as nat)) && rises(p, x, p.height - 2)
}

/// A split that arrives at depth `d` takes at most two blocks for each level
/// from there up, and two more for a new root.
pub proof fn lemma_climb_bound(p: Plan, x: i32, d: int)
    requires
        d >= -1,
    ensures
        climb(p, x, d) <= 2 * B * (d + 2),
    decreases d + 1,
{
    assert(2 * B == 64);
    if d >= 0 {
        lemma_climb_bound(p, x, d - 1);
        assert(2 * B * (d + 1) + 2 * B == 2 * B * (d + 2)) by (nonlinear_arith);
    } else {
        assert(2 * B * (d + 2) == 2 * B) by (nonlinear_arith)
            requires
                d == -1,
        ;
    }
}

/// The plan and the census of a sound index.
pub closed spec fn fit(p: Plan, cs: Census) -> bool {
    sound(p) && counted(p, cs)
}

/// The plan of an index over `capacity` slots that holds no key yet.
pub open spec fn fresh(capacity: nat) -> Plan {
    Plan {
        arena: Seq::new(capacity, |j: int| SENTINEL),
        nodes: Map::<int, NodeInfo>::empty().insert(0, root_info(1, SENTINEL as int)),
        root: 0,
        n_tree: B as int,
        height: 1,
    }
}

/// A new index is sound and holds no key.
pub proof fn lemma_fresh(capacity: nat)
    requires
        B <= capacity <= i32::MAX,
    ensures
        fit(fresh(capacity), first_census()),
        keys_of(fresh(capacity)) == Set::<i32>::empty(),
{
    assert(keys_of(fresh(capacity)) =~= Set::<i32>::empty());
    lemma_count_first(fresh(capacity));
}

/// A descent for `x` has come to the node `k` at depth `h`.
pub closed spec fn seeking(p: Plan, x: i32, h: int, k: int) -> bool {
    &&& sound(p)
    &&& 0 <= h <= p.height - 1
    &&& k == path(p, x, h as nat)
    &&& p.nodes.contains_key(k)
    &&& p.nodes[k].level == p.height - h
    &&& p.nodes[k].lo < x <= p.nodes[k].hi
}

/// What a descent for `x` met at depth `d`: the internal node `k`, and the
/// child slot `i` that it went on through.
pub closed spec fn hop(p: Plan, x: i32, d: int, k: int, i: int) -> bool {
    &&& k == path(p, x, d as nat)
    &&& p.nodes.contains_key(k)
    &&& p.nodes[k].level == p.height - d
    &&& p.nodes[k].level > 1
    &&& i == rank_at(p.arena, k as usize, x)
    &&& link(p.arena, k, i, path(p, x, (d + 1) as nat))
}

/// The nodes and child slots that a descent for `x` recorded down to depth
/// `h`, that depth left out.
pub closed spec fn trail(p: Plan, x: i32, sk: Seq<usize>, si: Seq<usize>, h: int) -> bool {
    &&& h <= sk.len()
    &&& h <= si.len()
    &&& forall|d: int| 0 <= d < h ==> #[trigger] hop(p, x, d, sk[d] as int, si[d] as int)
}

/// A descent starts at the root, with nothing recorded.
pub proof fn lemma_seek_start(p: Plan, cs: Census, x: i32, sk: Seq<usize>, si: Seq<usize>)
    requires
        fit(p, cs),
    ensures
        seeking(p, x, 0, p.root),
        trail(p, x, sk, si, 0),
        1 <= p.height <= 8,
        0 <= p.n_tree <= p.arena.len() <= i32::MAX,
{
    lemma_tall(p, cs);
}

/// One step down: the rank of `x` in the node names a child slot in use, the
/// key at that slot is not below `x`, and the child is where the descent goes
/// on.
pub proof fn lemma_seek_step(p: Plan, x: i32, sk: Seq<usize>, si: Seq<usize>, h: int, k: usize)
    requires
        seeking(p, x, h, k as int),
        trail(p, x, sk, si, h),
        h < p.height - 1,
        h < sk.len(),
        h < si.len(),
    ensures
        ({
            let i = rank_at(p.arena, k, x);
            &&& k + 2 * B <= p.arena.len()
            &&& 0 <= i <= B - 2
            &&& x <= p.arena[k + i]
            &&& 0 <= p.arena[k + B + i]
            &&& seeking(p, x, h + 1, p.arena[k + B + i] as int)
            &&& trail(p, x, sk.update(h, k), si.update(h, i as usize), h + 1)
        }),
{
    assert(node_ok(p.arena, p.nodes, k as int));
    lemma_descend(p, k, x);
    let i = rank_at(p.arena, k, x);
    let sk2 = sk.update(h, k);
    let si2 = si.update(h, i as usize);
    assert(hop(p, x, h, k as int, i));
    assert forall|d: int| 0 <= d < h + 1 implies #[trigger] hop(
        p,
        x,
        d,
        sk2[d] as int,
        si2[d] as int,
    ) by {
        if d < h {
            assert(hop(p, x, d, sk[d] as int, si[d] as int));
        }
    }
}

/// One step down, for a descent that records nothing.
pub proof fn lemma_seek_pass(p: Plan, x: i32, h: int, k: usize)
    requires
        seeking(p, x, h, k as int),
        h < p.height - 1,
    ensures
        ({
            let i = rank_at(p.arena, k, x);
            &&& k + 2 * B <= p.arena.len()
            &&& 0 <= i <= B - 2
            &&& 0 <= p.arena[k + B + i]
            &&& seeking(p, x, h + 1, p.arena[k + B + i] as int)
        }),
{
    assert(node_ok(p.arena, p.nodes, k as int));
    lemma_descend(p, k, x);
}

/// What the node at depth `h` adds to the cost of a split that reaches it.
pub proof fn lemma_cost_step(p: Plan, x: i32, h: int, k: usize)
    requires
        seeking(p, x, h, k as int),
        h < p.height - 1,
    ensures
        climb(p, x, h) == if p.arena[k + B - 3] != SENTINEL {
            2 * B + climb(p, x, h - 1)
        } else {
            0
        },
        rises(p, x, h) == (p.arena[k + B - 3] != SENTINEL && rises(p, x, h - 1)),
{
    assert(key_in(p.arena, k as int, B - 3) == p.arena[k + B - 3]);
}

/// What an insertion costs, told at the leaf that its descent ends at.
pub proof fn lemma_cost_leaf(p: Plan, x: i32, k: usize)
    requires
        seeking(p, x, p.height - 1, k as int),
    ensures
        demand(p, x) == if p.arena[k + B - 2] != SENTINEL {
            B + climb(p, x, p.height - 2)
        } else {
            0
        },
        splits_root(p, x) == (p.arena[k + B - 2] != SENTINEL && rises(p, x, p.height - 2)),
{
    assert(key_in(p.arena, k as int, B - 2) == p.arena[k + B - 2]);
}

/// The end of a descent: the slot at the rank of `x` in the leaf holds the
/// lower bound of `x`.
pub proof fn lemma_seek_leaf(p: Plan, x: i32, k: usize)
    requires
        seeking(p, x, p.height - 1, k as int),
    ensures
        k + B <= p.arena.len(),
        0 <= rank_at(p.arena, k, x) < B,
        is_lower_bound(keys_of(p), x, p.arena[k + rank_at(p.arena, k, x)]),
{
    lemma_leaf_answer(p, k, x);
}

/// Whether the node at `k` is in `st1` as it was in `st0`.
pub open spec fn kept(st0: Plan, st1: Plan, k: int) -> bool {
    &&& same_node(st0.arena, st1.arena, k, 2)
    &&& st1.nodes.contains_key(k)
    &&& st1.nodes[k] == st0.nodes[k]
}

/// A link holds in every arena that agrees on the node.
pub proof fn lemma_link_kept(a0: Seq<i32>, a1: Seq<i32>, k: int, i: int, c: int)
    requires
        link(a0, k, i, c),
        same_node(a0, a1, k, 2),
    ensures
        link(a1, k, i, c),
        inner_full(a1, k) == inner_full(a0, k),
{
    if i > 0 {
        assert(key_in(a1, k, i - 1) == key_in(a0, k, i - 1));
    }
    assert(ptr_in(a1, k, i) == ptr_in(a0, k, i));
    assert(key_in(a1, k, B - 3) == key_in(a0, k, B - 3));
}

/// A node that two plans agree on, and whose slots a further step leaves
/// alone, is kept.
pub proof fn lemma_kept_on(st0: Plan, st1: Plan, st2: Plan, k: int)
    requires
        kept(st0, st1, k),
        forall|j: int| k <= j < k + 2 * B ==> st2.arena[j] == st1.arena[j],
        st2.nodes.contains_key(k),
        st2.nodes[k] == st1.nodes[k],
    ensures
        kept(st0, st2, k),
{
    lemma_same_node(st1.arena, st2.arena, k, 2);
    assert forall|s: int| 0 <= s < B implies #[trigger] key_in(st2.arena, k, s) == key_in(
        st0.arena,
        k,
        s,
    ) by {
        assert(key_in(st1.arena, k, s) == key_in(st0.arena, k, s));
    }
    assert forall|j: int| 0 <= j < B implies #[trigger] ptr_in(st2.arena, k, j) == ptr_in(
        st0.arena,
        k,
        j,
    ) by {
        assert(ptr_in(st1.arena, k, j) == ptr_in(st0.arena, k, j));
    }
}

/// The parent that awaits the split of the node at depth `h`, if any.
pub open spec fn parent_at(sk: Seq<usize>, h: int) -> int {
    if h > 0 {
        sk[h - 1] as int
    } else {
        no_parent()
    }
}

/// The child slot of that parent.
pub open spec fn slot_at(si: Seq<usize>, h: int) -> int {
    if h > 0 {
        si[h - 1] as int
    } else {
        0
    }
}

/// The plan at the end of the way up of a split: `pc` is the plan in which
/// the node at depth `h` on the way down for `x` through `st0` has split, `v`
/// the separator and `q` the sibling that have yet to arrive one level up.
/// Each node on the way takes them in, and, where it was full, splits in its
/// turn; a split of the root ends in a new root.
pub open spec fn rose(st0: Plan, pc: Plan, x: i32, h: int, v: i32, q: int) -> Plan
    decreases h,
{
    if h <= 0 {
        grown(pc, v, q)
    } else {
        let k = path(st0, x, (h - 1) as nat);
        let taken = absorbed(pc, k as usize, rank_at(st0.arena, k as usize, x), v, q);
        if !inner_full(st0.arena, k) {
            taken
        } else {
            rose(st0, inner_split(taken, k), x, h - 1, key_in(taken.arena, k, B / 2 - 1), pc.n_tree)
        }
    }
}

/// The plan after `x` has gone into the index: into the leaf at the end of
/// its way down, which splits where it was full, with all that follows.
pub open spec fn inserted(st: Plan, x: i32) -> Plan {
    let leaf = path(st, x, (st.height - 1) as nat);
    let filled = leaf_filled(st, leaf as usize, x);
    if !leaf_full(st.arena, leaf) {
        filled
    } else {
        rose(
            st,
            leaf_split(filled, leaf),
            x,
            st.height - 1,
            key_in(filled.arena, leaf, B / 2 - 1),
            st.n_tree,
        )
    }
}

/// A split is on its way up: the node at depth `h` on the way down from `st0`
/// has split in `pc`, the separator `v` and the new sibling `q` have yet to
/// arrive one level up, and nothing above has changed.
pub closed spec fn climbing(
    st0: Plan,
    pc: Plan,
    cs: Census,
    x: i32,
    sk: Seq<usize>,
    si: Seq<usize>,
    h: int,
    v: i32,
    q: int,
    top: int,
) -> bool {
    &&& sound(st0)
    &&& 0 <= h <= st0.height - 1
    &&& pc.height == st0.height
    &&& pc.root == st0.root
    &&& pc.arena.len() == st0.arena.len()
    &&& trail(st0, x, sk, si, st0.height - 1)
    &&& forall|d: int| 0 <= d < h ==> #[trigger] kept(st0, pc, path(st0, x, d as nat))
    &&& pending(pc, parent_at(sk, h), slot_at(si, h), path(st0, x, h as nat), v, q, top)
    &&& counting(pc, cs, parent_at(sk, h), path(st0, x, h as nat), q)
    &&& rose(st0, pc, x, h, v, q) == inserted(st0, x)
    &&& keys_of(pc) == with_key(keys_of(st0), x)
    &&& pc.n_tree + climb(st0, x, h - 1) == st0.n_tree + demand(st0, x)
    &&& st0.n_tree + demand(st0, x) <= st0.arena.len()
    &&& splits_root(st0, x) == rises(st0, x, h - 1)
}

/// The plan after `x` has been put into the leaf at `k`.
pub open spec fn leaf_filled(p: Plan, k: usize, x: i32) -> Plan {
    Plan { arena: put_in(p.arena, k, rank_at(p.arena, k, x), x), ..p }
}

/// The nodes on the way down for `x`, from the root to the leaf.
pub open spec fn trail_of(p: Plan, x: i32) -> Seq<int> {
    Seq::new(p.height, |d: int| path(p, x, d as nat))
}

/// The census after `x` has been put into the full leaf at `k`, and the leaf
/// has split.
pub open spec fn leaf_split_count(p: Plan, cs: Census, x: i32, k: usize) -> Census {
    leaf_split_census(leaf_filled(p, k, x), cs, trail_of(p, x), p.height - 1)
}

/// What putting `x` into the leaf at the end of its descent leads to: a sound
/// index with `x` among its keys where the leaf had room, and else, once the
/// leaf has split, a split on its way up.
#[verifier::rlimit(30)]
pub proof fn lemma_leaf_stage(p: Plan, cs: Census, x: i32, sk: Seq<usize>, si: Seq<usize>, k: usize)
    requires
        fit(p, cs),
        seeking(p, x, p.height - 1, k as int),
        trail(p, x, sk, si, p.height - 1),
        p.n_tree + demand(p, x) <= p.arena.len(),
    ensures
        k + B <= p.n_tree <= p.arena.len(),
        0 <= rank_at(p.arena, k, x) < B,
        p.nodes.contains_key(k as int),
        p.arena[k + B - 2] == SENTINEL ==> {
            &&& fit(leaf_filled(p, k, x), cs)
            &&& leaf_filled(p, k, x) == inserted(p, x)
            &&& keys_of(leaf_filled(p, k, x)) == with_key(keys_of(p), x)
            &&& demand(p, x) == 0
            &&& !splits_root(p, x)
        },
        p.arena[k + B - 2] != SENTINEL ==> {
            &&& p.n_tree + B <= p.arena.len()
            &&& climbing(
                p,
                leaf_split(leaf_filled(p, k, x), k as int),
                leaf_split_count(p, cs, x, k),
                x,
                sk,
                si,
                p.height - 1,
                leaf_filled(p, k, x).arena[k + B / 2 - 1],
                p.n_tree,
                p.nodes[k as int].hi,
            )
        },
{
    let kk = k as int;
    let h = p.height - 1;
    lemma_leaf_answer(p, k, x);
    lemma_leaf_insert(p, k, x);
    lemma_count_leaf_insert(p, cs, k, x);
    let i = rank_at(p.arena, k, x);
    let st1 = leaf_filled(p, k, x);
    lemma_put_in(p.arena, k, i, x);
    if p.arena[k + B - 2] != SENTINEL {
        assert(key_in(p.arena, kk, B - 2) < SENTINEL);
        assert forall|d: int| 0 <= d < h implies #[trigger] kept(p, st1, path(p, x, d as nat)) by {
            assert(hop(p, x, d, sk[d] as int, si[d] as int));
            lemma_same_node(p.arena, st1.arena, path(p, x, d as nat), 2);
        }
        if h > 0 {
            assert(hop(p, x, h - 1, sk[h - 1] as int, si[h - 1] as int));
            assert(kept(p, st1, path(p, x, (h - 1) as nat)));
            lemma_link_kept(p.arena, st1.arena, sk[h - 1] as int, si[h - 1] as int, kk);
        }
        lemma_leaf_split(st1, kk, parent_at(sk, h), slot_at(si, h));
        let st2 = leaf_split(st1, kk);
        lemma_half_moved(st1.arena, kk, st1.n_tree);
        assert forall|d: int| 0 <= d < h implies #[trigger] kept(p, st2, path(p, x, d as nat)) by {
            assert(hop(p, x, d, sk[d] as int, si[d] as int));
            assert(kept(p, st1, path(p, x, d as nat)));
            lemma_kept_on(p, st1, st2, path(p, x, d as nat));
        }
        assert(key_in(st1.arena, kk, B / 2 - 1) == st1.arena[k + B / 2 - 1]);
        // the census
        let t = trail_of(p, x);
        let slots = si.map_values(|i: usize| i as int);
        assert forall|d: int| 0 <= d < h implies #[trigger] passed(st1, t, slots, d) by {
            assert(hop(p, x, d, sk[d] as int, si[d] as int));
            assert(kept(p, st1, path(p, x, d as nat)));
            lemma_link_kept(
                p.arena,
                st1.arena,
                sk[d] as int,
                si[d] as int,
                path(p, x, (d + 1) as nat),
            );
        }
        assert(trailed(st1, t, slots, h));
        lemma_count_leaf_split(st1, cs, kk, t, slots);
    } else {
        assert(key_in(p.arena, kk, B - 2) == SENTINEL);
    }
}

/// The split on its way up has come to a full node at depth `h - 1`: the node
/// has taken in the separator and the sibling, and holds one key more than a
/// node may keep.
pub closed spec fn brimming(
    st0: Plan,
    st3: Plan,
    cs: Census,
    x: i32,
    sk: Seq<usize>,
    si: Seq<usize>,
    h: int,
) -> bool {
    &&& sound(st0)
    &&& 0 < h <= st0.height - 1
    &&& st3.height == st0.height
    &&& st3.root == st0.root
    &&& st3.arena.len() == st0.arena.len()
    &&& trail(st0, x, sk, si, st0.height - 1)
    &&& forall|d: int| 0 <= d < h - 1 ==> #[trigger] kept(st0, st3, path(st0, x, d as nat))
    &&& sk[h - 1] == path(st0, x, (h - 1) as nat)
    &&& sound_but(st3, sk[h - 1] as int)
    &&& st3.nodes[sk[h - 1] as int].level != 1
    &&& inner_loose(st3.arena, st3.nodes, sk[h - 1] as int)
    &&& key_in(st3.arena, sk[h - 1] as int, B - 2) < SENTINEL
    &&& counted(st3, cs)
    &&& rose(
        st0,
        inner_split(st3, sk[h - 1] as int),
        x,
        h - 1,
        key_in(st3.arena, sk[h - 1] as int, B / 2 - 1),
        st3.n_tree,
    ) == inserted(st0, x)
    &&& keys_of(st3) == with_key(keys_of(st0), x)
    &&& st3.n_tree + 2 * B + climb(st0, x, h - 2) == st0.n_tree + demand(st0, x)
    &&& st0.n_tree + demand(st0, x) <= st0.arena.len()
    &&& splits_root(st0, x) == rises(st0, x, h - 2)
}

/// What the arrival of a split one level up leads to: a sound index where the
/// node there had room, and else a node that holds one key too many.
pub proof fn lemma_climb_stage(
    st0: Plan,
    pc: Plan,
    cs: Census,
    x: i32,
    sk: Seq<usize>,
    si: Seq<usize>,
    h: int,
    v: i32,
    q: int,
    top: int,
)
    requires
        climbing(st0, pc, cs, x, sk, si, h, v, q, top),
        h > 0,
    ensures
        ({
            let k = sk[h - 1];
            let i = si[h - 1] as int;
            let st3 = absorbed(pc, k, i, v, q);
            &&& k + 2 * B <= pc.n_tree <= pc.arena.len()
            &&& pc.nodes.contains_key(k as int)
            &&& st3.nodes[k as int] == pc.nodes[k as int]
            &&& 0 <= i <= B - 2
            &&& 0 <= q <= i32::MAX
            &&& pc.arena[k + B - 3] == SENTINEL ==> {
                &&& fit(st3, cs)
                &&& st3 == inserted(st0, x)
                &&& keys_of(st3) == with_key(keys_of(st0), x)
                &&& st3.n_tree == st0.n_tree + demand(st0, x)
                &&& st3.height == st0.height
                &&& st3.root == st0.root
                &&& st3.arena.len() == st0.arena.len()
                &&& !splits_root(st0, x)
            }
            &&& pc.arena[k + B - 3] != SENTINEL ==> {
                &&& pc.n_tree + 2 * B <= pc.arena.len()
                &&& brimming(st0, st3, cs, x, sk, si, h)
            }
        }),
{
    let k = sk[h - 1];
    let kk = k as int;
    let i = si[h - 1] as int;
    let c = path(st0, x, h as nat);
    let st3 = absorbed(pc, k, i, v, q);
    assert(hop(st0, x, h - 1, kk, i));
    assert(kept(st0, pc, path(st0, x, (h - 1) as nat)));
    lemma_absorb(pc, k, i, c, v, q, top);
    assert(counted(st3, cs)) by {
        lemma_count_absorb(pc, cs, k, i, c, v, q, top);
    }
    lemma_link_kept(st0.arena, pc.arena, kk, i, c);
    assert(key_in(pc.arena, kk, B - 3) == pc.arena[k + B - 3]);
    assert(inner_full(st0.arena, kk) == (pc.arena[k + B - 3] != SENTINEL));
    if pc.arena[k + B - 3] != SENTINEL {
        assert forall|d: int| 0 <= d < h - 1 implies #[trigger] kept(
            st0,
            st3,
            path(st0, x, d as nat),
        ) by {
            assert(hop(st0, x, d, sk[d] as int, si[d] as int));
            assert(kept(st0, pc, path(st0, x, d as nat)));
            lemma_kept_on(st0, pc, st3, path(st0, x, d as nat));
        }
    }
}

/// The split of a node that holds one key too many sends the split on its
/// way further up.
#[verifier::rlimit(30)]
pub proof fn lemma_split_stage(
    st0: Plan,
    st3: Plan,
    cs: Census,
    x: i32,
    sk: Seq<usize>,
    si: Seq<usize>,
    h: int,
)
    requires
        brimming(st0, st3, cs, x, sk, si, h),
    ensures
        sk[h - 1] + 2 * B <= st3.n_tree,
        st3.n_tree + 2 * B <= st3.arena.len(),
        st3.nodes.contains_key(sk[h - 1] as int),
        climbing(
            st0,
            inner_split(st3, sk[h - 1] as int),
            inner_split_census(st3, cs, sk[h - 1] as int),
            x,
            sk,
            si,
            h - 1,
            st3.arena[sk[h - 1] + B / 2 - 1],
            st3.n_tree,
            st3.nodes[sk[h - 1] as int].hi,
        ),
{
    let k = sk[h - 1];
    let kk = k as int;
    assert(st3.nodes.contains_key(kk));
    if h - 1 > 0 {
        let d = h - 2;
        assert(hop(st0, x, d, sk[d] as int, si[d] as int));
        assert(kept(st0, st3, path(st0, x, d as nat)));
        lemma_link_kept(st0.arena, st3.arena, sk[d] as int, si[d] as int, kk);
    }
    assert(counting(
        inner_split(st3, kk),
        inner_split_census(st3, cs, kk),
        parent_at(sk, h - 1),
        kk,
        st3.n_tree,
    )) by {
        lemma_count_inner_split(st3, cs, kk, parent_at(sk, h - 1), slot_at(si, h - 1));
    }
    lemma_inner_split(st3, kk, parent_at(sk, h - 1), slot_at(si, h - 1));
    lemma_inner_split_arena(st3.arena, kk, st3.n_tree);
    let st4 = inner_split(st3, kk);
    assert forall|d: int| 0 <= d < h - 1 implies #[trigger] kept(st0, st4, path(st0, x, d as nat)) by {
        assert(hop(st0, x, d, sk[d] as int, si[d] as int));
        assert(kept(st0, st3, path(st0, x, d as nat)));
        lemma_kept_on(st0, st3, st4, path(st0, x, d as nat));
    }
    assert(key_in(st3.arena, kk, B / 2 - 1) == st3.arena[k + B / 2 - 1]);
}

/// A split that has come past the root ends in a new root: the index is
/// sound again, one level higher.
pub proof fn lemma_top_stage(
    st0: Plan,
    pc: Plan,
    cs: Census,
    x: i32,
    sk: Seq<usize>,
    si: Seq<usize>,
    v: i32,
    q: int,
    top: int,
)
    requires
        climbing(st0, pc, cs, x, sk, si, 0, v, q, top),
    ensures
        0 <= pc.n_tree,
        pc.n_tree + 2 * B <= pc.arena.len(),
        0 <= pc.root <= i32::MAX,
        0 <= q <= i32::MAX,
        fit(grown(pc, v, q), grown_census(pc, cs, q)),
        grown(pc, v, q) == inserted(st0, x),
        keys_of(grown(pc, v, q)) == with_key(keys_of(st0), x),
        grown(pc, v, q).n_tree == st0.n_tree + demand(st0, x),
        pc.height == st0.height,
        pc.arena.len() == st0.arena.len(),
        splits_root(st0, x),
{
    lemma_grow(pc, 0, v, q);
    lemma_count_grow(pc, cs, 0, v, q);
}

/// An insertion takes at most one block for a new leaf, and two blocks for
/// each level and for a new root.
pub proof fn lemma_demand_bound(p: Plan, x: i32)
    ensures
        p.height >= 1 ==> demand(p, x) <= B + 2 * B * p.height,
{
    if p.height >= 1 {
        lemma_climb_bound(p, x, p.height - 2);
    }
}

/// An index is as tall as its arena lets it be: with two levels or more, it
/// has taken at least twice sixteen to the power of the levels between the
/// root and the leaves in blocks from the arena, and eight levels are the
/// most.
pub proof fn lemma_height(p: Plan, cs: Census)
    requires
        fit(p, cs),
    ensures
        p.height >= 2 ==> 2 * B * pow16((p.height - 2) as nat) <= p.n_tree,
        1 <= p.height <= 8,
        0 <= p.n_tree <= p.arena.len() <= i32::MAX,
{
    lemma_tall(p, cs);
}

} // verus!
