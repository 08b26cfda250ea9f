//! The ordered index: a tree of fixed-width nodes carved out of one arena.
//!
//! A leaf is one block of `B` key slots. An internal node is two adjacent
//! blocks: `B` key slots, then `B` child offsets. Child `j` of an internal
//! node holds the keys between key `j - 1` and key `j` of that node, both ends
//! included; the child at the first unused key slot holds whatever lies above
//! the last key. A node counts as full, and splits on the next insertion into
//! it, when it holds `B - 1` keys (a leaf) or `B - 2` keys (an internal node).

use crate::census::{grown_census, inner_split_census, pow16, Census};
use crate::node::{move_latter_half, rank32, Precalc, B, SENTINEL};
use crate::route::{
    climb, climbing, demand, fit, fresh, inserted, leaf_filled, leaf_split_count,
    lemma_climb_bound,
    lemma_climb_stage, lemma_cost_leaf, lemma_cost_step, lemma_demand_bound, lemma_fresh,
    lemma_height, lemma_leaf_stage, lemma_seek_leaf, lemma_seek_pass, lemma_seek_start,
    lemma_seek_step, lemma_split_stage, lemma_top_stage, seeking, splits_root, trail,
};
use crate::shape::{
    absorbed, absorbed_nodes, grown, inner_split, is_lower_bound, keys_of, leaf_split, with_key,
    NodeInfo, Plan,
};
use vstd::prelude::*;

verus! {

/// The most internal levels that one insertion records on its way down. A
/// sound index has no more than seven.
pub const MAX_DEPTH: usize = 10;

/// Why an insertion cannot be made.
#[derive(Clone, Copy, Debug, PartialEq, Eq, Structural)]
pub enum InsertError {
    /// The arena lacks the slots that the insertion takes.
    CapacityExhausted,
}

/// The ordered index.
pub struct BTreeMap {
    tree: Vec<i32>,
    root: usize,
    n_tree: usize,
    height: usize,
    shift: Precalc,
    nodes: Ghost<Map<int, NodeInfo>>,
    census: Ghost<Census>,
}

impl View for BTreeMap {
    type V = Set<i32>;

    /// The keys that the index holds.
    closed spec fn view(&self) -> Set<i32> {
        keys_of(self.plan())
    }
}

impl BTreeMap {
    /// The arena, the counters, and what the proof records of the nodes.
    pub closed spec fn plan(&self) -> Plan {
        Plan {
            arena: self.tree@,
            nodes: self.nodes@,
            root: self.root as int,
            n_tree: self.n_tree as int,
            height: self.height as nat,
        }
    }

    /// The invariant of the index.
    pub closed spec fn wf(&self) -> bool {
        fit(self.plan(), self.census@)
    }

    /// Number of slots in the arena.
    pub closed spec fn spec_capacity(&self) -> usize {
        self.tree.len()
    }

    /// Offset of the first slot that no node uses yet.
    pub closed spec fn spec_next_free(&self) -> usize {
        self.n_tree
    }

    /// Number of levels, the root's and the leaves' included.
    pub closed spec fn spec_height(&self) -> usize {
        self.height
    }

    /// The slots of the arena.
    pub closed spec fn arena(&self) -> Seq<i32> {
        self.tree@
    }

    /// The plan of an index holds what the index holds.
    pub proof fn lemma_plan(&self)
        ensures
            self.plan().arena == self.arena(),
            self.plan().root == self.root(),
            self.plan().n_tree == self.next_free(),
            self.plan().height == self.height(),
            self@ == keys_of(self.plan()),
    {
    }

    /// Offset of the root.
    pub closed spec fn spec_root(&self) -> usize {
        self.root
    }

    /// Offset of the root.
    #[verifier::when_used_as_spec(spec_root)]
    pub fn root(&self) -> (k: usize)
        ensures
            k == self.root(),
    {
        self.root
    }

    /// What slot `j` of the arena holds.
    pub fn slot(&self, j: usize) -> (v: i32)
        requires
            j < self.capacity(),
        ensures
            v == self.arena()[j as int],
    {
        self.tree[j]
    }

    /// Number of slots in the arena.
    #[verifier::when_used_as_spec(spec_capacity)]
    pub fn capacity(&self) -> (n: usize)
        ensures
            n == self.capacity(),
    {
        self.tree.len()
    }

    /// Offset of the first slot that no node uses yet.
    #[verifier::when_used_as_spec(spec_next_free)]
    pub fn next_free(&self) -> (n: usize)
        ensures
            n == self.next_free(),
    {
        self.n_tree
    }

    /// Number of levels, the root's and the leaves' included.
    #[verifier::when_used_as_spec(spec_height)]
    pub fn height(&self) -> (h: usize)
        ensures
            h == self.height(),
    {
        self.height
    }

    /// An index over an arena of `capacity` slots, all unused but for those of
    /// the root, an empty leaf at offset 0.
    pub fn new(capacity: usize) -> (index: BTreeMap)
        requires
            B <= capacity <= i32::MAX,
        ensures
            index.wf(),
            index@ == Set::<i32>::empty(),
            index.plan() == fresh(capacity as nat),
            index.height() == 1,
            index.root() == 0,
            index.capacity() == capacity,
            index.next_free() == B,
            index.arena() == Seq::new(capacity as nat, |j: int| SENTINEL),
    {
        let tree = vec![SENTINEL; capacity];
        let index = BTreeMap {
            tree,
            root: 0,
            n_tree: B,
            height: 1,
            shift: Precalc::new(),
            nodes: Ghost(fresh(capacity as nat).nodes),
            census: Ghost(crate::census::first_census()),
        };
        proof {
            lemma_fresh(capacity as nat);
            assert(index.tree@ =~= fresh(capacity as nat).arena);
            assert(index.plan() == fresh(capacity as nat));
        }
        index
    }

    /// The least key of the index that is not below `x`, or the sentinel where
    /// it holds no such key.
    pub fn lower_bound(&self, x: i32) -> (r: i32)
        requires
            self.wf(),
        ensures
            is_lower_bound(self@, x, r),
    {
        let ghost p = self.plan();
        let ghost none = Seq::<usize>::empty();
        let mut k = self.root;
        let mut h: usize = 1;
        proof {
            lemma_seek_start(p, self.census@, x, none, none);
        }
        while h < self.height
            invariant
                p == self.plan(),
                self.tree.len() == p.arena.len(),
                1 <= h <= self.height,
                seeking(p, x, h - 1, k as int),
            decreases self.height - h,
        {
            proof {
                lemma_seek_pass(p, x, h - 1, k);
            }
            let i = rank32(x, &self.tree, k) as usize;
            k = self.tree[k + B + i] as usize;
            h += 1;
        }
        proof {
            lemma_seek_leaf(p, x, k);
        }
        let i = rank32(x, &self.tree, k) as usize;
        self.tree[k + i]
    }

    /// Slots that inserting `x` takes from the arena: none where the leaf
    /// that `x` goes to has room, else one block for the new leaf, two for
    /// each internal node that splits, and two for a new root.
    pub closed spec fn insert_demand(&self, x: i32) -> nat {
        demand(self.plan(), x)
    }

    /// Whether inserting `x` splits the root, and so adds a level.
    pub closed spec fn splits_root(&self, x: i32) -> bool {
        splits_root(self.plan(), x)
    }

    /// An insertion takes at most one block for a new leaf, and two blocks
    /// for each level and for a new root.
    pub proof fn lemma_insert_demand(&self, x: i32)
        requires
            self.wf(),
        ensures
            self.insert_demand(x) <= B + 2 * B * self.height(),
    {
        lemma_demand_bound(self.plan(), x);
        lemma_height(self.plan(), self.census@);
    }

    /// An index grows tall only slowly: with two levels or more, it has
    /// taken at least twice sixteen to the power of the levels between the
    /// root and the leaves in blocks from the arena. Eight levels are the
    /// most that an arena holds, fewer than an insertion can pass through.
    pub proof fn lemma_height(&self)
        requires
            self.wf(),
        ensures
            self.height() >= 2 ==> 2 * B * pow16((self.height() - 2) as nat) <= self.next_free(),
            1 <= self.height() <= 8,
            self.next_free() <= self.capacity() <= i32::MAX,
    {
        lemma_height(self.plan(), self.census@);
    }

    /// Root splits are few. An insertion takes seventeen blocks at most, a
    /// leaf and two blocks for each of eight levels. So an index that `n`
    /// insertions have made of a new one has taken seventeen blocks for each
    /// of them at most, and its first leaf; and an index of `height` levels,
    /// whose root has split `height - 1` times, has taken twice sixteen to the
    /// power of `height - 2` blocks at least.
    pub proof fn lemma_root_splits(&self, n: nat)
        requires
            self.wf(),
            self.next_free() <= B + n * (17 * B),
            self.height() >= 2,
        ensures
            2 * pow16((self.height() - 2) as nat) <= 1 + 17 * n,
            forall|x: i32| self.insert_demand(x) <= 17 * B,
    {
        self.lemma_height();
        let m = pow16((self.height() - 2) as nat);
        assert(2 * m <= 1 + 17 * n) by (nonlinear_arith)
            requires
                2 * 32 * m <= 32 + n * (17 * 32),
        ;
        assert forall|x: i32| self.insert_demand(x) <= 17 * B by {
            self.lemma_insert_demand(x);
            assert(2 * B * self.height() <= 2 * B * 8) by (nonlinear_arith)
                requires
                    self.height() <= 8,
            ;
        }
    }

    /// Slots that inserting `x` takes from the arena.
    pub fn demand(&self, x: i32) -> (slots: usize)
        requires
            self.wf(),
        ensures
            slots == self.insert_demand(x),
    {
        let ghost p = self.plan();
        let ghost none = Seq::<usize>::empty();
        let mut k = self.root;
        let mut h: usize = 0;
        let mut above: usize = 2 * B;
        proof {
            lemma_seek_start(p, self.census@, x, none, none);
        }
        while h < self.height - 1
            invariant
                p == self.plan(),
                self.tree.len() == p.arena.len(),
                1 <= self.height <= MAX_DEPTH + 1,
                h <= self.height - 1,
                seeking(p, x, h as int, k as int),
                above == climb(p, x, h - 1),
            decreases self.height - 1 - h,
        {
            proof {
                lemma_seek_pass(p, x, h as int, k);
                lemma_cost_step(p, x, h as int, k);
                lemma_climb_bound(p, x, h - 1);
                assert(2 * B * (h + 1) <= 2 * B * 11) by (nonlinear_arith)
                    requires
                        h <= 10,
                ;
            }
            let i = rank32(x, &self.tree, k) as usize;
            above = if self.tree[k + B - 3] != SENTINEL {
                above + 2 * B
            } else {
                0
            };
            k = self.tree[k + B + i] as usize;
            h += 1;
        }
        proof {
            lemma_seek_leaf(p, x, k);
            lemma_cost_leaf(p, x, k);
            lemma_climb_bound(p, x, h - 1);
            assert(2 * B * (h + 1) <= 2 * B * 11) by (nonlinear_arith)
                requires
                    h <= 10,
            ;
        }
        if self.tree[k + B - 2] != SENTINEL {
            B + above
        } else {
            0
        }
    }

    /// Adds `x` to the keys of the index if the arena has the room for it, and
    /// else says so and leaves the index as it is.
    pub fn try_insert(&mut self, x: i32) -> (done: Result<(), InsertError>)
        requires
            old(self).wf(),
        ensures
            final(self).wf(),
            final(self).capacity() == old(self).capacity(),
            match done {
                Ok(_) => {
                    &&& old(self).next_free() + old(self).insert_demand(x) <= old(self).capacity()
                    &&& final(self)@ == with_key(old(self)@, x)
                    &&& final(self).plan() == inserted(old(self).plan(), x)
                    &&& final(self).next_free() == old(self).next_free() + old(self).insert_demand(
                        x,
                    )
                    &&& final(self).height() == if old(self).splits_root(x) {
                        old(self).height() + 1
                    } else {
                        old(self).height() as int
                    }
                    &&& final(self).root() == if old(self).splits_root(x) {
                        final(self).next_free() - 2 * B
                    } else {
                        old(self).root() as int
                    }
                },
                Err(InsertError::CapacityExhausted) => {
                    &&& old(self).next_free() + old(self).insert_demand(x) > old(self).capacity()
                    &&& *final(self) == *old(self)
                },
            },
    {
        let slots = self.demand(x);
        proof {
            self.lemma_insert_demand(x);
            self.lemma_height();
        }
        if slots > self.tree.len() - self.n_tree {
            return Err(InsertError::CapacityExhausted);
        }
        self.insert(x);
        Ok(())
    }

    /// Adds `x` to the keys of the index. A key that the index holds already
    /// goes in once more, and the sentinel is no key: inserting it adds
    /// nothing.
    ///
    /// On the way down, the key that bounds the child entered is raised to
    /// `x` where it is lower; in a sound index it never is.
    pub fn insert(&mut self, x: i32)
        requires
            old(self).wf(),
            old(self).next_free() + old(self).insert_demand(x) <= old(self).capacity(),
        ensures
            final(self).wf(),
            final(self)@ == with_key(old(self)@, x),
            final(self).plan() == inserted(old(self).plan(), x),
            final(self).capacity() == old(self).capacity(),
            final(self).next_free() == old(self).next_free() + old(self).insert_demand(x),
            final(self).height() == if old(self).splits_root(x) {
                old(self).height() + 1
            } else {
                old(self).height() as int
            },
            final(self).root() == if old(self).splits_root(x) {
                final(self).next_free() - 2 * B
            } else {
                old(self).root() as int
            },
    {
        let ghost start = self.plan();
        let ghost counts = self.census@;
        let mut sk = [0usize; MAX_DEPTH];
        let mut si = [0usize; MAX_DEPTH];
        let mut k = self.root;
        let mut h: usize = 0;
        proof {
            lemma_seek_start(start, counts, x, sk@, si@);
        }
        while h < self.height - 1
            invariant
                self.plan() == start,
                start == old(self).plan(),
                self.census@ == counts,
                fit(start, counts),
                self.tree.len() == start.arena.len(),
                1 <= start.height <= MAX_DEPTH + 1,
                h <= start.height - 1,
                seeking(start, x, h as int, k as int),
                trail(start, x, sk@, si@, h as int),
            decreases self.height - 1 - h,
        {
            proof {
                lemma_seek_step(start, x, sk@, si@, h as int, k);
            }
            let i = rank32(x, &self.tree, k) as usize;
            let bound = self.tree[k + i];
            self.tree[k + i] = if x > bound {
                x
            } else {
                bound
            };
            proof {
                assert(self.tree@ =~= start.arena);
            }
            sk[h] = k;
            si[h] = i;
            k = self.tree[k + B + i] as usize;
            h += 1;
        }
        proof {
            lemma_leaf_stage(start, counts, x, sk@, si@, k);
        }
        let mut i = rank32(x, &self.tree, k) as usize;
        let filled = self.tree[k + B - 2] != SENTINEL;
        crate::node::insert(&mut self.tree, k, i, x, &self.shift);
        if !filled {
            proof {
                assert(self.plan() == leaf_filled(start, k, x));
            }
            return ;
        }
        let ghost filled_leaf = self.plan();
        let ghost mut top = start.nodes[k as int].hi;
        move_latter_half(&mut self.tree, k, self.n_tree);
        let mut v = self.tree[k + B / 2 - 1];
        let mut p = self.n_tree;
        self.n_tree += B;
        self.nodes = Ghost(leaf_split(filled_leaf, k as int).nodes);
        self.census = Ghost(leaf_split_count(start, counts, x, k));
        proof {
            assert(filled_leaf == leaf_filled(start, k, x));
            assert(self.plan() == leaf_split(filled_leaf, k as int));
        }
        while h > 0
            invariant
                start == old(self).plan(),
                self.tree.len() == start.arena.len(),
                1 <= start.height <= MAX_DEPTH + 1,
                h <= start.height - 1,
                climbing(start, self.plan(), self.census@, x, sk@, si@, h as int, v, p as int, top),
            decreases h,
        {
            let ghost here = self.plan();
            let ghost count = self.census@;
            proof {
                lemma_climb_stage(start, here, count, x, sk@, si@, h as int, v, p as int, top);
            }
            h -= 1;
            k = sk[h];
            i = si[h];
            let filled = self.tree[k + B - 3] != SENTINEL;
            crate::node::insert(&mut self.tree, k, i, v, &self.shift);
            crate::node::insert(&mut self.tree, k + B, i + 1, p as i32, &self.shift);
            self.nodes = Ghost(absorbed_nodes(here.nodes, k as int, i as int, p as int));
            let ghost taken_in = self.plan();
            proof {
                assert(taken_in == absorbed(here, k, i as int, v, p as int));
            }
            if !filled {
                return ;
            }
            proof {
                lemma_split_stage(start, taken_in, count, x, sk@, si@, h + 1);
                top = here.nodes[k as int].hi;
            }
            move_latter_half(&mut self.tree, k, self.n_tree);
            move_latter_half(&mut self.tree, k + B, self.n_tree + B);
            v = self.tree[k + B / 2 - 1];
            self.tree[k + B / 2 - 1] = SENTINEL;
            p = self.n_tree;
            self.n_tree += 2 * B;
            self.nodes = Ghost(inner_split(taken_in, k as int).nodes);
            self.census = Ghost(inner_split_census(taken_in, count, k as int));
            proof {
                assert(self.tree@ =~= inner_split(taken_in, k as int).arena);
                assert(self.plan() == inner_split(taken_in, k as int));
            }
        }
        let ghost topped = self.plan();
        let ghost top_counts = self.census@;
        proof {
            lemma_top_stage(start, topped, top_counts, x, sk@, si@, v, p as int, top);
        }
        let n = self.n_tree;
        self.tree[n] = v;
        self.tree[n + B] = self.root as i32;
        self.tree[n + B + 1] = p as i32;
        self.nodes = Ghost(grown(topped, v, p as int).nodes);
        self.census = Ghost(grown_census(topped, top_counts, p as int));
        self.root = n;
        self.n_tree += 2 * B;
        self.height += 1;
        proof {
            assert(self.plan() == grown(topped, v, p as int));
        }
    }
}

} // verus!
