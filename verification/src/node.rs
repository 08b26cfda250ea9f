//! Fixed-width nodes of the ordered index.

use vstd::prelude::*;

verus! {

/// Number of slots in one node.
pub const B: usize = 32;

/// The value of an unused slot: it compares greater than or equal to every key.
pub const SENTINEL: i32 = 0x7fff_ffff;

/// Whether bit `j` of `m` is set.
pub open spec fn bit(m: u32, j: usize) -> bool {
    (m >> j) & 1 == 1
}

/// Number of set bits among the lowest `n` bits of `m`.
pub open spec fn ones(m: u32, n: usize) -> nat
    decreases n,
{
    if n == 0 {
        0
    } else {
        ones(m, (n - 1) as usize) + if bit(m, (n - 1) as usize) { 1nat } else { 0nat }
    }
}

/// `u32::count_ones` returns the number of ones in the binary representation
/// of its argument, that is, the number of set bits among all 32 of them.
pub assume_specification[ u32::count_ones ](m: u32) -> (r: u32)
    ensures
        r == ones(m, 32),
;

/// Number of values in `slots` that are strictly below `key`.
pub open spec fn count_below(slots: Seq<i32>, key: i32) -> nat
    decreases slots.len(),
{
    if slots.len() == 0 {
        0
    } else {
        count_below(slots.drop_last(), key) + if slots.last() < key { 1nat } else { 0nat }
    }
}

/// Compares `key` against the eight slots that start at offset `k`: bit `j` of
/// the result is set exactly when slot `k + j` holds a value below `key`.
pub fn cmp(key: i32, arena: &Vec<i32>, k: usize) -> (m: u32)
    requires
        k + 8 <= arena.len(),
    ensures
        m < 256,
        forall|j: usize| j < 8 ==> (#[trigger] bit(m, j) <==> arena[k + j] < key),
{
    let mut m: u32 = 0;
    let mut l: usize = 0;
    assert(forall|j: usize| j < 32 ==> !#[trigger] bit(0u32, j)) by (bit_vector);
    while l < 8
        invariant
            l <= 8,
            k + 8 <= arena.len(),
            forall|j: usize| j < l ==> (#[trigger] bit(m, j) <==> arena[k + j] < key),
            forall|j: usize| l <= j < 32 ==> !#[trigger] bit(m, j),
            m < 256,
        decreases 8 - l,
    {
        if arena[k + l] < key {
            let ghost before = m;
            m = m | (1u32 << l);
            assert(forall|j: usize|
                j < 32 ==> (#[trigger] bit(before | (1u32 << l), j) <==> (bit(before, j) || j
                    == l))) by (bit_vector)
                requires
                    l < 8,
            ;
            assert((before | (1u32 << l)) < 256) by (bit_vector)
                requires
                    l < 8,
                    before < 256,
            ;
        }
        l += 1;
    }
    m
}

/// The `B` slots of the node that starts at offset `k` of `arena`.
pub open spec fn node_at(arena: Seq<i32>, k: usize) -> Seq<i32> {
    arena.subrange(k as int, k + B)
}

/// Four eight-lane masks laid side by side, lane order kept.
pub open spec fn pack(m1: u32, m2: u32, m3: u32, m4: u32) -> u32 {
    m1 | (m2 << 8) | (m3 << 16) | (m4 << 24)
}

/// Each bit of a packed mask is the bit of the lane mask that it came from.
proof fn lemma_pack_bits(m1: u32, m2: u32, m3: u32, m4: u32)
    by (bit_vector)
    requires
        m1 < 256,
        m2 < 256,
        m3 < 256,
        m4 < 256,
    ensures
        forall|j: usize|
            j < 8 ==> {
                &&& #[trigger] bit(pack(m1, m2, m3, m4), j) == bit(m1, j)
            },
        forall|j: usize|
            8 <= j < 16 ==> {
                &&& #[trigger] bit(pack(m1, m2, m3, m4), j) == bit(m2, (j - 8) as usize)
            },
        forall|j: usize|
            16 <= j < 24 ==> {
                &&& #[trigger] bit(pack(m1, m2, m3, m4), j) == bit(m3, (j - 16) as usize)
            },
        forall|j: usize|
            24 <= j < 32 ==> {
                &&& #[trigger] bit(pack(m1, m2, m3, m4), j) == bit(m4, (j - 24) as usize)
            },
{
}

/// A mask with one bit for each slot below the key has as many set bits as
/// there are slots below the key.
proof fn lemma_ones_count(mask: u32, slots: Seq<i32>, key: i32, n: usize)
    requires
        n <= slots.len(),
        forall|j: usize| j < n ==> (#[trigger] bit(mask, j) <==> slots[j as int] < key),
    ensures
        ones(mask, n) == count_below(slots.subrange(0, n as int), key),
    decreases n,
{
    if n > 0 {
        let m = (n - 1) as usize;
        lemma_ones_count(mask, slots, key, m);
        assert(slots.subrange(0, n as int).drop_last() =~= slots.subrange(0, m as int));
        assert(bit(mask, m) <==> slots[m as int] < key);
    }
}

/// The four lane masks of a node, packed, have as many set bits as the node
/// has slots below the key.
proof fn lemma_rank_mask(
    key: i32,
    arena: Seq<i32>,
    k: usize,
    m1: u32,
    m2: u32,
    m3: u32,
    m4: u32,
)
    requires
        k + B <= arena.len(),
        m1 < 256,
        m2 < 256,
        m3 < 256,
        m4 < 256,
        forall|j: usize| j < 8 ==> (#[trigger] bit(m1, j) <==> arena[k + j] < key),
        forall|j: usize| j < 8 ==> (#[trigger] bit(m2, j) <==> arena[k + 8 + j] < key),
        forall|j: usize| j < 8 ==> (#[trigger] bit(m3, j) <==> arena[k + 16 + j] < key),
        forall|j: usize| j < 8 ==> (#[trigger] bit(m4, j) <==> arena[k + 24 + j] < key),
    ensures
        ones(pack(m1, m2, m3, m4), 32) == count_below(node_at(arena, k), key),
{
    let mask = pack(m1, m2, m3, m4);
    let slots = node_at(arena, k);
    lemma_pack_bits(m1, m2, m3, m4);
    assert forall|j: usize| j < 32 implies (#[trigger] bit(mask, j) <==> slots[j as int] < key) by {
        if j < 8 {
            assert(bit(m1, j) <==> arena[k + j] < key);
        } else if j < 16 {
            assert(bit(m2, (j - 8) as usize) <==> arena[k + 8 + (j - 8) as usize] < key);
        } else if j < 24 {
            assert(bit(m3, (j - 16) as usize) <==> arena[k + 16 + (j - 16) as usize] < key);
        } else {
            assert(bit(m4, (j - 24) as usize) <==> arena[k + 24 + (j - 24) as usize] < key);
        }
    }
    lemma_ones_count(mask, slots, key, 32);
    assert(slots.subrange(0, 32) =~= slots);
}

/// The number of slots of the node at offset `k` that hold a value strictly
/// below `key`. For a sorted node this is the position of the first slot that
/// is not below `key`: where `key` is inserted, and which child is descended.
///
/// The four eight-lane comparisons are packed into one 32-bit mask, one bit
/// for each slot, and the set bits are counted.
pub fn rank32(key: i32, arena: &Vec<i32>, k: usize) -> (r: u32)
    requires
        k + B <= arena.len(),
    ensures
        r == count_below(node_at(arena@, k), key),
        r <= B,
{
    let m1 = cmp(key, arena, k);
    let m2 = cmp(key, arena, k + 8);
    let m3 = cmp(key, arena, k + 16);
    let m4 = cmp(key, arena, k + 24);
    let mask = m1 | (m2 << 8) | (m3 << 16) | (m4 << 24);
    proof {
        lemma_rank_mask(key, arena@, k, m1, m2, m3, m4);
        lemma_count_below_bound(node_at(arena@, k), key);
    }
    mask.count_ones()
}

/// Whether `slots` is in ascending order, equal neighbours allowed.
pub open spec fn ascending(slots: Seq<i32>) -> bool {
    forall|s: int, t: int| 0 <= s <= t < slots.len() ==> slots[s] <= slots[t]
}

/// In an ascending node the rank of a key is the position of the first slot
/// that is not below it: every slot before the rank is below the key, and no
/// slot from the rank on is.
pub proof fn lemma_rank_ascending(slots: Seq<i32>, key: i32)
    requires
        ascending(slots),
    ensures
        count_below(slots, key) <= slots.len(),
        forall|s: int| 0 <= s < count_below(slots, key) ==> slots[s] < key,
        forall|s: int| count_below(slots, key) <= s < slots.len() ==> slots[s] >= key,
    decreases slots.len(),
{
    if slots.len() > 0 {
        let front = slots.drop_last();
        assert forall|s: int, t: int| 0 <= s <= t < front.len() implies front[s] <= front[t] by {
            assert(slots[s] <= slots[t]);
        }
        lemma_rank_ascending(front, key);
        let r = count_below(front, key) as int;
        if slots.last() < key {
            if r < front.len() {
                assert(front[r] >= key);
                assert(slots[r] <= slots[slots.len() - 1]);
            }
            assert(r == front.len());
        }
        assert forall|s: int| 0 <= s < count_below(slots, key) implies slots[s] < key by {
            if s < r {
                assert(front[s] < key);
            }
        }
        assert forall|s: int| count_below(slots, key) <= s < slots.len() implies slots[s] >= key by {
            if s < front.len() {
                assert(front[s] >= key);
            }
        }
    }
}

/// No more values of a sequence lie below a key than it has values.
pub proof fn lemma_count_below_bound(slots: Seq<i32>, key: i32)
    ensures
        count_below(slots, key) <= slots.len(),
    decreases slots.len(),
{
    if slots.len() > 0 {
        lemma_count_below_bound(slots.drop_last(), key);
    }
}

/// `arena` with the slots from offset `at` on replaced by `slots`.
pub open spec fn with_slots(arena: Seq<i32>, at: int, slots: Seq<i32>) -> Seq<i32> {
    Seq::new(
        arena.len(),
        |j: int|
            if at <= j < at + slots.len() {
                slots[j - at]
            } else {
                arena[j]
            },
    )
}

/// Eight consecutive slots read at once.
pub fn load(slots: &[i32], at: usize) -> (lanes: [i32; 8])
    requires
        at + 8 <= slots@.len(),
    ensures
        lanes@ == slots@.subrange(at as int, at + 8),
{
    let lanes = [
        slots[at],
        slots[at + 1],
        slots[at + 2],
        slots[at + 3],
        slots[at + 4],
        slots[at + 5],
        slots[at + 6],
        slots[at + 7],
    ];
    assert(lanes@ =~= slots@.subrange(at as int, at + 8));
    lanes
}

/// What a masked store leaves in `arena`: lane `l` of `lanes` goes to slot
/// `at + l` where lane `l` of `mask` is negative, and nothing else changes.
pub open spec fn mask_stored(arena: Seq<i32>, at: int, mask: Seq<i32>, lanes: Seq<i32>) -> Seq<i32> {
    Seq::new(
        arena.len(),
        |j: int|
            if at <= j < at + 8 && mask[j - at] < 0 {
                lanes[j - at]
            } else {
                arena[j]
            },
    )
}

/// Writes the selected lanes of `lanes` to the eight slots from offset `at`
/// on. A lane is selected by the sign bit of its mask lane; a slot whose lane
/// is not selected is not touched, and need not exist.
pub fn mask_store(arena: &mut Vec<i32>, at: usize, mask: &[i32; 8], lanes: &[i32; 8])
    requires
        at <= old(arena).len(),
        forall|l: int| 0 <= l < 8 && mask[l] < 0 ==> at + l < old(arena).len(),
    ensures
        final(arena)@ == mask_stored(old(arena)@, at as int, mask@, lanes@),
{
    let mut l: usize = 0;
    while l < 8
        invariant
            l <= 8,
            arena.len() == old(arena).len(),
            at <= arena.len(),
            forall|l: int| 0 <= l < 8 && mask[l] < 0 ==> at + l < arena.len(),
            forall|j: int|
                0 <= j < arena.len() ==> arena[j] == if at <= j < at + l && mask[j - at] < 0 {
                    lanes[j - at]
                } else {
                    old(arena)[j]
                },
        decreases 8 - l,
    {
        if mask[l] < 0 {
            arena[at + l] = lanes[l];
        }
        l += 1;
    }
    assert(arena@ =~= mask_stored(old(arena)@, at as int, mask@, lanes@));
}

/// Writes all of `lanes` to the eight slots from offset `at` on.
pub fn store(arena: &mut Vec<i32>, at: usize, lanes: &[i32; 8])
    requires
        at + 8 <= old(arena).len(),
    ensures
        final(arena)@ == with_slots(old(arena)@, at as int, lanes@),
{
    let mut l: usize = 0;
    while l < 8
        invariant
            l <= 8,
            arena.len() == old(arena).len(),
            at + 8 <= arena.len(),
            forall|j: int|
                0 <= j < arena.len() ==> arena[j] == if at <= j < at + l {
                    lanes[j - at]
                } else {
                    old(arena)[j]
                },
        decreases 8 - l,
    {
        arena[at + l] = lanes[l];
        l += 1;
    }
    assert(arena@ =~= with_slots(old(arena)@, at as int, lanes@));
}

/// The flag of lane `j` in the shift mask for insertion position `i`: `-1`
/// (shift this slot one place to the right) from `i` up to the last slot but
/// one, `0` (leave it) before `i` and for the last slot, which is evicted.
pub open spec fn shift_flag(i: int, j: int) -> i32 {
    if i <= j < B - 1 {
        -1i32
    } else {
        0i32
    }
}

/// The whole table of shift masks, one row for each insertion position.
pub open spec fn shift_table() -> Seq<Seq<i32>> {
    Seq::new(B as nat, |i: int| Seq::new(B as nat, |j: int| shift_flag(i, j)))
}

/// The table of shift masks. It depends on `B` alone.
pub struct Precalc {
    mask: [[i32; 32]; 32],
}

impl View for Precalc {
    type V = Seq<Seq<i32>>;

    /// The rows of the table, one for each insertion position.
    closed spec fn view(&self) -> Seq<Seq<i32>> {
        Seq::new(B as nat, |i: int| self.mask[i]@)
    }
}

impl Precalc {
    #[verifier::type_invariant]
    spec fn is_shift_table(self) -> bool {
        forall|i: int, j: int|
            0 <= i < B && 0 <= j < B ==> #[trigger] self.mask[i][j] == shift_flag(i, j)
    }

    /// Builds the table.
    pub fn new() -> (table: Precalc)
        ensures
            table@ == shift_table(),
    {
        let mut mask = [[0i32; 32]; 32];
        let mut i: usize = 0;
        while i < B
            invariant
                i <= B,
                forall|r: int, j: int|
                    0 <= r < B && 0 <= j < B ==> #[trigger] mask[r][j] == if r < i {
                        shift_flag(r, j)
                    } else {
                        0
                    },
            decreases B - i,
        {
            let mut j: usize = i;
            while j < B - 1
                invariant
                    i < B,
                    i <= j <= B - 1,
                    forall|r: int, c: int|
                        0 <= r < B && 0 <= c < B ==> #[trigger] mask[r][c] == if r < i || (r == i && c < j) {
                            shift_flag(r, c)
                        } else {
                            0
                        },
                decreases B - j,
            {
                mask[i][j] = -1;
                j += 1;
            }
            i += 1;
        }
        let table = Precalc { mask };
        assert(table@ =~~= shift_table());
        table
    }

    /// The flag of lane `j` in the mask for insertion position `i`.
    pub fn flag(&self, i: usize, j: usize) -> (f: i32)
        requires
            i < B,
            j < B,
        ensures
            f == shift_flag(i as int, j as int),
    {
        proof {
            use_type_invariant(self);
        }
        self.mask[i][j]
    }

    /// The eight mask lanes from lane `j` on, for insertion position `i`.
    fn lanes(&self, i: usize, j: usize) -> (mask: [i32; 8])
        requires
            i < B,
            j + 8 <= B,
        ensures
            forall|l: int| 0 <= l < 8 ==> mask[l] == shift_flag(i as int, j + l),
    {
        proof {
            use_type_invariant(self);
        }
        load(self.mask[i].as_slice(), j)
    }
}

/// A node after `x` is put in at position `i`: the slots before `i` are kept,
/// slot `i` holds `x`, and each later slot holds what its left neighbour held.
/// What the last slot held is gone.
pub open spec fn shifted_in(node: Seq<i32>, i: int, x: i32) -> Seq<i32> {
    Seq::new(
        node.len(),
        |j: int|
            if j < i {
                node[j]
            } else if j == i {
                x
            } else {
                node[j - 1]
            },
    )
}

/// Puts `x` in at position `i` of the node at offset `k`, shifting the slots
/// from `i` on one place to the right. The last slot is dropped whatever it
/// holds: a caller that must lose no key makes sure beforehand that it is
/// unused.
///
/// The slots move in blocks of eight, the highest block first, each block
/// read whole before any of it is written one place further.
pub fn insert(arena: &mut Vec<i32>, k: usize, i: usize, x: i32, shift: &Precalc)
    requires
        k + B <= old(arena).len(),
        i < B,
    ensures
        final(arena)@ == with_slots(
            old(arena)@,
            k as int,
            shifted_in(node_at(old(arena)@, k), i as int, x),
        ),
{
    let mut blocks: usize = B / 8;
    while blocks > 0
        invariant
            blocks <= B / 8,
            arena.len() == old(arena).len(),
            k + B <= arena.len(),
            i < B,
            forall|j: int|
                0 <= j < arena.len() ==> arena[j] == if k + blocks * 8 < j < k + B && k + i < j {
                    old(arena)[j - 1]
                } else {
                    old(arena)[j]
                },
        decreases blocks,
    {
        blocks -= 1;
        let j = blocks * 8;
        let lanes = load(arena.as_slice(), k + j);
        let mask = shift.lanes(i, j);
        mask_store(arena, k + j + 1, &mask, &lanes);
    }
    arena[k + i] = x;
    assert(arena@ =~= with_slots(
        old(arena)@,
        k as int,
        shifted_in(node_at(old(arena)@, k), i as int, x),
    ));
}

/// `arena` after the upper half of the node at `from` has moved to the lower
/// half of the node at `to`, and unused slots have taken its place.
pub open spec fn half_moved(arena: Seq<i32>, from: int, to: int) -> Seq<i32> {
    Seq::new(
        arena.len(),
        |j: int|
            if from + B / 2 <= j < from + B {
                SENTINEL
            } else if to <= j < to + B / 2 {
                arena[j - to + from + B / 2]
            } else {
                arena[j]
            },
    )
}

/// Moves the upper half of the node at offset `from` to the lower half of the
/// node at offset `to`, and marks the slots it leaves as unused.
pub fn move_latter_half(arena: &mut Vec<i32>, from: usize, to: usize)
    requires
        from + B <= old(arena).len(),
        to + B / 2 <= old(arena).len(),
        to + B / 2 <= from + B / 2 || from + B <= to,
    ensures
        final(arena)@ == half_moved(old(arena)@, from as int, to as int),
{
    let infs = [SENTINEL; 8];
    let mut i: usize = 0;
    while i < B / 2
        invariant
            i <= B / 2,
            i % 8 == 0,
            arena.len() == old(arena).len(),
            from + B <= arena.len(),
            to + B / 2 <= arena.len(),
            to + B / 2 <= from + B / 2 || from + B <= to,
            forall|l: int| 0 <= l < 8 ==> infs[l] == SENTINEL,
            forall|j: int|
                0 <= j < arena.len() ==> arena[j] == if from + B / 2 <= j < from + B / 2 + i {
                    SENTINEL
                } else if to <= j < to + i {
                    old(arena)[j - to + from + B / 2]
                } else {
                    old(arena)[j]
                },
        decreases B / 2 - i,
    {
        let lanes = load(arena.as_slice(), from + B / 2 + i);
        store(arena, to + i, &lanes);
        store(arena, from + B / 2 + i, &infs);
        i += 8;
    }
    assert(arena@ =~= half_moved(old(arena)@, from as int, to as int));
}

} // verus!
