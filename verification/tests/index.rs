use order_book::node::{B, SENTINEL};
use order_book::tree::{BTreeMap, InsertError, MAX_DEPTH};
use rand::seq::SliceRandom;
use std::collections::BTreeSet;

fn node(index: &BTreeMap, k: usize) -> Vec<i32> {
    (0..B).map(|s| index.slot(k + s)).collect()
}

fn expected_lower_bound(keys: &BTreeSet<i32>, x: i32) -> i32 {
    match keys.range(x..).next() {
        Some(&y) => y,
        None => SENTINEL,
    }
}

#[test]
fn test_tree_insert() {
    let mut b_tree = BTreeMap::new(100_000);

    let numbers_to_insert = (0..32).rev().collect::<Vec<i32>>();

    for num in numbers_to_insert {
        b_tree.insert(num);
    }

    println!("leaf 1 keys: {:?}", node(&b_tree, 0));

    assert_eq!(node(&b_tree, 0)[0..16], (0..16).collect::<Vec<i32>>()[..]);
    assert_eq!(node(&b_tree, 0)[16..32], vec![SENTINEL; 16][..]);
    for num in 0..32 {
        assert_eq!(b_tree.lower_bound(num), num);
    }
}

#[test]
fn a_new_index_is_one_empty_leaf() {
    let index = BTreeMap::new(4096);
    assert_eq!(index.capacity(), 4096);
    assert_eq!(index.next_free(), B);
    assert_eq!(index.root(), 0);
    assert_eq!(index.height(), 1);
    for j in 0..4096 {
        assert_eq!(index.slot(j), SENTINEL);
    }
}

#[test]
fn an_empty_index_has_no_lower_bound() {
    let index = BTreeMap::new(B);
    assert_eq!(index.lower_bound(0), SENTINEL);
    assert_eq!(index.lower_bound(i32::MIN), SENTINEL);
    assert_eq!(index.lower_bound(i32::MAX), SENTINEL);
}

#[test]
fn descending_keys_split_the_root_leaf_at_the_last_of_its_width() {
    let mut index = BTreeMap::new(100_000);
    for key in (2..=32).rev() {
        index.insert(key);
    }
    // B - 1 keys fit into the leaf
    assert_eq!(index.height(), 1);
    assert_eq!(index.next_free(), B);
    assert_eq!(index.demand(1), 3 * B);
    index.insert(1);
    // the next one splits it, and the root with it
    assert_eq!(index.height(), 2);
    assert_eq!(index.next_free(), 4 * B);
    assert_eq!(index.lower_bound(0), 1);
    assert_eq!(index.lower_bound(16), 16);
    assert_eq!(index.lower_bound(33), SENTINEL);
}

#[test]
fn a_split_leaves_two_half_full_leaves_under_a_root_of_one_key() {
    let mut index = BTreeMap::new(100_000);
    for key in (1..=32).rev() {
        index.insert(key);
    }
    let mut lower = (1..=16).collect::<Vec<i32>>();
    lower.append(&mut vec![SENTINEL; 16]);
    let mut upper = (17..=32).collect::<Vec<i32>>();
    upper.append(&mut vec![SENTINEL; 16]);
    assert_eq!(node(&index, 0), lower);
    assert_eq!(node(&index, B), upper);
    assert_eq!(index.root(), 2 * B);
    let mut keys = vec![16];
    keys.append(&mut vec![SENTINEL; 31]);
    assert_eq!(node(&index, 2 * B), keys);
    assert_eq!(index.slot(3 * B), 0);
    assert_eq!(index.slot(3 * B + 1), B as i32);
}

#[test]
fn three_root_splits_leave_four_levels_and_every_key() {
    let mut index = BTreeMap::new(1_000_000);
    let mut key = 0;
    let mut splits = 0;
    while splits < 3 {
        key += 1;
        let before = index.height();
        index.insert(key * 3);
        assert!(index.height() == before || index.height() == before + 1);
        if index.height() == before + 1 {
            splits += 1;
        }
        assert!(key < 100_000);
    }
    assert_eq!(index.height(), 4);
    for k in 1..=key {
        assert_eq!(index.lower_bound(k * 3), k * 3);
        assert_eq!(index.lower_bound(k * 3 - 1), k * 3);
        assert_eq!(index.lower_bound(k * 3 - 2), k * 3);
    }
    assert_eq!(index.lower_bound(key * 3 + 1), SENTINEL);
}

#[test]
fn lookup_agrees_with_insertion_in_any_order() {
    let mut rng = rand::thread_rng();
    let mut values = (0..5_000).map(|j| j * 7 - 10_000).collect::<Vec<i32>>();
    values.shuffle(&mut rng);
    let mut index = BTreeMap::new(1_000_000);
    let mut keys = BTreeSet::new();
    for (n, &x) in values.iter().enumerate() {
        index.insert(x);
        keys.insert(x);
        if n % 500 == 0 {
            for probe in (-10_010..25_010).step_by(3) {
                assert_eq!(index.lower_bound(probe), expected_lower_bound(&keys, probe));
            }
        }
    }
    for probe in -10_010..25_010 {
        assert_eq!(index.lower_bound(probe), expected_lower_bound(&keys, probe));
    }
    assert_eq!(index.lower_bound(i32::MIN), -10_000);
    assert_eq!(index.lower_bound(i32::MAX), SENTINEL);
}

#[test]
fn a_key_that_comes_again_is_kept_again() {
    let mut index = BTreeMap::new(100_000);
    for _ in 0..200 {
        index.insert(5);
    }
    index.insert(3);
    index.insert(9);
    for _ in 0..200 {
        index.insert(9);
    }
    assert!(index.height() >= 2);
    assert_eq!(index.lower_bound(i32::MIN), 3);
    assert_eq!(index.lower_bound(3), 3);
    assert_eq!(index.lower_bound(4), 5);
    assert_eq!(index.lower_bound(5), 5);
    assert_eq!(index.lower_bound(6), 9);
    assert_eq!(index.lower_bound(9), 9);
    assert_eq!(index.lower_bound(10), SENTINEL);
}

#[test]
fn the_sentinel_is_no_key() {
    let mut index = BTreeMap::new(100_000);
    for key in 0..40 {
        index.insert(key);
        index.insert(SENTINEL);
    }
    for key in 0..40 {
        assert_eq!(index.lower_bound(key), key);
    }
    assert_eq!(index.lower_bound(40), SENTINEL);
    assert_eq!(index.lower_bound(SENTINEL), SENTINEL);
}

#[test]
fn the_least_and_the_greatest_key_are_found() {
    let mut index = BTreeMap::new(100_000);
    index.insert(i32::MAX - 1);
    index.insert(i32::MIN);
    index.insert(0);
    assert_eq!(index.lower_bound(i32::MIN), i32::MIN);
    assert_eq!(index.lower_bound(i32::MIN + 1), 0);
    assert_eq!(index.lower_bound(1), i32::MAX - 1);
    assert_eq!(index.lower_bound(i32::MAX - 1), i32::MAX - 1);
    assert_eq!(index.lower_bound(i32::MAX), SENTINEL);
}

#[test]
fn an_insertion_takes_what_it_was_said_to_take() {
    let mut index = BTreeMap::new(1_000_000);
    for key in 0..20_000 {
        let x = (key * 7_919) % 20_011;
        let said = index.demand(x);
        let before = index.next_free();
        let height = index.height();
        index.insert(x);
        assert_eq!(index.next_free(), before + said);
        assert!(said <= B + 2 * B * height);
        assert!(said == 0 || (said >= B && (said - B) % (2 * B) == 0));
        if said == B + 2 * B * height {
            assert_eq!(index.height(), height + 1);
        } else {
            assert_eq!(index.height(), height);
        }
    }
}

#[test]
fn an_arena_of_one_leaf_holds_one_key_less_than_its_width() {
    let mut index = BTreeMap::new(B);
    for key in 0..31 {
        assert_eq!(index.try_insert(key), Ok(()));
    }
    assert_eq!(index.demand(31), 3 * B);
    assert_eq!(index.try_insert(31), Err(InsertError::CapacityExhausted));
    assert_eq!(index.try_insert(-1), Err(InsertError::CapacityExhausted));
    // nothing has changed
    assert_eq!(index.height(), 1);
    assert_eq!(index.next_free(), B);
    for key in 0..31 {
        assert_eq!(index.lower_bound(key), key);
    }
    assert_eq!(index.lower_bound(31), SENTINEL);
    assert_eq!(index.lower_bound(-1), 0);
}

#[test]
fn an_arena_that_lacks_one_slot_for_a_split_refuses_it() {
    let mut index = BTreeMap::new(4 * B - 1);
    for key in 0..31 {
        assert_eq!(index.try_insert(key), Ok(()));
    }
    assert_eq!(index.try_insert(31), Err(InsertError::CapacityExhausted));
    let mut index = BTreeMap::new(4 * B);
    for key in 0..32 {
        assert_eq!(index.try_insert(key), Ok(()));
    }
    assert_eq!(index.height(), 2);
    assert_eq!(index.next_free(), 4 * B);
    // the leaves have room again
    assert_eq!(index.try_insert(32), Ok(()));
    assert_eq!(index.try_insert(-5), Ok(()));
    assert_eq!(index.lower_bound(-7), -5);
}

#[test]
fn try_insert_does_what_insert_does() {
    let mut one = BTreeMap::new(100_000);
    let mut other = BTreeMap::new(100_000);
    for key in 0..3_000 {
        let x = (key * 31) % 1_009;
        one.insert(x);
        assert_eq!(other.try_insert(x), Ok(()));
    }
    assert_eq!(one.height(), other.height());
    assert_eq!(one.next_free(), other.next_free());
    assert_eq!(one.root(), other.root());
    for j in 0..one.next_free() {
        assert_eq!(one.slot(j), other.slot(j));
    }
}

#[test]
fn the_index_grows_tall_slowly() {
    assert_eq!(MAX_DEPTH, 10);
    let mut index = BTreeMap::new(4_000_000);
    let mut key = 0;
    while index.try_insert(key) == Ok(()) {
        key += 1;
        let height = index.height();
        assert!(height <= 8);
        if height >= 2 {
            // twice sixteen to the power of the levels between root and leaves, in blocks
            assert!(2 * B * 16usize.pow(height as u32 - 2) <= index.next_free());
        }
    }
    assert!(key > 30_000);
    assert!(index.height() >= 4);
    assert_eq!(index.try_insert(key), Err(InsertError::CapacityExhausted));
}

struct Plain {
    tree: Vec<i32>,
    root: usize,
    n_tree: usize,
    height: usize,
}

impl Plain {
    fn new(capacity: usize) -> Plain {
        Plain { tree: vec![SENTINEL; capacity], root: 0, n_tree: B, height: 1 }
    }

    fn rank(&self, k: usize, x: i32) -> usize {
        self.tree[k..k + B].iter().filter(|&&y| y < x).count()
    }

    fn put(&mut self, k: usize, i: usize, x: i32) {
        for j in (i + 1..B).rev() {
            self.tree[k + j] = self.tree[k + j - 1];
        }
        self.tree[k + i] = x;
    }

    fn halve(&mut self, from: usize, to: usize) {
        for j in 0..B / 2 {
            self.tree[to + j] = self.tree[from + B / 2 + j];
            self.tree[from + B / 2 + j] = SENTINEL;
        }
    }

    fn insert(&mut self, x: i32) {
        let mut path = Vec::new();
        let mut k = self.root;
        for _ in 0..self.height - 1 {
            let i = self.rank(k, x);
            path.push((k, i));
            k = self.tree[k + B + i] as usize;
        }
        let i = self.rank(k, x);
        let filled = self.tree[k + B - 2] != SENTINEL;
        self.put(k, i, x);
        if !filled {
            return;
        }
        self.halve(k, self.n_tree);
        let mut v = self.tree[k + B / 2 - 1];
        let mut p = self.n_tree;
        self.n_tree += B;
        while let Some((k, i)) = path.pop() {
            let filled = self.tree[k + B - 3] != SENTINEL;
            self.put(k, i, v);
            self.put(k + B, i + 1, p as i32);
            if !filled {
                return;
            }
            self.halve(k, self.n_tree);
            self.halve(k + B, self.n_tree + B);
            v = self.tree[k + B / 2 - 1];
            self.tree[k + B / 2 - 1] = SENTINEL;
            p = self.n_tree;
            self.n_tree += 2 * B;
        }
        self.tree[self.n_tree] = v;
        self.tree[self.n_tree + B] = self.root as i32;
        self.tree[self.n_tree + B + 1] = p as i32;
        self.root = self.n_tree;
        self.n_tree += 2 * B;
        self.height += 1;
    }
}

#[test]
fn every_slot_is_where_a_plain_index_has_it() {
    let mut rng = rand::thread_rng();
    let mut values = (0..6_000).map(|j| (j % 4_000) * 5 - 3_000).collect::<Vec<i32>>();
    values.shuffle(&mut rng);
    values.push(SENTINEL);
    values.extend(0..2_000);
    let capacity = 200_000;
    let mut index = BTreeMap::new(capacity);
    let mut plain = Plain::new(capacity);
    for (n, &x) in values.iter().enumerate() {
        index.insert(x);
        plain.insert(x);
        assert_eq!(index.root(), plain.root);
        assert_eq!(index.next_free(), plain.n_tree);
        assert_eq!(index.height(), plain.height);
        if n % 250 == 0 || n + 1 == values.len() {
            for j in 0..capacity {
                assert_eq!(index.slot(j), plain.tree[j]);
            }
        }
    }
    assert!(index.height() >= 3);
}
