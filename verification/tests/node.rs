use order_book::node::{
    cmp, insert, load, mask_store, move_latter_half, rank32, store, Precalc, B, SENTINEL,
};
use rand::seq::SliceRandom;

#[test]
fn test_cmp() {
    // Set first 8 elements to 1 to 8 (inclusive)
    let mut array = vec![0; 64];
    array[0..8].copy_from_slice(&vec![1, 2, 3, 4, 5, 6, 7, 8]);

    let mut rng = rand::thread_rng();

    // 100 trials
    for _ in 0..100 {
        // And shuffle the first 8 elements
        array[0..8].shuffle(&mut rng);

        // check that cmp marks the elements LESS than i
        for i in 1..9 {
            let mask = cmp(i, &array, 0);
            assert_eq!((i - 1) as u32, mask.count_ones());
        }
    }
}

#[test]
fn test_rank32() {
    // Set first 32 elements to 1 to 32 (inclusive)
    let mut array = vec![0; 64];
    array[0..32].copy_from_slice(&(1..33).collect::<Vec<i32>>());

    let mut rng = rand::thread_rng();

    // 100 trials
    for _ in 0..100 {
        // And shuffle the first 32 elements
        array[0..32].shuffle(&mut rng);

        // check that rank32 returns the number of elements LESS than i
        for i in 1..33 {
            let count_lt_i = rank32(i, &array, 0);
            assert_eq!((i - 1) as u32, count_lt_i);
        }
    }
}

#[test]
fn test_move_latter_half() {
    // Set first 32 elements to 1 to 32 (inclusive)
    let mut array = vec![0; 64];
    array[0..32].copy_from_slice(&(1..33).collect::<Vec<i32>>());
    // Set next 32 elements to i32::MAX
    array[32..64].copy_from_slice(&vec![i32::MAX; 32]);

    move_latter_half(&mut array, 0, B);

    let mut first_half_correct = (1..17).collect::<Vec<i32>>();
    first_half_correct.append(&mut vec![i32::MAX; 16]);
    let mut second_half_correct = (17..33).collect::<Vec<i32>>();
    second_half_correct.append(&mut vec![i32::MAX; 16]);

    assert_eq!(&first_half_correct, &array[0..32]);
    assert_eq!(&second_half_correct, &array[32..64]);
}

#[test]
fn test_node_insert() {
    let mut array = vec![0; 64];
    let table = Precalc::new();

    let x = 0;

    // Test inserting a 0 at every position (THIS INSERT DOES NOT ORDER)
    for i in 0..32 {
        array[0..32].copy_from_slice(&(1..33).collect::<Vec<i32>>());
        let mut correct_insertion = (1..i + 1).collect::<Vec<i32>>();
        correct_insertion.push(x);
        correct_insertion.append(&mut (i + 1..32).collect()); // 32 should be pushed out of bounds

        insert(&mut array, 0, i as usize, x, &table);

        assert_eq!(&correct_insertion, &array[0..32]);
    }
}

#[test]
fn sentinel_is_the_greatest_key() {
    assert_eq!(SENTINEL, i32::MAX);
    assert_eq!(B, 32);
}

#[test]
fn shift_flags_mark_the_slots_that_move() {
    let table = Precalc::new();
    for i in 0..B {
        for j in 0..B {
            let expected = if i <= j && j < B - 1 { -1 } else { 0 };
            assert_eq!(table.flag(i, j), expected);
        }
    }
    assert_eq!(table.flag(0, 0), -1);
    assert_eq!(table.flag(0, 30), -1);
    assert_eq!(table.flag(0, 31), 0);
    assert_eq!(table.flag(5, 4), 0);
    assert_eq!(table.flag(31, 31), 0);
}

#[test]
fn cmp_sets_one_bit_for_each_slot_below_the_key() {
    let array = vec![5, 1, 9, 3, 7, 7, 0, 8, 100, 100];
    // slots below 7: 5, 1, 3, 0 at positions 0, 1, 3, 6
    assert_eq!(cmp(7, &array, 0), 0b0100_1011);
    // from offset 2 on: 9, 3, 7, 7, 0, 8, 100, 100; below 8: positions 1, 2, 3, 4
    assert_eq!(cmp(8, &array, 2), 0b0001_1110);
    assert_eq!(cmp(i32::MIN, &array, 0), 0);
    assert_eq!(cmp(i32::MAX, &array, 0), 0xff);
}

#[test]
fn cmp_never_marks_the_sentinel() {
    let array = vec![SENTINEL; 8];
    assert_eq!(cmp(SENTINEL, &array, 0), 0);
    assert_eq!(cmp(SENTINEL - 1, &array, 0), 0);
}

#[test]
fn rank_of_a_key_above_all_keys_counts_the_keys() {
    let mut array = vec![SENTINEL; 32];
    assert_eq!(rank32(5, &array, 0), 0);
    for (j, slot) in array.iter_mut().enumerate().take(20) {
        *slot = 10 * j as i32;
    }
    assert_eq!(rank32(1_000, &array, 0), 20);
    assert_eq!(rank32(SENTINEL, &array, 0), 20);
    assert_eq!(rank32(190, &array, 0), 19);
    assert_eq!(rank32(191, &array, 0), 20);
    assert_eq!(rank32(0, &array, 0), 0);
    assert_eq!(rank32(-1, &array, 0), 0);
    assert_eq!(rank32(1, &array, 0), 1);
}

#[test]
fn rank_in_a_full_node_reaches_its_width() {
    let array = (1..33).collect::<Vec<i32>>();
    assert_eq!(rank32(33, &array, 0), 32);
    assert_eq!(rank32(32, &array, 0), 31);
    assert_eq!(rank32(1, &array, 0), 0);
}

#[test]
fn rank_counts_equal_keys_as_not_below() {
    let mut array = vec![SENTINEL; 40];
    for slot in array.iter_mut().skip(4).take(10) {
        *slot = 7;
    }
    // the node at offset 4 holds ten sevens
    assert_eq!(rank32(7, &array, 4), 0);
    assert_eq!(rank32(8, &array, 4), 10);
}

#[test]
fn rank_reads_the_node_at_its_offset_only() {
    let mut array = vec![-5; 96];
    for j in 0..32 {
        array[32 + j] = j as i32 * 2;
    }
    assert_eq!(rank32(11, &array, 32), 6);
    assert_eq!(rank32(11, &array, 0), 32);
}

#[test]
fn load_reads_eight_slots() {
    let array = (0..20).collect::<Vec<i32>>();
    assert_eq!(load(&array, 0), [0, 1, 2, 3, 4, 5, 6, 7]);
    assert_eq!(load(&array, 12), [12, 13, 14, 15, 16, 17, 18, 19]);
}

#[test]
fn store_writes_eight_slots() {
    let mut array = vec![0; 12];
    store(&mut array, 2, &[1, 2, 3, 4, 5, 6, 7, 8]);
    assert_eq!(array, vec![0, 0, 1, 2, 3, 4, 5, 6, 7, 8, 0, 0]);
}

#[test]
fn mask_store_writes_the_selected_lanes_only() {
    let mut array = vec![0; 10];
    mask_store(&mut array, 1, &[-1, 0, -1, 0, 0, -1, 1, i32::MIN], &[1, 2, 3, 4, 5, 6, 7, 8]);
    assert_eq!(array, vec![0, 1, 0, 3, 0, 0, 6, 0, 8, 0]);
}

#[test]
fn mask_store_may_reach_past_the_end_with_lanes_not_selected() {
    let mut array = vec![0; 4];
    mask_store(&mut array, 2, &[-1, -1, 0, 0, 0, 0, 0, 0], &[1, 2, 3, 4, 5, 6, 7, 8]);
    assert_eq!(array, vec![0, 0, 1, 2]);
}

#[test]
fn insert_leaves_the_neighbouring_nodes_alone() {
    let table = Precalc::new();
    let mut array = (0..96).collect::<Vec<i32>>();
    insert(&mut array, 32, 3, -7, &table);
    let mut expected = (0..96).collect::<Vec<i32>>();
    expected[35] = -7;
    for j in 36..64 {
        expected[j] = j as i32 - 1;
    }
    assert_eq!(array, expected);
}

#[test]
fn insert_at_the_last_position_replaces_the_last_slot() {
    let table = Precalc::new();
    let mut array = (1..33).collect::<Vec<i32>>();
    insert(&mut array, 0, 31, 99, &table);
    let mut expected = (1..33).collect::<Vec<i32>>();
    expected[31] = 99;
    assert_eq!(array, expected);
}

#[test]
fn insert_into_a_sorted_node_at_the_rank_keeps_it_sorted() {
    let table = Precalc::new();
    let mut array = vec![SENTINEL; 32];
    for key in [50, 10, 40, 20, 30, 20, -3] {
        let at = rank32(key, &array, 0) as usize;
        insert(&mut array, 0, at, key, &table);
    }
    assert_eq!(&array[0..8], &[-3, 10, 20, 20, 30, 40, 50, SENTINEL]);
}

#[test]
fn move_latter_half_fills_a_node_that_lies_before_its_source() {
    let mut array = vec![0; 64];
    for j in 0..32 {
        array[32 + j] = 100 + j as i32;
    }
    move_latter_half(&mut array, 32, 0);
    let mut expected = vec![0; 64];
    for j in 0..16 {
        expected[j] = 116 + j as i32;
        expected[32 + j] = 100 + j as i32;
        expected[48 + j] = SENTINEL;
    }
    assert_eq!(array, expected);
}
