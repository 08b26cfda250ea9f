use order_book::book::{
    add_liquidity, first_price, locate, quote, remove_order, take_liquidity,
};
use std::collections::{BTreeMap, VecDeque};

fn book_of(levels: &[(u64, &[u64])]) -> BTreeMap<u64, VecDeque<u64>> {
    let mut book = BTreeMap::new();
    for (price, sizes) in levels {
        book.insert(*price, sizes.iter().copied().collect::<VecDeque<u64>>());
    }
    book
}

#[test]
fn an_order_joins_the_end_of_the_queue_at_its_price() {
    let mut book = BTreeMap::new();
    add_liquidity(&mut book, 10, 5);
    assert_eq!(book, book_of(&[(10, &[5])]));
    add_liquidity(&mut book, 10, 3);
    add_liquidity(&mut book, 7, 1);
    add_liquidity(&mut book, 10, 0);
    assert_eq!(book, book_of(&[(7, &[1]), (10, &[5, 3, 0])]));
}

#[test]
fn the_first_price_is_the_lowest() {
    let mut book = BTreeMap::new();
    assert_eq!(first_price(&book), None);
    add_liquidity(&mut book, 10, 5);
    assert_eq!(first_price(&book), Some(10));
    add_liquidity(&mut book, 12, 5);
    add_liquidity(&mut book, 3, 5);
    assert_eq!(first_price(&book), Some(3));
    add_liquidity(&mut book, 0, 5);
    assert_eq!(first_price(&book), Some(0));
}

#[test]
fn orders_are_counted_from_the_lowest_price_up() {
    let book = book_of(&[(12, &[7, 8]), (10, &[5, 3]), (11, &[]), (20, &[1])]);
    assert_eq!(locate(&book, 0), Some((10, 0)));
    assert_eq!(locate(&book, 1), Some((10, 1)));
    assert_eq!(locate(&book, 2), Some((12, 0)));
    assert_eq!(locate(&book, 3), Some((12, 1)));
    assert_eq!(locate(&book, 4), Some((20, 0)));
}

#[test]
fn an_order_that_is_taken_out_leaves_the_others_in_place() {
    let mut book = book_of(&[(10, &[5, 3, 4]), (12, &[7, 8])]);
    remove_order(&mut book, 1);
    assert_eq!(book, book_of(&[(10, &[5, 4]), (12, &[7, 8])]));
    remove_order(&mut book, 3);
    assert_eq!(book, book_of(&[(10, &[5, 4]), (12, &[7])]));
    remove_order(&mut book, 0);
    assert_eq!(book, book_of(&[(10, &[4]), (12, &[7])]));
}

#[test]
fn the_last_order_at_a_price_takes_the_price_with_it() {
    let mut book = book_of(&[(10, &[5]), (12, &[7, 8])]);
    remove_order(&mut book, 0);
    assert_eq!(book, book_of(&[(12, &[7, 8])]));
    remove_order(&mut book, 1);
    remove_order(&mut book, 0);
    assert_eq!(book, BTreeMap::new());
}

#[test]
fn taking_nothing_costs_nothing() {
    let mut book = book_of(&[(10, &[5, 3]), (12, &[7])]);
    assert_eq!(take_liquidity(&mut book, 0), 0);
    assert_eq!(book, book_of(&[(10, &[5, 3]), (12, &[7])]));
    let mut empty = BTreeMap::new();
    assert_eq!(take_liquidity(&mut empty, 0), 0);
    assert_eq!(empty, BTreeMap::new());
}

#[test]
fn a_taking_cuts_the_first_order_that_it_does_not_cover() {
    let mut book = book_of(&[(10, &[5, 3]), (12, &[7])]);
    assert_eq!(take_liquidity(&mut book, 6), 10 * 5 + 10 * 1);
    assert_eq!(book, book_of(&[(10, &[2]), (12, &[7])]));
    assert_eq!(take_liquidity(&mut book, 1), 10);
    assert_eq!(book, book_of(&[(10, &[1]), (12, &[7])]));
}

#[test]
fn a_taking_that_uses_a_price_up_removes_it() {
    let mut book = book_of(&[(10, &[5, 3]), (12, &[7])]);
    assert_eq!(take_liquidity(&mut book, 8), 80);
    assert_eq!(book, book_of(&[(12, &[7])]));
}

#[test]
fn a_taking_goes_on_at_the_next_price() {
    let mut book = book_of(&[(10, &[5, 3]), (12, &[7]), (15, &[1, 1])]);
    assert_eq!(take_liquidity(&mut book, 10), 10 * 8 + 12 * 2);
    assert_eq!(book, book_of(&[(12, &[5]), (15, &[1, 1])]));
    assert_eq!(take_liquidity(&mut book, 7), 12 * 5 + 15 * 2);
    assert_eq!(book, BTreeMap::new());
}

#[test]
fn a_taking_that_ends_with_an_order_leaves_the_next_one_whole() {
    let mut book = book_of(&[(10, &[5, 3])]);
    assert_eq!(take_liquidity(&mut book, 5), 50);
    assert_eq!(book, book_of(&[(10, &[3])]));
}

#[test]
fn orders_of_no_size_go_with_the_taking_that_reaches_them() {
    let mut book = book_of(&[(10, &[0, 5, 0, 0, 3])]);
    assert_eq!(take_liquidity(&mut book, 5), 50);
    assert_eq!(book, book_of(&[(10, &[3])]));
    let mut book = book_of(&[(10, &[0, 5])]);
    assert_eq!(take_liquidity(&mut book, 0), 0);
    assert_eq!(book, book_of(&[(10, &[0, 5])]));
}

#[test]
fn an_empty_queue_is_passed_over() {
    let mut book = book_of(&[(10, &[]), (12, &[7])]);
    assert_eq!(take_liquidity(&mut book, 3), 36);
    assert_eq!(book, book_of(&[(12, &[4])]));
    let mut book = book_of(&[(10, &[]), (12, &[7])]);
    remove_order(&mut book, 0);
    assert_eq!(book, book_of(&[(10, &[])]));
}

#[test]
fn the_cost_may_reach_the_greatest_number() {
    let mut book = book_of(&[(u64::MAX, &[1, 1])]);
    assert_eq!(take_liquidity(&mut book, 1), u64::MAX);
    assert_eq!(book, book_of(&[(u64::MAX, &[1])]));
    let mut book = book_of(&[(1, &[u64::MAX])]);
    assert_eq!(take_liquidity(&mut book, u64::MAX), u64::MAX);
    assert_eq!(book, BTreeMap::new());
}

#[test]
fn a_book_has_no_order_past_its_last() {
    let book = book_of(&[(12, &[7, 8]), (10, &[5, 3])]);
    assert_eq!(locate(&book, 3), Some((12, 1)));
    assert_eq!(locate(&book, 4), None);
    assert_eq!(locate(&book, u64::MAX), None);
    assert_eq!(locate(&BTreeMap::new(), 0), None);
}

#[test]
fn a_quote_is_what_the_taking_costs() {
    let book = book_of(&[(10, &[5, 3]), (12, &[7]), (15, &[1, 1])]);
    for amount in 0..=17 {
        let mut copy = book.clone();
        assert_eq!(quote(&book, amount), Some(take_liquidity(&mut copy, amount)));
    }
    assert_eq!(quote(&book, 0), Some(0));
    assert_eq!(quote(&book, 6), Some(60));
    assert_eq!(quote(&book, 8), Some(80));
    assert_eq!(quote(&book, 10), Some(104));
    assert_eq!(quote(&book, 17), Some(80 + 84 + 30));
}

#[test]
fn there_is_no_quote_for_more_than_the_book_holds() {
    let book = book_of(&[(10, &[5, 3]), (12, &[7])]);
    assert_eq!(quote(&book, 15), Some(164));
    assert_eq!(quote(&book, 16), None);
    assert_eq!(quote(&BTreeMap::new(), 1), None);
    assert_eq!(quote(&BTreeMap::new(), 0), Some(0));
    assert_eq!(quote(&book_of(&[(10, &[])]), 1), None);
}

#[test]
fn there_is_no_quote_for_a_cost_past_the_greatest_number() {
    let book = book_of(&[(u64::MAX, &[1, 1])]);
    assert_eq!(quote(&book, 1), Some(u64::MAX));
    assert_eq!(quote(&book, 2), None);
    let book = book_of(&[(1 << 32, &[1 << 32])]);
    assert_eq!(quote(&book, (1 << 32) - 1), Some(((1u64 << 32) - 1) << 32));
    assert_eq!(quote(&book, 1 << 32), None);
    let book = book_of(&[(2, &[u64::MAX / 2]), (3, &[1])]);
    assert_eq!(quote(&book, u64::MAX / 2), Some(u64::MAX - 1));
    assert_eq!(quote(&book, u64::MAX / 2 + 1), None);
}

fn plain_add(book: &mut BTreeMap<u64, VecDeque<u64>>, price: u64, amount: u64) {
    book.entry(price).or_insert(VecDeque::new()).push_back(amount);
}

fn plain_remove(book: &mut BTreeMap<u64, VecDeque<u64>>, index: u64) {
    let mut rest = index as usize;
    let mut found = None;
    for (price, queue) in book.iter_mut() {
        if rest < queue.len() {
            queue.remove(rest);
            found = Some((*price, queue.is_empty()));
            break;
        }
        rest -= queue.len();
    }
    if let Some((price, true)) = found {
        book.remove(&price);
    }
}

fn plain_take(book: &mut BTreeMap<u64, VecDeque<u64>>, amount: u64) -> u64 {
    let mut remaining = amount;
    let mut cost = 0;
    while remaining > 0 {
        let mut entry = book.first_entry().unwrap();
        let price = *entry.key();
        let queue = entry.get_mut();
        while !queue.is_empty() && remaining >= queue[0] {
            remaining -= queue[0];
            cost += price * queue[0];
            queue.pop_front();
        }
        if !queue.is_empty() {
            queue[0] -= remaining;
            cost += price * remaining;
            remaining = 0;
        } else {
            book.remove(&price);
        }
    }
    cost
}

fn orders_in(book: &BTreeMap<u64, VecDeque<u64>>) -> u64 {
    book.values().map(|queue| queue.len() as u64).sum()
}

fn liquidity_in(book: &BTreeMap<u64, VecDeque<u64>>) -> u64 {
    book.values().map(|queue| queue.iter().sum::<u64>()).sum()
}

#[test]
fn the_book_follows_a_plain_book_through_a_long_run() {
    let mut book = BTreeMap::new();
    let mut plain = BTreeMap::new();
    let mut seed: u64 = 0x2545_f491_4f6c_dd1d;
    let mut next = |bound: u64| {
        seed ^= seed << 13;
        seed ^= seed >> 7;
        seed ^= seed << 17;
        seed % bound
    };
    for _ in 0..20_000 {
        match next(4) {
            0 | 1 => {
                let price = 1 + next(40);
                let amount = next(30);
                add_liquidity(&mut book, price, amount);
                plain_add(&mut plain, price, amount);
            }
            2 => {
                let orders = orders_in(&plain);
                let index = next(orders + 3);
                assert_eq!(locate(&book, index).is_some(), index < orders);
                if index < orders {
                    remove_order(&mut book, index);
                    plain_remove(&mut plain, index);
                }
            }
            _ => {
                let held = liquidity_in(&plain);
                let amount = next(held + 20);
                assert_eq!(quote(&book, amount).is_some(), amount <= held);
                if amount <= held {
                    let cost = take_liquidity(&mut book, amount);
                    assert_eq!(cost, plain_take(&mut plain, amount));
                }
            }
        }
        assert_eq!(book, plain);
        assert_eq!(first_price(&book), plain.keys().next().copied());
    }
}
