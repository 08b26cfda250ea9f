//! The order book: resting orders queued by price, lowest price first, and at
//! one price in the order in which they came.

use core::cmp::Ordering;
use std::collections::BTreeMap;
use std::collections::VecDeque;
use vstd::prelude::*;
use vstd::std_specs::btree::increasing_seq;
use vstd::std_specs::cmp::OrdSpec;
use vstd::std_specs::iter::IteratorSpec;

verus! {

/// The book as the proofs see it: at each price the sizes of the orders that
/// rest there, oldest first.
pub open spec fn levels(book: Map<u64, VecDeque<u64>>) -> Map<u64, Seq<u64>> {
    book.map_values(|q: VecDeque<u64>| q@)
}

/// The book after an order of size `amount` has come to rest at `price`.
pub open spec fn added(m: Map<u64, Seq<u64>>, price: u64, amount: u64) -> Map<u64, Seq<u64>> {
    m.insert(
        price,
        if m.contains_key(price) {
            m[price].push(amount)
        } else {
            seq![amount]
        },
    )
}

/// Queues an order of size `amount` behind the orders that rest at `price`.
pub fn add_liquidity(price_to_order_queue: &mut BTreeMap<u64, VecDeque<u64>>, price: u64, amount: u64)
    ensures
        levels(final(price_to_order_queue)@) == added(levels(old(price_to_order_queue)@), price, amount),
{
    let mut order_queue = match price_to_order_queue.remove(&price) {
        Some(queue) => queue,
        None => VecDeque::new(),
    };
    order_queue.push_back(amount);
    price_to_order_queue.insert(price, order_queue);
    assert(levels(price_to_order_queue@) =~= added(levels(old(price_to_order_queue)@), price, amount));
}

/// The book holds a queue at finitely many prices.
pub proof fn lemma_levels_finite(book: &BTreeMap<u64, VecDeque<u64>>)
    ensures
        levels(book@).dom() == book@.dom(),
        levels(book@).dom().finite(),
{
    assert(book@.dom().finite());
    assert(levels(book@).dom() =~= book@.dom());
}

/// Whether `p` is the lowest price at which the book holds a queue.
pub open spec fn is_least(m: Map<u64, Seq<u64>>, p: u64) -> bool {
    m.contains_key(p) && forall|q: u64| m.contains_key(q) ==> p <= q
}

/// The lowest price at which the book holds a queue.
pub open spec fn least(m: Map<u64, Seq<u64>>) -> u64 {
    choose|p: u64| is_least(m, p)
}

/// Prices in increasing order ascend.
proof fn lemma_ascending(prices: Seq<u64>)
    requires
        increasing_seq(prices),
    ensures
        forall|i: int, j: int| 0 <= i < j < prices.len() ==> prices[i] < prices[j],
{
    broadcast use vstd::laws_cmp::group_laws_cmp;
    vstd::std_specs::btree::axiom_increasing_seq_meaning(prices);
    assert forall|i: int, j: int| 0 <= i < j < prices.len() implies prices[i] < prices[j] by {
        assert(prices[i].cmp_spec(&prices[j]) == Ordering::Less);
    }
}

/// The lowest price at which the book holds a queue, if it holds any.
pub fn first_price(price_to_order_queue: &BTreeMap<u64, VecDeque<u64>>) -> (first: Option<u64>)
    ensures
        match first {
            Some(p) => is_least(levels(price_to_order_queue@), p),
            None => levels(price_to_order_queue@).dom() =~= Set::<u64>::empty(),
        },
{
    for entry in entries: price_to_order_queue.iter()
        invariant
            entries.seq().unref().to_set() == price_to_order_queue@.kv_pairs(),
            increasing_seq(entries.seq().map_values(|kv: (&u64, &VecDeque<u64>)| *kv.0)),
            entries.index() == 0,
    {
        proof {
            let all = entries.seq();
            let prices = all.map_values(|kv: (&u64, &VecDeque<u64>)| *kv.0);
            assert(all[0] == entry);
            assert(prices[0] == *entry.0);
            assert(all.unref()[0] == (*entry.0, *entry.1));
            assert(all.unref().to_set().contains((*entry.0, *entry.1)));
            assert forall|q: u64| levels(price_to_order_queue@).contains_key(q) implies *entry.0
                <= q by {
                let kv = (q, price_to_order_queue@[q]);
                assert(price_to_order_queue@.kv_pairs().contains(kv));
                assert(all.unref().to_set().contains(kv));
                let j = choose|j: int| 0 <= j < all.unref().len() && all.unref()[j] == kv;
                assert(prices[j] == q);
                if j > 0 {
                    lemma_ascending(prices);
                    assert(prices[0] < prices[j]);
                }
            }
        }
        return Some(*entry.0);
    }
    proof {
        assert(levels(price_to_order_queue@).dom() =~= Set::<u64>::empty());
    }
    None
}

/// Whether the book holds a queue at any price.
pub open spec fn has_least(m: Map<u64, Seq<u64>>) -> bool {
    exists|p: u64| is_least(m, p)
}

/// The lowest price of a book is its one lowest price.
pub proof fn lemma_least(m: Map<u64, Seq<u64>>, p: u64)
    requires
        is_least(m, p),
    ensures
        has_least(m),
        least(m) == p,
{
    assert(is_least(m, least(m)));
}

/// What is left of a queue, of an amount to take and what the taking costs.
pub struct Fill {
    pub queue: Seq<u64>,
    pub rest: int,
    pub cost: int,
}

/// Takes `amount` from the front of the queue at `price`: each order that the
/// amount covers goes whole, and the first that it does not cover is cut down
/// by what is left of the amount.
pub open spec fn fill(queue: Seq<u64>, price: u64, amount: int) -> Fill
    decreases queue.len(),
{
    if queue.len() == 0 {
        Fill { queue, rest: amount, cost: 0 }
    } else if amount >= queue[0] {
        let next = fill(queue.drop_first(), price, amount - queue[0]);
        Fill { cost: price * queue[0] + next.cost, ..next }
    } else {
        Fill { queue: queue.update(0, (queue[0] - amount) as u64), rest: 0, cost: price * amount }
    }
}

/// The sizes of a queue's orders, added up.
pub open spec fn total(queue: Seq<u64>) -> int
    decreases queue.len(),
{
    if queue.len() == 0 {
        0
    } else {
        queue[0] + total(queue.drop_first())
    }
}

/// The sizes of all orders of the book, added up.
pub open spec fn liquidity(m: Map<u64, Seq<u64>>) -> int
    decreases m.dom().len(),
    when m.dom().finite()
{
    if !has_least(m) {
        0
    } else {
        total(m[least(m)]) + liquidity(m.remove(least(m)))
    }
}

/// What is left of a book after a taking, and what the taking costs.
pub struct Taken {
    pub book: Map<u64, Seq<u64>>,
    pub cost: int,
}

/// Takes `amount` from the book, lowest price first. A price whose queue is
/// used up leaves the book; the taking ends at the first order that the
/// amount does not cover, or with the amount.
pub open spec fn taken(m: Map<u64, Seq<u64>>, amount: int) -> Taken
    decreases m.dom().len(),
    when m.dom().finite()
{
    if amount <= 0 || !has_least(m) {
        Taken { book: m, cost: 0 }
    } else {
        let part = fill(m[least(m)], least(m), amount);
        if part.queue.len() == 0 {
            let next = taken(m.remove(least(m)), part.rest);
            Taken { cost: part.cost + next.cost, ..next }
        } else {
            Taken { book: m.insert(least(m), part.queue), cost: part.cost }
        }
    }
}

/// A taking costs nothing less than nothing, leaves no more than was asked
/// for, and uses a queue up only if the amount covers all of it.
pub proof fn lemma_fill(queue: Seq<u64>, price: u64, amount: int)
    requires
        amount >= 0,
    ensures
        fill(queue, price, amount).cost >= 0,
        fill(queue, price, amount).rest >= 0,
        fill(queue, price, amount).queue.len() == 0 ==> fill(queue, price, amount).rest + total(
            queue,
        ) == amount,
        fill(queue, price, amount).queue.len() > 0 ==> fill(queue, price, amount).rest == 0,
    decreases queue.len(),
{
    if queue.len() > 0 {
        if amount >= queue[0] {
            lemma_fill(queue.drop_first(), price, amount - queue[0]);
            assert(price * queue[0] >= 0) by (nonlinear_arith)
                requires
                    price >= 0,
                    queue[0] >= 0,
            ;
        } else {
            assert(price * amount >= 0) by (nonlinear_arith)
                requires
                    price >= 0,
                    amount >= 0,
            ;
        }
    }
}

/// No book holds less than nothing.
pub proof fn lemma_liquidity(m: Map<u64, Seq<u64>>)
    requires
        m.dom().finite(),
    ensures
        liquidity(m) >= 0,
    decreases m.dom().len(),
{
    if has_least(m) {
        lemma_total(m[least(m)]);
        lemma_liquidity(m.remove(least(m)));
    }
}

/// No queue holds less than nothing.
pub proof fn lemma_total(queue: Seq<u64>)
    ensures
        total(queue) >= 0,
    decreases queue.len(),
{
    if queue.len() > 0 {
        lemma_total(queue.drop_first());
    }
}

/// A taking costs nothing less than nothing.
pub proof fn lemma_taken(m: Map<u64, Seq<u64>>, amount: int)
    requires
        m.dom().finite(),
    ensures
        taken(m, amount).cost >= 0,
        taken(m, amount).book.dom().finite(),
    decreases m.dom().len(),
{
    if amount > 0 && has_least(m) {
        lemma_fill(m[least(m)], least(m), amount);
        if fill(m[least(m)], least(m), amount).queue.len() == 0 {
            lemma_taken(m.remove(least(m)), fill(m[least(m)], least(m), amount).rest);
        }
    }
}

/// Takes `amount` from the book, lowest price first and oldest order first,
/// and returns what it costs: the size taken from each order times its price,
/// added up.
pub fn take_liquidity(price_to_order_queue: &mut BTreeMap<u64, VecDeque<u64>>, amount: u64) -> (cost:
    u64)
    requires
        amount <= liquidity(levels(old(price_to_order_queue)@)),
        taken(levels(old(price_to_order_queue)@), amount as int).cost <= u64::MAX,
    ensures
        levels(final(price_to_order_queue)@) == taken(
            levels(old(price_to_order_queue)@),
            amount as int,
        ).book,
        cost == taken(levels(old(price_to_order_queue)@), amount as int).cost,
{
    let ghost start = levels(price_to_order_queue@);
    let mut remaining_amount = amount;
    let mut cost: u64 = 0;
    proof {
        lemma_levels_finite(price_to_order_queue);
    }
    while remaining_amount > 0
        invariant
            start.dom().finite(),
            levels(price_to_order_queue@).dom().finite(),
            remaining_amount <= liquidity(levels(price_to_order_queue@)),
            taken(levels(price_to_order_queue@), remaining_amount as int).book == taken(
                start,
                amount as int,
            ).book,
            cost + taken(levels(price_to_order_queue@), remaining_amount as int).cost == taken(
                start,
                amount as int,
            ).cost,
            taken(start, amount as int).cost <= u64::MAX,
        decreases remaining_amount, levels(price_to_order_queue@).dom().len(),
    {
        let ghost here = levels(price_to_order_queue@);
        let ghost asked = remaining_amount as int;
        let ghost paid = cost as int;
        let first = first_price(price_to_order_queue);
        proof {
            if first is None {
                assert(!has_least(here)) by {
                    if has_least(here) {
                        let p = choose|p: u64| is_least(here, p);
                        assert(here.dom().contains(p));
                    }
                }
            }
        }
        let price = first.unwrap();
        let taken_queue = price_to_order_queue.remove(&price);
        let mut order_queue = taken_queue.unwrap();
        let ghost queue = order_queue@;
        proof {
            lemma_least(here, price);
            assert(here[price] == queue);
            assert(levels(price_to_order_queue@) =~= here.remove(price));
            lemma_fill(queue, price, asked);
            lemma_taken(here.remove(price), fill(queue, price, asked).rest);
            lemma_total(queue);
            assert(liquidity(here) == total(queue) + liquidity(here.remove(price)));
        }
        while order_queue.len() > 0 && remaining_amount >= order_queue[0]
            invariant
                0 <= paid <= cost,
                fill(queue, price, asked).queue == fill(order_queue@, price, remaining_amount as int).queue,
                fill(queue, price, asked).rest == fill(order_queue@, price, remaining_amount as int).rest,
                fill(queue, price, asked).cost == cost - paid + fill(
                    order_queue@,
                    price,
                    remaining_amount as int,
                ).cost,
                paid + fill(queue, price, asked).cost <= u64::MAX,
            decreases order_queue.len(),
        {
            let ghost before = order_queue@;
            let front_order_amount = order_queue.pop_front().unwrap();
            proof {
                assert(order_queue@ == before.drop_first());
                lemma_fill(order_queue@, price, remaining_amount - front_order_amount);
            }
            remaining_amount -= front_order_amount;
            cost += price * front_order_amount;
        }
        proof {
            lemma_fill(order_queue@, price, remaining_amount as int);
        }
        if order_queue.len() > 0 {
            let ghost before = order_queue@;
            let front_order_amount = order_queue.pop_front().unwrap();
            order_queue.push_front(front_order_amount - remaining_amount);
            proof {
                assert(order_queue@ =~= before.update(0, (before[0] - remaining_amount) as u64));
            }
            cost += price * remaining_amount;
            remaining_amount = 0;
            price_to_order_queue.insert(price, order_queue);
            proof {
                assert(levels(price_to_order_queue@) =~= here.insert(price, order_queue@));
            }
        }
        proof {
            lemma_levels_finite(price_to_order_queue);
            lemma_liquidity(levels(price_to_order_queue@));
        }
    }
    cost
}

/// The book without order `off` of the queue at price `p`. A price whose
/// last order goes leaves the book.
pub open spec fn struck(m: Map<u64, Seq<u64>>, p: u64, off: int) -> Map<u64, Seq<u64>> {
    if m[p].remove(off).len() == 0 {
        m.remove(p)
    } else {
        m.insert(p, m[p].remove(off))
    }
}

/// The book without its order number `n`, the orders counted from the lowest
/// price up and at one price from the oldest on.
pub open spec fn without(m: Map<u64, Seq<u64>>, n: int) -> Map<u64, Seq<u64>>
    decreases m.dom().len(),
    when m.dom().finite()
{
    if !has_least(m) {
        m
    } else if n < m[least(m)].len() {
        struck(m, least(m), n)
    } else {
        without(m.remove(least(m)), n - m[least(m)].len()).insert(least(m), m[least(m)])
    }
}

/// Number of orders in the book.
pub open spec fn order_count(m: Map<u64, Seq<u64>>) -> int
    decreases m.dom().len(),
    when m.dom().finite()
{
    if !has_least(m) {
        0
    } else {
        m[least(m)].len() + order_count(m.remove(least(m)))
    }
}

/// Where order number `n` of the book rests: its price, and its place in the
/// queue at that price.
pub open spec fn place_of(m: Map<u64, Seq<u64>>, n: int) -> (u64, int)
    decreases m.dom().len(),
    when m.dom().finite()
{
    if !has_least(m) || n < m[least(m)].len() {
        (least(m), n)
    } else {
        place_of(m.remove(least(m)), n - m[least(m)].len())
    }
}

/// The book without its order number `n` is the book without the order at
/// the place where that order rests.
pub proof fn lemma_place(m: Map<u64, Seq<u64>>, n: int)
    requires
        m.dom().finite(),
        0 <= n < order_count(m),
    ensures
        m.contains_key(place_of(m, n).0),
        0 <= place_of(m, n).1 < m[place_of(m, n).0].len(),
        without(m, n) == struck(m, place_of(m, n).0, place_of(m, n).1),
    decreases m.dom().len(),
{
    let p = least(m);
    assert(is_least(m, p));
    if n >= m[p].len() {
        let rest = m.remove(p);
        lemma_place(rest, n - m[p].len());
        let (q, off) = place_of(rest, n - m[p].len());
        assert(struck(rest, q, off).insert(p, m[p]) =~= struck(m, q, off));
    }
}

/// The part of the book at the prices from position `j` on of its prices in
/// ascending order.
pub open spec fn upper(m: Map<u64, Seq<u64>>, prices: Seq<u64>, j: int) -> Map<u64, Seq<u64>> {
    m.remove_keys(prices.subrange(0, j).to_set())
}

/// Whether `prices` holds the prices of the book in ascending order.
pub open spec fn in_order(m: Map<u64, Seq<u64>>, prices: Seq<u64>) -> bool {
    &&& prices.to_set() == m.dom()
    &&& forall|i: int, j: int| 0 <= i < j < prices.len() ==> prices[i] < prices[j]
}

/// One price further on: the price at position `j` is the lowest of the upper
/// part, and without it the upper part is the upper part from `j + 1` on.
pub proof fn lemma_upper(m: Map<u64, Seq<u64>>, prices: Seq<u64>, j: int)
    requires
        m.dom().finite(),
        in_order(m, prices),
        0 <= j < prices.len(),
    ensures
        upper(m, prices, j).dom().finite(),
        is_least(upper(m, prices, j), prices[j]),
        upper(m, prices, j)[prices[j]] == m[prices[j]],
        upper(m, prices, j).remove(prices[j]) == upper(m, prices, j + 1),
        upper(m, prices, j + 1).dom().finite(),
{
    let up = upper(m, prices, j);
    let head = prices.subrange(0, j);
    let head2 = prices.subrange(0, j + 1);
    let seen = head.to_set();
    let seen2 = head2.to_set();
    assert(prices.to_set().contains(prices[j]));
    assert(!seen.contains(prices[j])) by {
        if seen.contains(prices[j]) {
            let i = choose|i: int| 0 <= i < head.len() && head[i] == prices[j];
            assert(prices[i] < prices[j]);
        }
    }
    assert forall|q: u64| up.contains_key(q) implies prices[j] <= q by {
        assert(prices.to_set().contains(q));
        let i = choose|i: int| 0 <= i < prices.len() && prices[i] == q;
        if i < j {
            assert(head[i] == q);
            assert(seen.contains(q));
        } else if i > j {
            assert(prices[j] < prices[i]);
        }
    }
    assert forall|q: u64| seen2.contains(q) <==> (seen.contains(q) || q == prices[j]) by {
        if seen2.contains(q) {
            let i = choose|i: int| 0 <= i < head2.len() && head2[i] == q;
            if i < j {
                assert(head[i] == q);
            }
        }
        if seen.contains(q) {
            let i = choose|i: int| 0 <= i < head.len() && head[i] == q;
            assert(head2[i] == q);
        }
        if q == prices[j] {
            assert(head2[j] == q);
        }
    }
    assert(up.remove(prices[j]) =~= upper(m, prices, j + 1));
    assert(up.dom().subset_of(m.dom()));
    vstd::set_lib::lemma_len_subset(up.dom(), m.dom());
}

/// The prices of the entries that a walk over the book yields are the prices
/// of the book.
pub proof fn lemma_prices(
    book: &BTreeMap<u64, VecDeque<u64>>,
    all: Seq<(&u64, &VecDeque<u64>)>,
)
    requires
        all.unref().to_set() == book@.kv_pairs(),
    ensures
        all.map_values(|kv: (&u64, &VecDeque<u64>)| *kv.0).to_set() == levels(book@).dom(),
{
    let prices = all.map_values(|kv: (&u64, &VecDeque<u64>)| *kv.0);
    let m = levels(book@);
    assert(prices.to_set() =~= m.dom()) by {
        assert forall|q: u64| prices.to_set().contains(q) implies m.dom().contains(q) by {
            let i = choose|i: int| 0 <= i < prices.len() && prices[i] == q;
            assert(all.unref()[i] == (*all[i].0, *all[i].1));
            assert(all.unref().to_set().contains((*all[i].0, *all[i].1)));
        }
        assert forall|q: u64| m.dom().contains(q) implies prices.to_set().contains(q) by {
            let kv = (q, book@[q]);
            assert(book@.kv_pairs().contains(kv));
            assert(all.unref().to_set().contains(kv));
            let i = choose|i: int| 0 <= i < all.unref().len() && all.unref()[i] == kv;
            assert(prices[i] == q);
        }
    }
}

/// Where order number `index` of the book rests: its price, and its place in
/// the queue at that price. The book has no such order where it has `index`
/// orders or fewer.
pub fn locate(price_to_order_queue: &BTreeMap<u64, VecDeque<u64>>, index: u64) -> (place: Option<
    (u64, usize),
>)
    ensures
        place is Some <==> index < order_count(levels(price_to_order_queue@)),
        place matches Some((price, offset)) ==> (price, offset as int) == place_of(
            levels(price_to_order_queue@),
            index as int,
        ),
{
    let ghost m = levels(price_to_order_queue@);
    let ghost all = vstd::std_specs::btree::spec_btree_map_iter(price_to_order_queue).remaining();
    let ghost prices = all.map_values(|kv: (&u64, &VecDeque<u64>)| *kv.0);
    let mut rest = index;
    proof {
        lemma_levels_finite(price_to_order_queue);
        assert(upper(m, prices, 0) =~= m);
    }
    for entry in entries: price_to_order_queue.iter()
        invariant
            m == levels(price_to_order_queue@),
            m.dom().finite(),
            entries.seq() == all,
            prices == all.map_values(|kv: (&u64, &VecDeque<u64>)| *kv.0),
            all.unref().to_set() == price_to_order_queue@.kv_pairs(),
            increasing_seq(prices),
            rest <= index,
            upper(m, prices, entries.index() as int).dom().finite(),
            order_count(m) == index - rest + order_count(upper(m, prices, entries.index() as int)),
            place_of(m, index as int) == place_of(
                upper(m, prices, entries.index() as int),
                rest as int,
            ),
    {
        let ghost j = entries.index() as int;
        proof {
            lemma_ascending(prices);
            lemma_prices(price_to_order_queue, all);
            assert(all.unref()[j] == (*entry.0, *entry.1));
            assert(all.unref().to_set().contains((*entry.0, *entry.1)));
            assert(prices[j] == *entry.0);
            assert(m[*entry.0] == entry.1@);
            lemma_upper(m, prices, j);
            lemma_least(upper(m, prices, j), prices[j]);
            lemma_order_count(upper(m, prices, j + 1));
        }
        let len = entry.1.len();
        if rest < len as u64 {
            return Some((*entry.0, rest as usize));
        }
        rest = rest - len as u64;
    }
    proof {
        lemma_prices(price_to_order_queue, all);
        assert(upper(m, prices, prices.len() as int).dom() =~= Set::<u64>::empty()) by {
            assert forall|q: u64| !upper(m, prices, prices.len() as int).dom().contains(q) by {
                if m.dom().contains(q) {
                    assert(prices.to_set().contains(q));
                    let i = choose|i: int| 0 <= i < prices.len() && prices[i] == q;
                    assert(prices.subrange(0, prices.len() as int)[i] == q);
                }
            }
        }
        assert(!has_least(upper(m, prices, prices.len() as int)));
    }
    None
}

/// No book holds fewer orders than none.
pub proof fn lemma_order_count(m: Map<u64, Seq<u64>>)
    requires
        m.dom().finite(),
    ensures
        order_count(m) >= 0,
    decreases m.dom().len(),
{
    if has_least(m) {
        lemma_order_count(m.remove(least(m)));
    }
}

/// A taking from the front of a queue, seen from behind the first `i` orders
/// that it covers.
pub proof fn lemma_fill_on(queue: Seq<u64>, price: u64, amount: int, i: int)
    requires
        0 <= i < queue.len(),
        amount >= queue[i],
    ensures
        fill(queue.skip(i), price, amount) == (Fill {
            cost: price * queue[i] + fill(queue.skip(i + 1), price, amount - queue[i]).cost,
            ..fill(queue.skip(i + 1), price, amount - queue[i])
        }),
        total(queue.skip(i)) == queue[i] + total(queue.skip(i + 1)),
{
    assert(queue.skip(i).drop_first() =~= queue.skip(i + 1));
}

/// What taking `amount` from the book would cost, if the book holds as much
/// and the cost is a number that can be returned. The book is left alone.
pub fn quote(price_to_order_queue: &BTreeMap<u64, VecDeque<u64>>, amount: u64) -> (cost: Option<u64>)
    ensures
        cost is Some <==> amount <= liquidity(levels(price_to_order_queue@)) && taken(
            levels(price_to_order_queue@),
            amount as int,
        ).cost <= u64::MAX,
        cost matches Some(c) ==> c == taken(levels(price_to_order_queue@), amount as int).cost,
{
    let ghost m = levels(price_to_order_queue@);
    let ghost all = vstd::std_specs::btree::spec_btree_map_iter(price_to_order_queue).remaining();
    let ghost prices = all.map_values(|kv: (&u64, &VecDeque<u64>)| *kv.0);
    let mut rest = amount;
    let mut cost: u64 = 0;
    proof {
        lemma_levels_finite(price_to_order_queue);
        lemma_liquidity(m);
        assert(upper(m, prices, 0) =~= m);
    }
    if amount == 0 {
        return Some(0);
    }
    for entry in entries: price_to_order_queue.iter()
        invariant
            m == levels(price_to_order_queue@),
            m.dom().finite(),
            entries.seq() == all,
            prices == all.map_values(|kv: (&u64, &VecDeque<u64>)| *kv.0),
            all.unref().to_set() == price_to_order_queue@.kv_pairs(),
            increasing_seq(prices),
            rest > 0,
            amount <= liquidity(m) <==> rest <= liquidity(upper(m, prices, entries.index() as int)),
            taken(m, amount as int).cost == cost + taken(
                upper(m, prices, entries.index() as int),
                rest as int,
            ).cost,
    {
        let ghost j = entries.index() as int;
        let ghost asked = rest as int;
        let ghost paid = cost as int;
        let price = *entry.0;
        let order_queue = entry.1;
        let ghost queue = order_queue@;
        proof {
            lemma_ascending(prices);
            lemma_prices(price_to_order_queue, all);
            assert(all.unref()[j] == (*entry.0, *entry.1));
            assert(all.unref().to_set().contains((*entry.0, *entry.1)));
            assert(prices[j] == price);
            assert(m[price] == queue);
            lemma_upper(m, prices, j);
            lemma_least(upper(m, prices, j), price);
            lemma_fill(queue, price, asked);
            lemma_taken(upper(m, prices, j + 1), fill(queue, price, asked).rest);
            lemma_liquidity(upper(m, prices, j + 1));
            assert(queue.skip(0) =~= queue);
        }
        let mut i: usize = 0;
        while i < order_queue.len() && rest >= order_queue[i]
            invariant
                queue == order_queue@,
                0 <= i <= queue.len(),
                0 <= paid <= cost,
                m == levels(price_to_order_queue@),
                m.dom().finite(),
                taken(m, amount as int).cost >= paid + fill(queue, price, asked).cost,
                asked == rest + total(queue) - total(queue.skip(i as int)),
                fill(queue, price, asked).queue == fill(queue.skip(i as int), price, rest as int).queue,
                fill(queue, price, asked).rest == fill(queue.skip(i as int), price, rest as int).rest,
                fill(queue, price, asked).cost == cost - paid + fill(
                    queue.skip(i as int),
                    price,
                    rest as int,
                ).cost,
            decreases queue.len() - i,
        {
            let front_order_amount = order_queue[i];
            proof {
                lemma_fill_on(queue, price, rest as int, i as int);
                lemma_fill(queue.skip(i + 1), price, rest - front_order_amount);
            }
            let paid_here = match price.checked_mul(front_order_amount) {
                Some(product) => cost.checked_add(product),
                None => None,
            };
            match paid_here {
                Some(sum) => {
                    cost = sum;
                },
                None => {
                    return None;
                },
            }
            rest -= front_order_amount;
            i += 1;
        }
        proof {
            lemma_fill(queue.skip(i as int), price, rest as int);
            lemma_total(queue.skip(i as int));
        }
        if i < order_queue.len() {
            proof {
                assert(queue.skip(i as int)[0] == queue[i as int]);
                assert(total(queue.skip(i as int)) >= queue[i as int]) by {
                    assert(queue.skip(i as int).drop_first() =~= queue.skip(i + 1));
                    lemma_total(queue.skip(i + 1));
                }
            }
            let paid_here = match price.checked_mul(rest) {
                Some(product) => cost.checked_add(product),
                None => None,
            };
            return paid_here;
        }
        proof {
            assert(queue.skip(i as int) =~= Seq::<u64>::empty());
        }
        if rest == 0 {
            return Some(cost);
        }
    }
    proof {
        lemma_prices(price_to_order_queue, all);
        assert(upper(m, prices, prices.len() as int).dom() =~= Set::<u64>::empty()) by {
            assert forall|q: u64| !upper(m, prices, prices.len() as int).dom().contains(q) by {
                if m.dom().contains(q) {
                    assert(prices.to_set().contains(q));
                    let i = choose|i: int| 0 <= i < prices.len() && prices[i] == q;
                    assert(prices.subrange(0, prices.len() as int)[i] == q);
                }
            }
        }
        assert(!has_least(upper(m, prices, prices.len() as int)));
    }
    None
}

/// Takes order number `index` out of the book, the orders counted from the
/// lowest price up and at one price from the oldest on. A price whose last
/// order goes leaves the book.
pub fn remove_order(price_to_order_queue: &mut BTreeMap<u64, VecDeque<u64>>, index: u64)
    requires
        index < order_count(levels(old(price_to_order_queue)@)),
    ensures
        levels(final(price_to_order_queue)@) == without(
            levels(old(price_to_order_queue)@),
            index as int,
        ),
{
    let ghost m = levels(price_to_order_queue@);
    proof {
        lemma_levels_finite(price_to_order_queue);
        lemma_place(m, index as int);
    }
    let (price, index_in_current_order_queue) = locate(price_to_order_queue, index).unwrap();
    let found = price_to_order_queue.remove(&price);
    let mut order_queue = found.unwrap();
    order_queue.remove(index_in_current_order_queue);
    if order_queue.len() > 0 {
        price_to_order_queue.insert(price, order_queue);
    }
    proof {
        assert(levels(price_to_order_queue@) =~= struck(m, price, index_in_current_order_queue as int));
    }
}

} // verus!
