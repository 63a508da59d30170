//! What holds of matching in general: conservation of quantity, price
//! improvement, time priority, pruning of empty levels, and that a run is
//! determined by its orders.
use crate::matching::{
    best_price, book_wf, can_cross, crosses, empty_book, fill_level, fill_quantity, is_best,
    lemma_match_keeps_wf, lemma_rest_keeps_wf, level_wf, levels_wf, match_levels, no_worse,
    queue_at, rest_order, step, with_quantity, BookView, Levels,
};
use crate::model::{Order, OrderSide, Trade};
use vstd::prelude::*;

verus! {

/// The sum of the quantities of `trades`.
pub open spec fn traded_quantity(trades: Seq<Trade>) -> nat
    decreases trades.len(),
{
    if trades.len() == 0 {
        0
    } else {
        trades[0].quantity as nat + traded_quantity(trades.drop_first())
    }
}

/// The sum of the quantities of the orders of `level`.
pub open spec fn resting_quantity(level: Seq<Order>) -> nat
    decreases level.len(),
{
    if level.len() == 0 {
        0
    } else {
        level[0].quantity as nat + resting_quantity(level.drop_first())
    }
}

/// The traded quantity of two logs, one after the other, is the sum of theirs.
pub proof fn lemma_traded_quantity_concat(a: Seq<Trade>, b: Seq<Trade>)
    ensures
        traded_quantity(a + b) == traded_quantity(a) + traded_quantity(b),
    decreases a.len(),
{
    if a.len() == 0 {
        assert(a + b =~= b);
    } else {
        assert((a + b).drop_first() =~= a.drop_first() + b);
        lemma_traded_quantity_concat(a.drop_first(), b);
    }
}

/// The resting quantity of two queues, one after the other, is the sum of
/// theirs.
pub proof fn lemma_resting_quantity_concat(a: Seq<Order>, b: Seq<Order>)
    ensures
        resting_quantity(a + b) == resting_quantity(a) + resting_quantity(b),
    decreases a.len(),
{
    if a.len() == 0 {
        assert(a + b =~= b);
    } else {
        assert((a + b).drop_first() =~= a.drop_first() + b);
        lemma_resting_quantity_concat(a.drop_first(), b);
    }
}

/// Conservation at one price level: what the trades took from the incoming
/// quantity is what they took from the resting orders. The trades and what
/// is left of the incoming quantity add up to what came in, and the trades
/// and what is left of the level add up to what the level held.
pub proof fn lemma_fill_conserves(level: Seq<Order>, q: u64)
    ensures
        traded_quantity(fill_level(level, q).trades) + fill_level(level, q).left == q,
        traded_quantity(fill_level(level, q).trades) + resting_quantity(fill_level(level, q).rest)
            == resting_quantity(level),
    decreases level.len(),
{
    if level.len() > 0 {
        let head = level[0];
        let take = fill_quantity(q, head.quantity);
        let tail = fill_level(level.drop_first(), (q - take) as u64);
        lemma_fill_conserves(level.drop_first(), (q - take) as u64);
        let traded = if q > 0 {
            seq![Trade { price: head.price, quantity: take }]
        } else {
            Seq::empty()
        };
        let kept = if head.quantity > take {
            seq![Order { side: head.side, price: head.price, quantity: (head.quantity - take) as u64 }]
        } else {
            Seq::empty()
        };
        lemma_traded_quantity_concat(traded, tail.trades);
        lemma_resting_quantity_concat(kept, tail.rest);
        assert(traded_quantity(traded) == take) by {
            reveal_with_fuel(traded_quantity, 2);
            if q > 0 {
                assert(traded.len() == 1 && traded[0].quantity == take);
                assert(traded.drop_first().len() == 0);
            }
        }
        assert(resting_quantity(kept) == head.quantity - take) by {
            reveal_with_fuel(resting_quantity, 2);
            if head.quantity > take {
                assert(kept.len() == 1 && kept[0].quantity == head.quantity - take);
                assert(kept.drop_first().len() == 0);
            }
        }
    }
}

/// Conservation for the incoming order: the quantities of the trades that it
/// made and the quantity that is left of it add up to the quantity that it came with.
pub proof fn lemma_match_conserves(levels: Levels, taker: OrderSide, limit: u64, q: u64)
    requires
        levels.dom().finite(),
    ensures
        traded_quantity(match_levels(levels, taker, limit, q).trades) + match_levels(
            levels,
            taker,
            limit,
            q,
        ).left == q,
    decreases levels.dom().len(),
{
    if q == 0 || !can_cross(levels, taker, limit) {
    } else {
        let p = best_price(levels, taker);
        let fill = fill_level(levels[p], q);
        lemma_fill_conserves(levels[p], q);
        if fill.rest.len() > 0 {
        } else {
            let tail = match_levels(levels.remove(p), taker, limit, fill.left);
            lemma_match_conserves(levels.remove(p), taker, limit, fill.left);
            lemma_traded_quantity_concat(fill.trades, tail.trades);
        }
    }
}

/// The side of `book` on which an order of side `side` rests.
pub open spec fn own_side(book: BookView, side: OrderSide) -> Levels {
    match side {
        OrderSide::Buy => book.bids,
        OrderSide::Sell => book.asks,
    }
}

/// The side that an incoming order on `side` is matched against.
pub open spec fn opposite_side(book: BookView, side: OrderSide) -> Levels {
    match side {
        OrderSide::Buy => book.asks,
        OrderSide::Sell => book.bids,
    }
}

/// The trades that processing `order` adds to the log of `book`.
pub open spec fn trades_of(book: BookView, order: Order) -> Seq<Trade> {
    match_levels(opposite_side(book, order.side), order.side, order.price, order.quantity).trades
}

/// What is left of `order` after it was matched against `book`.
pub open spec fn left_of(book: BookView, order: Order) -> u64 {
    match_levels(opposite_side(book, order.side), order.side, order.price, order.quantity).left
}

/// Conservation for one processed order: the log grows by the order's
/// trades; their quantities and the order's remainder add up to its
/// quantity; and a positive remainder is what rests for it, at the back of
/// the queue at its own price on its own side, behind the orders that were
/// there before.
pub proof fn lemma_step_conserves(book: BookView, order: Order)
    requires
        book_wf(book),
    ensures
        step(book, order).trades == book.trades + trades_of(book, order),
        traded_quantity(trades_of(book, order)) + left_of(book, order) == order.quantity,
        left_of(book, order) > 0 ==> {
            let own = own_side(step(book, order), order.side);
            &&& own.contains_key(order.price)
            &&& own[order.price].len() > 0
            &&& own[order.price].last() == with_quantity(order, left_of(book, order))
            &&& own[order.price].drop_last() == queue_at(
                own_side(book, order.side),
                order.price,
            )
            &&& forall|p: u64|
                p != order.price ==> own.contains_key(p) == own_side(
                    book,
                    order.side,
                ).contains_key(p) && own[p] == own_side(book, order.side)[p]
        },
        left_of(book, order) == 0 ==> own_side(step(book, order), order.side) == own_side(
            book,
            order.side,
        ),
{
    lemma_match_conserves(
        opposite_side(book, order.side),
        order.side,
        order.price,
        order.quantity,
    );
    if left_of(book, order) > 0 {
        let before = queue_at(own_side(book, order.side), order.price);
        let resting = with_quantity(order, left_of(book, order));
        let own = own_side(step(book, order), order.side);
        assert(own[order.price] == before.push(resting));
        assert(before.push(resting).drop_last() =~= before);
    }
}

/// At one price level every trade is made at the price of the resting
/// orders.
pub proof fn lemma_fill_trade_prices(level: Seq<Order>, q: u64, price: u64)
    requires
        forall|i: int| 0 <= i < level.len() ==> (#[trigger] level[i]).price == price,
    ensures
        forall|j: int|
            0 <= j < fill_level(level, q).trades.len() ==> (#[trigger] fill_level(
                level,
                q,
            ).trades[j]).price == price,
    decreases level.len(),
{
    if level.len() > 0 {
        let take = fill_quantity(q, level[0].quantity);
        let tail = level.drop_first();
        assert forall|i: int| 0 <= i < tail.len() implies (#[trigger] tail[i]).price == price by {
            assert(tail[i] == level[i + 1]);
        }
        lemma_fill_trade_prices(tail, (q - take) as u64, price);
        let rest = fill_level(tail, (q - take) as u64);
        let whole = fill_level(level, q);
        assert forall|j: int| 0 <= j < whole.trades.len() implies (#[trigger] whole.trades[j]).price
            == price by {
            if q > 0 {
                if j > 0 {
                    assert(whole.trades[j] == rest.trades[j - 1]);
                } else {
                    assert(whole.trades[0].price == level[0].price);
                }
            } else {
                assert(whole.trades[j] == rest.trades[j]);
            }
        }
    }
}

/// Price improvement: every trade of an incoming order is made at the price
/// of a level that rested on the opposite side, and that price is no worse
/// for the taker than its limit: at most the limit for a buyer, at least the
/// limit for a seller.
pub proof fn lemma_trades_within_limit(
    levels: Levels,
    side: OrderSide,
    taker: OrderSide,
    limit: u64,
    q: u64,
)
    requires
        levels_wf(levels, side),
    ensures
        forall|j: int|
            0 <= j < match_levels(levels, taker, limit, q).trades.len() ==> {
                let t = #[trigger] match_levels(levels, taker, limit, q).trades[j];
                &&& levels.contains_key(t.price)
                &&& crosses(taker, limit, t.price)
            },
    decreases levels.dom().len(),
{
    if q == 0 || !can_cross(levels, taker, limit) {
    } else {
        let p = best_price(levels, taker);
        let witness = choose|b: u64| is_best(levels, taker, b) && crosses(taker, limit, b);
        assert(levels.contains_key(p) && levels.contains_key(witness));
        assert(p == witness);
        let fill = fill_level(levels[p], q);
        assert(level_wf(levels[p], side, p));
        lemma_fill_trade_prices(levels[p], q, p);
        if fill.rest.len() > 0 {
        } else {
            let after = levels.remove(p);
            assert forall|k: u64| #[trigger] after.contains_key(k) implies level_wf(
                after[k],
                side,
                k,
            ) by {
                assert(levels.contains_key(k));
            }
            lemma_trades_within_limit(after, side, taker, limit, fill.left);
            let tail = match_levels(after, taker, limit, fill.left);
            let whole = match_levels(levels, taker, limit, q);
            assert forall|j: int| 0 <= j < whole.trades.len() implies {
                let t = #[trigger] whole.trades[j];
                &&& levels.contains_key(t.price)
                &&& crosses(taker, limit, t.price)
            } by {
                if j >= fill.trades.len() {
                    assert(whole.trades[j] == tail.trades[j - fill.trades.len()]);
                    assert(after.contains_key(tail.trades[j - fill.trades.len()].price));
                }
            }
        }
    }
}

/// Level pruning, and the rest of the book's invariant: processing an order
/// keeps the book well formed, so afterwards no price on either side has an
/// empty queue.
pub proof fn lemma_step_keeps_wf(book: BookView, order: Order)
    requires
        book_wf(book),
    ensures
        book_wf(step(book, order)),
        forall|p: u64| #[trigger]
            step(book, order).bids.contains_key(p) ==> step(book, order).bids[p].len() > 0,
        forall|p: u64| #[trigger]
            step(book, order).asks.contains_key(p) ==> step(book, order).asks[p].len() > 0,
{
    let opposite = opposite_side(book, order.side);
    let m = match_levels(opposite, order.side, order.price, order.quantity);
    match order.side {
        OrderSide::Buy => {
            lemma_match_keeps_wf(opposite, order.side, order.price, order.quantity, OrderSide::Sell);
            if m.left > 0 {
                lemma_rest_keeps_wf(book.bids, with_quantity(order, m.left));
            }
        },
        OrderSide::Sell => {
            lemma_match_keeps_wf(opposite, order.side, order.price, order.quantity, OrderSide::Buy);
            if m.left > 0 {
                lemma_rest_keeps_wf(book.asks, with_quantity(order, m.left));
            }
        },
    }
}

/// The book after `orders` have been processed, one after the other, from an
/// empty book.
pub open spec fn replay(orders: Seq<Order>) -> BookView
    decreases orders.len(),
{
    if orders.len() == 0 {
        empty_book()
    } else {
        step(replay(orders.drop_last()), orders.last())
    }
}

/// Whether `states` are the books of one run over `orders`: the first is
/// empty, and each next one is what processing the next order makes of the
/// one before.
pub open spec fn is_run(states: Seq<BookView>, orders: Seq<Order>) -> bool {
    &&& states.len() == orders.len() + 1
    &&& states[0] == empty_book()
    &&& forall|i: int|
        0 <= i < orders.len() ==> #[trigger] states[i + 1] == step(states[i], orders[i])
}

/// Every book of a run is the replay of the orders before it.
pub proof fn lemma_run_is_replay(states: Seq<BookView>, orders: Seq<Order>, n: int)
    requires
        is_run(states, orders),
        0 <= n <= orders.len(),
    ensures
        states[n] == replay(orders.take(n)),
    decreases n,
{
    if n > 0 {
        lemma_run_is_replay(states, orders, n - 1);
        assert(orders.take(n).drop_last() =~= orders.take(n - 1));
        assert(orders.take(n).last() == orders[n - 1]);
        assert(states[(n - 1) + 1] == step(states[n - 1], orders[n - 1]));
    }
}

/// Replay is deterministic: two runs over the same orders, each from an
/// empty book, end with the same trades, bids and asks.
pub proof fn lemma_replay_deterministic(
    first: Seq<BookView>,
    second: Seq<BookView>,
    orders: Seq<Order>,
)
    requires
        is_run(first, orders),
        is_run(second, orders),
    ensures
        first.last() == second.last(),
        first.last() == replay(orders),
{
    lemma_run_is_replay(first, orders, orders.len() as int);
    lemma_run_is_replay(second, orders, orders.len() as int);
    assert(orders.take(orders.len() as int) =~= orders);
}

/// Every book that a replay reaches is well formed.
pub proof fn lemma_replay_wf(orders: Seq<Order>)
    ensures
        book_wf(replay(orders)),
    decreases orders.len(),
{
    if orders.len() > 0 {
        lemma_replay_wf(orders.drop_last());
        lemma_step_keeps_wf(replay(orders.drop_last()), orders.last());
    }
}

/// Whether every order of `level` has a positive quantity.
pub open spec fn all_positive(level: Seq<Order>) -> bool {
    forall|i: int| 0 <= i < level.len() ==> (#[trigger] level[i]).quantity >= 1
}

/// With nothing coming in, a level of positive quantities is left as it is
/// and nothing is traded.
pub proof fn lemma_fill_nothing(level: Seq<Order>)
    requires
        all_positive(level),
    ensures
        fill_level(level, 0).trades.len() == 0,
        fill_level(level, 0).rest == level,
        fill_level(level, 0).left == 0,
    decreases level.len(),
{
    if level.len() > 0 {
        let tail = level.drop_first();
        assert forall|i: int| 0 <= i < tail.len() implies (#[trigger] tail[i]).quantity >= 1 by {
            assert(tail[i] == level[i + 1]);
        }
        lemma_fill_nothing(tail);
        assert(fill_level(level, 0).rest =~= level);
    } else {
        assert(fill_level(level, 0).rest =~= level);
    }
}

/// Time priority at one price level, where `n` is the number of trades:
/// the trades are made against the first `n` orders of the level, one each
/// and in arrival order; all of these but the last are filled in full and
/// leave; the last leaves if it was filled in full and else stays at the
/// front with what is left of it; and the orders behind them stay as they
/// were, in their order.
pub proof fn lemma_fill_in_arrival_order(level: Seq<Order>, q: u64)
    requires
        all_positive(level),
    ensures
        ({
            let f = fill_level(level, q);
            let n = f.trades.len() as int;
            let gone = level.len() - f.rest.len();
            &&& n <= level.len()
            &&& q == 0 ==> n == 0
            &&& gone == n || (n > 0 && gone == n - 1)
            &&& forall|i: int|
                0 <= i < n ==> {
                    &&& (#[trigger] f.trades[i]).price == level[i].price
                    &&& 1 <= f.trades[i].quantity <= level[i].quantity
                }
            &&& forall|i: int|
                0 <= i < n - 1 ==> (#[trigger] f.trades[i]).quantity == level[i].quantity
            &&& n > 0 && gone == n ==> f.trades[n - 1].quantity == level[n - 1].quantity
            &&& n > 0 && gone == n - 1 ==> f.rest[0] == with_quantity(
                level[n - 1],
                (level[n - 1].quantity - f.trades[n - 1].quantity) as u64,
            ) && f.trades[n - 1].quantity < level[n - 1].quantity
            &&& forall|j: int| n <= j < level.len() ==> f.rest[j - gone] == #[trigger] level[j]
        }),
    decreases level.len(),
{
    let f = fill_level(level, q);
    let n = f.trades.len() as int;
    let gone = level.len() - f.rest.len();
    if q == 0 {
        lemma_fill_nothing(level);
    } else if level.len() > 0 {
        let head = level[0];
        let take = fill_quantity(q, head.quantity);
        let tail = level.drop_first();
        let left = (q - take) as u64;
        let t = fill_level(tail, left);
        let nt = t.trades.len() as int;
        assert forall|i: int| 0 <= i < tail.len() implies (#[trigger] tail[i]).quantity >= 1 by {
            assert(tail[i] == level[i + 1]);
        }
        lemma_fill_in_arrival_order(tail, left);
        assert(n == nt + 1);
        assert(f.trades[0] == Trade { price: head.price, quantity: take });
        assert forall|i: int| 1 <= i < n implies #[trigger] f.trades[i] == t.trades[i - 1] by {}
        assert forall|i: int| 0 <= i < tail.len() implies #[trigger] tail[i] == level[i + 1] by {}
        if head.quantity > take {
            lemma_fill_nothing(tail);
            assert(f.rest[0] == with_quantity(head, (head.quantity - take) as u64));
            assert forall|j: int| n <= j < level.len() implies f.rest[j - gone] == #[trigger] level[j] by {
                assert(f.rest[j] == tail[j - 1]);
            }
        } else {
            assert(f.rest =~= t.rest);
            let gone_t = tail.len() - t.rest.len();
            assert(gone == gone_t + 1);
            assert forall|i: int| 0 <= i < n implies {
                &&& (#[trigger] f.trades[i]).price == level[i].price
                &&& 1 <= f.trades[i].quantity <= level[i].quantity
            } by {
                if i > 0 {
                    assert(f.trades[i] == t.trades[i - 1]);
                    assert(tail[i - 1] == level[i]);
                }
            }
            assert forall|i: int| 0 <= i < n - 1 implies (#[trigger] f.trades[i]).quantity
                == level[i].quantity by {
                if i > 0 {
                    assert(f.trades[i] == t.trades[i - 1]);
                    assert(tail[i - 1] == level[i]);
                }
            }
            assert forall|j: int| n <= j < level.len() implies f.rest[j - gone] == #[trigger] level[j] by {
                assert(tail[j - 1] == level[j]);
                assert(t.rest[(j - 1) - gone_t] == tail[j - 1]);
            }
            if nt > 0 {
                assert(f.trades[n - 1] == t.trades[nt - 1]);
                assert(tail[nt - 1] == level[n - 1]);
            }
        }
    }
}

/// FIFO fairness: of two orders that rest at one price, the later one is
/// traded against only if the earlier one has been filled in full, at its
/// own price.
pub proof fn lemma_fifo(level: Seq<Order>, q: u64, earlier: int, later: int)
    requires
        all_positive(level),
        0 <= earlier < later < level.len(),
    ensures
        later < fill_level(level, q).trades.len() ==> fill_level(level, q).trades[earlier]
            == (Trade { price: level[earlier].price, quantity: level[earlier].quantity }),
        later >= fill_level(level, q).trades.len() ==> {
            let f = fill_level(level, q);
            &&& 0 <= later - (level.len() - f.rest.len()) < f.rest.len()
            &&& f.rest[later - (level.len() - f.rest.len())] == level[later]
        },
{
    lemma_fill_in_arrival_order(level, q);
    let f = fill_level(level, q);
    if later < f.trades.len() {
        assert(f.trades[earlier].quantity == level[earlier].quantity);
        assert(f.trades[earlier].price == level[earlier].price);
    } else {
        assert(level[later] == level[later]);
    }
}

/// The sum of the quantities of all orders that rest on one side.
pub open spec fn side_quantity(levels: Levels) -> nat
    decreases levels.dom().len(),
    when levels.dom().finite()
{
    if levels.dom().len() == 0 {
        0
    } else {
        let p = levels.dom().choose();
        resting_quantity(levels[p]) + side_quantity(levels.remove(p))
    }
}

/// The quantity of a side is that of any one of its levels and that of the
/// side without it.
pub proof fn lemma_side_quantity_split(levels: Levels, p: u64)
    requires
        levels.dom().finite(),
        levels.contains_key(p),
    ensures
        side_quantity(levels) == resting_quantity(levels[p]) + side_quantity(levels.remove(p)),
    decreases levels.dom().len(),
{
    let k = levels.dom().choose();
    assert(levels.dom().len() != 0) by {
        if levels.dom().len() == 0 {
            assert(levels.dom() =~= Set::empty());
        }
    }
    assert(levels.contains_key(k));
    if k != p {
        lemma_side_quantity_split(levels.remove(k), p);
        lemma_side_quantity_split(levels.remove(p), k);
        assert(levels.remove(k).remove(p) =~= levels.remove(p).remove(k));
    }
}

/// Conservation for the resting side: what the trades of an incoming order
/// took from it is what the side lost.
pub proof fn lemma_match_conserves_resting(levels: Levels, taker: OrderSide, limit: u64, q: u64)
    requires
        levels.dom().finite(),
    ensures
        match_levels(levels, taker, limit, q).levels.dom().finite(),
        side_quantity(match_levels(levels, taker, limit, q).levels) + traded_quantity(
            match_levels(levels, taker, limit, q).trades,
        ) == side_quantity(levels),
    decreases levels.dom().len(),
{
    if q == 0 || !can_cross(levels, taker, limit) {
    } else {
        let p = best_price(levels, taker);
        assert(levels.contains_key(p));
        let fill = fill_level(levels[p], q);
        lemma_fill_conserves(levels[p], q);
        lemma_side_quantity_split(levels, p);
        if fill.rest.len() > 0 {
            let after = levels.insert(p, fill.rest);
            lemma_side_quantity_split(after, p);
            assert(after.remove(p) =~= levels.remove(p));
        } else {
            let tail = match_levels(levels.remove(p), taker, limit, fill.left);
            lemma_match_conserves_resting(levels.remove(p), taker, limit, fill.left);
            lemma_traded_quantity_concat(fill.trades, tail.trades);
        }
    }
}

/// Resting an order adds its quantity to its side.
pub proof fn lemma_rest_adds(levels: Levels, order: Order)
    requires
        levels.dom().finite(),
    ensures
        side_quantity(rest_order(levels, order)) == side_quantity(levels)
            + order.quantity,
{
    let after = rest_order(levels, order);
    let queue = queue_at(levels, order.price);
    lemma_side_quantity_split(after, order.price);
    lemma_resting_quantity_concat(queue, seq![order]);
    assert(queue.push(order) =~= queue + seq![order]);
    assert(resting_quantity(seq![order]) == order.quantity) by {
        reveal_with_fuel(resting_quantity, 2);
        assert(seq![order].drop_first().len() == 0);
    }
    if levels.contains_key(order.price) {
        lemma_side_quantity_split(levels, order.price);
        assert(after.remove(order.price) =~= levels.remove(order.price));
    } else {
        assert(after.remove(order.price) =~= levels);
    }
}

/// Conservation over the whole book: each trade of the incoming order takes
/// the same quantity from the order and from the side that it is matched
/// against, and what is left of the order is added to its own side.
pub proof fn lemma_step_conserves_book(book: BookView, order: Order)
    requires
        book_wf(book),
    ensures
        side_quantity(opposite_side(step(book, order), order.side)) + traded_quantity(
            trades_of(book, order),
        ) == side_quantity(opposite_side(book, order.side)),
        side_quantity(own_side(step(book, order), order.side)) + traded_quantity(
            trades_of(book, order),
        ) == side_quantity(own_side(book, order.side)) + order.quantity,
{
    let opposite = opposite_side(book, order.side);
    let own = own_side(book, order.side);
    lemma_match_conserves(opposite, order.side, order.price, order.quantity);
    lemma_match_conserves_resting(opposite, order.side, order.price, order.quantity);
    let left = left_of(book, order);
    if left > 0 {
        lemma_rest_adds(own, with_quantity(order, left));
    }
}

/// Price priority: the trades of an incoming order come best price first,
/// every one of them at a price that is no worse for the taker than any
/// level that is still on the book afterwards, and matching adds no level.
pub proof fn lemma_best_price_first(
    levels: Levels,
    side: OrderSide,
    taker: OrderSide,
    limit: u64,
    q: u64,
)
    requires
        levels_wf(levels, side),
    ensures
        forall|k: u64| #[trigger]
            match_levels(levels, taker, limit, q).levels.contains_key(k)
                ==> levels.contains_key(k),
        forall|j: int, k: u64|
            0 <= j < match_levels(levels, taker, limit, q).trades.len() && #[trigger] match_levels(
                levels,
                taker,
                limit,
                q,
            ).levels.contains_key(k) ==> no_worse(
                taker,
                (#[trigger] match_levels(levels, taker, limit, q).trades[j]).price,
                k,
            ),
        forall|i: int, j: int|
            0 <= i <= j < match_levels(levels, taker, limit, q).trades.len() ==> no_worse(
                taker,
                (#[trigger] match_levels(levels, taker, limit, q).trades[i]).price,
                (#[trigger] match_levels(levels, taker, limit, q).trades[j]).price,
            ),
    decreases levels.dom().len(),
{
    let m = match_levels(levels, taker, limit, q);
    if q == 0 || !can_cross(levels, taker, limit) {
    } else {
        let p = best_price(levels, taker);
        assert(is_best(levels, taker, p));
        let fill = fill_level(levels[p], q);
        assert(level_wf(levels[p], side, p));
        lemma_fill_trade_prices(levels[p], q, p);
        if fill.rest.len() > 0 {
            assert forall|j: int, k: u64|
                0 <= j < m.trades.len() && #[trigger] m.levels.contains_key(k) implies no_worse(
                taker,
                (#[trigger] m.trades[j]).price,
                k,
            ) by {
                assert(levels.contains_key(k));
            }
        } else {
            let after = levels.remove(p);
            assert forall|k: u64| #[trigger] after.contains_key(k) implies level_wf(
                after[k],
                side,
                k,
            ) by {
                assert(levels.contains_key(k));
            }
            let tail = match_levels(after, taker, limit, fill.left);
            lemma_best_price_first(after, side, taker, limit, fill.left);
            lemma_trades_within_limit(after, side, taker, limit, fill.left);
            let n = fill.trades.len() as int;
            assert forall|j: int| 0 <= j < m.trades.len() implies (j < n && m.trades[j].price == p)
                || (j >= n && m.trades[j] == tail.trades[j - n] && levels.contains_key(
                m.trades[j].price,
            )) by {
                if j >= n {
                    assert(after.contains_key(tail.trades[j - n].price));
                }
            }
            assert forall|k: u64| #[trigger] m.levels.contains_key(k) implies levels.contains_key(
                k,
            ) by {
                assert(after.contains_key(k));
            }
            assert forall|j: int, k: u64|
                0 <= j < m.trades.len() && #[trigger] m.levels.contains_key(k) implies no_worse(
                taker,
                (#[trigger] m.trades[j]).price,
                k,
            ) by {
                assert(after.contains_key(k));
                assert(levels.contains_key(k));
                if j >= n {
                    assert(m.trades[j] == tail.trades[j - n]);
                }
            }
            assert forall|i: int, j: int| 0 <= i <= j < m.trades.len() implies no_worse(
                taker,
                (#[trigger] m.trades[i]).price,
                (#[trigger] m.trades[j]).price,
            ) by {
                if i >= n {
                    assert(m.trades[i] == tail.trades[i - n]);
                    assert(m.trades[j] == tail.trades[j - n]);
                } else if j >= n {
                    assert(levels.contains_key(m.trades[j].price));
                }
            }
        }
    }
}

/// The sum of the quantities of `orders`.
pub open spec fn ordered_quantity(orders: Seq<Order>) -> nat
    decreases orders.len(),
{
    if orders.len() == 0 {
        0
    } else {
        ordered_quantity(orders.drop_last()) + orders.last().quantity as nat
    }
}

/// Conservation over a whole run: every unit of quantity that came in with
/// an order either rests on the book or was traded, and each traded unit
/// took one from a buyer and one from a seller.
pub proof fn lemma_replay_conserves(orders: Seq<Order>)
    ensures
        side_quantity(replay(orders).bids) + side_quantity(replay(orders).asks) + 2
            * traded_quantity(replay(orders).trades) == ordered_quantity(orders),
    decreases orders.len(),
{
    if orders.len() > 0 {
        let book = replay(orders.drop_last());
        let order = orders.last();
        lemma_replay_conserves(orders.drop_last());
        lemma_replay_wf(orders.drop_last());
        lemma_step_conserves_book(book, order);
        lemma_step_conserves(book, order);
        lemma_traded_quantity_concat(book.trades, trades_of(book, order));
    }
}

} // verus!
