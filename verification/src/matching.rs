//! The mathematical model of matching: what one incoming order does to one
//! price level, to one side of the book and to the book as a whole.
use crate::model::{Order, OrderSide, Trade};
use vstd::prelude::*;

verus! {

/// One side of the book: each price that has resting orders, with its queue
/// in arrival order (front first).
pub type Levels = Map<u64, Seq<Order>>;

/// The book as a mathematical value.
pub struct BookView {
    pub bids: Levels,
    pub asks: Levels,
    pub trades: Seq<Trade>,
}

/// The outcome of walking one price level with an incoming quantity.
pub struct Fill {
    /// The trades, in the order in which they happened.
    pub trades: Seq<Trade>,
    /// What is left of the level, in its old order.
    pub rest: Seq<Order>,
    /// What is left of the incoming quantity.
    pub left: u64,
}

/// The outcome of matching an incoming order against one side of the book.
pub struct Matched {
    pub trades: Seq<Trade>,
    pub levels: Levels,
    pub left: u64,
}

/// The quantity that changes hands when `q` meets a resting quantity.
pub open spec fn fill_quantity(q: u64, resting: u64) -> u64 {
    if q <= resting {
        q
    } else {
        resting
    }
}

/// Walks a level from the front with the incoming quantity `q`. While `q` is
/// positive each resting order trades `fill_quantity` at its own price; an
/// order whose quantity is then zero leaves the level.
pub open spec fn fill_level(level: Seq<Order>, q: u64) -> Fill
    decreases level.len(),
{
    if level.len() == 0 {
        Fill { trades: Seq::empty(), rest: Seq::empty(), left: q }
    } else {
        let head = level[0];
        let take = fill_quantity(q, head.quantity);
        let tail = fill_level(level.drop_first(), (q - take) as u64);
        let traded = if q > 0 {
            seq![Trade { price: head.price, quantity: take }]
        } else {
            Seq::empty()
        };
        let kept = if head.quantity > take {
            seq![Order { side: head.side, price: head.price, quantity: (head.quantity - take) as u64 }]
        } else {
            Seq::empty()
        };
        Fill { trades: traded + tail.trades, rest: kept + tail.rest, left: tail.left }
    }
}

/// Whether price `p` is at least as good as price `k` for a taker on side
/// `taker`: a buyer wants low asks, a seller wants high bids.
pub open spec fn no_worse(taker: OrderSide, p: u64, k: u64) -> bool {
    match taker {
        OrderSide::Buy => p <= k,
        OrderSide::Sell => p >= k,
    }
}

/// Whether a taker with limit price `limit` may trade at the resting price `p`.
pub open spec fn crosses(taker: OrderSide, limit: u64, p: u64) -> bool {
    no_worse(taker, p, limit)
}

/// Whether `p` is the best price level of `levels` for a taker on side `taker`.
pub open spec fn is_best(levels: Levels, taker: OrderSide, p: u64) -> bool {
    &&& levels.contains_key(p)
    &&& forall|k: u64| #[trigger] levels.contains_key(k) ==> no_worse(taker, p, k)
}

/// The best price level of `levels`, where there is one.
pub open spec fn best_price(levels: Levels, taker: OrderSide) -> u64 {
    choose|p: u64| is_best(levels, taker, p)
}

/// Whether the best level of `levels` can be traded against at `limit`.
pub open spec fn can_cross(levels: Levels, taker: OrderSide, limit: u64) -> bool {
    exists|p: u64| is_best(levels, taker, p) && crosses(taker, limit, p)
}

/// Matches the incoming quantity `q` with limit `limit` against the opposite
/// side `levels`: the best level is walked as long as it crosses and `q` is
/// positive, and a level that is emptied leaves the book.
pub open spec fn match_levels(levels: Levels, taker: OrderSide, limit: u64, q: u64) -> Matched
    decreases levels.dom().len(),
    when levels.dom().finite()
{
    if q == 0 || !can_cross(levels, taker, limit) {
        Matched { trades: Seq::empty(), levels, left: q }
    } else {
        let p = best_price(levels, taker);
        let fill = fill_level(levels[p], q);
        if fill.rest.len() > 0 {
            Matched { trades: fill.trades, levels: levels.insert(p, fill.rest), left: fill.left }
        } else {
            let tail = match_levels(levels.remove(p), taker, limit, fill.left);
            Matched { trades: fill.trades + tail.trades, levels: tail.levels, left: tail.left }
        }
    }
}

/// The queue at `price` on one side: empty where the side has no such level.
pub open spec fn queue_at(levels: Levels, price: u64) -> Seq<Order> {
    if levels.contains_key(price) {
        levels[price]
    } else {
        Seq::empty()
    }
}

/// Puts `order` at the back of the queue at its own price, which is created
/// where it is absent.
pub open spec fn rest_order(levels: Levels, order: Order) -> Levels {
    levels.insert(order.price, queue_at(levels, order.price).push(order))
}

/// `order` with its quantity replaced by `quantity`.
pub open spec fn with_quantity(order: Order, quantity: u64) -> Order {
    Order { side: order.side, price: order.price, quantity }
}

/// The incoming order's own side after matching: a positive remainder `left`
/// of `order` rests on it, and with no remainder it stays as it was.
pub open spec fn own_after(own: Levels, order: Order, left: u64) -> Levels {
    if left > 0 {
        rest_order(own, with_quantity(order, left))
    } else {
        own
    }
}

/// The book after a buy: `order` is matched against the asks, lowest first,
/// and what is left of it rests among the bids.
pub open spec fn step_buy(book: BookView, order: Order) -> BookView {
    let m = match_levels(book.asks, OrderSide::Buy, order.price, order.quantity);
    BookView {
        bids: own_after(book.bids, order, m.left),
        asks: m.levels,
        trades: book.trades + m.trades,
    }
}

/// The book after a sell: `order` is matched against the bids, highest first,
/// and what is left of it rests among the asks.
pub open spec fn step_sell(book: BookView, order: Order) -> BookView {
    let m = match_levels(book.bids, OrderSide::Sell, order.price, order.quantity);
    BookView {
        bids: m.levels,
        asks: own_after(book.asks, order, m.left),
        trades: book.trades + m.trades,
    }
}

/// The book after `order` has been processed.
pub open spec fn step(book: BookView, order: Order) -> BookView {
    match order.side {
        OrderSide::Buy => step_buy(book, order),
        OrderSide::Sell => step_sell(book, order),
    }
}

/// The book with nothing in it.
pub open spec fn empty_book() -> BookView {
    BookView { bids: Map::empty(), asks: Map::empty(), trades: Seq::empty() }
}

/// A price level as the book keeps it: not empty, and each order in it has a
/// positive quantity, the level's price and the level's side.
pub open spec fn level_wf(level: Seq<Order>, side: OrderSide, price: u64) -> bool {
    &&& level.len() > 0
    &&& forall|i: int|
        0 <= i < level.len() ==> {
            &&& (#[trigger] level[i]).quantity >= 1
            &&& level[i].price == price
            &&& level[i].side == side
        }
}

/// One side of the book as the book keeps it.
pub open spec fn levels_wf(levels: Levels, side: OrderSide) -> bool {
    &&& levels.dom().finite()
    &&& forall|p: u64| #[trigger] levels.contains_key(p) ==> level_wf(levels[p], side, p)
}

/// The book's invariant: bids hold buy orders, asks hold sell orders, and
/// every level is well formed.
pub open spec fn book_wf(book: BookView) -> bool {
    &&& levels_wf(book.bids, OrderSide::Buy)
    &&& levels_wf(book.asks, OrderSide::Sell)
}

/// Walking a level never leaves more of the incoming quantity than came in.
pub proof fn lemma_fill_left_bounded(level: Seq<Order>, q: u64)
    ensures
        fill_level(level, q).left <= q,
    decreases level.len(),
{
    if level.len() > 0 {
        let take = fill_quantity(q, level[0].quantity);
        lemma_fill_left_bounded(level.drop_first(), (q - take) as u64);
    }
}

/// Where some of the incoming quantity is left after a level, nothing is left
/// of the level.
pub proof fn lemma_fill_exhausts(level: Seq<Order>, q: u64)
    ensures
        fill_level(level, q).left > 0 ==> fill_level(level, q).rest.len() == 0,
    decreases level.len(),
{
    if level.len() > 0 {
        let take = fill_quantity(q, level[0].quantity);
        lemma_fill_exhausts(level.drop_first(), (q - take) as u64);
        lemma_fill_left_bounded(level.drop_first(), (q - take) as u64);
    }
}

/// What is left of a level keeps positive quantities, and keeps the price and
/// side that the whole level shared.
pub proof fn lemma_fill_rest_orders(level: Seq<Order>, q: u64, side: OrderSide, price: u64)
    requires
        forall|i: int|
            0 <= i < level.len() ==> (#[trigger] level[i]).price == price && level[i].side == side,
    ensures
        forall|j: int|
            0 <= j < fill_level(level, q).rest.len() ==> {
                &&& (#[trigger] fill_level(level, q).rest[j]).quantity >= 1
                &&& fill_level(level, q).rest[j].price == price
                &&& fill_level(level, q).rest[j].side == side
            },
    decreases level.len(),
{
    if level.len() > 0 {
        let take = fill_quantity(q, level[0].quantity);
        let tail = level.drop_first();
        assert forall|i: int| 0 <= i < tail.len() implies (#[trigger] tail[i]).price == price
            && tail[i].side == side by {
            assert(tail[i] == level[i + 1]);
        }
        lemma_fill_rest_orders(tail, (q - take) as u64, side, price);
    }
}

/// A side of the book has at most one best price.
pub proof fn lemma_best_unique(levels: Levels, taker: OrderSide, p: u64)
    requires
        is_best(levels, taker, p),
    ensures
        best_price(levels, taker) == p,
{
    let b = best_price(levels, taker);
    assert(is_best(levels, taker, b));
    assert(levels.contains_key(b) && levels.contains_key(p));
}

/// Matching keeps a side of the book well formed.
pub proof fn lemma_match_keeps_wf(
    levels: Levels,
    taker: OrderSide,
    limit: u64,
    q: u64,
    side: OrderSide,
)
    requires
        levels_wf(levels, side),
    ensures
        levels_wf(match_levels(levels, taker, limit, q).levels, side),
    decreases levels.dom().len(),
{
    if q == 0 || !can_cross(levels, taker, limit) {
    } else {
        let p = best_price(levels, taker);
        assert(levels.contains_key(p));
        let fill = fill_level(levels[p], q);
        assert(level_wf(levels[p], side, p));
        lemma_fill_rest_orders(levels[p], q, side, p);
        if fill.rest.len() > 0 {
            let after = levels.insert(p, fill.rest);
            assert forall|k: u64| #[trigger] after.contains_key(k) implies level_wf(
                after[k],
                side,
                k,
            ) by {
                if k != p {
                    assert(levels.contains_key(k));
                }
            }
        } else {
            let after = levels.remove(p);
            assert forall|k: u64| #[trigger] after.contains_key(k) implies level_wf(
                after[k],
                side,
                k,
            ) by {
                assert(levels.contains_key(k));
            }
            lemma_match_keeps_wf(after, taker, limit, fill.left, side);
        }
    }
}

/// Resting an order with a positive quantity keeps its side of the book well
/// formed.
pub proof fn lemma_rest_keeps_wf(levels: Levels, order: Order)
    requires
        levels_wf(levels, order.side),
        order.quantity >= 1,
    ensures
        levels_wf(rest_order(levels, order), order.side),
{
    let after = rest_order(levels, order);
    assert forall|k: u64| #[trigger] after.contains_key(k) implies level_wf(
        after[k],
        order.side,
        k,
    ) by {
        if k != order.price {
            assert(levels.contains_key(k));
        } else if levels.contains_key(order.price) {
            assert(level_wf(levels[order.price], order.side, order.price));
        }
    }
}

/// One round of matching: with a positive quantity and a best level `p` that
/// crosses, the outcome is that of walking `p`, and then of matching what is
/// left against the book that the walk leaves.
pub proof fn lemma_match_unfold(levels: Levels, taker: OrderSide, limit: u64, q: u64, p: u64)
    requires
        levels.dom().finite(),
        q > 0,
        is_best(levels, taker, p),
        crosses(taker, limit, p),
    ensures
        ({
            let fill = fill_level(levels[p], q);
            let after = if fill.rest.len() > 0 {
                levels.insert(p, fill.rest)
            } else {
                levels.remove(p)
            };
            let tail = match_levels(after, taker, limit, fill.left);
            let whole = match_levels(levels, taker, limit, q);
            &&& whole.trades == fill.trades + tail.trades
            &&& whole.levels == tail.levels
            &&& whole.left == tail.left
            &&& fill.rest.len() > 0 ==> fill.left == 0
        }),
{
    lemma_best_unique(levels, taker, p);
    lemma_fill_exhausts(levels[p], q);
    let fill = fill_level(levels[p], q);
    if fill.rest.len() > 0 {
        let after = levels.insert(p, fill.rest);
        assert(match_levels(after, taker, limit, 0).trades =~= Seq::empty());
        assert(fill.trades + Seq::<Trade>::empty() =~= fill.trades);
    }
}

/// Where the best level of a side does not cross the limit, no level of it
/// can be traded against.
pub proof fn lemma_no_cross(levels: Levels, taker: OrderSide, limit: u64, p: u64)
    requires
        is_best(levels, taker, p),
        !crosses(taker, limit, p),
    ensures
        !can_cross(levels, taker, limit),
{
    assert forall|b: u64| is_best(levels, taker, b) implies !crosses(taker, limit, b) by {
        assert(levels.contains_key(b) && levels.contains_key(p));
    }
}

} // verus!
