use crate::matching::{
    book_wf, can_cross, empty_book, fill_level, fill_quantity, is_best, lemma_match_keeps_wf,
    lemma_match_unfold, lemma_no_cross, lemma_rest_keeps_wf, match_levels, own_after,
    rest_order, step, step_buy, step_sell, with_quantity, BookView, Levels,
};
use std::collections::BTreeMap;
use vstd::prelude::*;

verus! {

/// Which side of the market an order is on.
#[derive(Debug, Clone, Copy, PartialEq, Eq, Structural)]
pub enum OrderSide {
    Buy,
    Sell,
}

/// A limit order: a side, a limit price and a quantity.
#[derive(Debug, Clone, Copy, PartialEq, Eq, Structural)]
pub struct Order {
    pub side: OrderSide,
    pub price: u64,
    pub quantity: u64,
}

/// One execution: the maker's price and the quantity that changed hands.
#[derive(Debug, Clone, Copy, PartialEq, Eq, Structural)]
pub struct Trade {
    pub price: u64,
    pub quantity: u64,
}

/// The order book: resting bids and asks by price, each price with its queue
/// in arrival order, and the log of every trade so far.
#[derive(Debug, Clone)]
pub struct OrderBook {
    pub bids: BTreeMap<u64, Vec<Order>>,
    pub asks: BTreeMap<u64, Vec<Order>>,
    pub trades: Vec<Trade>,
}

/// One side of the book as a map from price to the queue at that price.
pub open spec fn levels_view(side: BTreeMap<u64, Vec<Order>>) -> Levels {
    Map::new(|p: u64| side@.contains_key(p), |p: u64| side@[p]@)
}

impl View for OrderBook {
    type V = BookView;

    open spec fn view(&self) -> BookView {
        BookView {
            bids: levels_view(self.bids),
            asks: levels_view(self.asks),
            trades: self.trades@,
        }
    }
}

/// The view of a side of the book has finitely many prices.
pub proof fn lemma_levels_view_finite(side: BTreeMap<u64, Vec<Order>>)
    ensures
        levels_view(side).dom().finite(),
        levels_view(side).dom() == side@.dom(),
{
    assert(levels_view(side).dom() =~= side@.dom());
}

/// The lowest price on a side of the book, or `None` where the side is empty.
///
/// Trusted, not proved: the body calls std's `BTreeMap::first_key_value` and
/// keeps the key of the entry. The contract states what std documents of
/// that method: it gives the entry with the minimum key, and `None` only for
/// an empty map.
#[verifier::external_body]
fn lowest_price(side: &BTreeMap<u64, Vec<Order>>) -> (r: Option<u64>)
    ensures
        match r {
            Some(p) => side@.contains_key(p) && forall|k: u64|
                side@.contains_key(k) ==> p <= k,
            None => forall|k: u64| !side@.contains_key(k),
        },
{
    side.first_key_value().map(|(p, _)| *p)
}

/// The highest price on a side of the book, or `None` where the side is
/// empty.
///
/// Trusted, not proved: the body calls std's `BTreeMap::last_key_value` and
/// keeps the key of the entry. The contract states what std documents of
/// that method: it gives the entry with the maximum key, and `None` only for
/// an empty map.
#[verifier::external_body]
fn highest_price(side: &BTreeMap<u64, Vec<Order>>) -> (r: Option<u64>)
    ensures
        match r {
            Some(p) => side@.contains_key(p) && forall|k: u64|
                side@.contains_key(k) ==> p >= k,
            None => forall|k: u64| !side@.contains_key(k),
        },
{
    side.last_key_value().map(|(p, _)| *p)
}

/// Walks one price level from the front with the incoming `order`: logs a
/// trade for each resting order that it meets while quantity is left, and
/// returns the resting orders that keep a positive quantity.
fn walk_level(level: &Vec<Order>, order: &mut Order, trades: &mut Vec<Trade>) -> (kept: Vec<Order>)
    ensures
        kept@ == fill_level(level@, old(order).quantity).rest,
        final(trades)@ == old(trades)@ + fill_level(level@, old(order).quantity).trades,
        *final(order) == with_quantity(
            *old(order),
            fill_level(level@, old(order).quantity).left,
        ),
{
    let ghost incoming = *order;
    let ghost logged = trades@;
    let ghost whole = fill_level(level@, incoming.quantity);
    let mut kept: Vec<Order> = Vec::new();
    let mut i: usize = 0;
    proof {
        assert(level@.skip(0) =~= level@);
        assert(kept@ + whole.rest =~= whole.rest);
    }
    while i < level.len()
        invariant
            i <= level.len(),
            order.side == incoming.side,
            order.price == incoming.price,
            whole == fill_level(level@, incoming.quantity),
            trades@ + fill_level(level@.skip(i as int), order.quantity).trades == logged
                + whole.trades,
            kept@ + fill_level(level@.skip(i as int), order.quantity).rest == whole.rest,
            fill_level(level@.skip(i as int), order.quantity).left == whole.left,
        decreases level.len() - i,
    {
        let resting = level[i];
        let ghost here = level@.skip(i as int);
        let ghost before = fill_level(here, order.quantity);
        let ghost logged_here = trades@;
        let ghost kept_here = kept@;
        let take = if order.quantity <= resting.quantity {
            order.quantity
        } else {
            resting.quantity
        };
        proof {
            assert(here[0] == resting);
            assert(here.drop_first() =~= level@.skip(i + 1));
            assert(take == fill_quantity(order.quantity, resting.quantity));
        }
        if order.quantity > 0 {
            trades.push(Trade { price: resting.price, quantity: take });
            order.quantity = order.quantity - take;
        }
        if resting.quantity > take {
            kept.push(
                Order {
                    side: resting.side,
                    price: resting.price,
                    quantity: resting.quantity - take,
                },
            );
        }
        i += 1;
        proof {
            let after = fill_level(level@.skip(i as int), order.quantity);
            assert(trades@ + after.trades =~= logged_here + before.trades);
            assert(kept@ + after.rest =~= kept_here + before.rest);
        }
    }
    proof {
        assert(level@.skip(i as int).len() == 0);
        assert(trades@ =~= trades@ + Seq::<Trade>::empty());
        assert(kept@ =~= kept@ + Seq::<Order>::empty());
    }
    kept
}

impl OrderBook {
    /// The book's invariant: no price without a resting order, and every
    /// resting order with a positive quantity, on its own side, at its own
    /// price.
    pub open spec fn wf(&self) -> bool {
        book_wf(self@)
    }

    /// A book with no resting orders and no trades.
    pub fn new() -> (book: Self)
        ensures
            book@ == empty_book(),
            book.wf(),
    {
        let book = OrderBook { bids: BTreeMap::new(), asks: BTreeMap::new(), trades: Vec::new() };
        proof {
            assert(book@.bids =~= Map::empty());
            assert(book@.asks =~= Map::empty());
        }
        book
    }
    /// Processes one incoming order: a buy is matched against the asks, a
    /// sell against the bids, and what is left of it rests on its own side.
    pub fn process_order(&mut self, order: Order)
        ensures
            final(self)@ == step(old(self)@, order),
            old(self).wf() ==> final(self).wf(),
    {
        let mut order = order;
        match order.side {
            OrderSide::Buy => self.process_buy_order(&mut order),
            OrderSide::Sell => self.process_sell_order(&mut order),
        }
    }

    /// Matches a buy order against the asks, lowest price first and front of
    /// each queue first, logs the trades, and rests what is left of it at the
    /// back of the bid queue at its own price. `order` is left holding the
    /// unmatched quantity.
    pub fn process_buy_order(&mut self, order: &mut Order)
        ensures
            final(self)@ == step_buy(old(self)@, *old(order)),
            *final(order) == with_quantity(
                *old(order),
                match_levels(
                    old(self)@.asks,
                    OrderSide::Buy,
                    old(order).price,
                    old(order).quantity,
                ).left,
            ),
            old(self).wf() && old(order).side == OrderSide::Buy ==> final(self).wf(),
    {
        let ghost before = self@;
        let ghost incoming = *order;
        let ghost whole = match_levels(
            before.asks,
            OrderSide::Buy,
            incoming.price,
            incoming.quantity,
        );
        proof {
            assert(self.trades@ + whole.trades =~= before.trades + whole.trades);
        }
        while order.quantity > 0
            invariant
                order.price == incoming.price,
                order.side == incoming.side,
                levels_view(self.bids) == before.bids,
                whole == match_levels(
                    before.asks,
                    OrderSide::Buy,
                    incoming.price,
                    incoming.quantity,
                ),
                ({
                    let m = match_levels(
                        levels_view(self.asks),
                        OrderSide::Buy,
                        incoming.price,
                        order.quantity,
                    );
                    &&& self.trades@ + m.trades == before.trades + whole.trades
                    &&& m.levels == whole.levels
                    &&& m.left == whole.left
                }),
            ensures
                order.quantity == 0 || !can_cross(
                    levels_view(self.asks),
                    OrderSide::Buy,
                    incoming.price,
                ),
            decreases self.asks@.dom().len(), order.quantity,
        {
            let ghost here = levels_view(self.asks);
            let ghost quantity = order.quantity;
            let ghost logged = self.trades@;
            proof {
                lemma_levels_view_finite(self.asks);
            }
            let best_ask_price = match lowest_price(&self.asks) {
                Some(price) => price,
                None => {
                    break ;
                },
            };
            if order.price < best_ask_price {
                proof {
                    assert(is_best(here, OrderSide::Buy, best_ask_price));
                    lemma_no_cross(here, OrderSide::Buy, incoming.price, best_ask_price);
                }
                break ;
            }
            proof {
                assert(is_best(here, OrderSide::Buy, best_ask_price));
                lemma_match_unfold(
                    here,
                    OrderSide::Buy,
                    incoming.price,
                    quantity,
                    best_ask_price,
                );
            }
            let asks_at_best_price = self.asks.remove(&best_ask_price).unwrap();
            let ghost removed = levels_view(self.asks);
            let kept = walk_level(&asks_at_best_price, order, &mut self.trades);
            if !kept.is_empty() {
                self.asks.insert(best_ask_price, kept);
            }
            proof {
                let fill = fill_level(here[best_ask_price], quantity);
                assert(removed =~= here.remove(best_ask_price));
                if fill.rest.len() > 0 {
                    assert(levels_view(self.asks) =~= here.insert(best_ask_price, fill.rest));
                    assert(self.asks@.dom() =~= here.dom());
                } else {
                    assert(levels_view(self.asks) =~= here.remove(best_ask_price));
                }
                let tail = match_levels(
                    levels_view(self.asks),
                    OrderSide::Buy,
                    incoming.price,
                    order.quantity,
                );
                assert(self.trades@ + tail.trades =~= logged + (fill.trades + tail.trades));
            }
        }
        proof {
            lemma_levels_view_finite(self.asks);
            assert(self.trades@ =~= before.trades + whole.trades);
        }
        if order.quantity > 0 {
            let ghost bids = levels_view(self.bids);
            let mut queue = match self.bids.remove(&order.price) {
                Some(queue) => queue,
                None => Vec::new(),
            };
            queue.push(*order);
            self.bids.insert(order.price, queue);
            proof {
                assert(levels_view(self.bids) =~= rest_order(bids, *order));
            }
        }
        proof {
            assert(*order == with_quantity(incoming, whole.left));
            assert(self@.bids == own_after(before.bids, incoming, whole.left));
            if book_wf(before) && incoming.side == OrderSide::Buy {
                lemma_match_keeps_wf(
                    before.asks,
                    OrderSide::Buy,
                    incoming.price,
                    incoming.quantity,
                    OrderSide::Sell,
                );
                if whole.left > 0 {
                    lemma_rest_keeps_wf(before.bids, with_quantity(incoming, whole.left));
                }
            }
        }
    }

    /// Matches a sell order against the bids, highest price first and front of
    /// each queue first, logs the trades, and rests what is left of it at the
    /// back of the ask queue at its own price. `order` is left holding the
    /// unmatched quantity.
    pub fn process_sell_order(&mut self, order: &mut Order)
        ensures
            final(self)@ == step_sell(old(self)@, *old(order)),
            *final(order) == with_quantity(
                *old(order),
                match_levels(
                    old(self)@.bids,
                    OrderSide::Sell,
                    old(order).price,
                    old(order).quantity,
                ).left,
            ),
            old(self).wf() && old(order).side == OrderSide::Sell ==> final(self).wf(),
    {
        let ghost before = self@;
        let ghost incoming = *order;
        let ghost whole = match_levels(
            before.bids,
            OrderSide::Sell,
            incoming.price,
            incoming.quantity,
        );
        proof {
            assert(self.trades@ + whole.trades =~= before.trades + whole.trades);
        }
        while order.quantity > 0
            invariant
                order.price == incoming.price,
                order.side == incoming.side,
                levels_view(self.asks) == before.asks,
                whole == match_levels(
                    before.bids,
                    OrderSide::Sell,
                    incoming.price,
                    incoming.quantity,
                ),
                ({
                    let m = match_levels(
                        levels_view(self.bids),
                        OrderSide::Sell,
                        incoming.price,
                        order.quantity,
                    );
                    &&& self.trades@ + m.trades == before.trades + whole.trades
                    &&& m.levels == whole.levels
                    &&& m.left == whole.left
                }),
            ensures
                order.quantity == 0 || !can_cross(
                    levels_view(self.bids),
                    OrderSide::Sell,
                    incoming.price,
                ),
            decreases self.bids@.dom().len(), order.quantity,
        {
            let ghost here = levels_view(self.bids);
            let ghost quantity = order.quantity;
            let ghost logged = self.trades@;
            proof {
                lemma_levels_view_finite(self.bids);
            }
            let best_bid_price = match highest_price(&self.bids) {
                Some(price) => price,
                None => {
                    break ;
                },
            };
            if order.price > best_bid_price {
                proof {
                    assert(is_best(here, OrderSide::Sell, best_bid_price));
                    lemma_no_cross(here, OrderSide::Sell, incoming.price, best_bid_price);
                }
                break ;
            }
            proof {
                assert(is_best(here, OrderSide::Sell, best_bid_price));
                lemma_match_unfold(
                    here,
                    OrderSide::Sell,
                    incoming.price,
                    quantity,
                    best_bid_price,
                );
            }
            let bids_at_best_price = self.bids.remove(&best_bid_price).unwrap();
            let ghost removed = levels_view(self.bids);
            let kept = walk_level(&bids_at_best_price, order, &mut self.trades);
            if !kept.is_empty() {
                self.bids.insert(best_bid_price, kept);
            }
            proof {
                let fill = fill_level(here[best_bid_price], quantity);
                assert(removed =~= here.remove(best_bid_price));
                if fill.rest.len() > 0 {
                    assert(levels_view(self.bids) =~= here.insert(best_bid_price, fill.rest));
                    assert(self.bids@.dom() =~= here.dom());
                } else {
                    assert(levels_view(self.bids) =~= here.remove(best_bid_price));
                }
                let tail = match_levels(
                    levels_view(self.bids),
                    OrderSide::Sell,
                    incoming.price,
                    order.quantity,
                );
                assert(self.trades@ + tail.trades =~= logged + (fill.trades + tail.trades));
            }
        }
        proof {
            lemma_levels_view_finite(self.bids);
            assert(self.trades@ =~= before.trades + whole.trades);
        }
        if order.quantity > 0 {
            let ghost asks = levels_view(self.asks);
            let mut queue = match self.asks.remove(&order.price) {
                Some(queue) => queue,
                None => Vec::new(),
            };
            queue.push(*order);
            self.asks.insert(order.price, queue);
            proof {
                assert(levels_view(self.asks) =~= rest_order(asks, *order));
            }
        }
        proof {
            assert(*order == with_quantity(incoming, whole.left));
            assert(self@.asks == own_after(before.asks, incoming, whole.left));
            if book_wf(before) && incoming.side == OrderSide::Sell {
                lemma_match_keeps_wf(
                    before.bids,
                    OrderSide::Sell,
                    incoming.price,
                    incoming.quantity,
                    OrderSide::Buy,
                );
                if whole.left > 0 {
                    lemma_rest_keeps_wf(before.asks, with_quantity(incoming, whole.left));
                }
            }
        }
    }
}

} // verus!
