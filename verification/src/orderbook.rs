//! Two-sided limit order books.
//!
//! A book is the authoritative store of the resting orders of one
//! trading pair: a bid queue and an ask queue of priority keys, plus an
//! index from order id to the live order. The book keeps the three
//! structures synchronized: every queued key belongs to exactly one
//! indexed order of the matching side, and every indexed order has its
//! key queued on the side it names.

use vstd::prelude::*;

verus! {

use std::collections::HashMap;

use vstd::string::StringExecFns;

use crate::model::{Event, Order, OrderKey, TradingPair};
use crate::pqueue::{KeyIndx, OrderQueue, PriceTimePriorityOrderQueue};
use crate::types::{opposite, Failure, Long, OrderId, OrderSide, OrderStatus, OrderType};

broadcast use vstd::std_specs::hash::group_hash_axioms;

/// The order queues can hold this many keys before reallocating.
pub const ORDER_BOOK_INITIAL_CAPACITY: usize = 16;

/// The abstract state of an order book: its trading pair, the id
/// index, and the resting orders of each side in the sequence the
/// matcher consumes them (best first).
pub struct BookState {
    pub pair: TradingPair,
    pub index: Map<OrderId, Order>,
    pub bids: Seq<Order>,
    pub asks: Seq<Order>,
}

impl BookState {
    /// The resting orders of one side, best first.
    pub open spec fn side(self, side: OrderSide) -> Seq<Order> {
        match side {
            OrderSide::Bid => self.bids,
            OrderSide::Ask => self.asks,
        }
    }
}

/// `o` with its quantity replaced; every other attribute, and hence the
/// priority key, is unchanged.
pub open spec fn with_qty(o: Order, qty: Long) -> Order {
    Order {
        orderid: o.orderid,
        price: o.price,
        quantity: qty,
        side: o.side,
        order_type: o.order_type,
        timestamp: o.timestamp,
        trading_pair: o.trading_pair,
    }
}

/// `s` with the quantity of the order named `id` (if any) replaced by
/// `qty`.
pub open spec fn orders_with_qty(s: Seq<Order>, id: OrderId, qty: Long) -> Seq<Order> {
    s.map_values(|o: Order| (if o.orderid == id { with_qty(o, qty) } else { o }))
}

/// How a successful `place` of `order` turns the book state `pre` into
/// `post`: the order joins the index, it joins the resting orders of
/// its side at some position, and the other side is untouched.
pub open spec fn place_effect(pre: BookState, post: BookState, order: Order) -> bool {
    &&& post.pair == pre.pair
    &&& post.index == pre.index.insert(order.orderid, order)
    &&& (exists|i: int|
        0 <= i <= pre.side(order.side).len() && post.side(order.side) == pre.side(
            order.side,
        ).insert(i, order))
    &&& post.side(opposite(order.side)) == pre.side(opposite(order.side))
}

/// How a successful `cancel` of the order named `id` turns the book
/// state `pre` into `post`: the order leaves the index, it leaves the
/// resting orders of its side, and the other side is untouched.
pub open spec fn cancel_effect(pre: BookState, post: BookState, id: OrderId) -> bool {
    &&& pre.index.contains_key(id)
    &&& post.pair == pre.pair
    &&& post.index == pre.index.remove(id)
    &&& ({
        let o = pre.index[id];
        &&& (exists|j: int|
            0 <= j < pre.side(o.side).len() && pre.side(o.side)[j] == o && post.side(o.side)
                == pre.side(o.side).remove(j))
        &&& post.side(opposite(o.side)) == pre.side(opposite(o.side))
    })
}

/// The operations of an order book. The contracts speak of the book's
/// abstract state, so any implementation with these contracts can serve
/// the matcher and the router.
pub trait OrderBook: Sized {
    /// The abstract state of the book.
    spec fn state(&self) -> BookState;

    /// Internal well-formedness.
    spec fn wf(&self) -> bool;

    /// What well-formedness guarantees about the abstract state: each
    /// side holds only orders of that side, of the book's pair, never
    /// market orders, each indexed under its id; ids are unique within
    /// a side; and every indexed order rests on the side it names.
    proof fn wf_properties(&self)
        requires
            self.wf(),
        ensures
            forall|side: OrderSide, i: int|
                0 <= i < self.state().side(side).len() ==> {
                    let o = #[trigger] self.state().side(side)[i];
                    &&& o.side == side
                    &&& o.trading_pair == self.state().pair
                    &&& o.order_type != OrderType::Market
                    &&& self.state().index.contains_key(o.orderid)
                    &&& self.state().index[o.orderid] == o
                },
            forall|side: OrderSide, i: int, j: int|
                #![trigger self.state().side(side)[i], self.state().side(side)[j]]
                0 <= i < j < self.state().side(side).len() ==> self.state().side(side)[i].orderid
                    != self.state().side(side)[j].orderid,
            forall|id: OrderId| #[trigger]
                self.state().index.contains_key(id) ==> self.state().index[id].orderid == id
                    && self.state().side(self.state().index[id].side).contains(
                    self.state().index[id],
                ),
    ;

    /// Well-formedness also means each side really is served best
    /// first: an order at or above another on its side outranks or
    /// ties it under the price-time priority ordering of their keys.
    proof fn wf_priority(&self)
        requires
            self.wf(),
        ensures
            forall|side: OrderSide, i: int, j: int|
                #![trigger self.state().side(side)[i], self.state().side(side)[j]]
                0 <= i <= j < self.state().side(side).len() ==> self.state().side(
                    side,
                )[i].key().prio_geq(self.state().side(side)[j].key()),
    ;

    /// Cancels the resting order named `orderid`. A hit removes the
    /// order from the index and from its side and reports a `Canceled`
    /// event; a miss is a no-op that fails with `OrderNotFound`.
    fn cancel(&mut self, orderid: OrderId) -> (r: Result<Event, Failure>)
        requires
            old(self).wf(),
        ensures
            final(self).wf(),
            match r {
                Ok(e) => {
                    &&& e.status == OrderStatus::Canceled
                    &&& e.orderid == orderid
                    &&& e.at_price@ == ""@
                    &&& cancel_effect(old(self).state(), final(self).state(), orderid)
                },
                Err(f) => {
                    &&& !old(self).state().index.contains_key(orderid)
                    &&& f == Failure::OrderNotFound(orderid)
                    &&& final(self).state() == old(self).state()
                },
            },
    ;

    /// Places a limit order into the book. Market orders are rejected,
    /// as are orders of another trading pair and ids that already rest
    /// here; otherwise the order is indexed, queued on its side, and a
    /// `Created` event is reported. A failed place leaves the book
    /// unchanged.
    fn place(&mut self, order: Order) -> (r: Result<Event, Failure>)
        requires
            old(self).wf(),
        ensures
            final(self).wf(),
            match r {
                Ok(e) => {
                    &&& order.order_type != OrderType::Market
                    &&& order.trading_pair == old(self).state().pair
                    &&& !old(self).state().index.contains_key(order.orderid)
                    &&& e.status == OrderStatus::Created
                    &&& e.orderid == order.orderid
                    &&& e.at_price@ == ""@
                    &&& place_effect(old(self).state(), final(self).state(), order)
                },
                Err(f) => {
                    &&& final(self).state() == old(self).state()
                    &&& (if order.order_type == OrderType::Market {
                        f matches Failure::OrderRejected(_)
                    } else if order.trading_pair != old(self).state().pair {
                        f == Failure::InvalidOrderForBook
                    } else {
                        old(self).state().index.contains_key(order.orderid) && (f
                            matches Failure::OrderRejected(_))
                    })
                },
            },
    ;

    /// The full order at the top of the ask queue, if any.
    fn peek_top_ask(&self) -> (r: Option<&Order>)
        requires
            self.wf(),
        ensures
            match r {
                Some(o) => self.state().asks.len() > 0 && *o == self.state().asks[0],
                None => self.state().asks.len() == 0,
            },
    ;

    /// The full order at the top of the bid queue, if any.
    fn peek_top_bid(&self) -> (r: Option<&Order>)
        requires
            self.wf(),
        ensures
            match r {
                Some(o) => self.state().bids.len() > 0 && *o == self.state().bids[0],
                None => self.state().bids.len() == 0,
            },
    ;

    /// The spread, in price atoms: top ask price minus top bid price.
    /// It is defined exactly when both sides are non-empty.
    fn get_spread(&self) -> (r: Option<i128>)
        requires
            self.wf(),
        ensures
            match r {
                Some(s) => self.state().bids.len() > 0 && self.state().asks.len() > 0 && s
                    == self.state().asks[0].price.atoms as int - self.state().bids[0].price.atoms
                    as int,
                None => self.state().bids.len() == 0 || self.state().asks.len() == 0,
            },
    ;

    /// Replaces the quantity of the resting order named `orderid`, in
    /// place: the queues are untouched, because the priority key does
    /// not involve the quantity. An unknown id is silently ignored.
    fn modify_quantity(&mut self, orderid: OrderId, qty: Long)
        requires
            old(self).wf(),
        ensures
            final(self).wf(),
            final(self).state().pair == old(self).state().pair,
            (if old(self).state().index.contains_key(orderid) {
                final(self).state().index == old(self).state().index.insert(
                    orderid,
                    with_qty(old(self).state().index[orderid], qty),
                )
            } else {
                final(self).state().index == old(self).state().index
            }),
            forall|side: OrderSide| #[trigger]
                final(self).state().side(side) == orders_with_qty(
                    old(self).state().side(side),
                    orderid,
                    qty,
                ),
    ;

    /// Removes and returns the top bid, from the queue and the index
    /// atomically from the caller's perspective.
    fn pop_top_bid(&mut self) -> (r: Option<Order>)
        requires
            old(self).wf(),
        ensures
            final(self).wf(),
            final(self).state().pair == old(self).state().pair,
            match r {
                Some(o) => {
                    &&& old(self).state().bids.len() > 0
                    &&& o == old(self).state().bids[0]
                    &&& final(self).state().bids == old(self).state().bids.drop_first()
                    &&& final(self).state().asks == old(self).state().asks
                    &&& final(self).state().index == old(self).state().index.remove(o.orderid)
                },
                None => old(self).state().bids.len() == 0 && final(self).state() == old(
                    self,
                ).state(),
            },
    ;

    /// Removes and returns the top ask, from the queue and the index
    /// atomically from the caller's perspective.
    fn pop_top_ask(&mut self) -> (r: Option<Order>)
        requires
            old(self).wf(),
        ensures
            final(self).wf(),
            final(self).state().pair == old(self).state().pair,
            match r {
                Some(o) => {
                    &&& old(self).state().asks.len() > 0
                    &&& o == old(self).state().asks[0]
                    &&& final(self).state().asks == old(self).state().asks.drop_first()
                    &&& final(self).state().bids == old(self).state().bids
                    &&& final(self).state().index == old(self).state().index.remove(o.orderid)
                },
                None => old(self).state().asks.len() == 0 && final(self).state() == old(
                    self,
                ).state(),
            },
    ;
}

/// An order book made of two price-time priority queues (bids and
/// asks) and a hash index from order id to the live order.
pub struct LimitOrderBook {
    trading_pair: TradingPair,
    bids: PriceTimePriorityOrderQueue<OrderKey>,
    asks: PriceTimePriorityOrderQueue<OrderKey>,
    orders: HashMap<OrderId, Order>,
}

impl LimitOrderBook {
    /// The key sequence of one side's queue, best first.
    spec fn keys_of(&self, side: OrderSide) -> Seq<OrderKey> {
        match side {
            OrderSide::Bid => self.bids.contents(),
            OrderSide::Ask => self.asks.contents(),
        }
    }

    /// One side's resting orders: its keys resolved through the index.
    spec fn side_seq(&self, side: OrderSide) -> Seq<Order> {
        self.keys_of(side).map_values(|k: OrderKey| self.orders@[k.orderid])
    }

    /// One side's keys agree with the index: right side, indexed id,
    /// key fields identical to the indexed order's, ids unique.
    spec fn keys_wf(&self, side: OrderSide) -> bool {
        &&& (forall|i: int|
            0 <= i < self.keys_of(side).len() ==> {
                let k = #[trigger] self.keys_of(side)[i];
                &&& k.side == side
                &&& self.orders@.contains_key(k.orderid)
                &&& self.orders@[k.orderid].key() == k
            })
        &&& (forall|i: int, j: int|
            #![trigger self.keys_of(side)[i], self.keys_of(side)[j]]
            0 <= i < j < self.keys_of(side).len() ==> self.keys_of(side)[i].orderid != self.keys_of(
                side,
            )[j].orderid)
    }

    /// The whole book's invariant: sorted queues, both sides' keys in
    /// agreement with the index, and every indexed order a non-market
    /// order of the book's pair whose key rests on its own side.
    spec fn book_wf(&self) -> bool {
        &&& self.bids.wf()
        &&& self.asks.wf()
        &&& self.keys_wf(OrderSide::Bid)
        &&& self.keys_wf(OrderSide::Ask)
        &&& (forall|id: OrderId|
            #[trigger] self.orders@.contains_key(id) ==> {
                let o = self.orders@[id];
                &&& o.orderid == id
                &&& o.trading_pair == self.trading_pair
                &&& o.order_type != OrderType::Market
                &&& self.keys_of(o.side).contains(o.key())
            })
    }

    /// An empty book for the given trading pair.
    pub fn init(trading_pair: TradingPair) -> (book: LimitOrderBook)
        ensures
            book.wf(),
            book.state().pair == trading_pair,
            book.state().index == Map::<OrderId, Order>::empty(),
            book.state().bids == Seq::<Order>::empty(),
            book.state().asks == Seq::<Order>::empty(),
    {
        let book = Self {
            trading_pair,
            bids: PriceTimePriorityOrderQueue::with_capacity(ORDER_BOOK_INITIAL_CAPACITY),
            asks: PriceTimePriorityOrderQueue::with_capacity(ORDER_BOOK_INITIAL_CAPACITY),
            orders: HashMap::with_capacity(ORDER_BOOK_INITIAL_CAPACITY),
        };
        proof {
            assert(book.state().bids =~= Seq::<Order>::empty());
            assert(book.state().asks =~= Seq::<Order>::empty());
        }
        book
    }
}

impl OrderBook for LimitOrderBook {
    closed spec fn state(&self) -> BookState {
        BookState {
            pair: self.trading_pair,
            index: self.orders@,
            bids: self.side_seq(OrderSide::Bid),
            asks: self.side_seq(OrderSide::Ask),
        }
    }

    closed spec fn wf(&self) -> bool {
        self.book_wf()
    }

    proof fn wf_properties(&self) {
        assert forall|side: OrderSide, i: int|
            0 <= i < self.state().side(side).len() implies {
            let o = #[trigger] self.state().side(side)[i];
            &&& o.side == side
            &&& o.trading_pair == self.state().pair
            &&& o.order_type != OrderType::Market
            &&& self.state().index.contains_key(o.orderid)
            &&& self.state().index[o.orderid] == o
        } by {
            let k = self.keys_of(side)[i];
            assert(self.state().side(side) == self.side_seq(side));
            assert(self.side_seq(side)[i] == self.orders@[k.orderid]);
        }
        assert forall|side: OrderSide, i: int, j: int|
            #![trigger self.state().side(side)[i], self.state().side(side)[j]]
            0 <= i < j < self.state().side(side).len() implies self.state().side(side)[i].orderid
            != self.state().side(side)[j].orderid by {
            let ki = self.keys_of(side)[i];
            let kj = self.keys_of(side)[j];
            assert(self.state().side(side) == self.side_seq(side));
            assert(self.side_seq(side)[i] == self.orders@[ki.orderid]);
            assert(self.side_seq(side)[j] == self.orders@[kj.orderid]);
        }
        assert forall|id: OrderId| #[trigger]
            self.state().index.contains_key(id) implies self.state().index[id].orderid == id
            && self.state().side(self.state().index[id].side).contains(
            self.state().index[id],
        ) by {
            let o = self.orders@[id];
            let ks = self.keys_of(o.side);
            let i = choose|i: int| 0 <= i < ks.len() && ks[i] == o.key();
            assert(self.state().side(o.side) == self.side_seq(o.side));
            assert(self.side_seq(o.side)[i] == self.orders@[ks[i].orderid]);
            assert(self.side_seq(o.side)[i] == o);
        }
    }

    proof fn wf_priority(&self) {
        self.bids.wf_sorted();
        self.asks.wf_sorted();
        assert forall|side: OrderSide, i: int, j: int|
            #![trigger self.state().side(side)[i], self.state().side(side)[j]]
            0 <= i <= j < self.state().side(side).len() implies self.state().side(
            side,
        )[i].key().prio_geq(self.state().side(side)[j].key()) by {
            let ki = self.keys_of(side)[i];
            let kj = self.keys_of(side)[j];
            assert(self.state().side(side) == self.side_seq(side));
            assert(self.side_seq(side)[i] == self.orders@[ki.orderid]);
            assert(self.side_seq(side)[j] == self.orders@[kj.orderid]);
            assert(self.orders@[ki.orderid].key() == ki);
            assert(self.orders@[kj.orderid].key() == kj);
            assert(ki.prio_geq(kj));
        }
    }

    fn cancel(&mut self, orderid: OrderId) -> Result<Event, Failure> {
        match self.orders.remove(&orderid) {
            Some(order) => {
                proof {
                    assert(old(self).keys_of(order.side).contains(order.key()));
                }
                let key = order.to_key();
                let removed = match order.side {
                    OrderSide::Bid => self.bids.remove(key),
                    OrderSide::Ask => self.asks.remove(key),
                };
                proof {
                    if removed is None {
                        assert(false);
                    }
                    let pre = *old(self);
                    let side = order.side;
                    let s = pre.keys_of(side);
                    let j = choose|j: int|
                        0 <= j < s.len() && s[j] == order.key() && self.keys_of(side) == s.remove(
                            j,
                        );
                    lemma_book_after_cancel(pre, *self, order, j);
                    assert(cancel_effect(pre.state(), self.state(), orderid)) by {
                        assert(pre.state().side(side) == pre.side_seq(side));
                        assert(self.state().side(side) == self.side_seq(side));
                        assert(pre.state().side(opposite(side)) == pre.side_seq(opposite(side)));
                        assert(self.state().side(opposite(side)) == self.side_seq(opposite(side)));
                        assert(pre.side_seq(side)[j] == order);
                        assert(exists|x: int|
                            0 <= x < pre.state().side(side).len() && pre.state().side(side)[x]
                                == order && self.state().side(side) == #[trigger] pre.state().side(
                                side,
                            ).remove(x));
                    }
                }
                Ok(
                    Event {
                        status: OrderStatus::Canceled,
                        orderid,
                        at_price: String::from_str(""),
                    },
                )
            },
            None => {
                proof {
                    let pre = *old(self);
                    assert(self.orders@ =~= pre.orders@);
                    assert(self.side_seq(OrderSide::Bid) =~= pre.side_seq(OrderSide::Bid));
                    assert(self.side_seq(OrderSide::Ask) =~= pre.side_seq(OrderSide::Ask));
                }
                Err(Failure::OrderNotFound(orderid))
            },
        }
    }

    fn place(&mut self, order: Order) -> Result<Event, Failure> {
        if order.order_type == OrderType::Market {
            return Err(
                Failure::OrderRejected(
                    String::from_str("Only limit orders can be placed in the orderbook"),
                ),
            );
        }
        if self.trading_pair != order.trading_pair {
            return Err(Failure::InvalidOrderForBook);
        }
        if self.orders.contains_key(&order.orderid) {
            return Err(
                Failure::OrderRejected(
                    String::from_str("An order with the same id already rests in the book"),
                ),
            );
        }
        self.orders.insert(order.orderid, order);
        let key = order.to_key();
        match order.side {
            OrderSide::Bid => self.bids.push(key),
            OrderSide::Ask => self.asks.push(key),
        }
        proof {
            let pre = *old(self);
            let side = order.side;
            let s = pre.keys_of(side);
            let i = choose|i: int|
                0 <= i <= s.len() && self.keys_of(side) == s.insert(i, order.key());
            lemma_book_after_place(pre, *self, order, i);
            assert(place_effect(pre.state(), self.state(), order)) by {
                assert(pre.state().side(side) == pre.side_seq(side));
                assert(self.state().side(side) == self.side_seq(side));
                assert(pre.state().side(opposite(side)) == pre.side_seq(opposite(side)));
                assert(self.state().side(opposite(side)) == self.side_seq(opposite(side)));
                assert(exists|x: int|
                    0 <= x <= pre.state().side(side).len() && self.state().side(side)
                        == #[trigger] pre.state().side(side).insert(x, order));
            }
        }
        Ok(
            Event {
                status: OrderStatus::Created,
                orderid: order.orderid,
                at_price: String::from_str(""),
            },
        )
    }

    fn get_spread(&self) -> Option<i128> {
        match self.bids.peek() {
            Some(bid) => match self.asks.peek() {
                Some(ask) => {
                    proof {
                        let bk = self.keys_of(OrderSide::Bid)[0];
                        let ak = self.keys_of(OrderSide::Ask)[0];
                        assert(self.state().bids[0] == self.orders@[bk.orderid]);
                        assert(self.state().asks[0] == self.orders@[ak.orderid]);
                        assert(self.orders@[bk.orderid].key() == bk);
                        assert(self.orders@[ak.orderid].key() == ak);
                    }
                    Some((ask.price.atoms as i128) - (bid.price.atoms as i128))
                },
                None => None,
            },
            None => None,
        }
    }

    fn peek_top_ask(&self) -> Option<&Order> {
        match self.asks.peek() {
            Some(k) => {
                proof {
                    let kk = self.keys_of(OrderSide::Ask)[0];
                    assert(self.orders@.contains_key(kk.orderid));
                    assert(self.state().asks[0] == self.orders@[kk.orderid]);
                }
                self.orders.get(&k.orderid)
            },
            None => None,
        }
    }

    fn peek_top_bid(&self) -> Option<&Order> {
        match self.bids.peek() {
            Some(k) => {
                proof {
                    let kk = self.keys_of(OrderSide::Bid)[0];
                    assert(self.orders@.contains_key(kk.orderid));
                    assert(self.state().bids[0] == self.orders@[kk.orderid]);
                }
                self.orders.get(&k.orderid)
            },
            None => None,
        }
    }

    fn modify_quantity(&mut self, orderid: OrderId, quantity: Long) {
        let current = match self.orders.get(&orderid) {
            Some(o) => Some(*o),
            None => None,
        };
        match current {
            Some(found) => {
                let mut updated = found;
                updated.quantity = quantity;
                self.orders.insert(orderid, updated);
                proof {
                    let pre = *old(self);
                    assert(updated == with_qty(pre.orders@[orderid], quantity));
                    lemma_book_after_modify(pre, *self, orderid, quantity);
                    assert forall|side: OrderSide| #[trigger]
                        self.state().side(side) == orders_with_qty(
                        pre.state().side(side),
                        orderid,
                        quantity,
                    ) by {
                        assert(pre.state().side(side) == pre.side_seq(side));
                        assert(self.state().side(side) == self.side_seq(side));
                    }
                }
            },
            None => {
                proof {
                    let pre = *old(self);
                    assert forall|side: OrderSide| #[trigger]
                        self.state().side(side) == orders_with_qty(
                        pre.state().side(side),
                        orderid,
                        quantity,
                    ) by {
                        assert forall|i: int|
                            0 <= i < pre.keys_of(side).len() implies pre.keys_of(side)[i].orderid
                            != orderid by {
                            let k = pre.keys_of(side)[i];
                            assert(pre.orders@.contains_key(k.orderid));
                        }
                        assert(pre.state().side(side) == pre.side_seq(side));
                        assert(self.state().side(side) == self.side_seq(side));
                        assert(self.side_seq(side) =~= orders_with_qty(
                            pre.side_seq(side),
                            orderid,
                            quantity,
                        ));
                    }
                }
            },
        }
    }

    fn pop_top_bid(&mut self) -> Option<Order> {
        match self.bids.pop() {
            Some(k) => {
                proof {
                    let kk = old(self).keys_of(OrderSide::Bid)[0];
                    assert(old(self).orders@.contains_key(kk.orderid));
                }
                let taken = self.orders.remove(&k.orderid);
                proof {
                    lemma_book_after_pop(*old(self), *self, OrderSide::Bid);
                }
                taken
            },
            None => {
                proof {
                    let pre = *old(self);
                    assert(self.side_seq(OrderSide::Bid) =~= pre.side_seq(OrderSide::Bid));
                    assert(self.side_seq(OrderSide::Ask) =~= pre.side_seq(OrderSide::Ask));
                }
                None
            },
        }
    }

    fn pop_top_ask(&mut self) -> Option<Order> {
        match self.asks.pop() {
            Some(k) => {
                proof {
                    let kk = old(self).keys_of(OrderSide::Ask)[0];
                    assert(old(self).orders@.contains_key(kk.orderid));
                }
                let taken = self.orders.remove(&k.orderid);
                proof {
                    lemma_book_after_pop(*old(self), *self, OrderSide::Ask);
                }
                taken
            },
            None => {
                proof {
                    let pre = *old(self);
                    assert(self.side_seq(OrderSide::Bid) =~= pre.side_seq(OrderSide::Bid));
                    assert(self.side_seq(OrderSide::Ask) =~= pre.side_seq(OrderSide::Ask));
                }
                None
            },
        }
    }
}

/// Index-queue agreement law: an id in a well-formed book's index
/// rests exactly once — at one position on the side its order names,
/// and nowhere on the other side.
pub proof fn lemma_index_order_unique<B: OrderBook>(book: &B, id: OrderId)
    requires
        book.wf(),
        book.state().index.contains_key(id),
    ensures
        ({
            let o = book.state().index[id];
            &&& (exists|i: int|
                0 <= i < book.state().side(o.side).len() && #[trigger] book.state().side(
                    o.side,
                )[i] == o)
            &&& (forall|i: int, j: int|
                #![trigger book.state().side(o.side)[i], book.state().side(o.side)[j]]
                0 <= i < book.state().side(o.side).len() && 0 <= j < book.state().side(
                    o.side,
                ).len() && book.state().side(o.side)[i].orderid == id && book.state().side(
                    o.side,
                )[j].orderid == id ==> i == j)
            &&& (forall|j: int|
                0 <= j < book.state().side(opposite(o.side)).len() ==> (#[trigger] book.state()
                    .side(opposite(o.side))[j]).orderid != id)
        }),
{
    book.wf_properties();
    let o = book.state().index[id];
    let s = book.state().side(o.side);
    assert(s.contains(o));
    let w = choose|i: int| 0 <= i < s.len() && s[i] == o;
    assert(s[w] == o);
    assert forall|i: int, j: int|
        #![trigger s[i], s[j]]
        0 <= i < s.len() && 0 <= j < s.len() && s[i].orderid == id && s[j].orderid == id implies i
        == j by {
        if i < j {
            assert(s[i].orderid != s[j].orderid);
        } else if j < i {
            assert(s[j].orderid != s[i].orderid);
        }
    }
    assert forall|j: int|
        0 <= j < book.state().side(opposite(o.side)).len() implies (#[trigger] book.state().side(
        opposite(o.side),
    )[j]).orderid != id by {
        let oo = book.state().side(opposite(o.side))[j];
        assert(oo.side == opposite(o.side));
        if oo.orderid == id {
            assert(book.state().index[id] == oo);
        }
    }
}

/// Price-monotonicity law: resting orders on a side are monotone in
/// price — bids descend, asks ascend. This is why the matcher may
/// check a limit order's price only against the first opposite top:
/// every deeper level is at a price no better for the incoming order.
pub proof fn lemma_side_prices_monotone<B: OrderBook>(book: &B, side: OrderSide, i: int, j: int)
    requires
        book.wf(),
        0 <= i <= j < book.state().side(side).len(),
    ensures
        side == OrderSide::Bid ==> book.state().side(side)[i].price.atoms >= book.state().side(
            side,
        )[j].price.atoms,
        side == OrderSide::Ask ==> book.state().side(side)[i].price.atoms <= book.state().side(
            side,
        )[j].price.atoms,
{
    book.wf_priority();
    book.wf_properties();
    let oi = book.state().side(side)[i];
    let oj = book.state().side(side)[j];
    assert(oi.key().prio_geq(oj.key()));
    assert(oi.side == side && oj.side == side);
}

/// New-top law: an order just placed into a well-formed book rests at
/// the head of its side — and is hence what peek returns there — when
/// its key outranks every order that was resting on that side.
pub proof fn lemma_new_top_is_first<B: OrderBook>(pre: BookState, book: &B, order: Order)
    requires
        book.wf(),
        place_effect(pre, book.state(), order),
        forall|k: int|
            0 <= k < pre.side(order.side).len() ==> !(#[trigger] pre.side(
                order.side,
            )[k]).key().prio_geq(order.key()),
    ensures
        book.state().side(order.side).len() > 0,
        book.state().side(order.side)[0] == order,
{
    book.wf_priority();
    let s = pre.side(order.side);
    let t = book.state().side(order.side);
    let i = choose|i: int| 0 <= i <= s.len() && t == s.insert(i, order);
    s.insert_ensures(i, order);
    if i > 0 {
        assert(t[0] == s[0]);
        assert(t[i] == order);
        assert(t[0].key().prio_geq(t[i].key()));
        assert(false);
    }
    assert(t[0] == order);
}

/// Round-trip law: placing an order into a book and then canceling it
/// by its id returns the book to its previous state: the same trading
/// pair, the same index, and the same multiset of resting orders on
/// each side.
pub proof fn lemma_place_cancel_round_trip(
    pre: BookState,
    placed: BookState,
    post: BookState,
    order: Order,
)
    requires
        !pre.index.contains_key(order.orderid),
        place_effect(pre, placed, order),
        cancel_effect(placed, post, order.orderid),
    ensures
        post.pair == pre.pair,
        post.index == pre.index,
        post.bids.to_multiset() == pre.bids.to_multiset(),
        post.asks.to_multiset() == pre.asks.to_multiset(),
{
    assert(post.index =~= pre.index);
    assert(placed.index[order.orderid] == order);
    let side = order.side;
    let i = choose|i: int|
        0 <= i <= pre.side(side).len() && placed.side(side) == pre.side(side).insert(i, order);
    let j = choose|j: int|
        0 <= j < placed.side(side).len() && placed.side(side)[j] == order && post.side(side)
            == placed.side(side).remove(j);
    lemma_insert_to_multiset(pre.side(side), i, order);
    broadcast use vstd::seq_lib::group_to_multiset_ensures;

    assert(post.side(side).to_multiset() =~= placed.side(side).to_multiset().remove(order));
    assert(placed.side(side).to_multiset() == pre.side(side).to_multiset().insert(order));
    assert(post.side(side).to_multiset() =~= pre.side(side).to_multiset());
    assert(post.side(opposite(side)) == pre.side(opposite(side)));
    if side == OrderSide::Bid {
        assert(post.bids.to_multiset() == pre.bids.to_multiset());
        assert(post.asks.to_multiset() == pre.asks.to_multiset());
    } else {
        assert(post.asks.to_multiset() == pre.asks.to_multiset());
        assert(post.bids.to_multiset() == pre.bids.to_multiset());
    }
}

/// Inserting anywhere in a sequence inserts into its multiset.
proof fn lemma_insert_to_multiset<A>(s: Seq<A>, i: int, x: A)
    requires
        0 <= i <= s.len(),
    ensures
        s.insert(i, x).to_multiset() == s.to_multiset().insert(x),
{
    let t = s.insert(i, x);
    s.insert_ensures(i, x);
    t.remove_ensures(i);
    assert(t[i] == x);
    assert(t.remove(i) =~= s);
    broadcast use vstd::seq_lib::group_to_multiset_ensures;

    assert(t.contains(x));
    assert(t.to_multiset().count(x) > 0);
    assert(t.remove(i).to_multiset() =~= t.to_multiset().remove(t[i]));
    assert(s.to_multiset() == t.to_multiset().remove(x));
    assert(t.to_multiset() =~= s.to_multiset().insert(x));
}

/// An element stays in a sequence when another one is inserted.
proof fn lemma_insert_contains<A>(s: Seq<A>, i: int, x: A, y: A)
    requires
        0 <= i <= s.len(),
        s.contains(y),
    ensures
        s.insert(i, x).contains(y),
{
    let j = choose|j: int| 0 <= j < s.len() && s[j] == y;
    s.insert_ensures(i, x);
    if j < i {
        assert(s.insert(i, x)[j] == y);
    } else {
        assert(s.insert(i, x)[j + 1] == y);
    }
}

/// An element distinct from the removed one stays in the sequence.
proof fn lemma_remove_contains<A>(s: Seq<A>, i: int, y: A)
    requires
        0 <= i < s.len(),
        s.contains(y),
        y != s[i],
    ensures
        s.remove(i).contains(y),
{
    let j = choose|j: int| 0 <= j < s.len() && s[j] == y;
    s.remove_ensures(i);
    if j < i {
        assert(s.remove(i)[j] == y);
    } else {
        assert(s.remove(i)[j - 1] == y);
    }
}

/// Placing `order`: the map gains the order, its side's key sequence
/// gains the key at position `i`, and the invariant carries over.
proof fn lemma_book_after_place(pre: LimitOrderBook, post: LimitOrderBook, order: Order, i: int)
    requires
        pre.book_wf(),
        order.order_type != OrderType::Market,
        order.trading_pair == pre.trading_pair,
        !pre.orders@.contains_key(order.orderid),
        post.trading_pair == pre.trading_pair,
        post.orders@ == pre.orders@.insert(order.orderid, order),
        0 <= i <= pre.keys_of(order.side).len(),
        post.keys_of(order.side) == pre.keys_of(order.side).insert(i, order.key()),
        post.keys_of(opposite(order.side)) == pre.keys_of(opposite(order.side)),
        post.bids.wf(),
        post.asks.wf(),
    ensures
        post.book_wf(),
        post.side_seq(order.side) == pre.side_seq(order.side).insert(i, order),
        post.side_seq(opposite(order.side)) == pre.side_seq(opposite(order.side)),
{
    let side = order.side;
    let other = opposite(side);
    let s = pre.keys_of(side);
    let t = post.keys_of(side);
    let k = order.key();
    s.insert_ensures(i, k);

    assert forall|n: int| 0 <= n < t.len() implies {
        let kk = #[trigger] t[n];
        &&& kk.side == side
        &&& post.orders@.contains_key(kk.orderid)
        &&& post.orders@[kk.orderid].key() == kk
    } by {
        if n < i {
            assert(t[n] == s[n]);
            assert(pre.orders@.contains_key(s[n].orderid));
        } else if n == i {
            assert(t[n] == k);
        } else {
            assert(t[n] == s[n - 1]);
            assert(pre.orders@.contains_key(s[n - 1].orderid));
        }
    }
    assert forall|n: int, m: int|
        #![trigger t[n], t[m]]
        0 <= n < m < t.len() implies t[n].orderid != t[m].orderid by {
        if m < i {
            assert(t[n] == s[n] && t[m] == s[m]);
        } else if n < i && m == i {
            assert(t[n] == s[n] && t[m] == k);
            assert(pre.orders@.contains_key(s[n].orderid));
        } else if n < i && m > i {
            assert(t[n] == s[n] && t[m] == s[m - 1]);
        } else if n == i {
            assert(t[m] == s[m - 1]);
            assert(pre.orders@.contains_key(s[m - 1].orderid));
        } else {
            assert(t[n] == s[n - 1] && t[m] == s[m - 1]);
        }
    }
    assert forall|n: int| 0 <= n < post.keys_of(other).len() implies {
        let kk = #[trigger] post.keys_of(other)[n];
        &&& kk.side == other
        &&& post.orders@.contains_key(kk.orderid)
        &&& post.orders@[kk.orderid].key() == kk
    } by {
        let kk = pre.keys_of(other)[n];
        assert(pre.orders@.contains_key(kk.orderid));
    }
    assert forall|n: int, m: int|
        #![trigger post.keys_of(other)[n], post.keys_of(other)[m]]
        0 <= n < m < post.keys_of(other).len() implies post.keys_of(other)[n].orderid
        != post.keys_of(other)[m].orderid by {
        assert(pre.keys_of(other)[n].orderid != pre.keys_of(other)[m].orderid);
    }
    assert forall|id: OrderId| #[trigger] post.orders@.contains_key(id) implies {
        let o = post.orders@[id];
        &&& o.orderid == id
        &&& o.trading_pair == post.trading_pair
        &&& o.order_type != OrderType::Market
        &&& post.keys_of(o.side).contains(o.key())
    } by {
        if id == order.orderid {
            assert(post.orders@[id] == order);
            assert(post.keys_of(side)[i] == k);
            assert(post.keys_of(side).contains(k));
        } else {
            assert(pre.orders@.contains_key(id));
            let o = pre.orders@[id];
            assert(pre.keys_of(o.side).contains(o.key()));
            if o.side == side {
                lemma_insert_contains(s, i, k, o.key());
            } else {
                assert(post.keys_of(o.side) == pre.keys_of(o.side));
            }
        }
    }
    assert(post.book_wf());

    pre.side_seq(side).insert_ensures(i, order);
    assert forall|n: int|
        0 <= n < post.side_seq(side).len() implies #[trigger] post.side_seq(side)[n]
        == pre.side_seq(side).insert(i, order)[n] by {
        if n < i {
            assert(t[n] == s[n]);
            assert(pre.orders@.contains_key(s[n].orderid));
            assert(post.orders@[s[n].orderid] == pre.orders@[s[n].orderid]);
            assert(pre.side_seq(side)[n] == pre.orders@[s[n].orderid]);
        } else if n == i {
            assert(t[n] == k);
            assert(post.orders@[k.orderid] == order);
        } else {
            assert(t[n] == s[n - 1]);
            assert(pre.orders@.contains_key(s[n - 1].orderid));
            assert(post.orders@[s[n - 1].orderid] == pre.orders@[s[n - 1].orderid]);
            assert(pre.side_seq(side)[n - 1] == pre.orders@[s[n - 1].orderid]);
        }
    }
    assert(post.side_seq(side) =~= pre.side_seq(side).insert(i, order));
    assert forall|n: int|
        0 <= n < post.side_seq(other).len() implies #[trigger] post.side_seq(other)[n]
        == pre.side_seq(other)[n] by {
        let kk = pre.keys_of(other)[n];
        assert(pre.orders@.contains_key(kk.orderid));
        assert(post.orders@[kk.orderid] == pre.orders@[kk.orderid]);
    }
    assert(post.side_seq(other) =~= pre.side_seq(other));
}

/// Canceling `order` (resting at key position `j` on its side): the
/// map loses the order, the key sequence loses its key, and the
/// invariant carries over.
proof fn lemma_book_after_cancel(pre: LimitOrderBook, post: LimitOrderBook, order: Order, j: int)
    requires
        pre.book_wf(),
        pre.orders@.contains_key(order.orderid),
        pre.orders@[order.orderid] == order,
        post.trading_pair == pre.trading_pair,
        post.orders@ == pre.orders@.remove(order.orderid),
        0 <= j < pre.keys_of(order.side).len(),
        pre.keys_of(order.side)[j] == order.key(),
        post.keys_of(order.side) == pre.keys_of(order.side).remove(j),
        post.keys_of(opposite(order.side)) == pre.keys_of(opposite(order.side)),
        post.bids.wf(),
        post.asks.wf(),
    ensures
        post.book_wf(),
        post.side_seq(order.side) == pre.side_seq(order.side).remove(j),
        post.side_seq(opposite(order.side)) == pre.side_seq(opposite(order.side)),
        pre.side_seq(order.side)[j] == order,
{
    let side = order.side;
    let other = opposite(side);
    let s = pre.keys_of(side);
    let t = post.keys_of(side);
    s.remove_ensures(j);

    // Every surviving key on the order's side names another id.
    assert forall|n: int| 0 <= n < s.len() && n != j implies #[trigger] s[n].orderid
        != order.orderid by {
        if n < j {
            assert(s[n].orderid != s[j].orderid);
        } else {
            assert(s[j].orderid != s[n].orderid);
        }
    }
    // Keys on the other side always name other ids: their orders rest
    // on the other side.
    assert forall|n: int| 0 <= n < pre.keys_of(other).len() implies #[trigger] pre.keys_of(
        other,
    )[n].orderid != order.orderid by {
        let kk = pre.keys_of(other)[n];
        assert(pre.orders@[kk.orderid].key() == kk);
    }

    assert forall|n: int| 0 <= n < t.len() implies {
        let kk = #[trigger] t[n];
        &&& kk.side == side
        &&& post.orders@.contains_key(kk.orderid)
        &&& post.orders@[kk.orderid].key() == kk
    } by {
        if n < j {
            assert(t[n] == s[n]);
        } else {
            assert(t[n] == s[n + 1]);
        }
    }
    assert forall|n: int, m: int|
        #![trigger t[n], t[m]]
        0 <= n < m < t.len() implies t[n].orderid != t[m].orderid by {
        if n < j {
            assert(t[n] == s[n]);
        } else {
            assert(t[n] == s[n + 1]);
        }
        if m < j {
            assert(t[m] == s[m]);
        } else {
            assert(t[m] == s[m + 1]);
        }
    }
    assert forall|n: int| 0 <= n < post.keys_of(other).len() implies {
        let kk = #[trigger] post.keys_of(other)[n];
        &&& kk.side == other
        &&& post.orders@.contains_key(kk.orderid)
        &&& post.orders@[kk.orderid].key() == kk
    } by {
        let kk = pre.keys_of(other)[n];
        assert(pre.orders@.contains_key(kk.orderid));
    }
    assert forall|n: int, m: int|
        #![trigger post.keys_of(other)[n], post.keys_of(other)[m]]
        0 <= n < m < post.keys_of(other).len() implies post.keys_of(other)[n].orderid
        != post.keys_of(other)[m].orderid by {
        assert(pre.keys_of(other)[n].orderid != pre.keys_of(other)[m].orderid);
    }
    assert forall|id: OrderId| #[trigger] post.orders@.contains_key(id) implies {
        let o = post.orders@[id];
        &&& o.orderid == id
        &&& o.trading_pair == post.trading_pair
        &&& o.order_type != OrderType::Market
        &&& post.keys_of(o.side).contains(o.key())
    } by {
        assert(pre.orders@.contains_key(id) && id != order.orderid);
        let o = pre.orders@[id];
        assert(pre.keys_of(o.side).contains(o.key()));
        if o.side == side {
            assert(o.key().orderid == id);
            assert(s[j].orderid == order.orderid);
            lemma_remove_contains(s, j, o.key());
        } else {
            assert(post.keys_of(o.side) == pre.keys_of(o.side));
        }
    }
    assert(post.book_wf());

    pre.side_seq(side).remove_ensures(j);
    assert forall|n: int|
        0 <= n < post.side_seq(side).len() implies #[trigger] post.side_seq(side)[n]
        == pre.side_seq(side).remove(j)[n] by {
        if n < j {
            assert(t[n] == s[n]);
            assert(post.orders@[s[n].orderid] == pre.orders@[s[n].orderid]);
            assert(pre.side_seq(side)[n] == pre.orders@[s[n].orderid]);
        } else {
            assert(t[n] == s[n + 1]);
            assert(post.orders@[s[n + 1].orderid] == pre.orders@[s[n + 1].orderid]);
            assert(pre.side_seq(side)[n + 1] == pre.orders@[s[n + 1].orderid]);
        }
    }
    assert(post.side_seq(side) =~= pre.side_seq(side).remove(j));
    assert forall|n: int|
        0 <= n < post.side_seq(other).len() implies #[trigger] post.side_seq(other)[n]
        == pre.side_seq(other)[n] by {
        let kk = pre.keys_of(other)[n];
        assert(post.orders@[kk.orderid] == pre.orders@[kk.orderid]);
    }
    assert(post.side_seq(other) =~= pre.side_seq(other));
    assert(pre.side_seq(side)[j] == pre.orders@[s[j].orderid]);
}

/// Replacing the quantity of the indexed order named `orderid`: the
/// queues are untouched, every element of each side keeps everything
/// but (possibly) its quantity, and the invariant carries over.
proof fn lemma_book_after_modify(
    pre: LimitOrderBook,
    post: LimitOrderBook,
    orderid: OrderId,
    qty: Long,
)
    requires
        pre.book_wf(),
        pre.orders@.contains_key(orderid),
        post.trading_pair == pre.trading_pair,
        post.bids == pre.bids,
        post.asks == pre.asks,
        post.orders@ == pre.orders@.insert(orderid, with_qty(pre.orders@[orderid], qty)),
    ensures
        post.book_wf(),
        forall|side: OrderSide| #[trigger]
            post.side_seq(side) == orders_with_qty(pre.side_seq(side), orderid, qty),
{
    let o = pre.orders@[orderid];
    let oo = with_qty(o, qty);
    assert(oo.key() == o.key());

    assert forall|side: OrderSide, n: int|
        #![trigger post.keys_of(side)[n]]
        0 <= n < post.keys_of(side).len() implies {
        let kk = post.keys_of(side)[n];
        &&& kk.side == side
        &&& post.orders@.contains_key(kk.orderid)
        &&& post.orders@[kk.orderid].key() == kk
    } by {
        let kk = pre.keys_of(side)[n];
        assert(pre.orders@.contains_key(kk.orderid));
        if kk.orderid == orderid {
            assert(post.orders@[kk.orderid] == oo);
        } else {
            assert(post.orders@[kk.orderid] == pre.orders@[kk.orderid]);
        }
    }
    assert forall|side: OrderSide, n: int, m: int|
        #![trigger post.keys_of(side)[n], post.keys_of(side)[m]]
        0 <= n < m < post.keys_of(side).len() implies post.keys_of(side)[n].orderid != post.keys_of(
        side,
    )[m].orderid by {
        assert(pre.keys_of(side)[n].orderid != pre.keys_of(side)[m].orderid);
    }
    assert forall|id: OrderId| #[trigger] post.orders@.contains_key(id) implies {
        let po = post.orders@[id];
        &&& po.orderid == id
        &&& po.trading_pair == post.trading_pair
        &&& po.order_type != OrderType::Market
        &&& post.keys_of(po.side).contains(po.key())
    } by {
        assert(pre.orders@.contains_key(id));
        if id == orderid {
            assert(post.orders@[id] == oo);
            assert(pre.keys_of(o.side).contains(o.key()));
        } else {
            assert(post.orders@[id] == pre.orders@[id]);
            assert(pre.keys_of(pre.orders@[id].side).contains(pre.orders@[id].key()));
        }
    }
    assert(post.book_wf());

    assert forall|side: OrderSide| #[trigger]
        post.side_seq(side) == orders_with_qty(pre.side_seq(side), orderid, qty) by {
        assert forall|n: int|
            0 <= n < post.side_seq(side).len() implies #[trigger] post.side_seq(side)[n]
            == orders_with_qty(pre.side_seq(side), orderid, qty)[n] by {
            let kk = pre.keys_of(side)[n];
            assert(pre.orders@.contains_key(kk.orderid));
            assert(pre.side_seq(side)[n] == pre.orders@[kk.orderid]);
            assert(pre.orders@[kk.orderid].orderid == kk.orderid);
            if kk.orderid == orderid {
                assert(post.orders@[kk.orderid] == oo);
            } else {
                assert(post.orders@[kk.orderid] == pre.orders@[kk.orderid]);
            }
        }
        assert(post.side_seq(side) =~= orders_with_qty(pre.side_seq(side), orderid, qty));
    }
}

/// Popping the top of one side is canceling the order resting at key
/// position zero of that side.
proof fn lemma_book_after_pop(pre: LimitOrderBook, post: LimitOrderBook, side: OrderSide)
    requires
        pre.book_wf(),
        pre.keys_of(side).len() > 0,
        post.trading_pair == pre.trading_pair,
        post.orders@ == pre.orders@.remove(pre.keys_of(side)[0].orderid),
        post.keys_of(side) == pre.keys_of(side).drop_first(),
        post.keys_of(opposite(side)) == pre.keys_of(opposite(side)),
        post.bids.wf(),
        post.asks.wf(),
    ensures
        post.book_wf(),
        post.side_seq(side) == pre.side_seq(side).drop_first(),
        post.side_seq(opposite(side)) == pre.side_seq(opposite(side)),
        pre.side_seq(side)[0] == pre.orders@[pre.keys_of(side)[0].orderid],
{
    let k0 = pre.keys_of(side)[0];
    let order = pre.orders@[k0.orderid];
    assert(pre.orders@.contains_key(k0.orderid));
    assert(order.key() == k0);
    assert(order.side == side);
    assert(order.orderid == k0.orderid);
    assert(pre.keys_of(side).drop_first() =~= pre.keys_of(side).remove(0));
    lemma_book_after_cancel(pre, post, order, 0);
    assert(pre.side_seq(side).remove(0) =~= pre.side_seq(side).drop_first());
}

} // verus!
