//! The router: the front door for requests. It validates a request,
//! resolves the trading pair to its book, and either hands an order to
//! the matcher or forwards a cancel to the book.
//!
//! The router owns the map from trading pair to book. `handle` takes
//! the router exclusively (`&mut self`), so the borrow rules serialise
//! all access to the books: while a match is in progress no other
//! request can touch any book, and acquisition never fails.

use vstd::prelude::*;

verus! {

use vstd::string::StringExecFns;

use crate::matcher::{match_book_effect, Matcher};
use crate::model::{Order, TradingPair};
use crate::orderbook::{cancel_effect, OrderBook};
use crate::types::{Failure, Long, OrderId, OrderSide, OrderType, Price};
use crate::utils::Util;

/// A request to the engine: place a new order or cancel a resting one.
#[derive(Debug, Clone)]
pub enum Request {
    PlaceOrder(PlaceOrder),
    Cancel(CancelOrder),
}

impl Request {
    /// Validates the request before any book is touched.
    fn validate(&self) -> (r: Option<Failure>)
        ensures
            ({
                match self {
                    Request::PlaceOrder(p) => match r {
                        None => p.quantity > 0 && p.order_type != OrderType::Stop
                            && p.trading_pair.order_asset != p.trading_pair.price_asset,
                        Some(f) => (if p.quantity == 0 {
                            f matches Failure::OrderRejected(_)
                        } else if p.order_type == OrderType::Stop {
                            f matches Failure::UnsupportedOperation(_)
                        } else {
                            p.trading_pair.order_asset == p.trading_pair.price_asset && (f
                                matches Failure::InvalidTradingPair(_))
                        }),
                    },
                    Request::Cancel(c) => match r {
                        None => c.trading_pair.order_asset != c.trading_pair.price_asset,
                        Some(f) => c.trading_pair.order_asset == c.trading_pair.price_asset && (f
                            matches Failure::InvalidTradingPair(_)),
                    },
                }
            }),
    {
        match self {
            Request::PlaceOrder(p) => p.validate(),
            Request::Cancel(c) => c.trading_pair.validate(),
        }
    }
}

/// A request to place an order: everything an order carries except its
/// id and timestamp, which the router mints.
#[derive(Debug, Clone)]
pub struct PlaceOrder {
    pub price: Price,
    pub quantity: Long,
    pub side: OrderSide,
    pub order_type: OrderType,
    pub trading_pair: TradingPair,
}

impl PlaceOrder {
    pub fn from(
        price: Price,
        quantity: Long,
        side: OrderSide,
        order_type: OrderType,
        trading_pair: TradingPair,
    ) -> (p: Self)
        ensures
            p.price == price,
            p.quantity == quantity,
            p.side == side,
            p.order_type == order_type,
            p.trading_pair == trading_pair,
    {
        Self { price, quantity, side, order_type, trading_pair }
    }

    /// Builds the live order: the request's attributes plus a freshly
    /// minted id and the current time. Nothing is promised of the id
    /// or the timestamp; the book and matcher are verified for every
    /// value of them.
    pub fn to_order(&self) -> (o: Order)
        ensures
            o.price == self.price,
            o.quantity == self.quantity,
            o.side == self.side,
            o.order_type == self.order_type,
            o.trading_pair == self.trading_pair,
    {
        Order {
            orderid: Util::fresh_order_id(),
            price: self.price,
            quantity: self.quantity,
            side: self.side,
            order_type: self.order_type,
            trading_pair: self.trading_pair,
            timestamp: Util::current_time_millis(),
        }
    }

    /// A place request must carry a positive quantity, a supported
    /// order kind, and a valid trading pair, in that order of checks.
    pub fn validate(&self) -> (r: Option<Failure>)
        ensures
            match r {
                None => self.quantity > 0 && self.order_type != OrderType::Stop
                    && self.trading_pair.order_asset != self.trading_pair.price_asset,
                Some(f) => (if self.quantity == 0 {
                    f matches Failure::OrderRejected(_)
                } else if self.order_type == OrderType::Stop {
                    f matches Failure::UnsupportedOperation(_)
                } else {
                    self.trading_pair.order_asset == self.trading_pair.price_asset && (f
                        matches Failure::InvalidTradingPair(_))
                }),
            },
    {
        if self.quantity == 0 {
            return Some(
                Failure::OrderRejected(String::from_str("Quantity must be greater than zero")),
            );
        }
        if self.order_type == OrderType::Stop {
            return Some(
                Failure::UnsupportedOperation(String::from_str("Stop orders are not supported")),
            );
        }
        self.trading_pair.validate()
    }
}

/// A request to cancel the order with the given id on the given pair's
/// book.
#[derive(Debug, Clone)]
pub struct CancelOrder {
    pub orderid: OrderId,
    pub trading_pair: TradingPair,
}

impl CancelOrder {
    pub fn from(orderid: OrderId, trading_pair: TradingPair) -> (c: Self)
        ensures
            c.orderid == orderid,
            c.trading_pair == trading_pair,
    {
        Self { orderid, trading_pair }
    }
}

/// Whether some book is registered under `pair`.
pub open spec fn has_book<T>(books: Seq<(TradingPair, T)>, pair: TradingPair) -> bool {
    exists|i: int| 0 <= i < books.len() && books[i].0 == pair
}

/// What `handle` does, as a relation between the books before and
/// after, the request, and the returned result: each validation
/// failure and `BookNotFound` comes exactly on its own condition and
/// leaves every book alone; a valid place mutates exactly its pair's
/// book, as the matcher does for an order minted from the request (the
/// id and timestamp are the minting's); a valid cancel removes exactly
/// the named order, or reports `OrderNotFound` and changes nothing.
pub open spec fn handle_post<T: OrderBook>(
    pre: Seq<(TradingPair, T)>,
    post: Seq<(TradingPair, T)>,
    request: Request,
    r: Result<(), Failure>,
) -> bool {
    match request {
        Request::PlaceOrder(p) => {
            if p.quantity == 0 {
                (r matches Err(Failure::OrderRejected(_))) && post == pre
            } else if p.order_type == OrderType::Stop {
                (r matches Err(Failure::UnsupportedOperation(_))) && post == pre
            } else if p.trading_pair.order_asset == p.trading_pair.price_asset {
                (r matches Err(Failure::InvalidTradingPair(_))) && post == pre
            } else if !has_book(pre, p.trading_pair) {
                r == Err::<(), Failure>(Failure::BookNotFound(p.trading_pair)) && post == pre
            } else {
                &&& r is Ok
                &&& post.len() == pre.len()
                &&& (exists|k: int, order: Order|
                    {
                        &&& 0 <= k < pre.len()
                        &&& pre[k].0 == p.trading_pair
                        &&& order.price == p.price
                        &&& order.quantity == p.quantity
                        &&& order.side == p.side
                        &&& order.order_type == p.order_type
                        &&& order.trading_pair == p.trading_pair
                        &&& #[trigger] match_book_effect(
                            pre[k].1.state(),
                            post[k].1.state(),
                            order,
                        )
                        &&& (forall|j: int| 0 <= j < pre.len() && j != k ==> post[j] == pre[j])
                    })
            }
        },
        Request::Cancel(c) => {
            if c.trading_pair.order_asset == c.trading_pair.price_asset {
                (r matches Err(Failure::InvalidTradingPair(_))) && post == pre
            } else if !has_book(pre, c.trading_pair) {
                r == Err::<(), Failure>(Failure::BookNotFound(c.trading_pair)) && post == pre
            } else {
                &&& post.len() == pre.len()
                &&& (exists|k: int|
                    {
                        &&& 0 <= k < pre.len()
                        &&& (#[trigger] pre[k].0) == c.trading_pair
                        &&& (if pre[k].1.state().index.contains_key(c.orderid) {
                            r is Ok && cancel_effect(
                                pre[k].1.state(),
                                post[k].1.state(),
                                c.orderid,
                            )
                        } else {
                            r == Err::<(), Failure>(Failure::OrderNotFound(c.orderid)) && post[
                                k
                            ].1.state() == pre[k].1.state()
                        })
                        &&& (forall|j: int| 0 <= j < pre.len() && j != k ==> post[j] == pre[j])
                    })
            }
        },
    }
}

/// Routes requests to the book of their trading pair.
#[derive(Debug)]
pub struct Router<T> {
    books: Vec<(TradingPair, T)>,
    matcher: Matcher,
}

impl<T> Router<T> where T: OrderBook {
    /// The registered books, as (pair, book) entries.
    pub closed spec fn books_seq(&self) -> Seq<(TradingPair, T)> {
        self.books@
    }

    /// Every book is well formed and serves the pair it is registered
    /// under, and no pair is registered twice.
    pub closed spec fn wf(&self) -> bool {
        &&& (forall|i: int|
            0 <= i < self.books@.len() ==> (#[trigger] self.books@[i]).1.wf()
                && self.books@[i].1.state().pair == self.books@[i].0)
        &&& (forall|i: int, j: int|
            #![trigger self.books@[i].0, self.books@[j].0]
            0 <= i < j < self.books@.len() ==> self.books@[i].0 != self.books@[j].0)
    }

    pub fn new() -> (r: Self)
        ensures
            r.wf(),
            r.books_seq() == Seq::<(TradingPair, T)>::empty(),
    {
        Self { books: Vec::with_capacity(16), matcher: Matcher }
    }

    pub fn with_books(books: Vec<(TradingPair, T)>) -> (r: Self)
        requires
            forall|i: int|
                0 <= i < books@.len() ==> (#[trigger] books@[i]).1.wf() && books@[i].1.state().pair
                    == books@[i].0,
            forall|i: int, j: int|
                #![trigger books@[i].0, books@[j].0]
                0 <= i < j < books@.len() ==> books@[i].0 != books@[j].0,
        ensures
            r.wf(),
            r.books_seq() == books@,
    {
        Self { books, matcher: Matcher }
    }

    /// The position of the book registered under `pair`, if any.
    fn book_index(&self, pair: &TradingPair) -> (r: Option<usize>)
        ensures
            match r {
                Some(i) => i < self.books_seq().len() && self.books_seq()[i as int].0 == *pair,
                None => !has_book(self.books_seq(), *pair),
            },
    {
        let mut i: usize = 0;
        while i < self.books.len()
            invariant
                i <= self.books@.len(),
                forall|j: int| 0 <= j < i ==> (#[trigger] self.books@[j]).0 != *pair,
            decreases self.books@.len() - i,
        {
            if self.books[i].0 == *pair {
                return Some(i);
            }
            i += 1;
        }
        None
    }

    /// Handles one request: validate, resolve the book, then match or
    /// cancel. All failures abort before any book is touched.
    pub fn handle(&mut self, request: Request) -> (r: Result<(), Failure>)
        requires
            old(self).wf(),
        ensures
            final(self).wf(),
            handle_post(old(self).books_seq(), final(self).books_seq(), request, r),
    {
        match request.validate() {
            Some(failure) => Err(failure),
            None => match request {
                Request::PlaceOrder(p) => {
                    let order = p.to_order();
                    match self.book_index(&order.trading_pair) {
                        Some(i) => {
                            let ghost pre_books = self.books@;
                            let entry = vstd::std_specs::vec::vec_index_mut(&mut self.books, i);
                            let matches = self.matcher.match_order(order, &mut entry.1);
                            proof {
                                let post_books = self.books@;
                                assert(post_books[i as int].0 == p.trading_pair);
                                assert(match_book_effect(
                                    pre_books[i as int].1.state(),
                                    post_books[i as int].1.state(),
                                    order,
                                ));
                                assert forall|j: int|
                                    0 <= j < pre_books.len() && j != i implies post_books[j]
                                    == pre_books[j] by {}
                                assert(exists|k: int, o: Order|
                                    {
                                        &&& 0 <= k < pre_books.len()
                                        &&& pre_books[k].0 == p.trading_pair
                                        &&& o.price == p.price
                                        &&& o.quantity == p.quantity
                                        &&& o.side == p.side
                                        &&& o.order_type == p.order_type
                                        &&& o.trading_pair == p.trading_pair
                                        &&& #[trigger] match_book_effect(
                                            pre_books[k].1.state(),
                                            post_books[k].1.state(),
                                            o,
                                        )
                                        &&& (forall|j: int|
                                            0 <= j < pre_books.len() && j != k ==> post_books[j]
                                                == pre_books[j])
                                    });
                            }
                            Ok(())
                        },
                        None => Err(Failure::BookNotFound(p.trading_pair)),
                    }
                },
                Request::Cancel(cancel) => {
                    match self.book_index(&cancel.trading_pair) {
                        Some(i) => {
                            let ghost pre_books = self.books@;
                            let entry = vstd::std_specs::vec::vec_index_mut(&mut self.books, i);
                            let res = entry.1.cancel(cancel.orderid);
                            proof {
                                let post_books = self.books@;
                                assert(post_books[i as int].0 == cancel.trading_pair);
                                assert forall|j: int|
                                    0 <= j < pre_books.len() && j != i implies post_books[j]
                                    == pre_books[j] by {}
                                assert(exists|k: int|
                                    {
                                        &&& 0 <= k < pre_books.len()
                                        &&& (#[trigger] pre_books[k].0) == cancel.trading_pair
                                        &&& (if pre_books[k].1.state().index.contains_key(
                                            cancel.orderid,
                                        ) {
                                            res is Ok && cancel_effect(
                                                pre_books[k].1.state(),
                                                post_books[k].1.state(),
                                                cancel.orderid,
                                            )
                                        } else {
                                            res == Err::<crate::model::Event, Failure>(
                                                Failure::OrderNotFound(cancel.orderid),
                                            ) && post_books[k].1.state() == pre_books[
                                                k
                                            ].1.state()
                                        })
                                        &&& (forall|j: int|
                                            0 <= j < pre_books.len() && j != k ==> post_books[j]
                                                == pre_books[j])
                                    });
                            }
                            match res {
                                Ok(_) => Ok(()),
                                Err(f) => Err(f),
                            }
                        },
                        None => Err(Failure::BookNotFound(cancel.trading_pair)),
                    }
                },
            },
        }
    }
}

} // verus!
