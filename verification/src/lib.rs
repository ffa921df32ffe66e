//! A small in-process order matching engine for a multi-market spot
//! exchange.
//!
//! Each trading pair is served by a limit order book with price-time
//! priority: two priority queues of order keys (bids and asks) plus an
//! index from order id to the resting order. A matcher crosses incoming
//! orders against the opposite side of the book and emits trade records;
//! a router validates requests and routes them to the right book; the
//! engine facade builds the books from a configuration and dispatches
//! requests.

pub mod matcher;
pub mod model;
pub mod orderbook;
pub mod pqueue;
pub mod router;
pub mod types;
pub mod utils;

use vstd::prelude::*;

verus! {

use crate::model::{Order, TradingPair};
use crate::orderbook::{LimitOrderBook, OrderBook};
use crate::router::{handle_post, has_book, Request, Router};
use crate::types::{Failure, OrderId};

/// Configuration for the engine: the universe of markets to host.
pub struct EngineConfig {
    pub books: Vec<TradingPair>,
}

impl EngineConfig {
    pub fn build(books: Vec<TradingPair>) -> (c: Self)
        ensures
            c.books@ == books@,
    {
        Self { books }
    }
}

/// The driver for the order matching engine: one empty book per
/// configured trading pair, all requests dispatched through the
/// router.
pub struct Engine {
    router: Router<LimitOrderBook>,
}

impl Engine {
    /// The registered books, as (pair, book) entries.
    pub closed spec fn books(&self) -> Seq<(TradingPair, LimitOrderBook)> {
        self.router.books_seq()
    }

    pub closed spec fn wf(&self) -> bool {
        self.router.wf()
    }

    /// Builds one empty book for each configured trading pair; a pair
    /// listed twice gets a single book.
    pub fn new(config: EngineConfig) -> (e: Self)
        ensures
            e.wf(),
            forall|j: int|
                0 <= j < config.books@.len() ==> has_book(
                    e.books(),
                    #[trigger] config.books@[j],
                ),
            forall|k: int|
                0 <= k < e.books().len() ==> {
                    &&& config.books@.contains((#[trigger] e.books()[k]).0)
                    &&& e.books()[k].1.state().pair == e.books()[k].0
                    &&& e.books()[k].1.state().index == Map::<OrderId, Order>::empty()
                    &&& e.books()[k].1.state().bids == Seq::<Order>::empty()
                    &&& e.books()[k].1.state().asks == Seq::<Order>::empty()
                },
            forall|k: int, l: int|
                #![trigger e.books()[k].0, e.books()[l].0]
                0 <= k < l < e.books().len() ==> e.books()[k].0 != e.books()[l].0,
    {
        let trading_pairs = config.books;
        let mut books: Vec<(TradingPair, LimitOrderBook)> = Vec::with_capacity(
            trading_pairs.len(),
        );
        let mut i: usize = 0;
        while i < trading_pairs.len()
            invariant
                i <= trading_pairs@.len(),
                forall|k: int|
                    0 <= k < books@.len() ==> {
                        &&& (#[trigger] books@[k]).1.wf()
                        &&& books@[k].1.state().pair == books@[k].0
                        &&& trading_pairs@.contains(books@[k].0)
                        &&& books@[k].1.state().index == Map::<OrderId, Order>::empty()
                        &&& books@[k].1.state().bids == Seq::<Order>::empty()
                        &&& books@[k].1.state().asks == Seq::<Order>::empty()
                    },
                forall|k: int, l: int|
                    #![trigger books@[k].0, books@[l].0]
                    0 <= k < l < books@.len() ==> books@[k].0 != books@[l].0,
                forall|j: int| 0 <= j < i ==> has_book(books@, #[trigger] trading_pairs@[j]),
            decreases trading_pairs@.len() - i,
        {
            let tp = trading_pairs[i];
            let mut found = false;
            let mut k: usize = 0;
            while k < books.len()
                invariant
                    k <= books@.len(),
                    found <==> (exists|l: int| 0 <= l < k && (#[trigger] books@[l]).0 == tp),
                decreases books@.len() - k,
            {
                if books[k].0 == tp {
                    found = true;
                }
                k += 1;
            }
            if !found {
                let ghost old_books = books@;
                books.push((tp, LimitOrderBook::init(tp)));
                proof {
                    assert(trading_pairs@[i as int] == tp);
                    assert(trading_pairs@.contains(tp));
                    assert forall|j: int|
                        0 <= j < i + 1 implies has_book(
                        books@,
                        #[trigger] trading_pairs@[j],
                    ) by {
                        if j < i {
                            let w = choose|w: int|
                                0 <= w < old_books.len() && old_books[w].0 == trading_pairs@[j];
                            assert(books@[w].0 == trading_pairs@[j]);
                        } else {
                            assert(books@[old_books.len() as int].0 == tp);
                        }
                    }
                }
            } else {
                proof {
                    assert forall|j: int|
                        0 <= j < i + 1 implies has_book(
                        books@,
                        #[trigger] trading_pairs@[j],
                    ) by {}
                }
            }
            i += 1;
        }
        Self { router: Router::with_books(books) }
    }

    /// Dispatches one request through the router: its outcome, book
    /// mutations and result are exactly the router's.
    pub fn dispatch(&mut self, request: Request) -> (r: Result<(), Failure>)
        requires
            old(self).wf(),
        ensures
            final(self).wf(),
            handle_post(old(self).books(), final(self).books(), request, r),
    {
        self.router.handle(request)
    }
}

} // verus!
