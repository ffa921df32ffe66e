//! The matcher: crosses an incoming order against the opposite side of
//! a book, emitting trade records and driving the book's mutations.
//!
//! The crossing walks the opposite side in priority order. At each
//! level it compares quantities: a larger resting order is reduced in
//! place and the incoming order is filled; a smaller resting order is
//! popped, the incoming order keeps crossing with its residual; equal
//! quantities fill both. Every trade executes at the resting order's
//! price, and each level touched yields one trade per counterparty.
//!
//! The meaning of a crossing is fixed by the `cross_*` specification
//! functions over the sequence of opposite-side orders; the executable
//! matcher is proved to produce exactly those trades, states and book
//! mutations.

use vstd::prelude::*;

verus! {

use crate::model::Order;
use crate::orderbook::{orders_with_qty, place_effect, with_qty, BookState, OrderBook};
use crate::types::{opposite, Long, OrderId, OrderSide, OrderStatus, OrderType, Price, Trade};

/// The trade record one counterparty of a crossing receives: always at
/// the resting order's price, with a zero timestamp.
pub open spec fn trade_of(o: Order, status: OrderStatus, qty: Long, price: Price) -> Trade {
    Trade {
        orderid: o.orderid,
        side: o.side,
        price: price,
        status: status,
        quantity: qty,
        timestamp: 0,
    }
}

/// The trades emitted by crossing `inc` against the opposite-side
/// orders `opps` (best first): two per level touched, at the resting
/// order's price.
pub open spec fn cross_trades(inc: Order, opps: Seq<Order>) -> Seq<Trade>
    decreases opps.len(),
{
    if opps.len() == 0 {
        Seq::<Trade>::empty()
    } else {
        let opp = opps[0];
        if inc.quantity < opp.quantity {
            seq![
                trade_of(inc, OrderStatus::Filled, inc.quantity, opp.price),
                trade_of(opp, OrderStatus::PartialFill, inc.quantity, opp.price),
            ]
        } else if inc.quantity > opp.quantity {
            seq![
                trade_of(inc, OrderStatus::PartialFill, opp.quantity, opp.price),
                trade_of(opp, OrderStatus::Filled, opp.quantity, opp.price),
            ] + cross_trades(
                with_qty(inc, (inc.quantity - opp.quantity) as u64),
                opps.drop_first(),
            )
        } else {
            seq![
                trade_of(inc, OrderStatus::Filled, inc.quantity, opp.price),
                trade_of(opp, OrderStatus::Filled, opp.quantity, opp.price),
            ]
        }
    }
}

/// The quantity of `inc` still unfilled after the crossing.
pub open spec fn cross_qty_left(inc: Order, opps: Seq<Order>) -> Long
    decreases opps.len(),
{
    if opps.len() == 0 {
        inc.quantity
    } else if inc.quantity > opps[0].quantity {
        cross_qty_left(with_qty(inc, (inc.quantity - opps[0].quantity) as u64), opps.drop_first())
    } else {
        0
    }
}

/// The terminal state of the crossing: `Full` when the incoming order
/// is exhausted, `Partial` when the opposite side runs out first.
pub open spec fn cross_state(inc: Order, opps: Seq<Order>) -> MatchState
    decreases opps.len(),
{
    if opps.len() == 0 {
        MatchState::Partial
    } else if inc.quantity > opps[0].quantity {
        cross_state(with_qty(inc, (inc.quantity - opps[0].quantity) as u64), opps.drop_first())
    } else {
        MatchState::Full
    }
}

/// How many opposite orders the crossing consumes whole (pops).
pub open spec fn cross_consumed(inc: Order, opps: Seq<Order>) -> nat
    decreases opps.len(),
{
    if opps.len() == 0 {
        0
    } else if inc.quantity > opps[0].quantity {
        1 + cross_consumed(
            with_qty(inc, (inc.quantity - opps[0].quantity) as u64),
            opps.drop_first(),
        )
    } else if inc.quantity == opps[0].quantity {
        1
    } else {
        0
    }
}

/// Whether the crossing ends by partially consuming one more opposite
/// order (reduced in place, not popped): one or zero such levels.
pub open spec fn cross_touched(inc: Order, opps: Seq<Order>) -> nat
    decreases opps.len(),
{
    if opps.len() == 0 {
        0
    } else if inc.quantity < opps[0].quantity {
        1
    } else if inc.quantity > opps[0].quantity {
        cross_touched(with_qty(inc, (inc.quantity - opps[0].quantity) as u64), opps.drop_first())
    } else {
        0
    }
}

/// The opposite side after the crossing: the consumed prefix is gone
/// and a final partially-filled order keeps its place with a reduced
/// quantity.
pub open spec fn cross_remaining(inc: Order, opps: Seq<Order>) -> Seq<Order>
    decreases opps.len(),
{
    if opps.len() == 0 {
        opps
    } else if inc.quantity < opps[0].quantity {
        opps.update(0, with_qty(opps[0], (opps[0].quantity - inc.quantity) as u64))
    } else if inc.quantity > opps[0].quantity {
        cross_remaining(with_qty(inc, (inc.quantity - opps[0].quantity) as u64), opps.drop_first())
    } else {
        opps.drop_first()
    }
}

/// The total quantity the trades `ts` credit to the order named `id`.
pub open spec fn credited_qty(id: OrderId, ts: Seq<Trade>) -> int
    decreases ts.len(),
{
    if ts.len() == 0 {
        0
    } else {
        (if ts[0].orderid == id {
            ts[0].quantity as int
        } else {
            0
        }) + credited_qty(id, ts.drop_first())
    }
}

/// The incoming order's price meets or beats the resting price: a bid
/// must pay at least the ask, an ask must accept at most the bid.
pub open spec fn within_price_limit(order: Order, opp_order: Order) -> bool {
    match order.side {
        OrderSide::Bid => order.price.atoms >= opp_order.price.atoms,
        OrderSide::Ask => order.price.atoms <= opp_order.price.atoms,
    }
}

/// Whether matching `order` against a book in state `pre` crosses at
/// all: the opposite side must be non-empty, and a limit order must
/// meet the price limit against its top.
pub open spec fn crossing_applies(order: Order, pre: BookState) -> bool {
    let opps = pre.side(opposite(order.side));
    &&& opps.len() > 0
    &&& (order.order_type == OrderType::Limit ==> within_price_limit(order, opps[0]))
}

/// How one matching run for `order` turns the book state `pre` into
/// `post`. Without a crossing, a market order leaves the book alone
/// and a limit order is placed whole (unless its id already rests
/// here, which fails and leaves the book alone). With a crossing, the
/// opposite side is consumed per `cross_remaining` and the index gains
/// no id but — for a limit order — the incoming order's own; a market
/// residual is discarded, while a limit residual is placed on the
/// order's own side with the unfilled quantity.
pub open spec fn match_book_effect(pre: BookState, post: BookState, order: Order) -> bool {
    let opps = pre.side(opposite(order.side));
    &&& post.pair == pre.pair
    &&& (if crossing_applies(order, pre) {
        &&& post.side(opposite(order.side)) == cross_remaining(order, opps)
        &&& (forall|id: OrderId| #[trigger]
            post.index.contains_key(id) ==> pre.index.contains_key(id) || (order.order_type
                == OrderType::Limit && id == order.orderid))
        &&& (order.order_type == OrderType::Market ==> post.side(order.side) == pre.side(
            order.side,
        ))
        &&& (order.order_type == OrderType::Limit ==> {
            &&& (cross_state(order, opps) == MatchState::Full ==> post.side(order.side)
                == pre.side(order.side))
            &&& (cross_state(order, opps) == MatchState::Partial && !pre.index.contains_key(
                order.orderid,
            ) ==> {
                let rest = with_qty(order, cross_qty_left(order, opps));
                &&& post.index.contains_key(order.orderid)
                &&& post.index[order.orderid] == rest
                &&& (exists|i: int|
                    0 <= i <= pre.side(order.side).len() && post.side(order.side)
                        == #[trigger] pre.side(order.side).insert(i, rest))
            })
            &&& (cross_state(order, opps) == MatchState::Partial && pre.index.contains_key(
                order.orderid,
            ) ==> {
                let rest = with_qty(order, cross_qty_left(order, opps));
                ||| post.side(order.side) == pre.side(order.side)
                ||| (exists|i: int|
                    0 <= i <= pre.side(order.side).len() && post.side(order.side)
                        == #[trigger] pre.side(order.side).insert(i, rest))
            })
        })
    } else {
        if order.order_type == OrderType::Market {
            post == pre
        } else {
            if !pre.index.contains_key(order.orderid) {
                place_effect(pre, post, order)
            } else {
                post == pre
            }
        }
    })
}

/// Trade-count law: a crossing emits exactly two trade records for
/// each opposite-side order it consumed or partially consumed — one
/// per counterparty and per level touched.
pub proof fn lemma_cross_trade_count(inc: Order, opps: Seq<Order>)
    ensures
        cross_trades(inc, opps).len() == 2 * (cross_consumed(inc, opps) + cross_touched(
            inc,
            opps,
        )),
    decreases opps.len(),
{
    if opps.len() == 0 {
    } else if inc.quantity > opps[0].quantity {
        lemma_cross_trade_count(
            with_qty(inc, (inc.quantity - opps[0].quantity) as u64),
            opps.drop_first(),
        );
    }
}

/// Splitting a trade list splits the quantity credited to an order.
proof fn lemma_credited_append(id: OrderId, a: Seq<Trade>, b: Seq<Trade>)
    ensures
        credited_qty(id, a + b) == credited_qty(id, a) + credited_qty(id, b),
    decreases a.len(),
{
    if a.len() == 0 {
        assert(a + b =~= b);
    } else {
        assert((a + b).drop_first() =~= a.drop_first() + b);
        assert((a + b)[0] == a[0]);
        lemma_credited_append(id, a.drop_first(), b);
    }
}

/// What a two-trade list credits to an order: each trade's quantity
/// when it names the order, nothing otherwise.
proof fn lemma_credited_pair(id: OrderId, t0: Trade, t1: Trade)
    ensures
        credited_qty(id, seq![t0, t1]) == (if t0.orderid == id {
            t0.quantity as int
        } else {
            0
        }) + (if t1.orderid == id {
            t1.quantity as int
        } else {
            0
        }),
{
    reveal_with_fuel(credited_qty, 4);
    let s = seq![t0, t1];
    assert(s.drop_first() =~= seq![t1]);
    assert(seq![t1].drop_first() =~= Seq::<Trade>::empty());
}

/// Quantity-conservation law: over a crossing whose opposite side does
/// not share the incoming order's id, the quantity credited to the
/// incoming order is its original quantity less what is left unfilled
/// — never more than the original, and equal to it exactly when the
/// crossing ends `Full`.
pub proof fn lemma_quantity_conservation(inc: Order, opps: Seq<Order>)
    requires
        inc.quantity > 0,
        forall|i: int| 0 <= i < opps.len() ==> (#[trigger] opps[i]).orderid != inc.orderid,
    ensures
        credited_qty(inc.orderid, cross_trades(inc, opps)) == inc.quantity - cross_qty_left(
            inc,
            opps,
        ),
        cross_qty_left(inc, opps) <= inc.quantity,
        (credited_qty(inc.orderid, cross_trades(inc, opps)) == inc.quantity) <==> (cross_state(
            inc,
            opps,
        ) == MatchState::Full),
    decreases opps.len(),
{
    let ts = cross_trades(inc, opps);
    if opps.len() == 0 {
    } else {
        let opp = opps[0];
        if inc.quantity > opp.quantity {
            let inc2 = with_qty(inc, (inc.quantity - opp.quantity) as u64);
            let rest = opps.drop_first();
            let head = seq![
                trade_of(inc, OrderStatus::PartialFill, opp.quantity, opp.price),
                trade_of(opp, OrderStatus::Filled, opp.quantity, opp.price),
            ];
            assert forall|i: int|
                0 <= i < rest.len() implies (#[trigger] rest[i]).orderid != inc2.orderid by {
                assert(rest[i] == opps[i + 1]);
            }
            lemma_quantity_conservation(inc2, rest);
            lemma_credited_append(inc.orderid, head, cross_trades(inc2, rest));
            assert(ts == head + cross_trades(inc2, rest));
            assert(opps[0].orderid != inc.orderid);
            lemma_credited_pair(inc.orderid, head[0], head[1]);
            assert(head =~= seq![head[0], head[1]]);
            assert(credited_qty(inc.orderid, head) == opp.quantity);
            assert(cross_state(inc, opps) == cross_state(inc2, rest));
            assert(cross_qty_left(inc, opps) == cross_qty_left(inc2, rest));
        } else {
            assert(ts.len() == 2);
            assert(ts[0].orderid == inc.orderid && ts[0].quantity == inc.quantity);
            assert(opps[0].orderid != inc.orderid);
            lemma_credited_pair(inc.orderid, ts[0], ts[1]);
            assert(ts =~= seq![ts[0], ts[1]]);
            assert(credited_qty(inc.orderid, ts) == inc.quantity);
        }
    }
}

/// Exact-quantity law: when the incoming order's quantity equals the
/// top opposite order's, both fill whole in a single level — two
/// `Filled` trades at the resting price, the opposite order popped, no
/// residual.
pub proof fn lemma_exact_quantities(inc: Order, opps: Seq<Order>)
    requires
        opps.len() > 0,
        inc.quantity == opps[0].quantity,
    ensures
        cross_state(inc, opps) == MatchState::Full,
        cross_qty_left(inc, opps) == 0,
        cross_consumed(inc, opps) == 1,
        cross_touched(inc, opps) == 0,
        cross_remaining(inc, opps) == opps.drop_first(),
        cross_trades(inc, opps) == seq![
            trade_of(inc, OrderStatus::Filled, inc.quantity, opps[0].price),
            trade_of(opps[0], OrderStatus::Filled, opps[0].quantity, opps[0].price),
        ],
{
}

/// Market-residual law: a market order never rests. Whatever a
/// matching run did to the book, the order's own side is untouched,
/// and when its id was not already resting beforehand it is absent
/// from the index afterwards too.
pub proof fn lemma_market_never_rests(pre: BookState, post: BookState, order: Order)
    requires
        order.order_type == OrderType::Market,
        !pre.index.contains_key(order.orderid),
        match_book_effect(pre, post, order),
    ensures
        post.side(order.side) == pre.side(order.side),
        !post.index.contains_key(order.orderid),
{
}

/// Whole-rest law: a limit order that cannot cross — the opposite side
/// is empty or fails its price limit — and whose id is not already
/// resting is placed whole: no trades are possible, the order joins
/// the index unchanged and the queue of its own side, and the other
/// side is untouched.
pub proof fn lemma_limit_rests_whole(pre: BookState, post: BookState, order: Order)
    requires
        order.order_type == OrderType::Limit,
        !crossing_applies(order, pre),
        !pre.index.contains_key(order.orderid),
        match_book_effect(pre, post, order),
    ensures
        post.index.contains_key(order.orderid),
        post.index[order.orderid] == order,
        (exists|i: int|
            0 <= i <= pre.side(order.side).len() && post.side(order.side) == #[trigger] pre.side(
                order.side,
            ).insert(i, order)),
        post.side(opposite(order.side)) == pre.side(opposite(order.side)),
{
}

/// Residual-rest law: after a limit crossing that ends `Partial`, an
/// order whose id was not already resting is findable in the index,
/// carrying exactly its unfilled quantity — the original quantity less
/// what the trades credited to it. The hypothesis that no opposite
/// order shares the incoming id is what a well-formed book gives for a
/// fresh id (every resting id is in the index).
pub proof fn lemma_residual_rested(pre: BookState, post: BookState, order: Order)
    requires
        order.order_type == OrderType::Limit,
        order.quantity > 0,
        crossing_applies(order, pre),
        cross_state(order, pre.side(opposite(order.side))) == MatchState::Partial,
        !pre.index.contains_key(order.orderid),
        forall|i: int|
            0 <= i < pre.side(opposite(order.side)).len() ==> (#[trigger] pre.side(
                opposite(order.side),
            )[i]).orderid != order.orderid,
        match_book_effect(pre, post, order),
    ensures
        post.index.contains_key(order.orderid),
        post.index[order.orderid] == with_qty(
            order,
            cross_qty_left(order, pre.side(opposite(order.side))),
        ),
        post.index[order.orderid].quantity == order.quantity - credited_qty(
            order.orderid,
            cross_trades(order, pre.side(opposite(order.side))),
        ),
{
    lemma_quantity_conservation(order, pre.side(opposite(order.side)));
}

/// The outcome of one matching run: the executed trades, the terminal
/// state, and the quantity left unfilled.
#[derive(Debug)]
pub struct Match<T> {
    matches: Vec<T>,
    state: MatchState,
    qty_left: Long,
}

/// The terminal state of a matching run.
#[derive(Eq, PartialEq, Structural, Copy, Clone, Debug)]
pub enum MatchState {
    Full,
    Partial,
    NoMatch,
}

impl<T> Match<T> where T: Copy {
    /// The trades recorded so far, in execution order.
    pub closed spec fn trades(&self) -> Seq<T> {
        self.matches@
    }

    /// The current terminal state.
    pub closed spec fn state_of(&self) -> MatchState {
        self.state
    }

    /// The quantity still unfilled.
    pub closed spec fn qty_left_of(&self) -> Long {
        self.qty_left
    }

    pub fn new() -> (m: Self)
        ensures
            m.trades() == Seq::<T>::empty(),
            m.state_of() == MatchState::NoMatch,
            m.qty_left_of() == 0,
    {
        Self { matches: Vec::with_capacity(4), state: MatchState::NoMatch, qty_left: 0 }
    }

    pub fn add_match(&mut self, trade: T)
        ensures
            final(self).trades() == old(self).trades().push(trade),
            final(self).state_of() == old(self).state_of(),
            final(self).qty_left_of() == old(self).qty_left_of(),
    {
        self.matches.push(trade)
    }

    pub fn get_matches(&self) -> (v: Vec<T>)
        ensures
            v@ == self.trades(),
    {
        let mut v: Vec<T> = Vec::with_capacity(self.matches.len());
        let mut i: usize = 0;
        while i < self.matches.len()
            invariant
                i <= self.matches@.len(),
                v@ == self.matches@.subrange(0, i as int),
            decreases self.matches@.len() - i,
        {
            v.push(self.matches[i]);
            proof {
                assert(v@ =~= self.matches@.subrange(0, i + 1 as int));
            }
            i += 1;
        }
        proof {
            assert(v@ =~= self.matches@);
        }
        v
    }

    /// Moves to the given state; `Full` and `NoMatch` are exhaustive,
    /// so they reset the quantity left.
    pub fn update_state(&mut self, state: MatchState)
        ensures
            final(self).trades() == old(self).trades(),
            final(self).state_of() == state,
            final(self).qty_left_of() == (if state == MatchState::Partial {
                old(self).qty_left_of()
            } else {
                0
            }),
    {
        match state {
            MatchState::Full | MatchState::NoMatch => self.update_qty_left(0),
            MatchState::Partial => (),
        }
        self.state = state
    }

    pub fn get_state(&self) -> (s: MatchState)
        ensures
            s == self.state_of(),
    {
        self.state
    }

    pub fn update_qty_left(&mut self, qty: Long)
        ensures
            final(self).trades() == old(self).trades(),
            final(self).state_of() == old(self).state_of(),
            final(self).qty_left_of() == qty,
    {
        self.qty_left = qty
    }

    pub fn get_qty_left(&self) -> (q: Long)
        ensures
            q == self.qty_left_of(),
    {
        self.qty_left
    }

    pub fn is_partial(&self) -> (r: bool)
        ensures
            r == (self.state_of() == MatchState::Partial),
    {
        self.state == MatchState::Partial
    }
}

/// Takes an order and its book and finds the matching trades, mutating
/// the book through its interface as resting liquidity is consumed.
#[derive(Debug)]
pub struct Matcher;

impl Matcher {
    /// Matches `order` against `orderbook`.
    ///
    /// A market order crosses immediately against whatever liquidity
    /// exists; an unfilled residual is discarded, never rested. A limit
    /// order crosses only when the top of the opposite side meets its
    /// price limit; otherwise, or for whatever residual survives the
    /// crossing, it is placed on the book. `Stop` orders are not
    /// supported and must be rejected upstream.
    pub fn match_order<T: OrderBook>(&self, order: Order, orderbook: &mut T) -> (matches: Match<
        Trade,
    >)
        requires
            old(orderbook).wf(),
            order.order_type != OrderType::Stop,
            order.quantity > 0,
            order.trading_pair == old(orderbook).state().pair,
        ensures
            final(orderbook).wf(),
            match_book_effect(old(orderbook).state(), final(orderbook).state(), order),
            ({
                let pre = old(orderbook).state();
                let opps = pre.side(opposite(order.side));
                if crossing_applies(order, pre) {
                    &&& matches.trades() == cross_trades(order, opps)
                    &&& matches.state_of() == cross_state(order, opps)
                    &&& matches.qty_left_of() == cross_qty_left(order, opps)
                } else {
                    &&& matches.trades() == Seq::<Trade>::empty()
                    &&& matches.state_of() == MatchState::NoMatch
                    &&& matches.qty_left_of() == 0
                }
            }),
    {
        let mut matches = Match::new();
        match order.order_type {
            // A market order is matched immediately at the best
            // available price; whatever cannot be filled is discarded.
            OrderType::Market => {
                let opp_order: Option<Order> = match Self::get_opposite_order(
                    order.side,
                    orderbook,
                ) {
                    Some(o) => Some(*o),
                    None => None,
                };
                if let Some(opp) = opp_order {
                    Self::do_match(order, opp, orderbook, &mut matches);
                }
                matches
            },
            // A limit order is matched immediately where its price
            // limit allows, and any residual is rested on the book.
            OrderType::Limit => {
                let opp_order: Option<Order> = match Self::get_opposite_order(
                    order.side,
                    orderbook,
                ) {
                    Some(o) => Some(*o),
                    None => None,
                };
                if let Some(opp) = opp_order {
                    if Self::is_within_price_limit(order, opp) {
                        Self::do_match(order, opp, orderbook, &mut matches);
                        if matches.is_partial() {
                            let ghost mid = orderbook.state();
                            let mut left_over = order;
                            left_over.quantity = matches.get_qty_left();
                            let placed = orderbook.place(left_over);
                            proof {
                                let pre = old(orderbook).state();
                                assert(left_over == with_qty(order, matches.qty_left_of()));
                                if placed is Ok {
                                    let i = choose|i: int|
                                        0 <= i <= mid.side(order.side).len() && orderbook.state()
                                            .side(order.side) == mid.side(order.side).insert(
                                            i,
                                            left_over,
                                        );
                                    assert(mid.side(order.side) == pre.side(order.side));
                                    assert(orderbook.state().side(order.side) == pre.side(
                                        order.side,
                                    ).insert(i, left_over));
                                    assert(exists|x: int|
                                        0 <= x <= pre.side(order.side).len() && orderbook.state()
                                            .side(order.side) == #[trigger] pre.side(
                                            order.side,
                                        ).insert(x, left_over));
                                } else {
                                    assert(mid.index.contains_key(order.orderid));
                                    assert(pre.index.contains_key(order.orderid));
                                }
                            }
                        }
                        return matches;
                    }
                }
                let placed = orderbook.place(order);
                proof {
                    if placed is Err {
                        assert(old(orderbook).state().index.contains_key(order.orderid));
                    }
                }
                matches
            },
            OrderType::Stop => unreached(),
        }
    }

    /// The order the incoming side crosses against: the top of the
    /// other side.
    fn get_opposite_order<T: OrderBook>(side: OrderSide, orderbook: &T) -> (r: Option<&Order>)
        requires
            orderbook.wf(),
        ensures
            match r {
                Some(o) => orderbook.state().side(opposite(side)).len() > 0 && *o
                    == orderbook.state().side(opposite(side))[0],
                None => orderbook.state().side(opposite(side)).len() == 0,
            },
    {
        match side {
            OrderSide::Bid => orderbook.peek_top_ask(),
            OrderSide::Ask => orderbook.peek_top_bid(),
        }
    }

    /// Decides the price-limit check.
    fn is_within_price_limit(order: Order, opp_order: Order) -> (r: bool)
        ensures
            r == within_price_limit(order, opp_order),
    {
        match order.side {
            OrderSide::Bid => order.price.atoms >= opp_order.price.atoms,
            OrderSide::Ask => order.price.atoms <= opp_order.price.atoms,
        }
    }

    /// The crossing primitive: consumes opposite-side liquidity level
    /// by level until the incoming order is exhausted or the side runs
    /// out, emitting two trades per level at the resting price.
    fn do_match<T: OrderBook>(
        incoming_order: Order,
        opposite_order: Order,
        orderbook: &mut T,
        matches: &mut Match<Trade>,
    )
        requires
            old(orderbook).wf(),
            old(orderbook).state().side(opposite(incoming_order.side)).len() > 0,
            opposite_order == old(orderbook).state().side(opposite(incoming_order.side))[0],
            incoming_order.quantity > 0,
        ensures
            final(orderbook).wf(),
            final(orderbook).state().pair == old(orderbook).state().pair,
            ({
                let opps = old(orderbook).state().side(opposite(incoming_order.side));
                &&& final(orderbook).state().side(opposite(incoming_order.side))
                    == cross_remaining(incoming_order, opps)
                &&& final(orderbook).state().side(incoming_order.side) == old(
                    orderbook,
                ).state().side(incoming_order.side)
                &&& final(matches).trades() == old(matches).trades() + cross_trades(
                    incoming_order,
                    opps,
                )
                &&& final(matches).state_of() == cross_state(incoming_order, opps)
                &&& final(matches).qty_left_of() == cross_qty_left(incoming_order, opps)
            }),
            forall|id: OrderId| #[trigger]
                final(orderbook).state().index.contains_key(id) ==> old(
                    orderbook,
                ).state().index.contains_key(id),
        decreases old(orderbook).state().side(opposite(incoming_order.side)).len(),
    {
        let ghost pre = old(orderbook).state();
        let ghost opps = pre.side(opposite(incoming_order.side));
        proof {
            old(orderbook).wf_properties();
        }
        if incoming_order.quantity < opposite_order.quantity {
            // The resting order absorbs the whole incoming order and
            // stays, reduced in place.
            matches.add_match(
                Trade {
                    orderid: incoming_order.orderid,
                    side: incoming_order.side,
                    price: opposite_order.price,
                    status: OrderStatus::Filled,
                    quantity: incoming_order.quantity,
                    timestamp: 0,
                },
            );
            matches.add_match(
                Trade {
                    orderid: opposite_order.orderid,
                    side: opposite_order.side,
                    price: opposite_order.price,
                    status: OrderStatus::PartialFill,
                    quantity: incoming_order.quantity,
                    timestamp: 0,
                },
            );
            orderbook.modify_quantity(
                opposite_order.orderid,
                opposite_order.quantity - incoming_order.quantity,
            );
            // The incoming order was filled whole.
            matches.update_state(MatchState::Full);
            proof {
                let newq = (opposite_order.quantity - incoming_order.quantity) as u64;
                // Only the top of the opposite side carries this id.
                assert forall|n: int|
                    0 < n < opps.len() implies #[trigger] opps[n].orderid
                    != opposite_order.orderid by {}
                assert forall|n: int|
                    0 <= n < pre.side(incoming_order.side).len() implies #[trigger] pre.side(
                    incoming_order.side,
                )[n].orderid != opposite_order.orderid by {
                    assert(pre.index[opposite_order.orderid] == opposite_order);
                }
                assert(orders_with_qty(opps, opposite_order.orderid, newq) =~= opps.update(
                    0,
                    with_qty(opposite_order, newq),
                ));
                assert(orders_with_qty(
                    pre.side(incoming_order.side),
                    opposite_order.orderid,
                    newq,
                ) =~= pre.side(incoming_order.side));
                assert(final(matches).trades() =~= old(matches).trades() + cross_trades(
                    incoming_order,
                    opps,
                ));
            }
        } else if incoming_order.quantity > opposite_order.quantity {
            // The resting order fills whole and is popped; the
            // incoming order keeps crossing with its residual.
            matches.add_match(
                Trade {
                    orderid: incoming_order.orderid,
                    side: incoming_order.side,
                    price: opposite_order.price,
                    status: OrderStatus::PartialFill,
                    quantity: opposite_order.quantity,
                    timestamp: 0,
                },
            );
            matches.add_match(
                Trade {
                    orderid: opposite_order.orderid,
                    side: opposite_order.side,
                    price: opposite_order.price,
                    status: OrderStatus::Filled,
                    quantity: opposite_order.quantity,
                    timestamp: 0,
                },
            );
            let mut reduced = incoming_order;
            reduced.quantity = incoming_order.quantity - opposite_order.quantity;
            matches.update_qty_left(reduced.quantity);
            matches.update_state(MatchState::Partial);
            let popped = match incoming_order.side {
                OrderSide::Bid => orderbook.pop_top_ask(),
                OrderSide::Ask => orderbook.pop_top_bid(),
            };
            proof {
                if popped is None {
                    assert(false);
                }
                assert(reduced == with_qty(incoming_order, reduced.quantity));
            }
            let next_opp: Option<Order> = match Self::get_opposite_order(
                incoming_order.side,
                orderbook,
            ) {
                Some(o) => Some(*o),
                None => None,
            };
            let ghost inc2 = with_qty(incoming_order, (incoming_order.quantity
                - opposite_order.quantity) as u64);
            let ghost rest = opps.drop_first();
            proof {
                assert(reduced == inc2);
                assert(cross_remaining(incoming_order, opps) == cross_remaining(inc2, rest));
                assert(cross_state(incoming_order, opps) == cross_state(inc2, rest));
                assert(cross_qty_left(incoming_order, opps) == cross_qty_left(inc2, rest));
            }
            if let Some(next) = next_opp {
                let ghost mid = orderbook.state();
                let ghost mid_trades = matches.trades();
                Self::do_match(reduced, next, orderbook, matches);
                proof {
                    assert(mid.side(opposite(incoming_order.side)) == rest);
                    assert(final(matches).trades() =~= mid_trades + cross_trades(inc2, rest));
                    assert(cross_trades(incoming_order, opps) =~= seq![
                        trade_of(
                            incoming_order,
                            OrderStatus::PartialFill,
                            opposite_order.quantity,
                            opposite_order.price,
                        ),
                        trade_of(
                            opposite_order,
                            OrderStatus::Filled,
                            opposite_order.quantity,
                            opposite_order.price,
                        ),
                    ] + cross_trades(inc2, rest));
                    assert(final(matches).trades() =~= old(matches).trades() + cross_trades(
                        incoming_order,
                        opps,
                    ));
                }
            } else {
                proof {
                    assert(rest.len() == 0);
                    assert(cross_remaining(inc2, rest) == rest);
                    assert(cross_state(inc2, rest) == MatchState::Partial);
                    assert(cross_qty_left(inc2, rest) == inc2.quantity);
                    assert(cross_trades(inc2, rest) =~= Seq::<Trade>::empty());
                    assert(cross_trades(incoming_order, opps) =~= seq![
                        trade_of(
                            incoming_order,
                            OrderStatus::PartialFill,
                            opposite_order.quantity,
                            opposite_order.price,
                        ),
                        trade_of(
                            opposite_order,
                            OrderStatus::Filled,
                            opposite_order.quantity,
                            opposite_order.price,
                        ),
                    ] + cross_trades(inc2, rest));
                    assert(final(matches).trades() =~= old(matches).trades() + cross_trades(
                        incoming_order,
                        opps,
                    ));
                }
            }
        } else {
            // Equal quantities: both orders fill whole and the resting
            // one is popped.
            matches.add_match(
                Trade {
                    orderid: incoming_order.orderid,
                    side: incoming_order.side,
                    price: opposite_order.price,
                    status: OrderStatus::Filled,
                    quantity: incoming_order.quantity,
                    timestamp: 0,
                },
            );
            matches.add_match(
                Trade {
                    orderid: opposite_order.orderid,
                    side: opposite_order.side,
                    price: opposite_order.price,
                    status: OrderStatus::Filled,
                    quantity: opposite_order.quantity,
                    timestamp: 0,
                },
            );
            matches.update_state(MatchState::Full);
            let popped = match incoming_order.side {
                OrderSide::Bid => orderbook.pop_top_ask(),
                OrderSide::Ask => orderbook.pop_top_bid(),
            };
            proof {
                if popped is None {
                    assert(false);
                }
                assert(final(matches).trades() =~= old(matches).trades() + cross_trades(
                    incoming_order,
                    opps,
                ));
            }
        }
    }
}

} // verus!
