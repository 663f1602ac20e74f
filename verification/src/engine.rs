//! The matching engine: assigns order ids, routes a submission by its
//! kind, drives the matching loop against the book, and returns the
//! executed trades together with any unfilled remainder.

use vstd::prelude::*;

use crate::order::{Order, OrderSide, OrderType};
use crate::order_book::{
    add_view, lemma_best_price_resting, lemma_price_priority, level_wf, outranks, pop_view,
    LevelView, OrderBook,
};

verus! {

/// One executed match, reported in execution order: the taker's side
/// and kind, the resting order's price, and the traded quantity.
#[derive(Debug, Clone, Copy, PartialEq, Eq, Structural)]
pub struct Trade {
    pub side: OrderSide,
    pub order_type: OrderType,
    pub price: u64,
    pub quantity: u64,
}

/// Why a submission was rejected before touching the book.
#[derive(Debug, Clone, Copy, PartialEq, Eq, Structural)]
pub enum OrderError {
    /// A limit order without a price, or any order with zero quantity.
    InvalidOrderSpec,
}

/// What one accepted submission produced.
#[derive(Debug)]
pub struct SubmitResult {
    /// The executed trades, in execution order.
    pub trades: Vec<Trade>,
    /// For a market order that exhausted the opposite side: the
    /// quantity left over, reported and discarded. Always none for a
    /// limit order, whose leftover rests in the book instead.
    pub unfilled: Option<u64>,
}

/// Sum of the traded quantities of a trade sequence.
pub open spec fn trades_total(ts: Seq<Trade>) -> int
    decreases ts.len(),
{
    if ts.len() == 0 {
        0
    } else {
        trades_total(ts.drop_last()) + ts.last().quantity
    }
}

/// A resting price an incoming limit order may trade with: at or below
/// a buyer's limit, at or above a seller's.
pub open spec fn crosses(side: OrderSide, resting: u64, limit: u64) -> bool {
    match side {
        OrderSide::Buy => resting <= limit,
        OrderSide::Sell => resting >= limit,
    }
}

/// What holds of every trade an incoming order produced: the taker's
/// side and kind, a positive quantity, and execution at a price that
/// was resting opposite when the submission arrived.
pub open spec fn trade_wf(t: Trade, side: OrderSide, order_type: OrderType, pre: OrderBook) -> bool {
    &&& t.side == side
    &&& t.order_type == order_type
    &&& t.quantity > 0
    &&& pre.has_price(side.spec_opposite(), t.price)
}

/// The matching loop as a function of its inputs: from the incoming
/// order's side, kind, limit and remaining quantity, and the opposite
/// side's resting levels, the exact trades emitted and what those
/// levels become. One step trades min(remaining, front order's
/// quantity) at the front level's price, pops that order, reappends a
/// partial remainder at its level's tail, and recurses; a limit order
/// stops at the first price that fails its crossing test. The limit
/// argument is ignored for a market order.
pub open spec fn match_rec(
    side: OrderSide,
    kind: OrderType,
    limit: u64,
    qty: u64,
    sv: Seq<LevelView>,
) -> (Seq<Trade>, Seq<LevelView>)
    decreases qty,
{
    if qty == 0 || sv.len() == 0 {
        (Seq::<Trade>::empty(), sv)
    } else if kind == OrderType::Limit && !crosses(side, sv[0].price, limit) {
        (Seq::<Trade>::empty(), sv)
    } else if sv[0].orders.len() == 0 || sv[0].orders[0].quantity == 0 {
        // never reached on a well-formed book: queues are non-empty and
        // hold positive quantities
        (Seq::<Trade>::empty(), sv)
    } else {
        let m = sv[0].orders[0];
        let traded = if qty < m.quantity {
            qty
        } else {
            m.quantity
        };
        let t = Trade { side, order_type: kind, price: sv[0].price, quantity: traded };
        let drained = pop_view(sv);
        let next = if m.quantity > traded {
            add_view(
                drained,
                Order { quantity: (m.quantity - traded) as u64, ..m },
                side.spec_opposite(),
            )
        } else {
            drained
        };
        let rest = match_rec(side, kind, limit, (qty - traded) as u64, next);
        (seq![t] + rest.0, rest.1)
    }
}

proof fn lemma_trades_total_push(ts: Seq<Trade>, t: Trade)
    ensures
        trades_total(ts.push(t)) == trades_total(ts) + t.quantity,
{
    assert(ts.push(t).drop_last() =~= ts);
}

/// One matching step keeps the trades ranked best price first: the new
/// trade executed at the step's best price `bp` is no more competitive
/// than any earlier trade, and every price still resting afterwards is
/// no more competitive than any trade so far.
proof fn lemma_trades_stay_ranked(
    pre: OrderBook,
    post: OrderBook,
    opp: OrderSide,
    ts0: Seq<Trade>,
    ts1: Seq<Trade>,
    bp: u64,
)
    requires
        pre.wf(),
        pre.spec_best_price(opp) == Some(bp),
        ts1.len() == ts0.len() + 1,
        forall|k: int| 0 <= k < ts0.len() ==> ts1[k] == ts0[k],
        ts1[ts0.len() as int].price == bp,
        forall|k1: int, k2: int|
            0 <= k1 < k2 < ts0.len() ==> !outranks(
                opp,
                (#[trigger] ts0[k2]).price,
                (#[trigger] ts0[k1]).price,
            ),
        forall|q: u64, k: int|
            #[trigger] pre.has_price(opp, q) && 0 <= k < ts0.len() ==> !outranks(
                opp,
                q,
                (#[trigger] ts0[k]).price,
            ),
        forall|q: u64| #[trigger] post.has_price(opp, q) ==> pre.has_price(opp, q) || q == bp,
    ensures
        forall|k1: int, k2: int|
            0 <= k1 < k2 < ts1.len() ==> !outranks(
                opp,
                (#[trigger] ts1[k2]).price,
                (#[trigger] ts1[k1]).price,
            ),
        forall|q: u64, k: int|
            #[trigger] post.has_price(opp, q) && 0 <= k < ts1.len() ==> !outranks(
                opp,
                q,
                (#[trigger] ts1[k]).price,
            ),
{
    lemma_best_price_resting(pre, opp);
    assert forall|k1: int, k2: int| 0 <= k1 < k2 < ts1.len() implies !outranks(
        opp,
        (ts1[k2]).price,
        (ts1[k1]).price,
    ) by {
        if k2 == ts0.len() {
            assert(!outranks(opp, bp, ts0[k1].price));
        } else {
            assert(ts1[k1] == ts0[k1] && ts1[k2] == ts0[k2]);
        }
    }
    assert forall|q: u64, k: int| post.has_price(opp, q) && 0 <= k < ts1.len() implies !outranks(
        opp,
        q,
        (ts1[k]).price,
    ) by {
        if pre.has_price(opp, q) {
            if k == ts0.len() {
                lemma_price_priority(pre, opp, q);
            } else {
                assert(!outranks(opp, q, ts0[k].price));
            }
        } else {
            if k < ts0.len() {
                assert(!outranks(opp, bp, ts0[k].price));
            }
        }
    }
}

/// The engine: the one book and the id counter it owns.
pub struct MatchingEngine {
    pub order_book: OrderBook,
    pub next_order_id: u64,
}

impl MatchingEngine {
    pub open spec fn wf(self) -> bool {
        self.order_book.wf()
    }

    pub fn new() -> (r: MatchingEngine)
        ensures
            r.wf(),
            r.next_order_id == 1,
            r.order_book.side_is_empty(OrderSide::Buy),
            r.order_book.side_is_empty(OrderSide::Sell),
            r.order_book.uncrossed(),
            r.order_book.total_qty(OrderSide::Buy) == 0,
            r.order_book.total_qty(OrderSide::Sell) == 0,
    {
        MatchingEngine { order_book: OrderBook::new(), next_order_id: 1 }
    }

    /// Accepts one submission and processes it to completion.
    ///
    /// A limit order without a price, or any order with zero quantity,
    /// is rejected without touching the book; the id it consumed is
    /// not reused. Otherwise the order is matched against the best
    /// opposite prices; a market order's leftover is reported
    /// unfilled, a limit order's leftover rests in the book.
    pub fn submit_order(
        &mut self,
        order_type: OrderType,
        side: OrderSide,
        price: Option<u64>,
        quantity: u64,
    ) -> (r: Result<SubmitResult, OrderError>)
        requires
            old(self).wf(),
            old(self).next_order_id < u64::MAX,
        ensures
            final(self).wf(),
            final(self).next_order_id == old(self).next_order_id + 1,
            r is Err <==> (quantity == 0 || (order_type == OrderType::Limit && price is None)),
            r is Err ==> r == Err::<SubmitResult, OrderError>(OrderError::InvalidOrderSpec)
                && final(self).order_book == old(self).order_book,
            r matches Ok(out) ==> {
                let pre = old(self).order_book;
                let post = final(self).order_book;
                let opp = side.spec_opposite();
                let matched = trades_total(out.trades@);
                let limit_arg = if order_type == OrderType::Limit {
                    price.unwrap()
                } else {
                    0
                };
                &&& out.trades@ == match_rec(side, order_type, limit_arg, quantity, pre.side_view(opp)).0
                &&& post.side_view(opp) == match_rec(
                    side,
                    order_type,
                    limit_arg,
                    quantity,
                    pre.side_view(opp),
                ).1
                &&& matched <= quantity
                &&& forall|k: int|
                    0 <= k < out.trades@.len() ==> trade_wf(
                        #[trigger] out.trades@[k],
                        side,
                        order_type,
                        pre,
                    )
                &&& post.total_qty(opp) == pre.total_qty(opp) - matched
                &&& forall|q: u64| #[trigger] post.has_price(opp, q) ==> pre.has_price(opp, q)
                &&& pre.uncrossed() ==> post.uncrossed()
                &&& forall|k1: int, k2: int|
                    0 <= k1 < k2 < out.trades@.len() ==> !outranks(
                        opp,
                        (#[trigger] out.trades@[k2]).price,
                        (#[trigger] out.trades@[k1]).price,
                    )
                &&& order_type == OrderType::Market ==> {
                    &&& post.levels(side) == pre.levels(side)
                    &&& (out.unfilled is Some <==> matched < quantity)
                    &&& out.unfilled is Some ==> out.unfilled.unwrap() == quantity - matched
                        && post.side_is_empty(opp)
                }
                &&& order_type == OrderType::Market ==> post.side_view(side) == pre.side_view(side)
                &&& order_type == OrderType::Limit ==> {
                    let limit = price.unwrap();
                    let rested = Order {
                        id: old(self).next_order_id,
                        order_type: OrderType::Limit,
                        side,
                        price,
                        quantity: (quantity - matched) as u64,
                        timestamp: old(self).next_order_id,
                    };
                    &&& out.unfilled is None
                    &&& forall|k: int|
                        0 <= k < out.trades@.len() ==> crosses(
                            side,
                            (#[trigger] out.trades@[k]).price,
                            limit,
                        )
                    &&& post.total_qty(side) == pre.total_qty(side) + (quantity - matched)
                    &&& matched < quantity ==> post.orders_at(side, limit) == pre.orders_at(
                        side,
                        limit,
                    ).push(rested)
                    &&& matched == quantity ==> post.levels(side) == pre.levels(side)
                    &&& forall|q: u64|
                        #[trigger] post.has_price(side, q) <==> (pre.has_price(side, q) || (q
                            == limit && matched < quantity))
                    &&& matched < quantity ==> post.side_view(side) == add_view(
                        pre.side_view(side),
                        rested,
                        side,
                    )
                    &&& matched == quantity ==> post.side_view(side) == pre.side_view(side)
                    &&& matched < quantity ==> (post.side_is_empty(opp) || (post.spec_best_price(
                        opp,
                    ) is Some && !crosses(side, post.spec_best_price(opp).unwrap(), limit)))
                }
            },
    {
        let id = self.next_order_id;
        self.next_order_id = self.next_order_id + 1;
        if quantity == 0 || (order_type == OrderType::Limit && price.is_none()) {
            return Err(OrderError::InvalidOrderSpec);
        }
        let order_price = match order_type {
            OrderType::Limit => price,
            OrderType::Market => None,
        };
        let order = Order::new(id, order_type, side, order_price, quantity);
        match order_type {
            OrderType::Market => {
                let (trades, unfilled) = self.execute_market_order(order);
                Ok(SubmitResult { trades, unfilled })
            },
            OrderType::Limit => {
                let trades = self.execute_limit_order(order);
                Ok(SubmitResult { trades, unfilled: None })
            },
        }
    }

    /// Matches a market order against the best opposite prices until it
    /// is filled or the opposite side is exhausted; the leftover is
    /// returned as the unfilled quantity and never rests.
    fn execute_market_order(&mut self, order: Order) -> (r: (Vec<Trade>, Option<u64>))
        requires
            old(self).wf(),
            order.wf(),
            order.order_type == OrderType::Market,
            order.quantity > 0,
        ensures
            final(self).wf(),
            final(self).next_order_id == old(self).next_order_id,
            final(self).order_book.levels(order.side) == old(self).order_book.levels(order.side),
            trades_total(r.0@) <= order.quantity,
            final(self).order_book.total_qty(order.side.spec_opposite()) == old(self).order_book.total_qty(order.side.spec_opposite()) - trades_total(r.0@),
            forall|k: int|
                0 <= k < r.0@.len() ==> trade_wf(
                    #[trigger] r.0@[k],
                    order.side,
                    OrderType::Market,
                    old(self).order_book,
                ),
            forall|q: u64|
                #[trigger] final(self).order_book.has_price(order.side.spec_opposite(), q) ==> old(self).order_book.has_price(order.side.spec_opposite(), q),
            r.1 is Some <==> trades_total(r.0@) < order.quantity,
            r.1 is Some ==> r.1.unwrap() == order.quantity - trades_total(r.0@) && final(self).order_book.side_is_empty(order.side.spec_opposite()),
            old(self).order_book.uncrossed() ==> final(self).order_book.uncrossed(),
            forall|k1: int, k2: int|
                0 <= k1 < k2 < r.0@.len() ==> !outranks(
                    order.side.spec_opposite(),
                    (#[trigger] r.0@[k2]).price,
                    (#[trigger] r.0@[k1]).price,
                ),
            r.0@ == match_rec(
                order.side,
                OrderType::Market,
                0,
                order.quantity,
                old(self).order_book.side_view(order.side.spec_opposite()),
            ).0,
            final(self).order_book.side_view(order.side.spec_opposite()) == match_rec(
                order.side,
                OrderType::Market,
                0,
                order.quantity,
                old(self).order_book.side_view(order.side.spec_opposite()),
            ).1,
            final(self).order_book.side_view(order.side) == old(self).order_book.side_view(
                order.side,
            ),
    {
        let mut order = order;
        let opposite = order.side.opposite();
        let mut trades: Vec<Trade> = Vec::new();
        let ghost book0 = self.order_book;
        let ghost own = order.side;
        let ghost opp = own.spec_opposite();
        let ghost qty0: int = order.quantity as int;
        let ghost q_init: u64 = order.quantity;
        let ghost view0 = self.order_book.side_view(opp);
        let ghost id0 = self.next_order_id;
        proof {
            assert(trades@ + match_rec(own, OrderType::Market, 0, q_init, view0).0 =~= match_rec(
                own,
                OrderType::Market,
                0,
                q_init,
                view0,
            ).0);
        }
        while order.quantity > 0
            invariant
                self.order_book.wf(),
                self.next_order_id == id0,
                opposite == opp,
                opp == own.spec_opposite(),
                opp.spec_opposite() == own,
                order.side == own,
                self.order_book.levels(own) == book0.levels(own),
                trades_total(trades@) + order.quantity == qty0,
                self.order_book.total_qty(opp) + trades_total(trades@) == book0.total_qty(opp),
                forall|k: int|
                    0 <= k < trades@.len() ==> trade_wf(
                        #[trigger] trades@[k],
                        own,
                        OrderType::Market,
                        book0,
                    ),
                forall|q: u64|
                    #[trigger] self.order_book.has_price(opp, q) ==> book0.has_price(opp, q),
                forall|k1: int, k2: int|
                    0 <= k1 < k2 < trades@.len() ==> !outranks(
                        opp,
                        (#[trigger] trades@[k2]).price,
                        (#[trigger] trades@[k1]).price,
                    ),
                forall|q: u64, k: int|
                    #[trigger] self.order_book.has_price(opp, q) && 0 <= k < trades@.len()
                        ==> !outranks(opp, q, (#[trigger] trades@[k]).price),
                match_rec(own, OrderType::Market, 0, q_init, view0).0 == trades@ + match_rec(
                    own,
                    OrderType::Market,
                    0,
                    order.quantity,
                    self.order_book.side_view(opp),
                ).0,
                match_rec(own, OrderType::Market, 0, q_init, view0).1 == match_rec(
                    own,
                    OrderType::Market,
                    0,
                    order.quantity,
                    self.order_book.side_view(opp),
                ).1,
            ensures
                order.quantity > 0 ==> self.order_book.side_is_empty(opp),
                match_rec(own, OrderType::Market, 0, q_init, view0).0 == trades@ + match_rec(
                    own,
                    OrderType::Market,
                    0,
                    order.quantity,
                    self.order_book.side_view(opp),
                ).0,
                match_rec(own, OrderType::Market, 0, q_init, view0).1 == match_rec(
                    own,
                    OrderType::Market,
                    0,
                    order.quantity,
                    self.order_book.side_view(opp),
                ).1,
            decreases order.quantity,
        {
            let ghost book_iter = self.order_book;
            let ghost trades_before = trades@;
            let ghost qty_before: u64 = order.quantity;
            let best = self.order_book.get_best_price(opposite);
            match best {
                None => {
                    break ;
                },
                Some(best_price) => {
                    proof {
                        lemma_best_price_resting(self.order_book, opp);
                        assert(level_wf(book_iter.levels(opp)[0], opp));
                    }
                    let popped = self.order_book.pop_best_order(opposite);
                    let mut best_match = popped.unwrap();
                    let traded_qty = if order.quantity < best_match.quantity {
                        order.quantity
                    } else {
                        best_match.quantity
                    };
                    let trade = Trade {
                        side: order.side,
                        order_type: OrderType::Market,
                        price: best_price,
                        quantity: traded_qty,
                    };
                    proof {
                        lemma_trades_total_push(trades@, trade);
                    }
                    trades.push(trade);
                    order.quantity = order.quantity - traded_qty;
                    best_match.quantity = best_match.quantity - traded_qty;
                    if best_match.quantity > 0 {
                        self.order_book.add_order(best_match);
                    }
                    proof {
                        lemma_trades_stay_ranked(
                            book_iter,
                            self.order_book,
                            opp,
                            trades_before,
                            trades@,
                            best_price,
                        );
                        let sv_a = book_iter.side_view(opp);
                        let m = sv_a[0].orders[0];
                        let traded = trade.quantity;
                        let drained = pop_view(sv_a);
                        let next = if m.quantity > traded {
                            add_view(
                                drained,
                                Order { quantity: (m.quantity - traded) as u64, ..m },
                                opp,
                            )
                        } else {
                            drained
                        };
                        assert(best_match == (Order {
                            quantity: (m.quantity - traded) as u64,
                            ..m
                        }));
                        assert(self.order_book.side_view(opp) == next);
                        let rest = match_rec(
                            own,
                            OrderType::Market,
                            0,
                            (qty_before - traded) as u64,
                            next,
                        );
                        assert(match_rec(own, OrderType::Market, 0, qty_before, sv_a).0
                            == seq![trade] + rest.0);
                        assert(match_rec(own, OrderType::Market, 0, qty_before, sv_a).1 == rest.1);
                        assert(trades_before + (seq![trade] + rest.0) =~= trades@ + rest.0);
                    }
                },
            }
        }
        proof {
            let cur = self.order_book.side_view(opp);
            let rest = match_rec(own, OrderType::Market, 0, order.quantity, cur);
            assert(rest.0 =~= Seq::<Trade>::empty());
            assert(rest.1 == cur);
            assert(match_rec(own, OrderType::Market, 0, q_init, view0).0 =~= trades@);
            if book0.uncrossed() {
                assert forall|pb: u64, pa: u64|
                    #[trigger] self.order_book.has_price(OrderSide::Buy, pb)
                        && #[trigger] self.order_book.has_price(
                        OrderSide::Sell,
                        pa,
                    ) implies pb < pa by {
                    assert(book0.has_price(OrderSide::Buy, pb));
                    assert(book0.has_price(OrderSide::Sell, pa));
                }
            }
        }
        if order.quantity > 0 {
            (trades, Some(order.quantity))
        } else {
            (trades, None)
        }
    }

    /// Matches a limit order while the best opposite price crosses its
    /// limit; whatever is left afterwards rests in the book on the
    /// order's own side.
    fn execute_limit_order(&mut self, order: Order) -> (trades: Vec<Trade>)
        requires
            old(self).wf(),
            order.restable(),
        ensures
            final(self).wf(),
            final(self).next_order_id == old(self).next_order_id,
            trades_total(trades@) <= order.quantity,
            final(self).order_book.total_qty(order.side.spec_opposite()) == old(self).order_book.total_qty(order.side.spec_opposite()) - trades_total(trades@),
            final(self).order_book.total_qty(order.side) == old(self).order_book.total_qty(
                order.side,
            ) + (order.quantity - trades_total(trades@)),
            forall|k: int|
                0 <= k < trades@.len() ==> trade_wf(
                    #[trigger] trades@[k],
                    order.side,
                    OrderType::Limit,
                    old(self).order_book,
                ) && crosses(order.side, trades@[k].price, order.price.unwrap()),
            forall|q: u64|
                #[trigger] final(self).order_book.has_price(order.side.spec_opposite(), q) ==> old(self).order_book.has_price(order.side.spec_opposite(), q),
            trades_total(trades@) < order.quantity ==> final(self).order_book.orders_at(
                order.side,
                order.price.unwrap(),
            ) == old(self).order_book.orders_at(order.side, order.price.unwrap()).push(
                Order { quantity: (order.quantity - trades_total(trades@)) as u64, ..order },
            ),
            trades_total(trades@) == order.quantity ==> final(self).order_book.levels(order.side)
                == old(self).order_book.levels(order.side),
            forall|q: u64|
                #[trigger] final(self).order_book.has_price(order.side, q) <==> (old(self).order_book.has_price(order.side, q) || (q == order.price.unwrap()
                    && trades_total(trades@) < order.quantity)),
            old(self).order_book.uncrossed() ==> final(self).order_book.uncrossed(),
            forall|k1: int, k2: int|
                0 <= k1 < k2 < trades@.len() ==> !outranks(
                    order.side.spec_opposite(),
                    (#[trigger] trades@[k2]).price,
                    (#[trigger] trades@[k1]).price,
                ),
            trades@ == match_rec(
                order.side,
                OrderType::Limit,
                order.price.unwrap(),
                order.quantity,
                old(self).order_book.side_view(order.side.spec_opposite()),
            ).0,
            final(self).order_book.side_view(order.side.spec_opposite()) == match_rec(
                order.side,
                OrderType::Limit,
                order.price.unwrap(),
                order.quantity,
                old(self).order_book.side_view(order.side.spec_opposite()),
            ).1,
            trades_total(trades@) < order.quantity ==> final(self).order_book.side_view(order.side)
                == add_view(
                old(self).order_book.side_view(order.side),
                Order { quantity: (order.quantity - trades_total(trades@)) as u64, ..order },
                order.side,
            ),
            trades_total(trades@) == order.quantity ==> final(self).order_book.side_view(
                order.side,
            ) == old(self).order_book.side_view(order.side),
            trades_total(trades@) < order.quantity ==> (final(self).order_book.side_is_empty(
                order.side.spec_opposite(),
            ) || (final(self).order_book.spec_best_price(order.side.spec_opposite()) is Some
                && !crosses(
                order.side,
                final(self).order_book.spec_best_price(order.side.spec_opposite()).unwrap(),
                order.price.unwrap(),
            ))),
    {
        let mut order = order;
        let opposite = order.side.opposite();
        let limit_price = order.price.unwrap();
        let mut trades: Vec<Trade> = Vec::new();
        let ghost book0 = self.order_book;
        let ghost ord0 = order;
        let ghost own = order.side;
        let ghost opp = own.spec_opposite();
        let ghost qty0: int = order.quantity as int;
        let ghost q_init: u64 = order.quantity;
        let ghost view0 = self.order_book.side_view(opp);
        let ghost id0 = self.next_order_id;
        proof {
            assert(trades@ + match_rec(own, OrderType::Limit, limit_price, q_init, view0).0
                =~= match_rec(own, OrderType::Limit, limit_price, q_init, view0).0);
        }
        while order.quantity > 0
            invariant
                self.order_book.wf(),
                self.next_order_id == id0,
                opposite == opp,
                opp == own.spec_opposite(),
                opp.spec_opposite() == own,
                order == (Order { quantity: order.quantity, ..ord0 }),
                ord0.restable(),
                own == ord0.side,
                limit_price == ord0.price.unwrap(),
                self.order_book.levels(own) == book0.levels(own),
                trades_total(trades@) + order.quantity == qty0,
                self.order_book.total_qty(opp) + trades_total(trades@) == book0.total_qty(opp),
                forall|k: int|
                    0 <= k < trades@.len() ==> trade_wf(
                        #[trigger] trades@[k],
                        own,
                        OrderType::Limit,
                        book0,
                    ) && crosses(own, trades@[k].price, limit_price),
                forall|q: u64|
                    #[trigger] self.order_book.has_price(opp, q) ==> book0.has_price(opp, q),
                forall|k1: int, k2: int|
                    0 <= k1 < k2 < trades@.len() ==> !outranks(
                        opp,
                        (#[trigger] trades@[k2]).price,
                        (#[trigger] trades@[k1]).price,
                    ),
                forall|q: u64, k: int|
                    #[trigger] self.order_book.has_price(opp, q) && 0 <= k < trades@.len()
                        ==> !outranks(opp, q, (#[trigger] trades@[k]).price),
                match_rec(own, OrderType::Limit, limit_price, q_init, view0).0 == trades@
                    + match_rec(
                    own,
                    OrderType::Limit,
                    limit_price,
                    order.quantity,
                    self.order_book.side_view(opp),
                ).0,
                match_rec(own, OrderType::Limit, limit_price, q_init, view0).1 == match_rec(
                    own,
                    OrderType::Limit,
                    limit_price,
                    order.quantity,
                    self.order_book.side_view(opp),
                ).1,
            ensures
                order.quantity > 0 ==> (self.order_book.side_is_empty(opp) || (
                self.order_book.spec_best_price(opp) is Some && !crosses(
                    own,
                    self.order_book.spec_best_price(opp).unwrap(),
                    limit_price,
                ))),
                match_rec(own, OrderType::Limit, limit_price, q_init, view0).0 == trades@
                    + match_rec(
                    own,
                    OrderType::Limit,
                    limit_price,
                    order.quantity,
                    self.order_book.side_view(opp),
                ).0,
                match_rec(own, OrderType::Limit, limit_price, q_init, view0).1 == match_rec(
                    own,
                    OrderType::Limit,
                    limit_price,
                    order.quantity,
                    self.order_book.side_view(opp),
                ).1,
            decreases order.quantity,
        {
            let ghost book_iter = self.order_book;
            let ghost trades_before = trades@;
            let ghost qty_before: u64 = order.quantity;
            let best = self.order_book.get_best_price(opposite);
            match best {
                None => {
                    break ;
                },
                Some(best_price) => {
                    let match_possible = match order.side {
                        OrderSide::Buy => best_price <= limit_price,
                        OrderSide::Sell => best_price >= limit_price,
                    };
                    if !match_possible {
                        break ;
                    }
                    proof {
                        lemma_best_price_resting(self.order_book, opp);
                        assert(level_wf(book_iter.levels(opp)[0], opp));
                        assert(crosses(own, best_price, limit_price));
                    }
                    let popped = self.order_book.pop_best_order(opposite);
                    let mut best_match = popped.unwrap();
                    let traded_qty = if order.quantity < best_match.quantity {
                        order.quantity
                    } else {
                        best_match.quantity
                    };
                    let trade = Trade {
                        side: order.side,
                        order_type: OrderType::Limit,
                        price: best_price,
                        quantity: traded_qty,
                    };
                    proof {
                        lemma_trades_total_push(trades@, trade);
                    }
                    trades.push(trade);
                    order.quantity = order.quantity - traded_qty;
                    best_match.quantity = best_match.quantity - traded_qty;
                    if best_match.quantity > 0 {
                        self.order_book.add_order(best_match);
                    }
                    proof {
                        lemma_trades_stay_ranked(
                            book_iter,
                            self.order_book,
                            opp,
                            trades_before,
                            trades@,
                            best_price,
                        );
                        let sv_a = book_iter.side_view(opp);
                        let m = sv_a[0].orders[0];
                        let traded = trade.quantity;
                        let drained = pop_view(sv_a);
                        let next = if m.quantity > traded {
                            add_view(
                                drained,
                                Order { quantity: (m.quantity - traded) as u64, ..m },
                                opp,
                            )
                        } else {
                            drained
                        };
                        assert(best_match == (Order {
                            quantity: (m.quantity - traded) as u64,
                            ..m
                        }));
                        assert(self.order_book.side_view(opp) == next);
                        let rest = match_rec(
                            own,
                            OrderType::Limit,
                            limit_price,
                            (qty_before - traded) as u64,
                            next,
                        );
                        assert(match_rec(own, OrderType::Limit, limit_price, qty_before, sv_a).0
                            == seq![trade] + rest.0);
                        assert(match_rec(own, OrderType::Limit, limit_price, qty_before, sv_a).1
                            == rest.1);
                        assert(trades_before + (seq![trade] + rest.0) =~= trades@ + rest.0);
                    }
                },
            }
        }
        proof {
            let cur = self.order_book.side_view(opp);
            let rest = match_rec(own, OrderType::Limit, limit_price, order.quantity, cur);
            assert(rest.0 =~= Seq::<Trade>::empty());
            assert(rest.1 == cur);
            assert(match_rec(own, OrderType::Limit, limit_price, q_init, view0).0 =~= trades@);
            assert(self.order_book.side_view(own) == book0.side_view(own));
        }
        if order.quantity > 0 {
            proof {
                assert forall|q: u64|
                    #[trigger] self.order_book.has_price(opp, q) implies !crosses(
                    own,
                    q,
                    limit_price,
                ) by {
                    lemma_price_priority(self.order_book, opp, q);
                }
            }
            let ghost book_mid = self.order_book;
            self.order_book.add_order(order);
            proof {
                assert(self.order_book.levels(opp) == book_mid.levels(opp));
                assert(self.order_book.side_view(opp) == book_mid.side_view(opp));
                assert(book_mid.side_view(own) == book0.side_view(own));
                assert forall|q: u64|
                    #[trigger] self.order_book.has_price(opp, q) implies book0.has_price(
                    opp,
                    q,
                ) by {
                    assert(book_mid.has_price(opp, q));
                }
                if book0.uncrossed() {
                    assert forall|pb: u64, pa: u64|
                        #[trigger] self.order_book.has_price(OrderSide::Buy, pb)
                            && #[trigger] self.order_book.has_price(
                            OrderSide::Sell,
                            pa,
                        ) implies pb < pa by {
                        if own == OrderSide::Buy {
                            assert(self.order_book.has_price(OrderSide::Sell, pa)
                                == book_mid.has_price(OrderSide::Sell, pa));
                            if pb == limit_price && !book_mid.has_price(OrderSide::Buy, pb) {
                                assert(!crosses(own, pa, limit_price));
                            } else {
                                assert(book0.has_price(OrderSide::Buy, pb));
                                assert(book0.has_price(OrderSide::Sell, pa));
                            }
                        } else {
                            assert(self.order_book.has_price(OrderSide::Buy, pb)
                                == book_mid.has_price(OrderSide::Buy, pb));
                            if pa == limit_price && !book_mid.has_price(OrderSide::Sell, pa) {
                                assert(!crosses(own, pb, limit_price));
                            } else {
                                assert(book0.has_price(OrderSide::Buy, pb));
                                assert(book0.has_price(OrderSide::Sell, pa));
                            }
                        }
                    }
                }
            }
        } else {
            proof {
                if book0.uncrossed() {
                    assert forall|pb: u64, pa: u64|
                        #[trigger] self.order_book.has_price(OrderSide::Buy, pb)
                            && #[trigger] self.order_book.has_price(
                            OrderSide::Sell,
                            pa,
                        ) implies pb < pa by {
                        assert(book0.has_price(OrderSide::Buy, pb));
                        assert(book0.has_price(OrderSide::Sell, pa));
                    }
                }
            }
        }
        trades
    }
}

} // verus!
