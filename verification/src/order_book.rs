//! The order book: two independently price-ordered collections of
//! resting limit orders, one per side. Each price level holds a FIFO
//! queue, so time priority at one price is the queue order. Bids are
//! kept highest price first, asks lowest price first; the most
//! competitive level always stands at the front.

use vstd::prelude::*;

use crate::order::{Order, OrderSide};

verus! {

/// One price level: the FIFO queue of resting orders sharing a price.
pub struct PriceLevel {
    pub price: u64,
    pub orders: Vec<Order>,
}

/// Price `a` strictly outranks price `b` on `side`: a bid outranks by
/// being higher, an ask by being lower.
pub open spec fn outranks(side: OrderSide, a: u64, b: u64) -> bool {
    match side {
        OrderSide::Buy => a > b,
        OrderSide::Sell => a < b,
    }
}

fn price_outranks(side: OrderSide, a: u64, b: u64) -> (r: bool)
    ensures
        r == outranks(side, a, b),
{
    match side {
        OrderSide::Buy => a > b,
        OrderSide::Sell => a < b,
    }
}

/// Every order in the level is a resting order of this side at this
/// price, and the queue is never empty (no dangling levels).
pub open spec fn level_wf(l: PriceLevel, side: OrderSide) -> bool {
    &&& l.orders@.len() > 0
    &&& forall|k: int| 0 <= k < l.orders@.len() ==> {
        &&& (#[trigger] l.orders@[k]).restable()
        &&& l.orders@[k].side == side
        &&& l.orders@[k].price == Some(l.price)
    }
}

/// A side of the book: well-formed levels, strictly ordered with the
/// most competitive price first.
pub open spec fn side_wf(ls: Seq<PriceLevel>, side: OrderSide) -> bool {
    &&& forall|i: int| 0 <= i < ls.len() ==> level_wf(#[trigger] ls[i], side)
    &&& forall|i: int, j: int|
        0 <= i < j < ls.len() ==> outranks(side, (#[trigger] ls[i]).price, (#[trigger] ls[j]).price)
}

/// A level with this price stands among `ls`.
pub open spec fn levels_has_price(ls: Seq<PriceLevel>, price: u64) -> bool {
    exists|i: int| 0 <= i < ls.len() && (#[trigger] ls[i]).price == price
}

/// The index of the level with this price (meaningful under
/// `levels_has_price`; unique under `side_wf`).
pub open spec fn levels_index_of(ls: Seq<PriceLevel>, price: u64) -> int {
    choose|i: int| 0 <= i < ls.len() && (#[trigger] ls[i]).price == price
}

/// The queue resting at `price`: empty when no such level stands.
pub open spec fn levels_orders_at(ls: Seq<PriceLevel>, price: u64) -> Seq<Order> {
    if levels_has_price(ls, price) {
        ls[levels_index_of(ls, price)].orders@
    } else {
        Seq::<Order>::empty()
    }
}

/// Total quantity resting in a queue.
pub open spec fn orders_qty(s: Seq<Order>) -> int
    decreases s.len(),
{
    if s.len() == 0 {
        0
    } else {
        s[0].quantity + orders_qty(s.drop_first())
    }
}

/// Total quantity resting on a side.
pub open spec fn levels_qty(ls: Seq<PriceLevel>) -> int
    decreases ls.len(),
{
    if ls.len() == 0 {
        0
    } else {
        orders_qty(ls[0].orders@) + levels_qty(ls.drop_first())
    }
}

/// A price level as pure ghost data: the price and its FIFO queue.
#[verifier::ext_equal]
pub ghost struct LevelView {
    pub price: u64,
    pub orders: Seq<Order>,
}

pub open spec fn level_view(l: PriceLevel) -> LevelView {
    LevelView { price: l.price, orders: l.orders@ }
}

/// A side of the book as pure ghost data, best level first.
pub open spec fn levels_view(ls: Seq<PriceLevel>) -> Seq<LevelView> {
    ls.map_values(|l: PriceLevel| level_view(l))
}

/// What popping the front order leaves of a side: the front level loses
/// its front order, and disappears when that empties it.
pub open spec fn pop_view(sv: Seq<LevelView>) -> Seq<LevelView> {
    if sv[0].orders.len() == 1 {
        sv.drop_first()
    } else {
        sv.update(0, LevelView { price: sv[0].price, orders: sv[0].orders.drop_first() })
    }
}

/// What resting `order` makes of a side: appended to the tail of its
/// price's queue, a new level opened at the sorted position when the
/// price is absent.
pub open spec fn add_view(sv: Seq<LevelView>, order: Order, side: OrderSide) -> Seq<LevelView>
    decreases sv.len(),
{
    let p = order.price.unwrap();
    if sv.len() == 0 {
        seq![LevelView { price: p, orders: seq![order] }]
    } else if outranks(side, sv[0].price, p) {
        seq![sv[0]] + add_view(sv.drop_first(), order, side)
    } else if sv[0].price == p {
        sv.update(0, LevelView { price: p, orders: sv[0].orders.push(order) })
    } else {
        seq![LevelView { price: p, orders: seq![order] }] + sv
    }
}

/// At the position the insertion scan stops, `add_view` is the pointwise
/// update of the matching level, or the insertion of a fresh one.
proof fn lemma_add_view_at(sv: Seq<LevelView>, order: Order, side: OrderSide, i: int)
    requires
        order.price is Some,
        0 <= i <= sv.len(),
        forall|k: int| 0 <= k < i ==> outranks(side, (#[trigger] sv[k]).price, order.price.unwrap()),
        i < sv.len() ==> !outranks(side, sv[i].price, order.price.unwrap()),
    ensures
        i < sv.len() && sv[i].price == order.price.unwrap() ==> add_view(sv, order, side)
            == sv.update(i, LevelView { price: sv[i].price, orders: sv[i].orders.push(order) }),
        !(i < sv.len() && sv[i].price == order.price.unwrap()) ==> add_view(sv, order, side)
            == sv.insert(i, LevelView { price: order.price.unwrap(), orders: seq![order] }),
    decreases i,
{
    let p = order.price.unwrap();
    let fresh = LevelView { price: p, orders: seq![order] };
    if i == 0 {
        if sv.len() == 0 {
            assert(add_view(sv, order, side) =~= sv.insert(0, fresh));
        } else if sv[0].price != p {
            assert(seq![fresh] + sv =~= sv.insert(0, fresh));
        }
    } else {
        assert(outranks(side, sv[0].price, p));
        lemma_add_view_at(sv.drop_first(), order, side, i - 1);
        if i < sv.len() && sv[i].price == p {
            let lvl = LevelView { price: sv[i].price, orders: sv[i].orders.push(order) };
            assert(sv.drop_first()[i - 1] == sv[i]);
            assert(seq![sv[0]] + sv.drop_first().update(i - 1, lvl) =~= sv.update(i, lvl));
        } else {
            assert(seq![sv[0]] + sv.drop_first().insert(i - 1, fresh) =~= sv.insert(i, fresh));
        }
    }
}

proof fn lemma_index_unique(ls: Seq<PriceLevel>, side: OrderSide, i: int, j: int)
    requires
        side_wf(ls, side),
        0 <= i < ls.len(),
        0 <= j < ls.len(),
        ls[i].price == ls[j].price,
    ensures
        i == j,
{
    if i < j {
        assert(outranks(side, ls[i].price, ls[j].price));
    }
    if j < i {
        assert(outranks(side, ls[j].price, ls[i].price));
    }
}

proof fn lemma_orders_at_index(ls: Seq<PriceLevel>, side: OrderSide, i: int)
    requires
        side_wf(ls, side),
        0 <= i < ls.len(),
    ensures
        levels_has_price(ls, ls[i].price),
        levels_index_of(ls, ls[i].price) == i,
        levels_orders_at(ls, ls[i].price) == ls[i].orders@,
{
    assert(levels_has_price(ls, ls[i].price));
    let j = levels_index_of(ls, ls[i].price);
    lemma_index_unique(ls, side, i, j);
}

proof fn lemma_orders_qty_push(s: Seq<Order>, o: Order)
    ensures
        orders_qty(s.push(o)) == orders_qty(s) + o.quantity,
    decreases s.len(),
{
    if s.len() == 0 {
        assert(s.push(o)[0] == o);
        assert(s.push(o).drop_first() =~= Seq::<Order>::empty());
        assert(orders_qty(Seq::<Order>::empty()) == 0);
    } else {
        lemma_orders_qty_push(s.drop_first(), o);
        assert(s.push(o)[0] == s[0]);
        assert(s.push(o).drop_first() =~= s.drop_first().push(o));
    }
}

proof fn lemma_levels_qty_insert(ls: Seq<PriceLevel>, i: int, l: PriceLevel)
    requires
        0 <= i <= ls.len(),
    ensures
        levels_qty(ls.insert(i, l)) == levels_qty(ls) + orders_qty(l.orders@),
    decreases i,
{
    if i == 0 {
        assert(ls.insert(0, l).drop_first() =~= ls);
    } else {
        lemma_levels_qty_insert(ls.drop_first(), i - 1, l);
        assert(ls.insert(i, l).drop_first() =~= ls.drop_first().insert(i - 1, l));
    }
}

proof fn lemma_levels_qty_update(ls: Seq<PriceLevel>, i: int, l: PriceLevel)
    requires
        0 <= i < ls.len(),
    ensures
        levels_qty(ls.update(i, l)) == levels_qty(ls) - orders_qty(ls[i].orders@) + orders_qty(
            l.orders@,
        ),
    decreases i,
{
    if i == 0 {
        assert(ls.update(0, l).drop_first() =~= ls.drop_first());
    } else {
        lemma_levels_qty_update(ls.drop_first(), i - 1, l);
        assert(ls.update(i, l).drop_first() =~= ls.drop_first().update(i - 1, l));
    }
}

/// The two sides of the book.
pub struct OrderBook {
    /// Bid levels, highest price first.
    pub buy_levels: Vec<PriceLevel>,
    /// Ask levels, lowest price first.
    pub sell_levels: Vec<PriceLevel>,
}

impl OrderBook {
    /// The levels of one side, best first.
    pub open spec fn levels(self, side: OrderSide) -> Seq<PriceLevel> {
        match side {
            OrderSide::Buy => self.buy_levels@,
            OrderSide::Sell => self.sell_levels@,
        }
    }

    pub open spec fn wf(self) -> bool {
        &&& side_wf(self.levels(OrderSide::Buy), OrderSide::Buy)
        &&& side_wf(self.levels(OrderSide::Sell), OrderSide::Sell)
    }

    pub open spec fn side_is_empty(self, side: OrderSide) -> bool {
        self.levels(side).len() == 0
    }

    /// One side of the book as pure ghost data, best level first.
    pub open spec fn side_view(self, side: OrderSide) -> Seq<LevelView> {
        levels_view(self.levels(side))
    }

    pub open spec fn has_price(self, side: OrderSide, price: u64) -> bool {
        levels_has_price(self.levels(side), price)
    }

    /// The FIFO queue resting at one price of one side.
    pub open spec fn orders_at(self, side: OrderSide, price: u64) -> Seq<Order> {
        levels_orders_at(self.levels(side), price)
    }

    /// Total quantity resting on one side.
    pub open spec fn total_qty(self, side: OrderSide) -> int {
        levels_qty(self.levels(side))
    }

    /// The most competitive resting price: the front level's.
    pub open spec fn spec_best_price(self, side: OrderSide) -> Option<u64> {
        if self.levels(side).len() == 0 {
            None
        } else {
            Some(self.levels(side)[0].price)
        }
    }

    /// No resting bid can trade against a resting ask: every bid price
    /// stands strictly below every ask price.
    pub open spec fn uncrossed(self) -> bool {
        forall|pb: u64, pa: u64|
            #[trigger] self.has_price(OrderSide::Buy, pb) && #[trigger] self.has_price(
                OrderSide::Sell,
                pa,
            ) ==> pb < pa
    }

    pub fn new() -> (r: OrderBook)
        ensures
            r.wf(),
            r.side_is_empty(OrderSide::Buy),
            r.side_is_empty(OrderSide::Sell),
            r.uncrossed(),
            r.total_qty(OrderSide::Buy) == 0,
            r.total_qty(OrderSide::Sell) == 0,
    {
        OrderBook { buy_levels: Vec::new(), sell_levels: Vec::new() }
    }

    /// Rests a limit order on its own side: appended to the end of its
    /// price level's queue (time priority), the level created at its
    /// sorted position when absent.
    pub fn add_order(&mut self, order: Order)
        requires
            old(self).wf(),
            order.restable(),
        ensures
            final(self).wf(),
            final(self).levels(order.side.spec_opposite()) == old(self).levels(
                order.side.spec_opposite(),
            ),
            forall|q: u64|
                final(self).has_price(order.side, q) <==> (old(self).has_price(order.side, q) || q
                    == order.price.unwrap()),
            final(self).orders_at(order.side, order.price.unwrap()) == old(self).orders_at(
                order.side,
                order.price.unwrap(),
            ).push(order),
            forall|q: u64|
                q != order.price.unwrap() ==> final(self).orders_at(order.side, q) == old(
                    self,
                ).orders_at(order.side, q),
            final(self).total_qty(order.side) == old(self).total_qty(order.side)
                + order.quantity,
            final(self).side_view(order.side) == add_view(
                old(self).side_view(order.side),
                order,
                order.side,
            ),
    {
        match order.side {
            OrderSide::Buy => add_to_levels(&mut self.buy_levels, order),
            OrderSide::Sell => add_to_levels(&mut self.sell_levels, order),
        }
    }

    /// The most competitive resting price on `side`, or none when that
    /// side is empty. Pure query.
    pub fn get_best_price(&self, side: OrderSide) -> (r: Option<u64>)
        ensures
            r == self.spec_best_price(side),
    {
        let levels: &Vec<PriceLevel> = match side {
            OrderSide::Buy => &self.buy_levels,
            OrderSide::Sell => &self.sell_levels,
        };
        if levels.len() == 0 {
            None
        } else {
            Some(levels[0].price)
        }
    }

    /// Removes and returns the earliest-queued order of the best price
    /// level on `side`; a level left empty is removed with it. Popping
    /// from an empty side returns none and changes nothing.
    pub fn pop_best_order(&mut self, side: OrderSide) -> (r: Option<Order>)
        requires
            old(self).wf(),
        ensures
            final(self).wf(),
            final(self).levels(side.spec_opposite()) == old(self).levels(side.spec_opposite()),
            old(self).side_is_empty(side) ==> r is None && *final(self) == *old(self),
            !old(self).side_is_empty(side) ==> {
                let p = old(self).spec_best_price(side).unwrap();
                &&& r is Some
                &&& r.unwrap() == old(self).orders_at(side, p)[0]
                &&& r.unwrap().restable()
                &&& r.unwrap().side == side
                &&& r.unwrap().price == Some(p)
                &&& final(self).orders_at(side, p) == old(self).orders_at(side, p).drop_first()
                &&& forall|q: u64|
                    q != p ==> final(self).orders_at(side, q) == old(self).orders_at(side, q)
                &&& forall|q: u64|
                    final(self).has_price(side, q) <==> (old(self).has_price(side, q) && !(q == p
                        && old(self).orders_at(side, p).len() == 1))
                &&& final(self).total_qty(side) == old(self).total_qty(side)
                    - r.unwrap().quantity
                &&& r.unwrap() == old(self).side_view(side)[0].orders[0]
                &&& final(self).side_view(side) == pop_view(old(self).side_view(side))
            },
    {
        match side {
            OrderSide::Buy => pop_from_levels(&mut self.buy_levels, Ghost(OrderSide::Buy)),
            OrderSide::Sell => pop_from_levels(&mut self.sell_levels, Ghost(OrderSide::Sell)),
        }
    }
}

/// Price priority: the best price is at least as competitive as every
/// resting price on its side — no other bid is higher, no other ask
/// lower.
pub proof fn lemma_price_priority(book: OrderBook, side: OrderSide, q: u64)
    requires
        book.wf(),
        book.has_price(side, q),
    ensures
        book.spec_best_price(side) is Some,
        side == OrderSide::Buy ==> q <= book.spec_best_price(side).unwrap(),
        side == OrderSide::Sell ==> q >= book.spec_best_price(side).unwrap(),
{
    let ls = book.levels(side);
    let i = choose|i: int| 0 <= i < ls.len() && (#[trigger] ls[i]).price == q;
    if i > 0 {
        assert(outranks(side, ls[0].price, ls[i].price));
    }
}

/// The best price of a non-empty side is itself a resting price.
pub proof fn lemma_best_price_resting(book: OrderBook, side: OrderSide)
    requires
        book.wf(),
        !book.side_is_empty(side),
    ensures
        book.spec_best_price(side) is Some,
        book.has_price(side, book.spec_best_price(side).unwrap()),
{
    let ls = book.levels(side);
    assert(0 <= 0 < ls.len() && ls[0].price == book.spec_best_price(side).unwrap());
}

/// No dangling levels: a price level stands in the book exactly when
/// its queue is non-empty.
pub proof fn lemma_no_dangling_levels(book: OrderBook, side: OrderSide, price: u64)
    requires
        book.wf(),
    ensures
        book.has_price(side, price) <==> book.orders_at(side, price).len() > 0,
{
    let ls = book.levels(side);
    if levels_has_price(ls, price) {
        let i = levels_index_of(ls, price);
        assert(level_wf(ls[i], side));
    }
}

fn add_to_levels(levels: &mut Vec<PriceLevel>, order: Order)
    requires
        side_wf(old(levels)@, order.side),
        order.restable(),
    ensures
        side_wf(final(levels)@, order.side),
        forall|q: u64|
            levels_has_price(final(levels)@, q) <==> (levels_has_price(old(levels)@, q) || q
                == order.price.unwrap()),
        levels_orders_at(final(levels)@, order.price.unwrap()) == levels_orders_at(
            old(levels)@,
            order.price.unwrap(),
        ).push(order),
        forall|q: u64|
            q != order.price.unwrap() ==> levels_orders_at(final(levels)@, q) == levels_orders_at(
                old(levels)@,
                q,
            ),
        levels_qty(final(levels)@) == levels_qty(old(levels)@) + order.quantity,
        levels_view(final(levels)@) == add_view(levels_view(old(levels)@), order, order.side),
{
    let side = order.side;
    let p = order.price.unwrap();
    let ghost ls0 = levels@;
    let mut i: usize = 0;
    while i < levels.len() && price_outranks(side, levels[i].price, p)
        invariant
            levels@ == ls0,
            0 <= i <= ls0.len(),
            forall|k: int| 0 <= k < i ==> outranks(side, (#[trigger] ls0[k]).price, p),
        decreases ls0.len() - i,
    {
        i += 1;
    }
    if i < levels.len() && levels[i].price == p {
        let ghost lvl0 = ls0[i as int];
        levels[i].orders.push(order);
        proof {
            let ls1 = levels@;
            let lvl1 = ls1[i as int];
            assert(lvl1.orders@ == lvl0.orders@.push(order));
            assert(ls1 =~= ls0.update(i as int, lvl1));
            assert forall|a: int, b: int| 0 <= a < b < ls1.len() implies outranks(
                side,
                (ls1[a]).price,
                (ls1[b]).price,
            ) by {
                assert(outranks(side, ls0[a].price, ls0[b].price));
            }
            assert forall|a: int| 0 <= a < ls1.len() implies level_wf(ls1[a], side) by {
                assert(level_wf(ls0[a], side));
                if a == i {
                    assert forall|k: int| 0 <= k < lvl1.orders@.len() implies {
                        &&& (lvl1.orders@[k]).restable()
                        &&& lvl1.orders@[k].side == side
                        &&& lvl1.orders@[k].price == Some(lvl1.price)
                    } by {
                        if k < lvl0.orders@.len() {
                            assert(lvl1.orders@[k] == lvl0.orders@[k]);
                        } else {
                            assert(lvl1.orders@[k] == order);
                        }
                    }
                }
            }
            assert(side_wf(ls1, side));
            assert forall|q: u64| levels_has_price(ls1, q) <==> (levels_has_price(ls0, q) || q
                == p) by {
                if levels_has_price(ls1, q) {
                    let a = choose|a: int| 0 <= a < ls1.len() && (#[trigger] ls1[a]).price == q;
                    assert(ls0[a].price == q);
                }
                if levels_has_price(ls0, q) {
                    let a = choose|a: int| 0 <= a < ls0.len() && (#[trigger] ls0[a]).price == q;
                    assert(ls1[a].price == q);
                }
                if q == p {
                    assert(ls1[i as int].price == q);
                }
            }
            lemma_orders_at_index(ls0, side, i as int);
            lemma_orders_at_index(ls1, side, i as int);
            assert(levels_orders_at(ls1, p) == levels_orders_at(ls0, p).push(order));
            assert forall|q: u64| q != p implies levels_orders_at(ls1, q) == levels_orders_at(
                ls0,
                q,
            ) by {
                if levels_has_price(ls0, q) {
                    let a = choose|a: int| 0 <= a < ls0.len() && (#[trigger] ls0[a]).price == q;
                    lemma_orders_at_index(ls0, side, a);
                    assert(ls1[a].price == q);
                    lemma_orders_at_index(ls1, side, a);
                } else {
                    assert(!levels_has_price(ls1, q));
                }
            }
            lemma_levels_qty_update(ls0, i as int, lvl1);
            lemma_orders_qty_push(lvl0.orders@, order);
            let sv0 = levels_view(ls0);
            assert forall|k: int| 0 <= k < i implies outranks(
                side,
                (#[trigger] sv0[k]).price,
                p,
            ) by {
                assert(outranks(side, ls0[k].price, p));
            }
            lemma_add_view_at(sv0, order, side, i as int);
            assert(levels_view(ls1) =~~= sv0.update(
                i as int,
                LevelView { price: sv0[i as int].price, orders: sv0[i as int].orders.push(order) },
            ));
        }
    } else {
        proof {
            if i < ls0.len() {
                assert(!outranks(side, ls0[i as int].price, p) && ls0[i as int].price != p);
                assert(outranks(side, p, ls0[i as int].price));
            }
            assert forall|k: int| i <= k < ls0.len() implies outranks(
                side,
                p,
                (#[trigger] ls0[k]).price,
            ) by {
                if k > i {
                    assert(outranks(side, ls0[i as int].price, ls0[k].price));
                }
            }
            assert(!levels_has_price(ls0, p)) by {
                if levels_has_price(ls0, p) {
                    let a = choose|a: int| 0 <= a < ls0.len() && (#[trigger] ls0[a]).price == p;
                    if a < i {
                        assert(outranks(side, ls0[a].price, p));
                    } else {
                        assert(outranks(side, p, ls0[a].price));
                    }
                }
            }
        }
        let mut queue: Vec<Order> = Vec::new();
        queue.push(order);
        let new_level = PriceLevel { price: p, orders: queue };
        levels.insert(i, new_level);
        proof {
            let ls1 = levels@;
            assert(ls1 == ls0.insert(i as int, new_level));
            assert(new_level.orders@ =~= Seq::<Order>::empty().push(order));
            assert(level_wf(new_level, side)) by {
                assert(new_level.orders@[0] == order);
            }
            assert forall|a: int| 0 <= a < ls1.len() implies level_wf(ls1[a], side) by {
                if a < i {
                    assert(ls1[a] == ls0[a]);
                    assert(level_wf(ls0[a], side));
                } else if a == i {
                    assert(ls1[a] == new_level);
                } else {
                    assert(ls1[a] == ls0[a - 1]);
                    assert(level_wf(ls0[a - 1], side));
                }
            }
            assert forall|a: int, b: int| 0 <= a < b < ls1.len() implies outranks(
                side,
                (ls1[a]).price,
                (ls1[b]).price,
            ) by {
                if a < i {
                    assert(ls1[a] == ls0[a]);
                } else if a == i {
                    assert(ls1[a] == new_level);
                } else {
                    assert(ls1[a] == ls0[a - 1]);
                }
                if b < i {
                    assert(ls1[b] == ls0[b]);
                } else if b == i {
                    assert(ls1[b] == new_level);
                } else {
                    assert(ls1[b] == ls0[b - 1]);
                }
            }
            assert(side_wf(ls1, side));
            assert forall|q: u64| levels_has_price(ls1, q) <==> (levels_has_price(ls0, q) || q
                == p) by {
                if levels_has_price(ls1, q) && q != p {
                    let a = choose|a: int| 0 <= a < ls1.len() && (#[trigger] ls1[a]).price == q;
                    if a < i {
                        assert(ls0[a].price == q);
                    } else {
                        assert(ls0[a - 1].price == q);
                    }
                }
                if levels_has_price(ls0, q) {
                    let a = choose|a: int| 0 <= a < ls0.len() && (#[trigger] ls0[a]).price == q;
                    if a < i {
                        assert(ls1[a].price == q);
                    } else {
                        assert(ls1[a + 1].price == q);
                    }
                }
                if q == p {
                    assert(ls1[i as int].price == q);
                }
            }
            lemma_orders_at_index(ls1, side, i as int);
            assert(levels_orders_at(ls1, p) =~= levels_orders_at(ls0, p).push(order));
            assert forall|q: u64| q != p implies levels_orders_at(ls1, q) == levels_orders_at(
                ls0,
                q,
            ) by {
                if levels_has_price(ls0, q) {
                    let a = choose|a: int| 0 <= a < ls0.len() && (#[trigger] ls0[a]).price == q;
                    lemma_orders_at_index(ls0, side, a);
                    if a < i {
                        assert(ls1[a].price == q);
                        lemma_orders_at_index(ls1, side, a);
                        assert(ls1[a] == ls0[a]);
                    } else {
                        assert(ls1[a + 1].price == q);
                        lemma_orders_at_index(ls1, side, a + 1);
                        assert(ls1[a + 1] == ls0[a]);
                    }
                } else {
                    assert(!levels_has_price(ls1, q));
                }
            }
            lemma_levels_qty_insert(ls0, i as int, new_level);
            assert(orders_qty(new_level.orders@) == order.quantity) by {
                assert(new_level.orders@[0] == order);
                assert(new_level.orders@.drop_first() =~= Seq::<Order>::empty());
                assert(orders_qty(Seq::<Order>::empty()) == 0);
            }
            let sv0 = levels_view(ls0);
            assert forall|k: int| 0 <= k < i implies outranks(
                side,
                (#[trigger] sv0[k]).price,
                p,
            ) by {
                assert(outranks(side, ls0[k].price, p));
            }
            lemma_add_view_at(sv0, order, side, i as int);
            assert(level_view(new_level) =~= (LevelView { price: p, orders: seq![order] }));
            assert(levels_view(ls1) =~~= sv0.insert(
                i as int,
                LevelView { price: p, orders: seq![order] },
            ));
        }
    }
}

fn pop_from_levels(levels: &mut Vec<PriceLevel>, Ghost(side): Ghost<OrderSide>) -> (r: Option<
    Order,
>)
    requires
        side_wf(old(levels)@, side),
    ensures
        side_wf(final(levels)@, side),
        old(levels)@.len() == 0 ==> r is None && *final(levels) == *old(levels),
        old(levels)@.len() > 0 ==> {
            let p = old(levels)@[0].price;
            &&& r is Some
            &&& r.unwrap() == levels_orders_at(old(levels)@, p)[0]
            &&& r.unwrap().restable()
            &&& r.unwrap().side == side
            &&& r.unwrap().price == Some(p)
            &&& levels_orders_at(final(levels)@, p) == levels_orders_at(
                old(levels)@,
                p,
            ).drop_first()
            &&& forall|q: u64|
                q != p ==> levels_orders_at(final(levels)@, q) == levels_orders_at(
                    old(levels)@,
                    q,
                )
            &&& forall|q: u64|
                levels_has_price(final(levels)@, q) <==> (levels_has_price(old(levels)@, q) && !(q
                    == p && levels_orders_at(old(levels)@, p).len() == 1))
            &&& levels_qty(final(levels)@) == levels_qty(old(levels)@) - r.unwrap().quantity
            &&& r.unwrap() == levels_view(old(levels)@)[0].orders[0]
            &&& levels_view(final(levels)@) == pop_view(levels_view(old(levels)@))
        },
{
    if levels.len() == 0 {
        return None;
    }
    let ghost ls0 = levels@;
    let ghost p = ls0[0].price;
    proof {
        assert(level_wf(ls0[0], side));
        lemma_orders_at_index(ls0, side, 0);
    }
    if levels[0].orders.len() == 1 {
        let mut lvl = levels.remove(0);
        let o = lvl.orders.remove(0);
        proof {
            let ls1 = levels@;
            assert(ls1 =~= ls0.drop_first());
            assert forall|a: int| 0 <= a < ls1.len() implies level_wf(ls1[a], side) by {
                assert(ls1[a] == ls0[a + 1]);
                assert(level_wf(ls0[a + 1], side));
            }
            assert forall|a: int, b: int| 0 <= a < b < ls1.len() implies outranks(
                side,
                (ls1[a]).price,
                (ls1[b]).price,
            ) by {
                assert(outranks(side, ls0[a + 1].price, ls0[b + 1].price));
            }
            assert(!levels_has_price(ls1, p)) by {
                if levels_has_price(ls1, p) {
                    let a = choose|a: int| 0 <= a < ls1.len() && (#[trigger] ls1[a]).price == p;
                    assert(outranks(side, ls0[0].price, ls0[a + 1].price));
                }
            }
            assert(levels_orders_at(ls0, p).drop_first() =~= Seq::<Order>::empty());
            assert forall|q: u64| q != p implies levels_orders_at(ls1, q) == levels_orders_at(
                ls0,
                q,
            ) by {
                if levels_has_price(ls0, q) {
                    let a = choose|a: int| 0 <= a < ls0.len() && (#[trigger] ls0[a]).price == q;
                    lemma_orders_at_index(ls0, side, a);
                    assert(a != 0);
                    assert(ls1[a - 1].price == q);
                    lemma_orders_at_index(ls1, side, a - 1);
                    assert(ls1[a - 1] == ls0[a]);
                } else {
                    assert(!levels_has_price(ls1, q)) by {
                        if levels_has_price(ls1, q) {
                            let a = choose|a: int|
                                0 <= a < ls1.len() && (#[trigger] ls1[a]).price == q;
                            assert(ls0[a + 1].price == q);
                        }
                    }
                }
            }
            assert forall|q: u64| levels_has_price(ls1, q) <==> (levels_has_price(ls0, q) && !(q
                == p && levels_orders_at(ls0, p).len() == 1)) by {
                if levels_has_price(ls1, q) {
                    let a = choose|a: int| 0 <= a < ls1.len() && (#[trigger] ls1[a]).price == q;
                    assert(ls0[a + 1].price == q);
                    if q == p {
                        lemma_index_unique(ls0, side, 0, a + 1);
                    }
                }
                if levels_has_price(ls0, q) && q != p {
                    let a = choose|a: int| 0 <= a < ls0.len() && (#[trigger] ls0[a]).price == q;
                    assert(a != 0);
                    assert(ls1[a - 1].price == q);
                }
            }
            assert(orders_qty(ls0[0].orders@) == o.quantity) by {
                assert(ls0[0].orders@[0] == o);
                assert(ls0[0].orders@.drop_first() =~= Seq::<Order>::empty());
                assert(orders_qty(Seq::<Order>::empty()) == 0);
            }
            assert(levels_view(ls0)[0].orders.len() == 1);
            assert(levels_view(ls1) =~~= levels_view(ls0).drop_first());
        }
        Some(o)
    } else {
        let ghost lvl0 = ls0[0];
        let o = levels[0].orders.remove(0);
        proof {
            let ls1 = levels@;
            let lvl1 = ls1[0];
            assert(lvl1.orders@ == lvl0.orders@.drop_first()) by {
                assert(lvl0.orders@.remove(0) =~= lvl0.orders@.drop_first());
            }
            assert(lvl1.price == p);
            assert(ls1 =~= ls0.update(0, lvl1));
            assert forall|a: int| 0 <= a < ls1.len() implies level_wf(ls1[a], side) by {
                assert(level_wf(ls0[a], side));
                if a == 0 {
                    assert forall|k: int| 0 <= k < lvl1.orders@.len() implies {
                        &&& (lvl1.orders@[k]).restable()
                        &&& lvl1.orders@[k].side == side
                        &&& lvl1.orders@[k].price == Some(lvl1.price)
                    } by {
                        assert(lvl1.orders@[k] == lvl0.orders@[k + 1]);
                    }
                }
            }
            assert forall|a: int, b: int| 0 <= a < b < ls1.len() implies outranks(
                side,
                (ls1[a]).price,
                (ls1[b]).price,
            ) by {
                assert(outranks(side, ls0[a].price, ls0[b].price));
            }
            assert(side_wf(ls1, side));
            lemma_orders_at_index(ls1, side, 0);
            assert(levels_orders_at(ls1, p) == levels_orders_at(ls0, p).drop_first());
            assert forall|q: u64| q != p implies levels_orders_at(ls1, q) == levels_orders_at(
                ls0,
                q,
            ) by {
                if levels_has_price(ls0, q) {
                    let a = choose|a: int| 0 <= a < ls0.len() && (#[trigger] ls0[a]).price == q;
                    lemma_orders_at_index(ls0, side, a);
                    assert(a != 0);
                    assert(ls1[a].price == q);
                    lemma_orders_at_index(ls1, side, a);
                    assert(ls1[a] == ls0[a]);
                } else {
                    assert(!levels_has_price(ls1, q)) by {
                        if levels_has_price(ls1, q) {
                            let a = choose|a: int|
                                0 <= a < ls1.len() && (#[trigger] ls1[a]).price == q;
                            assert(ls0[a].price == q);
                        }
                    }
                }
            }
            assert forall|q: u64| levels_has_price(ls1, q) <==> (levels_has_price(ls0, q) && !(q
                == p && levels_orders_at(ls0, p).len() == 1)) by {
                if levels_has_price(ls1, q) {
                    let a = choose|a: int| 0 <= a < ls1.len() && (#[trigger] ls1[a]).price == q;
                    assert(ls0[a].price == q);
                }
                if levels_has_price(ls0, q) {
                    let a = choose|a: int| 0 <= a < ls0.len() && (#[trigger] ls0[a]).price == q;
                    assert(ls1[a].price == q);
                }
            }
            lemma_levels_qty_update(ls0, 0, lvl1);
            assert(orders_qty(lvl0.orders@) == o.quantity + orders_qty(lvl1.orders@));
            assert(levels_view(ls0)[0].orders.len() != 1);
            assert(levels_view(ls1) =~~= levels_view(ls0).update(
                0,
                LevelView {
                    price: levels_view(ls0)[0].price,
                    orders: levels_view(ls0)[0].orders.drop_first(),
                },
            ));
        }
        Some(o)
    }
}

} // verus!
