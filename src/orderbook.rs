use std::collections::VecDeque;
use vstd::prelude::*;

verus! {

/// The side of an order: a bid buys, an ask sells.
#[derive(Debug, Clone, Copy, PartialEq, Eq, Structural)]
pub enum BidOrAsk {
    Bid,
    Ask,
}

/// What happened during one submission.
#[derive(Debug, Clone, Copy, PartialEq, Eq, Structural)]
pub enum MatchEvent {
    Trade { maker_id: u64, taker_id: u64, price: u64, qty: u64 },
    Maker { id: u64, price: u64, qty: u64, side: BidOrAsk },
}

/// The ordered events of one submission: trades first, a resting maker last.
#[derive(Debug)]
pub struct MatchResult {
    pub events: Vec<MatchEvent>,
}

/// A resting order; the price is that of the level that holds it.
#[derive(Debug, Clone, Copy, PartialEq, Eq, Structural)]
pub struct Order {
    pub size: u64,
    pub bid_or_ask: BidOrAsk,
    pub id: u64,
}

/// The orders resting at one price, oldest first.
#[derive(Debug)]
pub struct Limit {
    price: u64,
    orders: VecDeque<Order>,
}

/// Mathematical model of a price level.
pub struct LevelView {
    pub price: u64,
    pub orders: Seq<Order>,
}

impl View for Limit {
    type V = LevelView;

    closed spec fn view(&self) -> LevelView {
        LevelView { price: self.price, orders: self.orders@ }
    }
}

/// Quantity a single event moves from a resting order to a taker.
pub open spec fn event_qty(e: MatchEvent) -> nat {
    match e {
        MatchEvent::Trade { qty, .. } => qty as nat,
        MatchEvent::Maker { .. } => 0,
    }
}

/// `e` is a trade of a positive quantity against the resting order `maker`,
/// taken by `taker`, at `price`.
pub open spec fn trade_by(e: MatchEvent, maker: u64, taker: u64, price: u64) -> bool {
    match e {
        MatchEvent::Trade { maker_id, taker_id, price: p, qty } => maker_id == maker && taker_id
            == taker && p == price && qty > 0,
        MatchEvent::Maker { .. } => false,
    }
}

/// Total quantity traded by a sequence of events.
pub open spec fn traded(evs: Seq<MatchEvent>) -> nat
    decreases evs.len(),
{
    if evs.len() == 0 {
        0
    } else {
        traded(evs.drop_last()) + event_qty(evs.last())
    }
}

/// Total resting quantity of a queue of orders.
pub open spec fn queue_qty(orders: Seq<Order>) -> nat
    decreases orders.len(),
{
    if orders.len() == 0 {
        0
    } else {
        orders[0].size as nat + queue_qty(orders.drop_first())
    }
}

/// Walks a queue oldest first against `qty` units of the taker `taker`,
/// giving the surviving queue and the trades in execution order.
pub open spec fn fill_spec(orders: Seq<Order>, taker: u64, price: u64, qty: nat) -> (Seq<Order>, Seq<MatchEvent>)
    decreases orders.len(),
{
    if qty == 0 || orders.len() == 0 {
        (orders, Seq::empty())
    } else {
        let o = orders[0];
        if qty < o.size {
            (
                seq![Order { size: (o.size - qty) as u64, ..o }] + orders.drop_first(),
                seq![MatchEvent::Trade { maker_id: o.id, taker_id: taker, price, qty: qty as u64 }],
            )
        } else {
            let (rest, evs) = fill_spec(orders.drop_first(), taker, price, (qty - o.size) as nat);
            (
                rest,
                seq![MatchEvent::Trade { maker_id: o.id, taker_id: taker, price, qty: o.size }] + evs,
            )
        }
    }
}

/// Every order of the queue has a positive remaining quantity.
pub open spec fn sizes_positive(orders: Seq<Order>) -> bool {
    forall|i: int| 0 <= i < orders.len() ==> #[trigger] orders[i].size > 0
}

impl Limit {
    pub fn new(price: u64) -> (r: Limit)
        ensures
            r@.price == price,
            r@.orders.len() == 0,
    {
        Limit { price, orders: VecDeque::new() }
    }

    pub fn is_empty(&self) -> (r: bool)
        ensures
            r == (self@.orders.len() == 0),
    {
        self.orders.len() == 0
    }

    pub fn price(&self) -> (r: u64)
        ensures
            r == self@.price,
    {
        self.price
    }

    /// The resting orders, oldest first.
    pub fn orders(&self) -> (r: &VecDeque<Order>)
        ensures
            r@ == self@.orders,
    {
        &self.orders
    }

    /// Appends `order` at the back of the queue.
    pub fn add_order(&mut self, order: Order)
        ensures
            final(self)@.price == old(self)@.price,
            final(self)@.orders == old(self)@.orders.push(order),
    {
        self.orders.push_back(order);
    }

    /// Matches up to `qty_to_fill` units of the taker `taker_id` against the
    /// queue, oldest first, at this level's price. Returns the quantity matched
    /// and one trade per resting order touched; emptied orders leave the queue.
    pub fn fill(&mut self, taker_id: u64, qty_to_fill: u64) -> (r: (u64, Vec<MatchEvent>))
        requires
            sizes_positive(old(self)@.orders),
        ensures
            final(self)@.price == old(self)@.price,
            (final(self)@.orders, r.1@) == fill_spec(
                old(self)@.orders,
                taker_id,
                old(self)@.price,
                qty_to_fill as nat,
            ),
            r.0 as nat == traded(r.1@),
    {
        let ghost orig = self.orders@;
        proof {
            lemma_fill(orig, taker_id, self.price, qty_to_fill as nat);
        }
        let mut events: Vec<MatchEvent> = Vec::new();
        let mut left: u64 = qty_to_fill;
        while left > 0 && self.orders.len() > 0
            invariant
                self.price == old(self).price,
                sizes_positive(self.orders@),
                left <= qty_to_fill,
                traded(events@) + left == qty_to_fill,
                fill_spec(orig, taker_id, self.price, qty_to_fill as nat) == (
                    fill_spec(self.orders@, taker_id, self.price, left as nat).0,
                    events@ + fill_spec(self.orders@, taker_id, self.price, left as nat).1,
                ),
            decreases self.orders@.len() + left,
        {
            let ghost cur = self.orders@;
            let o = self.orders.pop_front().unwrap();
            assert(self.orders@ =~= cur.drop_first());
            let ev;
            if left < o.size {
                ev = MatchEvent::Trade { maker_id: o.id, taker_id, price: self.price, qty: left };
                self.orders.push_front(Order { size: o.size - left, ..o });
                left = 0;
                proof {
                    reveal_with_fuel(fill_spec, 2);
                }
                assert(self.orders@ =~= seq![Order { size: (o.size - ev->Trade_qty) as u64, ..o }] + cur.drop_first());
            } else {
                ev = MatchEvent::Trade { maker_id: o.id, taker_id, price: self.price, qty: o.size };
                left = left - o.size;
            }
            proof {
                lemma_traded_concat(events@, seq![ev]);
                reveal_with_fuel(traded, 2);
                assert(seq![ev].drop_last() =~= Seq::<MatchEvent>::empty());
            }
            let ghost before = events@;
            events.push(ev);
            proof {
                assert(events@ =~= before + seq![ev]);
                let f = fill_spec(self.orders@, taker_id, self.price, left as nat);
                assert(events@ + f.1 =~= before + (seq![ev] + f.1));
            }
        }
        (qty_to_fill - left, events)
    }
}

/// The price of an event.
pub open spec fn event_price(e: MatchEvent) -> u64 {
    match e {
        MatchEvent::Trade { price, .. } => price,
        MatchEvent::Maker { price, .. } => price,
    }
}

/// The other side of the book.
pub open spec fn opposite(side: BidOrAsk) -> BidOrAsk {
    match side {
        BidOrAsk::Bid => BidOrAsk::Ask,
        BidOrAsk::Ask => BidOrAsk::Bid,
    }
}

/// For resting orders of `side`, price `a` is strictly better than `b`:
/// a higher bid, a lower ask.
pub open spec fn better(side: BidOrAsk, a: u64, b: u64) -> bool {
    match side {
        BidOrAsk::Bid => a > b,
        BidOrAsk::Ask => a < b,
    }
}

/// A taker of `side` with limit `limit` may trade against an opposite level
/// at `level_price`: an ask at or below a bid's limit, a bid at or above an
/// ask's limit.
pub open spec fn crosses(side: BidOrAsk, limit: u64, level_price: u64) -> bool {
    match side {
        BidOrAsk::Bid => level_price <= limit,
        BidOrAsk::Ask => level_price >= limit,
    }
}

/// A level is non-empty, its orders are of `side` with positive quantities,
/// their ids lie below `bound` and increase from front to back.
pub open spec fn level_ok(l: LevelView, side: BidOrAsk, bound: nat) -> bool {
    &&& l.orders.len() > 0
    &&& forall|k: int|
        0 <= k < l.orders.len() ==> (#[trigger] l.orders[k]).size > 0 && l.orders[k].bid_or_ask
            == side && (l.orders[k].id as nat) < bound
    &&& forall|a: int, b: int|
        0 <= a < b < l.orders.len() ==> (#[trigger] l.orders[a]).id < (#[trigger] l.orders[b]).id
}

/// One side of a book: well-formed levels, best price first, no price twice.
pub open spec fn side_ok(levels: Seq<LevelView>, side: BidOrAsk, bound: nat) -> bool {
    &&& forall|i: int| 0 <= i < levels.len() ==> level_ok(#[trigger] levels[i], side, bound)
    &&& forall|i: int, j: int|
        0 <= i < j < levels.len() ==> better(side, #[trigger] levels[i].price, #[trigger] levels[j].price)
}

/// Total resting quantity of a side.
pub open spec fn levels_qty(levels: Seq<LevelView>) -> nat
    decreases levels.len(),
{
    if levels.len() == 0 {
        0
    } else {
        queue_qty(levels[0].orders) + levels_qty(levels.drop_first())
    }
}

/// Sweeps the opposite side `levels` (best first) with `qty` units of a taker
/// of `side` and limit `limit`: the side that is left, the trades, and the
/// quantity still unfilled.
pub open spec fn sweep_spec(
    levels: Seq<LevelView>,
    side: BidOrAsk,
    taker: u64,
    limit: u64,
    qty: nat,
) -> (Seq<LevelView>, Seq<MatchEvent>, nat)
    decreases levels.len(),
{
    if qty == 0 || levels.len() == 0 || !crosses(side, limit, levels[0].price) {
        (levels, Seq::empty(), qty)
    } else {
        let lv = levels[0];
        let (rest, evs) = fill_spec(lv.orders, taker, lv.price, qty);
        let left = (qty - traded(evs)) as nat;
        if rest.len() == 0 {
            let (ls, es, q) = sweep_spec(levels.drop_first(), side, taker, limit, left);
            (ls, evs + es, q)
        } else {
            (levels.update(0, LevelView { price: lv.price, orders: rest }), evs, left)
        }
    }
}

pub proof fn lemma_queue_qty_concat(a: Seq<Order>, b: Seq<Order>)
    ensures
        queue_qty(a + b) == queue_qty(a) + queue_qty(b),
    decreases a.len(),
{
    if a.len() > 0 {
        lemma_queue_qty_concat(a.drop_first(), b);
        assert((a + b).drop_first() =~= a.drop_first() + b);
    } else {
        assert(a + b =~= b);
    }
}

pub proof fn lemma_levels_qty_concat(a: Seq<LevelView>, b: Seq<LevelView>)
    ensures
        levels_qty(a + b) == levels_qty(a) + levels_qty(b),
    decreases a.len(),
{
    if a.len() > 0 {
        lemma_levels_qty_concat(a.drop_first(), b);
        assert((a + b).drop_first() =~= a.drop_first() + b);
    } else {
        assert(a + b =~= b);
    }
}

/// Facts about a sweep of a well-formed opposite side.
pub proof fn lemma_sweep(levels: Seq<LevelView>, side: BidOrAsk, taker: u64, limit: u64, qty: nat, bound: nat)
    requires
        side_ok(levels, opposite(side), bound),
    ensures
        ({
            let (r, evs, left) = sweep_spec(levels, side, taker, limit, qty);
            let d = levels.len() - r.len();
            &&& left + traded(evs) == qty
            &&& levels_qty(r) + traded(evs) == levels_qty(levels)
            &&& side_ok(r, opposite(side), bound)
            &&& r.len() <= levels.len()
            &&& forall|i: int| 0 < i < r.len() ==> #[trigger] r[i] == levels[i + d]
            &&& r.len() > 0 ==> r[0].price == levels[d].price
            &&& left > 0 ==> r.len() == 0 || !crosses(side, limit, r[0].price)
            &&& forall|k: int|
                0 <= k < evs.len() ==> (#[trigger] evs[k]) is Trade && crosses(
                    side,
                    limit,
                    event_price(evs[k]),
                ) && (levels.len() > 0 ==> !better(
                    opposite(side),
                    event_price(evs[k]),
                    levels[0].price,
                )) && forall|i: int|
                    0 <= i < r.len() ==> !better(
                        opposite(side),
                        #[trigger] r[i].price,
                        event_price(evs[k]),
                    )
            &&& forall|k: int, m: int|
                0 <= k < m < evs.len() ==> !better(
                    opposite(side),
                    event_price(#[trigger] evs[m]),
                    event_price(#[trigger] evs[k]),
                )
        }),
    decreases levels.len(),
{
    let os = opposite(side);
    if qty == 0 || levels.len() == 0 || !crosses(side, limit, levels[0].price) {
        assert(levels_qty(levels) + traded(Seq::<MatchEvent>::empty()) == levels_qty(levels));
    } else {
        let lv = levels[0];
        let (rest, evs) = fill_spec(lv.orders, taker, lv.price, qty);
        assert(level_ok(levels[0], os, bound));
        lemma_fill(lv.orders, taker, lv.price, qty);
        let left = (qty - traded(evs)) as nat;
        let tail = levels.drop_first();
        assert forall|k: int| 0 <= k < evs.len() implies #[trigger] evs[k] is Trade && event_price(evs[k]) == lv.price by {
            assert(trade_by(evs[k], lv.orders[k].id, taker, lv.price));
        }
        if rest.len() == 0 {
            assert(side_ok(tail, os, bound)) by {
                assert forall|i: int, j: int| 0 <= i < j < tail.len() implies better(os, #[trigger] tail[i].price, #[trigger] tail[j].price) by {
                    assert(tail[i] == levels[i + 1] && tail[j] == levels[j + 1]);
                }
                assert forall|i: int| 0 <= i < tail.len() implies level_ok(#[trigger] tail[i], os, bound) by {
                    assert(tail[i] == levels[i + 1]);
                }
            }
            lemma_sweep(tail, side, taker, limit, left, bound);
            let (ls, es, q) = sweep_spec(tail, side, taker, limit, left);
            lemma_traded_concat(evs, es);
            assert(queue_qty(rest) == 0);
            assert forall|i: int| 0 < i < ls.len() implies #[trigger] ls[i] == levels[i + (levels.len() - ls.len())] by {
                assert(ls[i] == tail[i + (tail.len() - ls.len())]);
            }
            let all = evs + es;
            assert forall|k: int| 0 <= k < all.len() implies (#[trigger] all[k]) is Trade && crosses(
                side,
                limit,
                event_price(all[k]),
            ) && (levels.len() > 0 ==> !better(os, event_price(all[k]), levels[0].price))
                && forall|i: int| 0 <= i < ls.len() ==> !better(os, #[trigger] ls[i].price, event_price(all[k])) by {
                if k < evs.len() {
                    assert(all[k] == evs[k]);
                    assert forall|i: int| 0 <= i < ls.len() implies !better(os, #[trigger] ls[i].price, event_price(all[k])) by {
                        let j = i + (levels.len() - ls.len());
                        if i == 0 {
                            assert(ls[0].price == tail[tail.len() - ls.len()].price);
                        } else {
                            assert(ls[i] == tail[i + (tail.len() - ls.len())]);
                        }
                        assert(better(os, levels[0].price, levels[j].price));
                    }
                } else {
                    assert(all[k] == es[k - evs.len()]);
                    if tail.len() > 0 {
                        assert(better(os, levels[0].price, levels[1].price));
                    }
                }
            }
            assert forall|k: int, m: int| 0 <= k < m < all.len() implies !better(
                os,
                event_price(#[trigger] all[m]),
                event_price(#[trigger] all[k]),
            ) by {
                if m < evs.len() {
                    assert(all[k] == evs[k] && all[m] == evs[m]);
                } else if k < evs.len() {
                    assert(all[k] == evs[k] && all[m] == es[m - evs.len()]);
                    assert(tail.len() > 0);
                    assert(better(os, levels[0].price, levels[1].price));
                } else {
                    assert(all[k] == es[k - evs.len()] && all[m] == es[m - evs.len()]);
                }
            }
        } else {
            let nl = LevelView { price: lv.price, orders: rest };
            let r = levels.update(0, nl);
            assert(r.drop_first() =~= tail);
            assert(level_ok(nl, os, bound)) by {
                let d = lv.orders.len() - rest.len();
                assert forall|k: int| 0 <= k < rest.len() implies (#[trigger] rest[k]).size > 0 && rest[k].bid_or_ask == os
                    && (rest[k].id as nat) < bound by {
                    if k > 0 {
                        assert(rest[k] == lv.orders[k + d]);
                    }
                }
                assert forall|a: int, b: int| 0 <= a < b < rest.len() implies (#[trigger] rest[a]).id < (#[trigger] rest[b]).id by {
                    assert(rest[b] == lv.orders[b + d]);
                    if a > 0 {
                        assert(rest[a] == lv.orders[a + d]);
                    }
                }
            }
            assert forall|i: int| 0 <= i < r.len() implies level_ok(#[trigger] r[i], os, bound) by {
                if i > 0 {
                    assert(r[i] == levels[i]);
                }
            }
            assert forall|i: int, j: int| 0 <= i < j < r.len() implies better(os, #[trigger] r[i].price, #[trigger] r[j].price) by {
                assert(r[j] == levels[j]);
                assert(r[i].price == levels[i].price);
            }
            assert forall|k: int| 0 <= k < evs.len() implies forall|i: int| 0 <= i < r.len() ==> !better(os, #[trigger] r[i].price, event_price(#[trigger] evs[k])) by {
                assert forall|i: int| 0 <= i < r.len() implies !better(os, #[trigger] r[i].price, event_price(evs[k])) by {
                    if i > 0 {
                        assert(better(os, levels[0].price, levels[i].price));
                    }
                }
            }
        }
    }
}

/// Where a new level at `price` would stand on `side`: after every level
/// with a better price.
pub open spec fn insert_pos(levels: Seq<LevelView>, side: BidOrAsk, price: u64) -> nat
    decreases levels.len(),
{
    if levels.len() == 0 || !better(side, levels[0].price, price) {
        0
    } else {
        1 + insert_pos(levels.drop_first(), side, price)
    }
}

/// `side` after the order `o` comes to rest at `price`: appended to the level
/// at that price, or in a new level at its place in price order.
pub open spec fn rest_spec(levels: Seq<LevelView>, side: BidOrAsk, o: Order, price: u64) -> Seq<LevelView> {
    let p = insert_pos(levels, side, price) as int;
    if p < levels.len() && levels[p].price == price {
        levels.update(p, LevelView { price, orders: levels[p].orders.push(o) })
    } else {
        levels.insert(p, LevelView { price, orders: seq![o] })
    }
}

/// The side holds a level at `price`.
pub open spec fn has_price(levels: Seq<LevelView>, price: u64) -> bool {
    exists|j: int| 0 <= j < levels.len() && levels[j].price == price
}

pub proof fn lemma_insert_pos(levels: Seq<LevelView>, side: BidOrAsk, price: u64)
    ensures
        insert_pos(levels, side, price) <= levels.len(),
        forall|j: int|
            0 <= j < insert_pos(levels, side, price) ==> better(side, #[trigger] levels[j].price, price),
        insert_pos(levels, side, price) < levels.len() ==> !better(
            side,
            levels[insert_pos(levels, side, price) as int].price,
            price,
        ),
    decreases levels.len(),
{
    if levels.len() > 0 && better(side, levels[0].price, price) {
        let tail = levels.drop_first();
        lemma_insert_pos(tail, side, price);
        assert forall|j: int| 0 <= j < insert_pos(levels, side, price) implies better(side, #[trigger] levels[j].price, price) by {
            if j > 0 {
                assert(levels[j] == tail[j - 1]);
            }
        }
    }
}

pub proof fn lemma_insert_pos_exact(levels: Seq<LevelView>, side: BidOrAsk, price: u64, i: int)
    requires
        0 <= i <= levels.len(),
        forall|j: int| 0 <= j < i ==> better(side, #[trigger] levels[j].price, price),
        i < levels.len() ==> !better(side, levels[i].price, price),
    ensures
        insert_pos(levels, side, price) == i,
    decreases levels.len(),
{
    if i > 0 {
        let tail = levels.drop_first();
        assert forall|j: int| 0 <= j < i - 1 implies better(side, #[trigger] tail[j].price, price) by {
            assert(tail[j] == levels[j + 1]);
        }
        lemma_insert_pos_exact(tail, side, price, i - 1);
    }
}

/// Resting a fresh order keeps a side well formed, adds its quantity, and
/// brings no price but its own.
pub proof fn lemma_rest(levels: Seq<LevelView>, side: BidOrAsk, o: Order, price: u64, bound: nat)
    requires
        side_ok(levels, side, bound),
        o.size > 0,
        o.bid_or_ask == side,
        o.id as nat == bound,
    ensures
        ({
            let r = rest_spec(levels, side, o, price);
            &&& side_ok(r, side, bound + 1)
            &&& levels_qty(r) == levels_qty(levels) + o.size
            &&& forall|i: int| 0 <= i < r.len() ==> #[trigger] r[i].price == price || has_price(levels, r[i].price)
        }),
{
    lemma_insert_pos(levels, side, price);
    let p = insert_pos(levels, side, price) as int;
    let r = rest_spec(levels, side, o, price);
    assert forall|i: int| 0 <= i < levels.len() implies level_ok(#[trigger] levels[i], side, bound + 1) by {
        assert(level_ok(levels[i], side, bound));
    }
    let pre = levels.subrange(0, p);
    if p < levels.len() && levels[p].price == price {
        let old_l = levels[p];
        let nl = LevelView { price, orders: old_l.orders.push(o) };
        assert(level_ok(old_l, side, bound));
        assert(level_ok(nl, side, bound + 1)) by {
            assert forall|a: int, b: int| 0 <= a < b < nl.orders.len() implies (#[trigger] nl.orders[a]).id < (#[trigger] nl.orders[b]).id by {
                assert(nl.orders[a] == old_l.orders[a]);
                if b < old_l.orders.len() {
                    assert(nl.orders[b] == old_l.orders[b]);
                }
            }
            assert forall|k: int| 0 <= k < nl.orders.len() implies (#[trigger] nl.orders[k]).size > 0 && nl.orders[k].bid_or_ask
                == side && (nl.orders[k].id as nat) < bound + 1 by {
                if k < old_l.orders.len() {
                    assert(nl.orders[k] == old_l.orders[k]);
                }
            }
        }
        assert forall|i: int| 0 <= i < r.len() implies level_ok(#[trigger] r[i], side, bound + 1) by {
            if i != p {
                assert(r[i] == levels[i]);
            }
        }
        assert forall|i: int, j: int| 0 <= i < j < r.len() implies better(side, #[trigger] r[i].price, #[trigger] r[j].price) by {
            assert(r[i].price == levels[i].price && r[j].price == levels[j].price);
        }
        assert forall|i: int| 0 <= i < r.len() implies #[trigger] r[i].price == price || has_price(levels, r[i].price) by {
            assert(r[i].price == levels[i].price);
        }
        let post = levels.subrange(p + 1, levels.len() as int);
        assert(levels =~= pre + (seq![old_l] + post));
        assert(r =~= pre + (seq![nl] + post));
        lemma_levels_qty_concat(pre, seq![old_l] + post);
        lemma_levels_qty_concat(pre, seq![nl] + post);
        lemma_levels_qty_concat(seq![old_l], post);
        lemma_levels_qty_concat(seq![nl], post);
        reveal_with_fuel(levels_qty, 2);
        assert(seq![old_l].drop_first() =~= Seq::<LevelView>::empty());
        assert(seq![nl].drop_first() =~= Seq::<LevelView>::empty());
        lemma_queue_qty_concat(old_l.orders, seq![o]);
        reveal_with_fuel(queue_qty, 2);
        assert(seq![o].drop_first() =~= Seq::<Order>::empty());
        assert(old_l.orders.push(o) =~= old_l.orders + seq![o]);
    } else {
        let nl = LevelView { price, orders: seq![o] };
        assert(level_ok(nl, side, bound + 1));
        assert forall|i: int| 0 <= i < r.len() implies level_ok(#[trigger] r[i], side, bound + 1) by {
            if i < p {
                assert(r[i] == levels[i]);
            } else if i > p {
                assert(r[i] == levels[i - 1]);
            }
        }
        assert forall|i: int, j: int| 0 <= i < j < r.len() implies better(side, #[trigger] r[i].price, #[trigger] r[j].price) by {
            if j < p {
                assert(r[i] == levels[i] && r[j] == levels[j]);
            } else if j == p {
                assert(r[i] == levels[i]);
            } else if i == p {
                assert(r[j] == levels[j - 1]);
                assert(better(side, price, levels[p].price));
                if j - 1 > p {
                    assert(better(side, levels[p].price, levels[j - 1].price));
                }
            } else if i < p {
                assert(r[i] == levels[i] && r[j] == levels[j - 1]);
                assert(better(side, levels[i].price, price));
                assert(better(side, price, levels[p].price));
                if j - 1 > p {
                    assert(better(side, levels[p].price, levels[j - 1].price));
                }
            } else {
                assert(r[i] == levels[i - 1] && r[j] == levels[j - 1]);
            }
        }
        assert forall|i: int| 0 <= i < r.len() implies #[trigger] r[i].price == price || has_price(levels, r[i].price) by {
            if i < p {
                assert(r[i] == levels[i]);
            } else if i > p {
                assert(r[i] == levels[i - 1]);
            }
        }
        let post = levels.subrange(p, levels.len() as int);
        assert(levels =~= pre + post);
        assert(r =~= pre + (seq![nl] + post));
        lemma_levels_qty_concat(pre, post);
        lemma_levels_qty_concat(pre, seq![nl] + post);
        lemma_levels_qty_concat(seq![nl], post);
        reveal_with_fuel(levels_qty, 2);
        assert(seq![nl].drop_first() =~= Seq::<LevelView>::empty());
        reveal_with_fuel(queue_qty, 2);
        assert(seq![o].drop_first() =~= Seq::<Order>::empty());
    }
}

/// Mathematical model of a book: each side best price first, and the id the
/// next submission takes.
pub struct BookView {
    pub asks: Seq<LevelView>,
    pub bids: Seq<LevelView>,
    pub next_id: nat,
}

/// A book is well formed: both sides are, every resting id was handed out,
/// and every bid lies strictly below every ask.
pub open spec fn book_ok(b: BookView) -> bool {
    &&& b.next_id >= 1
    &&& side_ok(b.asks, BidOrAsk::Ask, b.next_id)
    &&& side_ok(b.bids, BidOrAsk::Bid, b.next_id)
    &&& uncrossed(b)
}

/// Every resting bid price is strictly below every resting ask price.
pub open spec fn uncrossed(b: BookView) -> bool {
    forall|i: int, j: int|
        0 <= i < b.bids.len() && 0 <= j < b.asks.len() ==> #[trigger] b.bids[i].price
            < #[trigger] b.asks[j].price
}

/// The levels of one side of a book.
pub open spec fn levels_of(b: BookView, side: BidOrAsk) -> Seq<LevelView> {
    if side == BidOrAsk::Bid {
        b.bids
    } else {
        b.asks
    }
}

/// Total quantity resting in a book.
pub open spec fn book_qty(b: BookView) -> nat {
    levels_qty(b.asks) + levels_qty(b.bids)
}

/// One submission of `qty` units of `side` at limit `price`: the book after
/// it and the events it gives.
pub open spec fn submit_spec(b: BookView, side: BidOrAsk, price: u64, qty: u64) -> (BookView, Seq<MatchEvent>) {
    let taker = b.next_id as u64;
    let opp = if side == BidOrAsk::Bid { b.asks } else { b.bids };
    let own = if side == BidOrAsk::Bid { b.bids } else { b.asks };
    let (opp2, evs, left) = sweep_spec(opp, side, taker, price, qty as nat);
    let own2 = if left > 0 {
        rest_spec(own, side, Order { size: left as u64, bid_or_ask: side, id: taker }, price)
    } else {
        own
    };
    let events = if left > 0 {
        evs.push(MatchEvent::Maker { id: taker, price, qty: left as u64, side })
    } else {
        evs
    };
    let nb = if side == BidOrAsk::Bid {
        BookView { asks: opp2, bids: own2, next_id: b.next_id + 1 }
    } else {
        BookView { asks: own2, bids: opp2, next_id: b.next_id + 1 }
    };
    (nb, events)
}

/// A submission keeps the book well formed; in particular no bid is left at
/// or above an ask.
pub proof fn lemma_submit_keeps_book_ok(b: BookView, side: BidOrAsk, price: u64, qty: u64)
    requires
        book_ok(b),
        b.next_id < u64::MAX,
    ensures
        book_ok(submit_spec(b, side, price, qty).0),
{
    lemma_submit(b, side, price, qty);
}

/// Quantity is conserved: what rests after a submission, plus twice what it
/// traded (once from the resting side, once from the taker), equals what
/// rested before plus the quantity submitted.
pub proof fn lemma_quantity_conservation(b: BookView, side: BidOrAsk, price: u64, qty: u64)
    requires
        book_ok(b),
        b.next_id < u64::MAX,
    ensures
        ({
            let (nb, evs) = submit_spec(b, side, price, qty);
            book_qty(nb) + 2 * traded(evs) == book_qty(b) + qty
        }),
{
    lemma_submit(b, side, price, qty);
}

proof fn lemma_submit(b: BookView, side: BidOrAsk, price: u64, qty: u64)
    requires
        book_ok(b),
        b.next_id < u64::MAX,
    ensures
        book_ok(submit_spec(b, side, price, qty).0),
        ({
            let (nb, evs) = submit_spec(b, side, price, qty);
            book_qty(nb) + 2 * traded(evs) == book_qty(b) + qty
        }),
{
    let taker = b.next_id as u64;
    let bound = b.next_id;
    let opp = if side == BidOrAsk::Bid { b.asks } else { b.bids };
    let own = if side == BidOrAsk::Bid { b.bids } else { b.asks };
    let (opp2, evs, left) = sweep_spec(opp, side, taker, price, qty as nat);
    lemma_sweep(opp, side, taker, price, qty as nat, bound);
    let d = opp.len() - opp2.len();
    let o = Order { size: left as u64, bid_or_ask: side, id: taker };
    let (nb, events) = submit_spec(b, side, price, qty);
    assert forall|i: int| 0 <= i < opp2.len() implies level_ok(#[trigger] opp2[i], opposite(side), bound + 1) by {
        assert(level_ok(opp2[i], opposite(side), bound));
    }
    // every level left on the opposite side was there before, in order
    assert forall|i: int| 0 <= i < opp2.len() implies #[trigger] opp2[i].price == opp[i + d].price by {
    }
    if left > 0 {
        lemma_rest(own, side, o, price, bound);
        lemma_traded_concat(evs, seq![MatchEvent::Maker { id: taker, price, qty: left as u64, side }]);
        reveal_with_fuel(traded, 2);
        assert(seq![MatchEvent::Maker { id: taker, price, qty: left as u64, side }].drop_last()
            =~= Seq::<MatchEvent>::empty());
        assert(evs.push(MatchEvent::Maker { id: taker, price, qty: left as u64, side }) =~= evs + seq![MatchEvent::Maker { id: taker, price, qty: left as u64, side }]);
        let own2 = rest_spec(own, side, o, price);
        assert(uncrossed(nb)) by {
            assert forall|i: int, j: int| 0 <= i < nb.bids.len() && 0 <= j < nb.asks.len() implies #[trigger] nb.bids[i].price
                < #[trigger] nb.asks[j].price by {
                if side == BidOrAsk::Bid {
                    assert(own2[i].price == price || has_price(own, own2[i].price));
                    if own2[i].price == price {
                        if j > 0 {
                            assert(better(BidOrAsk::Ask, opp2[0].price, opp2[j].price));
                        }
                    } else {
                        let w = choose|w: int| 0 <= w < own.len() && own[w].price == own2[i].price;
                        assert(b.bids[w].price < b.asks[j + d].price);
                    }
                } else {
                    assert(own2[j].price == price || has_price(own, own2[j].price));
                    if own2[j].price == price {
                        if i > 0 {
                            assert(better(BidOrAsk::Bid, opp2[0].price, opp2[i].price));
                        }
                    } else {
                        let w = choose|w: int| 0 <= w < own.len() && own[w].price == own2[j].price;
                        assert(b.bids[i + d].price < b.asks[w].price);
                    }
                }
            }
        }
    } else {
        assert forall|i: int| 0 <= i < own.len() implies level_ok(#[trigger] own[i], side, bound + 1) by {
            assert(level_ok(own[i], side, bound));
        }
        assert(uncrossed(nb)) by {
            assert forall|i: int, j: int| 0 <= i < nb.bids.len() && 0 <= j < nb.asks.len() implies #[trigger] nb.bids[i].price
                < #[trigger] nb.asks[j].price by {
                if side == BidOrAsk::Bid {
                    assert(b.bids[i].price < b.asks[j + d].price);
                } else {
                    assert(b.bids[i + d].price < b.asks[j].price);
                }
            }
        }
    }
}

/// The model of a side held as a vector of levels.
pub open spec fn levels_view(v: Seq<Limit>) -> Seq<LevelView> {
    v.map_values(|l: Limit| l@)
}

/// One order book: asks lowest price first, bids highest price first, and
/// the id the next submission takes.
#[derive(Debug)]
pub struct Orderbook {
    asks: Vec<Limit>,
    bids: Vec<Limit>,
    next_order_id: u64,
}

impl View for Orderbook {
    type V = BookView;

    closed spec fn view(&self) -> BookView {
        BookView {
            asks: levels_view(self.asks@),
            bids: levels_view(self.bids@),
            next_id: self.next_order_id as nat,
        }
    }
}

fn can_trade(side: BidOrAsk, limit: u64, level_price: u64) -> (r: bool)
    ensures
        r == crosses(side, limit, level_price),
{
    match side {
        BidOrAsk::Bid => level_price <= limit,
        BidOrAsk::Ask => level_price >= limit,
    }
}

fn is_better(side: BidOrAsk, a: u64, b: u64) -> (r: bool)
    ensures
        r == better(side, a, b),
{
    match side {
        BidOrAsk::Bid => a > b,
        BidOrAsk::Ask => a < b,
    }
}

/// Sweeps the opposite side `levels` with a taker, appending the trades to
/// `events`; returns the quantity left unfilled.
fn sweep(
    levels: &mut Vec<Limit>,
    side: BidOrAsk,
    taker: u64,
    limit: u64,
    qty: u64,
    events: &mut Vec<MatchEvent>,
) -> (left: u64)
    requires
        forall|i: int|
            0 <= i < levels_view(old(levels)@).len() ==> sizes_positive(
                #[trigger] levels_view(old(levels)@)[i].orders,
            ),
    ensures
        ({
            let (r, evs, q) = sweep_spec(levels_view(old(levels)@), side, taker, limit, qty as nat);
            &&& levels_view(final(levels)@) == r
            &&& final(events)@ == old(events)@ + evs
            &&& left as nat == q
        }),
{
    let ghost orig = levels_view(levels@);
    let ghost ev0 = events@;
    let mut left: u64 = qty;
    while left > 0 && levels.len() > 0 && can_trade(side, limit, levels[0].price)
        invariant
            forall|i: int|
                0 <= i < levels_view(levels@).len() ==> sizes_positive(
                    #[trigger] levels_view(levels@)[i].orders,
                ),
            left <= qty,
            ({
                let (r, evs, q) = sweep_spec(orig, side, taker, limit, qty as nat);
                let (r2, e2, q2) = sweep_spec(levels_view(levels@), side, taker, limit, left as nat);
                &&& r == r2
                &&& q == q2
                &&& ev0 + evs == events@ + e2
            }),
        decreases levels@.len() + left,
    {
        let ghost cur = levels_view(levels@);
        let ghost before = events@;
        assert(cur[0] == levels@[0]@);
        let mut lv = levels.remove(0);
        assert(levels_view(levels@) =~= cur.drop_first());
        proof {
            lemma_fill(cur[0].orders, taker, cur[0].price, left as nat);
        }
        let (m, mut evs) = lv.fill(taker, left);
        let ghost fe = evs@;
        left = left - m;
        events.append(&mut evs);
        if !lv.is_empty() {
            levels.insert(0, lv);
            let ghost nl = LevelView { price: cur[0].price, orders: lv@.orders };
            assert(levels_view(levels@) =~= cur.update(0, nl));
            assert forall|i: int|
                0 <= i < levels_view(levels@).len() implies sizes_positive(
                #[trigger] levels_view(levels@)[i].orders,
            ) by {
                if i == 0 {
                    let d = cur[0].orders.len() - lv@.orders.len();
                    assert forall|k: int| 0 <= k < lv@.orders.len() implies #[trigger] lv@.orders[k].size > 0 by {
                        if k > 0 {
                            assert(lv@.orders[k] == cur[0].orders[k + d]);
                        }
                    }
                } else {
                    assert(levels_view(levels@)[i] == cur[i]);
                }
            }
            assert(events@ + Seq::<MatchEvent>::empty() =~= before + fe);
        } else {
            assert forall|i: int|
                0 <= i < levels_view(levels@).len() implies sizes_positive(
                #[trigger] levels_view(levels@)[i].orders,
            ) by {
                assert(levels_view(levels@)[i] == cur[i + 1]);
            }
            let ghost rest = sweep_spec(cur.drop_first(), side, taker, limit, left as nat);
            assert(before + (fe + rest.1) =~= events@ + rest.1);
        }
    }
    left
}

/// Rests `order` at `price` on its own side `levels`.
fn rest(levels: &mut Vec<Limit>, side: BidOrAsk, order: Order, price: u64)
    ensures
        levels_view(final(levels)@) == rest_spec(levels_view(old(levels)@), side, order, price),
{
    let ghost lv0 = levels_view(levels@);
    let mut i: usize = 0;
    while i < levels.len() && is_better(side, levels[i].price, price)
        invariant
            i <= levels.len(),
            levels@ == old(levels)@,
            lv0 == levels_view(levels@),
            forall|j: int| 0 <= j < i ==> better(side, #[trigger] lv0[j].price, price),
        decreases levels.len() - i,
    {
        i = i + 1;
    }
    proof {
        lemma_insert_pos_exact(lv0, side, price, i as int);
    }
    if i < levels.len() && levels[i].price == price {
        let mut lv = levels.remove(i);
        lv.add_order(order);
        levels.insert(i, lv);
        assert(levels_view(levels@) =~= lv0.update(
            i as int,
            LevelView { price, orders: lv0[i as int].orders.push(order) },
        ));
    } else {
        let mut lv = Limit::new(price);
        lv.add_order(order);
        assert(lv@.orders =~= seq![order]);
        levels.insert(i, lv);
        assert(levels_view(levels@) =~= lv0.insert(i as int, LevelView { price, orders: seq![order] }));
    }
}

impl Orderbook {
    /// The book is well formed.
    pub open spec fn wf(&self) -> bool {
        book_ok(self@)
    }

    /// An empty book whose first order takes id 1.
    pub fn new() -> (r: Orderbook)
        ensures
            r.wf(),
            r@.asks.len() == 0,
            r@.bids.len() == 0,
            r@.next_id == 1,
    {
        let r = Orderbook { asks: Vec::new(), bids: Vec::new(), next_order_id: 1 };
        assert(r@.asks =~= Seq::<LevelView>::empty());
        assert(r@.bids =~= Seq::<LevelView>::empty());
        r
    }

    /// The level at `price` on `side`, if there is one.
    pub fn level(&self, side: BidOrAsk, price: u64) -> (r: Option<&Limit>)
        ensures
            ({
                let levels = levels_of(self@, side);
                match r {
                    Some(l) => l@.price == price && exists|j: int|
                        0 <= j < levels.len() && levels[j] == l@,
                    None => !has_price(levels, price),
                }
            }),
    {
        let levels = match side {
            BidOrAsk::Bid => &self.bids,
            BidOrAsk::Ask => &self.asks,
        };
        let mut i: usize = 0;
        while i < levels.len()
            invariant
                i <= levels.len(),
                levels_view(levels@) == if side == BidOrAsk::Bid { self@.bids } else { self@.asks },
                forall|j: int| 0 <= j < i ==> (#[trigger] levels@[j]).price != price,
            decreases levels.len() - i,
        {
            if levels[i].price == price {
                let l = &levels[i];
                assert(levels_of(self@, side)[i as int] == l@);
                assert(exists|j: int| 0 <= j < levels_of(self@, side).len() && levels_of(self@, side)[j] == l@);
                return Some(l);
            }
            i = i + 1;
        }
        assert forall|j: int| 0 <= j < levels.len() implies levels_view(levels@)[j].price != price by {
            assert(levels_view(levels@)[j] == levels@[j]@);
        }
        None
    }

    /// The id the next submission takes.
    pub fn next_order_id(&self) -> (r: u64)
        ensures
            r as nat == self@.next_id,
    {
        self.next_order_id
    }

    /// Submits `qty` units of `side` at limit `price`: takes the next id,
    /// trades against the opposite side best price first and oldest order
    /// first while prices cross, and rests what is left on its own side.
    pub fn execute_limit_order(&mut self, side: BidOrAsk, price: u64, qty: u64) -> (r: MatchResult)
        requires
            old(self).wf(),
            old(self)@.next_id < u64::MAX,
        ensures
            final(self).wf(),
            final(self)@ == submit_spec(old(self)@, side, price, qty).0,
            r.events@ == submit_spec(old(self)@, side, price, qty).1,
    {
        let ghost b = self@;
        proof {
            lemma_submit(b, side, price, qty);
        }
        let taker = self.next_order_id;
        self.next_order_id = taker + 1;
        let mut events: Vec<MatchEvent> = Vec::new();
        assert forall|i: int| 0 <= i < b.asks.len() implies sizes_positive(#[trigger] b.asks[i].orders) by {
            assert(level_ok(b.asks[i], BidOrAsk::Ask, b.next_id));
        }
        assert forall|i: int| 0 <= i < b.bids.len() implies sizes_positive(#[trigger] b.bids[i].orders) by {
            assert(level_ok(b.bids[i], BidOrAsk::Bid, b.next_id));
        }
        let left = match side {
            BidOrAsk::Bid => sweep(&mut self.asks, side, taker, price, qty, &mut events),
            BidOrAsk::Ask => sweep(&mut self.bids, side, taker, price, qty, &mut events),
        };
        let ghost sw = sweep_spec(
            if side == BidOrAsk::Bid { b.asks } else { b.bids },
            side,
            taker,
            price,
            qty as nat,
        );
        assert(events@ =~= sw.1);
        if left > 0 {
            events.push(MatchEvent::Maker { id: taker, price, qty: left, side });
            let order = Order { size: left, bid_or_ask: side, id: taker };
            match side {
                BidOrAsk::Bid => rest(&mut self.bids, side, order, price),
                BidOrAsk::Ask => rest(&mut self.asks, side, order, price),
            }
        }
        assert(self@ == submit_spec(b, side, price, qty).0);
        MatchResult { events }
    }
}

/// Price priority: every trade of a submission crosses its limit, trades come
/// best price first, and no level better than a traded price is left on the
/// opposite side, so a better level is used up before a worse one is touched.
pub proof fn lemma_price_priority(b: BookView, side: BidOrAsk, price: u64, qty: u64)
    requires
        book_ok(b),
        b.next_id < u64::MAX,
    ensures
        ({
            let (nb, evs) = submit_spec(b, side, price, qty);
            let opp_after = levels_of(nb, opposite(side));
            &&& forall|k: int|
                0 <= k < evs.len() && (#[trigger] evs[k]) is Trade ==> crosses(
                    side,
                    price,
                    event_price(evs[k]),
                ) && forall|i: int|
                    0 <= i < opp_after.len() ==> !better(
                        opposite(side),
                        #[trigger] opp_after[i].price,
                        event_price(evs[k]),
                    )
            &&& forall|k: int, m: int|
                0 <= k < m < evs.len() && evs[k] is Trade && evs[m] is Trade ==> !better(
                    opposite(side),
                    event_price(#[trigger] evs[m]),
                    event_price(#[trigger] evs[k]),
                )
        }),
{
    let taker = b.next_id as u64;
    let opp = if side == BidOrAsk::Bid { b.asks } else { b.bids };
    let (opp2, sevs, left) = sweep_spec(opp, side, taker, price, qty as nat);
    lemma_sweep(opp, side, taker, price, qty as nat, b.next_id);
    let (nb, evs) = submit_spec(b, side, price, qty);
    assert forall|k: int| 0 <= k < evs.len() && (#[trigger] evs[k]) is Trade implies k < sevs.len() && evs[k] == sevs[k] by {
    }
}

/// Time priority within a level: trades take the resting orders oldest first,
/// so makers come in increasing id order; the orders left keep their places,
/// a partly filled one staying at the front.
pub proof fn lemma_time_priority(l: LevelView, side: BidOrAsk, bound: nat, taker: u64, qty: nat)
    requires
        level_ok(l, side, bound),
    ensures
        ({
            let (rest, evs) = fill_spec(l.orders, taker, l.price, qty);
            let d = l.orders.len() - rest.len();
            &&& forall|k: int| 0 <= k < evs.len() ==> trade_by(#[trigger] evs[k], l.orders[k].id, taker, l.price)
            &&& forall|k: int, m: int| 0 <= k < m < evs.len() ==> l.orders[k].id < l.orders[m].id
            &&& forall|i: int| 0 < i < rest.len() ==> #[trigger] rest[i] == l.orders[i + d]
            &&& rest.len() > 0 ==> rest[0].id == l.orders[d].id
            &&& forall|i: int, k: int| 0 <= i < rest.len() && 0 <= k < evs.len() ==> (#[trigger] l.orders[k]).id <= (#[trigger] rest[i]).id
        }),
{
    lemma_fill(l.orders, taker, l.price, qty);
    let (rest, evs) = fill_spec(l.orders, taker, l.price, qty);
    let d = l.orders.len() - rest.len();
    assert forall|i: int, k: int| 0 <= i < rest.len() && 0 <= k < evs.len() implies (#[trigger] l.orders[k]).id <= (#[trigger] rest[i]).id by {
        if i > 0 {
            assert(rest[i] == l.orders[i + d]);
        }
        if k < i + d {
            assert(l.orders[k].id < l.orders[i + d].id);
        }
    }
    assert forall|k: int, m: int| 0 <= k < m < evs.len() implies l.orders[k].id < l.orders[m].id by {
        assert(l.orders[k].id < l.orders[m].id);
    }
}

/// A sequence of submissions applied in order to `b`: the book after the
/// last one and the total quantity traded on the way.
pub open spec fn run_spec(b: BookView, subs: Seq<(BidOrAsk, u64, u64)>) -> (BookView, nat)
    decreases subs.len(),
{
    if subs.len() == 0 {
        (b, 0)
    } else {
        let (side, price, qty) = subs[0];
        let (b1, evs) = submit_spec(b, side, price, qty);
        let (bn, t) = run_spec(b1, subs.drop_first());
        (bn, traded(evs) + t)
    }
}

/// Total quantity of a sequence of submissions.
pub open spec fn submitted(subs: Seq<(BidOrAsk, u64, u64)>) -> nat
    decreases subs.len(),
{
    if subs.len() == 0 {
        0
    } else {
        subs[0].2 as nat + submitted(subs.drop_first())
    }
}

/// Over any sequence of submissions the book stays well formed, never
/// crossed, and what rests plus twice what traded equals what rested before
/// plus everything submitted.
pub proof fn lemma_run(b: BookView, subs: Seq<(BidOrAsk, u64, u64)>)
    requires
        book_ok(b),
        b.next_id + subs.len() < u64::MAX,
    ensures
        ({
            let (bn, t) = run_spec(b, subs);
            &&& book_ok(bn)
            &&& book_qty(bn) + 2 * t == book_qty(b) + submitted(subs)
        }),
    decreases subs.len(),
{
    if subs.len() > 0 {
        let (side, price, qty) = subs[0];
        lemma_submit(b, side, price, qty);
        let (b1, evs) = submit_spec(b, side, price, qty);
        lemma_run(b1, subs.drop_first());
    }
}

pub proof fn lemma_traded_concat(a: Seq<MatchEvent>, b: Seq<MatchEvent>)
    ensures
        traded(a + b) == traded(a) + traded(b),
    decreases b.len(),
{
    if b.len() == 0 {
        assert(a + b =~= a);
    } else {
        lemma_traded_concat(a, b.drop_last());
        assert((a + b).drop_last() =~= a + b.drop_last());
    }
}

/// Facts about one level's fill: quantity is conserved, the fill stops only
/// when the taker is done or the queue is empty, and the queue keeps its order.
pub proof fn lemma_fill(orders: Seq<Order>, taker: u64, price: u64, qty: nat)
    requires
        forall|i: int| 0 <= i < orders.len() ==> #[trigger] orders[i].size > 0,
    ensures
        ({
            let (rest, evs) = fill_spec(orders, taker, price, qty);
            let d = orders.len() - rest.len();
            &&& traded(evs) <= qty
            &&& queue_qty(rest) + traded(evs) == queue_qty(orders)
            &&& rest.len() > 0 ==> traded(evs) == qty
            &&& rest.len() <= orders.len()
            &&& d <= evs.len() <= d + 1
            &&& evs.len() <= orders.len()
            &&& forall|i: int| 0 < i < rest.len() ==> #[trigger] rest[i] == orders[i + d]
            &&& rest.len() > 0 ==> rest[0].id == orders[d].id && rest[0].bid_or_ask
                == orders[d].bid_or_ask && 0 < rest[0].size <= orders[d].size
            &&& rest.len() > 0 && evs.len() == d ==> rest[0] == orders[d]
            &&& forall|k: int|
                0 <= k < evs.len() ==> trade_by(#[trigger] evs[k], orders[k].id, taker, price)
        }),
    decreases orders.len(),
{
    let (rest, evs) = fill_spec(orders, taker, price, qty);
    if qty == 0 || orders.len() == 0 {
    } else {
        let o = orders[0];
        let t = MatchEvent::Trade { maker_id: o.id, taker_id: taker, price, qty: qty as u64 };
        if qty < o.size {
            reveal_with_fuel(traded, 2);
            assert(seq![t].drop_last() =~= Seq::<MatchEvent>::empty());
            assert((seq![Order { size: (o.size - qty) as u64, ..o }] + orders.drop_first()).drop_first()
                =~= orders.drop_first());
            reveal_with_fuel(queue_qty, 2);
        } else {
            let tail = orders.drop_first();
            let (r2, e2) = fill_spec(tail, taker, price, (qty - o.size) as nat);
            lemma_fill(tail, taker, price, (qty - o.size) as nat);
            let t2 = MatchEvent::Trade { maker_id: o.id, taker_id: taker, price, qty: o.size };
            lemma_traded_concat(seq![t2], e2);
            reveal_with_fuel(traded, 2);
            assert(seq![t2].drop_last() =~= Seq::<MatchEvent>::empty());
            assert forall|k: int| 0 <= k < evs.len() implies trade_by(#[trigger] evs[k], orders[k].id, taker, price) by {
                if k > 0 {
                    assert(evs[k] == e2[k - 1]);
                    assert(orders[k] == tail[k - 1]);
                }
            }
            assert forall|i: int| 0 < i < rest.len() implies #[trigger] rest[i] == orders[i + (orders.len() - rest.len())] by {
                assert(rest[i] == tail[i + (tail.len() - r2.len())]);
            }
        }
    }
}

} // verus!
