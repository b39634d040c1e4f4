//! The central limit order book: two price-indexed sides of FIFO levels, an
//! order-id index for cancellation, and the price-time-priority matcher.

use vstd::prelude::*;

use crate::order::{Order, OrderFill};

verus! {

/// The FIFO queue of orders at one price on one side. The head (index 0) is
/// the oldest order; matching consumes from the head.
pub struct Level {
    pub px: u64,
    pub orders: Vec<Order>,
}

/// The mathematical value of a [`Level`].
#[verifier::ext_equal]
pub struct LevelView {
    pub px: u64,
    pub orders: Seq<Order>,
}

impl View for Level {
    type V = LevelView;

    open spec fn view(&self) -> LevelView {
        LevelView { px: self.px, orders: self.orders@ }
    }
}

/// The mathematical value of the book: both sides, best price first.
#[verifier::ext_equal]
pub struct BookView {
    pub bids: Seq<LevelView>,
    pub asks: Seq<LevelView>,
}

/// The error of a cancellation whose order id rests nowhere in the book.
#[derive(Clone, Copy, PartialEq, Eq, Structural, Debug)]
pub enum BookError {
    OidNotFound,
}

/// The order book. Both sides keep their best price at index 0: bids are
/// sorted by strictly descending price, asks by strictly ascending price.
/// `oid_to_level` maps each resting order id to its level's price.
pub struct OrderBook {
    pub bids: Vec<Level>,
    pub asks: Vec<Level>,
    pub oid_to_level: Vec<(u64, u64)>,
}

/// The level values of one side.
pub open spec fn views(s: Seq<Level>) -> Seq<LevelView> {
    s.map_values(|l: Level| l@)
}

impl View for OrderBook {
    type V = BookView;

    open spec fn view(&self) -> BookView {
        BookView { bids: views(self.bids@), asks: views(self.asks@) }
    }
}

/// A well-formed level is non-empty and all its orders carry the level's
/// price, the side's direction, and a positive size.
pub open spec fn level_wf(l: LevelView, is_bid: bool) -> bool {
    &&& l.orders.len() > 0
    &&& forall|j: int|
        0 <= j < l.orders.len() ==> {
            &&& (#[trigger] l.orders[j]).limit_px == l.px
            &&& l.orders[j].is_buy == is_bid
            &&& l.orders[j].sz > 0
        }
}

/// A well-formed side: strictly sorted best-first, every level well-formed.
pub open spec fn side_wf(s: Seq<LevelView>, is_bid: bool) -> bool {
    &&& forall|i: int, j: int|
        0 <= i < j < s.len() ==> (if is_bid {
            (#[trigger] s[i]).px > (#[trigger] s[j]).px
        } else {
            s[i].px < s[j].px
        })
    &&& forall|i: int| 0 <= i < s.len() ==> level_wf(#[trigger] s[i], is_bid)
}

/// True when some order of `s` has id `oid`.
pub open spec fn orders_has_oid(s: Seq<Order>, oid: u64) -> bool {
    exists|k: int| 0 <= k < s.len() && (#[trigger] s[k]).oid == oid
}

/// True when some level of the side holds an order with id `oid`.
pub open spec fn side_has_oid(s: Seq<LevelView>, oid: u64) -> bool {
    exists|i: int, j: int|
        0 <= i < s.len() && 0 <= j < s[i].orders.len() && (#[trigger] s[i].orders[j]).oid == oid
}

/// True when a level priced `px` on the side holds an order with id `oid`.
pub open spec fn side_pair(s: Seq<LevelView>, oid: u64, px: u64) -> bool {
    exists|i: int, j: int|
        0 <= i < s.len() && 0 <= j < s[i].orders.len() && (#[trigger] s[i].orders[j]).oid == oid
            && s[i].px == px
}

/// True when the book holds an order with id `oid`.
pub open spec fn book_has_oid(v: BookView, oid: u64) -> bool {
    side_has_oid(v.bids, oid) || side_has_oid(v.asks, oid)
}

/// True when the book holds an order with id `oid` at a level priced `px`.
pub open spec fn book_pair(v: BookView, oid: u64, px: u64) -> bool {
    side_pair(v.bids, oid, px) || side_pair(v.asks, oid, px)
}

/// No order id repeats anywhere on the side.
pub open spec fn side_oids_unique(s: Seq<LevelView>) -> bool {
    forall|i: int, j: int, p: int, q: int|
        0 <= i < s.len() && 0 <= j < s[i].orders.len() && 0 <= p < s.len() && 0 <= q
            < s[p].orders.len() && (i != p || j != q) ==> (#[trigger] s[i].orders[j]).oid != (
        #[trigger] s[p].orders[q]).oid
}

/// True when entry `(oid, px)` stands in the index.
pub open spec fn idx_pair(s: Seq<(u64, u64)>, oid: u64, px: u64) -> bool {
    exists|k: int| 0 <= k < s.len() && #[trigger] s[k] == (oid, px)
}

/// True when some entry of the index has key `oid`.
pub open spec fn idx_has(s: Seq<(u64, u64)>, oid: u64) -> bool {
    exists|k: int| 0 <= k < s.len() && (#[trigger] s[k]).0 == oid
}

/// No key repeats in the index.
pub open spec fn idx_keys_distinct(s: Seq<(u64, u64)>) -> bool {
    forall|i: int, j: int|
        0 <= i < j < s.len() ==> (#[trigger] s[i]).0 != (#[trigger] s[j]).0
}

impl OrderBook {
    /// The book invariant: both sides well-formed, no order id repeated,
    /// a non-crossed book, and the oid index in exact correspondence with
    /// the resting orders.
    pub open spec fn wf(&self) -> bool {
        &&& side_wf(self@.bids, true)
        &&& side_wf(self@.asks, false)
        &&& side_oids_unique(self@.bids)
        &&& side_oids_unique(self@.asks)
        &&& forall|oid: u64|
            !(#[trigger] side_has_oid(self@.bids, oid) && #[trigger] side_has_oid(
                self@.asks,
                oid,
            ))
        &&& (self@.bids.len() > 0 && self@.asks.len() > 0 ==> self@.bids[0].px < self@.asks[0].px)
        &&& idx_keys_distinct(self.oid_to_level@)
        &&& forall|k: int|
            0 <= k < self.oid_to_level@.len() ==> book_pair(
                self@,
                (#[trigger] self.oid_to_level@[k]).0,
                self.oid_to_level@[k].1,
            )
        &&& forall|oid: u64, px: u64|
            #[trigger] book_pair(self@, oid, px) ==> idx_pair(self.oid_to_level@, oid, px)
    }
}

/// The best bid price, with `0` as the empty-side sentinel.
pub open spec fn spec_bid_max(v: BookView) -> u64 {
    if v.bids.len() == 0 {
        0
    } else {
        v.bids[0].px
    }
}

/// The best ask price, with `u64::MAX` as the empty-side sentinel.
pub open spec fn spec_ask_min(v: BookView) -> u64 {
    if v.asks.len() == 0 {
        u64::MAX
    } else {
        v.asks[0].px
    }
}

/// True when a taker with this side and limit price crosses a level at
/// `level_px` on the opposite side.
pub open spec fn px_crosses(taker_is_buy: bool, limit_px: u64, level_px: u64) -> bool {
    if taker_is_buy {
        level_px <= limit_px
    } else {
        level_px >= limit_px
    }
}

/// The summed size of the first `k` orders of a level.
pub open spec fn sum_prefix(s: Seq<Order>, k: int) -> int
    decreases k,
{
    if k <= 0 {
        0
    } else {
        sum_prefix(s, k - 1) + s[k - 1].sz
    }
}

/// How many orders at the head of the level an incoming amount consumes
/// completely.
pub open spec fn complete_count(s: Seq<Order>, amount: int) -> int
    decreases s.len(),
{
    if s.len() == 0 || s[0].sz > amount {
        0
    } else {
        1 + complete_count(s.skip(1), amount - s[0].sz)
    }
}

/// The taker amount left over after consuming this level.
pub open spec fn level_rem_after(s: Seq<Order>, amount: int) -> int {
    let k = complete_count(s, amount);
    if k == s.len() {
        amount - sum_prefix(s, k)
    } else {
        0
    }
}

/// The size taken from the first incompletely consumed order, if any.
pub open spec fn partial_sz(s: Seq<Order>, amount: int) -> int {
    let k = complete_count(s, amount);
    if k < s.len() {
        amount - sum_prefix(s, k)
    } else {
        0
    }
}

/// The level's orders after consumption: the complete prefix is gone and the
/// next order, if any, has its size reduced in place.
pub open spec fn level_orders_after(s: Seq<Order>, amount: int) -> Seq<Order> {
    let k = complete_count(s, amount);
    if k == s.len() {
        Seq::<Order>::empty()
    } else {
        let rest = s.skip(k);
        rest.update(
            0,
            Order {
                is_buy: rest[0].is_buy,
                limit_px: rest[0].limit_px,
                sz: (rest[0].sz - partial_sz(s, amount)) as u64,
                oid: rest[0].oid,
            },
        )
    }
}

/// One fill per completely consumed maker, each with the maker's full size.
pub open spec fn complete_fills(s: Seq<Order>, taker_oid: u64) -> Seq<OrderFill> {
    s.map_values(|o: Order| OrderFill { maker_oid: o.oid, taker_oid, sz: o.sz })
}

/// The fills emitted while consuming this level: one per complete maker with
/// the maker's full size, then one for the partial maker if any size was
/// taken from it.
pub open spec fn level_fills(s: Seq<Order>, amount: int, taker_oid: u64) -> Seq<OrderFill> {
    let k = complete_count(s, amount);
    let complete = complete_fills(s.take(k), taker_oid);
    if k < s.len() && partial_sz(s, amount) > 0 {
        complete.push(
            OrderFill { maker_oid: s[k].oid, taker_oid, sz: partial_sz(s, amount) as u64 },
        )
    } else {
        complete
    }
}

/// Matching a taker amount against one side, best level first: the side
/// afterwards, the remaining amount, and the fills in emission order.
pub open spec fn match_side(
    levels: Seq<LevelView>,
    taker_is_buy: bool,
    limit_px: u64,
    amount: int,
    taker_oid: u64,
) -> (Seq<LevelView>, int, Seq<OrderFill>)
    decreases levels.len(),
{
    if amount <= 0 || levels.len() == 0 || !px_crosses(taker_is_buy, limit_px, levels[0].px) {
        (levels, amount, Seq::<OrderFill>::empty())
    } else {
        let orders2 = level_orders_after(levels[0].orders, amount);
        let rem1 = level_rem_after(levels[0].orders, amount);
        let fl1 = level_fills(levels[0].orders, amount, taker_oid);
        if orders2.len() == 0 {
            let r = match_side(levels.skip(1), taker_is_buy, limit_px, rem1, taker_oid);
            (r.0, r.1, fl1 + r.2)
        } else {
            (
                seq![LevelView { px: levels[0].px, orders: orders2 }] + levels.skip(1),
                rem1,
                fl1,
            )
        }
    }
}

/// Resting an order on its own side: append to the tail of its price level,
/// or create the level at its sorted position.
pub open spec fn side_enqueue(s: Seq<LevelView>, o: Order, is_bid: bool) -> Seq<LevelView>
    decreases s.len(),
{
    if s.len() == 0 {
        seq![LevelView { px: o.limit_px, orders: seq![o] }]
    } else if s[0].px == o.limit_px {
        seq![LevelView { px: s[0].px, orders: s[0].orders.push(o) }] + s.skip(1)
    } else if (if is_bid {
        s[0].px > o.limit_px
    } else {
        s[0].px < o.limit_px
    }) {
        seq![s[0]] + side_enqueue(s.skip(1), o, is_bid)
    } else {
        seq![LevelView { px: o.limit_px, orders: seq![o] }] + s
    }
}

/// The orders of a level with every order named `oid` removed.
pub open spec fn orders_without(s: Seq<Order>, oid: u64) -> Seq<Order>
    decreases s.len(),
{
    if s.len() == 0 {
        Seq::<Order>::empty()
    } else if s[0].oid == oid {
        orders_without(s.skip(1), oid)
    } else {
        seq![s[0]] + orders_without(s.skip(1), oid)
    }
}

/// A side with every order named `oid` removed and emptied levels dropped.
pub open spec fn side_without(s: Seq<LevelView>, oid: u64) -> Seq<LevelView>
    decreases s.len(),
{
    if s.len() == 0 {
        Seq::<LevelView>::empty()
    } else {
        let l = LevelView { px: s[0].px, orders: orders_without(s[0].orders, oid) };
        let rest = side_without(s.skip(1), oid);
        if l.orders.len() == 0 {
            rest
        } else {
            seq![l] + rest
        }
    }
}

/// The book after matching a taker against the opposite side.
pub open spec fn book_match(v: BookView, o: Order) -> (BookView, int, Seq<OrderFill>) {
    if o.is_buy {
        let r = match_side(v.asks, true, o.limit_px, o.sz as int, o.oid);
        (BookView { bids: v.bids, asks: r.0 }, r.1, r.2)
    } else {
        let r = match_side(v.bids, false, o.limit_px, o.sz as int, o.oid);
        (BookView { bids: r.0, asks: v.asks }, r.1, r.2)
    }
}

/// The book after a whole `limit` call: match first, then rest the residual
/// on the taker's own side.
pub open spec fn book_limit(v: BookView, o: Order) -> (BookView, int, Seq<OrderFill>) {
    let r = book_match(v, o);
    let v2 = r.0;
    let rem = r.1;
    if rem > 0 {
        let o2 = Order { is_buy: o.is_buy, limit_px: o.limit_px, sz: rem as u64, oid: o.oid };
        if o.is_buy {
            (BookView { bids: side_enqueue(v2.bids, o2, true), asks: v2.asks }, rem, r.2)
        } else {
            (BookView { bids: v2.bids, asks: side_enqueue(v2.asks, o2, false) }, rem, r.2)
        }
    } else {
        r
    }
}

proof fn lemma_sum_prefix_skip(s: Seq<Order>, m: int)
    requires
        1 <= m <= s.len(),
    ensures
        sum_prefix(s, m) == s[0].sz + sum_prefix(s.skip(1), m - 1),
    decreases m,
{
    if m == 1 {
        assert(sum_prefix(s, 1) == sum_prefix(s, 0) + s[0].sz);
        assert(sum_prefix(s.skip(1), 0) == 0);
    } else {
        lemma_sum_prefix_skip(s, m - 1);
        assert(s.skip(1)[m - 2] == s[m - 1]);
        assert(sum_prefix(s, m) == sum_prefix(s, m - 1) + s[m - 1].sz);
        assert(sum_prefix(s.skip(1), m - 1) == sum_prefix(s.skip(1), m - 2) + s.skip(1)[m
            - 2].sz);
    }
}

proof fn lemma_sum_prefix_mono(s: Seq<Order>, k1: int, k2: int)
    requires
        0 <= k1 <= k2,
    ensures
        sum_prefix(s, k1) <= sum_prefix(s, k2),
    decreases k2 - k1,
{
    if k1 < k2 {
        lemma_sum_prefix_mono(s, k1, k2 - 1);
    }
}

proof fn lemma_sum_prefix_take(s: Seq<Order>, k: int, m: int)
    requires
        0 <= m <= k <= s.len(),
    ensures
        sum_prefix(s.take(k), m) == sum_prefix(s, m),
    decreases m,
{
    if m > 0 {
        lemma_sum_prefix_take(s, k, m - 1);
        assert(s.take(k)[m - 1] == s[m - 1]);
    }
}

/// The defining bounds of `complete_count`: it never exceeds the level, its
/// prefix sum fits in the amount, and the next order (if any) is too large.
proof fn lemma_cc_props(s: Seq<Order>, a: int)
    requires
        a >= 0,
    ensures
        0 <= complete_count(s, a) <= s.len(),
        sum_prefix(s, complete_count(s, a)) <= a,
        complete_count(s, a) < s.len() ==> s[complete_count(s, a)].sz > a - sum_prefix(
            s,
            complete_count(s, a),
        ),
    decreases s.len(),
{
    if s.len() == 0 || s[0].sz > a {
    } else {
        lemma_cc_props(s.skip(1), a - s[0].sz);
        let k1 = complete_count(s.skip(1), a - s[0].sz);
        lemma_sum_prefix_skip(s, 1 + k1);
        if 1 + k1 < s.len() {
            assert(s.skip(1)[k1] == s[1 + k1]);
        }
    }
}

impl OrderBook {
    /// The best bid price, or `0` when no bid rests.
    pub fn bid_max(&self) -> (r: u64)
        ensures
            r == spec_bid_max(self@),
    {
        if self.bids.len() > 0 {
            let px = self.bids[0].px;
            proof {
                assert(self@.bids[0] == self.bids@[0]@);
            }
            px
        } else {
            0
        }
    }

    /// The best ask price, or `u64::MAX` when no ask rests.
    pub fn ask_min(&self) -> (r: u64)
        ensures
            r == spec_ask_min(self@),
    {
        if self.asks.len() > 0 {
            let px = self.asks[0].px;
            proof {
                assert(self@.asks[0] == self.asks@[0]@);
            }
            px
        } else {
            u64::MAX
        }
    }
}

impl Default for OrderBook {
    /// The empty book.
    fn default() -> (r: Self)
        ensures
            r.wf(),
            r@.bids.len() == 0,
            r@.asks.len() == 0,
            r.oid_to_level@.len() == 0,
    {
        let r = OrderBook { bids: Vec::new(), asks: Vec::new(), oid_to_level: Vec::new() };
        proof {
            assert forall|oid: u64, px: u64| #[trigger]
                book_pair(r@, oid, px) implies idx_pair(r.oid_to_level@, oid, px) by {
                assert(!side_pair(r@.bids, oid, px));
                assert(!side_pair(r@.asks, oid, px));
            }
        }
        r
    }
}

/// Consumes `amount` from the head of one price level, exactly as the
/// matcher does: whole orders leave from the head while they fit, and the
/// first order that does not fit shrinks in place. Returns the amount left
/// over and the completely consumed orders in queue order.
pub fn fill_at_price_level(level: &mut Vec<Order>, amount: u64) -> (r: (u64, Vec<Order>))
    ensures
        r.1@ == old(level)@.take(complete_count(old(level)@, amount as int)),
        final(level)@ == level_orders_after(old(level)@, amount as int),
        r.0 == level_rem_after(old(level)@, amount as int),
{
    let ghost s = level@;
    let ghost a = amount as int;
    proof {
        lemma_cc_props(s, a);
    }
    let n = level.len();
    let mut k: usize = 0;
    let mut remaining: u64 = amount;
    proof {
        assert(s.skip(0) =~= s);
    }
    while k < n && level[k].sz <= remaining
        invariant
            0 <= k <= n,
            n == level@.len(),
            level@ == s,
            remaining == a - sum_prefix(s, k as int),
            complete_count(s, a) == k + complete_count(s.skip(k as int), remaining as int),
        decreases n - k,
    {
        proof {
            let sk = s.skip(k as int);
            assert(sk[0] == s[k as int]);
            assert(sk.skip(1) =~= s.skip(k as int + 1));
            assert(complete_count(sk, remaining as int) == 1 + complete_count(
                s.skip(k as int + 1),
                remaining - s[k as int].sz,
            ));
        }
        remaining = remaining - level[k].sz;
        k = k + 1;
    }
    proof {
        let sk = s.skip(k as int);
        if k < n {
            assert(sk[0] == s[k as int]);
            assert(complete_count(sk, remaining as int) == 0);
        }
        assert(complete_count(s, a) == k as int);
    }
    let mut completes: Vec<Order> = Vec::new();
    let mut i: usize = 0;
    while i < k
        invariant
            0 <= i <= k <= n,
            n == level@.len(),
            level@ == s,
            completes@ == s.take(i as int),
        decreases k - i,
    {
        completes.push(level[i]);
        proof {
            assert(completes@ =~= s.take(i as int + 1));
        }
        i = i + 1;
    }
    let mut rest: Vec<Order> = Vec::new();
    if k < n {
        let head = level[k];
        let reduced = Order {
            is_buy: head.is_buy,
            limit_px: head.limit_px,
            sz: head.sz - remaining,
            oid: head.oid,
        };
        rest.push(reduced);
        let mut j: usize = k + 1;
        while j < n
            invariant
                k < n == level@.len(),
                level@ == s,
                k + 1 <= j <= n,
                rest@.len() == j - k,
                rest@[0] == (Order {
                    is_buy: s[k as int].is_buy,
                    limit_px: s[k as int].limit_px,
                    sz: (s[k as int].sz - (a - sum_prefix(s, k as int))) as u64,
                    oid: s[k as int].oid,
                }),
                forall|t: int| 1 <= t < rest@.len() ==> rest@[t] == s[k + t],
            decreases n - j,
        {
            rest.push(level[j]);
            j = j + 1;
        }
        proof {
            assert(partial_sz(s, a) == a - sum_prefix(s, k as int));
            assert(rest@ =~= level_orders_after(s, a));
        }
        *level = rest;
        (0, completes)
    } else {
        proof {
            assert(level_orders_after(s, a) =~= Seq::<Order>::empty());
        }
        *level = rest;
        (remaining, completes)
    }
}

/// The position of the entry with key `oid`, if one stands in the index.
fn index_find(s: &Vec<(u64, u64)>, oid: u64) -> (r: Option<usize>)
    ensures
        r is Some ==> 0 <= r->0 < s@.len() && (s@[r->0 as int]).0 == oid,
        r is None ==> !idx_has(s@, oid),
{
    let mut i: usize = 0;
    while i < s.len()
        invariant
            0 <= i <= s@.len(),
            forall|k: int| 0 <= k < i ==> (#[trigger] s@[k]).0 != oid,
        decreases s@.len() - i,
    {
        if s[i].0 == oid {
            return Some(i);
        }
        i = i + 1;
    }
    proof {
        assert(!idx_has(s@, oid)) by {
            if idx_has(s@, oid) {
                let k = choose|k: int| 0 <= k < s@.len() && (#[trigger] s@[k]).0 == oid;
                assert(s@[k].0 != oid);
            }
        }
    }
    None
}

/// One lookup of the index: the level price recorded for an order id.
fn index_get(s: &Vec<(u64, u64)>, oid: u64) -> (r: Option<u64>)
    ensures
        r is Some <==> idx_has(s@, oid),
        r is Some ==> idx_pair(s@, oid, r->0),
{
    match index_find(s, oid) {
        Some(j) => {
            let px = s[j].1;
            proof {
                assert(s@[j as int] == (oid, px));
            }
            Some(px)
        },
        None => None,
    }
}

/// Removes the entry with key `oid`, if one stands in the index.
fn index_remove(s: &mut Vec<(u64, u64)>, oid: u64)
    requires
        idx_keys_distinct(old(s)@),
    ensures
        idx_keys_distinct(final(s)@),
        forall|o: u64, p: u64| #[trigger]
            idx_pair(final(s)@, o, p) <==> (idx_pair(old(s)@, o, p) && o != oid),
{
    let ghost orig = s@;
    let pos = index_find(s, oid);
    match pos {
        Some(j) => {
            s.remove(j);
            proof {
                let now = s@;
                assert forall|t: int| 0 <= t < now.len() implies now[t] == (if t < j {
                    orig[t]
                } else {
                    orig[t + 1]
                }) by {}
                assert forall|t: int|
                    0 <= t < orig.len() && t != j implies (#[trigger] orig[t]).0 != oid by {
                    if t < j {
                        assert(orig[t].0 != orig[j as int].0);
                    } else {
                        assert(orig[j as int].0 != orig[t].0);
                    }
                }
                assert forall|o: u64, p: u64| #[trigger]
                    idx_pair(now, o, p) <==> (idx_pair(orig, o, p) && o != oid) by {
                    if idx_pair(now, o, p) {
                        let k = choose|k: int| 0 <= k < now.len() && #[trigger] now[k] == (o, p);
                        if k < j {
                            assert(orig[k] == (o, p));
                        } else {
                            assert(orig[k + 1] == (o, p));
                        }
                        assert(idx_pair(orig, o, p));
                        assert(o != oid);
                    }
                    if idx_pair(orig, o, p) && o != oid {
                        let k = choose|k: int| 0 <= k < orig.len() && #[trigger] orig[k] == (o, p);
                        assert(k != j);
                        if k < j {
                            assert(now[k] == (o, p));
                        } else {
                            assert(now[k - 1] == (o, p));
                        }
                        assert(idx_pair(now, o, p));
                    }
                }
            }
        },
        None => {
            proof {
                assert forall|o: u64, p: u64| #[trigger]
                    idx_pair(s@, o, p) <==> (idx_pair(orig, o, p) && o != oid) by {
                    if idx_pair(s@, o, p) && o == oid {
                        let k = choose|k: int| 0 <= k < orig.len() && #[trigger] orig[k] == (o, p);
                        assert(orig[k].0 == oid);
                        assert(idx_has(orig, oid));
                    }
                }
            }
        },
    }
}

/// Removes the index entries of every completely consumed maker.
fn index_remove_batch(s: &mut Vec<(u64, u64)>, dead: &Vec<Order>)
    requires
        idx_keys_distinct(old(s)@),
    ensures
        idx_keys_distinct(final(s)@),
        forall|o: u64, p: u64| #[trigger]
            idx_pair(final(s)@, o, p) <==> (idx_pair(old(s)@, o, p) && !orders_has_oid(
                dead@,
                o,
            )),
{
    let ghost orig = s@;
    let mut i: usize = 0;
    while i < dead.len()
        invariant
            0 <= i <= dead@.len(),
            idx_keys_distinct(s@),
            forall|o: u64, p: u64| #[trigger]
                idx_pair(s@, o, p) <==> (idx_pair(orig, o, p) && !orders_has_oid(
                    dead@.take(i as int),
                    o,
                )),
        decreases dead@.len() - i,
    {
        let ghost before = s@;
        index_remove(s, dead[i].oid);
        proof {
            assert forall|o: u64|
                orders_has_oid(dead@.take(i as int + 1), o) <==> (orders_has_oid(
                    dead@.take(i as int),
                    o,
                ) || dead@[i as int].oid == o) by {
                if orders_has_oid(dead@.take(i as int + 1), o) {
                    let k = choose|k: int|
                        0 <= k < dead@.take(i as int + 1).len() && (#[trigger] dead@.take(
                            i as int + 1,
                        )[k]).oid == o;
                    if k < i {
                        assert(dead@.take(i as int)[k].oid == o);
                    } else {
                        assert(dead@[i as int].oid == o);
                    }
                }
                if orders_has_oid(dead@.take(i as int), o) {
                    let k = choose|k: int|
                        0 <= k < dead@.take(i as int).len() && (#[trigger] dead@.take(
                            i as int,
                        )[k]).oid == o;
                    assert(dead@.take(i as int + 1)[k].oid == o);
                }
                if dead@[i as int].oid == o {
                    assert(dead@.take(i as int + 1)[i as int].oid == o);
                }
            }
            assert forall|o: u64, p: u64| #[trigger]
                idx_pair(s@, o, p) <==> (idx_pair(orig, o, p) && !orders_has_oid(
                    dead@.take(i as int + 1),
                    o,
                )) by {
                assert(idx_pair(s@, o, p) <==> (idx_pair(before, o, p) && o != dead@[
                    i as int].oid));
                assert(idx_pair(before, o, p) <==> (idx_pair(orig, o, p) && !orders_has_oid(
                    dead@.take(i as int),
                    o,
                )));
                assert(orders_has_oid(dead@.take(i as int + 1), o) <==> (orders_has_oid(
                    dead@.take(i as int),
                    o,
                ) || dead@[i as int].oid == o));
            }
        }
        i = i + 1;
    }
    proof {
        assert(dead@.take(dead@.len() as int) =~= dead@);
    }
}

/// True when `level_px` sorts strictly before `order_px` on this side.
pub open spec fn spec_px_better(level_px: u64, order_px: u64, is_bid: bool) -> bool {
    if is_bid {
        level_px > order_px
    } else {
        level_px < order_px
    }
}

fn px_better(level_px: u64, order_px: u64, is_bid: bool) -> (r: bool)
    ensures
        r == spec_px_better(level_px, order_px, is_bid),
{
    if is_bid {
        level_px > order_px
    } else {
        level_px < order_px
    }
}

/// Appending an order to the tail of its existing price level keeps the side
/// well-formed and adds exactly that order id.
proof fn lemma_side_update_props(s: Seq<LevelView>, s2: Seq<LevelView>, i: int, o: Order, is_bid: bool)
    requires
        side_wf(s, is_bid),
        side_oids_unique(s),
        !side_has_oid(s, o.oid),
        o.sz > 0,
        o.is_buy == is_bid,
        0 <= i < s.len(),
        s[i].px == o.limit_px,
        s2.len() == s.len(),
        forall|t: int| 0 <= t < s.len() && t != i ==> s2[t] == s[t],
        s2[i].px == s[i].px,
        s2[i].orders == s[i].orders.push(o),
    ensures
        side_wf(s2, is_bid),
        side_oids_unique(s2),
        forall|x: u64| #[trigger] side_has_oid(s2, x) <==> (side_has_oid(s, x) || x == o.oid),
        forall|x: u64, p: u64| #[trigger]
            side_pair(s2, x, p) <==> (side_pair(s, x, p) || (x == o.oid && p == o.limit_px)),
{
    let n0 = s[i].orders.len() as int;
    assert(s2[i].orders.len() == n0 + 1);
    assert(forall|j: int| 0 <= j < n0 ==> s2[i].orders[j] == s[i].orders[j]);
    assert(s2[i].orders[n0] == o);
    assert(side_wf(s2, is_bid)) by {
        assert(forall|t: int| 0 <= t < s2.len() ==> (#[trigger] s2[t]).px == s[t].px);
        assert forall|t: int| 0 <= t < s2.len() implies level_wf(#[trigger] s2[t], is_bid) by {
            if t != i {
                assert(s2[t] == s[t]);
            }
        }
    }
    assert forall|x: u64| #[trigger]
        side_has_oid(s2, x) <==> (side_has_oid(s, x) || x == o.oid) by {
        if side_has_oid(s2, x) {
            let (a, b) = choose|a: int, b: int|
                0 <= a < s2.len() && 0 <= b < s2[a].orders.len() && (#[trigger] s2[a].orders[b]).oid
                    == x;
            if a == i && b == n0 {
                assert(x == o.oid);
            } else if a == i {
                assert(s[i].orders[b].oid == x);
                assert(side_has_oid(s, x));
            } else {
                assert(s[a].orders[b].oid == x);
                assert(side_has_oid(s, x));
            }
        }
        if side_has_oid(s, x) {
            let (a, b) = choose|a: int, b: int|
                0 <= a < s.len() && 0 <= b < s[a].orders.len() && (#[trigger] s[a].orders[b]).oid
                    == x;
            assert(s2[a].orders[b].oid == x);
            assert(side_has_oid(s2, x));
        }
        if x == o.oid {
            assert(s2[i].orders[n0].oid == x);
            assert(side_has_oid(s2, x));
        }
    }
    assert forall|x: u64, p: u64| #[trigger]
        side_pair(s2, x, p) <==> (side_pair(s, x, p) || (x == o.oid && p == o.limit_px)) by {
        if side_pair(s2, x, p) {
            let (a, b) = choose|a: int, b: int|
                0 <= a < s2.len() && 0 <= b < s2[a].orders.len() && (#[trigger] s2[a].orders[b]).oid
                    == x && s2[a].px == p;
            if a == i && b == n0 {
                assert(x == o.oid && p == o.limit_px);
            } else if a == i {
                assert(s[i].orders[b].oid == x && s[i].px == p);
                assert(side_pair(s, x, p));
            } else {
                assert(s[a].orders[b].oid == x && s[a].px == p);
                assert(side_pair(s, x, p));
            }
        }
        if side_pair(s, x, p) {
            let (a, b) = choose|a: int, b: int|
                0 <= a < s.len() && 0 <= b < s[a].orders.len() && (#[trigger] s[a].orders[b]).oid
                    == x && s[a].px == p;
            assert(s2[a].orders[b].oid == x && s2[a].px == p);
            assert(side_pair(s2, x, p));
        }
        if x == o.oid && p == o.limit_px {
            assert(s2[i].orders[n0].oid == x && s2[i].px == p);
            assert(side_pair(s2, x, p));
        }
    }
    assert(side_oids_unique(s2)) by {
        assert forall|a: int, b: int, c: int, d: int|
            0 <= a < s2.len() && 0 <= b < s2[a].orders.len() && 0 <= c < s2.len() && 0 <= d
                < s2[c].orders.len() && (a != c || b != d) implies (#[trigger] s2[a].orders[b]).oid
            != (#[trigger] s2[c].orders[d]).oid by {
            if a == i && b == n0 {
                if c == i && d < n0 {
                    if s[i].orders[d].oid == o.oid {
                        assert(side_has_oid(s, o.oid));
                    }
                } else if c != i {
                    if s[c].orders[d].oid == o.oid {
                        assert(side_has_oid(s, o.oid));
                    }
                }
            } else if c == i && d == n0 {
                if a == i && b < n0 {
                    if s[i].orders[b].oid == o.oid {
                        assert(side_has_oid(s, o.oid));
                    }
                } else if a != i {
                    if s[a].orders[b].oid == o.oid {
                        assert(side_has_oid(s, o.oid));
                    }
                }
            } else {
                assert(s2[a].orders[b] == s[a].orders[b]);
                assert(s2[c].orders[d] == s[c].orders[d]);
            }
        }
    }
}

/// Inserting a fresh single-order level at its sorted position keeps the
/// side well-formed and adds exactly that order id.
proof fn lemma_side_insert_props(s: Seq<LevelView>, s2: Seq<LevelView>, i: int, o: Order, is_bid: bool)
    requires
        side_wf(s, is_bid),
        side_oids_unique(s),
        !side_has_oid(s, o.oid),
        o.sz > 0,
        o.is_buy == is_bid,
        0 <= i <= s.len(),
        forall|k: int| 0 <= k < i ==> spec_px_better((#[trigger] s[k]).px, o.limit_px, is_bid),
        i < s.len() ==> !spec_px_better(s[i].px, o.limit_px, is_bid) && s[i].px != o.limit_px,
        s2.len() == s.len() + 1,
        forall|t: int| 0 <= t < i ==> s2[t] == s[t],
        s2[i] == (LevelView { px: o.limit_px, orders: seq![o] }),
        forall|t: int| i < t < s2.len() ==> s2[t] == s[t - 1],
    ensures
        side_wf(s2, is_bid),
        side_oids_unique(s2),
        forall|x: u64| #[trigger] side_has_oid(s2, x) <==> (side_has_oid(s, x) || x == o.oid),
        forall|x: u64, p: u64| #[trigger]
            side_pair(s2, x, p) <==> (side_pair(s, x, p) || (x == o.oid && p == o.limit_px)),
{
    assert(s2[i].orders[0] == o);
    assert(side_wf(s2, is_bid)) by {
        assert forall|a: int, b: int| 0 <= a < b < s2.len() implies (if is_bid {
            (#[trigger] s2[a]).px > (#[trigger] s2[b]).px
        } else {
            s2[a].px < s2[b].px
        }) by {
            if a == i {
                assert(s2[b] == s[b - 1]);
                if b - 1 > i - 1 && i < s.len() {
                    if b - 1 == i {
                        assert(s2[b].px == s[i].px);
                    } else {
                        assert(s[i].px != o.limit_px);
                    }
                }
            } else if b == i {
                assert(s2[a] == s[a]);
            } else if a < i && b > i {
                assert(s2[a] == s[a] && s2[b] == s[b - 1]);
                if a <= b - 2 {
                } else {
                    assert(a == b - 1);
                    assert(spec_px_better(s[a].px, o.limit_px, is_bid));
                    assert(b - 1 == a && b > i && a < i);
                }
            } else if b < i {
                assert(s2[a] == s[a] && s2[b] == s[b]);
            } else {
                assert(s2[a] == s[a - 1] && s2[b] == s[b - 1]);
            }
        }
        assert forall|t: int| 0 <= t < s2.len() implies level_wf(#[trigger] s2[t], is_bid) by {
            if t < i {
                assert(s2[t] == s[t]);
            } else if t > i {
                assert(s2[t] == s[t - 1]);
            } else {
                assert(s2[i].orders.len() == 1);
            }
        }
    }
    assert forall|x: u64| #[trigger]
        side_has_oid(s2, x) <==> (side_has_oid(s, x) || x == o.oid) by {
        if side_has_oid(s2, x) {
            let (a, b) = choose|a: int, b: int|
                0 <= a < s2.len() && 0 <= b < s2[a].orders.len() && (#[trigger] s2[a].orders[b]).oid
                    == x;
            if a == i {
                assert(x == o.oid);
            } else if a < i {
                assert(s[a].orders[b].oid == x);
                assert(side_has_oid(s, x));
            } else {
                assert(s[a - 1].orders[b].oid == x);
                assert(side_has_oid(s, x));
            }
        }
        if side_has_oid(s, x) {
            let (a, b) = choose|a: int, b: int|
                0 <= a < s.len() && 0 <= b < s[a].orders.len() && (#[trigger] s[a].orders[b]).oid
                    == x;
            if a < i {
                assert(s2[a].orders[b].oid == x);
            } else {
                assert(s2[a + 1].orders[b].oid == x);
            }
            assert(side_has_oid(s2, x));
        }
        if x == o.oid {
            assert(s2[i].orders[0].oid == x);
            assert(side_has_oid(s2, x));
        }
    }
    assert forall|x: u64, p: u64| #[trigger]
        side_pair(s2, x, p) <==> (side_pair(s, x, p) || (x == o.oid && p == o.limit_px)) by {
        if side_pair(s2, x, p) {
            let (a, b) = choose|a: int, b: int|
                0 <= a < s2.len() && 0 <= b < s2[a].orders.len() && (#[trigger] s2[a].orders[b]).oid
                    == x && s2[a].px == p;
            if a == i {
                assert(x == o.oid && p == o.limit_px);
            } else if a < i {
                assert(s[a].orders[b].oid == x && s[a].px == p);
                assert(side_pair(s, x, p));
            } else {
                assert(s[a - 1].orders[b].oid == x && s[a - 1].px == p);
                assert(side_pair(s, x, p));
            }
        }
        if side_pair(s, x, p) {
            let (a, b) = choose|a: int, b: int|
                0 <= a < s.len() && 0 <= b < s[a].orders.len() && (#[trigger] s[a].orders[b]).oid
                    == x && s[a].px == p;
            if a < i {
                assert(s2[a].orders[b].oid == x && s2[a].px == p);
            } else {
                assert(s2[a + 1].orders[b].oid == x && s2[a + 1].px == p);
            }
            assert(side_pair(s2, x, p));
        }
        if x == o.oid && p == o.limit_px {
            assert(s2[i].orders[0].oid == x && s2[i].px == p);
            assert(side_pair(s2, x, p));
        }
    }
    assert(side_oids_unique(s2)) by {
        assert forall|a: int, b: int, c: int, d: int|
            0 <= a < s2.len() && 0 <= b < s2[a].orders.len() && 0 <= c < s2.len() && 0 <= d
                < s2[c].orders.len() && (a != c || b != d) implies (#[trigger] s2[a].orders[b]).oid
            != (#[trigger] s2[c].orders[d]).oid by {
            if a == i && c == i {
                assert(b == 0 && d == 0);
            } else if a == i {
                let sc = if c < i { s[c].orders[d] } else { s[c - 1].orders[d] };
                assert(s2[c].orders[d] == sc);
                if sc.oid == o.oid {
                    assert(side_has_oid(s, o.oid));
                }
            } else if c == i {
                let sa = if a < i { s[a].orders[b] } else { s[a - 1].orders[b] };
                assert(s2[a].orders[b] == sa);
                if sa.oid == o.oid {
                    assert(side_has_oid(s, o.oid));
                }
            } else {
                let a1 = if a < i { a } else { a - 1 };
                let c1 = if c < i { c } else { c - 1 };
                assert(s2[a].orders[b] == s[a1].orders[b]);
                assert(s2[c].orders[d] == s[c1].orders[d]);
                assert(a1 != c1 || b != d);
            }
        }
    }
}

/// Rests an order on one side: appended to the tail of its price level, or a
/// new level created at the sorted position.
#[verifier::rlimit(50)]
fn side_insert_order(side: &mut Vec<Level>, o: Order, is_bid: bool)
    requires
        side_wf(views(old(side)@), is_bid),
        side_oids_unique(views(old(side)@)),
        o.sz > 0,
        o.is_buy == is_bid,
        !side_has_oid(views(old(side)@), o.oid),
    ensures
        views(final(side)@) == side_enqueue(views(old(side)@), o, is_bid),
        side_wf(views(final(side)@), is_bid),
        side_oids_unique(views(final(side)@)),
        forall|x: u64| #[trigger]
            side_has_oid(views(final(side)@), x) <==> (side_has_oid(views(old(side)@), x) || x
                == o.oid),
        forall|x: u64, p: u64| #[trigger]
            side_pair(views(final(side)@), x, p) <==> (side_pair(views(old(side)@), x, p) || (x
                == o.oid && p == o.limit_px)),
        views(final(side)@).len() > 0,
        views(final(side)@)[0].px == o.limit_px || (views(old(side)@).len() > 0 && views(
            final(side)@,
        )[0].px == views(old(side)@)[0].px),
{
    let ghost orig = views(side@);
    proof {
        assert(orig.skip(0) =~= orig);
        assert(orig.take(0) + side_enqueue(orig, o, is_bid) =~= side_enqueue(orig, o, is_bid));
    }
    let mut i: usize = 0;
    while i < side.len() && px_better(side[i].px, o.limit_px, is_bid)
        invariant
            0 <= i <= side@.len(),
            views(side@) == orig,
            forall|k: int| 0 <= k < i ==> spec_px_better((#[trigger] orig[k]).px, o.limit_px, is_bid),
            side_enqueue(orig, o, is_bid) == orig.take(i as int) + side_enqueue(
                orig.skip(i as int),
                o,
                is_bid,
            ),
        decreases side@.len() - i,
    {
        proof {
            let sk = orig.skip(i as int);
            assert(sk[0] == orig[i as int]);
            assert(orig[i as int] == side@[i as int]@);
            assert(spec_px_better(sk[0].px, o.limit_px, is_bid));
            assert(sk[0].px != o.limit_px);
            assert(sk.skip(1) =~= orig.skip(i as int + 1));
            assert(side_enqueue(sk, o, is_bid) == seq![sk[0]] + side_enqueue(
                orig.skip(i as int + 1),
                o,
                is_bid,
            ));
            assert(orig.take(i as int) + (seq![orig[i as int]] + side_enqueue(
                orig.skip(i as int + 1),
                o,
                is_bid,
            )) =~= orig.take(i as int + 1) + side_enqueue(orig.skip(i as int + 1), o, is_bid));
        }
        i = i + 1;
    }
    let ghost sk = orig.skip(i as int);
    if i < side.len() && side[i].px == o.limit_px {
        proof {
            assert(sk[0] == orig[i as int]);
            assert(orig[i as int] == side@[i as int]@);
            assert(side_enqueue(sk, o, is_bid) == seq![
                LevelView { px: sk[0].px, orders: sk[0].orders.push(o) },
            ] + sk.skip(1));
        }
        let mut lvl = side.remove(i);
        lvl.orders.push(o);
        side.insert(i, lvl);
        proof {
            let now = views(side@);
            assert(now.len() == orig.len());
            assert forall|t: int| 0 <= t < now.len() && t != i implies now[t] == orig[t] by {
                if t < i {
                    assert(side@[t] == old(side)@[t]);
                } else {
                    assert(side@[t] == old(side)@[t]);
                }
            }
            assert(now[i as int].px == orig[i as int].px);
            assert(now[i as int].orders == orig[i as int].orders.push(o));
            assert(sk.skip(1) =~= orig.skip(i as int + 1));
            assert(now =~= orig.take(i as int) + side_enqueue(sk, o, is_bid));
            lemma_side_update_props(orig, now, i as int, o, is_bid);
        }
    } else {
        proof {
            if i < side@.len() {
                assert(sk[0] == orig[i as int]);
                assert(orig[i as int] == side@[i as int]@);
                assert(!spec_px_better(sk[0].px, o.limit_px, is_bid));
                assert(sk[0].px != o.limit_px);
                assert(side_enqueue(sk, o, is_bid) == seq![
                    LevelView { px: o.limit_px, orders: seq![o] },
                ] + sk);
            } else {
                assert(sk.len() == 0);
                assert(side_enqueue(sk, o, is_bid) == seq![
                    LevelView { px: o.limit_px, orders: seq![o] },
                ]);
            }
        }
        let mut orders: Vec<Order> = Vec::new();
        orders.push(o);
        side.insert(i, Level { px: o.limit_px, orders });
        proof {
            let now = views(side@);
            assert(now.len() == orig.len() + 1);
            assert forall|t: int| 0 <= t < i implies now[t] == orig[t] by {
                assert(side@[t] == old(side)@[t]);
            }
            assert forall|t: int| i < t < now.len() implies now[t] == orig[t - 1] by {
                assert(side@[t] == old(side)@[t - 1]);
            }
            assert(now[i as int] =~= (LevelView { px: o.limit_px, orders: seq![o] }));
            assert(now =~= orig.take(i as int) + side_enqueue(sk, o, is_bid));
            lemma_side_insert_props(orig, now, i as int, o, is_bid);
        }
    }
}

impl OrderBook {
    /// Rests an order on its own side and records it in the oid index.
    fn enqueue_order(&mut self, order: Order)
        requires
            old(self).wf(),
            order.sz > 0,
            !book_has_oid(old(self)@, order.oid),
            order.is_buy ==> (old(self)@.asks.len() == 0 || old(self)@.asks[0].px
                > order.limit_px),
            !order.is_buy ==> (old(self)@.bids.len() == 0 || old(self)@.bids[0].px
                < order.limit_px),
        ensures
            final(self).wf(),
            order.is_buy ==> final(self)@.bids == side_enqueue(old(self)@.bids, order, true)
                && final(self)@.asks == old(self)@.asks,
            !order.is_buy ==> final(self)@.asks == side_enqueue(old(self)@.asks, order, false)
                && final(self)@.bids == old(self)@.bids,
            forall|x: u64| #[trigger]
                book_has_oid(final(self)@, x) ==> (book_has_oid(old(self)@, x) || x
                    == order.oid),
    {
        let ghost pre = self@;
        let ghost preidx = self.oid_to_level@;
        proof {
            assert(!idx_has(preidx, order.oid)) by {
                if idx_has(preidx, order.oid) {
                    let k = choose|k: int|
                        0 <= k < preidx.len() && (#[trigger] preidx[k]).0 == order.oid;
                    assert(book_pair(pre, preidx[k].0, preidx[k].1));
                }
            }
        }
        self.oid_to_level.push((order.oid, order.limit_px));
        if order.is_buy {
            side_insert_order(&mut self.bids, order, true);
        } else {
            side_insert_order(&mut self.asks, order, false);
        }
        proof {
            let now = self@;
            let nowidx = self.oid_to_level@;
            assert(nowidx == preidx.push((order.oid, order.limit_px)));
            assert forall|x: u64, p: u64| #[trigger]
                idx_pair(nowidx, x, p) <==> (idx_pair(preidx, x, p) || (x == order.oid && p
                    == order.limit_px)) by {
                if idx_pair(nowidx, x, p) {
                    let k = choose|k: int| 0 <= k < nowidx.len() && #[trigger] nowidx[k] == (x, p);
                    if k < preidx.len() {
                        assert(preidx[k] == (x, p));
                        assert(idx_pair(preidx, x, p));
                    }
                }
                if idx_pair(preidx, x, p) {
                    let k = choose|k: int| 0 <= k < preidx.len() && #[trigger] preidx[k] == (x, p);
                    assert(nowidx[k] == (x, p));
                    assert(idx_pair(nowidx, x, p));
                }
                if x == order.oid && p == order.limit_px {
                    assert(nowidx[preidx.len() as int] == (x, p));
                    assert(idx_pair(nowidx, x, p));
                }
            }
            assert(idx_keys_distinct(nowidx)) by {
                assert forall|a: int, b: int| 0 <= a < b < nowidx.len() implies (
                #[trigger] nowidx[a]).0 != (#[trigger] nowidx[b]).0 by {
                    if b == preidx.len() {
                        assert(nowidx[a] == preidx[a]);
                        if preidx[a].0 == order.oid {
                            assert(idx_has(preidx, order.oid));
                        }
                    } else {
                        assert(nowidx[a] == preidx[a] && nowidx[b] == preidx[b]);
                    }
                }
            }
            assert forall|x: u64, p: u64| #[trigger]
                book_pair(now, x, p) <==> (book_pair(pre, x, p) || (x == order.oid && p
                    == order.limit_px)) by {}
            assert forall|k: int| 0 <= k < nowidx.len() implies book_pair(
                now,
                (#[trigger] nowidx[k]).0,
                nowidx[k].1,
            ) by {
                if k < preidx.len() {
                    assert(nowidx[k] == preidx[k]);
                    assert(book_pair(pre, preidx[k].0, preidx[k].1));
                } else {
                    assert(nowidx[k] == (order.oid, order.limit_px));
                }
            }
            assert forall|x: u64, p: u64| #[trigger]
                book_pair(now, x, p) implies idx_pair(nowidx, x, p) by {}
            if order.is_buy {
                assert(forall|x: u64|
                    #[trigger] side_has_oid(now.asks, x) ==> side_has_oid(pre.asks, x));
                assert forall|x: u64|
                    !(#[trigger] side_has_oid(now.bids, x) && #[trigger] side_has_oid(
                        now.asks,
                        x,
                    )) by {
                    if side_has_oid(now.bids, x) && side_has_oid(now.asks, x) {
                        assert(side_has_oid(pre.asks, x));
                        assert(side_has_oid(pre.bids, x) || x == order.oid);
                        if x == order.oid {
                            assert(book_has_oid(pre, x));
                        }
                    }
                }
                if now.bids.len() > 0 && now.asks.len() > 0 {
                    assert(now.bids[0].px == order.limit_px || (pre.bids.len() > 0
                        && now.bids[0].px == pre.bids[0].px));
                    assert(now.asks == pre.asks);
                }
            } else {
                assert(forall|x: u64|
                    #[trigger] side_has_oid(now.bids, x) ==> side_has_oid(pre.bids, x));
                assert forall|x: u64|
                    !(#[trigger] side_has_oid(now.bids, x) && #[trigger] side_has_oid(
                        now.asks,
                        x,
                    )) by {
                    if side_has_oid(now.bids, x) && side_has_oid(now.asks, x) {
                        assert(side_has_oid(pre.bids, x));
                        assert(side_has_oid(pre.asks, x) || x == order.oid);
                        if x == order.oid {
                            assert(book_has_oid(pre, x));
                        }
                    }
                }
                if now.bids.len() > 0 && now.asks.len() > 0 {
                    assert(now.asks[0].px == order.limit_px || (pre.asks.len() > 0
                        && now.asks[0].px == pre.asks[0].px));
                    assert(now.bids == pre.bids);
                }
            }
        }
    }
}


/// Appends one fill per completely consumed maker and returns their summed
/// size.
fn append_fills(fills: &mut Vec<OrderFill>, completes: &Vec<Order>, taker_oid: u64) -> (tot: u64)
    requires
        sum_prefix(completes@, completes@.len() as int) <= u64::MAX,
    ensures
        final(fills)@ == old(fills)@ + complete_fills(completes@, taker_oid),
        tot == sum_prefix(completes@, completes@.len() as int),
{
    let ghost base = fills@;
    let mut tot: u64 = 0;
    let mut i: usize = 0;
    while i < completes.len()
        invariant
            0 <= i <= completes@.len(),
            sum_prefix(completes@, completes@.len() as int) <= u64::MAX,
            tot == sum_prefix(completes@, i as int),
            fills@ == base + complete_fills(completes@.take(i as int), taker_oid),
        decreases completes@.len() - i,
    {
        proof {
            lemma_sum_prefix_mono(completes@, i as int + 1, completes@.len() as int);
            lemma_sum_prefix_mono(completes@, 0, i as int);
        }
        tot = tot + completes[i].sz;
        fills.push(OrderFill::new(completes[i].oid, taker_oid, completes[i].sz));
        proof {
            assert(completes@.take(i as int + 1) =~= completes@.take(i as int).push(
                completes@[i as int],
            ));
            assert(complete_fills(completes@.take(i as int + 1), taker_oid) =~= complete_fills(
                completes@.take(i as int),
                taker_oid,
            ).push(OrderFill { maker_oid: completes@[i as int].oid, taker_oid, sz: completes@[
                i as int].sz }));
            assert(fills@ =~= base + complete_fills(completes@.take(i as int + 1), taker_oid));
        }
        i = i + 1;
    }
    proof {
        assert(completes@.take(completes@.len() as int) =~= completes@);
    }
    tot
}

/// What consuming the head level does to a well-formed side: the side stays
/// well-formed and loses exactly the completely consumed order ids.
#[verifier::rlimit(50)]
proof fn lemma_level_consume_props(s: Seq<LevelView>, s2: Seq<LevelView>, a: int, is_bid: bool)
    requires
        side_wf(s, is_bid),
        side_oids_unique(s),
        s.len() > 0,
        a > 0,
        s2 == (if level_orders_after(s[0].orders, a).len() == 0 {
            s.skip(1)
        } else {
            seq![LevelView { px: s[0].px, orders: level_orders_after(s[0].orders, a) }] + s.skip(
                1,
            )
        }),
    ensures
        side_wf(s2, is_bid),
        side_oids_unique(s2),
        forall|x: u64| #[trigger]
            side_has_oid(s2, x) <==> (side_has_oid(s, x) && !orders_has_oid(
                s[0].orders.take(complete_count(s[0].orders, a)),
                x,
            )),
        forall|x: u64, p: u64| #[trigger]
            side_pair(s2, x, p) <==> (side_pair(s, x, p) && !orders_has_oid(
                s[0].orders.take(complete_count(s[0].orders, a)),
                x,
            )),
        s2.len() > 0 ==> (if is_bid {
            s2[0].px <= s[0].px
        } else {
            s2[0].px >= s[0].px
        }),
{
    lemma_cc_props(s[0].orders, a);
    let k = complete_count(s[0].orders, a);
    let n = s[0].orders.len() as int;
    let oa = level_orders_after(s[0].orders, a);
    let dead = s[0].orders.take(k);
    if oa.len() == 0 {
        assert(k == n);
        assert(dead =~= s[0].orders);
        assert(forall|t: int| 0 <= t < s2.len() ==> #[trigger] s2[t] == s[t + 1]);
        assert(side_wf(s2, is_bid));
        assert(side_oids_unique(s2)) by {
            assert forall|a1: int, b1: int, c1: int, d1: int|
                0 <= a1 < s2.len() && 0 <= b1 < s2[a1].orders.len() && 0 <= c1 < s2.len() && 0
                    <= d1 < s2[c1].orders.len() && (a1 != c1 || b1 != d1) implies (
            #[trigger] s2[a1].orders[b1]).oid != (#[trigger] s2[c1].orders[d1]).oid by {
                assert(s2[a1].orders[b1] == s[a1 + 1].orders[b1]);
                assert(s2[c1].orders[d1] == s[c1 + 1].orders[d1]);
            }
        }
        assert forall|x: u64| #[trigger]
            side_has_oid(s2, x) <==> (side_has_oid(s, x) && !orders_has_oid(dead, x)) by {
            if side_has_oid(s2, x) {
                let (u, v) = choose|u: int, v: int|
                    0 <= u < s2.len() && 0 <= v < s2[u].orders.len() && (
                    #[trigger] s2[u].orders[v]).oid == x;
                assert(s[u + 1].orders[v].oid == x);
                assert(side_has_oid(s, x));
                if orders_has_oid(dead, x) {
                    let w = choose|w: int| 0 <= w < dead.len() && (#[trigger] dead[w]).oid == x;
                    assert(s[0].orders[w].oid == x);
                    assert(s[0].orders[w].oid != s[u + 1].orders[v].oid);
                }
            }
            if side_has_oid(s, x) && !orders_has_oid(dead, x) {
                let (u, v) = choose|u: int, v: int|
                    0 <= u < s.len() && 0 <= v < s[u].orders.len() && (#[trigger] s[u].orders[v]).oid
                        == x;
                if u == 0 {
                    assert(dead[v].oid == x);
                    assert(orders_has_oid(dead, x));
                } else {
                    assert(s2[u - 1].orders[v].oid == x);
                    assert(side_has_oid(s2, x));
                }
            }
        }
        assert forall|x: u64, p: u64| #[trigger]
            side_pair(s2, x, p) <==> (side_pair(s, x, p) && !orders_has_oid(dead, x)) by {
            if side_pair(s2, x, p) {
                let (u, v) = choose|u: int, v: int|
                    0 <= u < s2.len() && 0 <= v < s2[u].orders.len() && (
                    #[trigger] s2[u].orders[v]).oid == x && s2[u].px == p;
                assert(s[u + 1].orders[v].oid == x && s[u + 1].px == p);
                assert(side_pair(s, x, p));
                if orders_has_oid(dead, x) {
                    let w = choose|w: int| 0 <= w < dead.len() && (#[trigger] dead[w]).oid == x;
                    assert(s[0].orders[w].oid == x);
                    assert(s[0].orders[w].oid != s[u + 1].orders[v].oid);
                }
            }
            if side_pair(s, x, p) && !orders_has_oid(dead, x) {
                let (u, v) = choose|u: int, v: int|
                    0 <= u < s.len() && 0 <= v < s[u].orders.len() && (#[trigger] s[u].orders[v]).oid
                        == x && s[u].px == p;
                if u == 0 {
                    assert(dead[v].oid == x);
                    assert(orders_has_oid(dead, x));
                } else {
                    assert(s2[u - 1].orders[v].oid == x && s2[u - 1].px == p);
                    assert(side_pair(s2, x, p));
                }
            }
        }
        if s2.len() > 0 {
            assert(s2[0] == s[1]);
        }
    } else {
        assert(k < n);
        let l2 = LevelView { px: s[0].px, orders: oa };
        assert(s2[0] == l2);
        assert(forall|t: int| 1 <= t < s2.len() ==> #[trigger] s2[t] == s[t]);
        assert(oa.len() == n - k);
        assert(oa[0].oid == s[0].orders[k].oid && oa[0].limit_px == s[0].orders[k].limit_px
            && oa[0].is_buy == s[0].orders[k].is_buy);
        assert(oa[0].sz == s[0].orders[k].sz - partial_sz(s[0].orders, a));
        assert(oa[0].sz > 0);
        assert(forall|t: int| 1 <= t < oa.len() ==> #[trigger] oa[t] == s[0].orders[k + t]);
        assert(level_wf(l2, is_bid)) by {
            assert forall|j: int| 0 <= j < oa.len() implies {
                &&& (#[trigger] oa[j]).limit_px == l2.px
                &&& oa[j].is_buy == is_bid
                &&& oa[j].sz > 0
            } by {
                if j >= 1 {
                    assert(oa[j] == s[0].orders[k + j]);
                }
            }
        }
        assert(side_wf(s2, is_bid)) by {
            assert forall|a1: int, b1: int| 0 <= a1 < b1 < s2.len() implies (if is_bid {
                (#[trigger] s2[a1]).px > (#[trigger] s2[b1]).px
            } else {
                s2[a1].px < s2[b1].px
            }) by {
                if a1 == 0 {
                    assert(s2[0].px == s[0].px && s2[b1] == s[b1]);
                } else {
                    assert(s2[a1] == s[a1] && s2[b1] == s[b1]);
                }
            }
            assert forall|t: int| 0 <= t < s2.len() implies level_wf(#[trigger] s2[t], is_bid) by {
                if t >= 1 {
                    assert(s2[t] == s[t]);
                }
            }
        }
        assert forall|x: u64| #[trigger]
            side_has_oid(s2, x) <==> (side_has_oid(s, x) && !orders_has_oid(dead, x)) by {
            if side_has_oid(s2, x) {
                let (u, v) = choose|u: int, v: int|
                    0 <= u < s2.len() && 0 <= v < s2[u].orders.len() && (
                    #[trigger] s2[u].orders[v]).oid == x;
                let (u2, v2) = if u == 0 { (0int, k + v) } else { (u, v) };
                assert(s[u2].orders[v2].oid == x);
                assert(side_has_oid(s, x));
                if orders_has_oid(dead, x) {
                    let w = choose|w: int| 0 <= w < dead.len() && (#[trigger] dead[w]).oid == x;
                    assert(s[0].orders[w].oid == x);
                    assert(w != v2 || 0 != u2);
                    assert(s[0].orders[w].oid != s[u2].orders[v2].oid);
                }
            }
            if side_has_oid(s, x) && !orders_has_oid(dead, x) {
                let (u, v) = choose|u: int, v: int|
                    0 <= u < s.len() && 0 <= v < s[u].orders.len() && (#[trigger] s[u].orders[v]).oid
                        == x;
                if u == 0 {
                    if v < k {
                        assert(dead[v].oid == x);
                        assert(orders_has_oid(dead, x));
                    } else {
                        assert(s2[0].orders[v - k].oid == x);
                        assert(side_has_oid(s2, x));
                    }
                } else {
                    assert(s2[u].orders[v].oid == x);
                    assert(side_has_oid(s2, x));
                }
            }
        }
        assert forall|x: u64, p: u64| #[trigger]
            side_pair(s2, x, p) <==> (side_pair(s, x, p) && !orders_has_oid(dead, x)) by {
            if side_pair(s2, x, p) {
                let (u, v) = choose|u: int, v: int|
                    0 <= u < s2.len() && 0 <= v < s2[u].orders.len() && (
                    #[trigger] s2[u].orders[v]).oid == x && s2[u].px == p;
                let (u2, v2) = if u == 0 { (0int, k + v) } else { (u, v) };
                assert(s[u2].orders[v2].oid == x && s[u2].px == p);
                assert(side_pair(s, x, p));
                if orders_has_oid(dead, x) {
                    let w = choose|w: int| 0 <= w < dead.len() && (#[trigger] dead[w]).oid == x;
                    assert(s[0].orders[w].oid == x);
                    assert(s[0].orders[w].oid != s[u2].orders[v2].oid);
                }
            }
            if side_pair(s, x, p) && !orders_has_oid(dead, x) {
                let (u, v) = choose|u: int, v: int|
                    0 <= u < s.len() && 0 <= v < s[u].orders.len() && (#[trigger] s[u].orders[v]).oid
                        == x && s[u].px == p;
                if u == 0 {
                    if v < k {
                        assert(dead[v].oid == x);
                        assert(orders_has_oid(dead, x));
                    } else {
                        assert(s2[0].orders[v - k].oid == x && s2[0].px == p);
                        assert(side_pair(s2, x, p));
                    }
                } else {
                    assert(s2[u].orders[v].oid == x && s2[u].px == p);
                    assert(side_pair(s2, x, p));
                }
            }
        }
        assert(side_oids_unique(s2)) by {
            assert forall|a1: int, b1: int, c1: int, d1: int|
                0 <= a1 < s2.len() && 0 <= b1 < s2[a1].orders.len() && 0 <= c1 < s2.len() && 0
                    <= d1 < s2[c1].orders.len() && (a1 != c1 || b1 != d1) implies (
            #[trigger] s2[a1].orders[b1]).oid != (#[trigger] s2[c1].orders[d1]).oid by {
                let (a2, b2) = if a1 == 0 { (0int, k + b1) } else { (a1, b1) };
                let (c2, d2) = if c1 == 0 { (0int, k + d1) } else { (c1, d1) };
                assert(s2[a1].orders[b1].oid == s[a2].orders[b2].oid);
                assert(s2[c1].orders[d1].oid == s[c2].orders[d2].oid);
                assert(a2 != c2 || b2 != d2);
            }
        }
    }
}


impl OrderBook {
    /// Consumes crossing ask levels, best first, for a buy taker. Returns
    /// the unmatched amount and appends the emitted fills.
    #[verifier::rlimit(100)]
    fn sweep_asks(&mut self, limit_px: u64, taker_oid: u64, amount: u64, fills: &mut Vec<
        OrderFill,
    >) -> (rem: u64)
        requires
            old(self).wf(),
        ensures
            final(self).wf(),
            final(self)@.bids == old(self)@.bids,
            ({
                let r = match_side(old(self)@.asks, true, limit_px, amount as int, taker_oid);
                &&& final(self)@.asks == r.0
                &&& rem as int == r.1
                &&& final(fills)@ == old(fills)@ + r.2
            }),
            rem <= amount,
            rem > 0 ==> (final(self)@.asks.len() == 0 || !px_crosses(
                true,
                limit_px,
                final(self)@.asks[0].px,
            )),
            forall|x: u64| #[trigger]
                side_has_oid(final(self)@.asks, x) ==> side_has_oid(old(self)@.asks, x),
    {
        let ghost orig_asks = self@.asks;
        let ghost orig_bids = self@.bids;
        let ghost orig_fills = fills@;
        let mut remaining: u64 = amount;
        while remaining > 0 && self.asks.len() > 0 && self.asks[0].px <= limit_px
            invariant
                self.wf(),
                self@.bids == orig_bids,
                remaining <= amount,
                ({
                    let rr = match_side(self@.asks, true, limit_px, remaining as int, taker_oid);
                    let full = match_side(orig_asks, true, limit_px, amount as int, taker_oid);
                    &&& rr.0 == full.0
                    &&& rr.1 == full.1
                    &&& fills@ + rr.2 == orig_fills + full.2
                }),
                forall|x: u64| #[trigger]
                    side_has_oid(self@.asks, x) ==> side_has_oid(orig_asks, x),
            decreases self.asks@.len(), remaining,
        {
            let ghost pre = self@.asks;
            let ghost preidx = self.oid_to_level@;
            let ghost pre_fills = fills@;
            let ghost pre_rem = remaining as int;
            let mut lvl = self.asks.remove(0);
            let ghost lv = lvl@;
            proof {
                assert(pre[0] == lv);
                assert(px_crosses(true, limit_px, pre[0].px));
                lemma_cc_props(lv.orders, pre_rem);
            }
            let ghost kk = complete_count(lv.orders, pre_rem);
            let (new_rem, completes) = fill_at_price_level(&mut lvl.orders, remaining);
            proof {
                assert(completes@ == lv.orders.take(kk));
                lemma_sum_prefix_take(lv.orders, kk, kk);
                assert(sum_prefix(completes@, completes@.len() as int) == sum_prefix(
                    lv.orders,
                    kk,
                ));
            }
            let tot = append_fills(fills, &completes, taker_oid);
            let partial = remaining - new_rem - tot;
            proof {
                if kk == lv.orders.len() {
                    assert(new_rem == pre_rem - sum_prefix(lv.orders, kk));
                    assert(partial == 0);
                    assert(partial_sz(lv.orders, pre_rem) == 0);
                } else {
                    assert(new_rem == 0);
                    assert(partial == pre_rem - tot);
                    assert(partial == partial_sz(lv.orders, pre_rem));
                }
            }
            if partial > 0 {
                proof {
                    assert(kk < lv.orders.len());
                    assert(lvl.orders@.len() > 0);
                    assert(lvl.orders@[0].oid == lv.orders[kk].oid);
                }
                let m_oid = lvl.orders[0].oid;
                fills.push(OrderFill::new(m_oid, taker_oid, partial));
            }
            proof {
                assert(fills@ =~= pre_fills + level_fills(lv.orders, pre_rem, taker_oid));
            }
            index_remove_batch(&mut self.oid_to_level, &completes);
            remaining = new_rem;
            let level_kept = lvl.orders.len() > 0;
            if level_kept {
                self.asks.insert(0, lvl);
            }
            proof {
                let now = self@.asks;
                let nowidx = self.oid_to_level@;
                let oa = level_orders_after(lv.orders, pre_rem);
                let dead = lv.orders.take(kk);
                assert(dead == completes@);
                if level_kept {
                    assert(oa.len() > 0);
                    assert forall|t: int| 0 <= t < now.len() implies now[t] == (if t == 0 {
                        LevelView { px: lv.px, orders: oa }
                    } else {
                        pre[t]
                    }) by {}
                    assert(now =~= seq![LevelView { px: lv.px, orders: oa }] + pre.skip(1));
                } else {
                    assert(oa.len() == 0);
                    assert(forall|t: int| 0 <= t < now.len() ==> #[trigger] now[t] == pre[t + 1]);
                    assert(now =~= pre.skip(1));
                }
                lemma_level_consume_props(pre, now, pre_rem, false);
                // the match specification takes one step
                let step = match_side(pre, true, limit_px, pre_rem, taker_oid);
                let after = match_side(now, true, limit_px, new_rem as int, taker_oid);
                let full = match_side(orig_asks, true, limit_px, amount as int, taker_oid);
                assert(level_rem_after(lv.orders, pre_rem) == new_rem);
                if level_kept {
                    assert(new_rem == 0);
                    assert(step.0 == now && step.1 == 0 && step.2 == level_fills(
                        lv.orders,
                        pre_rem,
                        taker_oid,
                    ));
                    assert(after.0 == now && after.1 == 0 && after.2 =~= Seq::<
                        OrderFill,
                    >::empty());
                    assert(fills@ + after.2 =~= pre_fills + step.2);
                } else {
                    assert(step.0 == after.0 && step.1 == after.1 && step.2 == level_fills(
                        lv.orders,
                        pre_rem,
                        taker_oid,
                    ) + after.2);
                    assert(fills@ + after.2 =~= (pre_fills + level_fills(
                        lv.orders,
                        pre_rem,
                        taker_oid,
                    )) + after.2);
                    assert(pre_fills + (level_fills(lv.orders, pre_rem, taker_oid) + after.2)
                        =~= (pre_fills + level_fills(lv.orders, pre_rem, taker_oid)) + after.2);
                }
                assert(after.0 == full.0 && after.1 == full.1);
                assert(fills@ + after.2 == orig_fills + full.2);
                // well-formedness of the whole book again
                assert forall|x: u64|
                    orders_has_oid(dead, x) implies #[trigger] side_has_oid(pre, x) by {
                    let w = choose|w: int| 0 <= w < dead.len() && (#[trigger] dead[w]).oid == x;
                    assert(pre[0].orders[w].oid == x);
                }
                assert forall|x: u64|
                    !(#[trigger] side_has_oid(self@.bids, x) && #[trigger] side_has_oid(
                        now,
                        x,
                    )) by {}
                if self@.bids.len() > 0 && now.len() > 0 {
                    assert(now[0].px >= pre[0].px);
                    assert(self@.bids[0].px < pre[0].px);
                }
                assert forall|k2: int| 0 <= k2 < nowidx.len() implies book_pair(
                    self@,
                    (#[trigger] nowidx[k2]).0,
                    nowidx[k2].1,
                ) by {
                    let x = nowidx[k2].0;
                    let p = nowidx[k2].1;
                    assert(idx_pair(nowidx, x, p));
                    assert(idx_pair(preidx, x, p) && !orders_has_oid(dead, x));
                    let k3 = choose|k3: int| 0 <= k3 < preidx.len() && #[trigger] preidx[k3] == (
                    x,
                    p,
                    );
                    assert(book_pair(BookView { bids: orig_bids, asks: pre }, x, p));
                    if side_pair(pre, x, p) {
                        assert(side_pair(now, x, p));
                    }
                }
                assert forall|x: u64, p: u64| #[trigger]
                    book_pair(self@, x, p) implies idx_pair(nowidx, x, p) by {
                    if side_pair(self@.bids, x, p) {
                        assert(book_pair(BookView { bids: orig_bids, asks: pre }, x, p));
                        assert(idx_pair(preidx, x, p));
                        assert(!orders_has_oid(dead, x)) by {
                            if orders_has_oid(dead, x) {
                                assert(side_has_oid(pre, x));
                                assert(side_has_oid(self@.bids, x));
                            }
                        }
                    } else {
                        assert(side_pair(now, x, p));
                        assert(side_pair(pre, x, p) && !orders_has_oid(dead, x));
                        assert(book_pair(BookView { bids: orig_bids, asks: pre }, x, p));
                        assert(idx_pair(preidx, x, p));
                    }
                }
            }
        }
        proof {
            let rr = match_side(self@.asks, true, limit_px, remaining as int, taker_oid);
            assert(rr.0 == self@.asks && rr.1 == remaining as int && rr.2 =~= Seq::<
                OrderFill,
            >::empty());
            assert(fills@ + rr.2 =~= fills@);
        }
        remaining
    }
}


impl OrderBook {
    /// Consumes crossing bid levels, best first, for a sell taker. Returns
    /// the unmatched amount and appends the emitted fills.
    #[verifier::rlimit(100)]
    fn sweep_bids(&mut self, limit_px: u64, taker_oid: u64, amount: u64, fills: &mut Vec<
        OrderFill,
    >) -> (rem: u64)
        requires
            old(self).wf(),
        ensures
            final(self).wf(),
            final(self)@.asks == old(self)@.asks,
            ({
                let r = match_side(old(self)@.bids, false, limit_px, amount as int, taker_oid);
                &&& final(self)@.bids == r.0
                &&& rem as int == r.1
                &&& final(fills)@ == old(fills)@ + r.2
            }),
            rem <= amount,
            rem > 0 ==> (final(self)@.bids.len() == 0 || !px_crosses(
                false,
                limit_px,
                final(self)@.bids[0].px,
            )),
            forall|x: u64| #[trigger]
                side_has_oid(final(self)@.bids, x) ==> side_has_oid(old(self)@.bids, x),
    {
        let ghost orig_bids = self@.bids;
        let ghost orig_asks = self@.asks;
        let ghost orig_fills = fills@;
        let mut remaining: u64 = amount;
        while remaining > 0 && self.bids.len() > 0 && self.bids[0].px >= limit_px
            invariant
                self.wf(),
                self@.asks == orig_asks,
                remaining <= amount,
                ({
                    let rr = match_side(self@.bids, false, limit_px, remaining as int, taker_oid);
                    let full = match_side(orig_bids, false, limit_px, amount as int, taker_oid);
                    &&& rr.0 == full.0
                    &&& rr.1 == full.1
                    &&& fills@ + rr.2 == orig_fills + full.2
                }),
                forall|x: u64| #[trigger]
                    side_has_oid(self@.bids, x) ==> side_has_oid(orig_bids, x),
            decreases self.bids@.len(), remaining,
        {
            let ghost pre = self@.bids;
            let ghost preidx = self.oid_to_level@;
            let ghost pre_fills = fills@;
            let ghost pre_rem = remaining as int;
            let mut lvl = self.bids.remove(0);
            let ghost lv = lvl@;
            proof {
                assert(pre[0] == lv);
                assert(px_crosses(false, limit_px, pre[0].px));
                lemma_cc_props(lv.orders, pre_rem);
            }
            let ghost kk = complete_count(lv.orders, pre_rem);
            let (new_rem, completes) = fill_at_price_level(&mut lvl.orders, remaining);
            proof {
                assert(completes@ == lv.orders.take(kk));
                lemma_sum_prefix_take(lv.orders, kk, kk);
                assert(sum_prefix(completes@, completes@.len() as int) == sum_prefix(
                    lv.orders,
                    kk,
                ));
            }
            let tot = append_fills(fills, &completes, taker_oid);
            let partial = remaining - new_rem - tot;
            proof {
                if kk == lv.orders.len() {
                    assert(new_rem == pre_rem - sum_prefix(lv.orders, kk));
                    assert(partial == 0);
                    assert(partial_sz(lv.orders, pre_rem) == 0);
                } else {
                    assert(new_rem == 0);
                    assert(partial == pre_rem - tot);
                    assert(partial == partial_sz(lv.orders, pre_rem));
                }
            }
            if partial > 0 {
                proof {
                    assert(kk < lv.orders.len());
                    assert(lvl.orders@.len() > 0);
                    assert(lvl.orders@[0].oid == lv.orders[kk].oid);
                }
                let m_oid = lvl.orders[0].oid;
                fills.push(OrderFill::new(m_oid, taker_oid, partial));
            }
            proof {
                assert(fills@ =~= pre_fills + level_fills(lv.orders, pre_rem, taker_oid));
            }
            index_remove_batch(&mut self.oid_to_level, &completes);
            remaining = new_rem;
            let level_kept = lvl.orders.len() > 0;
            if level_kept {
                self.bids.insert(0, lvl);
            }
            proof {
                let now = self@.bids;
                let nowidx = self.oid_to_level@;
                let oa = level_orders_after(lv.orders, pre_rem);
                let dead = lv.orders.take(kk);
                assert(dead == completes@);
                if level_kept {
                    assert(oa.len() > 0);
                    assert forall|t: int| 0 <= t < now.len() implies now[t] == (if t == 0 {
                        LevelView { px: lv.px, orders: oa }
                    } else {
                        pre[t]
                    }) by {}
                    assert(now =~= seq![LevelView { px: lv.px, orders: oa }] + pre.skip(1));
                } else {
                    assert(oa.len() == 0);
                    assert(forall|t: int| 0 <= t < now.len() ==> #[trigger] now[t] == pre[t + 1]);
                    assert(now =~= pre.skip(1));
                }
                lemma_level_consume_props(pre, now, pre_rem, true);
                // the match specification takes one step
                let step = match_side(pre, false, limit_px, pre_rem, taker_oid);
                let after = match_side(now, false, limit_px, new_rem as int, taker_oid);
                let full = match_side(orig_bids, false, limit_px, amount as int, taker_oid);
                assert(level_rem_after(lv.orders, pre_rem) == new_rem);
                if level_kept {
                    assert(new_rem == 0);
                    assert(step.0 == now && step.1 == 0 && step.2 == level_fills(
                        lv.orders,
                        pre_rem,
                        taker_oid,
                    ));
                    assert(after.0 == now && after.1 == 0 && after.2 =~= Seq::<
                        OrderFill,
                    >::empty());
                    assert(fills@ + after.2 =~= pre_fills + step.2);
                } else {
                    assert(step.0 == after.0 && step.1 == after.1 && step.2 == level_fills(
                        lv.orders,
                        pre_rem,
                        taker_oid,
                    ) + after.2);
                    assert(fills@ + after.2 =~= (pre_fills + level_fills(
                        lv.orders,
                        pre_rem,
                        taker_oid,
                    )) + after.2);
                    assert(pre_fills + (level_fills(lv.orders, pre_rem, taker_oid) + after.2)
                        =~= (pre_fills + level_fills(lv.orders, pre_rem, taker_oid)) + after.2);
                }
                assert(after.0 == full.0 && after.1 == full.1);
                assert(fills@ + after.2 == orig_fills + full.2);
                // well-formedness of the whole book again
                assert forall|x: u64|
                    orders_has_oid(dead, x) implies #[trigger] side_has_oid(pre, x) by {
                    let w = choose|w: int| 0 <= w < dead.len() && (#[trigger] dead[w]).oid == x;
                    assert(pre[0].orders[w].oid == x);
                }
                assert forall|x: u64|
                    !(#[trigger] side_has_oid(now, x) && #[trigger] side_has_oid(
                        self@.asks,
                        x,
                    )) by {}
                if self@.asks.len() > 0 && now.len() > 0 {
                    assert(now[0].px <= pre[0].px);
                    assert(self@.asks[0].px > pre[0].px);
                }
                assert forall|k2: int| 0 <= k2 < nowidx.len() implies book_pair(
                    self@,
                    (#[trigger] nowidx[k2]).0,
                    nowidx[k2].1,
                ) by {
                    let x = nowidx[k2].0;
                    let p = nowidx[k2].1;
                    assert(idx_pair(nowidx, x, p));
                    assert(idx_pair(preidx, x, p) && !orders_has_oid(dead, x));
                    let k3 = choose|k3: int| 0 <= k3 < preidx.len() && #[trigger] preidx[k3] == (
                    x,
                    p,
                    );
                    assert(book_pair(BookView { bids: pre, asks: orig_asks }, x, p));
                    if side_pair(pre, x, p) {
                        assert(side_pair(now, x, p));
                    }
                }
                assert forall|x: u64, p: u64| #[trigger]
                    book_pair(self@, x, p) implies idx_pair(nowidx, x, p) by {
                    if side_pair(self@.asks, x, p) {
                        assert(book_pair(BookView { bids: pre, asks: orig_asks }, x, p));
                        assert(idx_pair(preidx, x, p));
                        assert(!orders_has_oid(dead, x)) by {
                            if orders_has_oid(dead, x) {
                                assert(side_has_oid(pre, x));
                                assert(side_has_oid(self@.asks, x));
                            }
                        }
                    } else {
                        assert(side_pair(now, x, p));
                        assert(side_pair(pre, x, p) && !orders_has_oid(dead, x));
                        assert(book_pair(BookView { bids: pre, asks: orig_asks }, x, p));
                        assert(idx_pair(preidx, x, p));
                    }
                }
            }
        }
        proof {
            let rr = match_side(self@.bids, false, limit_px, remaining as int, taker_oid);
            assert(rr.0 == self@.bids && rr.1 == remaining as int && rr.2 =~= Seq::<
                OrderFill,
            >::empty());
            assert(fills@ + rr.2 =~= fills@);
        }
        remaining
    }

    /// Matches an incoming order against the opposite side under strict
    /// price-time priority and rests any residual on its own side. Returns
    /// the residual size and the fills in the order they were generated.
    pub fn limit(&mut self, order: Order) -> (r: (u64, Vec<OrderFill>))
        requires
            old(self).wf(),
            order.sz > 0,
            !book_has_oid(old(self)@, order.oid),
        ensures
            final(self).wf(),
            ({
                let full = book_limit(old(self)@, order);
                &&& final(self)@ == full.0
                &&& r.0 as int == full.1
                &&& r.1@ == full.2
            }),
            r.0 <= order.sz,
            forall|x: u64| #[trigger]
                book_has_oid(final(self)@, x) ==> (book_has_oid(old(self)@, x) || x
                    == order.oid),
    {
        let mut fills: Vec<OrderFill> = Vec::new();
        let remaining: u64;
        if order.is_buy {
            remaining = self.sweep_asks(order.limit_px, order.oid, order.sz, &mut fills);
        } else {
            remaining = self.sweep_bids(order.limit_px, order.oid, order.sz, &mut fills);
        }
        let ghost mid = self@;
        if remaining > 0 {
            let rest = Order {
                is_buy: order.is_buy,
                limit_px: order.limit_px,
                sz: remaining,
                oid: order.oid,
            };
            proof {
                if order.is_buy {
                    let r1 = match_side(old(self)@.asks, true, order.limit_px, order.sz as int,
                        order.oid);
                    assert(self@.asks == r1.0 && remaining as int == r1.1);
                    assert(self@.asks.len() == 0 || !px_crosses(true, order.limit_px,
                        self@.asks[0].px));
                    assert(!book_has_oid(self@, order.oid)) by {
                        if side_has_oid(self@.asks, order.oid) {
                            assert(side_has_oid(old(self)@.asks, order.oid));
                        }
                    }
                } else {
                    let r1 = match_side(old(self)@.bids, false, order.limit_px, order.sz as int,
                        order.oid);
                    assert(self@.bids == r1.0 && remaining as int == r1.1);
                    assert(self@.bids.len() == 0 || !px_crosses(false, order.limit_px,
                        self@.bids[0].px));
                    assert(!book_has_oid(self@, order.oid)) by {
                        if side_has_oid(self@.bids, order.oid) {
                            assert(side_has_oid(old(self)@.bids, order.oid));
                        }
                    }
                }
            }
            self.enqueue_order(rest);
        }
        proof {
            let full = book_limit(old(self)@, order);
            assert(self@ =~= full.0);
            assert forall|x: u64| #[trigger]
                book_has_oid(self@, x) implies (book_has_oid(old(self)@, x) || x
                == order.oid) by {
                if book_has_oid(mid, x) {
                    if order.is_buy {
                        if side_has_oid(mid.asks, x) {
                            assert(side_has_oid(old(self)@.asks, x));
                        }
                    } else {
                        if side_has_oid(mid.bids, x) {
                            assert(side_has_oid(old(self)@.bids, x));
                        }
                    }
                }
            }
        }
        (remaining, fills)
    }
}


proof fn lemma_orders_without_absent(s: Seq<Order>, oid: u64)
    requires
        !orders_has_oid(s, oid),
    ensures
        orders_without(s, oid) == s,
    decreases s.len(),
{
    if s.len() == 0 {
        assert(orders_without(s, oid) =~= s);
    } else {
        assert(s[0].oid != oid) by {
            if s[0].oid == oid {
                assert(orders_has_oid(s, oid));
            }
        }
        assert(!orders_has_oid(s.skip(1), oid)) by {
            if orders_has_oid(s.skip(1), oid) {
                let w = choose|w: int|
                    0 <= w < s.skip(1).len() && (#[trigger] s.skip(1)[w]).oid == oid;
                assert(s[w + 1].oid == oid);
                assert(orders_has_oid(s, oid));
            }
        }
        lemma_orders_without_absent(s.skip(1), oid);
        assert(orders_without(s, oid) =~= s);
    }
}

proof fn lemma_side_without_absent(s: Seq<LevelView>, oid: u64)
    requires
        forall|t: int| 0 <= t < s.len() ==> !orders_has_oid((#[trigger] s[t]).orders, oid),
        forall|t: int| 0 <= t < s.len() ==> (#[trigger] s[t]).orders.len() > 0,
    ensures
        side_without(s, oid) == s,
    decreases s.len(),
{
    if s.len() == 0 {
        assert(side_without(s, oid) =~= s);
    } else {
        lemma_orders_without_absent(s[0].orders, oid);
        assert(forall|t: int|
            0 <= t < s.skip(1).len() ==> !orders_has_oid((#[trigger] s.skip(1)[t]).orders, oid));
        assert(forall|t: int|
            0 <= t < s.skip(1).len() ==> (#[trigger] s.skip(1)[t]).orders.len() > 0);
        lemma_side_without_absent(s.skip(1), oid);
        assert(LevelView { px: s[0].px, orders: orders_without(s[0].orders, oid) } =~= s[0]);
        assert(side_without(s, oid) =~= s);
    }
}

/// Removing one order id touches only the level that holds it.
proof fn lemma_side_without_at(s: Seq<LevelView>, i: int, oid: u64)
    requires
        0 <= i < s.len(),
        forall|t: int|
            0 <= t < s.len() && t != i ==> !orders_has_oid((#[trigger] s[t]).orders, oid),
        forall|t: int| 0 <= t < s.len() ==> (#[trigger] s[t]).orders.len() > 0,
    ensures
        side_without(s, oid) == (if orders_without(s[i].orders, oid).len() == 0 {
            s.remove(i)
        } else {
            s.update(i, LevelView { px: s[i].px, orders: orders_without(s[i].orders, oid) })
        }),
    decreases s.len(),
{
    if i == 0 {
        assert(forall|t: int|
            0 <= t < s.skip(1).len() ==> !orders_has_oid((#[trigger] s.skip(1)[t]).orders, oid));
        assert(forall|t: int|
            0 <= t < s.skip(1).len() ==> (#[trigger] s.skip(1)[t]).orders.len() > 0);
        lemma_side_without_absent(s.skip(1), oid);
        let ow = orders_without(s[0].orders, oid);
        if ow.len() == 0 {
            assert(side_without(s, oid) =~= s.remove(0));
        } else {
            assert(side_without(s, oid) =~= s.update(
                0,
                LevelView { px: s[0].px, orders: ow },
            ));
        }
    } else {
        lemma_orders_without_absent(s[0].orders, oid);
        assert(forall|t: int| 0 <= t < s.skip(1).len() ==> #[trigger] s.skip(1)[t] == s[t + 1]);
        lemma_side_without_at(s.skip(1), i - 1, oid);
        assert(LevelView { px: s[0].px, orders: orders_without(s[0].orders, oid) } =~= s[0]);
        let ow = orders_without(s[i].orders, oid);
        assert(s.skip(1)[i - 1] == s[i]);
        if ow.len() == 0 {
            assert(side_without(s, oid) =~= seq![s[0]] + s.skip(1).remove(i - 1));
            assert(seq![s[0]] + s.skip(1).remove(i - 1) =~= s.remove(i));
        } else {
            assert(side_without(s, oid) =~= seq![s[0]] + s.skip(1).update(
                i - 1,
                LevelView { px: s[i].px, orders: ow },
            ));
            assert(seq![s[0]] + s.skip(1).update(i - 1, LevelView { px: s[i].px, orders: ow })
                =~= s.update(i, LevelView { px: s[i].px, orders: ow }));
        }
    }
}

/// Strips every order named `oid` out of one level's queue, keeping the
/// queue order of the rest.
fn level_remove_oid(orders: &mut Vec<Order>, oid: u64) -> (r: Ghost<Seq<int>>)
    ensures
        final(orders)@ == orders_without(old(orders)@, oid),
        r@.len() == final(orders)@.len(),
        forall|t: int|
            0 <= t < r@.len() ==> 0 <= #[trigger] r@[t] < old(orders)@.len()
                && final(orders)@[t] == old(orders)@[r@[t]],
        forall|t1: int, t2: int| 0 <= t1 < t2 < r@.len() ==> r@[t1] < r@[t2],
        forall|x: u64| #[trigger]
            orders_has_oid(final(orders)@, x) <==> (orders_has_oid(old(orders)@, x) && x
                != oid),
{
    let ghost s = orders@;
    let mut out: Vec<Order> = Vec::new();
    let ghost mut ws: Seq<int> = Seq::empty();
    let mut j: usize = 0;
    while j < orders.len()
        invariant
            0 <= j <= orders@.len(),
            orders@ == s,
            out@ == orders_without(s.take(j as int), oid),
            ws.len() == out@.len(),
            forall|t: int|
                0 <= t < ws.len() ==> 0 <= #[trigger] ws[t] < j && out@[t] == s[ws[t]],
            forall|t1: int, t2: int| 0 <= t1 < t2 < ws.len() ==> ws[t1] < ws[t2],
            forall|x: u64| #[trigger]
                orders_has_oid(out@, x) <==> (orders_has_oid(s.take(j as int), x) && x != oid),
        decreases orders@.len() - j,
    {
        let ghost preout = out@;
        if orders[j].oid != oid {
            out.push(orders[j]);
            proof {
                ws = ws.push(j as int);
            }
        }
        proof {
            lemma_orders_without_step(s, j as int, oid);
            assert forall|x: u64| #[trigger]
                orders_has_oid(out@, x) <==> (orders_has_oid(s.take(j as int + 1), x) && x
                    != oid) by {
                assert forall|x2: u64|
                    orders_has_oid(s.take(j as int + 1), x2) <==> (orders_has_oid(
                        s.take(j as int),
                        x2,
                    ) || s[j as int].oid == x2) by {
                    if orders_has_oid(s.take(j as int + 1), x2) {
                        let w = choose|w: int|
                            0 <= w < s.take(j as int + 1).len() && (#[trigger] s.take(
                                j as int + 1,
                            )[w]).oid == x2;
                        if w < j {
                            assert(s.take(j as int)[w].oid == x2);
                        }
                    }
                    if orders_has_oid(s.take(j as int), x2) {
                        let w = choose|w: int|
                            0 <= w < s.take(j as int).len() && (#[trigger] s.take(
                                j as int,
                            )[w]).oid == x2;
                        assert(s.take(j as int + 1)[w].oid == x2);
                    }
                    if s[j as int].oid == x2 {
                        assert(s.take(j as int + 1)[j as int].oid == x2);
                    }
                }
                if s[j as int].oid != oid {
                    assert(out@ == preout.push(s[j as int]));
                    if orders_has_oid(out@, x) {
                        let w = choose|w: int|
                            0 <= w < out@.len() && (#[trigger] out@[w]).oid == x;
                        if w < preout.len() {
                            assert(preout[w].oid == x);
                            assert(orders_has_oid(preout, x));
                        } else {
                            assert(out@[w] == s[j as int]);
                        }
                    }
                    if orders_has_oid(preout, x) {
                        let w = choose|w: int|
                            0 <= w < preout.len() && (#[trigger] preout[w]).oid == x;
                        assert(out@[w].oid == x);
                        assert(orders_has_oid(out@, x));
                    }
                    if s[j as int].oid == x {
                        assert(out@[preout.len() as int].oid == x);
                        assert(orders_has_oid(out@, x));
                    }
                } else {
                    assert(out@ == preout);
                    if orders_has_oid(s.take(j as int + 1), x) && x != oid {
                        assert(s[j as int].oid != x);
                        assert(orders_has_oid(s.take(j as int), x));
                        assert(orders_has_oid(preout, x));
                    }
                }
            }
        }
        j = j + 1;
    }
    proof {
        assert(s.take(s.len() as int) =~= s);
    }
    *orders = out;
    Ghost(ws)
}

proof fn lemma_orders_without_step(s: Seq<Order>, j: int, oid: u64)
    requires
        0 <= j < s.len(),
    ensures
        orders_without(s.take(j + 1), oid) == (if s[j].oid == oid {
            orders_without(s.take(j), oid)
        } else {
            orders_without(s.take(j), oid).push(s[j])
        }),
    decreases j,
{
    if j == 0 {
        assert(s.take(1) =~= seq![s[0]]);
        assert(s.take(1).skip(1) =~= Seq::<Order>::empty());
        assert(s.take(0) =~= Seq::<Order>::empty());
        if s[0].oid == oid {
            assert(orders_without(s.take(1), oid) =~= orders_without(s.take(0), oid));
        } else {
            assert(orders_without(s.take(1), oid) =~= orders_without(s.take(0), oid).push(
                s[0],
            ));
        }
    } else {
        lemma_orders_without_step(s.skip(1), j - 1, oid);
        assert(s.skip(1).take(j) =~= s.take(j + 1).skip(1));
        assert(s.skip(1).take(j - 1) =~= s.take(j).skip(1));
        assert(s.skip(1)[j - 1] == s[j]);
        assert(s.take(j + 1)[0] == s[0] && s.take(j)[0] == s[0]);
        if s[0].oid == oid {
            assert(orders_without(s.take(j + 1), oid) == orders_without(
                s.take(j + 1).skip(1),
                oid,
            ));
            assert(orders_without(s.take(j), oid) == orders_without(s.take(j).skip(1), oid));
        } else {
            assert(orders_without(s.take(j + 1), oid) == seq![s[0]] + orders_without(
                s.take(j + 1).skip(1),
                oid,
            ));
            assert(orders_without(s.take(j), oid) == seq![s[0]] + orders_without(
                s.take(j).skip(1),
                oid,
            ));
            if s[j].oid != oid {
                assert(seq![s[0]] + orders_without(s.take(j).skip(1), oid).push(s[j]) =~= (
                seq![s[0]] + orders_without(s.take(j).skip(1), oid)).push(s[j]));
            }
        }
    }
}


/// What cancelling one order does to a well-formed side: the side stays
/// well-formed and loses exactly that order id.
#[verifier::rlimit(50)]
proof fn lemma_side_cancel_props(
    s: Seq<LevelView>,
    s2: Seq<LevelView>,
    i: int,
    oid: u64,
    ws: Seq<int>,
    is_bid: bool,
)
    requires
        side_wf(s, is_bid),
        side_oids_unique(s),
        0 <= i < s.len(),
        forall|t: int|
            0 <= t < s.len() && t != i ==> !orders_has_oid((#[trigger] s[t]).orders, oid),
        ({
            let ow = orders_without(s[i].orders, oid);
            &&& ws.len() == ow.len()
            &&& (forall|t: int|
                0 <= t < ws.len() ==> 0 <= #[trigger] ws[t] < s[i].orders.len() && ow[t]
                    == s[i].orders[ws[t]])
            &&& (forall|t1: int, t2: int| 0 <= t1 < t2 < ws.len() ==> ws[t1] < ws[t2])
            &&& (forall|x: u64| #[trigger]
                orders_has_oid(ow, x) <==> (orders_has_oid(s[i].orders, x) && x != oid))
        }),
        s2 == (if orders_without(s[i].orders, oid).len() == 0 {
            s.remove(i)
        } else {
            s.update(i, LevelView { px: s[i].px, orders: orders_without(s[i].orders, oid) })
        }),
    ensures
        side_wf(s2, is_bid),
        side_oids_unique(s2),
        forall|x: u64| #[trigger] side_has_oid(s2, x) <==> (side_has_oid(s, x) && x != oid),
        forall|x: u64, p: u64| #[trigger]
            side_pair(s2, x, p) <==> (side_pair(s, x, p) && x != oid),
        s2.len() > 0 ==> (if is_bid {
            s2[0].px <= s[0].px
        } else {
            s2[0].px >= s[0].px
        }),
{
    let ow = orders_without(s[i].orders, oid);
    if ow.len() == 0 {
        assert forall|t: int| 0 <= t < s2.len() implies s2[t] == (if t < i {
            s[t]
        } else {
            s[t + 1]
        }) by {}
        assert(side_wf(s2, is_bid)) by {
            assert forall|a1: int, b1: int| 0 <= a1 < b1 < s2.len() implies (if is_bid {
                (#[trigger] s2[a1]).px > (#[trigger] s2[b1]).px
            } else {
                s2[a1].px < s2[b1].px
            }) by {
                let a2 = if a1 < i { a1 } else { a1 + 1 };
                let b2 = if b1 < i { b1 } else { b1 + 1 };
                assert(s2[a1] == s[a2] && s2[b1] == s[b2]);
            }
            assert forall|t: int| 0 <= t < s2.len() implies level_wf(#[trigger] s2[t], is_bid) by {
                let t2 = if t < i { t } else { t + 1 };
                assert(s2[t] == s[t2]);
            }
        }
        assert(side_oids_unique(s2)) by {
            assert forall|a1: int, b1: int, c1: int, d1: int|
                0 <= a1 < s2.len() && 0 <= b1 < s2[a1].orders.len() && 0 <= c1 < s2.len() && 0
                    <= d1 < s2[c1].orders.len() && (a1 != c1 || b1 != d1) implies (
            #[trigger] s2[a1].orders[b1]).oid != (#[trigger] s2[c1].orders[d1]).oid by {
                let a2 = if a1 < i { a1 } else { a1 + 1 };
                let c2 = if c1 < i { c1 } else { c1 + 1 };
                assert(s2[a1].orders[b1] == s[a2].orders[b1]);
                assert(s2[c1].orders[d1] == s[c2].orders[d1]);
            }
        }
        assert forall|x: u64| #[trigger]
            side_has_oid(s2, x) <==> (side_has_oid(s, x) && x != oid) by {
            if side_has_oid(s2, x) {
                let (u, v) = choose|u: int, v: int|
                    0 <= u < s2.len() && 0 <= v < s2[u].orders.len() && (
                    #[trigger] s2[u].orders[v]).oid == x;
                let u2 = if u < i { u } else { u + 1 };
                assert(s[u2].orders[v].oid == x);
                assert(side_has_oid(s, x));
                assert(u2 != i);
                if x == oid {
                    assert(orders_has_oid(s[u2].orders, oid));
                }
            }
            if side_has_oid(s, x) && x != oid {
                let (u, v) = choose|u: int, v: int|
                    0 <= u < s.len() && 0 <= v < s[u].orders.len() && (#[trigger] s[u].orders[v]).oid
                        == x;
                if u == i {
                    assert(orders_has_oid(s[i].orders, x));
                    assert(orders_has_oid(ow, x));
                } else {
                    let u2 = if u < i { u } else { u - 1 };
                    assert(s2[u2].orders[v].oid == x);
                    assert(side_has_oid(s2, x));
                }
            }
        }
        assert forall|x: u64, p: u64| #[trigger]
            side_pair(s2, x, p) <==> (side_pair(s, x, p) && x != oid) by {
            if side_pair(s2, x, p) {
                let (u, v) = choose|u: int, v: int|
                    0 <= u < s2.len() && 0 <= v < s2[u].orders.len() && (
                    #[trigger] s2[u].orders[v]).oid == x && s2[u].px == p;
                let u2 = if u < i { u } else { u + 1 };
                assert(s[u2].orders[v].oid == x && s[u2].px == p);
                assert(side_pair(s, x, p));
                assert(u2 != i);
                if x == oid {
                    assert(orders_has_oid(s[u2].orders, oid));
                }
            }
            if side_pair(s, x, p) && x != oid {
                let (u, v) = choose|u: int, v: int|
                    0 <= u < s.len() && 0 <= v < s[u].orders.len() && (#[trigger] s[u].orders[v]).oid
                        == x && s[u].px == p;
                if u == i {
                    assert(orders_has_oid(s[i].orders, x));
                    assert(orders_has_oid(ow, x));
                } else {
                    let u2 = if u < i { u } else { u - 1 };
                    assert(s2[u2].orders[v].oid == x && s2[u2].px == p);
                    assert(side_pair(s2, x, p));
                }
            }
        }
        if s2.len() > 0 && i == 0 {
            assert(s2[0] == s[1]);
        }
    } else {
        let l2 = LevelView { px: s[i].px, orders: ow };
        assert(s2[i] == l2);
        assert(forall|t: int| 0 <= t < s2.len() && t != i ==> #[trigger] s2[t] == s[t]);
        assert(level_wf(l2, is_bid)) by {
            assert forall|j: int| 0 <= j < ow.len() implies {
                &&& (#[trigger] ow[j]).limit_px == l2.px
                &&& ow[j].is_buy == is_bid
                &&& ow[j].sz > 0
            } by {
                assert(ow[j] == s[i].orders[ws[j]]);
            }
        }
        assert(side_wf(s2, is_bid)) by {
            assert(forall|t: int| 0 <= t < s2.len() ==> (#[trigger] s2[t]).px == s[t].px);
            assert forall|t: int| 0 <= t < s2.len() implies level_wf(#[trigger] s2[t], is_bid) by {
                if t != i {
                    assert(s2[t] == s[t]);
                }
            }
        }
        assert(side_oids_unique(s2)) by {
            assert forall|a1: int, b1: int, c1: int, d1: int|
                0 <= a1 < s2.len() && 0 <= b1 < s2[a1].orders.len() && 0 <= c1 < s2.len() && 0
                    <= d1 < s2[c1].orders.len() && (a1 != c1 || b1 != d1) implies (
            #[trigger] s2[a1].orders[b1]).oid != (#[trigger] s2[c1].orders[d1]).oid by {
                let b2 = if a1 == i { ws[b1] } else { b1 };
                let d2 = if c1 == i { ws[d1] } else { d1 };
                assert(s2[a1].orders[b1] == s[a1].orders[b2]);
                assert(s2[c1].orders[d1] == s[c1].orders[d2]);
                if a1 == c1 && a1 == i && b1 != d1 {
                    if b1 < d1 {
                        assert(ws[b1] < ws[d1]);
                    } else {
                        assert(ws[d1] < ws[b1]);
                    }
                }
                assert(a1 != c1 || b2 != d2);
            }
        }
        assert forall|x: u64| #[trigger]
            side_has_oid(s2, x) <==> (side_has_oid(s, x) && x != oid) by {
            if side_has_oid(s2, x) {
                let (u, v) = choose|u: int, v: int|
                    0 <= u < s2.len() && 0 <= v < s2[u].orders.len() && (
                    #[trigger] s2[u].orders[v]).oid == x;
                if u == i {
                    assert(orders_has_oid(ow, x));
                    assert(orders_has_oid(s[i].orders, x) && x != oid);
                    let w = choose|w: int|
                        0 <= w < s[i].orders.len() && (#[trigger] s[i].orders[w]).oid == x;
                    assert(side_has_oid(s, x));
                } else {
                    assert(s[u].orders[v].oid == x);
                    assert(side_has_oid(s, x));
                    if x == oid {
                        assert(orders_has_oid(s[u].orders, oid));
                    }
                }
            }
            if side_has_oid(s, x) && x != oid {
                let (u, v) = choose|u: int, v: int|
                    0 <= u < s.len() && 0 <= v < s[u].orders.len() && (#[trigger] s[u].orders[v]).oid
                        == x;
                if u == i {
                    assert(orders_has_oid(s[i].orders, x));
                    assert(orders_has_oid(ow, x));
                    let w = choose|w: int| 0 <= w < ow.len() && (#[trigger] ow[w]).oid == x;
                    assert(s2[i].orders[w].oid == x);
                    assert(side_has_oid(s2, x));
                } else {
                    assert(s2[u].orders[v].oid == x);
                    assert(side_has_oid(s2, x));
                }
            }
        }
        assert forall|x: u64, p: u64| #[trigger]
            side_pair(s2, x, p) <==> (side_pair(s, x, p) && x != oid) by {
            if side_pair(s2, x, p) {
                let (u, v) = choose|u: int, v: int|
                    0 <= u < s2.len() && 0 <= v < s2[u].orders.len() && (
                    #[trigger] s2[u].orders[v]).oid == x && s2[u].px == p;
                if u == i {
                    assert(orders_has_oid(ow, x));
                    assert(orders_has_oid(s[i].orders, x) && x != oid);
                    let w = choose|w: int|
                        0 <= w < s[i].orders.len() && (#[trigger] s[i].orders[w]).oid == x;
                    assert(s[i].px == p);
                    assert(side_pair(s, x, p));
                } else {
                    assert(s[u].orders[v].oid == x && s[u].px == p);
                    assert(side_pair(s, x, p));
                    if x == oid {
                        assert(orders_has_oid(s[u].orders, oid));
                    }
                }
            }
            if side_pair(s, x, p) && x != oid {
                let (u, v) = choose|u: int, v: int|
                    0 <= u < s.len() && 0 <= v < s[u].orders.len() && (#[trigger] s[u].orders[v]).oid
                        == x && s[u].px == p;
                if u == i {
                    assert(orders_has_oid(s[i].orders, x));
                    assert(orders_has_oid(ow, x));
                    let w = choose|w: int| 0 <= w < ow.len() && (#[trigger] ow[w]).oid == x;
                    assert(s2[i].orders[w].oid == x && s2[i].px == p);
                    assert(side_pair(s2, x, p));
                } else {
                    assert(s2[u].orders[v].oid == x && s2[u].px == p);
                    assert(side_pair(s2, x, p));
                }
            }
        }
    }
}

/// The position of the level priced `px` on a side, if one exists.
fn side_find_px(side: &Vec<Level>, px: u64) -> (r: Option<usize>)
    ensures
        r is Some ==> 0 <= r->0 < views(side@).len() && views(side@)[r->0 as int].px == px,
        r is None ==> forall|t: int|
            0 <= t < views(side@).len() ==> (#[trigger] views(side@)[t]).px != px,
{
    let mut i: usize = 0;
    while i < side.len()
        invariant
            0 <= i <= side@.len(),
            forall|t: int| 0 <= t < i ==> (#[trigger] views(side@)[t]).px != px,
        decreases side@.len() - i,
    {
        if side[i].px == px {
            proof {
                assert(views(side@)[i as int] == side@[i as int]@);
            }
            return Some(i);
        }
        proof {
            assert(views(side@)[i as int] == side@[i as int]@);
        }
        i = i + 1;
    }
    None
}


impl OrderBook {
    /// Removes the order named `oid` from whichever side holds it, dropping
    /// its level when emptied. Fails exactly when no resting order has that
    /// id.
    #[verifier::rlimit(100)]
    pub fn cancel(&mut self, oid: u64) -> (r: Result<(), BookError>)
        requires
            old(self).wf(),
        ensures
            final(self).wf(),
            r is Ok <==> book_has_oid(old(self)@, oid),
            r is Err ==> final(self)@ == old(self)@,
            r is Ok ==> final(self)@.bids == side_without(old(self)@.bids, oid)
                && final(self)@.asks == side_without(old(self)@.asks, oid),
            forall|x: u64| #[trigger]
                book_has_oid(final(self)@, x) ==> book_has_oid(old(self)@, x),
    {
        let ghost pre = self@;
        let ghost preidx = self.oid_to_level@;
        let found = index_get(&self.oid_to_level, oid);
        let px = match found {
            Some(px) => px,
            None => {
                proof {
                    if side_has_oid(pre.bids, oid) {
                        let (u, v) = choose|u: int, v: int|
                            0 <= u < pre.bids.len() && 0 <= v < pre.bids[u].orders.len() && (
                            #[trigger] pre.bids[u].orders[v]).oid == oid;
                        assert(side_pair(pre.bids, oid, pre.bids[u].px));
                        assert(book_pair(pre, oid, pre.bids[u].px));
                        let k = choose|k: int|
                            0 <= k < preidx.len() && #[trigger] preidx[k] == (oid, pre.bids[u].px);
                        assert(preidx[k].0 == oid);
                        assert(idx_has(preidx, oid));
                    }
                    if side_has_oid(pre.asks, oid) {
                        let (u, v) = choose|u: int, v: int|
                            0 <= u < pre.asks.len() && 0 <= v < pre.asks[u].orders.len() && (
                            #[trigger] pre.asks[u].orders[v]).oid == oid;
                        assert(side_pair(pre.asks, oid, pre.asks[u].px));
                        assert(book_pair(pre, oid, pre.asks[u].px));
                        let k = choose|k: int|
                            0 <= k < preidx.len() && #[trigger] preidx[k] == (oid, pre.asks[u].px);
                        assert(preidx[k].0 == oid);
                        assert(idx_has(preidx, oid));
                    }
                }
                return Err(BookError::OidNotFound);
            },
        };
        proof {
            assert(idx_pair(preidx, oid, px));
            let k = choose|k: int| 0 <= k < preidx.len() && #[trigger] preidx[k] == (oid, px);
            assert(book_pair(pre, preidx[k].0, preidx[k].1));
            assert(book_pair(pre, oid, px));
        }
        let bpos = side_find_px(&self.bids, px);
        match bpos {
            Some(i) => {
                proof {
                    assert(pre.bids[i as int].px == px);
                    if side_pair(pre.asks, oid, px) {
                        let (u, v) = choose|u: int, v: int|
                            0 <= u < pre.asks.len() && 0 <= v < pre.asks[u].orders.len() && (
                            #[trigger] pre.asks[u].orders[v]).oid == oid && pre.asks[u].px == px;
                        if i as int > 0 {
                            assert(pre.bids[0].px > pre.bids[i as int].px);
                        }
                        if u > 0 {
                            assert(pre.asks[0].px < pre.asks[u].px);
                        }
                        assert(false);
                    }
                    assert(side_pair(pre.bids, oid, px));
                    let (u, v) = choose|u: int, v: int|
                        0 <= u < pre.bids.len() && 0 <= v < pre.bids[u].orders.len() && (
                        #[trigger] pre.bids[u].orders[v]).oid == oid && pre.bids[u].px == px;
                    if u < i as int {
                        assert(pre.bids[u].px > pre.bids[i as int].px);
                    }
                    if u > i as int {
                        assert(pre.bids[i as int].px > pre.bids[u].px);
                    }
                    assert(u == i as int);
                    assert(orders_has_oid(pre.bids[i as int].orders, oid));
                    assert forall|t: int|
                        0 <= t < pre.bids.len() && t != i as int implies !orders_has_oid(
                        (#[trigger] pre.bids[t]).orders,
                        oid,
                    ) by {
                        if orders_has_oid(pre.bids[t].orders, oid) {
                            let w = choose|w: int|
                                0 <= w < pre.bids[t].orders.len() && (
                                #[trigger] pre.bids[t].orders[w]).oid == oid;
                            assert(pre.bids[t].orders[w].oid != pre.bids[i as int].orders[v].oid);
                        }
                    }
                    assert(side_has_oid(pre.bids, oid));
                    assert forall|t: int| 0 <= t < pre.asks.len() implies !orders_has_oid(
                        (#[trigger] pre.asks[t]).orders,
                        oid,
                    ) by {
                        if orders_has_oid(pre.asks[t].orders, oid) {
                            let w = choose|w: int|
                                0 <= w < pre.asks[t].orders.len() && (
                                #[trigger] pre.asks[t].orders[w]).oid == oid;
                            assert(side_has_oid(pre.asks, oid));
                        }
                    }
                }
                let mut lvl = self.bids.remove(i);
                let Ghost(ws) = level_remove_oid(&mut lvl.orders, oid);
                let ghost ow = orders_without(pre.bids[i as int].orders, oid);
                let kept = lvl.orders.len() > 0;
                if kept {
                    self.bids.insert(i, lvl);
                }
                index_remove(&mut self.oid_to_level, oid);
                proof {
                    let now = self@.bids;
                    let nowidx = self.oid_to_level@;
                    if kept {
                        assert forall|t: int| 0 <= t < now.len() implies now[t] == (if t
                            == i as int {
                            LevelView { px: pre.bids[i as int].px, orders: ow }
                        } else {
                            pre.bids[t]
                        }) by {}
                        assert(now =~= pre.bids.update(
                            i as int,
                            LevelView { px: pre.bids[i as int].px, orders: ow },
                        ));
                    } else {
                        assert forall|t: int| 0 <= t < now.len() implies now[t] == (if t
                            < i as int {
                            pre.bids[t]
                        } else {
                            pre.bids[t + 1]
                        }) by {}
                        assert(now =~= pre.bids.remove(i as int));
                    }
                    lemma_side_cancel_props(pre.bids, now, i as int, oid, ws, true);
                    lemma_side_without_at(pre.bids, i as int, oid);
                    lemma_side_without_absent(pre.asks, oid);
                    assert(self@.asks == pre.asks);
                    assert forall|x: u64|
                        !(#[trigger] side_has_oid(now, x) && #[trigger] side_has_oid(
                            pre.asks,
                            x,
                        )) by {}
                    if now.len() > 0 && pre.asks.len() > 0 {
                        assert(now[0].px <= pre.bids[0].px);
                    }
                    assert forall|k2: int| 0 <= k2 < nowidx.len() implies book_pair(
                        self@,
                        (#[trigger] nowidx[k2]).0,
                        nowidx[k2].1,
                    ) by {
                        let x = nowidx[k2].0;
                        let p = nowidx[k2].1;
                        assert(idx_pair(nowidx, x, p));
                        assert(idx_pair(preidx, x, p) && x != oid);
                        let k3 = choose|k3: int|
                            0 <= k3 < preidx.len() && #[trigger] preidx[k3] == (x, p);
                        assert(book_pair(pre, x, p));
                        if side_pair(pre.bids, x, p) {
                            assert(side_pair(now, x, p));
                        }
                    }
                    assert forall|x: u64, p: u64| #[trigger]
                        book_pair(self@, x, p) implies idx_pair(nowidx, x, p) by {
                        if side_pair(now, x, p) {
                            assert(side_pair(pre.bids, x, p) && x != oid);
                            assert(book_pair(pre, x, p));
                        } else {
                            assert(side_pair(pre.asks, x, p));
                            assert(book_pair(pre, x, p));
                            assert(x != oid) by {
                                if x == oid {
                                    let (u2, v2) = choose|u2: int, v2: int|
                                        0 <= u2 < pre.asks.len() && 0 <= v2 < pre.asks[
                                        u2].orders.len() && (#[trigger] pre.asks[
                                        u2].orders[v2]).oid == x && pre.asks[u2].px == p;
                                    assert(side_has_oid(pre.asks, oid));
                                }
                            }
                        }
                    }
                }
                Ok(())
            },
            None => {
                let apos = side_find_px(&self.asks, px);
                match apos {
                    Some(i) => {
                        proof {
                            assert(pre.asks[i as int].px == px);
                            if side_pair(pre.bids, oid, px) {
                                let (u, v) = choose|u: int, v: int|
                                    0 <= u < pre.bids.len() && 0 <= v < pre.bids[
                                    u].orders.len() && (#[trigger] pre.bids[u].orders[v]).oid
                                        == oid && pre.bids[u].px == px;
                                assert(views(self.bids@)[u].px == px);
                                assert(false);
                            }
                            assert(side_pair(pre.asks, oid, px));
                            let (u, v) = choose|u: int, v: int|
                                0 <= u < pre.asks.len() && 0 <= v < pre.asks[u].orders.len() && (
                                #[trigger] pre.asks[u].orders[v]).oid == oid && pre.asks[u].px
                                    == px;
                            if u < i as int {
                                assert(pre.asks[u].px < pre.asks[i as int].px);
                            }
                            if u > i as int {
                                assert(pre.asks[i as int].px < pre.asks[u].px);
                            }
                            assert(u == i as int);
                            assert(orders_has_oid(pre.asks[i as int].orders, oid));
                            assert forall|t: int|
                                0 <= t < pre.asks.len() && t != i as int implies !orders_has_oid(
                                (#[trigger] pre.asks[t]).orders,
                                oid,
                            ) by {
                                if orders_has_oid(pre.asks[t].orders, oid) {
                                    let w = choose|w: int|
                                        0 <= w < pre.asks[t].orders.len() && (
                                        #[trigger] pre.asks[t].orders[w]).oid == oid;
                                    assert(pre.asks[t].orders[w].oid != pre.asks[
                                    i as int].orders[v].oid);
                                }
                            }
                            assert(side_has_oid(pre.asks, oid));
                            assert forall|t: int| 0 <= t < pre.bids.len() implies !orders_has_oid(
                                (#[trigger] pre.bids[t]).orders,
                                oid,
                            ) by {
                                if orders_has_oid(pre.bids[t].orders, oid) {
                                    let w = choose|w: int|
                                        0 <= w < pre.bids[t].orders.len() && (
                                        #[trigger] pre.bids[t].orders[w]).oid == oid;
                                    assert(side_has_oid(pre.bids, oid));
                                }
                            }
                        }
                        let mut lvl = self.asks.remove(i);
                        let Ghost(ws) = level_remove_oid(&mut lvl.orders, oid);
                        let ghost ow = orders_without(pre.asks[i as int].orders, oid);
                        let kept = lvl.orders.len() > 0;
                        if kept {
                            self.asks.insert(i, lvl);
                        }
                        index_remove(&mut self.oid_to_level, oid);
                        proof {
                            let now = self@.asks;
                            let nowidx = self.oid_to_level@;
                            if kept {
                                assert forall|t: int| 0 <= t < now.len() implies now[t] == (if t
                                    == i as int {
                                    LevelView { px: pre.asks[i as int].px, orders: ow }
                                } else {
                                    pre.asks[t]
                                }) by {}
                                assert(now =~= pre.asks.update(
                                    i as int,
                                    LevelView { px: pre.asks[i as int].px, orders: ow },
                                ));
                            } else {
                                assert forall|t: int| 0 <= t < now.len() implies now[t] == (if t
                                    < i as int {
                                    pre.asks[t]
                                } else {
                                    pre.asks[t + 1]
                                }) by {}
                                assert(now =~= pre.asks.remove(i as int));
                            }
                            lemma_side_cancel_props(pre.asks, now, i as int, oid, ws, false);
                            lemma_side_without_at(pre.asks, i as int, oid);
                            lemma_side_without_absent(pre.bids, oid);
                            assert(self@.bids == pre.bids);
                            assert forall|x: u64|
                                !(#[trigger] side_has_oid(pre.bids, x) && #[trigger] side_has_oid(
                                    now,
                                    x,
                                )) by {}
                            if now.len() > 0 && pre.bids.len() > 0 {
                                assert(now[0].px >= pre.asks[0].px);
                            }
                            assert forall|k2: int| 0 <= k2 < nowidx.len() implies book_pair(
                                self@,
                                (#[trigger] nowidx[k2]).0,
                                nowidx[k2].1,
                            ) by {
                                let x = nowidx[k2].0;
                                let p = nowidx[k2].1;
                                assert(idx_pair(nowidx, x, p));
                                assert(idx_pair(preidx, x, p) && x != oid);
                                let k3 = choose|k3: int|
                                    0 <= k3 < preidx.len() && #[trigger] preidx[k3] == (x, p);
                                assert(book_pair(pre, x, p));
                                if side_pair(pre.asks, x, p) {
                                    assert(side_pair(now, x, p));
                                }
                            }
                            assert forall|x: u64, p: u64| #[trigger]
                                book_pair(self@, x, p) implies idx_pair(nowidx, x, p) by {
                                if side_pair(now, x, p) {
                                    assert(side_pair(pre.asks, x, p) && x != oid);
                                    assert(book_pair(pre, x, p));
                                } else {
                                    assert(side_pair(pre.bids, x, p));
                                    assert(book_pair(pre, x, p));
                                    assert(x != oid) by {
                                        if x == oid {
                                            let (u2, v2) = choose|u2: int, v2: int|
                                                0 <= u2 < pre.bids.len() && 0 <= v2 < pre.bids[
                                                u2].orders.len() && (#[trigger] pre.bids[
                                                u2].orders[v2]).oid == x && pre.bids[u2].px == p;
                                            assert(side_has_oid(pre.bids, oid));
                                        }
                                    }
                                }
                            }
                        }
                        Ok(())
                    },
                    None => {
                        proof {
                            if side_pair(pre.bids, oid, px) {
                                let (u, v) = choose|u: int, v: int|
                                    0 <= u < pre.bids.len() && 0 <= v < pre.bids[
                                    u].orders.len() && (#[trigger] pre.bids[u].orders[v]).oid
                                        == oid && pre.bids[u].px == px;
                                assert(views(self.bids@)[u].px == px);
                            }
                            if side_pair(pre.asks, oid, px) {
                                let (u, v) = choose|u: int, v: int|
                                    0 <= u < pre.asks.len() && 0 <= v < pre.asks[
                                    u].orders.len() && (#[trigger] pre.asks[u].orders[v]).oid
                                        == oid && pre.asks[u].px == px;
                                assert(views(self.asks@)[u].px == px);
                            }
                            assert(false);
                        }
                        Err(BookError::OidNotFound)
                    },
                }
            },
        }
    }
}


/// The summed size of a fill list.
pub open spec fn fills_sum(s: Seq<OrderFill>) -> int
    decreases s.len(),
{
    if s.len() == 0 {
        0
    } else {
        s[0].sz + fills_sum(s.skip(1))
    }
}

proof fn lemma_fills_sum_concat(x: Seq<OrderFill>, y: Seq<OrderFill>)
    ensures
        fills_sum(x + y) == fills_sum(x) + fills_sum(y),
    decreases x.len(),
{
    if x.len() == 0 {
        assert(x + y =~= y);
    } else {
        assert((x + y)[0] == x[0]);
        assert((x + y).skip(1) =~= x.skip(1) + y);
        lemma_fills_sum_concat(x.skip(1), y);
    }
}

proof fn lemma_complete_fills_sum(q: Seq<Order>, taker_oid: u64)
    ensures
        fills_sum(complete_fills(q, taker_oid)) == sum_prefix(q, q.len() as int),
    decreases q.len(),
{
    if q.len() == 0 {
    } else {
        lemma_complete_fills_sum(q.skip(1), taker_oid);
        let cf = complete_fills(q, taker_oid);
        assert(cf[0].sz == q[0].sz);
        assert(cf.skip(1) =~= complete_fills(q.skip(1), taker_oid));
        lemma_sum_prefix_skip(q, q.len() as int);
    }
}

proof fn lemma_level_fills_sum(s: Seq<Order>, a: int, taker_oid: u64)
    requires
        a >= 0,
    ensures
        fills_sum(level_fills(s, a, taker_oid)) == a - level_rem_after(s, a),
        0 <= level_rem_after(s, a) <= a,
{
    lemma_cc_props(s, a);
    let k = complete_count(s, a);
    let complete = complete_fills(s.take(k), taker_oid);
    lemma_complete_fills_sum(s.take(k), taker_oid);
    lemma_sum_prefix_take(s, k, k);
    assert(fills_sum(complete) == sum_prefix(s, k));
    lemma_sum_prefix_mono(s, 0, k);
    if k < s.len() && partial_sz(s, a) > 0 {
        let pf = OrderFill { maker_oid: s[k].oid, taker_oid, sz: partial_sz(s, a) as u64 };
        let p = level_fills(s, a, taker_oid);
        assert(p == complete.push(pf));
        lemma_fills_sum_concat(complete, seq![pf]);
        assert(complete.push(pf) =~= complete + seq![pf]);
        assert(seq![pf].skip(1) =~= Seq::<OrderFill>::empty());
        assert(fills_sum(Seq::<OrderFill>::empty()) == 0);
        assert(fills_sum(seq![pf]) == pf.sz);
    }
}

proof fn lemma_match_side_fills_sum(
    levels: Seq<LevelView>,
    taker_is_buy: bool,
    limit_px: u64,
    amount: int,
    taker_oid: u64,
)
    requires
        amount >= 0,
    ensures
        ({
            let r = match_side(levels, taker_is_buy, limit_px, amount, taker_oid);
            &&& fills_sum(r.2) == amount - r.1
            &&& 0 <= r.1 <= amount
        }),
    decreases levels.len(),
{
    let r = match_side(levels, taker_is_buy, limit_px, amount, taker_oid);
    if amount <= 0 || levels.len() == 0 || !px_crosses(taker_is_buy, limit_px, levels[0].px) {
    } else {
        let orders2 = level_orders_after(levels[0].orders, amount);
        let rem1 = level_rem_after(levels[0].orders, amount);
        let fl1 = level_fills(levels[0].orders, amount, taker_oid);
        lemma_level_fills_sum(levels[0].orders, amount, taker_oid);
        if orders2.len() == 0 {
            lemma_match_side_fills_sum(levels.skip(1), taker_is_buy, limit_px, rem1, taker_oid);
            let r2 = match_side(levels.skip(1), taker_is_buy, limit_px, rem1, taker_oid);
            lemma_fills_sum_concat(fl1, r2.2);
        }
    }
}

/// Fill accounting: the size matched at placement equals the summed sizes of
/// the fills that the placement emitted, and the residual never exceeds the
/// order's size. An accepted order's recorded cumulative fill therefore
/// equals the sum of its recorded fills when the record is created.
pub proof fn lemma_limit_fill_accounting(v: BookView, o: Order)
    ensures
        ({
            let r = book_limit(v, o);
            &&& fills_sum(r.2) == o.sz - r.1
            &&& 0 <= r.1 <= o.sz
        }),
{
    if o.is_buy {
        lemma_match_side_fills_sum(v.asks, true, o.limit_px, o.sz as int, o.oid);
    } else {
        lemma_match_side_fills_sum(v.bids, false, o.limit_px, o.sz as int, o.oid);
    }
}

proof fn lemma_orders_without_concat(x: Seq<Order>, y: Seq<Order>, oid: u64)
    ensures
        orders_without(x + y, oid) == orders_without(x, oid) + orders_without(y, oid),
    decreases x.len(),
{
    if x.len() == 0 {
        assert(x + y =~= y);
        assert(orders_without(x, oid) + orders_without(y, oid) =~= orders_without(y, oid));
    } else {
        assert((x + y)[0] == x[0]);
        assert((x + y).skip(1) =~= x.skip(1) + y);
        lemma_orders_without_concat(x.skip(1), y, oid);
        if x[0].oid == oid {
        } else {
            assert(seq![x[0]] + (orders_without(x.skip(1), oid) + orders_without(y, oid)) =~= (
            seq![x[0]] + orders_without(x.skip(1), oid)) + orders_without(y, oid));
        }
    }
}

proof fn lemma_cancel_undoes_enqueue(s: Seq<LevelView>, o: Order, is_bid: bool)
    requires
        side_wf(s, is_bid),
        !side_has_oid(s, o.oid),
    ensures
        side_without(side_enqueue(s, o, is_bid), o.oid) == s,
    decreases s.len(),
{
    let e = side_enqueue(s, o, is_bid);
    assert forall|t: int| 0 <= t < s.len() implies !orders_has_oid(
        (#[trigger] s[t]).orders,
        o.oid,
    ) by {
        if orders_has_oid(s[t].orders, o.oid) {
            let w = choose|w: int|
                0 <= w < s[t].orders.len() && (#[trigger] s[t].orders[w]).oid == o.oid;
            assert(side_has_oid(s, o.oid));
        }
    }
    if s.len() == 0 {
        assert(e =~= seq![LevelView { px: o.limit_px, orders: seq![o] }]);
        assert(e[0].orders == seq![o]);
        assert(seq![o][0].oid == o.oid);
        assert(seq![o].skip(1) =~= Seq::<Order>::empty());
        assert(orders_without(Seq::<Order>::empty(), o.oid) =~= Seq::<Order>::empty());
        assert(orders_without(seq![o], o.oid) =~= Seq::<Order>::empty());
        assert(e.skip(1) =~= Seq::<LevelView>::empty());
        assert(side_without(Seq::<LevelView>::empty(), o.oid) =~= Seq::<LevelView>::empty());
        assert(side_without(e.skip(1), o.oid) =~= Seq::<LevelView>::empty());
        assert(side_without(e, o.oid) =~= s);
    } else if s[0].px == o.limit_px {
        let q = s[0].orders;
        assert(q.push(o) =~= q + seq![o]);
        lemma_orders_without_concat(q, seq![o], o.oid);
        lemma_orders_without_absent(q, o.oid);
        assert(seq![o][0].oid == o.oid);
        assert(seq![o].skip(1) =~= Seq::<Order>::empty());
        assert(orders_without(Seq::<Order>::empty(), o.oid) =~= Seq::<Order>::empty());
        assert(orders_without(seq![o], o.oid) =~= Seq::<Order>::empty());
        assert(orders_without(q.push(o), o.oid) =~= q);
        assert(e[0] == (LevelView { px: s[0].px, orders: q.push(o) }));
        assert(e.skip(1) =~= s.skip(1));
        assert forall|t: int| 0 <= t < s.skip(1).len() implies !orders_has_oid(
            (#[trigger] s.skip(1)[t]).orders,
            o.oid,
        ) && (#[trigger] s.skip(1)[t]).orders.len() > 0 by {
            assert(s.skip(1)[t] == s[t + 1]);
        }
        lemma_side_without_absent(s.skip(1), o.oid);
        assert(side_without(e, o.oid) =~= s);
    } else if (if is_bid {
        s[0].px > o.limit_px
    } else {
        s[0].px < o.limit_px
    }) {
        assert(e == seq![s[0]] + side_enqueue(s.skip(1), o, is_bid));
        assert(side_wf(s.skip(1), is_bid)) by {
            assert(forall|t: int| 0 <= t < s.skip(1).len() ==> #[trigger] s.skip(1)[t] == s[t
                + 1]);
        }
        assert(!side_has_oid(s.skip(1), o.oid)) by {
            if side_has_oid(s.skip(1), o.oid) {
                let (u, v) = choose|u: int, v: int|
                    0 <= u < s.skip(1).len() && 0 <= v < s.skip(1)[u].orders.len() && (
                    #[trigger] s.skip(1)[u].orders[v]).oid == o.oid;
                assert(s[u + 1].orders[v].oid == o.oid);
                assert(side_has_oid(s, o.oid));
            }
        }
        lemma_cancel_undoes_enqueue(s.skip(1), o, is_bid);
        lemma_orders_without_absent(s[0].orders, o.oid);
        assert(e[0] == s[0]);
        assert(e.skip(1) =~= side_enqueue(s.skip(1), o, is_bid));
        assert(LevelView { px: e[0].px, orders: orders_without(e[0].orders, o.oid) } =~= s[0]);
        assert(side_without(e, o.oid) =~= seq![s[0]] + side_without(
            side_enqueue(s.skip(1), o, is_bid),
            o.oid,
        ));
        assert(seq![s[0]] + s.skip(1) =~= s);
    } else {
        assert(e == seq![LevelView { px: o.limit_px, orders: seq![o] }] + s);
        assert(e[0].orders == seq![o]);
        assert(seq![o][0].oid == o.oid);
        assert(seq![o].skip(1) =~= Seq::<Order>::empty());
        assert(orders_without(Seq::<Order>::empty(), o.oid) =~= Seq::<Order>::empty());
        assert(orders_without(seq![o], o.oid) =~= Seq::<Order>::empty());
        assert(e.skip(1) =~= s);
        lemma_side_without_absent(s, o.oid);
        assert(side_without(e, o.oid) =~= s);
    }
}

/// The round trip of resting and cancelling: a non-crossing order matches
/// nothing, rests whole, and a cancellation of it returns both sides of the
/// book to their pre-placement state.
pub proof fn lemma_place_then_cancel_restores(v: BookView, o: Order)
    requires
        side_wf(v.bids, true),
        side_wf(v.asks, false),
        o.sz > 0,
        !book_has_oid(v, o.oid),
        o.is_buy ==> (v.asks.len() == 0 || !px_crosses(true, o.limit_px, v.asks[0].px)),
        !o.is_buy ==> (v.bids.len() == 0 || !px_crosses(false, o.limit_px, v.bids[0].px)),
    ensures
        ({
            let r = book_limit(v, o);
            &&& r.1 == o.sz
            &&& r.2 == Seq::<OrderFill>::empty()
            &&& side_without(r.0.bids, o.oid) == v.bids
            &&& side_without(r.0.asks, o.oid) == v.asks
        }),
{
    assert forall|t: int| 0 <= t < v.bids.len() implies !orders_has_oid(
        (#[trigger] v.bids[t]).orders,
        o.oid,
    ) by {
        if orders_has_oid(v.bids[t].orders, o.oid) {
            let w = choose|w: int|
                0 <= w < v.bids[t].orders.len() && (#[trigger] v.bids[t].orders[w]).oid == o.oid;
            assert(side_has_oid(v.bids, o.oid));
        }
    }
    assert forall|t: int| 0 <= t < v.asks.len() implies !orders_has_oid(
        (#[trigger] v.asks[t]).orders,
        o.oid,
    ) by {
        if orders_has_oid(v.asks[t].orders, o.oid) {
            let w = choose|w: int|
                0 <= w < v.asks[t].orders.len() && (#[trigger] v.asks[t].orders[w]).oid == o.oid;
            assert(side_has_oid(v.asks, o.oid));
        }
    }
    if o.is_buy {
        lemma_cancel_undoes_enqueue(v.bids, o, true);
        lemma_side_without_absent(v.asks, o.oid);
    } else {
        lemma_cancel_undoes_enqueue(v.asks, o, false);
        lemma_side_without_absent(v.bids, o.oid);
    }
}

/// The empty-book boundary: the sentinels are `0` and `u64::MAX`, and a
/// first order rests whole without filling, regardless of side or price.
pub proof fn lemma_empty_book_first_rest(v: BookView, o: Order)
    requires
        v.bids.len() == 0,
        v.asks.len() == 0,
        o.sz > 0,
    ensures
        spec_bid_max(v) == 0,
        spec_ask_min(v) == u64::MAX,
        ({
            let r = book_limit(v, o);
            &&& r.1 == o.sz
            &&& r.2 == Seq::<OrderFill>::empty()
            &&& book_has_oid(r.0, o.oid)
        }),
{
    let r = book_limit(v, o);
    if o.is_buy {
        assert(r.0.bids =~= seq![LevelView { px: o.limit_px, orders: seq![o] }]);
        assert(r.0.bids[0].orders[0].oid == o.oid);
        assert(side_has_oid(r.0.bids, o.oid));
    } else {
        assert(r.0.asks =~= seq![LevelView { px: o.limit_px, orders: seq![o] }]);
        assert(r.0.asks[0].orders[0].oid == o.oid);
        assert(side_has_oid(r.0.asks, o.oid));
    }
}


} // verus!
