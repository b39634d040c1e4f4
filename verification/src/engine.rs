//! The engine coordinator: sequences a place-order through balance
//! reservation, order-id allocation, matching, and settlement of the taker
//! and every affected maker; handles cancellation, withdrawal, deposit, and
//! status lookup.

use vstd::prelude::*;

use crate::addr::Addr;
use crate::ledger::{Ledger, UserBalance};
use crate::order::{FillStatus, FillStatusView, Order, OrderFill};
use crate::orderbook::{book_has_oid, book_limit, side_without, OrderBook};

verus! {

/// No order id appears twice in the status registry.
pub open spec fn st_keys_distinct(s: Seq<(u64, FillStatus)>) -> bool {
    forall|i: int, j: int| 0 <= i < j < s.len() ==> (#[trigger] s[i]).0 != (#[trigger] s[j]).0
}

/// The registry entries as a map from order id to status record value.
pub open spec fn st_view(s: Seq<(u64, FillStatus)>) -> Map<u64, FillStatusView> {
    Map::new(
        |o: u64| exists|t: int| 0 <= t < s.len() && (#[trigger] s[t]).0 == o,
        |o: u64|
            {
                let t = choose|t: int| 0 <= t < s.len() && (#[trigger] s[t]).0 == o;
                s[t].1@
            },
    )
}

proof fn lemma_st_view_at(s: Seq<(u64, FillStatus)>, k: int)
    requires
        st_keys_distinct(s),
        0 <= k < s.len(),
    ensures
        st_view(s).contains_key(s[k].0),
        st_view(s)[s[k].0] == s[k].1@,
{
    let o = s[k].0;
    assert(0 <= k < s.len() && s[k].0 == o);
    assert(st_view(s).contains_key(o));
    let t = choose|t: int| 0 <= t < s.len() && (#[trigger] s[t]).0 == o;
    assert(0 <= t < s.len() && s[t].0 == o);
    if t < k {
        assert(s[t].0 != s[k].0);
    } else if t > k {
        assert(s[k].0 != s[t].0);
    }
    assert(t == k);
}

/// The order status registry: one lifecycle record per accepted order,
/// never removed.
pub struct StatusMap {
    pub entries: Vec<(u64, FillStatus)>,
}

impl View for StatusMap {
    type V = Map<u64, FillStatusView>;

    open spec fn view(&self) -> Map<u64, FillStatusView> {
        st_view(self.entries@)
    }
}

impl StatusMap {
    /// The registry invariant: one record per order id.
    pub open spec fn wf(&self) -> bool {
        st_keys_distinct(self.entries@)
    }

    /// The empty registry.
    pub fn new() -> (r: StatusMap)
        ensures
            r.wf(),
            r@ == Map::<u64, FillStatusView>::empty(),
    {
        let r = StatusMap { entries: Vec::new() };
        proof {
            assert(r@ =~= Map::<u64, FillStatusView>::empty());
        }
        r
    }

    fn find(&self, oid: u64) -> (r: Option<usize>)
        ensures
            r is Some ==> 0 <= r->0 < self.entries@.len() && self.entries@[r->0 as int].0 == oid,
            r is None ==> !self@.contains_key(oid),
    {
        let mut i: usize = 0;
        while i < self.entries.len()
            invariant
                0 <= i <= self.entries@.len(),
                forall|t: int| 0 <= t < i ==> (#[trigger] self.entries@[t]).0 != oid,
            decreases self.entries@.len() - i,
        {
            if self.entries[i].0 == oid {
                return Some(i);
            }
            i = i + 1;
        }
        proof {
            if self@.contains_key(oid) {
                let t = choose|t: int|
                    0 <= t < self.entries@.len() && (#[trigger] self.entries@[t]).0 == oid;
                assert(self.entries@[t].0 != oid);
            }
        }
        None
    }

    /// A copy of the record for an order id, or `None` when none exists.
    pub fn get_copy(&self, oid: u64) -> (r: Option<FillStatus>)
        requires
            self.wf(),
        ensures
            r is Some <==> self@.contains_key(oid),
            r is Some ==> r->0@ == self@[oid],
    {
        match self.find(oid) {
            Some(i) => {
                proof {
                    lemma_st_view_at(self.entries@, i as int);
                }
                Some(self.entries[i].1.duplicate())
            },
            None => None,
        }
    }

    /// Writes a record, replacing any record under the same id.
    pub fn set(&mut self, oid: u64, st: FillStatus)
        requires
            old(self).wf(),
        ensures
            final(self).wf(),
            final(self)@ == old(self)@.insert(oid, st@),
    {
        let ghost s = self.entries@;
        let ghost stv = st@;
        let pos = self.find(oid);
        match pos {
            Some(i) => {
                self.entries.remove(i);
                self.entries.insert(i, (oid, st));
                proof {
                    let s2 = self.entries@;
                    assert forall|t: int| 0 <= t < s2.len() && t != i as int implies s2[t]
                        == s[t] by {}
                    assert(s2[i as int].0 == oid && s2[i as int].1@ == stv);
                    assert(st_keys_distinct(s2)) by {
                        assert forall|t1: int, t2: int| 0 <= t1 < t2 < s2.len() implies (
                        #[trigger] s2[t1]).0 != (#[trigger] s2[t2]).0 by {
                            assert(s2[t1].0 == s[t1].0 && s2[t2].0 == s[t2].0);
                        }
                    }
                    assert(st_view(s2) =~= st_view(s).insert(oid, stv)) by {
                        assert forall|x: u64|
                            st_view(s2).contains_key(x) <==> st_view(s).insert(
                                oid,
                                stv,
                            ).contains_key(x) by {
                            if st_view(s2).contains_key(x) {
                                let t = choose|t: int| 0 <= t < s2.len() && (#[trigger] s2[t]).0
                                    == x;
                                assert(s[t].0 == x);
                            }
                            if st_view(s).contains_key(x) {
                                let t = choose|t: int| 0 <= t < s.len() && (#[trigger] s[t]).0
                                    == x;
                                assert(s2[t].0 == x);
                            }
                            if x == oid {
                                assert(s2[i as int].0 == x);
                            }
                        }
                        assert forall|x: u64| st_view(s2).contains_key(x) implies st_view(s2)[x]
                            == st_view(s).insert(oid, stv)[x] by {
                            let t = choose|t: int| 0 <= t < s2.len() && (#[trigger] s2[t]).0
                                == x;
                            lemma_st_view_at(s2, t);
                            if x == oid {
                                if t != i as int {
                                    assert(s[t].0 == x && s[i as int].0 == x);
                                    assert(false);
                                }
                                assert(st_view(s2)[x] == stv);
                            } else {
                                assert(t != i as int);
                                assert(s[t].0 == x);
                                lemma_st_view_at(s, t);
                                assert(st_view(s2)[x] == s2[t].1@ && s2[t].1@ == s[t].1@);
                            }
                        }
                    }
                }
            },
            None => {
                self.entries.push((oid, st));
                proof {
                    let s2 = self.entries@;
                    assert forall|t: int| 0 <= t < s.len() implies (#[trigger] s[t]).0 != oid by {
                        if s[t].0 == oid {
                            assert(st_view(s).contains_key(oid));
                        }
                    }
                    assert(st_keys_distinct(s2)) by {
                        assert forall|t1: int, t2: int| 0 <= t1 < t2 < s2.len() implies (
                        #[trigger] s2[t1]).0 != (#[trigger] s2[t2]).0 by {
                            if t2 == s.len() {
                                assert(s2[t1].0 == s[t1].0 && s2[t2].0 == oid);
                            } else {
                                assert(s2[t1].0 == s[t1].0 && s2[t2].0 == s[t2].0);
                            }
                        }
                    }
                    assert(st_view(s2) =~= st_view(s).insert(oid, stv)) by {
                        assert forall|x: u64|
                            st_view(s2).contains_key(x) <==> st_view(s).insert(
                                oid,
                                stv,
                            ).contains_key(x) by {
                            if st_view(s2).contains_key(x) {
                                let t = choose|t: int| 0 <= t < s2.len() && (#[trigger] s2[t]).0
                                    == x;
                                if t < s.len() {
                                    assert(s[t].0 == x);
                                } else {
                                    assert(x == oid);
                                }
                            }
                            if st_view(s).contains_key(x) {
                                let t = choose|t: int| 0 <= t < s.len() && (#[trigger] s[t]).0
                                    == x;
                                assert(s2[t].0 == x);
                            }
                            if x == oid {
                                assert(s2[s.len() as int].0 == x);
                            }
                        }
                        assert forall|x: u64| st_view(s2).contains_key(x) implies st_view(s2)[x]
                            == st_view(s).insert(oid, stv)[x] by {
                            let t = choose|t: int| 0 <= t < s2.len() && (#[trigger] s2[t]).0
                                == x;
                            lemma_st_view_at(s2, t);
                            if x == oid {
                                assert(t == s.len()) by {
                                    if t < s.len() {
                                        assert(s[t].0 != oid);
                                    }
                                }
                                assert(st_view(s2)[x] == stv);
                            } else {
                                assert(t < s.len());
                                assert(s[t].0 == x);
                                lemma_st_view_at(s, t);
                                assert(st_view(s2)[x] == s2[t].1@ && s2[t].1@ == s[t].1@);
                            }
                        }
                    }
                }
            },
        }
    }
}

/// Addition on u64 quantities that pins at the maximum instead of wrapping.
pub open spec fn sat_add(x: u64, y: u64) -> u64 {
    if x + y > u64::MAX {
        u64::MAX
    } else {
        (x + y) as u64
    }
}

fn sat_add_u64(x: u64, y: u64) -> (r: u64)
    ensures
        r == sat_add(x, y),
{
    if x > u64::MAX - y {
        u64::MAX
    } else {
        x + y
    }
}

/// Settling one fill: the maker's record gains the fill and its size, and
/// the maker's account is credited on the side opposite to the taker's
/// spend. A fill whose maker has no record or whose owner has no account
/// changes nothing there.
pub open spec fn settle_one(
    reg: Map<u64, FillStatusView>,
    bal: Map<Seq<u8>, UserBalance>,
    f: OrderFill,
    taker_is_buy: bool,
) -> (Map<u64, FillStatusView>, Map<Seq<u8>, UserBalance>) {
    if reg.contains_key(f.maker_oid) {
        let st = reg[f.maker_oid];
        let st2 = FillStatusView {
            oid: st.oid,
            sz: st.sz,
            addr: st.addr,
            filled_sz: sat_add(st.filled_sz, f.sz),
            fills: st.fills.push(f),
        };
        let reg2 = reg.insert(f.maker_oid, st2);
        let bal2 = if bal.contains_key(st.addr) {
            let ub = bal[st.addr];
            let ub2 = if taker_is_buy {
                UserBalance { a: ub.a, b: sat_add(ub.b, f.sz) }
            } else {
                UserBalance { a: sat_add(ub.a, f.sz), b: ub.b }
            };
            bal.insert(st.addr, ub2)
        } else {
            bal
        };
        (reg2, bal2)
    } else {
        (reg, bal)
    }
}

/// Settling a fill list in emission order.
pub open spec fn settle_fills(
    reg: Map<u64, FillStatusView>,
    bal: Map<Seq<u8>, UserBalance>,
    fills: Seq<OrderFill>,
    taker_is_buy: bool,
) -> (Map<u64, FillStatusView>, Map<Seq<u8>, UserBalance>)
    decreases fills.len(),
{
    if fills.len() == 0 {
        (reg, bal)
    } else {
        let r1 = settle_one(reg, bal, fills[0], taker_is_buy);
        settle_fills(r1.0, r1.1, fills.skip(1), taker_is_buy)
    }
}

/// A cancellation request body.
#[derive(Clone, Copy, PartialEq, Eq, Structural, Debug)]
pub struct CancelRequest {
    pub oid: u64,
}

/// A cancellation response body.
#[derive(Clone, Copy, PartialEq, Eq, Structural, Debug)]
pub struct CancelResponse {
    pub success: bool,
}

/// A status lookup request body.
#[derive(Clone, Copy, PartialEq, Eq, Structural, Debug)]
pub struct OrderStatusRequest {
    pub oid: u64,
}

/// A status lookup response body.
pub struct OrderStatusResponse {
    pub status: Option<FillStatus>,
}

/// The whole exchange state: ledger, book, status registry, and the
/// monotonic order-id counter.
pub struct Engine {
    pub balances: Ledger,
    pub book: OrderBook,
    pub order_status: StatusMap,
    pub oid: u64,
}

impl Engine {
    /// The engine invariant: each component well-formed, and the counter
    /// strictly above every order id ever assigned.
    pub open spec fn wf(&self) -> bool {
        &&& self.balances.wf()
        &&& self.book.wf()
        &&& self.order_status.wf()
        &&& forall|x: u64| #[trigger] self.order_status@.contains_key(x) ==> x < self.oid
        &&& forall|x: u64| #[trigger] book_has_oid(self.book@, x) ==> x < self.oid
    }

    /// A fresh exchange: no accounts, an empty book, no records, counter at
    /// zero.
    pub fn new() -> (r: Engine)
        ensures
            r.wf(),
            r.balances@ == Map::<Seq<u8>, UserBalance>::empty(),
            r.order_status@ == Map::<u64, FillStatusView>::empty(),
            r.book@.bids.len() == 0,
            r.book@.asks.len() == 0,
            r.oid == 0,
    {
        Engine {
            balances: Ledger::new(),
            book: OrderBook::default(),
            order_status: StatusMap::new(),
            oid: 0,
        }
    }

    /// Deposit: upserts the account, replacing any existing balances with
    /// the supplied amounts.
    pub fn deposit(&mut self, addr: Addr, amounts: UserBalance)
        requires
            old(self).wf(),
        ensures
            final(self).wf(),
            final(self).balances@ == old(self).balances@.insert(addr@, amounts),
            final(self).book@ == old(self).book@,
            final(self).order_status@ == old(self).order_status@,
            final(self).oid == old(self).oid,
    {
        self.balances.set(addr, amounts);
    }

    /// Withdraw: debits both assets when the account exists and holds
    /// enough of each; otherwise changes nothing and reports failure.
    pub fn withdraw(&mut self, addr: &Addr, amounts: UserBalance) -> (r: bool)
        requires
            old(self).wf(),
        ensures
            final(self).wf(),
            ({
                let lb = old(self).balances@;
                if lb.contains_key(addr@) && lb[addr@].a >= amounts.a && lb[addr@].b
                    >= amounts.b {
                    &&& r
                    &&& final(self).balances@ == lb.insert(
                        addr@,
                        UserBalance {
                            a: (lb[addr@].a - amounts.a) as u64,
                            b: (lb[addr@].b - amounts.b) as u64,
                        },
                    )
                } else {
                    &&& !r
                    &&& final(self).balances@ == lb
                }
            }),
            final(self).book@ == old(self).book@,
            final(self).order_status@ == old(self).order_status@,
            final(self).oid == old(self).oid,
    {
        match self.balances.get(addr) {
            None => false,
            Some(ub) => {
                if ub.a < amounts.a || ub.b < amounts.b {
                    false
                } else {
                    self.balances.set(
                        addr.duplicate(),
                        UserBalance { a: ub.a - amounts.a, b: ub.b - amounts.b },
                    );
                    true
                }
            },
        }
    }

    /// Status lookup: a copy of the record, or `None` for an unknown id.
    pub fn order_status(&self, req: OrderStatusRequest) -> (r: OrderStatusResponse)
        requires
            self.wf(),
        ensures
            r.status is Some <==> self.order_status@.contains_key(req.oid),
            r.status is Some ==> r.status->0@ == self.order_status@[req.oid],
    {
        OrderStatusResponse { status: self.order_status.get_copy(req.oid) }
    }

    /// Cancel: removes the order from the book. Reserved balance is not
    /// restored. Fails exactly when the id rests nowhere in the book.
    pub fn cancel(&mut self, req: CancelRequest) -> (r: CancelResponse)
        requires
            old(self).wf(),
        ensures
            final(self).wf(),
            r.success <==> book_has_oid(old(self).book@, req.oid),
            r.success ==> final(self).book@.bids == side_without(old(self).book@.bids, req.oid)
                && final(self).book@.asks == side_without(old(self).book@.asks, req.oid),
            !r.success ==> final(self).book@ == old(self).book@,
            final(self).balances@ == old(self).balances@,
            final(self).order_status@ == old(self).order_status@,
            final(self).oid == old(self).oid,
    {
        let success = match self.book.cancel(req.oid) {
            Ok(_) => true,
            Err(_) => false,
        };
        CancelResponse { success }
    }

    /// Place order: reserve the taker's spend side, allocate the next order
    /// id, match against the book, settle the taker and every maker, and
    /// record the taker's status. Returns `None`, changing nothing, when
    /// the account is unknown or underfunded. Credits saturate at
    /// `u64::MAX`.
    #[verifier::rlimit(50)]
    pub fn place_order(&mut self, addr: Addr, is_buy: bool, limit_px: u64, sz: u64) -> (r:
        Option<FillStatus>)
        requires
            old(self).wf(),
            old(self).oid < u64::MAX,
        ensures
            final(self).wf(),
            ({
                let pre = old(self);
                let a = addr@;
                let funded = pre.balances@.contains_key(a) && (if is_buy {
                    pre.balances@[a].b >= sz
                } else {
                    pre.balances@[a].a >= sz
                });
                if funded {
                    let taker = Order { is_buy, limit_px, sz, oid: pre.oid };
                    let mres = book_limit(pre.book@, taker);
                    let filled = (sz - mres.1) as u64;
                    let ub = pre.balances@[a];
                    let ub1 = if is_buy {
                        UserBalance { a: sat_add(ub.a, filled), b: (ub.b - sz) as u64 }
                    } else {
                        UserBalance { a: (ub.a - sz) as u64, b: sat_add(ub.b, filled) }
                    };
                    let sres = settle_fills(
                        pre.order_status@,
                        pre.balances@.insert(a, ub1),
                        mres.2,
                        is_buy,
                    );
                    let stv = FillStatusView {
                        oid: pre.oid,
                        sz,
                        addr: a,
                        filled_sz: filled,
                        fills: mres.2,
                    };
                    &&& r is Some
                    &&& r->0@ == stv
                    &&& final(self).book@ == mres.0
                    &&& final(self).oid == pre.oid + 1
                    &&& final(self).balances@ == sres.1
                    &&& final(self).order_status@ == sres.0.insert(pre.oid, stv)
                } else {
                    &&& r is None
                    &&& final(self).book@ == pre.book@
                    &&& final(self).oid == pre.oid
                    &&& final(self).balances@ == pre.balances@
                    &&& final(self).order_status@ == pre.order_status@
                }
            }),
    {
        let ub = match self.balances.get(&addr) {
            None => {
                return None;
            },
            Some(ub) => ub,
        };
        if is_buy {
            if ub.b < sz {
                return None;
            }
        } else {
            if ub.a < sz {
                return None;
            }
        }
        let taker_oid = self.oid;
        self.oid = self.oid + 1;
        let taker = Order::new(is_buy, limit_px, sz, taker_oid);
        let ghost pre_book = self.book@;
        proof {
            if book_has_oid(self.book@, taker_oid) {
                assert(taker_oid < taker_oid);
            }
        }
        let matched = if sz > 0 {
            self.book.limit(taker)
        } else {
            (0u64, Vec::<OrderFill>::new())
        };
        let rem = matched.0;
        let fills = matched.1;
        proof {
            if sz == 0 {
                assert(book_limit(pre_book, taker).0 =~= pre_book);
                assert(book_limit(pre_book, taker).1 == 0);
                assert(book_limit(pre_book, taker).2 =~= Seq::<OrderFill>::empty());
                assert(fills@ =~= book_limit(pre_book, taker).2);
            }
        }
        let filled = sz - rem;
        let ub1 = if is_buy {
            UserBalance { a: sat_add_u64(ub.a, filled), b: ub.b - sz }
        } else {
            UserBalance { a: ub.a - sz, b: sat_add_u64(ub.b, filled) }
        };
        self.balances.set(addr.duplicate(), ub1);
        let ghost reg0 = self.order_status@;
        let ghost bal0 = self.balances@;
        let ghost bsnap = self.book;
        proof {
            assert(fills@.skip(0) =~= fills@);
        }
        let mut i: usize = 0;
        while i < fills.len()
            invariant
                0 <= i <= fills@.len(),
                self.balances.wf(),
                self.order_status.wf(),
                self.book == bsnap,
                self.book.wf(),
                self.oid == old(self).oid + 1,
                forall|x: u64| #[trigger]
                    self.order_status@.contains_key(x) ==> (reg0.contains_key(x) || x
                        < self.oid),
                forall|x: u64| #[trigger] reg0.contains_key(x) ==> x < self.oid,
                forall|x: u64| #[trigger] book_has_oid(self.book@, x) ==> x < self.oid,
                ({
                    let sres = settle_fills(reg0, bal0, fills@, is_buy);
                    let scur = settle_fills(
                        self.order_status@,
                        self.balances@,
                        fills@.skip(i as int),
                        is_buy,
                    );
                    scur.0 == sres.0 && scur.1 == sres.1
                }),
            decreases fills@.len() - i,
        {
            let ghost regpre = self.order_status@;
            let ghost balpre = self.balances@;
            let f = fills[i];
            match self.order_status.get_copy(f.maker_oid) {
                Some(st) => {
                    let maddr = st.addr.duplicate();
                    let mut st2 = st;
                    st2.filled_sz = sat_add_u64(st2.filled_sz, f.sz);
                    st2.fills.push(f);
                    self.order_status.set(f.maker_oid, st2);
                    match self.balances.get(&maddr) {
                        Some(mb) => {
                            let mb2 = if is_buy {
                                UserBalance { a: mb.a, b: sat_add_u64(mb.b, f.sz) }
                            } else {
                                UserBalance { a: sat_add_u64(mb.a, f.sz), b: mb.b }
                            };
                            self.balances.set(maddr, mb2);
                        },
                        None => {},
                    }
                },
                None => {},
            }
            proof {
                assert(fills@.skip(i as int)[0] == fills@[i as int]);
                assert(fills@.skip(i as int).skip(1) =~= fills@.skip(i as int + 1));
                let s1 = settle_one(regpre, balpre, fills@[i as int], is_buy);
                assert(self.order_status@ == s1.0 && self.balances@ == s1.1);
            }
            i = i + 1;
        }
        proof {
            assert(fills@.skip(fills@.len() as int) =~= Seq::<OrderFill>::empty());
        }
        let status = FillStatus { oid: taker_oid, sz, addr, filled_sz: filled, fills };
        self.order_status.set(taker_oid, status.duplicate());
        Some(status)
    }
}


} // verus!
