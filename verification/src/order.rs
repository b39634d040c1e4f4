//! Order, fill, and status record types shared by the book and the engine.

use vstd::prelude::*;

use crate::addr::Addr;

verus! {

/// One limit order: side, limit price in ticks, remaining size in asset-A
/// units, and a process-unique order id.
#[derive(Clone, Copy, PartialEq, Eq, Structural, Debug)]
pub struct Order {
    pub is_buy: bool,
    pub limit_px: u64,
    pub sz: u64,
    pub oid: u64,
}

impl Order {
    pub fn new(is_buy: bool, limit_px: u64, sz: u64, oid: u64) -> (r: Self)
        ensures
            r == (Order { is_buy, limit_px, sz, oid }),
    {
        Order { is_buy, limit_px, sz, oid }
    }
}

/// A cancellation request naming the order to remove.
#[derive(Clone, Copy, PartialEq, Eq, Structural, Debug)]
pub struct Cancel {
    pub oid: u64,
}

/// One atomic trade between a maker and a taker, in asset-A units at the
/// maker's limit price.
#[derive(Clone, Copy, PartialEq, Eq, Structural, Debug)]
pub struct OrderFill {
    pub maker_oid: u64,
    pub taker_oid: u64,
    pub sz: u64,
}

impl OrderFill {
    pub fn new(maker_oid: u64, taker_oid: u64, sz: u64) -> (r: Self)
        ensures
            r == (OrderFill { maker_oid, taker_oid, sz }),
    {
        OrderFill { maker_oid, taker_oid, sz }
    }
}

/// The mathematical value of a [`FillStatus`]: the owner's address bytes and
/// the fill list as sequences.
pub struct FillStatusView {
    pub oid: u64,
    pub sz: u64,
    pub addr: Seq<u8>,
    pub filled_sz: u64,
    pub fills: Seq<OrderFill>,
}

/// The lifecycle record of one accepted order: original size, cumulative
/// filled size, and the ordered list of fills it took part in.
pub struct FillStatus {
    pub oid: u64,
    pub sz: u64,
    pub addr: Addr,
    pub filled_sz: u64,
    pub fills: Vec<OrderFill>,
}

impl View for FillStatus {
    type V = FillStatusView;

    open spec fn view(&self) -> FillStatusView {
        FillStatusView {
            oid: self.oid,
            sz: self.sz,
            addr: self.addr@,
            filled_sz: self.filled_sz,
            fills: self.fills@,
        }
    }
}

impl FillStatus {
    /// An equal copy of the record.
    pub fn duplicate(&self) -> (r: FillStatus)
        ensures
            r@ == self@,
    {
        let mut fills: Vec<OrderFill> = Vec::new();
        let mut i: usize = 0;
        while i < self.fills.len()
            invariant
                0 <= i <= self.fills.len(),
                fills@ == self.fills@.take(i as int),
            decreases self.fills.len() - i,
        {
            fills.push(self.fills[i]);
            proof {
                assert(fills@ =~= self.fills@.take(i + 1 as int));
            }
            i = i + 1;
        }
        proof {
            assert(fills@ =~= self.fills@);
        }
        FillStatus {
            oid: self.oid,
            sz: self.sz,
            addr: self.addr.duplicate(),
            filled_sz: self.filled_sz,
            fills,
        }
    }
}

} // verus!
