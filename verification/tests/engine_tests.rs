use clob::addr::{addr_from_hex, addr_to_hex, Addr};
use clob::engine::{CancelRequest, Engine, OrderStatusRequest};
use clob::ledger::UserBalance;

fn acct(last: u8) -> Addr {
    let mut bytes = vec![0u8; 19];
    bytes.push(last);
    Addr { bytes }
}

fn balance_of(eng: &Engine, addr: &Addr) -> UserBalance {
    eng.balances.get(addr).unwrap()
}

#[test]
fn deposit_then_withdraw() {
    let mut eng = Engine::new();
    eng.deposit(acct(1), UserBalance { a: 10, b: 5 });
    assert!(eng.withdraw(&acct(1), UserBalance { a: 3, b: 2 }));
    let ub = balance_of(&eng, &acct(1));
    assert_eq!(ub.a, 7);
    assert_eq!(ub.b, 3);
}

#[test]
fn withdraw_insufficient_or_unknown_fails_without_mutation() {
    let mut eng = Engine::new();
    assert!(!eng.withdraw(&acct(1), UserBalance { a: 0, b: 0 }));
    eng.deposit(acct(1), UserBalance { a: 10, b: 5 });
    assert!(!eng.withdraw(&acct(1), UserBalance { a: 11, b: 0 }));
    assert!(!eng.withdraw(&acct(1), UserBalance { a: 0, b: 6 }));
    let ub = balance_of(&eng, &acct(1));
    assert_eq!(ub.a, 10);
    assert_eq!(ub.b, 5);
}

#[test]
fn deposit_replaces_existing_balances() {
    let mut eng = Engine::new();
    eng.deposit(acct(1), UserBalance { a: 10, b: 5 });
    eng.deposit(acct(1), UserBalance { a: 1, b: 1 });
    let ub = balance_of(&eng, &acct(1));
    assert_eq!(ub.a, 1);
    assert_eq!(ub.b, 1);
}

#[test]
fn place_order_unknown_or_underfunded_account_is_refused() {
    let mut eng = Engine::new();
    assert!(eng.place_order(acct(1), true, 10, 5).is_none());
    eng.deposit(acct(1), UserBalance { a: 2, b: 4 });
    assert!(eng.place_order(acct(1), true, 10, 5).is_none());
    assert!(eng.place_order(acct(1), false, 10, 3).is_none());
    // the refusal left everything untouched, so a funded order still gets oid 0
    let st = eng.place_order(acct(1), true, 10, 4).unwrap();
    assert_eq!(st.oid, 0);
}

#[test]
fn place_order_reserves_matches_and_settles() {
    let mut eng = Engine::new();
    let maker = acct(1);
    let taker = acct(2);
    eng.deposit(maker.duplicate(), UserBalance { a: 50, b: 0 });
    eng.deposit(taker.duplicate(), UserBalance { a: 0, b: 30 });

    let m = eng.place_order(maker.duplicate(), false, 10, 50).unwrap();
    assert_eq!(m.oid, 0);
    assert_eq!(m.filled_sz, 0);
    assert_eq!(m.fills.len(), 0);
    // the maker's asset A is reserved at placement
    let mb = balance_of(&eng, &maker);
    assert_eq!(mb.a, 0);
    assert_eq!(mb.b, 0);

    let t = eng.place_order(taker.duplicate(), true, 15, 30).unwrap();
    assert_eq!(t.oid, 1);
    assert_eq!(t.sz, 30);
    assert_eq!(t.filled_sz, 30);
    assert_eq!(t.fills.len(), 1);
    assert_eq!(t.fills[0].maker_oid, 0);
    assert_eq!(t.fills[0].taker_oid, 1);
    assert_eq!(t.fills[0].sz, 30);

    // one unit of A trades against one unit of B
    let tb = balance_of(&eng, &taker);
    assert_eq!(tb.a, 30);
    assert_eq!(tb.b, 0);
    let mb = balance_of(&eng, &maker);
    assert_eq!(mb.a, 0);
    assert_eq!(mb.b, 30);

    // the maker's record carries the fill
    let ms = eng.order_status(OrderStatusRequest { oid: 0 }).status.unwrap();
    assert_eq!(ms.filled_sz, 30);
    assert_eq!(ms.fills.len(), 1);
    assert_eq!(ms.fills[0].sz, 30);
    // 20 units still rest
    assert_eq!(eng.book.ask_min(), 10);
}

#[test]
fn cancel_does_not_restore_reserved_balance() {
    let mut eng = Engine::new();
    eng.deposit(acct(1), UserBalance { a: 0, b: 40 });
    let st = eng.place_order(acct(1), true, 10, 40).unwrap();
    assert_eq!(eng.book.bid_max(), 10);
    let resp = eng.cancel(CancelRequest { oid: st.oid });
    assert!(resp.success);
    assert_eq!(eng.book.bid_max(), 0);
    // the reservation stays spent
    let ub = balance_of(&eng, &acct(1));
    assert_eq!(ub.a, 0);
    assert_eq!(ub.b, 0);
    // a second cancel finds nothing
    assert!(!eng.cancel(CancelRequest { oid: st.oid }).success);
}

#[test]
fn order_status_unknown_oid_is_none() {
    let mut eng = Engine::new();
    assert!(eng.order_status(OrderStatusRequest { oid: 9 }).status.is_none());
    eng.deposit(acct(1), UserBalance { a: 0, b: 1 });
    eng.place_order(acct(1), true, 1, 1);
    assert!(eng.order_status(OrderStatusRequest { oid: 0 }).status.is_some());
}

#[test]
fn oids_are_assigned_in_strictly_increasing_order() {
    let mut eng = Engine::new();
    eng.deposit(acct(1), UserBalance { a: 100, b: 100 });
    let a = eng.place_order(acct(1), true, 1, 1).unwrap();
    let b = eng.place_order(acct(1), false, 9, 1).unwrap();
    let c = eng.place_order(acct(1), true, 2, 1).unwrap();
    assert_eq!(a.oid, 0);
    assert_eq!(b.oid, 1);
    assert_eq!(c.oid, 2);
}

#[test]
fn zero_size_order_is_recorded_without_fills() {
    let mut eng = Engine::new();
    eng.deposit(acct(1), UserBalance { a: 0, b: 0 });
    let st = eng.place_order(acct(1), true, 10, 0).unwrap();
    assert_eq!(st.filled_sz, 0);
    assert_eq!(st.fills.len(), 0);
    assert_eq!(eng.book.bid_max(), 0);
}

#[test]
fn addr_hex_decodes_and_encodes() {
    let a = addr_from_hex(b"0x00112233445566778899aAbBcCdDeEfF00112233").unwrap();
    assert_eq!(a.bytes.len(), 20);
    assert_eq!(a.bytes[0], 0x00);
    assert_eq!(a.bytes[1], 0x11);
    assert_eq!(a.bytes[10], 0xaa);
    assert_eq!(a.bytes[19], 0x33);
    let hex = addr_to_hex(&a);
    assert_eq!(hex, b"0x00112233445566778899aabbccddeeff00112233".to_vec());
    let back = addr_from_hex(&hex).unwrap();
    assert!(back.same_as(&a));
}

#[test]
fn addr_hex_rejects_malformed_spellings() {
    assert!(addr_from_hex(b"0x0011").is_none());
    assert!(addr_from_hex(b"00112233445566778899aabbccddeeff0011223344").is_none());
    assert!(addr_from_hex(b"0x00112233445566778899aabbccddeeff0011223g").is_none());
    assert!(addr_from_hex(b"").is_none());
}

#[test]
fn maker_credit_saturates_at_the_maximum() {
    let mut eng = Engine::new();
    let maker = acct(1);
    let taker = acct(2);
    eng.deposit(maker.duplicate(), UserBalance { a: 5, b: u64::MAX });
    eng.deposit(taker.duplicate(), UserBalance { a: 0, b: 5 });
    eng.place_order(maker.duplicate(), false, 1, 5).unwrap();
    let t = eng.place_order(taker.duplicate(), true, 1, 5).unwrap();
    assert_eq!(t.filled_sz, 5);
    let mb = balance_of(&eng, &maker);
    assert_eq!(mb.a, 0);
    assert_eq!(mb.b, u64::MAX);
}
