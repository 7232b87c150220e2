use match_engine::{OrderBook, OrderId, Side};
use std::time::Instant;

fn seed_book(ob: &mut OrderBook, mid: u64, levels: u64, tick: u64, qty: u64) {
    for i in 1..=levels {
        let bid_px = mid.saturating_sub(i * tick);
        let ask_px = mid + i * tick;
        let _ = ob.submit_limit(Side::Buy, bid_px, qty);
        let _ = ob.submit_limit(Side::Sell, ask_px, qty);
    }
}

#[test]
fn limit_crosses() {
    let mut ob = OrderBook::new();
    let (_a, _t, _r) = ob.submit_limit(Side::Sell, 101, 5);
    let (_b, trades, r) = ob.submit_limit(Side::Buy, 105, 7);
    assert_eq!(trades.iter().map(|t| t.qty).sum::<u64>(), 5);
    assert_eq!(r, 2);
    assert_eq!(ob.best_bid().unwrap().0, 105);
}

#[test]
fn market_consumes() {
    let mut ob = OrderBook::new();
    let (_a, _t, _r) = ob.submit_limit(Side::Sell, 100, 3);
    let (_b, _t2, _r2) = ob.submit_limit(Side::Sell, 101, 3);
    let (_m, trades, r) = ob.submit_market(Side::Buy, 5);
    assert_eq!(trades.iter().map(|t| t.qty).sum::<u64>(), 5);
    assert_eq!(r, 0);
    assert_eq!(ob.best_ask().unwrap().0, 101);
    assert_eq!(ob.best_ask().unwrap().1, 1);
}

#[test]
fn limit_crossing_fifo_and_rest() {
    let mut ob = OrderBook::new();
    let (a1, _, _) = ob.submit_limit(Side::Sell, 100, 3);
    let (a2, _, _) = ob.submit_limit(Side::Sell, 100, 4);
    let (_b, trades, r) = ob.submit_limit(Side::Buy, 105, 5);
    assert_eq!(r, 0);
    assert_eq!(trades.len(), 2);
    assert_eq!(trades[0].maker_id.0, a1.0);
    assert_eq!(trades[0].qty, 3);
    assert_eq!(trades[1].maker_id.0, a2.0);
    assert_eq!(trades[1].qty, 2);
    assert_eq!(ob.best_ask().unwrap().0, 100);
    assert_eq!(ob.best_ask().unwrap().1, 2);
}

#[test]
fn partial_fill_then_rest_bid() {
    let mut ob = OrderBook::new();
    let _ = ob.submit_limit(Side::Sell, 101, 2);
    let (bid_id, trades, remaining) = ob.submit_limit(Side::Buy, 101, 5);
    assert_eq!(trades.iter().map(|t| t.qty).sum::<u64>(), 2);
    assert_eq!(remaining, 3);
    let (px, qty) = ob.best_bid().unwrap();
    assert_eq!(px, 101);
    assert_eq!(qty, 3);
    let canceled = ob.cancel(bid_id).expect("cancel ok");
    assert_eq!(canceled.qty, 3);
}

#[test]
fn market_consumes_across_levels() {
    let mut ob = OrderBook::new();
    seed_book(&mut ob, 10_000, 3, 1, 5);
    let _ = ob.submit_limit(Side::Sell, 9_998, 2);
    let (px, qty) = ob.best_ask().unwrap();
    assert_eq!(px, 10_001);
    assert_eq!(qty, 5);
    let (_id, trades, r) = ob.submit_market(Side::Buy, 9);
    assert_eq!(r, 0);
    assert_eq!(trades.iter().map(|t| t.qty).sum::<u64>(), 9);
    let (px, qty) = ob.best_ask().unwrap();
    assert_eq!(px, 10_002);
    assert_eq!(qty, 1);
}

#[test]
fn top_n_depth_is_aggregated() {
    let mut ob = OrderBook::new();
    let _ = ob.submit_limit(Side::Buy, 100, 1);
    let _ = ob.submit_limit(Side::Buy, 100, 2);
    let _ = ob.submit_limit(Side::Buy, 99, 4);
    let _ = ob.submit_limit(Side::Sell, 101, 3);
    let _ = ob.submit_limit(Side::Sell, 102, 6);
    let (bids, asks) = ob.top_n(2);
    assert_eq!(bids, vec![(100, 3), (99, 4)]);
    assert_eq!(asks, vec![(101, 3), (102, 6)]);
}

#[test]
fn cancel_unknown_returns_error() {
    let mut ob = OrderBook::new();
    let err = ob.cancel(match_engine::OrderId(42)).unwrap_err();
    assert!(format!("{}", err.message()).contains("unknown order id"));
}

#[test]
fn load_scenario_smoke_and_throughput_print() {
    let mut ob = OrderBook::new();
    seed_book(&mut ob, 10_000, 200, 1, 1_000);

    let n: u64 = 50_000;
    let start = Instant::now();
    for i in 0..n {
        if i % 10 == 0 {
            let side = if i % 2 == 0 { Side::Buy } else { Side::Sell };
            let _ = ob.submit_market(side, 1 + (i % 7));
        } else {
            let side = if i % 2 == 0 { Side::Buy } else { Side::Sell };
            if side == Side::Buy {
                if let Some((ask, _)) = ob.best_ask() {
                    let _ = ob.submit_limit(side, ask, 1 + (i % 3));
                } else {
                    let _ = ob.submit_limit(side, 9_999, 1);
                }
            } else {
                if let Some((bid, _)) = ob.best_bid() {
                    let _ = ob.submit_limit(side, bid, 1 + (i % 3));
                } else {
                    let _ = ob.submit_limit(side, 10_001, 1);
                }
            }
        }
        if i % 777 == 0 {
            if let Some((px, _)) = ob.best_bid() {
                let (id, _, r) = ob.submit_limit(Side::Buy, px, 2);
                if r > 0 {
                    let _ = ob.cancel(id);
                }
            }
        }
    }
    let dur = start.elapsed().as_secs_f64();
    let ops_per_sec = (n as f64) / dur;
    println!("load_scenario: ops={} duration={:.3}s ops/sec={:.0}", n, dur, ops_per_sec);
    let bb = ob.best_bid();
    let ba = ob.best_ask();
    assert!(bb.is_some() || ba.is_some());
}

#[test]
fn simple_cross_rests_taker_as_best_bid() {
    let mut ob = OrderBook::new();
    let (sell_id, _, _) = ob.submit_limit(Side::Sell, 100, 5);
    let (_buy_id, trades, r) = ob.submit_limit(Side::Buy, 105, 7);
    assert_eq!(trades.len(), 1);
    assert_eq!(trades[0].maker_id.0, sell_id.0);
    assert_eq!(trades[0].qty, 5);
    assert_eq!(trades[0].price, 100);
    assert_eq!(r, 2);
    assert_eq!(ob.best_bid(), Some((105, 2)));
    assert_eq!(ob.best_ask(), None);
}

#[test]
fn cancel_empties_level_and_book() {
    let mut ob = OrderBook::new();
    let _ = ob.submit_limit(Side::Sell, 101, 2);
    let (x, trades, r) = ob.submit_limit(Side::Buy, 101, 5);
    assert_eq!(trades.len(), 1);
    assert_eq!(trades[0].qty, 2);
    assert_eq!(trades[0].price, 101);
    assert_eq!(r, 3);
    assert_eq!(ob.best_bid(), Some((101, 3)));
    let o = ob.cancel(x).expect("cancel succeeds");
    assert_eq!(o.qty, 3);
    assert_eq!(o.price, 101);
    assert_eq!(ob.best_bid(), None);
}

#[test]
fn cancel_succeeds_exactly_once() {
    let mut ob = OrderBook::new();
    let (id, _, r) = ob.submit_limit(Side::Buy, 50, 4);
    assert_eq!(r, 4);
    let o = ob.cancel(id).expect("first cancel succeeds");
    assert_eq!(o.qty, 4);
    let e = ob.cancel(id).unwrap_err();
    assert_eq!(e, match_engine::EngineError::UnknownOrder);
    let e2 = ob.cancel(id).unwrap_err();
    assert_eq!(e2, match_engine::EngineError::UnknownOrder);
}

#[test]
fn market_on_empty_book_never_rests() {
    let mut ob = OrderBook::new();
    let (_id, trades, r) = ob.submit_market(Side::Sell, 9);
    assert!(trades.is_empty());
    assert_eq!(r, 9);
    assert_eq!(ob.best_bid(), None);
    assert_eq!(ob.best_ask(), None);
}

#[test]
fn conservation_of_quantity_per_id() {
    let mut ob = OrderBook::new();
    let (maker, _, maker_rest) = ob.submit_limit(Side::Sell, 100, 10);
    assert_eq!(maker_rest, 10);
    let (_taker, trades, taker_rest) = ob.submit_limit(Side::Buy, 100, 4);
    let traded: u64 = trades.iter().map(|t| t.qty).sum();
    assert_eq!(traded + taker_rest, 4);
    let cancelled = ob.cancel(maker).expect("maker still rests").qty;
    let maker_traded: u64 =
        trades.iter().filter(|t| t.maker_id.0 == maker.0).map(|t| t.qty).sum();
    assert_eq!(maker_traded + cancelled, 10);
}

#[test]
fn ids_are_issued_from_one() {
    let mut ob = OrderBook::new();
    let (a, _, _) = ob.submit_limit(Side::Buy, 10, 1);
    let (b, _, _) = ob.submit_limit(Side::Sell, 20, 1);
    let (c, _, _) = ob.submit_market(Side::Buy, 1);
    assert_eq!(a, OrderId(1));
    assert_eq!(b, OrderId(2));
    assert_eq!(c, OrderId(3));
}

#[test]
fn top_n_handles_short_books() {
    let mut ob = OrderBook::new();
    let _ = ob.submit_limit(Side::Buy, 7, 1);
    let (bids, asks) = ob.top_n(5);
    assert_eq!(bids, vec![(7, 1)]);
    assert!(asks.is_empty());
    let (bids0, asks0) = ob.top_n(0);
    assert!(bids0.is_empty());
    assert!(asks0.is_empty());
}

#[test]
fn default_book_is_empty() {
    let ob = OrderBook::default();
    assert_eq!(ob.best_bid(), None);
    assert_eq!(ob.best_ask(), None);
}

#[test]
fn zero_quantity_limit_issues_id_without_resting() {
    let mut ob = OrderBook::new();
    let (id, trades, r) = ob.submit_limit(Side::Buy, 100, 0);
    assert_eq!(id, OrderId(1));
    assert!(trades.is_empty());
    assert_eq!(r, 0);
    assert_eq!(ob.best_bid(), None);
}

#[test]
fn error_messages_name_each_kind() {
    assert_eq!(match_engine::EngineError::UnknownOrder.message(), "unknown order id");
    assert_eq!(
        match_engine::EngineError::InvalidSide.message(),
        "invalid side for operation"
    );
    assert_eq!(
        match_engine::EngineError::InvalidSequence.message(),
        "invalid sequence in batch"
    );
}

#[test]
fn book_never_crosses_after_partial_fill() {
    let mut ob = OrderBook::new();
    let _ = ob.submit_limit(Side::Buy, 98, 5);
    let _ = ob.submit_limit(Side::Sell, 102, 5);
    let _ = ob.submit_limit(Side::Sell, 103, 5);
    // a crossing buy consumes the best ask and rests between the books
    let (_id, trades, r) = ob.submit_limit(Side::Buy, 102, 7);
    assert_eq!(trades.iter().map(|t| t.qty).sum::<u64>(), 5);
    assert_eq!(r, 2);
    let (bb, _) = ob.best_bid().unwrap();
    let (ba, _) = ob.best_ask().unwrap();
    assert!(bb < ba);
    assert_eq!(bb, 102);
    assert_eq!(ba, 103);
}
