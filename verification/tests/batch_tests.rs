use match_engine::{Command, EngineError, OrderBook, OrderId, RawCommand, Side, Trade};
use match_engine::ingest::sequence_batch;

#[test]
fn batch_in_order_matches_single_commands() {
    let mut batch_book = OrderBook::new();
    let mut cmds = vec![
        Command::Limit { seq: 0, side: Side::Sell, price: 100, qty: 5 },
        Command::Limit { seq: 1, side: Side::Buy, price: 105, qty: 7 },
        Command::Market { seq: 2, side: Side::Sell, qty: 1 },
    ];
    let mut trades: Vec<Trade> = Vec::new();
    let results = batch_book
        .process_commands_batch_checked_into(&mut cmds, &mut trades)
        .expect("batch succeeds");

    let mut one_book = OrderBook::new();
    let (a, t1, r1) = one_book.submit_limit(Side::Sell, 100, 5);
    let (b, t2, r2) = one_book.submit_limit(Side::Buy, 105, 7);
    let (c, t3, r3) = one_book.submit_market(Side::Sell, 1);

    assert_eq!(results, vec![(a, r1), (b, r2), (c, r3)]);
    let single: Vec<(u64, u64, u64, u64)> = t1
        .iter()
        .chain(t2.iter())
        .chain(t3.iter())
        .map(|t| (t.taker_id.0, t.maker_id.0, t.price, t.qty))
        .collect();
    let batched: Vec<(u64, u64, u64, u64)> =
        trades.iter().map(|t| (t.taker_id.0, t.maker_id.0, t.price, t.qty)).collect();
    assert_eq!(batched, single);
    assert_eq!(batch_book.best_bid(), one_book.best_bid());
    assert_eq!(batch_book.best_ask(), one_book.best_ask());
}

#[test]
fn batch_sorts_out_of_order_commands() {
    let mut ob = OrderBook::new();
    let mut cmds = vec![
        Command::Limit { seq: 2, side: Side::Buy, price: 105, qty: 7 },
        Command::Limit { seq: 1, side: Side::Sell, price: 100, qty: 5 },
    ];
    let mut trades: Vec<Trade> = Vec::new();
    let results = ob
        .process_commands_batch_checked_into(&mut cmds, &mut trades)
        .expect("batch succeeds after sorting");
    assert_eq!(results.len(), 2);
    // the sell (seq 1) executes first, so the buy crosses it
    assert_eq!(trades.len(), 1);
    assert_eq!(trades[0].price, 100);
    assert_eq!(trades[0].qty, 5);
    // cmds is left in sorted order
    match cmds[0] {
        Command::Limit { seq, .. } => assert_eq!(seq, 1),
        _ => panic!("unexpected command kind"),
    }
}

#[test]
fn batch_duplicate_seq_is_invalid() {
    let mut ob = OrderBook::new();
    let mut cmds = vec![
        Command::Limit { seq: 3, side: Side::Buy, price: 10, qty: 1 },
        Command::Limit { seq: 3, side: Side::Sell, price: 20, qty: 1 },
    ];
    let mut trades: Vec<Trade> = Vec::new();
    let err = ob.process_commands_batch_checked_into(&mut cmds, &mut trades).unwrap_err();
    assert_eq!(err, EngineError::InvalidSequence);
    assert!(trades.is_empty());
    assert_eq!(ob.best_bid(), None);
    assert_eq!(ob.best_ask(), None);
}

#[test]
fn batch_stops_at_failing_cancel() {
    let mut ob = OrderBook::new();
    let mut cmds = vec![
        Command::Limit { seq: 0, side: Side::Buy, price: 10, qty: 1 },
        Command::Cancel { seq: 1, id: OrderId(99) },
        Command::Limit { seq: 2, side: Side::Buy, price: 11, qty: 1 },
    ];
    let mut trades: Vec<Trade> = Vec::new();
    let err = ob.process_commands_batch_checked_into(&mut cmds, &mut trades).unwrap_err();
    assert_eq!(err, EngineError::UnknownOrder);
    // the first command executed before the failure and stays applied
    assert_eq!(ob.best_bid(), Some((10, 1)));
}

#[test]
fn batch_cancel_echoes_id_with_zero_remaining() {
    let mut ob = OrderBook::new();
    let (id, _, r) = ob.submit_limit(Side::Buy, 10, 3);
    assert_eq!(r, 3);
    let mut cmds = vec![Command::Cancel { seq: 7, id }];
    let mut trades: Vec<Trade> = Vec::new();
    let results = ob
        .process_commands_batch_checked_into(&mut cmds, &mut trades)
        .expect("cancel in batch succeeds");
    assert_eq!(results, vec![(id, 0)]);
    assert_eq!(ob.best_bid(), None);
}

#[test]
fn batch_into_wraps_results_per_command() {
    let mut ob = OrderBook::new();
    let cmds = vec![
        Command::Limit { seq: 0, side: Side::Sell, price: 100, qty: 5 },
        Command::Limit { seq: 1, side: Side::Buy, price: 100, qty: 2 },
    ];
    let mut trades: Vec<Trade> = Vec::new();
    let results = ob.process_commands_batch_into(&cmds, &mut trades);
    assert_eq!(results.len(), 2);
    assert!(results.iter().all(|r| r.is_ok()));
    assert_eq!(trades.len(), 1);
}

#[test]
fn batch_into_reports_one_error_for_bad_batch() {
    let mut ob = OrderBook::new();
    let cmds = vec![
        Command::Market { seq: 5, side: Side::Buy, qty: 1 },
        Command::Market { seq: 5, side: Side::Buy, qty: 1 },
    ];
    let mut trades: Vec<Trade> = Vec::new();
    let results = ob.process_commands_batch_into(&cmds, &mut trades);
    assert_eq!(results.len(), 1);
    assert_eq!(results[0], Err(EngineError::InvalidSequence));
}

#[test]
fn submit_limits_batch_appends_all_trades() {
    let mut ob = OrderBook::new();
    let orders = vec![
        (Side::Sell, 100, 3),
        (Side::Sell, 101, 3),
        (Side::Buy, 101, 4),
    ];
    let mut trades: Vec<Trade> = Vec::new();
    ob.submit_limits_batch(&orders, &mut trades);
    let total: u64 = trades.iter().map(|t| t.qty).sum();
    assert_eq!(total, 4);
    assert_eq!(ob.best_ask(), Some((101, 2)));
    assert_eq!(ob.best_bid(), None);
}

#[test]
fn sequencing_assigns_increasing_numbers_in_arrival_order() {
    let raws = vec![
        RawCommand::Limit { side: Side::Buy, price: 10, qty: 1 },
        RawCommand::Market { side: Side::Sell, qty: 2 },
        RawCommand::Cancel { id: OrderId(5) },
    ];
    let (cmds, next) = sequence_batch(&raws, 40);
    assert_eq!(next, 43);
    assert_eq!(
        cmds,
        vec![
            Command::Limit { seq: 40, side: Side::Buy, price: 10, qty: 1 },
            Command::Market { seq: 41, side: Side::Sell, qty: 2 },
            Command::Cancel { seq: 42, id: OrderId(5) },
        ]
    );
}

#[test]
fn sequencing_wraps_at_the_counter_width() {
    let raws = vec![
        RawCommand::Market { side: Side::Buy, qty: 1 },
        RawCommand::Market { side: Side::Buy, qty: 1 },
    ];
    let (cmds, next) = sequence_batch(&raws, u64::MAX);
    assert_eq!(next, 1);
    match (&cmds[0], &cmds[1]) {
        (Command::Market { seq: s0, .. }, Command::Market { seq: s1, .. }) => {
            assert_eq!(*s0, u64::MAX);
            assert_eq!(*s1, 0);
        },
        _ => panic!("unexpected command kinds"),
    }
}

#[test]
fn sequenced_batch_drives_the_book() {
    let raws = vec![
        RawCommand::Limit { side: Side::Sell, price: 100, qty: 5 },
        RawCommand::Limit { side: Side::Buy, price: 105, qty: 7 },
    ];
    let (mut cmds, next) = sequence_batch(&raws, 0);
    assert_eq!(next, 2);
    let mut ob = OrderBook::new();
    let mut trades: Vec<Trade> = Vec::new();
    let results = ob
        .process_commands_batch_checked_into(&mut cmds, &mut trades)
        .expect("sequenced batch is strictly increasing");
    assert_eq!(results.len(), 2);
    assert_eq!(trades.len(), 1);
    assert_eq!(trades[0].qty, 5);
    assert_eq!(ob.best_bid(), Some((105, 2)));
}
