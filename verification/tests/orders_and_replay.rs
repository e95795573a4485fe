use matching_core::api::{
    CommandResultCode, CoreSymbolSpecification, MatcherEventType, MatcherTradeEvent, OrderAction,
    OrderCommand, OrderCommandType, OrderType, SymbolType,
};
use matching_core::exchange::{ExchangeConfig, ExchangeCore, ProducerType, WaitStrategyType};
use matching_core::orderbook::advanced::AdvancedOrderBook;
use matching_core::orderbook::book::OrderBookState;
use matching_core::orderbook::direct::DirectOrderBook;
use matching_core::orderbook::direct_optimized::DirectOrderBookOptimized;
use matching_core::orderbook::naive::NaiveOrderBook;
use matching_core::processors::risk_engine::RiskEngine;

fn pair() -> CoreSymbolSpecification {
    CoreSymbolSpecification {
        symbol_id: 1,
        symbol_type: SymbolType::CurrencyExchangePair,
        base_currency: 10,
        quote_currency: 20,
        base_scale_k: 100,
        quote_scale_k: 2,
        taker_fee: 3,
        maker_fee: 1,
        margin_buy: 0,
        margin_sell: 0,
    }
}

fn place(
    id: i64,
    uid: i64,
    action: OrderAction,
    order_type: OrderType,
    price: i64,
    size: i64,
) -> OrderCommand {
    OrderCommand {
        command: OrderCommandType::PlaceOrder,
        uid,
        order_id: id,
        symbol: 1,
        price,
        reserve_price: price,
        size,
        action,
        order_type,
        timestamp: id,
        ..Default::default()
    }
}

fn books() -> Vec<OrderBookState> {
    vec![
        OrderBookState::Naive(NaiveOrderBook::new(pair())),
        OrderBookState::Direct(DirectOrderBook::new(pair())),
        OrderBookState::DirectOptimized(DirectOrderBookOptimized::new(pair())),
        OrderBookState::Advanced(AdvancedOrderBook::new(pair())),
    ]
}

fn engine_with(users: &[(i64, i64, i64)]) -> RiskEngine {
    let mut engine = RiskEngine::new(0, 1);
    engine.add_symbol(pair());
    for (uid, base, quote) in users {
        engine.user_service.add_user(*uid);
        engine.user_service.set_balance(*uid, 10, *base);
        engine.user_service.set_balance(*uid, 20, *quote);
    }
    engine
}

#[test]
fn full_reject_gives_the_hold_back() {
    let mut engine = engine_with(&[(1, 5000, 9000)]);
    let mut bid = place(1, 1, OrderAction::Bid, OrderType::Ioc, 40, 7);
    bid.reserve_price = 50;
    engine.pre_process(&mut bid);
    assert_eq!(bid.result_code, CommandResultCode::ValidForMatchingEngine);
    assert_eq!(engine.user_service.balance(1, 20), 9000 - (7 * 50 * 2 + 7 * 3));
    bid.matcher_events.push(MatcherTradeEvent::new_rejection(7, 40, 50));
    engine.post_process(&mut bid);
    assert_eq!(engine.user_service.balance(1, 20), 9000);
    assert_eq!(engine.user_service.balance(1, 10), 5000);

    let mut ask = place(2, 1, OrderAction::Ask, OrderType::Ioc, 40, 9);
    engine.pre_process(&mut ask);
    assert_eq!(engine.user_service.balance(1, 10), 5000 - 900);
    ask.matcher_events.push(MatcherTradeEvent::new_rejection(9, 40, 40));
    engine.post_process(&mut ask);
    assert_eq!(engine.user_service.balance(1, 10), 5000);
    assert_eq!(engine.user_service.balance(1, 20), 9000);

    let mut part = place(3, 1, OrderAction::Bid, OrderType::Ioc, 40, 7);
    part.reserve_price = 50;
    engine.pre_process(&mut part);
    part.matcher_events.push(MatcherTradeEvent::new_rejection(4, 40, 50));
    engine.post_process(&mut part);
    assert_eq!(engine.user_service.balance(1, 20), 9000 - (3 * 50 * 2 + 3 * 3));
}

#[test]
fn hold_and_settlement_lose_only_the_fees() {
    let mut engine = engine_with(&[(1, 0, 10_000), (2, 3_000, 0), (3, 77, 88)]);
    let mut ask = place(1, 2, OrderAction::Ask, OrderType::Gtc, 45, 6);
    engine.pre_process(&mut ask);
    assert_eq!(engine.user_service.balance(2, 10), 3_000 - 600);
    let mut bid = place(2, 1, OrderAction::Bid, OrderType::Ioc, 50, 6);
    engine.pre_process(&mut bid);
    assert_eq!(engine.user_service.balance(1, 20), 10_000 - (6 * 50 * 2 + 6 * 3));
    bid.matcher_events.push(MatcherTradeEvent::new_trade(6, 45, 1, 2, 50));
    engine.post_process(&mut bid);
    assert_eq!(bid.result_code, CommandResultCode::Success);
    assert_eq!(engine.user_service.balance(1, 20), 10_000 - 6 * 45 * 2 - 6 * 3);
    assert_eq!(engine.user_service.balance(1, 10), 600);
    assert_eq!(engine.user_service.balance(2, 20), 6 * 45 * 2 - 6);
    assert_eq!(engine.user_service.balance(2, 10), 2_400);
    let quote: i64 = [1, 2, 3].iter().map(|u| engine.user_service.balance(*u, 20)).sum();
    let base: i64 = [1, 2, 3].iter().map(|u| engine.user_service.balance(*u, 10)).sum();
    assert_eq!(quote, 10_000 + 88 - (6 * 3 + 6));
    assert_eq!(base, 3_000 + 77);
    assert_eq!(engine.user_service.balance(3, 10), 77);
    assert_eq!(engine.user_service.balance(3, 20), 88);
}

#[test]
fn trades_come_best_price_first_and_oldest_first() {
    for mut book in books() {
        book.new_order(&mut place(1, 10, OrderAction::Ask, OrderType::Gtc, 102, 2));
        book.new_order(&mut place(2, 11, OrderAction::Ask, OrderType::Gtc, 100, 3));
        book.new_order(&mut place(3, 12, OrderAction::Ask, OrderType::Gtc, 101, 4));
        book.new_order(&mut place(4, 13, OrderAction::Ask, OrderType::Gtc, 100, 5));
        book.new_order(&mut place(5, 14, OrderAction::Ask, OrderType::Gtc, 103, 6));
        let mut bid = place(6, 20, OrderAction::Bid, OrderType::Gtc, 102, 13);
        book.new_order(&mut bid);
        assert_eq!(
            bid.matcher_events,
            vec![
                MatcherTradeEvent::new_trade(3, 100, 2, 11, 102),
                MatcherTradeEvent::new_trade(5, 100, 4, 13, 102),
                MatcherTradeEvent::new_trade(4, 101, 3, 12, 102),
                MatcherTradeEvent::new_trade(1, 102, 1, 10, 102),
            ]
        );
        let snap = book.export();
        let left: Vec<(i64, i64, i64, i64)> =
            snap.asks.iter().map(|o| (o.order_id, o.price, o.size, o.filled)).collect();
        assert_eq!(left, vec![(1, 102, 2, 1), (5, 103, 6, 0)]);
        assert!(snap.bids.is_empty());
        let mut more = place(7, 20, OrderAction::Bid, OrderType::Ioc, 102, 9);
        book.new_order(&mut more);
        assert_eq!(more.matcher_events.len(), 2);
        assert_eq!(more.matcher_events[0], MatcherTradeEvent::new_trade(1, 102, 1, 10, 102));
        assert_eq!(more.matcher_events[1].event_type, MatcherEventType::Reject);
        assert_eq!(more.matcher_events[1].size, 8);
        let snap = book.export();
        assert_eq!(snap.asks.len(), 1);
        assert_eq!((snap.asks[0].order_id, snap.asks[0].filled), (5, 0));
    }
}

#[test]
fn moved_order_keeps_its_size_and_adds_what_it_trades() {
    for mut book in books() {
        book.new_order(&mut place(1, 10, OrderAction::Ask, OrderType::Gtc, 100, 4));
        book.new_order(&mut place(2, 10, OrderAction::Ask, OrderType::Gtc, 110, 5));
        let mut bid = place(3, 20, OrderAction::Bid, OrderType::Gtc, 100, 20);
        bid.reserve_price = 200;
        book.new_order(&mut bid);
        assert_eq!(bid.matcher_events.len(), 1);
        let mut mv = OrderCommand {
            command: OrderCommandType::MoveOrder,
            uid: 20,
            order_id: 3,
            price: 110,
            ..Default::default()
        };
        assert_eq!(book.move_order(&mut mv), CommandResultCode::Success);
        assert_eq!(mv.matcher_events, vec![MatcherTradeEvent::new_trade(5, 110, 2, 10, 200)]);
        let snap = book.export();
        assert!(snap.asks.is_empty());
        assert_eq!(snap.bids.len(), 1);
        let o = snap.bids[0];
        assert_eq!((o.order_id, o.price, o.size, o.filled), (3, 110, 20, 4 + 5));
        book.new_order(&mut place(4, 10, OrderAction::Ask, OrderType::Gtc, 120, 11));
        let mut last = OrderCommand {
            command: OrderCommandType::MoveOrder,
            uid: 20,
            order_id: 3,
            price: 120,
            ..Default::default()
        };
        assert_eq!(book.move_order(&mut last), CommandResultCode::Success);
        assert_eq!(last.matcher_events, vec![MatcherTradeEvent::new_trade(11, 120, 4, 10, 200)]);
        assert_eq!(book.get_order_by_id(3), None);
        assert_eq!(book.get_total_bid_volume(), 0);
        assert_eq!(book.get_total_ask_volume(), 0);
    }
}

#[test]
fn fill_or_kill_leaves_nothing_resting() {
    let mut book = AdvancedOrderBook::new(pair());
    book.new_order(&mut place(1, 10, OrderAction::Ask, OrderType::Gtc, 100, 5));
    let mut short = place(2, 20, OrderAction::Bid, OrderType::Fok, 100, 6);
    book.new_order(&mut short);
    assert_eq!(short.matcher_events, vec![MatcherTradeEvent::new_rejection(6, 100, 100)]);
    assert_eq!(book.get_order_by_id(2), None);
    assert_eq!(book.get_total_ask_volume(), 5);
    assert_eq!(book.get_total_bid_volume(), 0);
    let mut whole = place(3, 20, OrderAction::Bid, OrderType::Fok, 100, 5);
    book.new_order(&mut whole);
    assert_eq!(whole.matcher_events, vec![MatcherTradeEvent::new_trade(5, 100, 1, 10, 100)]);
    assert_eq!(book.get_order_by_id(3), None);
    assert_eq!(book.get_total_ask_volume(), 0);
    assert_eq!(book.get_total_bid_volume(), 0);
}

#[test]
fn post_only_rests_behind_the_orders_at_its_price() {
    let mut book = AdvancedOrderBook::new(pair());
    book.new_order(&mut place(1, 10, OrderAction::Bid, OrderType::Gtc, 99, 1));
    book.new_order(&mut place(2, 10, OrderAction::Bid, OrderType::Gtc, 98, 2));
    book.new_order(&mut place(3, 10, OrderAction::Bid, OrderType::Gtc, 97, 3));
    book.new_order(&mut place(4, 11, OrderAction::Ask, OrderType::Gtc, 100, 4));
    let mut crossing = place(5, 20, OrderAction::Bid, OrderType::PostOnly, 100, 7);
    book.new_order(&mut crossing);
    assert_eq!(crossing.matcher_events, vec![MatcherTradeEvent::new_rejection(7, 100, 100)]);
    assert_eq!(book.get_order_by_id(5), None);
    let mut quiet = place(6, 20, OrderAction::Bid, OrderType::PostOnly, 98, 7);
    book.new_order(&mut quiet);
    assert!(quiet.matcher_events.is_empty());
    let snap = book.export();
    let bids: Vec<(i64, i64, i64)> = snap.bids.iter().map(|o| (o.order_id, o.price, o.remaining())).collect();
    assert_eq!(bids, vec![(1, 99, 1), (2, 98, 2), (6, 98, 7), (3, 97, 3)]);
    assert_eq!(snap.asks.len(), 1);
}

fn one_by_one() -> ExchangeCore {
    let mut core = ExchangeCore::new(ExchangeConfig {
        ring_buffer_size: 64,
        matching_engines_num: 1,
        risk_engines_num: 1,
        producer_type: ProducerType::Single,
        wait_strategy: WaitStrategyType::BusySpin,
    });
    core.add_symbol(pair());
    core
}

fn script(from: i64) -> Vec<OrderCommand> {
    let mut out = Vec::new();
    for uid in [1i64, 2] {
        out.push(OrderCommand { command: OrderCommandType::AddUser, uid, ..Default::default() });
        for currency in [10, 20] {
            out.push(OrderCommand {
                command: OrderCommandType::BalanceAdjustment,
                uid,
                symbol: currency,
                price: 1_000_000,
                ..Default::default()
            });
        }
    }
    for i in 0..12i64 {
        let id = from + i;
        let action = if i % 3 == 0 { OrderAction::Ask } else { OrderAction::Bid };
        let order_type = if i % 4 == 3 { OrderType::Ioc } else { OrderType::Gtc };
        out.push(place(id, 1 + i % 2, action, order_type, 100 + (i * 5) % 7 - 3, 1 + i % 5));
    }
    out.push(OrderCommand {
        command: OrderCommandType::CancelOrder,
        uid: 2,
        order_id: from + 1,
        symbol: 1,
        ..Default::default()
    });
    out.push(OrderCommand {
        command: OrderCommandType::ReduceOrder,
        uid: 1,
        order_id: from + 2,
        symbol: 1,
        size: 1,
        ..Default::default()
    });
    out
}

fn picture(core: &ExchangeCore) -> (Vec<(i64, i64, i64, i64)>, Vec<i64>) {
    let state = core.serialize_state().unwrap();
    let book = &state.pipeline_state.matching_engines[0].order_books[0];
    let orders = book
        .asks
        .iter()
        .chain(book.bids.iter())
        .map(|o| (o.order_id, o.price, o.size, o.filled))
        .collect();
    let users = &state.pipeline_state.risk_engines[0].user_service;
    let balances = vec![
        users.balance(1, 10),
        users.balance(1, 20),
        users.balance(2, 10),
        users.balance(2, 20),
    ];
    (orders, balances)
}

#[test]
fn replay_of_the_same_commands_gives_the_same_state() {
    let mut first = one_by_one();
    let mut second = one_by_one();
    let mut results = Vec::new();
    for cmd in script(100) {
        results.push(first.submit_command(cmd));
    }
    for (cmd, seen) in script(100).into_iter().zip(results.iter()) {
        let again = second.submit_command(cmd);
        assert_eq!(again.result_code, seen.result_code);
        assert_eq!(again.matcher_events, seen.matcher_events);
        assert_eq!(again.action, seen.action);
    }
    assert_eq!(picture(&first), picture(&second));
    assert!(!picture(&first).0.is_empty());

    let mut restored = ExchangeCore::from_state(first.serialize_state().unwrap());
    assert_eq!(picture(&restored), picture(&first));
    for cmd in script(200).into_iter().skip(6) {
        let a = first.submit_command(cmd.clone());
        let b = restored.submit_command(cmd);
        assert_eq!(a.result_code, b.result_code);
        assert_eq!(a.matcher_events, b.matcher_events);
    }
    assert_eq!(picture(&restored), picture(&first));
}

fn draw(seed: &mut u64) -> u64 {
    *seed = seed.wrapping_mul(6364136223846793005).wrapping_add(1442695040888963407);
    *seed >> 33
}

#[test]
fn every_book_moves_and_reduces_alike() {
    let mut all = books();
    let mut seed: u64 = 4242;
    let mut live: Vec<(i64, i64)> = Vec::new();
    for step in 0..2000i64 {
        let roll = draw(&mut seed) % 10;
        let cmd = if roll < 5 || live.is_empty() {
            let action = if draw(&mut seed) % 2 == 0 { OrderAction::Ask } else { OrderAction::Bid };
            let price = 90 + (draw(&mut seed) % 21) as i64;
            let size = 1 + (draw(&mut seed) % 20) as i64;
            let uid = 1 + (draw(&mut seed) % 3) as i64;
            live.push((step + 1, uid));
            let mut c = place(step + 1, uid, action, OrderType::Gtc, price, size);
            c.reserve_price = price + 2;
            c
        } else {
            let (id, uid) = live[(draw(&mut seed) as usize) % live.len()];
            OrderCommand {
                command: if roll < 8 {
                    OrderCommandType::MoveOrder
                } else {
                    OrderCommandType::ReduceOrder
                },
                uid,
                order_id: id,
                price: 90 + (draw(&mut seed) % 21) as i64,
                size: (draw(&mut seed) % 6) as i64,
                timestamp: step,
                ..Default::default()
            }
        };
        let mut seen: Vec<(CommandResultCode, OrderCommand)> = Vec::new();
        for book in all.iter_mut() {
            let mut c = cmd.clone();
            let code = match c.command {
                OrderCommandType::PlaceOrder => book.new_order(&mut c),
                OrderCommandType::MoveOrder => book.move_order(&mut c),
                _ => book.reduce_order(&mut c),
            };
            seen.push((code, c));
        }
        for (code, c) in seen.iter() {
            assert_eq!(*code, seen[0].0);
            assert_eq!(c.matcher_events, seen[0].1.matcher_events);
            assert_eq!(c.action, seen[0].1.action);
        }
        let first = all[0].export();
        for book in all.iter() {
            let snap = book.export();
            assert_eq!(snap.asks, first.asks);
            assert_eq!(snap.bids, first.bids);
        }
    }
    assert!(all[0].get_total_ask_volume() + all[0].get_total_bid_volume() > 0);
}

#[test]
fn books_without_advertised_sizes_take_any() {
    for mut book in books().into_iter().take(3) {
        let mut hidden = place(1, 10, OrderAction::Ask, OrderType::Gtc, 100, 8);
        hidden.visible_size = Some(-5);
        assert!(book.has_room(&hidden));
        assert_eq!(book.new_order(&mut hidden), CommandResultCode::Success);
        assert!(hidden.matcher_events.is_empty());
        let snap = book.export();
        assert_eq!(snap.asks.len(), 1);
        assert_eq!(snap.asks[0].visible_size, None);
        assert_eq!(snap.asks[0].size, 8);
        assert_eq!(book.get_l2_data(1).ask_volumes, vec![8]);
    }
    let mut full = OrderBookState::Advanced(AdvancedOrderBook::new(pair()));
    let mut hidden = place(1, 10, OrderAction::Ask, OrderType::Gtc, 100, 8);
    hidden.visible_size = Some(-5);
    assert!(!full.has_room(&hidden));
    hidden.order_type = OrderType::Ioc;
    assert!(full.has_room(&hidden));
    hidden.order_type = OrderType::Iceberg;
    hidden.visible_size = Some(3);
    assert!(full.has_room(&hidden));
    full.new_order(&mut hidden);
    assert_eq!(full.get_l2_data(1).ask_volumes, vec![3]);
}
