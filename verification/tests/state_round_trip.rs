use matching_core::api::{
    CommandResultCode, CoreSymbolSpecification, MatcherTradeEvent, OrderAction, OrderCommand,
    OrderCommandType, OrderType, SymbolType,
};
use matching_core::exchange::{ExchangeConfig, ExchangeCore};
use matching_core::orderbook::advanced::AdvancedOrderBook;
use matching_core::orderbook::book::{BookKind, OrderBookState};
use matching_core::orderbook::direct::DirectOrderBook;
use matching_core::orderbook::direct_optimized::DirectOrderBookOptimized;
use matching_core::orderbook::naive::NaiveOrderBook;
use matching_core::processors::matching_engine::MatchingEngineRouter;

fn spot(symbol_id: i32) -> CoreSymbolSpecification {
    CoreSymbolSpecification {
        symbol_id,
        symbol_type: SymbolType::CurrencyExchangePair,
        base_currency: 10,
        quote_currency: 20,
        base_scale_k: 1,
        quote_scale_k: 1,
        taker_fee: 0,
        maker_fee: 0,
        margin_buy: 0,
        margin_sell: 0,
    }
}

fn order(id: i64, action: OrderAction, order_type: OrderType, price: i64, size: i64) -> OrderCommand {
    OrderCommand {
        command: OrderCommandType::PlaceOrder,
        uid: 1 + id % 3,
        order_id: id,
        symbol: 1,
        price,
        reserve_price: price + 1,
        size,
        action,
        order_type,
        timestamp: id,
        ..Default::default()
    }
}

fn fill(book: &mut OrderBookState) {
    for i in 0..40i64 {
        let action = if i % 2 == 0 { OrderAction::Ask } else { OrderAction::Bid };
        let price = if i % 2 == 0 { 105 + (i * 7) % 5 } else { 100 - (i * 3) % 5 };
        book.new_order(&mut order(i + 1, action, OrderType::Gtc, price, 1 + i % 4));
    }
    book.new_order(&mut order(100, OrderAction::Bid, OrderType::Gtc, 106, 10));
}

#[test]
fn every_book_survives_export_and_restore() {
    let books = vec![
        OrderBookState::Naive(NaiveOrderBook::new(spot(1))),
        OrderBookState::Direct(DirectOrderBook::new(spot(1))),
        OrderBookState::DirectOptimized(DirectOrderBookOptimized::new(spot(1))),
        OrderBookState::Advanced(AdvancedOrderBook::new(spot(1))),
    ];
    let kinds = [
        BookKind::Naive,
        BookKind::Direct,
        BookKind::DirectOptimized,
        BookKind::Advanced,
    ];
    for (mut book, kind) in books.into_iter().zip(kinds) {
        fill(&mut book);
        let snap = book.export();
        assert_eq!(snap.kind, kind);
        assert_eq!(snap.symbol_spec, spot(1));
        assert_eq!(snap.asks.len() + snap.bids.len(), 35);
        assert!(snap.asks.windows(2).all(|w| w[0].price <= w[1].price));
        assert!(snap.bids.windows(2).all(|w| w[0].price >= w[1].price));
        assert_eq!(snap.asks[0].price, 106);
        assert_eq!(snap.asks[0].filled, 1);
        let mut copy = book.duplicate();
        let again = copy.export();
        assert_eq!((again.asks, again.bids, again.stops), (snap.asks, snap.bids, snap.stops));
        for (a, b) in [(&mut book, &mut copy)] {
            let x = a.get_l2_data(50);
            let y = b.get_l2_data(50);
            assert_eq!(x.ask_prices, y.ask_prices);
            assert_eq!(x.ask_volumes, y.ask_volumes);
            assert_eq!(x.bid_prices, y.bid_prices);
            assert_eq!(x.bid_volumes, y.bid_volumes);
            for id in 1..=40 {
                assert_eq!(a.get_order_by_id(id), b.get_order_by_id(id));
            }
            let mut sweep_a = order(200, OrderAction::Bid, OrderType::Ioc, 200, 1000);
            let mut sweep_b = sweep_a.clone();
            a.new_order(&mut sweep_a);
            b.new_order(&mut sweep_b);
            assert_eq!(sweep_a.matcher_events, sweep_b.matcher_events);
            assert!(sweep_a.matcher_events.len() > 10);
            let mut cancel_a = OrderCommand {
                command: OrderCommandType::CancelOrder,
                uid: 1 + 2 % 3,
                order_id: 2,
                ..Default::default()
            };
            let mut cancel_b = cancel_a.clone();
            assert_eq!(a.cancel_order(&mut cancel_a), CommandResultCode::Success);
            assert_eq!(b.cancel_order(&mut cancel_b), CommandResultCode::Success);
            assert_eq!(cancel_a.matcher_events, cancel_b.matcher_events);
        }
    }
}

#[test]
fn advanced_book_keeps_its_stop_pool_through_a_snapshot() {
    let mut book = AdvancedOrderBook::new(spot(1));
    let mut stop = order(1, OrderAction::Bid, OrderType::StopLimit, 90, 5);
    stop.stop_price = Some(120);
    book.new_order(&mut stop);
    let mut iceberg = order(2, OrderAction::Ask, OrderType::Iceberg, 120, 50);
    iceberg.visible_size = Some(5);
    book.new_order(&mut iceberg);
    book.new_order(&mut order(3, OrderAction::Ask, OrderType::Gtc, 110, 1));
    book.new_order(&mut order(4, OrderAction::Bid, OrderType::Ioc, 110, 1));
    let snap = book.export();
    assert_eq!(snap.stops.len(), 1);
    assert_eq!(snap.last_trade_price, Some(110));
    let mut copy = AdvancedOrderBook::restore(&snap);
    assert_eq!(copy.get_l2_data(3).ask_volumes, vec![5]);
    assert_eq!(copy.get_order_by_id(1), Some((90, OrderAction::Bid)));
    let mut take = order(5, OrderAction::Bid, OrderType::Ioc, 120, 10);
    copy.new_order(&mut take);
    assert_eq!(take.matcher_events, vec![MatcherTradeEvent::new_trade(10, 120, 2, 3, 121)]);
    assert_eq!(copy.get_total_bid_volume(), 5);
    assert_eq!(copy.get_total_ask_volume(), 40);
}

#[test]
fn router_state_round_trip() {
    let mut router = MatchingEngineRouter::new(0, 1);
    router.add_symbol(spot(1));
    router.add_symbol(spot(2));
    router.add_symbol(spot(1));
    let mut ask = order(1, OrderAction::Ask, OrderType::Gtc, 50, 10);
    ask.symbol = 2;
    ask.result_code = CommandResultCode::ValidForMatchingEngine;
    router.process_order(&mut ask);
    let state = router.serialize_state();
    assert_eq!(state.order_books.len(), 2);
    assert_eq!((state.shard_id, state.shard_mask), (0, 0));
    let mut back = MatchingEngineRouter::from_state(&state);
    let mut bid = order(2, OrderAction::Bid, OrderType::Ioc, 50, 4);
    bid.symbol = 2;
    bid.result_code = CommandResultCode::ValidForMatchingEngine;
    back.process_order(&mut bid);
    assert_eq!(bid.matcher_events, vec![MatcherTradeEvent::new_trade(4, 50, 1, 2, 51)]);
    let mut other = order(3, OrderAction::Bid, OrderType::Ioc, 50, 4);
    other.result_code = CommandResultCode::ValidForMatchingEngine;
    back.process_order(&mut other);
    assert_eq!(other.matcher_events.len(), 1);
    assert_eq!(other.matcher_events[0], MatcherTradeEvent::new_rejection(4, 50, 51));
}

#[test]
fn exchange_core_full_flow_and_recovery() {
    let mut core = ExchangeCore::new(ExchangeConfig::default());
    core.add_symbol(CoreSymbolSpecification {
        symbol_id: 1,
        symbol_type: SymbolType::CurrencyExchangePair,
        base_currency: 1,
        quote_currency: 2,
        base_scale_k: 100,
        quote_scale_k: 1,
        ..Default::default()
    });
    let added = core.submit_command(OrderCommand {
        command: OrderCommandType::AddUser,
        uid: 1,
        ..Default::default()
    });
    assert_eq!(added.result_code, CommandResultCode::Success);
    core.submit_command(OrderCommand {
        command: OrderCommandType::BalanceAdjustment,
        uid: 1,
        symbol: 2,
        price: 1000000,
        ..Default::default()
    });
    let placed = core.submit_command(OrderCommand {
        command: OrderCommandType::PlaceOrder,
        uid: 1,
        order_id: 1,
        symbol: 1,
        price: 1000,
        reserve_price: 1000,
        size: 10,
        action: OrderAction::Bid,
        ..Default::default()
    });
    assert_eq!(placed.result_code, CommandResultCode::Success);
    let state = core.serialize_state().unwrap();
    let mut core2 = ExchangeCore::from_state(state);
    let pipeline = core2.pipeline.as_ref().unwrap();
    assert_eq!(pipeline.risk_engines[0].user_service.balance(1, 2), 1000000 - 10000);
    assert_eq!(pipeline.matching_engines[0].order_books[0].get_total_bid_volume(), 10);
    let cancelled = core2.submit_command(OrderCommand {
        command: OrderCommandType::CancelOrder,
        uid: 1,
        order_id: 1,
        symbol: 1,
        ..Default::default()
    });
    assert_eq!(cancelled.result_code, CommandResultCode::Success);
    let pipeline = core2.pipeline.as_ref().unwrap();
    assert_eq!(pipeline.risk_engines[0].user_service.balance(1, 2), 1000000);
    let handed = core2.startup();
    assert!(handed.is_some());
    assert!(core2.startup().is_none());
    assert!(core2.serialize_state().is_none());
    core2.add_symbol(CoreSymbolSpecification::default());
    assert!(core2.pipeline.is_none());
}
