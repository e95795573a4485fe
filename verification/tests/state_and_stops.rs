use matching_core::api::{
    CommandResultCode, CoreSymbolSpecification, MatcherEventType, MatcherTradeEvent, OrderAction,
    OrderCommand, OrderCommandType, OrderType, SymbolType,
};
use matching_core::exchange::{ExchangeConfig, ExchangeCore, ProducerType, WaitStrategyType};
use matching_core::orderbook::advanced::AdvancedOrderBook;
use matching_core::orderbook::book::BookKind;
use matching_core::processors::risk_engine::RiskEngine;
use matching_core::users::{SymbolPositionRecord, UserProfileService};

fn pair(symbol_id: i32) -> CoreSymbolSpecification {
    CoreSymbolSpecification {
        symbol_id,
        symbol_type: SymbolType::CurrencyExchangePair,
        base_currency: 10,
        quote_currency: 20,
        base_scale_k: 1,
        quote_scale_k: 1,
        taker_fee: 0,
        maker_fee: 0,
        margin_buy: 0,
        margin_sell: 0,
    }
}

fn place(
    id: i64,
    uid: i64,
    symbol: i32,
    action: OrderAction,
    order_type: OrderType,
    price: i64,
    size: i64,
) -> OrderCommand {
    OrderCommand {
        command: OrderCommandType::PlaceOrder,
        uid,
        order_id: id,
        symbol,
        price,
        reserve_price: price,
        size,
        action,
        order_type,
        timestamp: id,
        ..Default::default()
    }
}

fn two_by_two() -> ExchangeCore {
    let mut core = ExchangeCore::new(ExchangeConfig {
        ring_buffer_size: 1024,
        matching_engines_num: 2,
        risk_engines_num: 2,
        producer_type: ProducerType::Single,
        wait_strategy: WaitStrategyType::BusySpin,
    });
    core.add_symbol(pair(1));
    core.add_symbol(pair(2));
    for uid in [4i64, 5] {
        core.submit_command(OrderCommand {
            command: OrderCommandType::AddUser,
            uid,
            ..Default::default()
        });
        core.submit_command(OrderCommand {
            command: OrderCommandType::BalanceAdjustment,
            uid,
            symbol: 20,
            price: 5000,
            ..Default::default()
        });
    }
    core
}

#[test]
fn new_symbol_gets_an_empty_direct_book_in_every_shard() {
    let core = two_by_two();
    let pipeline = core.pipeline.as_ref().unwrap();
    assert_eq!(pipeline.matching_engines.len(), 2);
    for shard in pipeline.matching_engines.iter() {
        assert_eq!(shard.order_books.len(), 2);
        for (book, id) in shard.order_books.iter().zip([1, 2]) {
            let snap = book.export();
            assert_eq!(snap.kind, BookKind::Direct);
            assert_eq!(snap.symbol_spec, pair(id));
            assert!(snap.asks.is_empty() && snap.bids.is_empty() && snap.stops.is_empty());
        }
    }
    for shard in pipeline.risk_engines.iter() {
        assert_eq!(shard.symbols.get(&1), Some(&pair(1)));
        assert_eq!(shard.symbols.get(&2), Some(&pair(2)));
    }
}

#[test]
fn saved_state_holds_every_shard_as_it_stands() {
    let mut core = two_by_two();
    let a = core.submit_command(place(1, 4, 1, OrderAction::Bid, OrderType::Gtc, 100, 7));
    assert_eq!(a.result_code, CommandResultCode::Success);
    let b = core.submit_command(place(2, 5, 2, OrderAction::Bid, OrderType::Gtc, 90, 3));
    assert_eq!(b.result_code, CommandResultCode::Success);
    let config = core.config;
    let state = core.serialize_state().unwrap();
    assert_eq!(state.config, config);
    let saved = &state.pipeline_state;
    assert_eq!(saved.risk_engines.len(), 2);
    assert_eq!(saved.matching_engines.len(), 2);
    assert_eq!(saved.risk_engines[0].user_service.balance(4, 20), 5000 - 700);
    assert_eq!(saved.risk_engines[1].user_service.balance(5, 20), 5000 - 270);
    assert!(!saved.risk_engines[0].user_service.has_user(5));
    assert_eq!(saved.risk_engines[1].symbols.get(&2), Some(&pair(2)));
    for (k, shard) in saved.matching_engines.iter().enumerate() {
        assert_eq!(shard.shard_id, k as i32);
        assert_eq!(shard.shard_mask, 1);
        assert_eq!(shard.order_books.len(), 2);
        assert_eq!(shard.order_books[0].kind, BookKind::Direct);
        assert_eq!(shard.order_books[0].symbol_spec, pair(1));
        assert_eq!(shard.order_books[1].symbol_spec, pair(2));
    }
    let first = &saved.matching_engines[1].order_books[0];
    assert_eq!(first.bids.len(), 1);
    assert_eq!((first.bids[0].order_id, first.bids[0].price, first.bids[0].size), (1, 100, 7));
    let second = &saved.matching_engines[0].order_books[1];
    assert_eq!(second.bids.len(), 1);
    assert_eq!((second.bids[0].order_id, second.bids[0].price, second.bids[0].size), (2, 90, 3));
    assert!(saved.matching_engines[0].order_books[0].bids.is_empty());
    assert!(saved.matching_engines[1].order_books[1].bids.is_empty());

    let mut back = ExchangeCore::from_state(state);
    let pipeline = back.pipeline.as_ref().unwrap();
    assert_eq!(pipeline.risk_engines.len(), 2);
    assert_eq!(pipeline.matching_engines.len(), 2);
    assert_eq!(pipeline.matching_engines[1].order_books[0].get_total_bid_volume(), 7);
    assert_eq!(pipeline.matching_engines[0].order_books[1].get_total_bid_volume(), 3);
    assert_eq!(*pipeline.matching_engines[1].order_books[0].get_symbol_spec(), pair(1));
    let hit = back.submit_command(place(3, 5, 1, OrderAction::Ask, OrderType::Ioc, 100, 2));
    assert_eq!(hit.result_code, CommandResultCode::RiskNsf);
    let cancel = back.submit_command(OrderCommand {
        command: OrderCommandType::CancelOrder,
        uid: 5,
        order_id: 2,
        symbol: 2,
        ..Default::default()
    });
    assert_eq!(cancel.result_code, CommandResultCode::Success);
    assert_eq!(cancel.matcher_events.len(), 1);
    assert_eq!(cancel.matcher_events[0].size, 3);
}

#[test]
fn latest_stop_order_of_the_pool_enters_first() {
    let mut book = AdvancedOrderBook::new(pair(1));
    book.new_order(&mut place(1, 1, 1, OrderAction::Ask, OrderType::Gtc, 100, 1));
    let mut early = place(10, 2, 1, OrderAction::Bid, OrderType::StopLimit, 95, 4);
    early.stop_price = Some(100);
    book.new_order(&mut early);
    let mut idle = place(11, 2, 1, OrderAction::Bid, OrderType::StopLimit, 95, 9);
    idle.stop_price = Some(500);
    book.new_order(&mut idle);
    let mut late = place(12, 3, 1, OrderAction::Bid, OrderType::StopLimit, 95, 6);
    late.stop_price = Some(99);
    book.new_order(&mut late);
    assert_eq!(book.get_total_bid_volume(), 0);
    assert_eq!(book.get_total_stop_volume(), 19);
    let mut spark = place(20, 4, 1, OrderAction::Bid, OrderType::Ioc, 100, 1);
    book.new_order(&mut spark);
    assert_eq!(spark.matcher_events, vec![MatcherTradeEvent::new_trade(1, 100, 1, 1, 100)]);
    assert_eq!(book.get_total_bid_volume(), 10);
    assert_eq!(book.get_total_stop_volume(), 9);
    let snap = book.export();
    let resting: Vec<i64> = snap.bids.iter().map(|o| o.order_id).collect();
    assert_eq!(resting, vec![12, 10]);
    let mut ask = place(21, 5, 1, OrderAction::Ask, OrderType::Ioc, 95, 8);
    book.new_order(&mut ask);
    assert_eq!(
        ask.matcher_events,
        vec![
            MatcherTradeEvent::new_trade(6, 95, 12, 3, 95),
            MatcherTradeEvent::new_trade(2, 95, 10, 2, 95),
        ]
    );
}

#[test]
fn reduce_on_the_book_of_all_order_types() {
    let mut book = AdvancedOrderBook::new(pair(1));
    let mut berg = place(1, 7, 1, OrderAction::Ask, OrderType::Iceberg, 100, 50);
    berg.visible_size = Some(10);
    book.new_order(&mut berg);
    let mut stop = place(2, 7, 1, OrderAction::Bid, OrderType::StopLimit, 90, 5);
    stop.stop_price = Some(300);
    book.new_order(&mut stop);
    let mut pooled = OrderCommand {
        command: OrderCommandType::ReduceOrder,
        uid: 7,
        order_id: 2,
        size: 1,
        ..Default::default()
    };
    assert_eq!(book.reduce_order(&mut pooled), CommandResultCode::MatchingUnknownOrderId);
    let mut foreign = OrderCommand {
        command: OrderCommandType::ReduceOrder,
        uid: 8,
        order_id: 1,
        size: 1,
        ..Default::default()
    };
    assert_eq!(book.reduce_order(&mut foreign), CommandResultCode::MatchingUnknownOrderId);
    let mut cut = OrderCommand {
        command: OrderCommandType::ReduceOrder,
        uid: 7,
        order_id: 1,
        size: 44,
        ..Default::default()
    };
    assert_eq!(book.reduce_order(&mut cut), CommandResultCode::Success);
    assert_eq!(cut.action, OrderAction::Ask);
    assert_eq!(cut.matcher_events.len(), 1);
    assert_eq!(cut.matcher_events[0].event_type, MatcherEventType::Reject);
    assert_eq!(cut.matcher_events[0].size, 44);
    assert_eq!(cut.matcher_events[0].price, 100);
    assert_eq!(book.get_total_ask_volume(), 6);
    assert_eq!(book.get_l2_data(1).ask_volumes, vec![6]);
    let mut all = OrderCommand {
        command: OrderCommandType::ReduceOrder,
        uid: 7,
        order_id: 1,
        size: 6,
        ..Default::default()
    };
    assert_eq!(book.reduce_order(&mut all), CommandResultCode::Success);
    assert_eq!(all.matcher_events[0].size, 6);
    assert_eq!(book.get_ask_buckets_count(), 0);
    assert_eq!(book.get_order_by_id(1), None);
    assert_eq!(book.get_total_stop_volume(), 5);
}

#[test]
fn balances_change_and_positions_stay() {
    let mut users = UserProfileService::new();
    assert!(users.add_user(5));
    assert!(users.add_user(6));
    let record = SymbolPositionRecord {
        open_volume_long: 3,
        pending_buy_size: 2,
        ..SymbolPositionRecord::new(5, 9, 20)
    };
    users.get_user_mut(5).unwrap().positions.insert(9, record);
    assert!(!users.add_user(5));
    assert!(users.add_user(7));
    users.set_balance(5, 20, 100);
    users.credit(5, 20, -30);
    users.credit(6, 20, 8);
    assert_eq!(users.balance_adjustment(5, 10, 4, 1), CommandResultCode::Success);
    assert_eq!(users.balance_adjustment(8, 10, 4, 2), CommandResultCode::AuthInvalidUser);
    let copy = users.clone();
    for service in [&users, &copy] {
        assert_eq!(service.balance(5, 20), 70);
        assert_eq!(service.balance(5, 10), 4);
        assert_eq!(service.get_user(5).unwrap().positions.len(), 1);
        assert_eq!(service.get_user(5).unwrap().positions.get(&9), Some(&record));
        assert!(service.get_user(6).unwrap().positions.is_empty());
        assert!(service.get_user(7).unwrap().positions.is_empty());
    }
}

#[test]
fn risk_stages_leave_positions_alone() {
    let mut engine = RiskEngine::new(0, 1);
    engine.add_symbol(pair(1));
    for uid in [1i64, 2] {
        let mut add = OrderCommand {
            command: OrderCommandType::AddUser,
            uid,
            ..Default::default()
        };
        engine.pre_process(&mut add);
    }
    let record = SymbolPositionRecord::new(1, 1, 20);
    engine.user_service.get_user_mut(1).unwrap().positions.insert(1, record);
    engine.user_service.set_balance(1, 20, 1000);
    engine.user_service.set_balance(2, 10, 50);
    let mut bid = place(1, 1, 1, OrderAction::Bid, OrderType::Gtc, 100, 5);
    engine.pre_process(&mut bid);
    assert_eq!(bid.result_code, CommandResultCode::ValidForMatchingEngine);
    bid.matcher_events.push(MatcherTradeEvent::new_trade(5, 90, 7, 2, 100));
    engine.post_process(&mut bid);
    assert_eq!(engine.user_service.balance(1, 20), 1000 - 500 + 50);
    assert_eq!(engine.user_service.balance(1, 10), 5);
    assert_eq!(engine.user_service.balance(2, 20), 450);
    let copy = engine.clone();
    for e in [&engine, &copy] {
        assert_eq!(e.user_service.get_user(1).unwrap().positions.get(&1), Some(&record));
        assert!(e.user_service.get_user(2).unwrap().positions.is_empty());
    }
}

#[test]
fn risk_check_goes_by_the_order_alone() {
    let mut engine = RiskEngine::new(0, 1);
    engine.add_symbol(pair(1));
    engine.user_service.add_user(1);
    engine.user_service.set_balance(1, 20, 1000);
    let mut cmd = place(1, 1, 1, OrderAction::Bid, OrderType::Gtc, 100, 4);
    cmd.command = OrderCommandType::Nop;
    assert_eq!(engine.place_order_risk_check(&cmd), CommandResultCode::ValidForMatchingEngine);
    assert_eq!(engine.user_service.balance(1, 20), 600);
    cmd.command = OrderCommandType::MoveOrder;
    cmd.size = 7;
    assert_eq!(engine.place_order_risk_check(&cmd), CommandResultCode::RiskNsf);
    assert_eq!(engine.user_service.balance(1, 20), 600);
    assert_eq!(engine.try_risk_check(&cmd), Some(CommandResultCode::RiskNsf));
    cmd.uid = 9;
    assert_eq!(engine.place_order_risk_check(&cmd), CommandResultCode::AuthInvalidUser);
    cmd.uid = 1;
    cmd.symbol = 3;
    assert_eq!(engine.place_order_risk_check(&cmd), CommandResultCode::InvalidSymbol);
}
