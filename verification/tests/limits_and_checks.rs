use matching_core::api::types::is_power_of_two;
use matching_core::api::{
    CommandResultCode, CoreSymbolSpecification, MatcherTradeEvent, OrderAction, OrderCommand,
    OrderCommandType, OrderType, SymbolType,
};
use matching_core::exchange::{ExchangeConfig, ExchangeCore, ProducerType, WaitStrategyType};
use matching_core::orderbook::direct_optimized::OrderPool;
use matching_core::orderbook::store::{DirectOrder, NodeStore};
use matching_core::orderbook::{
    AdvancedOrderBook, BookKind, BookSnapshot, DirectOrderBook, DirectOrderBookOptimized,
    NaiveOrderBook, Order, OrderBook, OrderBookState,
};
use matching_core::pipeline::Pipeline;
use matching_core::processors::matching_engine::{MatchingEngineRouter, MatchingEngineState};
use matching_core::processors::risk_engine::RiskEngine;
use matching_core::users::UserProfileService;

fn pair() -> CoreSymbolSpecification {
    CoreSymbolSpecification {
        symbol_id: 1,
        symbol_type: SymbolType::CurrencyExchangePair,
        base_currency: 10,
        quote_currency: 20,
        base_scale_k: 1,
        quote_scale_k: 1,
        taker_fee: 0,
        maker_fee: 0,
        margin_buy: 0,
        margin_sell: 0,
    }
}

fn resting(id: i64, action: OrderAction, price: i64, size: i64, filled: i64) -> Order {
    Order {
        order_id: id,
        uid: 1,
        price,
        size,
        filled,
        action,
        order_type: OrderType::Gtc,
        reserve_price: price,
        timestamp: 0,
        stop_price: None,
        visible_size: None,
        expire_time: None,
    }
}

fn place(id: i64, uid: i64, action: OrderAction, price: i64, size: i64) -> OrderCommand {
    OrderCommand {
        command: OrderCommandType::PlaceOrder,
        uid,
        order_id: id,
        symbol: 1,
        price,
        reserve_price: price,
        size,
        action,
        order_type: OrderType::Gtc,
        ..Default::default()
    }
}

fn snapshot(kind: BookKind, asks: Vec<Order>, bids: Vec<Order>, stops: Vec<Order>) -> BookSnapshot {
    BookSnapshot { kind, symbol_spec: pair(), asks, bids, stops, last_trade_price: None }
}

#[test]
fn order_quantities() {
    let mut o = resting(1, OrderAction::Ask, 10, 100, 30);
    assert_eq!(o.remaining(), 70);
    assert_eq!(o.visible(), 70);
    o.visible_size = Some(25);
    assert_eq!(o.visible(), 25);
    o.visible_size = Some(90);
    assert_eq!(o.visible(), 70);
    assert_eq!(o.hold_price(), 10);
    o.reserve_price = 12;
    assert_eq!(o.hold_price(), 12);
    o.order_type = OrderType::FokBudget;
    assert_eq!(o.hold_price(), 10);
    assert!(!o.is_expired(5));
    o.expire_time = Some(5);
    assert!(!o.is_expired(5));
    assert!(o.is_expired(6));
    assert!(OrderType::IocBudget.budget() && !OrderType::Fok.budget());
    assert!(OrderType::StopMarket.stop() && !OrderType::Gtd(1).stop());
}

#[test]
fn valid_snapshots_pass_and_broken_ones_do_not() {
    let asks = vec![resting(1, OrderAction::Ask, 100, 5, 0), resting(2, OrderAction::Ask, 100, 5, 4)];
    let bids = vec![resting(3, OrderAction::Bid, 99, 5, 0), resting(4, OrderAction::Bid, 98, 5, 0)];
    for kind in [BookKind::Naive, BookKind::Direct, BookKind::DirectOptimized, BookKind::Advanced] {
        assert!(snapshot(kind, asks.clone(), bids.clone(), vec![]).is_valid());
        assert!(snapshot(kind, vec![], vec![], vec![]).is_valid());
    }
    let broken: Vec<Box<dyn Fn(&mut BookSnapshot)>> = vec![
        Box::new(|s| s.asks[0].filled = 5),
        Box::new(|s| s.asks[1].filled = -1),
        Box::new(|s| s.asks[0].size = 0),
        Box::new(|s| s.asks[0].action = OrderAction::Bid),
        Box::new(|s| s.bids[1].action = OrderAction::Ask),
        Box::new(|s| s.asks[1].price = 99),
        Box::new(|s| s.bids[1].price = 100),
        Box::new(|s| s.asks[1].order_id = 1),
        Box::new(|s| s.bids[0].order_id = 2),
        Box::new(|s| s.asks[0].visible_size = Some(-1)),
        Box::new(|s| s.asks[0].size = i64::MAX),
        Box::new(|s| s.bids[0].size = i64::MAX - 5),
    ];
    for spoil in broken.iter() {
        let mut snap = snapshot(BookKind::Naive, asks.clone(), bids.clone(), vec![]);
        spoil(&mut snap);
        assert!(!snap.is_valid());
    }
    let mut stop = resting(9, OrderAction::Bid, 90, 3, 0);
    stop.order_type = OrderType::StopLimit;
    stop.stop_price = Some(95);
    assert!(snapshot(BookKind::Advanced, asks.clone(), bids.clone(), vec![stop]).is_valid());
    assert!(!snapshot(BookKind::Naive, asks.clone(), bids.clone(), vec![stop]).is_valid());
    let mut touched = stop;
    touched.filled = 1;
    assert!(!snapshot(BookKind::Advanced, asks.clone(), bids.clone(), vec![touched]).is_valid());
    let mut plain = stop;
    plain.order_type = OrderType::Gtc;
    assert!(!snapshot(BookKind::Advanced, asks.clone(), bids.clone(), vec![plain]).is_valid());
    let mut twin = stop;
    twin.order_id = 3;
    assert!(!snapshot(BookKind::Advanced, asks.clone(), bids.clone(), vec![twin]).is_valid());
    let mut priced = snapshot(BookKind::Direct, asks.clone(), bids.clone(), vec![]);
    priced.last_trade_price = Some(1);
    assert!(!priced.is_valid());
    let mut iceberg = snapshot(BookKind::Direct, asks.clone(), bids.clone(), vec![]);
    iceberg.bids[1].visible_size = Some(1);
    assert!(!iceberg.is_valid());
    iceberg.kind = BookKind::Naive;
    assert!(iceberg.is_valid());
    iceberg.kind = BookKind::Advanced;
    iceberg.last_trade_price = Some(7);
    assert!(iceberg.is_valid());
    let restored = OrderBookState::restore(&iceberg);
    assert_eq!(restored.get_l2_data(5).bid_volumes, vec![5, 1]);
    let state = MatchingEngineState {
        shard_id: 0,
        shard_mask: 0,
        order_books: vec![
            snapshot(BookKind::Naive, asks.clone(), bids.clone(), vec![]),
            snapshot(BookKind::Direct, vec![], vec![], vec![]),
        ],
    };
    assert!(!state.is_valid());
    let mut other = state;
    other.order_books[1].symbol_spec.symbol_id = 2;
    assert!(other.is_valid());
    other.order_books[1].asks.push(resting(1, OrderAction::Bid, 1, 1, 0));
    assert!(!other.is_valid());
}

#[test]
fn books_know_when_they_are_full() {
    let mut book = OrderBookState::Advanced(AdvancedOrderBook::new(pair()));
    let mut big = place(1, 1, OrderAction::Ask, 100, i64::MAX - 10);
    assert!(book.has_room(&big));
    book.new_order(&mut big);
    assert_eq!(book.total_volume(), (i64::MAX - 10) as i128);
    assert!(book.has_room(&place(2, 1, OrderAction::Bid, 50, 10)));
    assert!(!book.has_room(&place(2, 1, OrderAction::Bid, 50, 11)));
    assert!(book.has_room(&place(2, 1, OrderAction::Bid, 50, 0)));
    assert!(book.has_room(&place(2, 1, OrderAction::Bid, 50, -3)));
    let mut stop = place(3, 1, OrderAction::Bid, 50, 4);
    stop.order_type = OrderType::StopLimit;
    stop.stop_price = Some(1000);
    book.new_order(&mut stop);
    assert_eq!(book.total_volume(), (i64::MAX - 6) as i128);
    assert!(!book.has_room(&place(4, 1, OrderAction::Bid, 50, 7)));
    let mut hidden = place(5, 1, OrderAction::Bid, 50, 1);
    hidden.visible_size = Some(-1);
    assert!(!book.has_room(&hidden));
    hidden.visible_size = Some(0);
    assert!(book.has_room(&hidden));
    let mut router = MatchingEngineRouter::new(0, 1);
    router.add_symbol(pair());
    let mut first = place(1, 1, OrderAction::Ask, 100, i64::MAX);
    first.result_code = CommandResultCode::ValidForMatchingEngine;
    assert!(router.can_process(&first));
    router.process_order(&mut first);
    let mut second = place(2, 1, OrderAction::Bid, 50, 1);
    assert!(router.can_process(&second));
    second.result_code = CommandResultCode::ValidForMatchingEngine;
    assert!(!router.can_process(&second));
    second.symbol = 2;
    assert!(router.can_process(&second));
    second.symbol = 1;
    second.command = OrderCommandType::CancelOrder;
    assert!(router.can_process(&second));
}

#[test]
fn risk_engine_stops_before_a_balance_leaves_its_range() {
    let mut engine = RiskEngine::new(0, 1);
    engine.add_symbol(pair());
    let mut user = OrderCommand { command: OrderCommandType::AddUser, uid: 1, ..Default::default() };
    assert!(engine.try_pre_process(&mut user));
    let mut fill = OrderCommand {
        command: OrderCommandType::BalanceAdjustment,
        uid: 1,
        symbol: 20,
        price: i64::MAX,
        ..Default::default()
    };
    assert!(engine.try_pre_process(&mut fill));
    assert_eq!(fill.result_code, CommandResultCode::Success);
    let mut more = OrderCommand {
        command: OrderCommandType::BalanceAdjustment,
        uid: 1,
        symbol: 20,
        price: 1,
        ..Default::default()
    };
    assert!(!engine.try_pre_process(&mut more));
    assert_eq!(more.result_code, CommandResultCode::New);
    assert_eq!(engine.user_service.balance(1, 20), i64::MAX);
    let mut odd = place(1, 1, OrderAction::Bid, 1, -1);
    assert!(!engine.try_pre_process(&mut odd));
    assert_eq!(odd.result_code, CommandResultCode::New);
    let mut far = place(1, 1, OrderAction::Bid, i64::MIN, i64::MAX);
    far.reserve_price = i64::MIN;
    let mut wide = pair();
    wide.symbol_id = 2;
    wide.quote_scale_k = i64::MAX;
    engine.add_symbol(wide);
    far.symbol = 2;
    assert!(!engine.try_pre_process(&mut far));
    far.reserve_price = i64::MAX;
    assert!(engine.try_pre_process(&mut far));
    assert_eq!(far.result_code, CommandResultCode::RiskNsf);
    let mut zero = place(2, 1, OrderAction::Bid, 5, 0);
    assert!(engine.try_pre_process(&mut zero));
    assert_eq!(zero.result_code, CommandResultCode::ValidForMatchingEngine);
    let mut settle = place(3, 1, OrderAction::Ask, 5, 1);
    settle.matcher_events.push(MatcherTradeEvent::new_trade(1, 1, 9, 2, 1));
    assert!(!engine.try_post_process(&mut settle));
    assert_eq!(settle.result_code, CommandResultCode::New);
    assert_eq!(engine.user_service.balance(1, 20), i64::MAX);
    let mut refund = place(4, 1, OrderAction::Ask, 5, 1);
    refund.matcher_events.push(MatcherTradeEvent::new_rejection(6, 5, 0));
    refund.matcher_events.push(MatcherTradeEvent::new_trade(1, 1, 9, 2, 1));
    assert!(!engine.try_post_process(&mut refund));
    assert_eq!(engine.user_service.balance(1, 10), 6);
    let mut fine = place(5, 1, OrderAction::Ask, 5, 1);
    fine.matcher_events.push(MatcherTradeEvent::new_trade(1, 0, 9, 2, 1));
    assert!(engine.try_post_process(&mut fine));
    assert_eq!(fine.result_code, CommandResultCode::Success);
}

#[test]
fn single_settlement_steps() {
    let mut engine = RiskEngine::new(0, 1);
    engine.add_symbol(pair());
    let mut user = OrderCommand { command: OrderCommandType::AddUser, uid: 1, ..Default::default() };
    engine.pre_process(&mut user);
    let mut deposit = OrderCommand {
        command: OrderCommandType::BalanceAdjustment,
        uid: 1,
        symbol: 20,
        price: 500,
        ..Default::default()
    };
    engine.pre_process(&mut deposit);
    let bid = place(1, 1, OrderAction::Bid, 7, 10);
    assert_eq!(engine.place_order_risk_check(&bid), CommandResultCode::ValidForMatchingEngine);
    assert_eq!(engine.user_service.balance(1, 20), 430);
    let trade = MatcherTradeEvent::new_trade(4, 5, 9, 2, 7);
    engine.handle_trade_event(&bid, &trade, &pair(), false);
    assert_eq!(engine.user_service.balance(1, 20), 438);
    assert_eq!(engine.user_service.balance(1, 10), 4);
    let reject = MatcherTradeEvent::new_rejection(6, 7, 7);
    engine.handle_reject_event(&bid, &reject, &pair(), false);
    assert_eq!(engine.user_service.balance(1, 20), 480);
    assert!(engine.try_pay_seller(1, &trade, &pair(), 2));
    assert_eq!(engine.user_service.balance(1, 20), 480 + 20 - 8);
    assert!(engine.try_pay_buyer(7, &trade, &pair()));
    let mut copy = engine.clone();
    assert_eq!(copy.user_service.balance(1, 20), 492);
    assert_eq!((copy.shard_id, copy.shard_mask), (0, 0));
    let mut again = place(2, 1, OrderAction::Bid, 2, 1);
    copy.pre_process(&mut again);
    assert_eq!(again.result_code, CommandResultCode::ValidForMatchingEngine);
    assert_eq!(copy.user_service.balance(1, 20), 490);
    assert_eq!(engine.user_service.balance(1, 20), 492);
}

#[test]
fn pipeline_stops_before_a_limit_is_passed() {
    let config = ExchangeConfig::default();
    assert!(config.is_valid());
    let mut p = Pipeline::new(&config);
    p.add_symbol(pair());
    let mut run = |p: &mut Pipeline, mut cmd: OrderCommand| -> (OrderCommand, bool) {
        let ok = p.try_handle_event(&mut cmd, 0, true);
        (cmd, ok)
    };
    for uid in [1, 2] {
        let (_, ok) = run(
            &mut p,
            OrderCommand { command: OrderCommandType::AddUser, uid, ..Default::default() },
        );
        assert!(ok);
    }
    let deposit = |uid: i64, currency: i32, amount: i64| OrderCommand {
        command: OrderCommandType::BalanceAdjustment,
        uid,
        symbol: currency,
        price: amount,
        ..Default::default()
    };
    assert!(run(&mut p, deposit(1, 10, i64::MAX)).1);
    assert!(run(&mut p, deposit(2, 10, i64::MAX)).1);
    assert!(!run(&mut p, deposit(2, 10, 1)).1);
    assert!(run(&mut p, deposit(2, 20, i64::MAX)).1);
    let (first, ok) = run(&mut p, place(1, 1, OrderAction::Ask, 1, i64::MAX));
    assert!(ok);
    assert_eq!(first.result_code, CommandResultCode::Success);
    let mut low = place(2, 2, OrderAction::Bid, 0, 5);
    low.reserve_price = 0;
    let (over, ok) = run(&mut p, low);
    assert!(!ok);
    assert_eq!(over.result_code, CommandResultCode::ValidForMatchingEngine);
    assert!(over.matcher_events.is_empty());
    assert!(p.can_process(&OrderCommand::default()));
    let mut taker = place(3, 2, OrderAction::Bid, 1, 1);
    taker.order_type = OrderType::Ioc;
    let (settled, ok) = run(&mut p, taker);
    assert!(!ok);
    assert_eq!(settled.matcher_events.len(), 1);
    assert_eq!(settled.result_code, CommandResultCode::Success);
    assert_eq!(p.risk_engines[0].user_service.balance(2, 10), i64::MAX);
    assert_eq!(p.risk_engines[0].user_service.balance(1, 20), 0);
}

#[test]
fn exchange_core_checked_submit() {
    let mut core = ExchangeCore::new(ExchangeConfig::default());
    core.add_symbol(pair());
    let (done, ok) = core.try_submit_command(OrderCommand {
        command: OrderCommandType::AddUser,
        uid: 4,
        ..Default::default()
    });
    assert!(ok);
    assert_eq!(done.result_code, CommandResultCode::Success);
    let (_, ok) = core.try_submit_command(OrderCommand {
        command: OrderCommandType::BalanceAdjustment,
        uid: 4,
        symbol: 10,
        price: i64::MIN,
        ..Default::default()
    });
    assert!(ok);
    let (back, ok) = core.try_submit_command(OrderCommand {
        command: OrderCommandType::BalanceAdjustment,
        uid: 4,
        symbol: 10,
        price: -1,
        ..Default::default()
    });
    assert!(!ok);
    assert_eq!(back.result_code, CommandResultCode::New);
    let _ = core.startup();
    let (same, ok) = core.try_submit_command(OrderCommand { uid: 77, ..Default::default() });
    assert!(!ok);
    assert_eq!(same.uid, 77);
}

#[test]
fn configurations() {
    let valid = |matching: usize, risk: usize| {
        ExchangeConfig {
            ring_buffer_size: 8,
            matching_engines_num: matching,
            risk_engines_num: risk,
            producer_type: ProducerType::Multi,
            wait_strategy: WaitStrategyType::Sleeping,
        }
        .is_valid()
    };
    assert!(valid(1, 1) && valid(4, 2) && valid(1 << 30, 1));
    assert!(!valid(0, 1) && !valid(1, 0) && !valid(3, 1) && !valid(2, 6) && !valid(1 << 31, 1));
    assert!(is_power_of_two(1) && is_power_of_two(64) && is_power_of_two(1 << 40));
    assert!(!is_power_of_two(0) && !is_power_of_two(12) && !is_power_of_two(usize::MAX));
}

fn sweep<B: OrderBook>(book: &mut B, price: i64) -> Vec<i64> {
    let mut ask = place(1, 1, OrderAction::Ask, price, 3);
    book.new_order(&mut ask);
    let mut more = place(2, 1, OrderAction::Ask, price + 1, 3);
    book.new_order(&mut more);
    assert_eq!(book.get_ask_buckets_count(), 2);
    assert_eq!(book.get_bid_buckets_count(), 0);
    assert_eq!(book.get_symbol_spec().symbol_id, 1);
    assert_eq!(book.serialize_state().asks.len(), 2);
    let mut cut = OrderCommand {
        command: OrderCommandType::ReduceOrder,
        uid: 1,
        order_id: 2,
        size: 1,
        ..Default::default()
    };
    let _ = book.reduce_order(&mut cut);
    let mut mv = OrderCommand {
        command: OrderCommandType::MoveOrder,
        uid: 1,
        order_id: 2,
        price: price + 2,
        ..Default::default()
    };
    let _ = book.move_order(&mut mv);
    let mut bid = place(3, 2, OrderAction::Bid, price + 5, 10);
    bid.order_type = OrderType::Ioc;
    book.new_order(&mut bid);
    assert_eq!(book.get_total_ask_volume(), 0);
    assert_eq!(book.get_total_bid_volume(), 0);
    assert_eq!(book.get_order_by_id(1), None);
    assert!(book.get_l2_data(1).ask_prices.is_empty());
    let mut cancel = OrderCommand {
        command: OrderCommandType::CancelOrder,
        uid: 1,
        order_id: 1,
        ..Default::default()
    };
    assert_eq!(book.cancel_order(&mut cancel), CommandResultCode::MatchingUnknownOrderId);
    bid.matcher_events.iter().map(|e| e.size).collect()
}

#[test]
fn books_behind_the_common_interface() {
    assert_eq!(sweep(&mut NaiveOrderBook::new(pair()), 10), vec![3, 2, 5]);
    assert_eq!(sweep(&mut DirectOrderBook::new(pair()), 10), vec![3, 2, 5]);
    assert_eq!(sweep(&mut DirectOrderBookOptimized::new(pair()), 10), vec![3, 2, 5]);
    assert_eq!(sweep(&mut AdvancedOrderBook::new(pair()), 10), vec![3, 2, 5]);
    assert_eq!(
        sweep(&mut OrderBookState::Naive(NaiveOrderBook::new(pair())), 10),
        vec![3, 2, 5]
    );
}

#[test]
fn profiles_can_be_changed_in_place() {
    let mut users = UserProfileService::new();
    users.add_user(5);
    assert!(users.get_user_mut(6).is_none());
    users.get_user_mut(5).unwrap().accounts.insert(3, 44);
    assert_eq!(users.balance(5, 3), 44);
    let record = matching_core::users::SymbolPositionRecord::new(5, 9, 3);
    users.get_user_mut(5).unwrap().positions.insert(9, record);
    let copy = users.clone();
    assert_eq!(copy.get_user(5).unwrap().positions.get(&9), Some(&record));
    assert_eq!(copy.get_user(5).unwrap().uid, 5);
    users.set_balance(5, 3, 1);
    assert_eq!(copy.balance(5, 3), 44);
    assert_eq!(users.balance(5, 3), 1);
    users.credit(5, 3, -3);
    assert_eq!(users.balance(5, 3), -2);
}

#[test]
fn pool_hands_out_the_lowest_free_slot_and_grows() {
    let mut pool = OrderPool::new(3);
    assert_eq!(pool.capacity, 3);
    assert_eq!(pool.free_list, vec![2, 1, 0]);
    let node = |id: i64| DirectOrder {
        order: resting(id, OrderAction::Ask, 1, 1, 0),
        next: None,
        prev: Some(7),
    };
    let a = pool.insert(node(10));
    let b = pool.insert(node(11));
    let c = pool.insert(node(12));
    assert_eq!((a, b, c), (0, 1, 2));
    assert_eq!(pool.allocate(), None);
    let d = pool.insert(node(13));
    assert_eq!(d, 3);
    assert_eq!(pool.capacity, 4);
    assert_eq!(pool.node(1), node(11));
    assert_eq!(pool.remove(1), node(11));
    assert!(!pool.hot.active[1]);
    assert_eq!(pool.free_list, vec![1]);
    pool.put(2, node(20));
    assert_eq!(pool.node(2).order.order_id, 20);
    assert_eq!(pool.node(0), node(10));
    assert_eq!(pool.insert(node(14)), 1);
    pool.dealloc(3);
    assert_eq!(pool.allocate(), Some(3));
    assert_eq!(pool.grow(), 4);
    pool.write(4, node(15));
    assert_eq!(pool.hot.order_ids[4], 15);
    assert_eq!(pool.cold[4].uid, 1);
}
