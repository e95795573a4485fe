use matching_core::api::{
    CommandResultCode, CoreSymbolSpecification, MatcherEventType, MatcherTradeEvent, OrderAction,
    OrderCommand, OrderCommandType, OrderType, SymbolType,
};
use matching_core::exchange::{ExchangeConfig, ProducerType, WaitStrategyType};
use matching_core::pipeline::Pipeline;
use matching_core::processors::grouping::GroupingProcessor;
use matching_core::processors::matching_engine::MatchingEngineRouter;
use matching_core::processors::risk_engine::RiskEngine;
use matching_core::users::{SymbolPositionRecord, UserProfile, UserProfileService};

fn pair() -> CoreSymbolSpecification {
    CoreSymbolSpecification {
        symbol_id: 1,
        symbol_type: SymbolType::CurrencyExchangePair,
        base_currency: 10,
        quote_currency: 20,
        base_scale_k: 100,
        quote_scale_k: 2,
        taker_fee: 3,
        maker_fee: 1,
        margin_buy: 0,
        margin_sell: 0,
    }
}

fn add_user(uid: i64) -> OrderCommand {
    OrderCommand { command: OrderCommandType::AddUser, uid, ..Default::default() }
}

fn deposit(uid: i64, currency: i32, amount: i64) -> OrderCommand {
    OrderCommand {
        command: OrderCommandType::BalanceAdjustment,
        uid,
        symbol: currency,
        price: amount,
        ..Default::default()
    }
}

fn place(
    id: i64,
    uid: i64,
    action: OrderAction,
    order_type: OrderType,
    price: i64,
    reserve: i64,
    size: i64,
) -> OrderCommand {
    OrderCommand {
        command: OrderCommandType::PlaceOrder,
        uid,
        order_id: id,
        symbol: 1,
        price,
        reserve_price: reserve,
        size,
        action,
        order_type,
        ..Default::default()
    }
}

#[test]
fn risk_engine_basic_flow() {
    let mut engine = RiskEngine::new(0, 1);
    engine.add_symbol(CoreSymbolSpecification {
        symbol_id: 1,
        base_currency: 1,
        quote_currency: 2,
        ..Default::default()
    });
    let mut cmd_user = add_user(1001);
    engine.pre_process(&mut cmd_user);
    assert_eq!(cmd_user.result_code, CommandResultCode::Success);
    let mut again = add_user(1001);
    engine.pre_process(&mut again);
    assert_eq!(again.result_code, CommandResultCode::UserMgmtUserAlreadyExists);
    let mut cmd_balance = deposit(1001, 2, 10000);
    cmd_balance.result_code = CommandResultCode::ValidForMatchingEngine;
    engine.pre_process(&mut cmd_balance);
    assert_eq!(cmd_balance.result_code, CommandResultCode::Success);
    assert_eq!(engine.user_service.balance(1001, 2), 10000);
    let mut cmd_order_nsf = place(0, 1001, OrderAction::Bid, OrderType::Gtc, 200, 200, 100);
    cmd_order_nsf.result_code = CommandResultCode::ValidForMatchingEngine;
    engine.pre_process(&mut cmd_order_nsf);
    assert_eq!(cmd_order_nsf.result_code, CommandResultCode::RiskNsf);
    assert_eq!(engine.user_service.balance(1001, 2), 10000);
    let mut cmd_settle = place(0, 1001, OrderAction::Ask, OrderType::Gtc, 150, 0, 10);
    cmd_settle.matcher_events.push(MatcherTradeEvent {
        event_type: MatcherEventType::Trade,
        size: 5,
        price: 150,
        ..Default::default()
    });
    engine.post_process(&mut cmd_settle);
    assert_eq!(cmd_settle.result_code, CommandResultCode::Success);
    assert_eq!(engine.user_service.balance(1001, 2), 10750);
    let mut cmd_invalid = OrderCommand {
        command: OrderCommandType::PlaceOrder,
        uid: 9999,
        ..Default::default()
    };
    cmd_invalid.result_code = CommandResultCode::ValidForMatchingEngine;
    engine.pre_process(&mut cmd_invalid);
    assert_eq!(cmd_invalid.result_code, CommandResultCode::AuthInvalidUser);
}

#[test]
fn hold_amounts_are_exact() {
    let mut engine = RiskEngine::new(0, 1);
    engine.add_symbol(pair());
    engine.pre_process(&mut add_user(1));
    engine.pre_process(&mut deposit(1, 10, 5000));
    engine.pre_process(&mut deposit(1, 20, 100000));
    let mut bid = place(1, 1, OrderAction::Bid, OrderType::Gtc, 55, 60, 4);
    engine.pre_process(&mut bid);
    assert_eq!(bid.result_code, CommandResultCode::ValidForMatchingEngine);
    assert_eq!(engine.user_service.balance(1, 20), 100000 - (4 * 60 * 2 + 4 * 3));
    let mut budget = place(2, 1, OrderAction::Bid, OrderType::FokBudget, 1000, 60, 4);
    engine.pre_process(&mut budget);
    assert_eq!(budget.result_code, CommandResultCode::ValidForMatchingEngine);
    assert_eq!(engine.user_service.balance(1, 20), 99508 - (4 * 1000 * 2 + 4 * 3));
    let mut ask = place(3, 1, OrderAction::Ask, OrderType::Gtc, 55, 0, 7);
    engine.pre_process(&mut ask);
    assert_eq!(ask.result_code, CommandResultCode::ValidForMatchingEngine);
    assert_eq!(engine.user_service.balance(1, 10), 5000 - 7 * 100);
    let mut exact = place(4, 1, OrderAction::Ask, OrderType::Gtc, 55, 0, 43);
    engine.pre_process(&mut exact);
    assert_eq!(exact.result_code, CommandResultCode::ValidForMatchingEngine);
    assert_eq!(engine.user_service.balance(1, 10), 0);
    let mut broke = place(5, 1, OrderAction::Ask, OrderType::Gtc, 55, 0, 1);
    engine.pre_process(&mut broke);
    assert_eq!(broke.result_code, CommandResultCode::RiskNsf);
    let mut huge = place(6, 1, OrderAction::Bid, OrderType::Gtc, 1, i64::MAX, i64::MAX);
    engine.pre_process(&mut huge);
    assert_eq!(huge.result_code, CommandResultCode::RiskNsf);
    let mut elsewhere = place(7, 1, OrderAction::Bid, OrderType::Gtc, 1, 1, 1);
    elsewhere.symbol = 77;
    engine.pre_process(&mut elsewhere);
    assert_eq!(elsewhere.result_code, CommandResultCode::InvalidSymbol);
    let mut nobody = deposit(42, 20, 5);
    engine.pre_process(&mut nobody);
    assert_eq!(nobody.result_code, CommandResultCode::AuthInvalidUser);
}

#[test]
fn settlement_of_a_buying_taker_is_exact() {
    let mut engine = RiskEngine::new(0, 1);
    engine.add_symbol(pair());
    engine.pre_process(&mut add_user(1));
    engine.pre_process(&mut add_user(2));
    let mut cmd = place(9, 2, OrderAction::Bid, OrderType::Ioc, 55, 60, 10);
    cmd.matcher_events.push(MatcherTradeEvent::new_trade(4, 50, 1, 1, 60));
    cmd.matcher_events.push(MatcherTradeEvent::new_rejection(6, 55, 60));
    engine.post_process(&mut cmd);
    assert_eq!(cmd.result_code, CommandResultCode::Success);
    assert_eq!(engine.user_service.balance(2, 20), 4 * (60 - 50) * 2 + (6 * 60 * 2 + 6 * 3));
    assert_eq!(engine.user_service.balance(2, 10), 4 * 100);
    assert_eq!(engine.user_service.balance(1, 20), 4 * 50 * 2 - 4 * 1);
    assert_eq!(engine.user_service.balance(1, 10), 0);
}

#[test]
fn settlement_of_a_selling_taker_is_exact() {
    let mut engine = RiskEngine::new(0, 1);
    engine.add_symbol(pair());
    engine.pre_process(&mut add_user(1));
    engine.pre_process(&mut add_user(2));
    let mut cmd = place(9, 2, OrderAction::Ask, OrderType::Ioc, 45, 0, 10);
    cmd.matcher_events.push(MatcherTradeEvent::new_trade(4, 50, 1, 1, 58));
    cmd.matcher_events.push(MatcherTradeEvent::new_rejection(6, 45, 0));
    engine.post_process(&mut cmd);
    assert_eq!(engine.user_service.balance(2, 20), 4 * 50 * 2 - 4 * 3);
    assert_eq!(engine.user_service.balance(2, 10), 6 * 100);
    assert_eq!(engine.user_service.balance(1, 20), 4 * (58 - 50) * 2);
    assert_eq!(engine.user_service.balance(1, 10), 4 * 100);
}

#[test]
fn settlement_without_events_or_symbol_changes_nothing() {
    let mut engine = RiskEngine::new(0, 1);
    engine.add_symbol(pair());
    engine.pre_process(&mut add_user(2));
    let mut quiet = place(9, 2, OrderAction::Ask, OrderType::Ioc, 45, 0, 10);
    quiet.result_code = CommandResultCode::RiskNsf;
    engine.post_process(&mut quiet);
    assert_eq!(quiet.result_code, CommandResultCode::RiskNsf);
    let mut lost = place(9, 2, OrderAction::Ask, OrderType::Ioc, 45, 0, 10);
    lost.symbol = 5;
    lost.matcher_events.push(MatcherTradeEvent::new_rejection(6, 45, 0));
    engine.post_process(&mut lost);
    assert_eq!(lost.result_code, CommandResultCode::New);
    assert_eq!(engine.user_service.balance(2, 10), 0);
}

#[test]
fn risk_shards_split_users_by_id() {
    let mut even = RiskEngine::new(0, 2);
    let mut odd = RiskEngine::new(1, 2);
    assert!(even.uid_for_this_shard(4) && !even.uid_for_this_shard(5));
    assert!(odd.uid_for_this_shard(5) && !odd.uid_for_this_shard(4));
    let mut cmd = add_user(5);
    even.pre_process(&mut cmd);
    assert_eq!(cmd.result_code, CommandResultCode::New);
    assert!(!even.user_service.has_user(5));
    odd.pre_process(&mut cmd);
    assert_eq!(cmd.result_code, CommandResultCode::Success);
    assert!(odd.user_service.has_user(5));
}

#[test]
fn user_service_keeps_balances_per_currency() {
    let mut users = UserProfileService::new();
    assert!(users.add_user(7));
    assert!(!users.add_user(7));
    assert!(users.get_user(8).is_none());
    assert_eq!(users.balance_adjustment(7, 3, 50, 0), CommandResultCode::Success);
    assert_eq!(users.balance_adjustment(7, 3, -20, 1), CommandResultCode::Success);
    assert_eq!(users.balance_adjustment(7, 4, 9, 2), CommandResultCode::Success);
    assert_eq!(users.balance_adjustment(8, 3, 1, 3), CommandResultCode::AuthInvalidUser);
    assert_eq!(users.balance(7, 3), 30);
    assert_eq!(users.balance(7, 4), 9);
    assert_eq!(users.balance(7, 5), 0);
    assert_eq!(users.balance(8, 3), 0);
    let profile: &UserProfile = users.get_user(7).unwrap();
    assert_eq!(profile.uid, 7);
    assert_eq!(profile.balance(3), 30);
    assert!(profile.positions.is_empty());
    let position = SymbolPositionRecord::new(7, 1, 3);
    assert!(position.is_empty());
    let mut open = position;
    open.pending_buy_size = 1;
    assert!(!open.is_empty());
}

#[test]
fn router_refuses_unknown_books_and_skips_finished_commands() {
    let mut router = MatchingEngineRouter::new(0, 1);
    let mut cancel = OrderCommand {
        command: OrderCommandType::CancelOrder,
        uid: 1,
        order_id: 1,
        symbol: 1,
        ..Default::default()
    };
    router.process_order(&mut cancel);
    assert_eq!(cancel.result_code, CommandResultCode::MatchingInvalidOrderBookId);
    router.add_symbol(pair());
    let mut unchecked = place(1, 1, OrderAction::Ask, OrderType::Gtc, 50, 0, 10);
    router.process_order(&mut unchecked);
    assert_eq!(unchecked.result_code, CommandResultCode::New);
    let mut ask = place(1, 1, OrderAction::Ask, OrderType::Gtc, 50, 0, 10);
    ask.result_code = CommandResultCode::ValidForMatchingEngine;
    router.process_order(&mut ask);
    assert_eq!(ask.result_code, CommandResultCode::Success);
    let mut fok = place(2, 1, OrderAction::Bid, OrderType::Fok, 50, 50, 10);
    fok.result_code = CommandResultCode::ValidForMatchingEngine;
    router.process_order(&mut fok);
    assert_eq!(fok.result_code, CommandResultCode::MatchingUnsupportedCommand);
    let mut done = OrderCommand {
        command: OrderCommandType::CancelOrder,
        uid: 1,
        order_id: 1,
        symbol: 1,
        result_code: CommandResultCode::Success,
        ..Default::default()
    };
    router.process_order(&mut done);
    assert!(done.matcher_events.is_empty());
    let mut reduce = OrderCommand {
        command: OrderCommandType::ReduceOrder,
        uid: 1,
        order_id: 1,
        symbol: 1,
        size: 3,
        ..Default::default()
    };
    router.process_order(&mut reduce);
    assert_eq!(reduce.result_code, CommandResultCode::Success);
    assert_eq!(reduce.matcher_events[0].size, 3);
    let mut mv = OrderCommand {
        command: OrderCommandType::MoveOrder,
        uid: 1,
        order_id: 1,
        symbol: 1,
        price: 40,
        ..Default::default()
    };
    router.process_order(&mut mv);
    assert_eq!(mv.result_code, CommandResultCode::Success);
    router.process_order(&mut cancel);
    assert_eq!(cancel.result_code, CommandResultCode::Success);
    assert_eq!(cancel.matcher_events[0].size, 7);
    assert_eq!(cancel.matcher_events[0].price, 40);
    let mut nop = OrderCommand { symbol: 9, ..Default::default() };
    router.process_order(&mut nop);
    assert_eq!(nop.result_code, CommandResultCode::New);
}

#[test]
fn matching_shards_split_symbols_by_id() {
    let even = MatchingEngineRouter::new(0, 2);
    let odd = MatchingEngineRouter::new(1, 2);
    assert!(even.symbol_for_this_shard(6) && !even.symbol_for_this_shard(7));
    assert!(odd.symbol_for_this_shard(7) && !odd.symbol_for_this_shard(6));
}

fn new_pipeline(risk: usize, matching: usize) -> Pipeline {
    let config = ExchangeConfig {
        ring_buffer_size: 1024,
        matching_engines_num: matching,
        risk_engines_num: risk,
        producer_type: ProducerType::Single,
        wait_strategy: WaitStrategyType::BusySpin,
    };
    Pipeline::new(&config)
}

fn balance(p: &Pipeline, uid: i64, currency: i32) -> i64 {
    p.risk_engines.iter().map(|e| e.user_service.balance(uid, currency)).sum()
}

fn run(p: &mut Pipeline, mut cmd: OrderCommand) -> OrderCommand {
    p.handle_event(&mut cmd, 0, true);
    cmd
}

fn full_flow(risk: usize, matching: usize) {
    let mut p = new_pipeline(risk, matching);
    p.add_symbol(pair());
    assert_eq!(run(&mut p, add_user(1)).result_code, CommandResultCode::Success);
    assert_eq!(run(&mut p, add_user(2)).result_code, CommandResultCode::Success);
    assert_eq!(run(&mut p, deposit(1, 10, 5000)).result_code, CommandResultCode::Success);
    assert_eq!(run(&mut p, deposit(2, 20, 100000)).result_code, CommandResultCode::Success);
    let maker = run(&mut p, place(1, 1, OrderAction::Ask, OrderType::Gtc, 50, 0, 10));
    assert_eq!(maker.result_code, CommandResultCode::Success);
    assert!(maker.matcher_events.is_empty());
    assert_eq!(balance(&p, 1, 10), 4000);
    let taker = run(&mut p, place(2, 2, OrderAction::Bid, OrderType::Ioc, 55, 60, 4));
    assert_eq!(taker.result_code, CommandResultCode::Success);
    assert_eq!(taker.matcher_events, vec![MatcherTradeEvent::new_trade(4, 50, 1, 1, 60)]);
    assert_eq!(balance(&p, 2, 20), 99588);
    assert_eq!(balance(&p, 2, 10), 400);
    assert_eq!(balance(&p, 1, 20), 396);
    let second = run(&mut p, place(3, 2, OrderAction::Bid, OrderType::Ioc, 50, 50, 10));
    assert_eq!(second.matcher_events.len(), 2);
    assert_eq!(second.matcher_events[0], MatcherTradeEvent::new_trade(6, 50, 1, 1, 50));
    assert_eq!(second.matcher_events[1], MatcherTradeEvent::new_rejection(4, 50, 50));
    assert_eq!(balance(&p, 2, 20), 98970);
    assert_eq!(balance(&p, 2, 10), 1000);
    assert_eq!(balance(&p, 1, 20), 990);
    assert_eq!(balance(&p, 1, 10), 4000);
    let rest = run(&mut p, place(4, 1, OrderAction::Ask, OrderType::Gtc, 70, 0, 10));
    assert_eq!(rest.result_code, CommandResultCode::Success);
    assert_eq!(balance(&p, 1, 10), 3000);
    let cancel = run(
        &mut p,
        OrderCommand {
            command: OrderCommandType::CancelOrder,
            uid: 1,
            order_id: 4,
            symbol: 1,
            ..Default::default()
        },
    );
    assert_eq!(cancel.result_code, CommandResultCode::Success);
    assert_eq!(cancel.action, OrderAction::Ask);
    assert_eq!(balance(&p, 1, 10), 4000);
    let bid = run(&mut p, place(5, 2, OrderAction::Bid, OrderType::Gtc, 40, 45, 5));
    assert_eq!(bid.result_code, CommandResultCode::Success);
    assert_eq!(balance(&p, 2, 20), 98970 - (5 * 45 * 2 + 5 * 3));
    let cancel_bid = run(
        &mut p,
        OrderCommand {
            command: OrderCommandType::CancelOrder,
            uid: 2,
            order_id: 5,
            symbol: 1,
            ..Default::default()
        },
    );
    assert_eq!(cancel_bid.matcher_events, vec![MatcherTradeEvent::new_rejection(5, 40, 45)]);
    assert_eq!(balance(&p, 2, 20), 98970);
    let nsf = run(&mut p, place(6, 1, OrderAction::Ask, OrderType::Gtc, 70, 0, 41));
    assert_eq!(nsf.result_code, CommandResultCode::RiskNsf);
    assert!(nsf.matcher_events.is_empty());
    assert_eq!(balance(&p, 1, 10), 4000);
    let stranger = run(&mut p, place(7, 3, OrderAction::Ask, OrderType::Gtc, 70, 0, 1));
    assert_eq!(stranger.result_code, CommandResultCode::AuthInvalidUser);
    let total_quote = balance(&p, 1, 20) + balance(&p, 2, 20);
    assert_eq!(total_quote, 100000 - 10 * 3 - 10 * 1);
    assert_eq!(balance(&p, 1, 10) + balance(&p, 2, 10), 5000);
}

#[test]
fn pipeline_full_flow_on_one_shard() {
    full_flow(1, 1);
}

#[test]
fn pipeline_full_flow_on_many_shards() {
    full_flow(2, 4);
}

#[test]
fn default_configuration() {
    let config = ExchangeConfig::default();
    assert_eq!(config.ring_buffer_size, 64 * 1024);
    assert_eq!(config.matching_engines_num, 1);
    assert_eq!(config.risk_engines_num, 1);
    assert_eq!(config.producer_type, ProducerType::Single);
    assert_eq!(config.wait_strategy, WaitStrategyType::BusySpin);
    let blank = OrderCommand::default();
    assert_eq!(blank.command, OrderCommandType::Nop);
    assert_eq!(blank.result_code, CommandResultCode::New);
    assert_eq!(blank.order_type, OrderType::Gtc);
    assert_eq!(blank.action, OrderAction::Bid);
    assert!(blank.matcher_events.is_empty() && blank.stop_price.is_none());
    let spec = CoreSymbolSpecification::default();
    assert_eq!((spec.base_scale_k, spec.quote_scale_k), (1, 1));
    assert_eq!(MatcherTradeEvent::default(), MatcherTradeEvent::new_trade(0, 0, 0, 0, 0));
    assert_eq!(MatcherTradeEvent::new_reject(3, 4).event_type, MatcherEventType::Reject);
    assert_eq!(OrderAction::Ask.opposite(), OrderAction::Bid);
    assert_eq!(OrderAction::Bid.opposite(), OrderAction::Ask);
}

#[test]
fn grouping_closes_groups_at_the_limit_and_on_demand() {
    let mut grouping = GroupingProcessor::new(3);
    let mut in_group: usize = 0;
    let mut groups: Vec<u64> = Vec::new();
    for _ in 0..7 {
        let mut cmd = OrderCommand::default();
        grouping.process(&mut cmd, &mut in_group);
        groups.push(cmd.events_group);
    }
    assert_eq!(groups, vec![0, 0, 0, 1, 1, 1, 2]);
    assert_eq!(in_group, 1);
    let mut reset = OrderCommand { command: OrderCommandType::Reset, ..Default::default() };
    grouping.process(&mut reset, &mut in_group);
    assert_eq!(reset.events_group, 3);
    assert_eq!(in_group, 1);
    let mut next = OrderCommand::default();
    grouping.process(&mut next, &mut in_group);
    assert_eq!(next.events_group, 3);
    assert_eq!(in_group, 2);
    let mut control = OrderCommand {
        command: OrderCommandType::GroupingControl,
        ..Default::default()
    };
    grouping.process(&mut control, &mut in_group);
    assert_eq!(control.events_group, 4);
    let mut last = GroupingProcessor { group_counter: u64::MAX, msgs_in_group_limit: 1 };
    let mut cmd = OrderCommand::default();
    grouping.process(&mut cmd, &mut in_group);
    let mut count: usize = 0;
    last.process(&mut cmd, &mut count);
    assert_eq!(cmd.events_group, u64::MAX);
    assert_eq!(last.group_counter, 0);
    assert_eq!(count, 0);
}
