use matching_core::api::{
    CommandResultCode, CoreSymbolSpecification, MatcherEventType, MatcherTradeEvent, OrderAction,
    OrderCommand, OrderCommandType, OrderType, SymbolType,
};
use matching_core::orderbook::advanced::AdvancedOrderBook;

fn spot() -> CoreSymbolSpecification {
    CoreSymbolSpecification {
        symbol_id: 1,
        symbol_type: SymbolType::CurrencyExchangePair,
        base_currency: 0,
        quote_currency: 1,
        base_scale_k: 1,
        quote_scale_k: 1,
        taker_fee: 0,
        maker_fee: 0,
        margin_buy: 0,
        margin_sell: 0,
    }
}

fn order(
    id: i64,
    uid: i64,
    action: OrderAction,
    order_type: OrderType,
    price: i64,
    size: i64,
    timestamp: i64,
) -> OrderCommand {
    OrderCommand {
        command: OrderCommandType::PlaceOrder,
        uid,
        order_id: id,
        symbol: 1,
        price,
        reserve_price: price,
        size,
        action,
        order_type,
        timestamp,
        ..Default::default()
    }
}

#[test]
fn scenario_iceberg_reveal() {
    let mut book = AdvancedOrderBook::new(spot());
    let mut iceberg = order(1, 1, OrderAction::Ask, OrderType::Iceberg, 10000, 100, 1000);
    iceberg.visible_size = Some(10);
    book.new_order(&mut iceberg);
    let l2 = book.get_l2_data(5);
    assert_eq!(l2.ask_prices, vec![10000]);
    assert_eq!(l2.ask_volumes, vec![10]);
    let mut bid = order(2, 2, OrderAction::Bid, OrderType::Ioc, 10000, 10, 1001);
    book.new_order(&mut bid);
    assert_eq!(bid.matcher_events, vec![MatcherTradeEvent::new_trade(10, 10000, 1, 1, 10000)]);
    let l2 = book.get_l2_data(5);
    assert_eq!(l2.ask_volumes, vec![10]);
    assert_eq!(book.get_total_ask_volume(), 90);
    let mut big = order(3, 2, OrderAction::Bid, OrderType::Ioc, 10000, 85, 1002);
    book.new_order(&mut big);
    assert_eq!(book.get_total_ask_volume(), 5);
    assert_eq!(book.get_l2_data(5).ask_volumes, vec![5]);
}

#[test]
fn iceberg_beside_plain_orders_adds_up_in_depth() {
    let mut book = AdvancedOrderBook::new(spot());
    book.new_order(&mut order(1, 1, OrderAction::Bid, OrderType::Gtc, 50, 7, 1));
    let mut iceberg = order(2, 1, OrderAction::Bid, OrderType::Iceberg, 50, 40, 2);
    iceberg.visible_size = Some(4);
    book.new_order(&mut iceberg);
    let l2 = book.get_l2_data(1);
    assert_eq!(l2.bid_prices, vec![50]);
    assert_eq!(l2.bid_volumes, vec![11]);
    assert_eq!(book.get_total_bid_volume(), 47);
    let mut cancel = OrderCommand {
        command: OrderCommandType::CancelOrder,
        uid: 1,
        order_id: 1,
        ..Default::default()
    };
    assert_eq!(book.cancel_order(&mut cancel), CommandResultCode::Success);
    assert_eq!(book.get_l2_data(1).bid_volumes, vec![4]);
}

#[test]
fn scenario_gtd_expiry_drops_the_maker_silently() {
    let mut book = AdvancedOrderBook::new(spot());
    let mut gtd = order(1, 1, OrderAction::Ask, OrderType::Gtd(2000), 10000, 10, 1000);
    gtd.expire_time = Some(2000);
    book.new_order(&mut gtd);
    book.new_order(&mut order(2, 1, OrderAction::Ask, OrderType::Gtc, 10001, 4, 1000));
    let mut at_expiry = order(3, 2, OrderAction::Bid, OrderType::Ioc, 10000, 5, 2000);
    book.new_order(&mut at_expiry);
    assert_eq!(at_expiry.matcher_events, vec![MatcherTradeEvent::new_trade(5, 10000, 1, 1, 10000)]);
    let mut late = order(4, 2, OrderAction::Bid, OrderType::Ioc, 10001, 5, 2001);
    book.new_order(&mut late);
    assert_eq!(late.matcher_events.len(), 2);
    assert_eq!(late.matcher_events[0], MatcherTradeEvent::new_trade(4, 10001, 2, 1, 10001));
    assert_eq!(late.matcher_events[1].event_type, MatcherEventType::Reject);
    assert_eq!(late.matcher_events[1].size, 1);
    assert_eq!(book.get_total_ask_volume(), 0);
    assert_eq!(book.get_ask_buckets_count(), 0);
    assert_eq!(book.get_order_by_id(1), None);
}

#[test]
fn fill_or_kill_does_not_count_expired_makers() {
    let mut book = AdvancedOrderBook::new(spot());
    let mut gtd = order(1, 1, OrderAction::Ask, OrderType::Gtd(10), 100, 6, 1);
    gtd.expire_time = Some(10);
    book.new_order(&mut gtd);
    book.new_order(&mut order(2, 1, OrderAction::Ask, OrderType::Gtc, 100, 6, 2));
    let mut fok = order(3, 2, OrderAction::Bid, OrderType::Fok, 100, 10, 11);
    book.new_order(&mut fok);
    assert_eq!(fok.matcher_events.len(), 1);
    assert_eq!(fok.matcher_events[0].event_type, MatcherEventType::Reject);
    assert_eq!(fok.matcher_events[0].size, 10);
    assert_eq!(book.get_total_ask_volume(), 12);
    let mut fits = order(4, 2, OrderAction::Bid, OrderType::Fok, 100, 6, 11);
    book.new_order(&mut fits);
    assert_eq!(fits.matcher_events, vec![MatcherTradeEvent::new_trade(6, 100, 2, 1, 100)]);
    assert_eq!(book.get_total_ask_volume(), 0);
}

#[test]
fn fill_or_kill_respects_its_limit() {
    let mut book = AdvancedOrderBook::new(spot());
    book.new_order(&mut order(1, 1, OrderAction::Ask, OrderType::Gtc, 100, 5, 1));
    book.new_order(&mut order(2, 1, OrderAction::Ask, OrderType::Gtc, 101, 5, 2));
    let mut fok = order(3, 2, OrderAction::Bid, OrderType::Fok, 100, 6, 3);
    book.new_order(&mut fok);
    assert_eq!(fok.matcher_events.len(), 1);
    assert_eq!(fok.matcher_events[0].event_type, MatcherEventType::Reject);
    assert_eq!(fok.matcher_events[0].size, 6);
    assert_eq!(book.get_total_ask_volume(), 10);
}

#[test]
fn post_only_rests_when_it_does_not_cross() {
    let mut book = AdvancedOrderBook::new(spot());
    book.new_order(&mut order(1, 1, OrderAction::Bid, OrderType::Gtc, 100, 5, 1));
    let mut crossing = order(2, 2, OrderAction::Ask, OrderType::PostOnly, 100, 3, 2);
    book.new_order(&mut crossing);
    assert_eq!(crossing.matcher_events.len(), 1);
    assert_eq!(crossing.matcher_events[0].event_type, MatcherEventType::Reject);
    assert_eq!(crossing.matcher_events[0].size, 3);
    assert_eq!(book.get_total_bid_volume(), 5);
    let mut passive = order(3, 2, OrderAction::Ask, OrderType::PostOnly, 101, 3, 3);
    book.new_order(&mut passive);
    assert!(passive.matcher_events.is_empty());
    assert_eq!(book.get_total_ask_volume(), 3);
    assert_eq!(book.get_order_by_id(3), Some((101, OrderAction::Ask)));
}

#[test]
fn stop_order_triggers_on_the_last_trade_price_and_rests() {
    let mut book = AdvancedOrderBook::new(spot());
    book.new_order(&mut order(1, 1, OrderAction::Ask, OrderType::Gtc, 10500, 5, 1));
    let mut stop = order(2, 2, OrderAction::Bid, OrderType::StopLimit, 10400, 8, 2);
    stop.stop_price = Some(10500);
    book.new_order(&mut stop);
    assert!(stop.matcher_events.is_empty());
    assert_eq!(book.get_total_bid_volume(), 0);
    assert_eq!(book.get_order_by_id(2), Some((10400, OrderAction::Bid)));
    let mut low = order(3, 3, OrderAction::Ask, OrderType::Gtc, 10300, 1, 3);
    book.new_order(&mut low);
    let mut take_low = order(4, 4, OrderAction::Bid, OrderType::Ioc, 10300, 1, 4);
    book.new_order(&mut take_low);
    assert_eq!(take_low.matcher_events.len(), 1);
    assert_eq!(book.get_total_bid_volume(), 0);
    let mut take = order(5, 4, OrderAction::Bid, OrderType::Ioc, 10600, 5, 5);
    book.new_order(&mut take);
    assert_eq!(take.matcher_events, vec![MatcherTradeEvent::new_trade(5, 10500, 1, 1, 10600)]);
    assert_eq!(book.get_total_bid_volume(), 8);
    assert_eq!(book.get_l2_data(1).bid_prices, vec![10400]);
    let mut cancel = OrderCommand {
        command: OrderCommandType::CancelOrder,
        uid: 2,
        order_id: 2,
        ..Default::default()
    };
    assert_eq!(book.cancel_order(&mut cancel), CommandResultCode::Success);
    assert_eq!(cancel.matcher_events[0].size, 8);
    assert_eq!(book.get_total_bid_volume(), 0);
}

#[test]
fn triggered_stop_orders_cascade() {
    let mut book = AdvancedOrderBook::new(spot());
    book.new_order(&mut order(1, 1, OrderAction::Ask, OrderType::Gtc, 100, 1, 1));
    book.new_order(&mut order(2, 1, OrderAction::Ask, OrderType::Gtc, 110, 1, 2));
    book.new_order(&mut order(3, 1, OrderAction::Ask, OrderType::Gtc, 120, 1, 3));
    let mut first = order(10, 2, OrderAction::Bid, OrderType::StopLimit, 110, 1, 4);
    first.stop_price = Some(100);
    book.new_order(&mut first);
    let mut second = order(11, 2, OrderAction::Bid, OrderType::StopMarket, 120, 1, 5);
    second.stop_price = Some(110);
    book.new_order(&mut second);
    let mut third = order(12, 2, OrderAction::Bid, OrderType::StopLimit, 90, 1, 6);
    third.stop_price = Some(121);
    book.new_order(&mut third);
    assert_eq!(book.get_total_ask_volume(), 3);
    let mut spark = order(20, 3, OrderAction::Bid, OrderType::Ioc, 100, 1, 7);
    book.new_order(&mut spark);
    assert_eq!(spark.matcher_events, vec![MatcherTradeEvent::new_trade(1, 100, 1, 1, 100)]);
    assert_eq!(book.get_total_ask_volume(), 0);
    assert_eq!(book.get_total_bid_volume(), 0);
    assert_eq!(book.get_order_by_id(10), None);
    assert_eq!(book.get_order_by_id(11), None);
    assert_eq!(book.get_order_by_id(12), Some((90, OrderAction::Bid)));
}

#[test]
fn stop_order_under_a_known_id_only_takes() {
    let mut book = AdvancedOrderBook::new(spot());
    book.new_order(&mut order(1, 1, OrderAction::Ask, OrderType::Gtc, 100, 5, 1));
    let mut dup = order(1, 2, OrderAction::Bid, OrderType::StopLimit, 100, 7, 2);
    dup.stop_price = Some(90);
    book.new_order(&mut dup);
    assert_eq!(dup.matcher_events.len(), 2);
    assert_eq!(dup.matcher_events[0], MatcherTradeEvent::new_trade(5, 100, 1, 1, 100));
    assert_eq!(dup.matcher_events[1].event_type, MatcherEventType::Reject);
    assert_eq!(dup.matcher_events[1].size, 2);
    assert_eq!(book.get_total_bid_volume(), 0);
}

#[test]
fn move_does_not_touch_pooled_stop_orders() {
    let mut book = AdvancedOrderBook::new(spot());
    let mut stop = order(1, 2, OrderAction::Bid, OrderType::StopLimit, 100, 7, 2);
    stop.stop_price = Some(90);
    book.new_order(&mut stop);
    let mut mv = OrderCommand {
        command: OrderCommandType::MoveOrder,
        uid: 2,
        order_id: 1,
        price: 95,
        ..Default::default()
    };
    assert_eq!(book.move_order(&mut mv), CommandResultCode::MatchingUnknownOrderId);
    assert_eq!(book.get_order_by_id(1), Some((100, OrderAction::Bid)));
}
