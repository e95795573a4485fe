use matching_core::api::{
    CommandResultCode, CoreSymbolSpecification, MatcherEventType, MatcherTradeEvent, OrderAction,
    OrderCommand, OrderCommandType, OrderType, SymbolType,
};
use matching_core::orderbook::advanced::AdvancedOrderBook;
use matching_core::orderbook::book::OrderBookState;
use matching_core::orderbook::direct::DirectOrderBook;
use matching_core::orderbook::direct_optimized::DirectOrderBookOptimized;
use matching_core::orderbook::naive::NaiveOrderBook;

fn spot() -> CoreSymbolSpecification {
    CoreSymbolSpecification {
        symbol_id: 1,
        symbol_type: SymbolType::CurrencyExchangePair,
        base_currency: 0,
        quote_currency: 1,
        base_scale_k: 1,
        quote_scale_k: 1,
        taker_fee: 0,
        maker_fee: 0,
        margin_buy: 0,
        margin_sell: 0,
    }
}

fn order(
    id: i64,
    uid: i64,
    action: OrderAction,
    order_type: OrderType,
    price: i64,
    size: i64,
) -> OrderCommand {
    OrderCommand {
        command: OrderCommandType::PlaceOrder,
        uid,
        order_id: id,
        symbol: 1,
        price,
        reserve_price: price,
        size,
        action,
        order_type,
        timestamp: 1000,
        ..Default::default()
    }
}

fn all_books() -> Vec<OrderBookState> {
    vec![
        OrderBookState::Naive(NaiveOrderBook::new(spot())),
        OrderBookState::Direct(DirectOrderBook::new(spot())),
        OrderBookState::DirectOptimized(DirectOrderBookOptimized::new(spot())),
        OrderBookState::Advanced(AdvancedOrderBook::new(spot())),
    ]
}

fn full_books() -> Vec<OrderBookState> {
    vec![
        OrderBookState::Naive(NaiveOrderBook::new(spot())),
        OrderBookState::Direct(DirectOrderBook::new(spot())),
    ]
}

fn trade(size: i64, price: i64, id: i64, uid: i64, hold: i64) -> MatcherTradeEvent {
    MatcherTradeEvent::new_trade(size, price, id, uid, hold)
}

#[test]
fn basic_cross_on_every_book() {
    for mut book in all_books() {
        let mut ask = order(1, 10, OrderAction::Ask, OrderType::Gtc, 100, 10);
        assert_eq!(book.new_order(&mut ask), CommandResultCode::Success);
        assert!(ask.matcher_events.is_empty());
        let mut bid = order(2, 20, OrderAction::Bid, OrderType::Ioc, 100, 4);
        assert_eq!(book.new_order(&mut bid), CommandResultCode::Success);
        assert_eq!(bid.matcher_events, vec![trade(4, 100, 1, 10, 100)]);
        assert_eq!(book.get_total_ask_volume(), 6);
        assert_eq!(book.get_total_bid_volume(), 0);
        assert_eq!(book.get_ask_buckets_count(), 1);
        assert_eq!(book.get_order_by_id(1), Some((100, OrderAction::Ask)));
        assert_eq!(book.get_order_by_id(2), None);
    }
}

#[test]
fn price_time_priority_on_every_book() {
    for mut book in all_books() {
        book.new_order(&mut order(1, 10, OrderAction::Ask, OrderType::Gtc, 102, 5));
        book.new_order(&mut order(2, 11, OrderAction::Ask, OrderType::Gtc, 100, 5));
        book.new_order(&mut order(3, 12, OrderAction::Ask, OrderType::Gtc, 101, 5));
        book.new_order(&mut order(4, 13, OrderAction::Ask, OrderType::Gtc, 100, 5));
        let l2 = book.get_l2_data(10);
        assert_eq!(l2.ask_prices, vec![100, 101, 102]);
        assert_eq!(l2.ask_volumes, vec![10, 5, 5]);
        let mut bid = order(5, 20, OrderAction::Bid, OrderType::Gtc, 101, 12);
        bid.reserve_price = 110;
        book.new_order(&mut bid);
        assert_eq!(
            bid.matcher_events,
            vec![
                trade(5, 100, 2, 11, 110),
                trade(5, 100, 4, 13, 110),
                trade(2, 101, 3, 12, 110),
            ]
        );
        assert_eq!(book.get_total_ask_volume(), 8);
        assert_eq!(book.get_total_bid_volume(), 0);
        let l2 = book.get_l2_data(1);
        assert_eq!(l2.ask_prices, vec![101]);
        assert_eq!(l2.ask_volumes, vec![3]);
        assert_eq!(book.get_order_by_id(2), None);
        assert_eq!(book.get_order_by_id(3), Some((101, OrderAction::Ask)));
    }
}

#[test]
fn ask_taker_gets_maker_reserve_as_hold_price() {
    for mut book in all_books() {
        let mut bid1 = order(1, 10, OrderAction::Bid, OrderType::Gtc, 99, 5);
        bid1.reserve_price = 105;
        book.new_order(&mut bid1);
        let mut bid2 = order(2, 11, OrderAction::Bid, OrderType::Gtc, 100, 5);
        bid2.reserve_price = 103;
        book.new_order(&mut bid2);
        let l2 = book.get_l2_data(5);
        assert_eq!(l2.bid_prices, vec![100, 99]);
        assert_eq!(l2.bid_volumes, vec![5, 5]);
        let mut ask = order(3, 20, OrderAction::Ask, OrderType::Gtc, 99, 8);
        book.new_order(&mut ask);
        assert_eq!(
            ask.matcher_events,
            vec![trade(5, 100, 2, 11, 103), trade(3, 99, 1, 10, 105)]
        );
        assert_eq!(book.get_total_bid_volume(), 2);
        assert_eq!(book.get_total_ask_volume(), 0);
    }
}

#[test]
fn gtc_rests_remainder_and_ioc_rejects_it() {
    for mut book in all_books() {
        book.new_order(&mut order(1, 10, OrderAction::Ask, OrderType::Gtc, 100, 3));
        let mut gtc = order(2, 20, OrderAction::Bid, OrderType::Gtc, 100, 5);
        book.new_order(&mut gtc);
        assert_eq!(gtc.matcher_events, vec![trade(3, 100, 1, 10, 100)]);
        assert_eq!(book.get_total_bid_volume(), 2);
        assert_eq!(book.get_order_by_id(2), Some((100, OrderAction::Bid)));
        let mut ioc = order(3, 21, OrderAction::Bid, OrderType::Ioc, 100, 5);
        book.new_order(&mut ioc);
        assert_eq!(ioc.matcher_events.len(), 1);
        assert_eq!(ioc.matcher_events[0].event_type, MatcherEventType::Reject);
        assert_eq!(ioc.matcher_events[0].size, 5);
        assert_eq!(ioc.matcher_events[0].price, 100);
        assert_eq!(ioc.matcher_events[0].bidder_hold_price, 100);
        assert_eq!(book.get_total_bid_volume(), 2);
    }
}

#[test]
fn duplicate_order_id_only_takes() {
    for mut book in all_books() {
        book.new_order(&mut order(1, 10, OrderAction::Ask, OrderType::Gtc, 100, 3));
        book.new_order(&mut order(2, 11, OrderAction::Bid, OrderType::Gtc, 90, 3));
        let mut dup = order(2, 12, OrderAction::Bid, OrderType::Gtc, 100, 5);
        assert_eq!(book.new_order(&mut dup), CommandResultCode::Success);
        assert_eq!(dup.matcher_events.len(), 2);
        assert_eq!(dup.matcher_events[0], trade(3, 100, 1, 10, 100));
        assert_eq!(dup.matcher_events[1].event_type, MatcherEventType::Reject);
        assert_eq!(dup.matcher_events[1].size, 2);
        assert_eq!(book.get_total_bid_volume(), 3);
        assert_eq!(book.get_order_by_id(2), Some((90, OrderAction::Bid)));
    }
}

#[test]
fn cancel_checks_owner_and_rejects_remainder() {
    for mut book in all_books() {
        book.new_order(&mut order(1, 10, OrderAction::Ask, OrderType::Gtc, 100, 10));
        book.new_order(&mut order(2, 20, OrderAction::Bid, OrderType::Ioc, 100, 4));
        let mut unknown = OrderCommand {
            command: OrderCommandType::CancelOrder,
            uid: 10,
            order_id: 7,
            ..Default::default()
        };
        assert_eq!(book.cancel_order(&mut unknown), CommandResultCode::MatchingUnknownOrderId);
        assert!(unknown.matcher_events.is_empty());
        let mut stranger = OrderCommand {
            command: OrderCommandType::CancelOrder,
            uid: 11,
            order_id: 1,
            ..Default::default()
        };
        assert_eq!(book.cancel_order(&mut stranger), CommandResultCode::MatchingUnknownOrderId);
        assert_eq!(book.get_total_ask_volume(), 6);
        let mut cancel = OrderCommand {
            command: OrderCommandType::CancelOrder,
            uid: 10,
            order_id: 1,
            ..Default::default()
        };
        assert_eq!(book.cancel_order(&mut cancel), CommandResultCode::Success);
        assert_eq!(cancel.action, OrderAction::Ask);
        assert_eq!(cancel.matcher_events.len(), 1);
        assert_eq!(cancel.matcher_events[0].event_type, MatcherEventType::Reject);
        assert_eq!(cancel.matcher_events[0].size, 6);
        assert_eq!(cancel.matcher_events[0].price, 100);
        assert_eq!(book.get_total_ask_volume(), 0);
        assert_eq!(book.get_ask_buckets_count(), 0);
        assert_eq!(book.get_order_by_id(1), None);
        assert_eq!(book.cancel_order(&mut cancel), CommandResultCode::MatchingUnknownOrderId);
    }
}

#[test]
fn cancel_in_the_middle_keeps_the_others_in_order() {
    for mut book in all_books() {
        for id in 1..=5 {
            book.new_order(&mut order(id, 10, OrderAction::Bid, OrderType::Gtc, 100, id));
        }
        book.new_order(&mut order(6, 10, OrderAction::Bid, OrderType::Gtc, 101, 1));
        book.new_order(&mut order(7, 10, OrderAction::Bid, OrderType::Gtc, 99, 1));
        for id in [3, 1, 5] {
            let mut cancel = OrderCommand {
                command: OrderCommandType::CancelOrder,
                uid: 10,
                order_id: id,
                ..Default::default()
            };
            assert_eq!(book.cancel_order(&mut cancel), CommandResultCode::Success);
        }
        assert_eq!(book.get_total_bid_volume(), 8);
        let mut ask = order(8, 20, OrderAction::Ask, OrderType::Ioc, 99, 100);
        book.new_order(&mut ask);
        let ids: Vec<i64> = ask
            .matcher_events
            .iter()
            .filter(|e| e.event_type == MatcherEventType::Trade)
            .map(|e| e.matched_order_id)
            .collect();
        assert_eq!(ids, vec![6, 2, 4, 7]);
        assert_eq!(book.get_total_bid_volume(), 0);
        assert_eq!(book.get_bid_buckets_count(), 0);
    }
}

#[test]
fn reduce_cuts_or_removes() {
    for mut book in all_books() {
        book.new_order(&mut order(1, 10, OrderAction::Bid, OrderType::Gtc, 100, 10));
        book.new_order(&mut order(2, 11, OrderAction::Bid, OrderType::Gtc, 100, 10));
        let mut bad_size = OrderCommand {
            command: OrderCommandType::ReduceOrder,
            uid: 10,
            order_id: 1,
            size: 0,
            ..Default::default()
        };
        assert_eq!(book.reduce_order(&mut bad_size), CommandResultCode::MatchingInvalidOrderSize);
        let mut unknown = OrderCommand {
            command: OrderCommandType::ReduceOrder,
            uid: 10,
            order_id: 9,
            size: 1,
            ..Default::default()
        };
        assert_eq!(book.reduce_order(&mut unknown), CommandResultCode::MatchingUnknownOrderId);
        let mut cut = OrderCommand {
            command: OrderCommandType::ReduceOrder,
            uid: 10,
            order_id: 1,
            size: 4,
            ..Default::default()
        };
        assert_eq!(book.reduce_order(&mut cut), CommandResultCode::Success);
        assert_eq!(cut.action, OrderAction::Bid);
        assert_eq!(cut.matcher_events.len(), 1);
        assert_eq!(cut.matcher_events[0].event_type, MatcherEventType::Reject);
        assert_eq!(cut.matcher_events[0].size, 4);
        assert_eq!(book.get_total_bid_volume(), 16);
        let mut ask = order(3, 20, OrderAction::Ask, OrderType::Ioc, 100, 7);
        book.new_order(&mut ask);
        assert_eq!(
            ask.matcher_events,
            vec![trade(6, 100, 1, 10, 100), trade(1, 100, 2, 11, 100)]
        );
        let mut all = OrderCommand {
            command: OrderCommandType::ReduceOrder,
            uid: 11,
            order_id: 2,
            size: 50,
            ..Default::default()
        };
        assert_eq!(book.reduce_order(&mut all), CommandResultCode::Success);
        assert_eq!(all.matcher_events[0].size, 9);
        assert_eq!(book.get_total_bid_volume(), 0);
        assert_eq!(book.get_order_by_id(2), None);
    }
}

#[test]
fn move_matches_at_the_new_price_and_rests_the_rest() {
    for mut book in all_books() {
        book.new_order(&mut order(1, 10, OrderAction::Ask, OrderType::Gtc, 105, 4));
        let mut bid = order(2, 20, OrderAction::Bid, OrderType::Gtc, 100, 10);
        bid.reserve_price = 110;
        book.new_order(&mut bid);
        let mut too_high = OrderCommand {
            command: OrderCommandType::MoveOrder,
            uid: 20,
            order_id: 2,
            price: 111,
            ..Default::default()
        };
        assert_eq!(
            book.move_order(&mut too_high),
            CommandResultCode::RiskInvalidReserveBidPrice
        );
        assert_eq!(book.get_order_by_id(2), Some((100, OrderAction::Bid)));
        let mut unknown = OrderCommand {
            command: OrderCommandType::MoveOrder,
            uid: 20,
            order_id: 5,
            price: 100,
            ..Default::default()
        };
        assert_eq!(book.move_order(&mut unknown), CommandResultCode::MatchingUnknownOrderId);
        let mut mv = OrderCommand {
            command: OrderCommandType::MoveOrder,
            uid: 20,
            order_id: 2,
            price: 106,
            ..Default::default()
        };
        assert_eq!(book.move_order(&mut mv), CommandResultCode::Success);
        assert_eq!(mv.action, OrderAction::Bid);
        assert_eq!(mv.matcher_events, vec![trade(4, 105, 1, 10, 110)]);
        assert_eq!(book.get_total_ask_volume(), 0);
        assert_eq!(book.get_total_bid_volume(), 6);
        assert_eq!(book.get_order_by_id(2), Some((106, OrderAction::Bid)));
        let l2 = book.get_l2_data(3);
        assert_eq!(l2.bid_prices, vec![106]);
        assert_eq!(l2.bid_volumes, vec![6]);
    }
}

#[test]
fn move_above_reserve_is_allowed_off_spot() {
    let mut spec = spot();
    spec.symbol_type = SymbolType::FuturesContract;
    let mut book = NaiveOrderBook::new(spec);
    let mut bid = order(1, 20, OrderAction::Bid, OrderType::Gtc, 100, 10);
    bid.reserve_price = 100;
    book.new_order(&mut bid);
    let mut mv = OrderCommand {
        command: OrderCommandType::MoveOrder,
        uid: 20,
        order_id: 1,
        price: 150,
        ..Default::default()
    };
    assert_eq!(book.move_order(&mut mv), CommandResultCode::Success);
    assert_eq!(book.get_order_by_id(1), Some((150, OrderAction::Bid)));
}

#[test]
fn budget_fill_or_kill() {
    let mut books = full_books();
    books.push(OrderBookState::Advanced(AdvancedOrderBook::new(spot())));
    for mut book in books {
        book.new_order(&mut order(1, 10, OrderAction::Ask, OrderType::Gtc, 100, 5));
        book.new_order(&mut order(2, 11, OrderAction::Ask, OrderType::Gtc, 105, 5));
        let mut poor = order(3, 20, OrderAction::Bid, OrderType::FokBudget, 1000, 10);
        poor.reserve_price = 105;
        assert_eq!(book.new_order(&mut poor), CommandResultCode::Success);
        assert_eq!(poor.matcher_events.len(), 1);
        assert_eq!(poor.matcher_events[0].event_type, MatcherEventType::Reject);
        assert_eq!(poor.matcher_events[0].size, 10);
        assert_eq!(poor.matcher_events[0].bidder_hold_price, 1000);
        assert_eq!(book.get_total_ask_volume(), 10);
        let mut short = order(4, 20, OrderAction::Bid, OrderType::FokBudget, 100000, 11);
        book.new_order(&mut short);
        assert_eq!(short.matcher_events.len(), 1);
        assert_eq!(short.matcher_events[0].event_type, MatcherEventType::Reject);
        assert_eq!(short.matcher_events[0].size, 11);
        let mut rich = order(5, 20, OrderAction::Bid, OrderType::FokBudget, 1050, 10);
        rich.reserve_price = 105;
        assert_eq!(book.new_order(&mut rich), CommandResultCode::Success);
        assert_eq!(
            rich.matcher_events,
            vec![trade(5, 100, 1, 10, 105), trade(5, 105, 2, 11, 105)]
        );
        assert_eq!(book.get_total_ask_volume(), 0);
    }
}

#[test]
fn budget_fill_or_kill_for_an_ask_needs_enough_proceeds() {
    let mut book = DirectOrderBook::new(spot());
    book.new_order(&mut order(1, 10, OrderAction::Bid, OrderType::Gtc, 100, 5));
    book.new_order(&mut order(2, 11, OrderAction::Bid, OrderType::Gtc, 90, 5));
    let mut greedy = order(3, 20, OrderAction::Ask, OrderType::FokBudget, 951, 10);
    book.new_order(&mut greedy);
    assert_eq!(greedy.matcher_events.len(), 1);
    assert_eq!(greedy.matcher_events[0].event_type, MatcherEventType::Reject);
    let mut fair = order(4, 20, OrderAction::Ask, OrderType::FokBudget, 950, 10);
    book.new_order(&mut fair);
    assert_eq!(
        fair.matcher_events,
        vec![trade(5, 100, 1, 10, 100), trade(5, 90, 2, 11, 90)]
    );
}

#[test]
fn unsupported_order_types() {
    let mut naive = NaiveOrderBook::new(spot());
    let mut direct = DirectOrderBook::new(spot());
    let mut pool = DirectOrderBookOptimized::new(spot());
    let mut advanced = AdvancedOrderBook::new(spot());
    let mut fok = order(1, 10, OrderAction::Bid, OrderType::Fok, 100, 1);
    assert_eq!(naive.new_order(&mut fok), CommandResultCode::MatchingUnsupportedCommand);
    assert_eq!(direct.new_order(&mut fok), CommandResultCode::MatchingUnsupportedCommand);
    assert_eq!(pool.new_order(&mut fok), CommandResultCode::MatchingUnsupportedCommand);
    assert!(fok.matcher_events.is_empty());
    let mut budget = order(2, 10, OrderAction::Bid, OrderType::FokBudget, 100, 1);
    assert_eq!(pool.new_order(&mut budget), CommandResultCode::MatchingUnsupportedCommand);
    assert_eq!(advanced.new_order(&mut fok), CommandResultCode::Success);
    let mut cmd = OrderCommand { order_id: 1, size: 1, ..Default::default() };
    assert_eq!(pool.move_order(&mut cmd), CommandResultCode::MatchingUnknownOrderId);
    assert_eq!(pool.reduce_order(&mut cmd), CommandResultCode::MatchingUnknownOrderId);
    assert_eq!(advanced.reduce_order(&mut cmd), CommandResultCode::MatchingUnknownOrderId);
}

#[test]
fn orders_of_size_zero_or_less_do_nothing() {
    for mut book in all_books() {
        book.new_order(&mut order(1, 10, OrderAction::Ask, OrderType::Gtc, 100, 3));
        let mut zero = order(2, 20, OrderAction::Bid, OrderType::Gtc, 100, 0);
        assert_eq!(book.new_order(&mut zero), CommandResultCode::Success);
        assert!(zero.matcher_events.is_empty());
        let mut negative = order(3, 20, OrderAction::Bid, OrderType::Ioc, 100, -5);
        assert_eq!(book.new_order(&mut negative), CommandResultCode::Success);
        assert!(negative.matcher_events.is_empty());
        assert_eq!(book.get_total_ask_volume(), 3);
        assert_eq!(book.get_total_bid_volume(), 0);
        assert_eq!(book.get_order_by_id(2), None);
    }
}

#[test]
fn depth_is_cut_at_the_number_of_levels_asked_for() {
    for mut book in all_books() {
        for i in 0..5 {
            book.new_order(&mut order(i + 1, 10, OrderAction::Ask, OrderType::Gtc, 200 + i, 1 + i));
            book.new_order(&mut order(i + 11, 10, OrderAction::Bid, OrderType::Gtc, 100 - i, 2 + i));
        }
        let l2 = book.get_l2_data(3);
        assert_eq!(l2.ask_prices, vec![200, 201, 202]);
        assert_eq!(l2.ask_volumes, vec![1, 2, 3]);
        assert_eq!(l2.bid_prices, vec![100, 99, 98]);
        assert_eq!(l2.bid_volumes, vec![2, 3, 4]);
        let none = book.get_l2_data(0);
        assert!(none.ask_prices.is_empty() && none.bid_volumes.is_empty());
        assert_eq!(book.get_ask_buckets_count(), 5);
        assert_eq!(book.get_bid_buckets_count(), 5);
        assert_eq!(book.get_total_ask_volume(), 15);
        assert_eq!(book.get_total_bid_volume(), 20);
    }
}

fn next(seed: &mut u64) -> u64 {
    *seed = seed.wrapping_mul(6364136223846793005).wrapping_add(1442695040888963407);
    *seed >> 33
}

#[test]
fn every_book_gives_the_same_events_for_the_same_commands() {
    let mut books = all_books();
    let mut seed: u64 = 7;
    let mut live: Vec<(i64, i64)> = Vec::new();
    for step in 0..3000i64 {
        let roll = next(&mut seed) % 10;
        let mut cmds: Vec<OrderCommand> = Vec::new();
        let mut codes: Vec<CommandResultCode> = Vec::new();
        if roll < 7 || live.is_empty() {
            let action = if next(&mut seed) % 2 == 0 { OrderAction::Ask } else { OrderAction::Bid };
            let kind = if next(&mut seed) % 3 == 0 { OrderType::Ioc } else { OrderType::Gtc };
            let price = 90 + (next(&mut seed) % 21) as i64;
            let size = 1 + (next(&mut seed) % 20) as i64;
            let uid = 1 + (next(&mut seed) % 5) as i64;
            let id = if next(&mut seed) % 25 == 0 && !live.is_empty() {
                live[(next(&mut seed) as usize) % live.len()].0
            } else {
                step + 1
            };
            for book in books.iter_mut() {
                let mut cmd = order(id, uid, action, kind, price, size);
                cmd.reserve_price = price + 3;
                codes.push(book.new_order(&mut cmd));
                cmds.push(cmd);
            }
            if id == step + 1 {
                live.push((id, uid));
            }
        } else {
            let at = (next(&mut seed) as usize) % live.len();
            let (id, uid) = live.swap_remove(at);
            for book in books.iter_mut() {
                let mut cmd = OrderCommand {
                    command: OrderCommandType::CancelOrder,
                    uid,
                    order_id: id,
                    ..Default::default()
                };
                codes.push(book.cancel_order(&mut cmd));
                cmds.push(cmd);
            }
        }
        for k in 1..books.len() {
            assert_eq!(codes[k], codes[0]);
            assert_eq!(cmds[k].matcher_events, cmds[0].matcher_events);
            assert_eq!(cmds[k].action, cmds[0].action);
        }
        if step % 50 == 0 {
            let first = books[0].get_l2_data(100);
            for book in books.iter().skip(1) {
                let other = book.get_l2_data(100);
                assert_eq!(other.ask_prices, first.ask_prices);
                assert_eq!(other.ask_volumes, first.ask_volumes);
                assert_eq!(other.bid_prices, first.bid_prices);
                assert_eq!(other.bid_volumes, first.bid_volumes);
                assert_eq!(book.get_total_ask_volume(), books[0].get_total_ask_volume());
                assert_eq!(book.get_total_bid_volume(), books[0].get_total_bid_volume());
                assert_eq!(book.get_ask_buckets_count(), books[0].get_ask_buckets_count());
                assert_eq!(book.get_bid_buckets_count(), books[0].get_bid_buckets_count());
            }
        }
    }
}

#[test]
fn moves_and_reduces_agree_between_plain_and_direct_book() {
    let mut naive = NaiveOrderBook::new(spot());
    let mut direct = DirectOrderBook::new(spot());
    let mut seed: u64 = 99;
    let mut live: Vec<(i64, i64)> = Vec::new();
    for step in 0..3000i64 {
        let roll = next(&mut seed) % 10;
        let mut a: OrderCommand;
        let mut b: OrderCommand;
        let (ca, cb);
        if roll < 5 || live.is_empty() {
            let action = if next(&mut seed) % 2 == 0 { OrderAction::Ask } else { OrderAction::Bid };
            let price = 90 + (next(&mut seed) % 21) as i64;
            let size = 1 + (next(&mut seed) % 20) as i64;
            let uid = 1 + (next(&mut seed) % 3) as i64;
            a = order(step + 1, uid, action, OrderType::Gtc, price, size);
            a.reserve_price = price + 2;
            b = a.clone();
            ca = naive.new_order(&mut a);
            cb = direct.new_order(&mut b);
            live.push((step + 1, uid));
        } else {
            let (id, uid) = live[(next(&mut seed) as usize) % live.len()];
            let command = if roll < 8 {
                OrderCommandType::MoveOrder
            } else {
                OrderCommandType::ReduceOrder
            };
            a = OrderCommand {
                command,
                uid,
                order_id: id,
                price: 90 + (next(&mut seed) % 21) as i64,
                size: (next(&mut seed) % 6) as i64,
                timestamp: step,
                ..Default::default()
            };
            b = a.clone();
            if roll < 8 {
                ca = naive.move_order(&mut a);
                cb = direct.move_order(&mut b);
            } else {
                ca = naive.reduce_order(&mut a);
                cb = direct.reduce_order(&mut b);
            }
        }
        assert_eq!(ca, cb);
        assert_eq!(a.matcher_events, b.matcher_events);
        assert_eq!(a.action, b.action);
        assert_eq!(naive.get_total_ask_volume(), direct.get_total_ask_volume());
        assert_eq!(naive.get_total_bid_volume(), direct.get_total_bid_volume());
        if step % 40 == 0 {
            let x = naive.get_l2_data(50);
            let y = direct.get_l2_data(50);
            assert_eq!(x.ask_prices, y.ask_prices);
            assert_eq!(x.ask_volumes, y.ask_volumes);
            assert_eq!(x.bid_prices, y.bid_prices);
            assert_eq!(x.bid_volumes, y.bid_volumes);
            for (id, _) in live.iter() {
                assert_eq!(naive.get_order_by_id(*id), direct.get_order_by_id(*id));
            }
        }
    }
}

#[test]
fn pool_grows_beyond_its_first_slots() {
    let mut book = DirectOrderBookOptimized::new(spot());
    let n: i64 = 50_010;
    for id in 1..=n {
        let mut cmd = order(id, 1, OrderAction::Ask, OrderType::Gtc, 100 + (id % 7), 1);
        assert_eq!(book.new_order(&mut cmd), CommandResultCode::Success);
    }
    assert_eq!(book.get_total_ask_volume(), n);
    assert_eq!(book.get_ask_buckets_count(), 7);
    let mut sweep = order(n + 1, 2, OrderAction::Bid, OrderType::Ioc, 200, n);
    book.new_order(&mut sweep);
    assert_eq!(sweep.matcher_events.len() as i64, n);
    assert_eq!(book.get_total_ask_volume(), 0);
}
