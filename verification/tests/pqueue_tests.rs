use octomatch::model::{Order, OrderKey, TradingPair};
use octomatch::pqueue::{OrderQueue, PriceTimePriorityOrderQueue};
use octomatch::types::{Asset, Long, OrderSide, OrderType, Price, TimestampMillis};

fn create_order(
    price: Price,
    side: OrderSide,
    quantity: Long,
    order_type: OrderType,
    trading_pair: TradingPair,
    timestamp: TimestampMillis,
) -> Order {
    Order {
        orderid: uuid::Uuid::new_v4().as_u128(),
        price,
        side,
        quantity,
        order_type,
        timestamp,
        trading_pair,
    }
}

#[test]
fn can_get_an_inserted_order_back_from_queue() {
    let mut pq: PriceTimePriorityOrderQueue<OrderKey> = PriceTimePriorityOrderQueue::new();

    let orders = vec![
        create_order(
            Price::from_atoms(20002),
            OrderSide::Bid,
            4,
            OrderType::Limit,
            TradingPair::from(Asset::BTC, Asset::USDC),
            1678170180000,
        ),
        create_order(
            Price::from_atoms(30002),
            OrderSide::Bid,
            10,
            OrderType::Limit,
            TradingPair::from(Asset::DOT, Asset::USDT),
            1680848580000,
        ),
    ];

    orders.iter().for_each(|order| pq.push(order.to_key()));

    let head: OrderKey = *pq.peek().unwrap();
    assert_eq!(
        orders[1].to_key(),
        head,
        "Asserting that the item at the head of the queue is the order with the highest price"
    );
}

#[test]
fn orders_at_the_same_price_are_prioritized_by_time() {
    let mut pq: PriceTimePriorityOrderQueue<OrderKey> = PriceTimePriorityOrderQueue::new();

    let orders = vec![
        create_order(
            Price::from_atoms(20002),
            OrderSide::Bid,
            4,
            OrderType::Limit,
            TradingPair::from(Asset::BTC, Asset::USDC),
            1678170180000,
        ),
        create_order(
            Price::from_atoms(20002),
            OrderSide::Bid,
            12,
            OrderType::Limit,
            TradingPair::from(Asset::ETH, Asset::USDT),
            1680848580000,
        ),
    ];

    orders.iter().for_each(|order| pq.push(order.to_key()));

    let head: OrderKey = *pq.peek().unwrap();
    assert_eq!(orders[0].to_key(), head, "For orders with the same price, the longest staying order should be at the head of the queue");
}

#[test]
fn orders_can_be_removed_from_queue_if_they_are_canceled() {
    let mut pq: PriceTimePriorityOrderQueue<OrderKey> = PriceTimePriorityOrderQueue::new();

    let order = create_order(
        Price::from_atoms(20002),
        OrderSide::Bid,
        8,
        OrderType::Limit,
        TradingPair::from(Asset::DOT, Asset::USDT),
        1678170180000,
    );

    pq.push(order.to_key());
    assert_eq!(order.to_key(), *pq.peek().unwrap());

    pq.remove(order.to_key());
    assert_eq!(None, pq.peek());
}

#[test]
fn orders_can_be_poped_from_queue_when_needed() {
    let mut pq: PriceTimePriorityOrderQueue<OrderKey> = PriceTimePriorityOrderQueue::new();

    let order = create_order(
        Price::from_atoms(20002),
        OrderSide::Bid,
        8,
        OrderType::Limit,
        TradingPair::from(Asset::ETH, Asset::USDC),
        1678170180000,
    );

    pq.push(order.to_key());
    assert_eq!(order.to_key(), pq.pop().unwrap());
}

#[test]
fn bids_pop_from_highest_to_lowest_price() {
    let mut pq: PriceTimePriorityOrderQueue<OrderKey> = PriceTimePriorityOrderQueue::new();
    let pair = TradingPair::from(Asset::ETH, Asset::USDC);

    let prices: [u64; 5] = [4000, 55000, 10000, 500, 30000];
    for (i, atoms) in prices.iter().enumerate() {
        pq.push(
            create_order(
                Price::from_atoms(*atoms),
                OrderSide::Bid,
                1,
                OrderType::Limit,
                pair,
                1000 + i as u128,
            )
            .to_key(),
        );
    }

    let mut popped: Vec<u64> = Vec::new();
    while let Some(key) = pq.pop() {
        popped.push(key.price.atoms);
    }
    assert_eq!(popped, vec![55000, 30000, 10000, 4000, 500]);
}

#[test]
fn asks_pop_from_lowest_to_highest_price() {
    let mut pq: PriceTimePriorityOrderQueue<OrderKey> = PriceTimePriorityOrderQueue::new();
    let pair = TradingPair::from(Asset::ETH, Asset::USDC);

    let prices: [u64; 4] = [10000, 4000, 55000, 500];
    for (i, atoms) in prices.iter().enumerate() {
        pq.push(
            create_order(
                Price::from_atoms(*atoms),
                OrderSide::Ask,
                1,
                OrderType::Limit,
                pair,
                1000 + i as u128,
            )
            .to_key(),
        );
    }

    let mut popped: Vec<u64> = Vec::new();
    while let Some(key) = pq.pop() {
        popped.push(key.price.atoms);
    }
    assert_eq!(popped, vec![500, 4000, 10000, 55000]);
}
