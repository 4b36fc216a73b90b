use fhe_orderbook::api_types::parse_side;
use fhe_orderbook::orderbook::Orderbook;
use fhe_orderbook::orders::{Order, Side};

#[test]
fn new_book_is_empty() {
    let book = Orderbook::new();
    let (bids, asks) = book.get_orders();
    assert!(bids.is_empty());
    assert!(asks.is_empty());
    assert!(book.get_fills().is_empty());
    assert!(!book.is_using_encryption());
    assert!(!book.has_key_material());
}

#[test]
fn asks_rest_in_ascending_price_order() {
    let mut book = Orderbook::new();
    let first = book.submit(Side::Sell, 100, 5, String::from("alice"));
    assert_eq!(first.id, 1);
    let second = book.submit(Side::Sell, 90, 3, String::from("bob"));
    assert_eq!(second.id, 2);
    let (bids, asks) = book.get_orders();
    assert!(bids.is_empty());
    assert_eq!(asks.len(), 2);
    assert_eq!(asks[0].price, 90);
    assert_eq!(asks[0].id, 2);
    assert_eq!(asks[1].price, 100);
    assert_eq!(asks[1].id, 1);
}

#[test]
fn bids_rest_in_descending_price_order() {
    let mut book = Orderbook::new();
    book.submit(Side::Buy, 10, 1, String::from("a"));
    book.submit(Side::Buy, 30, 1, String::from("b"));
    book.submit(Side::Buy, 20, 1, String::from("c"));
    let (bids, _) = book.get_orders();
    let prices: Vec<u32> = bids.iter().map(|o| o.price).collect();
    assert_eq!(prices, vec![30, 20, 10]);
}

#[test]
fn equal_prices_keep_arrival_order() {
    let mut book = Orderbook::new();
    book.submit(Side::Sell, 50, 1, String::from("first"));
    book.submit(Side::Sell, 50, 2, String::from("second"));
    let (_, asks) = book.get_orders();
    assert_eq!(asks[0].id, 1);
    assert_eq!(asks[1].id, 2);
}

#[test]
fn crossing_buy_fills_best_ask_first() {
    let mut book = Orderbook::new();
    book.submit(Side::Sell, 100, 5, String::from("alice"));
    book.submit(Side::Sell, 90, 3, String::from("bob"));
    let buyer = book.submit(Side::Buy, 95, 4, String::from("carol"));
    assert_eq!(buyer.id, 3);

    let fills = book.get_fills();
    assert_eq!(fills.len(), 1);
    assert_eq!(fills[0].sell_order_id, 2);
    assert_eq!(fills[0].buy_order_id, 3);
    assert_eq!(fills[0].price, 90);
    assert_eq!(fills[0].quantity, 3);
    assert_eq!(fills[0].buyer_pubkey, "carol");
    assert_eq!(fills[0].seller_pubkey, "bob");

    let (bids, asks) = book.get_orders();
    assert_eq!(asks.len(), 1);
    assert_eq!(asks[0].id, 1);
    assert_eq!(asks[0].price, 100);
    // The unmatched remainder rests with its original submitted quantity.
    assert_eq!(bids.len(), 1);
    assert_eq!(bids[0].id, 3);
    assert_eq!(bids[0].price, 95);
    assert_eq!(bids[0].quantity, 4);
}

#[test]
fn no_fill_when_prices_do_not_cross() {
    let mut book = Orderbook::new();
    book.submit(Side::Sell, 100, 5, String::from("alice"));
    book.submit(Side::Buy, 99, 5, String::from("bob"));
    assert!(book.get_fills().is_empty());
    let (bids, asks) = book.get_orders();
    assert_eq!(bids.len(), 1);
    assert_eq!(asks.len(), 1);
}

#[test]
fn fill_happens_exactly_when_buy_price_reaches_sell_price() {
    let mut book = Orderbook::new();
    book.submit(Side::Sell, 100, 5, String::from("alice"));
    let buyer = book.submit(Side::Buy, 100, 5, String::from("bob"));
    let fills = book.get_fills();
    assert_eq!(fills.len(), 1);
    assert_eq!(fills[0].buy_order_id, buyer.id);
    assert_eq!(fills[0].price, 100);
    assert_eq!(fills[0].quantity, 5);
    // The consumed ask is gone.
    let (_, asks) = book.get_orders();
    assert!(asks.is_empty());
}

#[test]
fn one_submission_can_fill_several_resting_orders() {
    let mut book = Orderbook::new();
    book.submit(Side::Sell, 10, 2, String::from("a"));
    book.submit(Side::Sell, 20, 2, String::from("b"));
    book.submit(Side::Sell, 30, 2, String::from("c"));
    book.submit(Side::Buy, 25, 5, String::from("taker"));
    let fills = book.get_fills();
    assert_eq!(fills.len(), 2);
    assert_eq!(fills[0].price, 10);
    assert_eq!(fills[0].quantity, 2);
    assert_eq!(fills[1].price, 20);
    assert_eq!(fills[1].quantity, 2);
    let (_, asks) = book.get_orders();
    assert_eq!(asks.len(), 1);
    assert_eq!(asks[0].price, 30);
}

#[test]
fn fill_quantities_never_exceed_either_side() {
    let mut book = Orderbook::new();
    book.submit(Side::Sell, 10, 7, String::from("maker"));
    book.submit(Side::Buy, 10, 3, String::from("taker"));
    let fills = book.get_fills();
    assert_eq!(fills.len(), 1);
    assert!(fills[0].quantity > 0);
    assert!(fills[0].quantity <= 7);
    assert!(fills[0].quantity <= 3);
    assert_eq!(fills[0].quantity, 3);
}

#[test]
fn ids_are_assigned_monotonically_from_one() {
    let mut book = Orderbook::new();
    let a = book.submit(Side::Buy, 1, 1, String::from("a"));
    let b = book.submit(Side::Sell, 1000, 1, String::from("b"));
    let c = book.submit(Side::Buy, 2, 1, String::from("c"));
    assert_eq!(a.id, 1);
    assert_eq!(b.id, 2);
    assert_eq!(c.id, 3);
}

#[test]
fn market_buy_on_empty_asks_consumes_nothing() {
    let mut book = Orderbook::new();
    let result = book.market_buy(10, String::from("taker"));
    assert!(result.is_none());
    assert!(book.get_fills().is_empty());
    let (bids, asks) = book.get_orders();
    assert!(bids.is_empty());
    assert!(asks.is_empty());
    // The refused market order consumed no id.
    let next = book.submit(Side::Buy, 1, 1, String::from("a"));
    assert_eq!(next.id, 1);
}

#[test]
fn market_sell_on_empty_bids_consumes_nothing() {
    let mut book = Orderbook::new();
    let result = book.market_sell(10, String::from("taker"));
    assert!(result.is_none());
    assert!(book.get_fills().is_empty());
    let (bids, asks) = book.get_orders();
    assert!(bids.is_empty());
    assert!(asks.is_empty());
}

#[test]
fn market_buy_takes_liquidity_at_any_price() {
    let mut book = Orderbook::new();
    book.submit(Side::Sell, 500, 4, String::from("maker"));
    let taker = book.market_buy(4, String::from("taker")).expect("liquidity was resting");
    assert_eq!(taker.id, 2);
    assert_eq!(taker.price, u32::MAX);
    let fills = book.get_fills();
    assert_eq!(fills.len(), 1);
    assert_eq!(fills[0].price, 500);
    assert_eq!(fills[0].quantity, 4);
    let (_, asks) = book.get_orders();
    assert!(asks.is_empty());
}

#[test]
fn market_sell_executes_at_the_incoming_sell_price() {
    let mut book = Orderbook::new();
    book.submit(Side::Buy, 70, 2, String::from("maker"));
    let taker = book.market_sell(2, String::from("taker")).expect("liquidity was resting");
    assert_eq!(taker.price, 0);
    let fills = book.get_fills();
    assert_eq!(fills.len(), 1);
    // The execution price is always the sell order's price; for a market
    // sell the incoming order is the sell side, synthesized at price zero.
    assert_eq!(fills[0].price, 0);
    assert_eq!(fills[0].quantity, 2);
    assert_eq!(fills[0].seller_pubkey, "taker");
    assert_eq!(fills[0].buyer_pubkey, "maker");
}

#[test]
fn reset_clears_state_and_restarts_ids_keeping_the_mode() {
    let mut book = Orderbook::new();
    book.submit(Side::Sell, 10, 1, String::from("a"));
    book.submit(Side::Buy, 10, 1, String::from("b"));
    assert_eq!(book.get_fills().len(), 1);
    book.reset();
    let (bids, asks) = book.get_orders();
    assert!(bids.is_empty());
    assert!(asks.is_empty());
    assert!(book.get_fills().is_empty());
    assert!(!book.is_using_encryption());
    let next = book.submit(Side::Buy, 5, 5, String::from("c"));
    assert_eq!(next.id, 1);
}

#[test]
fn enabling_confidential_mode_without_keys_is_refused() {
    let mut book = Orderbook::new();
    assert!(!book.has_key_material());
    assert!(!book.set_use_encryption(true));
    assert!(!book.is_using_encryption());
    // Disabling is always possible.
    assert!(book.set_use_encryption(false));
    assert!(!book.is_using_encryption());
}

#[test]
fn plaintext_book_renders_itself() {
    let mut book = Orderbook::new();
    book.submit(Side::Sell, 100, 5, String::from("alice"));
    book.submit(Side::Buy, 90, 5, String::from("bob"));
    let (bids, asks) = book.get_decrypted_orders().expect("plaintext rendering cannot fail");
    assert_eq!(bids.len(), 1);
    assert_eq!(bids[0].price, 90);
    assert_eq!(asks.len(), 1);
    assert_eq!(asks[0].price, 100);
}

#[test]
fn plaintext_orders_carry_no_ciphertext() {
    let mut book = Orderbook::new();
    let order = book.submit(Side::Buy, 10, 1, String::from("a"));
    assert!(!order.is_encrypted);
    assert!(order.encrypted_price.is_none());
    assert!(order.encrypted_quantity.is_none());
}

#[test]
fn constructed_orders_hold_their_fields() {
    let plain = Order::new(7, 11, 13, Side::Sell, String::from("owner"));
    assert_eq!(plain.id, 7);
    assert_eq!(plain.price, 11);
    assert_eq!(plain.quantity, 13);
    assert_eq!(plain.side, Side::Sell);
    assert_eq!(plain.user_pubkey, "owner");
    assert!(!plain.is_encrypted);

    let confidential = Order::new_encrypted(
        8,
        17,
        19,
        Side::Buy,
        String::from("owner"),
        vec![1, 2, 3],
        vec![4, 5, 6],
    );
    assert!(confidential.is_encrypted);
    assert_eq!(confidential.encrypted_price, Some(vec![1, 2, 3]));
    assert_eq!(confidential.encrypted_quantity, Some(vec![4, 5, 6]));
}

#[test]
fn side_strings_parse_case_insensitively() {
    assert_eq!(parse_side("buy"), Some(Side::Buy));
    assert_eq!(parse_side("BUY"), Some(Side::Buy));
    assert_eq!(parse_side("Sell"), Some(Side::Sell));
    assert_eq!(parse_side("sell"), Some(Side::Sell));
    assert_eq!(parse_side("hold"), None);
    assert_eq!(parse_side(""), None);
}

#[test]
fn resting_order_only_leaves_when_fully_consumed() {
    let mut book = Orderbook::new();
    book.submit(Side::Sell, 10, 5, String::from("maker"));
    book.submit(Side::Buy, 10, 3, String::from("taker"));
    // Partially consumed: the ask still rests, with its original quantity.
    let (_, asks) = book.get_orders();
    assert_eq!(asks.len(), 1);
    assert_eq!(asks[0].quantity, 5);
    book.submit(Side::Buy, 10, 5, String::from("taker2"));
    let (_, asks) = book.get_orders();
    assert!(asks.is_empty());
}

fn keyless_confidential_book() -> Orderbook {
    Orderbook {
        count: 0,
        buy_orders: Vec::new(),
        sell_orders: Vec::new(),
        fills: Vec::new(),
        use_encryption: true,
        client_key: None,
    }
}

#[test]
fn confidential_mode_without_keys_degrades_to_plaintext_orders() {
    let mut book = keyless_confidential_book();
    let order = book.submit(Side::Sell, 100, 5, String::from("alice"));
    assert!(!order.is_encrypted);
    assert!(order.encrypted_price.is_none());
    // Confidential matching goes through the comparison capability, which
    // never matches orders that carry no ciphertext: nothing fills.
    book.submit(Side::Buy, 200, 5, String::from("bob"));
    assert!(book.get_fills().is_empty());
}

#[test]
fn confidential_book_accumulates_in_arrival_order() {
    let mut book = keyless_confidential_book();
    book.submit(Side::Sell, 100, 5, String::from("a"));
    book.submit(Side::Sell, 90, 3, String::from("b"));
    let (_, asks) = book.get_orders();
    assert_eq!(asks[0].price, 100);
    assert_eq!(asks[1].price, 90);
}

#[test]
fn disabling_confidential_mode_restores_price_priority() {
    let mut book = keyless_confidential_book();
    book.submit(Side::Sell, 100, 5, String::from("a"));
    book.submit(Side::Sell, 90, 3, String::from("b"));
    book.submit(Side::Buy, 10, 1, String::from("c"));
    book.submit(Side::Buy, 20, 1, String::from("d"));
    assert!(book.set_use_encryption(false));
    let (bids, asks) = book.get_orders();
    let ask_prices: Vec<u32> = asks.iter().map(|o| o.price).collect();
    let bid_prices: Vec<u32> = bids.iter().map(|o| o.price).collect();
    assert_eq!(ask_prices, vec![90, 100]);
    assert_eq!(bid_prices, vec![20, 10]);
}

#[test]
fn rendering_fails_atomically_without_key_material() {
    let mut book = keyless_confidential_book();
    book.submit(Side::Sell, 100, 5, String::from("a"));
    assert!(book.get_decrypted_orders().is_err());
}

#[test]
fn reset_preserves_the_confidential_mode_flag() {
    let mut book = keyless_confidential_book();
    book.submit(Side::Sell, 100, 5, String::from("a"));
    book.reset();
    assert!(book.is_using_encryption());
    let (bids, asks) = book.get_orders();
    assert!(bids.is_empty());
    assert!(asks.is_empty());
}

#[test]
fn confidential_mode_agrees_with_plaintext_mode() {
    // The differential check: the same submission sequence through a
    // plaintext book and through a confidential book must produce the same
    // fills, and decrypting the confidential book must show the same
    // resting orders.
    let config = tfhe::ConfigBuilder::default().build();
    let client_key = tfhe::ClientKey::generate(config);

    let mut plain_book = Orderbook::new();
    let mut enc_book = Orderbook::new_encrypted(client_key);
    assert!(enc_book.is_using_encryption());
    assert!(enc_book.has_key_material());

    for book in [&mut plain_book, &mut enc_book] {
        book.submit(Side::Sell, 100, 5, String::from("alice"));
        book.submit(Side::Sell, 90, 3, String::from("bob"));
        book.submit(Side::Buy, 95, 4, String::from("carol"));
    }

    let stored = &enc_book.get_orders().1;
    assert!(stored.iter().all(|o| o.is_encrypted
        && o.encrypted_price.is_some()
        && o.encrypted_quantity.is_some()));

    let plain_fills = plain_book.get_fills();
    let enc_fills = enc_book.get_fills();
    assert_eq!(plain_fills.len(), 1);
    assert_eq!(enc_fills.len(), plain_fills.len());
    for (p, e) in plain_fills.iter().zip(enc_fills.iter()) {
        assert_eq!(p.buy_order_id, e.buy_order_id);
        assert_eq!(p.sell_order_id, e.sell_order_id);
        assert_eq!(p.price, e.price);
        assert_eq!(p.quantity, e.quantity);
    }

    let (plain_bids, plain_asks) = plain_book.get_orders();
    let (dec_bids, dec_asks) =
        enc_book.get_decrypted_orders().expect("decryption with the right key succeeds");
    assert_eq!(dec_bids.len(), plain_bids.len());
    assert_eq!(dec_asks.len(), plain_asks.len());
    for (p, d) in plain_bids.iter().zip(dec_bids.iter()).chain(plain_asks.iter().zip(dec_asks.iter()))
    {
        assert_eq!(p.id, d.id);
        assert_eq!(p.price, d.price);
        assert_eq!(p.quantity, d.quantity);
        assert!(!d.is_encrypted);
    }
}

#[test]
fn unreadable_ciphertext_fails_rendering_without_a_panic() {
    let config = tfhe::ConfigBuilder::default().build();
    let client_key = tfhe::ClientKey::generate(config);
    let mut book = Orderbook::new_encrypted(client_key);
    // An order whose ciphertext fields hold bytes that are no ciphertext at
    // all: rendering must refuse it as a whole, never crash on it.
    let bogus = Order::new_encrypted(
        1,
        50,
        5,
        Side::Sell,
        String::from("mallory"),
        vec![1, 2, 3],
        vec![4, 5, 6],
    );
    book.add_order(bogus);
    assert!(book.get_decrypted_orders().is_err());
    // And a bogus resting ask never matches under confidential comparison.
    book.submit(Side::Buy, 100, 5, String::from("taker"));
    assert!(book.get_fills().is_empty());
}

#[test]
fn rendering_succeeds_when_nothing_rests_encrypted() {
    let config = tfhe::ConfigBuilder::default().build();
    let client_key = tfhe::ClientKey::generate(config);
    let mut book = Orderbook {
        count: 0,
        buy_orders: Vec::new(),
        sell_orders: Vec::new(),
        fills: Vec::new(),
        use_encryption: false,
        client_key: Some(client_key),
    };
    book.submit(Side::Sell, 100, 5, String::from("alice"));
    book.submit(Side::Buy, 90, 2, String::from("bob"));
    // Turning confidential mode on keeps the resting plaintext orders as
    // they are; rendering them decrypts nothing and must succeed.
    assert!(book.set_use_encryption(true));
    let (bids, asks) = book.get_decrypted_orders().expect("plaintext book renders");
    assert_eq!(bids.len(), 1);
    assert_eq!(bids[0].price, 90);
    assert_eq!(asks.len(), 1);
    assert_eq!(asks[0].price, 100);
}
