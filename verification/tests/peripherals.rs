use platform_rust::chain_monitor::{decode_hex_payload, normalize_gas_price, DecodingError};
use platform_rust::market_data::{aggregate_order_books, parse_side, OrderLevel, Side};
use platform_rust::pool::EngineError;
use platform_rust::transaction::TransactionBatcher;

#[test]
fn hex_payload_with_prefix_decodes() {
    assert_eq!(decode_hex_payload("0x0a0B").unwrap(), vec![0x0a, 0x0b]);
    assert_eq!(decode_hex_payload("0xdeadBEEF").unwrap(), vec![0xde, 0xad, 0xbe, 0xef]);
}

#[test]
fn hex_payload_without_prefix_decodes() {
    assert_eq!(decode_hex_payload("00ff10").unwrap(), vec![0x00, 0xff, 0x10]);
}

#[test]
fn empty_hex_payload_is_no_bytes() {
    assert_eq!(decode_hex_payload("").unwrap(), Vec::<u8>::new());
    assert_eq!(decode_hex_payload("0x").unwrap(), Vec::<u8>::new());
}

#[test]
fn odd_hex_payload_is_rejected() {
    assert_eq!(decode_hex_payload("0xabc").unwrap_err(), DecodingError::InvalidHex);
}

#[test]
fn non_hex_payload_is_rejected() {
    assert_eq!(decode_hex_payload("0xzz").unwrap_err(), DecodingError::InvalidHex);
    assert_eq!(decode_hex_payload("g0").unwrap_err(), DecodingError::InvalidHex);
}

#[test]
fn gas_price_prefers_the_explicit_price() {
    assert_eq!(normalize_gas_price(Some(7), 100), 7);
    assert_eq!(normalize_gas_price(None, 100), 100);
}

#[test]
fn batcher_defaults_to_one_hundred() {
    let batcher = TransactionBatcher::new(None);
    let txs: Vec<String> = (0..250).map(|i| format!("tx{}", i)).collect();
    let chunks = batcher.batch_transactions(txs.clone());
    assert_eq!(chunks.len(), 3);
    assert_eq!(chunks[0].len(), 100);
    assert_eq!(chunks[1].len(), 100);
    assert_eq!(chunks[2].len(), 50);
    let flat: Vec<String> = chunks.into_iter().flatten().collect();
    assert_eq!(flat, txs);
}

#[test]
fn batcher_respects_a_custom_size() {
    let batcher = TransactionBatcher::new(Some(3));
    let txs: Vec<String> = vec!["a", "b", "c", "d", "e", "f", "g"]
        .into_iter()
        .map(|s| s.to_string())
        .collect();
    let chunks = batcher.batch_transactions(txs.clone());
    assert_eq!(chunks.len(), 3);
    assert_eq!(chunks[0], vec!["a", "b", "c"]);
    assert_eq!(chunks[1], vec!["d", "e", "f"]);
    assert_eq!(chunks[2], vec!["g"]);
}

#[test]
fn batcher_on_empty_input_yields_no_chunks() {
    let batcher = TransactionBatcher::new(Some(5));
    assert!(batcher.batch_transactions(Vec::new()).is_empty());
}

#[test]
fn batcher_exact_multiple_fills_every_chunk() {
    let batcher = TransactionBatcher::new(Some(2));
    let txs: Vec<String> = vec!["a".to_string(), "b".to_string(), "c".to_string(), "d".to_string()];
    let chunks = batcher.batch_transactions(txs);
    assert_eq!(chunks.len(), 2);
    assert_eq!(chunks[0].len(), 2);
    assert_eq!(chunks[1].len(), 2);
}

#[test]
fn sides_parse_exactly() {
    assert_eq!(parse_side("bid").unwrap(), Side::Bid);
    assert_eq!(parse_side("ask").unwrap(), Side::Ask);
    assert_eq!(parse_side("mid").unwrap_err(), EngineError::UnknownSide);
    assert_eq!(parse_side("BID").unwrap_err(), EngineError::UnknownSide);
    assert_eq!(parse_side("").unwrap_err(), EngineError::UnknownSide);
}

#[test]
fn order_books_aggregate_by_price() {
    let levels = vec![
        OrderLevel { side: Side::Bid, price: 100, size: 5 },
        OrderLevel { side: Side::Bid, price: 100, size: 7 },
        OrderLevel { side: Side::Bid, price: 99, size: 1 },
        OrderLevel { side: Side::Ask, price: 101, size: 2 },
        OrderLevel { side: Side::Ask, price: 102, size: 3 },
        OrderLevel { side: Side::Ask, price: 101, size: 4 },
    ];
    let books = aggregate_order_books(levels);
    assert_eq!(books.bids, vec![(99, 1), (100, 12)]);
    assert_eq!(books.asks, vec![(101, 6), (102, 3)]);
}

#[test]
fn order_books_with_one_side_only() {
    let levels = vec![
        OrderLevel { side: Side::Ask, price: 10, size: 1 },
        OrderLevel { side: Side::Ask, price: 9, size: 2 },
    ];
    let books = aggregate_order_books(levels);
    assert!(books.bids.is_empty());
    assert_eq!(books.asks, vec![(9, 2), (10, 1)]);
}

#[test]
fn order_books_merge_negative_sizes() {
    let levels = vec![
        OrderLevel { side: Side::Bid, price: 5, size: -3 },
        OrderLevel { side: Side::Bid, price: 5, size: 10 },
    ];
    let books = aggregate_order_books(levels);
    assert_eq!(books.bids, vec![(5, 7)]);
}
