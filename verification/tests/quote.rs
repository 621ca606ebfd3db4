use bcd_feed::bcd::Decimal;
use bcd_feed::error::FeedError;
use bcd_feed::quote::{parse_3_3, parse_6_6_body, Data, Data3d3};

const CHUNK: [u8; 122] = [
    27, 1, 34, 1, 6, 4, 1, 0, 0, 1, 48, 48, 54, 55, 53, 76, 9, 9, 52, 68, 118, 152, 90, 0, 16, 0,
    0, 2, 34, 0, 0, 64, 97, 0, 0, 0, 0, 88, 0, 0, 64, 96, 0, 0, 0, 0, 83, 0, 0, 64, 86, 0, 0, 0,
    0, 96, 0, 0, 64, 82, 0, 0, 0, 1, 0, 0, 0, 64, 80, 0, 0, 0, 0, 6, 0, 0, 64, 113, 0, 0, 0, 0,
    73, 0, 0, 64, 114, 0, 0, 0, 1, 70, 0, 0, 64, 115, 0, 0, 0, 1, 72, 0, 0, 64, 118, 0, 0, 0, 0,
    1, 0, 0, 64, 119, 0, 0, 0, 0, 5, 167, 13, 10,
];

fn price(units: u64) -> Decimal {
    Decimal { units, frac_pairs: 2 }
}

/// A frame with the given flag byte, clock time 09:09:34.447698, code
/// `00675L`, and the given price levels behind byte 29.
fn frame_with(flag: u8, levels: &[[u8; 5]]) -> Vec<u8> {
    let mut frame = vec![27, 0, 0, 1, 6, 4, 0, 0, 0, 1];
    frame.extend_from_slice(b"00675L");
    frame.extend_from_slice(&[0x09, 0x09, 0x34, 0x44, 0x76, 0x98]);
    frame.push(flag);
    frame.extend_from_slice(&[0xee; 6]);
    for level in levels {
        frame.extend_from_slice(level);
        frame.extend_from_slice(&[0xdd; 4]);
    }
    frame
}

#[test]
fn test_parse_chunk() {
    let testcase: &[u8] = &[27, 1, 34, 1, 6, 4, 1, 0, 0, 1, 48, 48, 54, 55, 53, 76, 9, 9,
        52, 68, 118, 152, 90, 0, 16, 0, 0, 2, 34, 0, 0, 64, 97, 0, 0, 0, 0, 88, 0, 0, 64,
        96, 0, 0, 0, 0, 83, 0, 0, 64, 86, 0, 0, 0, 0, 96, 0, 0, 64, 82, 0, 0, 0, 1, 0, 0,
        0, 64, 80, 0, 0, 0, 0, 6, 0, 0, 64, 113, 0, 0, 0, 0, 73, 0, 0, 64, 114, 0, 0, 0,
        1, 70, 0, 0, 64, 115, 0, 0, 0, 1, 72, 0, 0, 64, 118, 0, 0, 0, 0, 1, 0, 0, 64, 119,
        0, 0, 0, 0, 5, 167, 13, 10];

    let result = parse_6_6_body(testcase);
    println!("parse_chunk: {:?}", result)
}

#[test]
fn test_parse_3_3() {
    assert_eq!(parse_3_3(0b10000001), Data3d3 {
        have_deal_price: true,
        buy_price_count: 0,
        sell_price_count: 0,
        have_best_5: true,
    });
    assert_eq!(parse_3_3(0b10010001), Data3d3 {
        have_deal_price: true,
        buy_price_count: 1,
        sell_price_count: 0,
        have_best_5: true,
    });
    assert_eq!(parse_3_3(0b11011011), Data3d3 {
        have_deal_price: true,
        buy_price_count: 5,
        sell_price_count: 5,
        have_best_5: true,
    });
    assert_eq!(parse_3_3(0b00010101), Data3d3 {
        have_deal_price: false,
        buy_price_count: 1,
        sell_price_count: 2,
        have_best_5: true,
    });
}

#[test]
fn flag_byte_extremes() {
    assert_eq!(parse_3_3(0x00), Data3d3 {
        have_deal_price: false,
        buy_price_count: 0,
        sell_price_count: 0,
        have_best_5: false,
    });
    assert_eq!(parse_3_3(0xff), Data3d3 {
        have_deal_price: true,
        buy_price_count: 7,
        sell_price_count: 7,
        have_best_5: true,
    });
}

#[test]
fn flag_fields_give_the_byte_back() {
    for v in 0u8..=255 {
        let d = parse_3_3(v);
        assert!(d.buy_price_count <= 7);
        assert!(d.sell_price_count <= 7);
        let packed = (d.have_deal_price as u8) << 7
            | d.buy_price_count << 4
            | d.sell_price_count << 1
            | d.have_best_5 as u8;
        assert_eq!(packed, v);
    }
}

#[test]
fn chunk_decodes_to_its_quote() {
    assert_eq!(
        parse_6_6_body(&CHUNK),
        Ok(Some(Data {
            code: String::from("00675L"),
            bid_price: price(406100),
            ask_price: price(407100),
            time: 90934447698,
        }))
    );
}

#[test]
fn code_is_copied_character_by_character() {
    let mut frame = frame_with(0, &[]);
    frame[10..16].copy_from_slice(b"AB12 z");
    let quote = parse_6_6_body(&frame).unwrap().unwrap();
    assert_eq!(quote.code, "AB12 z");
    assert_eq!(quote.code.chars().count(), 6);
}

#[test]
fn code_bytes_above_ascii_become_one_character_each() {
    let mut frame = frame_with(0, &[]);
    frame[10..16].copy_from_slice(&[0x41, 0xe9, 0xff, 0x80, 0x00, 0x7f]);
    let quote = parse_6_6_body(&frame).unwrap().unwrap();
    let wanted: String = ['A', '\u{e9}', '\u{ff}', '\u{80}', '\0', '\u{7f}'].iter().collect();
    assert_eq!(quote.code, wanted);
}

#[test]
fn time_is_clock_then_fraction() {
    let mut frame = frame_with(0, &[]);
    frame[16..22].copy_from_slice(&[0x13, 0x30, 0x00, 0x12, 0x34, 0x56]);
    assert_eq!(parse_6_6_body(&frame).unwrap().unwrap().time, 133000_123456);
    frame[16..22].copy_from_slice(&[0x00, 0x00, 0x00, 0x00, 0x00, 0x01]);
    assert_eq!(parse_6_6_body(&frame).unwrap().unwrap().time, 1);
    frame[16..22].copy_from_slice(&[0x99; 6]);
    assert_eq!(parse_6_6_body(&frame).unwrap().unwrap().time, 999999_999999);
}

#[test]
fn zero_time_gives_no_quote() {
    let mut frame = frame_with(0b10010001, &[[0; 5], [0x00, 0x01, 0x23, 0x45, 0x67]]);
    frame[16..22].copy_from_slice(&[0; 6]);
    assert_eq!(parse_6_6_body(&frame), Ok(None));
}

#[test]
fn zero_time_gives_no_quote_whatever_else_the_frame_holds() {
    for filler in [0x00u8, 0x5a, 0x99, 0xff] {
        for len in [22usize, 23, 29, 40, 122] {
            let mut frame = vec![filler; len];
            frame[16..22].copy_from_slice(&[0; 6]);
            assert_eq!(parse_6_6_body(&frame), Ok(None));
        }
    }
}

#[test]
fn deal_price_is_skipped_and_one_bid_is_read() {
    let deal = [0x00, 0x09, 0x99, 0x99, 0x99];
    let bid = [0x00, 0x01, 0x23, 0x45, 0x67];
    let frame = frame_with(0b10010001, &[deal, bid]);
    let quote = parse_6_6_body(&frame).unwrap().unwrap();
    assert_eq!(quote.bid_price, price(1234567));
    assert_eq!(quote.ask_price, price(0));
}

#[test]
fn without_deal_price_the_bid_stands_first() {
    let bid = [0x00, 0x01, 0x23, 0x45, 0x67];
    let ask = [0x00, 0x01, 0x24, 0x00, 0x00];
    let frame = frame_with(0b00010010, &[bid, ask]);
    let quote = parse_6_6_body(&frame).unwrap().unwrap();
    assert_eq!(quote.bid_price, price(1234567));
    assert_eq!(quote.ask_price, price(1240000));
}

#[test]
fn ask_stands_behind_every_bid_level() {
    let deal = [0x11; 5];
    let bids = [[0x00, 0x00, 0x50, 0x00, 0x00], [0x00, 0x00, 0x49, 0x00, 0x00], [0x00, 0x00, 0x48, 0x00, 0x00]];
    let asks = [[0x00, 0x00, 0x51, 0x00, 0x00], [0x00, 0x00, 0x52, 0x00, 0x00]];
    let frame = frame_with(0b10110100, &[deal, bids[0], bids[1], bids[2], asks[0], asks[1]]);
    let quote = parse_6_6_body(&frame).unwrap().unwrap();
    assert_eq!(quote.bid_price, price(500000));
    assert_eq!(quote.ask_price, price(510000));
}

#[test]
fn ask_alone_stands_at_the_start_of_the_price_block() {
    let ask = [0x12, 0x34, 0x56, 0x78, 0x90];
    let frame = frame_with(0b00000010, &[ask]);
    let quote = parse_6_6_body(&frame).unwrap().unwrap();
    assert_eq!(quote.bid_price, price(0));
    assert_eq!(quote.ask_price, price(1234567890));
}

#[test]
fn no_levels_give_zero_prices() {
    let frame = frame_with(0b00000001, &[]);
    assert_eq!(
        parse_6_6_body(&frame),
        Ok(Some(Data {
            code: String::from("00675L"),
            bid_price: price(0),
            ask_price: price(0),
            time: 90934447698,
        }))
    );
    assert_eq!(parse_6_6_body(&frame[..23]).unwrap().unwrap().bid_price, price(0));
}

#[test]
fn frame_without_room_for_code_and_time_is_truncated() {
    assert_eq!(parse_6_6_body(&[]), Err(FeedError::TruncatedBody));
    assert_eq!(parse_6_6_body(&CHUNK[..10]), Err(FeedError::TruncatedBody));
    assert_eq!(parse_6_6_body(&CHUNK[..21]), Err(FeedError::TruncatedBody));
}

#[test]
fn frame_without_flag_byte_is_truncated() {
    assert_eq!(parse_6_6_body(&CHUNK[..22]), Err(FeedError::TruncatedBody));
}

#[test]
fn frame_that_ends_within_a_price_is_truncated() {
    assert_eq!(parse_6_6_body(&CHUNK[..33]), Err(FeedError::TruncatedBody));
    assert_eq!(parse_6_6_body(&CHUNK[..78]), Err(FeedError::TruncatedBody));
    let deal = [0; 5];
    let bid = [0x00, 0x01, 0x23, 0x45, 0x67];
    let frame = frame_with(0b10010001, &[deal, bid]);
    assert_eq!(parse_6_6_body(&frame[..42]), Err(FeedError::TruncatedBody));
    assert!(parse_6_6_body(&frame[..43]).unwrap().is_some());
}

#[test]
fn only_the_prices_that_are_read_must_be_there() {
    let quote = parse_6_6_body(&CHUNK[..79]).unwrap().unwrap();
    assert_eq!(quote.bid_price, price(406100));
    assert_eq!(quote.ask_price, price(407100));
}

#[test]
fn malformed_price_digits_saturate() {
    let frame = frame_with(0b00010000, &[[0x0a, 0xb0, 0xff, 0x1c, 0xd2]]);
    let quote = parse_6_6_body(&frame).unwrap().unwrap();
    assert_eq!(quote.bid_price, price(9_90_99_19_92));
}
