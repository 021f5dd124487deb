use rss2email::error::ErrorKind;
use rss2email::key_value::{
    data_dump, FeedId, FeedKey, FeedValue, ItemKey, ItemValue, KeyKind, Reader, Timestamp, Writer,
};

#[test]
fn read_write_u32() {
    let mut w = Writer::new();
    w.write_u32(0x01020304);
    let buffer = w.into_bytes();
    let mut r = Reader::new(&buffer);
    assert_eq!(r.read_u32().unwrap(), 0x01020304);
}

#[test]
fn read_write_key_kind() {
    let mut w = Writer::new();
    w.write_key_kind(KeyKind(0x01020304));
    let buffer = w.into_bytes();
    let mut r = Reader::new(&buffer);
    assert_eq!(r.read_key_kind().unwrap(), KeyKind(0x01020304));
}

#[test]
fn read_write_str_eof() {
    let mut w = Writer::new();
    w.write_str_eof("hello");
    let buffer = w.into_bytes();
    let mut r = Reader::new(&buffer);
    assert_eq!(r.read_str_eof().unwrap(), "hello");
}

#[test]
fn read_write_bytes_eof() {
    let mut w = Writer::new();
    w.write_bytes_eof(b"hello");
    let buffer = w.into_bytes();
    let mut r = Reader::new(&buffer);
    assert_eq!(r.read_bytes_eof(), b"hello");
}

#[test]
fn feed_key_converts_to_and_from_bytes() {
    let source = FeedKey {
        feed_url: "https://xkcd.com/rss.xml",
    };
    let b = source.to_bytes();
    let destination = FeedKey::from_bytes(&b).unwrap();
    assert_eq!(source, destination);
}

#[test]
fn feed_value_converts_to_and_from_bytes() {
    let source = FeedValue {
        feed_id: FeedId::new(42),
        when_added: Timestamp {
            secs: 1_700_000_000,
            nanos: 123_456_789,
        },
    };
    let b = source.to_bytes();
    let destination = FeedValue::from_bytes(&b).unwrap();
    assert_eq!(source, destination);
}

#[test]
fn item_key_converts_to_and_from_bytes() {
    let source = ItemKey {
        feed_id: FeedId::new(42),
        item_id: "https://xkcd.com/1850/",
    };
    let b = source.to_bytes();
    let destination = ItemKey::from_bytes(&b).unwrap();
    assert_eq!(source, destination);
}

#[test]
fn item_value_converts_to_and_from_bytes() {
    let source = ItemValue {
        when_first_fetched: Timestamp {
            secs: 1_700_000_000,
            nanos: 1,
        },
        when_last_fetched: Timestamp {
            secs: 1_700_000_100,
            nanos: 999_999_999,
        },
    };
    let b = source.to_bytes();
    let destination = ItemValue::from_bytes(&b).unwrap();
    assert_eq!(source, destination);
}

#[test]
fn feed_key_bytes_carry_the_kind_discriminant() {
    let b = FeedKey { feed_url: "u" }.to_bytes();
    assert_eq!(&b[..4], &[0, 0, 0, 1]);
    assert_eq!(FeedKey::min_search(), [0, 0, 0, 1]);
    assert_eq!(FeedKey::max_search(), [0, 0, 0, 2]);
}

#[test]
fn truncated_key_fails_with_decode_error() {
    let e = FeedKey::from_bytes(&[0, 0, 1]).unwrap_err();
    assert_eq!(e.kind, ErrorKind::DecodeError);
    let e = ItemKey::from_bytes(&[]).unwrap_err();
    assert_eq!(e.kind, ErrorKind::DecodeError);
}

#[test]
fn mismatched_kind_fails_with_wrong_key_kind() {
    let feed_bytes = FeedKey { feed_url: "u" }.to_bytes();
    let e = ItemKey::from_bytes(&feed_bytes).unwrap_err();
    assert_eq!(e.kind, ErrorKind::WrongKeyKind);
    let item_bytes = ItemKey {
        feed_id: FeedId::new(7),
        item_id: "i",
    }
    .to_bytes();
    let e = FeedKey::from_bytes(&item_bytes).unwrap_err();
    assert_eq!(e.kind, ErrorKind::WrongKeyKind);
}

#[test]
fn garbage_value_fails_with_decode_error() {
    let e = FeedValue::from_bytes(&[0xc1]).unwrap_err();
    assert_eq!(e.kind, ErrorKind::DecodeError);
    let e = ItemValue::from_bytes(&[0xc1]).unwrap_err();
    assert_eq!(e.kind, ErrorKind::DecodeError);
}

#[test]
fn item_keys_of_distinct_feeds_share_no_prefix() {
    // Even when one item id is a prefix of the other, keys of different
    // feeds never stand in a prefix relation.
    let a = ItemKey {
        feed_id: FeedId::new(1),
        item_id: "x",
    }
    .to_bytes();
    let b = ItemKey {
        feed_id: FeedId::new(2),
        item_id: "xy",
    }
    .to_bytes();
    assert!(!b.starts_with(&a));
    assert!(!a.starts_with(&b));
    // Within one feed, all item keys share the feed-scoped prefix.
    let c = ItemKey {
        feed_id: FeedId::new(1),
        item_id: "xy",
    }
    .to_bytes();
    assert_eq!(&a[..8], &c[..8]);
}

#[test]
fn data_dump_renders_short_buffers_whole() {
    assert_eq!(data_dump(&[]), "[]");
    assert_eq!(data_dump(&[0]), "[0]");
    assert_eq!(data_dump(&[1, 2, 3, 250]), "[1, 2, 3, 250]");
}

#[test]
fn data_dump_truncates_long_buffers() {
    let d = vec![7u8; 150];
    let mut expected = String::from("(truncated, was size 150) [");
    for i in 0..100 {
        if i > 0 {
            expected.push_str(", ");
        }
        expected.push('7');
    }
    expected.push(']');
    assert_eq!(data_dump(&d), expected);
}

#[test]
fn feed_id_round_trip() {
    let id = FeedId::new(7);
    assert_eq!(id.as_usize(), 7);
    assert_eq!(KeyKind(1).increment(), KeyKind(2));
}
