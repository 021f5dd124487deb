use rss2email::error::ErrorKind;
use rss2email::feed::{Feed, FeedItem, FeedMeta, RecorderSender};
use rss2email::model::{Database, FetchAndSendOptions};

fn feed_of(url: &str, title: &str, items: Vec<FeedItem>) -> Feed {
    Feed {
        meta: FeedMeta {
            feed_url: url.to_string(),
            title: title.to_string(),
        },
        items,
    }
}

fn item_of(id: &str) -> FeedItem {
    FeedItem {
        id: id.to_string(),
        title: None,
        link: None,
        content: None,
    }
}

fn deliver(db: &mut Database, url: &str, ids: &[&str]) {
    let items = ids.iter().map(|id| item_of(id)).collect();
    let results = vec![Ok(feed_of(url, "t", items))];
    let mut sender = RecorderSender::new();
    db.fetch_and_send_feeds(results, &mut sender, &FetchAndSendOptions::new())
        .unwrap();
}

fn sent_ids(db: &mut Database, url: &str, ids: &[&str]) -> Vec<String> {
    let items = ids.iter().map(|id| item_of(id)).collect();
    let results = vec![Ok(feed_of(url, "t", items))];
    let mut sender = RecorderSender::new();
    db.fetch_and_send_feeds(results, &mut sender, &FetchAndSendOptions::new())
        .unwrap();
    sender
        .recorded_items()
        .into_iter()
        .map(|(_, i)| i.id)
        .collect()
}

#[test]
fn creating_a_database_requires_it_to_not_exist() {
    let db = Database::create(false).unwrap();
    let contents = db.to_bytes().unwrap();
    assert!(!contents.is_empty());
    let e = Database::create(true).unwrap_err();
    assert_eq!(e.kind, ErrorKind::AlreadyExists);
}

#[test]
fn opening_a_database_requires_it_to_exist() {
    let e = Database::open(None).unwrap_err();
    assert_eq!(e.kind, ErrorKind::NotFound);
    let db = Database::create(false).unwrap();
    let contents = db.to_bytes().unwrap();
    Database::open(Some(&contents)).unwrap();
}

#[test]
fn adding_a_feed_requires_it_to_not_exist() {
    let mut db = Database::create(false).unwrap();
    db.add_feed("https://xkcd.com/rss.xml").unwrap();
    let e = db.add_feed("https://xkcd.com/rss.xml").unwrap_err();
    assert_eq!(e.kind, ErrorKind::AlreadyExists);
}

#[test]
fn removing_a_feed_requires_it_to_exist() {
    let mut db = Database::create(false).unwrap();
    let e = db.remove_feed("https://xkcd.com/rss.xml").unwrap_err();
    assert_eq!(e.kind, ErrorKind::NotFound);
    db.add_feed("https://xkcd.com/rss.xml").unwrap();
    db.remove_feed("https://xkcd.com/rss.xml").unwrap();
}

#[test]
fn adding_an_existing_feed_leaves_its_item_records_alone() {
    let mut db = Database::create(false).unwrap();
    db.add_feed("http://a").unwrap();
    assert_eq!(sent_ids(&mut db, "http://a", &["one", "two"]), ["one", "two"]);
    let e = db.add_feed("http://a").unwrap_err();
    assert_eq!(e.kind, ErrorKind::AlreadyExists);
    // The failed add left the item records in place: nothing is re-sent.
    assert_eq!(sent_ids(&mut db, "http://a", &["one", "two"]), Vec::<String>::new());
}

#[test]
fn removing_a_feed_purges_only_its_item_records() {
    let mut db = Database::create(false).unwrap();
    db.add_feed("http://a").unwrap();
    db.add_feed("http://b").unwrap();
    deliver(&mut db, "http://a", &["ia"]);
    deliver(&mut db, "http://b", &["ib"]);
    db.remove_feed("http://a").unwrap();
    // Re-adding the removed feed finds no stale records: its item is new
    // again; the other feed's record is untouched.
    db.add_feed("http://a").unwrap();
    assert_eq!(sent_ids(&mut db, "http://a", &["ia"]), ["ia"]);
    assert_eq!(sent_ids(&mut db, "http://b", &["ib"]), Vec::<String>::new());
}

#[test]
fn feed_urls_lists_feeds_in_key_order() {
    let mut db = Database::create(false).unwrap();
    db.add_feed("http://c").unwrap();
    db.add_feed("http://a").unwrap();
    db.add_feed("http://b").unwrap();
    assert_eq!(db.feed_urls(), ["http://a", "http://b", "http://c"]);
    assert!(db.contains_feed("http://a"));
    assert!(!db.contains_feed("http://d"));
}

#[test]
fn the_store_survives_a_commit_and_reopen() {
    let mut db = Database::create(false).unwrap();
    db.add_feed("http://a").unwrap();
    db.add_feed("http://b").unwrap();
    deliver(&mut db, "http://a", &["ia"]);
    let contents = db.to_bytes().unwrap();
    let mut db2 = Database::open(Some(&contents)).unwrap();
    assert_eq!(db2.feed_urls(), ["http://a", "http://b"]);
    // The delivered item is still recorded after the round trip.
    assert_eq!(sent_ids(&mut db2, "http://a", &["ia"]), Vec::<String>::new());
}

#[test]
fn opening_garbage_fails_with_decode_error() {
    let garbage = vec![1u8, 2, 3];
    let e = Database::open(Some(&garbage)).unwrap_err();
    assert_eq!(e.kind, ErrorKind::DecodeError);
}

#[test]
fn select_feeds_rejects_unknown_requests() {
    let mut db = Database::create(false).unwrap();
    db.add_feed("http://a").unwrap();
    let mut options = FetchAndSendOptions::new();
    options.with_feed_urls(vec!["http://a".to_string(), "http://nope".to_string()]);
    let e = db.select_feeds(&options).unwrap_err();
    assert_eq!(e.kind, ErrorKind::UnknownFeed);
}

#[test]
fn select_feeds_narrows_to_the_requested_set() {
    let mut db = Database::create(false).unwrap();
    db.add_feed("http://a").unwrap();
    db.add_feed("http://b").unwrap();
    let options = FetchAndSendOptions::new();
    assert_eq!(db.select_feeds(&options).unwrap(), ["http://a", "http://b"]);
    let mut narrowed = FetchAndSendOptions::new();
    narrowed.with_feed_urls(vec!["http://b".to_string()]);
    assert_eq!(db.select_feeds(&narrowed).unwrap(), ["http://b"]);
}
