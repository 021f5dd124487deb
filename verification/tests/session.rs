use rss2email::error::ErrorKind;
use rss2email::feed::{Feed, FeedItem, FeedMeta, RecorderSender, ScriptedSender};
use rss2email::model::{Database, FetchAndSendOptions};

fn feed_of(url: &str, title: &str, items: Vec<FeedItem>) -> Feed {
    Feed {
        meta: FeedMeta {
            feed_url: url.to_string(),
            title: title.to_string(),
        },
        items,
    }
}

fn item_of(id: &str) -> FeedItem {
    FeedItem {
        id: id.to_string(),
        title: None,
        link: None,
        content: None,
    }
}

fn example_results() -> Vec<Result<Feed, String>> {
    vec![Ok(feed_of(
        "http://example.com",
        "Example",
        vec![FeedItem {
            id: "id alpha".to_string(),
            title: Some("entry alpha".to_string()),
            link: Some("http://example.com/alpha".to_string()),
            content: Some("blah blah blah".to_string()),
        }],
    ))]
}

#[test]
fn only_new_feed_items_are_sent() {
    let mut db = Database::create(false).unwrap();
    db.add_feed("http://example.com").unwrap();

    let sender = {
        let mut sender = RecorderSender::new();
        db.fetch_and_send_feeds(example_results(), &mut sender, &FetchAndSendOptions::new())
            .unwrap();
        sender
    };
    let got_items = sender.recorded_items();
    assert_eq!(got_items.len(), 1);
    assert_eq!(got_items[0].0.feed_url, "http://example.com");
    assert_eq!(got_items[0].0.title, "Example");
    assert_eq!(got_items[0].1.id, "id alpha");
    assert_eq!(got_items[0].1.title.as_deref(), Some("entry alpha"));
    assert_eq!(got_items[0].1.link.as_deref(), Some("http://example.com/alpha"));
    assert_eq!(got_items[0].1.content.as_deref(), Some("blah blah blah"));

    let sender = {
        let mut sender = RecorderSender::new();
        db.fetch_and_send_feeds(example_results(), &mut sender, &FetchAndSendOptions::new())
            .unwrap();
        sender
    };
    assert_eq!(sender.recorded_items(), vec![]);
}

#[test]
fn a_send_failure_stops_the_session_but_keeps_earlier_work() {
    let mut db = Database::create(false).unwrap();
    db.add_feed("http://a").unwrap();
    let results = || {
        vec![Ok(feed_of(
            "http://a",
            "t",
            vec![item_of("one"), item_of("two"), item_of("three")],
        ))]
    };

    // The sender fails on the second of the three new items.
    let mut sender = ScriptedSender::new(vec![true, false]);
    db.fetch_and_send_feeds(results(), &mut sender, &FetchAndSendOptions::new())
        .unwrap();
    let delivered = sender.delivered_items();
    assert_eq!(delivered.len(), 1);
    assert_eq!(delivered[0].1.id, "one");

    // Exactly the first item was recorded: the next session delivers the
    // second and third, and never the first again.
    let mut sender = RecorderSender::new();
    db.fetch_and_send_feeds(results(), &mut sender, &FetchAndSendOptions::new())
        .unwrap();
    let ids: Vec<String> = sender.recorded_items().into_iter().map(|(_, i)| i.id).collect();
    assert_eq!(ids, ["two", "three"]);
}

#[test]
fn a_transport_error_skips_its_feed_and_the_session_continues() {
    let mut db = Database::create(false).unwrap();
    db.add_feed("http://a").unwrap();
    db.add_feed("http://b").unwrap();
    let results = vec![
        Err("transport failure".to_string()),
        Ok(feed_of("http://b", "t", vec![item_of("ib")])),
    ];
    let mut sender = RecorderSender::new();
    db.fetch_and_send_feeds(results, &mut sender, &FetchAndSendOptions::new())
        .unwrap();
    let ids: Vec<String> = sender.recorded_items().into_iter().map(|(_, i)| i.id).collect();
    assert_eq!(ids, ["ib"]);
}

#[test]
fn a_result_for_an_unknown_feed_fails_the_session() {
    let mut db = Database::create(false).unwrap();
    db.add_feed("http://a").unwrap();
    let results = vec![Ok(feed_of("http://stranger", "t", vec![item_of("x")]))];
    let mut sender = RecorderSender::new();
    let e = db
        .fetch_and_send_feeds(results, &mut sender, &FetchAndSendOptions::new())
        .unwrap_err();
    assert_eq!(e.kind, ErrorKind::UnknownFeed);
}

#[test]
fn no_send_records_items_without_delivering() {
    let mut db = Database::create(false).unwrap();
    db.add_feed("http://a").unwrap();
    let results = || vec![Ok(feed_of("http://a", "t", vec![item_of("one")]))];

    let mut options = FetchAndSendOptions::new();
    options.with_no_send(true);
    let mut sender = RecorderSender::new();
    db.fetch_and_send_feeds(results(), &mut sender, &options).unwrap();
    assert_eq!(sender.recorded_items(), vec![]);

    // The item was recorded as if sent: a normal session delivers nothing.
    let mut sender = RecorderSender::new();
    db.fetch_and_send_feeds(results(), &mut sender, &FetchAndSendOptions::new())
        .unwrap();
    assert_eq!(sender.recorded_items(), vec![]);
}

#[test]
fn a_reappearing_item_is_never_resent_within_one_session() {
    let mut db = Database::create(false).unwrap();
    db.add_feed("http://a").unwrap();
    // The same id twice in one parsed feed: the second occurrence finds the
    // record the first one wrote.
    let results = vec![Ok(feed_of(
        "http://a",
        "t",
        vec![item_of("dup"), item_of("dup")],
    ))];
    let mut sender = RecorderSender::new();
    db.fetch_and_send_feeds(results, &mut sender, &FetchAndSendOptions::new())
        .unwrap();
    assert_eq!(sender.recorded_items().len(), 1);
}

#[test]
fn should_fetch_narrows_by_url() {
    let mut options = FetchAndSendOptions::new();
    assert!(options.should_fetch("http://anything"));
    options.with_feed_urls(vec!["http://a".to_string()]);
    assert!(options.should_fetch("http://a"));
    assert!(!options.should_fetch("http://b"));
}
