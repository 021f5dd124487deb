use rss2email::feed::{escape_html, parse_syndication, str_eq, Feed, FeedItem, FeedMeta};
use rss2email::log::{LogKind, LogLevel, Logger};
use rss2email::pipeline::{worker_step, UrlPool, CHANNEL_CAPACITY, NUM_FETCHERS};

const RSS_SOURCE: &str = r#"<rss version="2.0">
<channel>
<title>alpha</title>
<link>http://bravo</link>
<description>charlie</description>
<item>
<title>delta</title>
<link>http://echo</link>
<description>foxtrot</description>
<guid>golf</guid>
</item>
</channel>
</rss>"#;

#[test]
fn feed_rss_content_is_in_description() {
    let got = parse_syndication("http://example.com", RSS_SOURCE).unwrap();
    let expected = Feed {
        meta: FeedMeta {
            feed_url: String::from("http://example.com"),
            title: String::from("alpha"),
        },
        items: vec![FeedItem {
            id: String::from("golf"),
            title: Some(String::from("delta")),
            link: Some(String::from("http://echo")),
            content: Some(String::from("foxtrot")),
        }],
    };
    assert_eq!(got, expected);
}

#[test]
fn model_rss_content_is_in_description() {
    // The same channel consumed through the worker's decision step.
    let got = worker_step("http://example.com", Ok(RSS_SOURCE.to_string()))
        .unwrap()
        .unwrap();
    assert_eq!(got.meta.title, "alpha");
    assert_eq!(got.items.len(), 1);
    assert_eq!(got.items[0].id, "golf");
    assert_eq!(got.items[0].content.as_deref(), Some("foxtrot"));
}

#[test]
fn an_rss_item_without_guid_falls_back_to_its_link() {
    let source = r#"<rss version="2.0">
<channel>
<title>t</title>
<link>http://l</link>
<description>d</description>
<item>
<title>one</title>
<link>http://one</link>
<description>x</description>
</item>
</channel>
</rss>"#;
    let got = parse_syndication("http://f", source).unwrap();
    assert_eq!(got.items[0].id, "http://one");
}

#[test]
fn an_rss_item_without_guid_or_link_fails_to_parse() {
    let source = r#"<rss version="2.0">
<channel>
<title>t</title>
<link>http://l</link>
<description>d</description>
<item>
<title>one</title>
<description>x</description>
</item>
</channel>
</rss>"#;
    let e = parse_syndication("http://f", source).unwrap_err();
    assert_eq!(e.kind, rss2email::ErrorKind::ParseError);
}

#[test]
fn an_atom_document_is_tried_after_rss() {
    let source = r#"<feed xmlns="http://www.w3.org/2005/Atom">
<title>atom title</title>
<id>urn:f</id>
<updated>2003-12-13T18:30:02Z</updated>
<entry>
<id>urn:e1</id>
<title>entry one</title>
<updated>2003-12-13T18:30:02Z</updated>
<link href="http://one"/>
<content type="html">&lt;b&gt;rich&lt;/b&gt;</content>
</entry>
<entry>
<id>urn:e2</id>
<title>entry two</title>
<updated>2003-12-13T18:30:02Z</updated>
<content>a&lt;b</content>
</entry>
</feed>"#;
    let got = parse_syndication("http://f", source).unwrap();
    assert_eq!(got.meta.title, "atom title");
    assert_eq!(got.items.len(), 2);
    assert_eq!(got.items[0].id, "urn:e1");
    assert_eq!(got.items[0].title.as_deref(), Some("entry one"));
    assert_eq!(got.items[0].link.as_deref(), Some("http://one"));
    // Markup content passes through unescaped.
    assert_eq!(got.items[0].content.as_deref(), Some("<b>rich</b>"));
    // Plain text content is escaped for inclusion in markup.
    assert_eq!(got.items[1].content.as_deref(), Some("a&lt;b"));
}

#[test]
fn an_unrecognized_body_fails_to_parse() {
    let e = parse_syndication("http://f", "not a feed at all").unwrap_err();
    assert_eq!(e.kind, rss2email::ErrorKind::ParseError);
}

#[test]
fn the_worker_reports_transport_failures_and_skips_parse_failures() {
    let r = worker_step("http://f", Err("boom".to_string()));
    assert_eq!(r, Some(Err("boom".to_string())));
    let r = worker_step("http://f", Ok("garbage".to_string()));
    assert!(r.is_none());
}

#[test]
fn escaping_replaces_markup_characters() {
    assert_eq!(escape_html(""), "");
    assert_eq!(escape_html("plain"), "plain");
    assert_eq!(escape_html("a<b>&\"'"), "a&lt;b&gt;&amp;&quot;&#x27;");
}

#[test]
fn string_comparison_goes_by_characters() {
    assert!(str_eq("html", "html"));
    assert!(!str_eq("html", "xhtml"));
    assert!(!str_eq("", "x"));
}

#[test]
fn the_url_pool_hands_urls_out_last_in_first_out() {
    let mut pool = UrlPool::new(vec!["a".to_string(), "b".to_string()]);
    assert!(!pool.is_empty());
    assert_eq!(pool.take(), Some("b".to_string()));
    assert_eq!(pool.take(), Some("a".to_string()));
    assert_eq!(pool.take(), None);
    assert!(pool.is_empty());
    assert_eq!(CHANNEL_CAPACITY, 2 * NUM_FETCHERS);
}

#[test]
fn the_logger_filters_by_level() {
    let logger = Logger::new(LogLevel::Normal);
    assert!(logger.should_log(LogLevel::Important));
    assert!(logger.should_log(LogLevel::Normal));
    assert!(!logger.should_log(LogLevel::Verbose));
    let quiet = Logger::new(LogLevel::Nothing);
    assert!(!quiet.should_log(LogLevel::Important));
    assert_eq!(Logger::prefix_for(LogKind::Error), "*** ");
    assert_eq!(Logger::prefix_for(LogKind::Warning), "!!! ");
    assert_eq!(Logger::prefix_for(LogKind::Info), "");
}
