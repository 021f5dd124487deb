//! Parsed feeds and their items, the mapping from the two syndication
//! formats onto them, and the sender boundary through which items leave.

use vstd::prelude::*;
use vstd::string::StringExecFns;
use core::str::FromStr;
use crate::error::{Error, ErrorKind};

verus! {

/// One fetched and parsed feed.
#[derive(Debug, PartialEq)]
pub struct Feed {
    pub meta: FeedMeta,
    pub items: Vec<FeedItem>,
}

/// What identifies a feed to the sender: its URL (the same one the store
/// tracks) and its current title.
#[derive(Debug, PartialEq)]
pub struct FeedMeta {
    pub feed_url: String,
    pub title: String,
}

/// One entry of a parsed feed; the id is derived from its guid or link.
#[derive(Debug, PartialEq)]
pub struct FeedItem {
    pub id: String,
    pub title: Option<String>,
    pub link: Option<String>,
    pub content: Option<String>,
}

/// Copies a feed item field by field; the copy equals the original.
pub fn clone_feed_item(i: &FeedItem) -> (r: FeedItem)
    ensures
        r == *i,
{
    FeedItem {
        id: i.id.clone(),
        title: clone_opt_string(&i.title),
        link: clone_opt_string(&i.link),
        content: clone_opt_string(&i.content),
    }
}

/// Copies feed metadata field by field; the copy equals the original.
pub fn clone_feed_meta(m: &FeedMeta) -> (r: FeedMeta)
    ensures
        r == *m,
{
    FeedMeta { feed_url: m.feed_url.clone(), title: m.title.clone() }
}

fn clone_opt_string(s: &Option<String>) -> (r: Option<String>)
    ensures
        r == *s,
{
    match s {
        Some(x) => Some(x.clone()),
        None => None,
    }
}

// ---------------------------------------------------------------------------
// HTML escaping
// ---------------------------------------------------------------------------

/// The escaped form of one character.
pub open spec fn spec_escape_char(c: char) -> Seq<char> {
    if c == '&' {
        "&amp;"@
    } else if c == '<' {
        "&lt;"@
    } else if c == '>' {
        "&gt;"@
    } else if c == '"' {
        "&quot;"@
    } else if c == '\'' {
        "&#x27;"@
    } else {
        seq![c]
    }
}

/// The HTML-escaped form of a string.
pub open spec fn spec_escape_html(s: Seq<char>) -> Seq<char>
    decreases s.len(),
{
    if s.len() == 0 {
        Seq::<char>::empty()
    } else {
        spec_escape_html(s.drop_last()) + spec_escape_char(s.last())
    }
}

/// Relies on `str::chars`: it yields exactly the characters of the string.
#[verifier::external_body]
fn str_chars(s: &str) -> (r: Vec<char>)
    ensures
        r@ == s@,
{
    s.chars().collect()
}

/// Relies on `String`'s `FromIterator<char>`: collecting characters forms
/// the string of exactly those characters.
#[verifier::external_body]
fn chars_to_string(v: &Vec<char>) -> (r: String)
    ensures
        r@ == v@,
{
    v.iter().collect()
}

/// Escapes text for inclusion in HTML markup.
pub fn escape_html(s: &str) -> (r: String)
    ensures
        r@ == spec_escape_html(s@),
{
    let chars = str_chars(s);
    let n = chars.len();
    let mut out: Vec<char> = Vec::new();
    let mut i: usize = 0;
    while i < n
        invariant
            i <= n,
            n == chars@.len(),
            chars@ == s@,
            out@ == spec_escape_html(s@.take(i as int)),
        decreases n - i,
    {
        let c = chars[i];
        if c == '&' {
            push_entity(&mut out, 0);
        } else if c == '<' {
            push_entity(&mut out, 1);
        } else if c == '>' {
            push_entity(&mut out, 2);
        } else if c == '"' {
            push_entity(&mut out, 3);
        } else if c == '\'' {
            push_entity(&mut out, 4);
        } else {
            out.push(c);
        }
        proof {
            assert(s@.take(i + 1).drop_last() =~= s@.take(i as int));
            assert(s@.take(i + 1).last() == s@[i as int]);
            assert(out@ =~= spec_escape_html(s@.take(i as int)) + spec_escape_char(s@[i as int]));
        }
        i = i + 1;
    }
    proof {
        assert(s@.take(n as int) =~= s@);
    }
    chars_to_string(&out)
}

/// Pushes the `sel`-th escape sequence onto the output.
fn push_entity(out: &mut Vec<char>, sel: u8)
    requires
        sel < 5,
    ensures
        sel == 0 ==> final(out)@ == old(out)@ + "&amp;"@,
        sel == 1 ==> final(out)@ == old(out)@ + "&lt;"@,
        sel == 2 ==> final(out)@ == old(out)@ + "&gt;"@,
        sel == 3 ==> final(out)@ == old(out)@ + "&quot;"@,
        sel == 4 ==> final(out)@ == old(out)@ + "&#x27;"@,
{
    proof {
        reveal_strlit("&amp;");
        reveal_strlit("&lt;");
        reveal_strlit("&gt;");
        reveal_strlit("&quot;");
        reveal_strlit("&#x27;");
    }
    out.push('&');
    if sel == 0 {
        out.push('a');
        out.push('m');
        out.push('p');
    } else if sel == 1 {
        out.push('l');
        out.push('t');
    } else if sel == 2 {
        out.push('g');
        out.push('t');
    } else if sel == 3 {
        out.push('q');
        out.push('u');
        out.push('o');
        out.push('t');
    } else {
        out.push('#');
        out.push('x');
        out.push('2');
        out.push('7');
    }
    out.push(';');
    proof {
        if sel == 0 {
            assert(out@ =~= old(out)@ + "&amp;"@);
        } else if sel == 1 {
            assert(out@ =~= old(out)@ + "&lt;"@);
        } else if sel == 2 {
            assert(out@ =~= old(out)@ + "&gt;"@);
        } else if sel == 3 {
            assert(out@ =~= old(out)@ + "&quot;"@);
        } else {
            assert(out@ =~= old(out)@ + "&#x27;"@);
        }
    }
}

// ---------------------------------------------------------------------------
// Parsing the two syndication formats
// ---------------------------------------------------------------------------

/// Abstract value of a parsed feed item.
pub ghost struct FeedItemV {
    pub id: Seq<char>,
    pub title: Option<Seq<char>>,
    pub link: Option<Seq<char>>,
    pub content: Option<Seq<char>>,
}

/// Abstract value of feed metadata.
pub ghost struct FeedMetaV {
    pub feed_url: Seq<char>,
    pub title: Seq<char>,
}

/// Abstract value of a parsed feed.
pub ghost struct FeedV {
    pub meta: FeedMetaV,
    pub items: Seq<FeedItemV>,
}

pub open spec fn view_opt_string(s: Option<String>) -> Option<Seq<char>> {
    match s {
        Some(x) => Some(x@),
        None => None,
    }
}

impl View for FeedItem {
    type V = FeedItemV;

    open spec fn view(&self) -> FeedItemV {
        FeedItemV {
            id: self.id@,
            title: view_opt_string(self.title),
            link: view_opt_string(self.link),
            content: view_opt_string(self.content),
        }
    }
}

impl View for FeedMeta {
    type V = FeedMetaV;

    open spec fn view(&self) -> FeedMetaV {
        FeedMetaV { feed_url: self.feed_url@, title: self.title@ }
    }
}

impl View for Feed {
    type V = FeedV;

    open spec fn view(&self) -> FeedV {
        FeedV {
            meta: self.meta@,
            items: self.items@.map_values(|i: FeedItem| i@),
        }
    }
}

/// What one channel item of the older format carries.
#[derive(Debug)]
pub struct RssItemData {
    pub guid: Option<String>,
    pub title: Option<String>,
    pub link: Option<String>,
    pub description: Option<String>,
    pub content: Option<String>,
}

/// What a parsed channel of the older format carries.
#[derive(Debug)]
pub struct RssChannelData {
    pub title: String,
    pub items: Vec<RssItemData>,
}

pub ghost struct RssItemV {
    pub guid: Option<Seq<char>>,
    pub title: Option<Seq<char>>,
    pub link: Option<Seq<char>>,
    pub description: Option<Seq<char>>,
    pub content: Option<Seq<char>>,
}

pub ghost struct RssChannelV {
    pub title: Seq<char>,
    pub items: Seq<RssItemV>,
}

impl View for RssItemData {
    type V = RssItemV;

    open spec fn view(&self) -> RssItemV {
        RssItemV {
            guid: view_opt_string(self.guid),
            title: view_opt_string(self.title),
            link: view_opt_string(self.link),
            description: view_opt_string(self.description),
            content: view_opt_string(self.content),
        }
    }
}

impl View for RssChannelData {
    type V = RssChannelV;

    open spec fn view(&self) -> RssChannelV {
        RssChannelV { title: self.title@, items: self.items@.map_values(|i: RssItemData| i@) }
    }
}

/// What one entry of the newer format carries.
#[derive(Debug)]
pub struct AtomEntryData {
    pub id: String,
    pub title: String,
    pub link: Option<String>,
    pub content_value: Option<String>,
    pub content_type: Option<String>,
}

/// What a parsed document of the newer format carries.
#[derive(Debug)]
pub struct AtomFeedData {
    pub title: String,
    pub entries: Vec<AtomEntryData>,
}

pub ghost struct AtomEntryV {
    pub id: Seq<char>,
    pub title: Seq<char>,
    pub link: Option<Seq<char>>,
    pub content_value: Option<Seq<char>>,
    pub content_type: Option<Seq<char>>,
}

pub ghost struct AtomFeedV {
    pub title: Seq<char>,
    pub entries: Seq<AtomEntryV>,
}

impl View for AtomEntryData {
    type V = AtomEntryV;

    open spec fn view(&self) -> AtomEntryV {
        AtomEntryV {
            id: self.id@,
            title: self.title@,
            link: view_opt_string(self.link),
            content_value: view_opt_string(self.content_value),
            content_type: view_opt_string(self.content_type),
        }
    }
}

impl View for AtomFeedData {
    type V = AtomFeedV;

    open spec fn view(&self) -> AtomFeedV {
        AtomFeedV { title: self.title@, entries: self.entries@.map_values(|e: AtomEntryData| e@) }
    }
}

/// What the RSS parser yields for a body, if it recognizes it; a function of
/// the body alone.
pub uninterp spec fn rss_parse_of(body: Seq<char>) -> Option<RssChannelV>;

/// What the Atom parser yields for a body, if it recognizes it; a function
/// of the body alone.
pub uninterp spec fn atom_parse_of(body: Seq<char>) -> Option<AtomFeedV>;

/// Relies on `rss::Channel::read_from`: parses an RSS document, or fails;
/// the result is a function of the body alone.  The channel's title and each
/// item's guid, title, link, description and content are carried over.
#[verifier::external_body]
fn parse_rss(body: &str) -> (r: Option<RssChannelData>)
    ensures
        r matches Some(d) ==> rss_parse_of(body@) == Some(d@),
        r is None ==> rss_parse_of(body@) is None,
{
    match rss::Channel::read_from(std::io::Cursor::new(body.as_bytes())) {
        Err(_) => None,
        Ok(c) => Some(RssChannelData {
            title: c.title().to_string(),
            items: c.items().iter().map(|i| RssItemData {
                guid: i.guid().map(|g| g.value().to_string()),
                title: i.title().map(str::to_string),
                link: i.link().map(str::to_string),
                description: i.description().map(str::to_string),
                content: i.content().map(str::to_string),
            }).collect(),
        }),
    }
}

/// Relies on `atom_syndication::Feed::from_str`: parses an Atom document, or
/// fails; the result is a function of the body alone.  The feed's title and
/// each entry's id, title, first link and content are carried over.
#[verifier::external_body]
fn parse_atom(body: &str) -> (r: Option<AtomFeedData>)
    ensures
        r matches Some(d) ==> atom_parse_of(body@) == Some(d@),
        r is None ==> atom_parse_of(body@) is None,
{
    match atom_syndication::Feed::from_str(body) {
        Err(_) => None,
        Ok(f) => Some(AtomFeedData {
            title: f.title().value.clone(),
            entries: f.entries().iter().map(|e| AtomEntryData {
                id: e.id().to_string(),
                title: e.title().value.clone(),
                link: e.links().first().map(|l| l.href().to_string()),
                content_value: e.content().and_then(|c| c.value()).map(str::to_string),
                content_type: e.content().and_then(|c| c.content_type()).map(str::to_string),
            }).collect(),
        }),
    }
}

/// The item id an RSS item gets: its guid, or failing that its link.
pub open spec fn spec_rss_item_id(i: RssItemV) -> Option<Seq<char>> {
    match i.guid {
        Some(g) => Some(g),
        None => i.link,
    }
}

/// The feed items an RSS channel yields, or nothing when some item has
/// neither guid nor link.
pub open spec fn spec_rss_items(items: Seq<RssItemV>) -> Option<Seq<FeedItemV>>
    decreases items.len(),
{
    if items.len() == 0 {
        Some(Seq::<FeedItemV>::empty())
    } else {
        match spec_rss_item_id(items[0]) {
            None => None,
            Some(id) => {
                let head = FeedItemV {
                    id: id,
                    title: items[0].title,
                    link: items[0].link,
                    content: match items[0].content {
                        Some(c) => Some(c),
                        None => items[0].description,
                    },
                };
                match spec_rss_items(items.drop_first()) {
                    None => None,
                    Some(rest) => Some(seq![head] + rest),
                }
            },
        }
    }
}

/// The content an Atom entry yields: markup is passed through, anything else
/// is escaped.
pub open spec fn spec_atom_content(e: AtomEntryV) -> Option<Seq<char>> {
    match e.content_value {
        None => None,
        Some(v) => {
            if e.content_type == Some("html"@) || e.content_type == Some("xhtml"@) {
                Some(v)
            } else {
                Some(spec_escape_html(v))
            }
        },
    }
}

/// The feed items an Atom document yields.
pub open spec fn spec_atom_items(entries: Seq<AtomEntryV>) -> Seq<FeedItemV> {
    entries.map_values(
        |e: AtomEntryV| FeedItemV {
            id: e.id,
            title: Some(e.title),
            link: e.link,
            content: spec_atom_content(e),
        },
    )
}

/// Builds the feed an RSS channel describes, deriving each item's id from
/// its guid or link and taking its content from the content field or,
/// failing that, the description.
pub fn feed_from_rss(feed_url: &str, d: RssChannelData) -> (r: Result<Feed, Error>)
    ensures
        spec_rss_items(d@.items) matches Some(its) ==> (r matches Ok(f) && f@ == (FeedV {
            meta: FeedMetaV { feed_url: feed_url@, title: d@.title },
            items: its,
        })),
        spec_rss_items(d@.items) is None ==> (r matches Err(e) && e.kind == ErrorKind::ParseError),
    decreases d.items@.len(),
{
    let RssChannelData { title, items } = d;
    let mut out: Vec<FeedItem> = Vec::new();
    let n = items.len();
    let mut i: usize = 0;
    let ghost all = items@.map_values(|it: RssItemData| it@);
    proof {
        assert(all == d@.items);
    }
    while i < n
        invariant
            i <= n,
            n == items@.len(),
            all == items@.map_values(|it: RssItemData| it@),
            all == d@.items,
            forall|j: int| 0 <= j < i ==> spec_rss_item_id(#[trigger] all[j]) is Some,
            spec_rss_items(all.take(i as int)) matches Some(its) && its == out@.map_values(
                |it: FeedItem| it@,
            ),
        decreases n - i,
    {
        let item = items_take(&items, i);
        let id = match item_id_of(&item) {
            Some(id) => id,
            None => {
                proof {
                    assert(all[i as int] == items@[i as int]@);
                    assert(spec_rss_item_id(all[i as int]) is None);
                    lemma_rss_items_fails(all, i as int);
                    assert(all == d@.items);
                }
                return Err(
                    Error::new(
                        ErrorKind::ParseError,
                        "Cannot determine unique identifier for RSS item",
                    ).into_error(),
                );
            },
        };
        let content = match &item.content {
            Some(c) => Some(c.clone()),
            None => clone_opt_string(&item.description),
        };
        out.push(
            FeedItem {
                id,
                title: clone_opt_string(&item.title),
                link: clone_opt_string(&item.link),
                content,
            },
        );
        proof {
            lemma_rss_items_step(all, i as int);
            assert(out@.map_values(|it: FeedItem| it@) =~= out@.drop_last().map_values(
                |it: FeedItem| it@,
            ).push(out@.last()@));
            assert(spec_rss_items(all.take(i + 1))->0 =~= spec_rss_items(all.take(i as int))->0
                + seq![out@.last()@]);
        }
        i = i + 1;
    }
    proof {
        assert(all.take(n as int) =~= all);
    }
    Ok(Feed { meta: FeedMeta { feed_url: feed_url.to_owned(), title }, items: out })
}

/// Reads one item out of the list by position.
fn items_take(items: &Vec<RssItemData>, i: usize) -> (r: &RssItemData)
    requires
        i < items@.len(),
    ensures
        *r == items@[i as int],
{
    vstd::std_specs::vec::vec_index(items, i)
}

/// The id for one RSS item: its guid, or failing that its link.
fn item_id_of(item: &RssItemData) -> (r: Option<String>)
    ensures
        view_opt_string(r) == spec_rss_item_id(item@),
{
    match &item.guid {
        Some(g) => Some(g.clone()),
        None => clone_opt_string(&item.link),
    }
}

/// Appending one well-identified item extends the yielded sequence by one.
proof fn lemma_rss_items_step(all: Seq<RssItemV>, i: int)
    requires
        0 <= i < all.len(),
        spec_rss_items(all.take(i)) is Some,
        spec_rss_item_id(all[i]) is Some,
    ensures
        spec_rss_items(all.take(i + 1)) matches Some(its) && its == spec_rss_items(all.take(i))->0
            + seq![
            FeedItemV {
                id: spec_rss_item_id(all[i])->0,
                title: all[i].title,
                link: all[i].link,
                content: match all[i].content {
                    Some(c) => Some(c),
                    None => all[i].description,
                },
            },
        ],
    decreases i + 1,
{
    if i == 0 {
        assert(all.take(1).len() == 1 && all.take(1)[0] == all[0]);
        assert(all.take(1).drop_first() =~= all.take(0));
        assert(spec_rss_items(all.take(0)) == Some(Seq::<FeedItemV>::empty()));
        assert(spec_rss_items(all.take(1))->0 =~= spec_rss_items(all.take(0))->0 + seq![
            FeedItemV {
                id: spec_rss_item_id(all[0])->0,
                title: all[0].title,
                link: all[0].link,
                content: match all[0].content {
                    Some(c) => Some(c),
                    None => all[0].description,
                },
            },
        ]);
    } else {
        assert(all.take(i + 1)[0] == all[0]);
        assert(all.take(i)[0] == all[0]);
        assert(all.take(i + 1).drop_first() =~= all.drop_first().take(i));
        assert(all.take(i).drop_first() =~= all.drop_first().take(i - 1));
        assert(all.drop_first().take(i)[i - 1] == all[i]);
        lemma_rss_items_step(all.drop_first(), i - 1);
        assert(all.drop_first().take(i - 1) =~= all.take(i).drop_first());
        assert(spec_rss_items(all.take(i + 1))->0 =~= spec_rss_items(all.take(i))->0 + seq![
            FeedItemV {
                id: spec_rss_item_id(all[i])->0,
                title: all[i].title,
                link: all[i].link,
                content: match all[i].content {
                    Some(c) => Some(c),
                    None => all[i].description,
                },
            },
        ]);
    }
}

/// An item without guid or link makes the whole channel fail.
proof fn lemma_rss_items_fails(all: Seq<RssItemV>, i: int)
    requires
        0 <= i < all.len(),
        spec_rss_item_id(all[i]) is None,
    ensures
        spec_rss_items(all) is None,
    decreases all.len(),
{
    if i == 0 {
    } else {
        assert(all.drop_first()[i - 1] == all[i]);
        lemma_rss_items_fails(all.drop_first(), i - 1);
    }
}

/// Builds the feed an Atom document describes.
pub fn feed_from_atom(feed_url: &str, d: AtomFeedData) -> (r: Feed)
    ensures
        r@ == (FeedV {
            meta: FeedMetaV { feed_url: feed_url@, title: d@.title },
            items: spec_atom_items(d@.entries),
        }),
{
    let AtomFeedData { title, entries } = d;
    let mut out: Vec<FeedItem> = Vec::new();
    let n = entries.len();
    let mut i: usize = 0;
    let ghost all = entries@.map_values(|e: AtomEntryData| e@);
    while i < n
        invariant
            i <= n,
            n == entries@.len(),
            all == entries@.map_values(|e: AtomEntryData| e@),
            out@.map_values(|it: FeedItem| it@) == spec_atom_items(all.take(i as int)),
        decreases n - i,
    {
        let e = vstd::std_specs::vec::vec_index(&entries, i);
        let content: Option<String> = match &e.content_value {
            None => None,
            Some(v) => {
                let markup = match &e.content_type {
                    Some(t) => {
                        proof {
                            reveal_strlit("html");
                            reveal_strlit("xhtml");
                        }
                        str_eq(t.as_str(), "html") || str_eq(t.as_str(), "xhtml")
                    },
                    None => false,
                };
                if markup {
                    Some(v.clone())
                } else {
                    Some(escape_html(v.as_str()))
                }
            },
        };
        out.push(
            FeedItem {
                id: e.id.clone(),
                title: Some(e.title.clone()),
                link: clone_opt_string(&e.link),
                content,
            },
        );
        proof {
            assert(out@.map_values(|it: FeedItem| it@) =~= out@.drop_last().map_values(
                |it: FeedItem| it@,
            ).push(out@.last()@));
            assert(out@.last()@ == spec_atom_items(all.take(i + 1)).last());
            assert(spec_atom_items(all.take(i + 1)) =~= spec_atom_items(all.take(i as int)).push(
                spec_atom_items(all.take(i + 1)).last(),
            ));
        }
        i = i + 1;
    }
    proof {
        assert(all.take(n as int) =~= all);
    }
    Feed { meta: FeedMeta { feed_url: feed_url.to_owned(), title }, items: out }
}

/// Parses a feed body: first as RSS, then as Atom; fails with a parse error
/// when neither format recognizes it, or when an RSS item has no derivable
/// id.
pub fn parse_syndication(feed_url: &str, body: &str) -> (r: Result<Feed, Error>)
    ensures
        rss_parse_of(body@) matches Some(d) ==> {
            &&& spec_rss_items(d.items) matches Some(its) ==> (r matches Ok(f) && f@ == (FeedV {
                meta: FeedMetaV { feed_url: feed_url@, title: d.title },
                items: its,
            }))
            &&& spec_rss_items(d.items) is None ==> (r matches Err(e) && e.kind
                == ErrorKind::ParseError)
        },
        (rss_parse_of(body@) is None && atom_parse_of(body@) is Some) ==> (r matches Ok(f)
            && f@ == (FeedV {
            meta: FeedMetaV { feed_url: feed_url@, title: (atom_parse_of(body@)->0).title },
            items: spec_atom_items((atom_parse_of(body@)->0).entries),
        })),
        rss_parse_of(body@) is None && atom_parse_of(body@) is None ==> (r matches Err(e)
            && e.kind == ErrorKind::ParseError),
{
    match parse_rss(body) {
        Some(d) => feed_from_rss(feed_url, d),
        None => {
            match parse_atom(body) {
                Some(a) => Ok(feed_from_atom(feed_url, a)),
                None => Err(
                    Error::new(ErrorKind::ParseError, "Failed to parse feed").into_error(),
                ),
            }
        },
    }
}

// ---------------------------------------------------------------------------
// The sender boundary
// ---------------------------------------------------------------------------

/// Delivers one item somewhere; implementations decide the transport.  The
/// two ghost logs record what was attempted and what was delivered, so that
/// callers can account for every item handed over.
pub trait Sender {
    /// Every item successfully delivered so far, in order.  An
    /// implementation with observable state overrides this; the default
    /// says nothing was, which no delivering implementation can satisfy.
    open spec fn sent(&self) -> Seq<(FeedMeta, FeedItem)> {
        Seq::empty()
    }

    /// Every delivery attempt so far, successful or not, in order.
    open spec fn attempted(&self) -> Seq<(FeedMeta, FeedItem)> {
        Seq::empty()
    }

    /// Delivers one item: an attempt is always recorded, a success exactly
    /// when the result says so.
    fn send(&mut self, feed_meta: &FeedMeta, feed_item: &FeedItem) -> (r: Result<(), Error>)
        ensures
            final(self).attempted() == old(self).attempted().push((*feed_meta, *feed_item)),
            r is Ok ==> final(self).sent() == old(self).sent().push((*feed_meta, *feed_item)),
            r is Err ==> final(self).sent() == old(self).sent(),
    ;
}

/// A sender that delivers nowhere and records everything; every send
/// succeeds.
pub struct RecorderSender {
    pub recorded: Vec<(FeedMeta, FeedItem)>,
}

impl RecorderSender {
    pub fn new() -> (r: Self)
        ensures
            r.recorded@ == Seq::<(FeedMeta, FeedItem)>::empty(),
    {
        RecorderSender { recorded: Vec::new() }
    }

    /// Hands the recorded items out.
    pub fn recorded_items(self) -> (r: Vec<(FeedMeta, FeedItem)>)
        ensures
            r@ == self.recorded@,
    {
        self.recorded
    }
}

impl Sender for RecorderSender {
    open spec fn sent(&self) -> Seq<(FeedMeta, FeedItem)> {
        self.recorded@
    }

    open spec fn attempted(&self) -> Seq<(FeedMeta, FeedItem)> {
        self.recorded@
    }

    fn send(&mut self, feed_meta: &FeedMeta, feed_item: &FeedItem) -> (r: Result<(), Error>) {
        self.recorded.push((clone_feed_meta(feed_meta), clone_feed_item(feed_item)));
        Ok(())
    }
}

/// A sender that follows a script: its `k`-th attempt succeeds exactly when
/// the `k`-th entry of the script is true (and fails once the script runs
/// out), recording what it delivered.
pub struct ScriptedSender {
    pub script: Vec<bool>,
    pub delivered: Vec<(FeedMeta, FeedItem)>,
    pub attempts: Vec<(FeedMeta, FeedItem)>,
}

impl ScriptedSender {
    pub fn new(script: Vec<bool>) -> (r: Self)
        ensures
            r.script == script,
            r.delivered@ == Seq::<(FeedMeta, FeedItem)>::empty(),
            r.attempts@ == Seq::<(FeedMeta, FeedItem)>::empty(),
    {
        ScriptedSender { script, delivered: Vec::new(), attempts: Vec::new() }
    }

    /// Hands the delivered items out.
    pub fn delivered_items(self) -> (r: Vec<(FeedMeta, FeedItem)>)
        ensures
            r@ == self.delivered@,
    {
        self.delivered
    }
}

impl Sender for ScriptedSender {
    open spec fn sent(&self) -> Seq<(FeedMeta, FeedItem)> {
        self.delivered@
    }

    open spec fn attempted(&self) -> Seq<(FeedMeta, FeedItem)> {
        self.attempts@
    }

    fn send(&mut self, feed_meta: &FeedMeta, feed_item: &FeedItem) -> (r: Result<(), Error>) {
        let k = self.attempts.len();
        self.attempts.push((clone_feed_meta(feed_meta), clone_feed_item(feed_item)));
        let ok = k < self.script.len() && *vstd::std_specs::vec::vec_index(&self.script, k);
        if ok {
            self.delivered.push((clone_feed_meta(feed_meta), clone_feed_item(feed_item)));
            Ok(())
        } else {
            Err(Error::new(ErrorKind::SendError, "Scripted delivery failure").into_error())
        }
    }
}

/// Compares two strings by their characters.
pub fn str_eq(a: &str, b: &str) -> (r: bool)
    ensures
        r == (a@ == b@),
{
    let ab = a.as_bytes();
    let bb = b.as_bytes();
    if ab.len() != bb.len() {
        return false;
    }
    let n = ab.len();
    let mut i: usize = 0;
    while i < n
        invariant
            i <= n,
            n == ab@.len() == bb@.len(),
            ab@ == vstd::utf8::encode_utf8(a@),
            bb@ == vstd::utf8::encode_utf8(b@),
            forall|j: int| 0 <= j < i ==> ab@[j] == bb@[j],
        decreases n - i,
    {
        if *vstd::slice::slice_index_get(ab, i) != *vstd::slice::slice_index_get(bb, i) {
            return false;
        }
        i = i + 1;
    }
    proof {
        assert(ab@ =~= bb@);
        vstd::utf8::encode_utf8_decode_utf8(a@);
        vstd::utf8::encode_utf8_decode_utf8(b@);
    }
    true
}

} // verus!
