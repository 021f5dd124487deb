//! The decisions of the concurrent fetch pipeline: the shared pool the
//! workers draw URLs from, the configuration constants, and what a worker
//! does with each fetch outcome.  The threads, the bounded channel and the
//! network calls themselves live with the embedding program.

use vstd::prelude::*;
use crate::feed::{Feed, FeedV, FeedMetaV, rss_parse_of, atom_parse_of, spec_rss_items,
    spec_atom_items, parse_syndication};

verus! {

/// How many worker threads fetch concurrently.
pub const NUM_FETCHERS: usize = 32;

/// Capacity of the bounded result channel: a full channel stalls producers
/// until the consumer catches up.
pub const CHANNEL_CAPACITY: usize = 2 * NUM_FETCHERS;

/// Per-request network timeout, in seconds.
pub const FETCH_TIMEOUT_SECS: u64 = 60;

/// The mutex-guarded pool of feed URLs still to fetch; each worker
/// repeatedly takes one until the pool is empty.
pub struct UrlPool {
    pub urls: Vec<String>,
}

impl UrlPool {
    pub fn new(urls: Vec<String>) -> (r: Self)
        ensures
            r.urls == urls,
    {
        UrlPool { urls }
    }

    /// Takes one URL, last in first out; the take order across workers is
    /// unspecified anyway.
    pub fn take(&mut self) -> (r: Option<String>)
        ensures
            old(self).urls@.len() == 0 ==> r is None && final(self).urls@ == old(self).urls@,
            old(self).urls@.len() > 0 ==> {
                &&& r == Some(old(self).urls@.last())
                &&& final(self).urls@ == old(self).urls@.drop_last()
            },
    {
        let r = self.urls.pop();
        proof {
            if old(self).urls@.len() > 0 {
                assert(self.urls@ =~= old(self).urls@.drop_last());
            }
        }
        r
    }

    pub fn is_empty(&self) -> (r: bool)
        ensures
            r == (self.urls@.len() == 0),
    {
        self.urls.is_empty()
    }
}

/// What a worker does once its network call for `feed_url` came back: a
/// transport failure is reported onto the channel; a body is parsed, a parse
/// failure skips the feed, and a parsed feed is reported.  The caller pushes
/// whatever is returned and exits if the channel is closed.
pub fn worker_step(feed_url: &str, fetch_result: Result<String, String>) -> (r: Option<
    Result<Feed, String>,
>)
    ensures
        fetch_result matches Err(m) ==> r == Some(Err::<Feed, String>(m)),
        fetch_result matches Ok(body) ==> {
            &&& (rss_parse_of(body@) is None && atom_parse_of(body@) is None) ==> r is None
            &&& (rss_parse_of(body@) is Some && spec_rss_items(
                (rss_parse_of(body@)->0).items,
            ) is None) ==> r is None
            &&& (rss_parse_of(body@) is Some && spec_rss_items(
                (rss_parse_of(body@)->0).items,
            ) is Some) ==> (r matches Some(x) && x matches Ok(f) && f@ == (FeedV {
                meta: FeedMetaV { feed_url: feed_url@, title: (rss_parse_of(body@)->0).title },
                items: spec_rss_items((rss_parse_of(body@)->0).items)->0,
            }))
            &&& (rss_parse_of(body@) is None && atom_parse_of(body@) is Some) ==> (r matches Some(
                x,
            ) && x matches Ok(f) && f@ == (FeedV {
                meta: FeedMetaV {
                    feed_url: feed_url@,
                    title: (atom_parse_of(body@)->0).title,
                },
                items: spec_atom_items((atom_parse_of(body@)->0).entries),
            }))
        },
{
    match fetch_result {
        Err(m) => Some(Err(m)),
        Ok(body) => {
            match parse_syndication(feed_url, body.as_str()) {
                Ok(f) => Some(Ok(f)),
                Err(_) => None,
            }
        },
    }
}

} // verus!
