//! The store: one ordered keyspace holding two logical tables — feed records
//! under one kind discriminant, item records under the other — plus the
//! transactional operations that keep them consistent.

use vstd::prelude::*;
use crate::error::{Error, ErrorKind};
use crate::key_value::{FeedId, FeedKey, FeedValue, ItemKey, ItemValue, Timestamp};
use crate::key_value::{spec_feed_key_bytes, spec_item_key_bytes, spec_is_feed_key,
    spec_is_item_key, spec_feed_key_url, spec_item_key_feed_id};
use crate::key_value::{lemma_feed_key_round_trip, lemma_feed_key_canonical,
    lemma_feed_key_injective, lemma_item_key_round_trip, lemma_item_prefix_characterizes,
    lemma_feed_item_keys_distinct, lemma_item_prefix_not_on_feed_key};
use crate::lex::{lex_lt, is_prefix};
use crate::feed::{Feed, FeedMeta, FeedItem};
use crate::table::{Table, is_prefix_bytes};

verus! {

/// Leading marker of a serialized store.
pub const DB_MAGIC: u32 = 0x52534442;

/// What one keyspace entry holds, according to its key's kind.
#[derive(Clone, Copy, Debug, PartialEq, Eq, Structural)]
pub enum StoredValue {
    ForFeed(FeedValue),
    ForItem(ItemValue),
}

/// The store: feed and item records in one ordered keyspace.
#[derive(Debug)]
pub struct Database {
    pub table: Table<StoredValue>,
}

/// Relies on `std::time::SystemTime::now` and
/// `SystemTime::duration_since(UNIX_EPOCH)`: the current time as a duration
/// since the epoch; nothing is promised of the value beyond a normalized
/// sub-second part.
#[verifier::external_body]
fn system_now() -> (t: Timestamp)
    ensures
        t.wf(),
{
    let d = std::time::SystemTime::now()
        .duration_since(std::time::UNIX_EPOCH)
        .unwrap_or(std::time::Duration::new(0, 0));
    Timestamp { secs: d.as_secs(), nanos: d.subsec_nanos() }
}

impl Database {
    /// One entry is well-formed: its key is a canonical feed or item key and
    /// its value matches the key's kind.
    pub open spec fn entry_ok(self, k: Seq<u8>) -> bool {
        ||| (spec_is_feed_key(k) && self.table@[k] is ForFeed)
        ||| (spec_is_item_key(k) && self.table@[k] is ForItem)
    }

    /// The feed id stored under a feed key.
    pub open spec fn feed_id_of(self, k: Seq<u8>) -> u32 {
        self.table@[k]->ForFeed_0.feed_id.0
    }

    /// Some feed record carries this id.
    pub open spec fn owner_exists(self, id: u32) -> bool {
        exists|k: Seq<u8>|
            #[trigger] self.table@.contains_key(k) && spec_is_feed_key(k) && self.feed_id_of(k)
                == id
    }

    /// Well-formedness: the keyspace is sorted; every entry decodes under its
    /// kind; feed ids are distinct; and every item record's feed id belongs
    /// to some feed record.
    pub open spec fn wf(self) -> bool {
        &&& self.table.wf()
        &&& forall|k: Seq<u8>| #[trigger] self.table@.contains_key(k) ==> self.entry_ok(k)
        &&& forall|k1: Seq<u8>, k2: Seq<u8>|
            #![trigger self.table@.contains_key(k1), self.table@.contains_key(k2)]
            self.table@.contains_key(k1) && self.table@.contains_key(k2) && spec_is_feed_key(k1)
                && spec_is_feed_key(k2) && k1 != k2 ==> self.feed_id_of(k1) != self.feed_id_of(k2)
        &&& forall|k: Seq<u8>|
            #[trigger] self.table@.contains_key(k) && spec_is_item_key(k) ==> self.owner_exists(
                spec_item_key_feed_id(k),
            )
    }

    /// The feed table, abstractly: feed URL to feed record.
    pub open spec fn feeds(self) -> Map<Seq<char>, FeedValue> {
        Map::new(
            |u: Seq<char>| self.table@.contains_key(spec_feed_key_bytes(u)),
            |u: Seq<char>| self.table@[spec_feed_key_bytes(u)]->ForFeed_0,
        )
    }

    /// The item table, abstractly: (feed id, item id) to item record.
    pub open spec fn items(self) -> Map<(u32, Seq<char>), ItemValue> {
        Map::new(
            |p: (u32, Seq<char>)| self.table@.contains_key(spec_item_key_bytes(p.0, p.1)),
            |p: (u32, Seq<char>)| self.table@[spec_item_key_bytes(p.0, p.1)]->ForItem_0,
        )
    }

    /// Initializes an empty store, unless something already sits at the
    /// target: then nothing is touched and the caller learns why.
    pub fn create(file_exists: bool) -> (r: Result<Database, Error>)
        ensures
            file_exists ==> (r matches Err(e) && e.kind == ErrorKind::AlreadyExists),
            !file_exists ==> (r matches Ok(d) && d.wf() && d.feeds() == Map::<
                Seq<char>,
                FeedValue,
            >::empty() && d.items() == Map::<(u32, Seq<char>), ItemValue>::empty()),
    {
        if file_exists {
            return Err(Error::new(ErrorKind::AlreadyExists, "Database already exists").into_error());
        }
        let d = Database { table: Table::new() };
        proof {
            assert(d.feeds() =~= Map::<Seq<char>, FeedValue>::empty());
            assert(d.items() =~= Map::<(u32, Seq<char>), ItemValue>::empty());
        }
        Ok(d)
    }

    /// The largest feed id in use, or zero when no feed exists.
    fn max_feed_id(&self) -> (r: u32)
        requires
            self.wf(),
        ensures
            forall|u: Seq<char>| #[trigger]
                self.feeds().contains_key(u) ==> self.feeds()[u].feed_id.0 <= r,
            (exists|u: Seq<char>| #[trigger] self.feeds().contains_key(u)) ==> exists|u: Seq<char>|
                #[trigger] self.feeds().contains_key(u) && self.feeds()[u].feed_id.0 == r,
            (forall|u: Seq<char>| !(#[trigger] self.feeds().contains_key(u))) ==> r == 0,
    {
        let n = self.table.len();
        let mut m: u32 = 0;
        let mut i: usize = 0;
        while i < n
            invariant
                self.wf(),
                i <= n,
                n == self.table.entries@.len(),
                forall|j: int|
                    0 <= j < i && spec_is_feed_key(#[trigger] self.table.entries@[j].0@)
                        ==> self.table.entries@[j].1->ForFeed_0.feed_id.0 <= m,
                m == 0 || exists|j: int|
                    0 <= j < i && spec_is_feed_key(#[trigger] self.table.entries@[j].0@)
                        && self.table.entries@[j].1->ForFeed_0.feed_id.0 == m,
            decreases n - i,
        {
            proof {
                self.table.lemma_entry_in_view(i as int);
            }
            match self.table.value_at(i) {
                StoredValue::ForFeed(fv) => {
                    proof {
                        assert(self.entry_ok(self.table.entries@[i as int].0@));
                    }
                    if fv.feed_id.0 > m {
                        m = fv.feed_id.0;
                    }
                },
                StoredValue::ForItem(_) => {
                    proof {
                        assert(self.entry_ok(self.table.entries@[i as int].0@));
                        if spec_is_feed_key(self.table.entries@[i as int].0@) {
                            lemma_feed_item_keys_distinct(self.table.entries@[i as int].0@);
                        }
                    }
                },
            }
            i = i + 1;
        }
        proof {
            assert forall|u: Seq<char>| #[trigger]
                self.feeds().contains_key(u) implies self.feeds()[u].feed_id.0 <= m by {
                let k = spec_feed_key_bytes(u);
                lemma_feed_key_round_trip(u);
                let w = self.table.spec_index_of(k);
                assert(self.table.entries@[w].0@ == k);
                assert(self.table@[k] == self.table.entries@[w].1) by {
                    self.table.lemma_entry_in_view(w);
                }
            }
            if exists|u: Seq<char>| #[trigger] self.feeds().contains_key(u) {
                if m == 0 {
                    let u = choose|u: Seq<char>| #[trigger] self.feeds().contains_key(u);
                    assert(self.feeds()[u].feed_id.0 <= 0);
                    assert(self.feeds().contains_key(u) && self.feeds()[u].feed_id.0 == m);
                } else {
                    let j = choose|j: int|
                        0 <= j < n && spec_is_feed_key(#[trigger] self.table.entries@[j].0@)
                            && self.table.entries@[j].1->ForFeed_0.feed_id.0 == m;
                    let k = self.table.entries@[j].0@;
                    let u = spec_feed_key_url(k);
                    lemma_feed_key_canonical(k);
                    self.table.lemma_entry_in_view(j);
                    assert(self.feeds().contains_key(u) && self.feeds()[u].feed_id.0 == m);
                }
            }
            if forall|u: Seq<char>| !(#[trigger] self.feeds().contains_key(u)) {
                if m != 0 {
                    let j = choose|j: int|
                        0 <= j < n && spec_is_feed_key(#[trigger] self.table.entries@[j].0@)
                            && self.table.entries@[j].1->ForFeed_0.feed_id.0 == m;
                    let k = self.table.entries@[j].0@;
                    lemma_feed_key_canonical(k);
                    self.table.lemma_entry_in_view(j);
                    assert(self.feeds().contains_key(spec_feed_key_url(k)));
                }
            }
        }
        m
    }

    /// Adds a feed: fails when the URL is already present; otherwise assigns
    /// a fresh id, defensively purges any item records that would sit under
    /// that id, and writes the feed record.
    pub fn add_feed(&mut self, feed_url: &str) -> (r: Result<(), Error>)
        requires
            old(self).wf(),
        ensures
            final(self).wf(),
            old(self).feeds().contains_key(feed_url@) ==> {
                &&& r matches Err(e) && e.kind == ErrorKind::AlreadyExists
                &&& *final(self) == *old(self)
            },
            !old(self).feeds().contains_key(feed_url@) && (exists|u: Seq<char>|
                #[trigger] old(self).feeds().contains_key(u) && old(self).feeds()[u].feed_id.0
                    == u32::MAX) ==> {
                &&& r matches Err(e) && e.kind == ErrorKind::TransactionError
                &&& *final(self) == *old(self)
            },
            !old(self).feeds().contains_key(feed_url@) && !(exists|u: Seq<char>|
                #[trigger] old(self).feeds().contains_key(u) && old(self).feeds()[u].feed_id.0
                    == u32::MAX) ==> {
                &&& r is Ok
                &&& final(self).items() == old(self).items()
                &&& final(self).feeds().contains_key(feed_url@)
                &&& forall|u: Seq<char>|
                    u != feed_url@ ==> (#[trigger] final(self).feeds().contains_key(u) <==> old(
                        self).feeds().contains_key(u))
                &&& forall|u: Seq<char>|
                    u != feed_url@ && old(self).feeds().contains_key(u) ==> #[trigger] final(
                        self).feeds()[u] == old(self).feeds()[u]
                &&& forall|u: Seq<char>| #[trigger]
                    old(self).feeds().contains_key(u) ==> old(self).feeds()[u].feed_id.0 < final(
                        self).feeds()[feed_url@].feed_id.0
            },
    {
        let key = FeedKey::new_search().with_feed_url(feed_url).to_bytes();
        if self.table.get(key.as_slice()).is_some() {
            return Err(
                Error::new(ErrorKind::AlreadyExists, "Feed already exists in database")
                    .into_error(),
            );
        }
        let m = self.max_feed_id();
        if m == u32::MAX {
            proof {
                let u = choose|u: Seq<char>| #[trigger] self.feeds().contains_key(u)
                    && self.feeds()[u].feed_id.0 == m;
                assert(self.feeds().contains_key(u) && self.feeds()[u].feed_id.0 == u32::MAX);
            }
            return Err(
                Error::new(ErrorKind::TransactionError, "Feed id space is exhausted")
                    .into_error(),
            );
        }
        proof {
            if exists|u: Seq<char>| #[trigger] self.feeds().contains_key(u)
                && self.feeds()[u].feed_id.0 == u32::MAX {
                let u = choose|u: Seq<char>| #[trigger] self.feeds().contains_key(u)
                    && self.feeds()[u].feed_id.0 == u32::MAX;
                assert(self.feeds()[u].feed_id.0 <= m);
            }
        }
        let id = m + 1;
        // Defensive purge: a prior partial failure might have left item
        // records under an id that is about to be reused.
        let prefix = ItemKey::new_search().with_feed_id(FeedId::new(id)).to_bytes();
        let ghost pre = *self;
        self.table.remove_prefix(prefix.as_slice());
        proof {
            // Under the invariant the purge finds nothing: every item's id
            // belongs to some feed, and all feed ids are at most `m`.
            assert forall|k: Seq<u8>| #[trigger]
                pre.table@.contains_key(k) implies !is_prefix(prefix@, k) by {
                assert(pre.entry_ok(k));
                if spec_is_feed_key(k) {
                    lemma_item_prefix_not_on_feed_key(id, k);
                } else {
                    lemma_item_prefix_characterizes(id, k);
                    if is_prefix(prefix@, k) {
                        assert(pre.owner_exists(id));
                        let k2 = choose|k2: Seq<u8>|
                            #[trigger] pre.table@.contains_key(k2) && spec_is_feed_key(k2)
                                && pre.feed_id_of(k2) == id;
                        let u2 = spec_feed_key_url(k2);
                        lemma_feed_key_canonical(k2);
                        assert(pre.feeds().contains_key(u2));
                        assert(pre.feeds()[u2].feed_id.0 <= m);
                    }
                }
            }
            assert(self.table@ =~= pre.table@);
            assert(self.feeds() =~= pre.feeds());
            assert(self.items() =~= pre.items());
        }
        let now = system_now();
        let fv = FeedValue { feed_id: FeedId::new(id), when_added: now };
        let ghost mid = *self;
        self.table.insert(key, StoredValue::ForFeed(fv));
        proof {
            lemma_feed_key_round_trip(feed_url@);
            let kb = spec_feed_key_bytes(feed_url@);
            // Well-formedness is preserved.
            assert forall|k: Seq<u8>| #[trigger]
                self.table@.contains_key(k) implies self.entry_ok(k) by {
                if k != kb {
                    assert(mid.table@.contains_key(k) && mid.entry_ok(k));
                }
            }
            assert forall|k1: Seq<u8>, k2: Seq<u8>|
                self.table@.contains_key(k1) && self.table@.contains_key(k2) && spec_is_feed_key(
                    k1,
                ) && spec_is_feed_key(k2) && k1 != k2 implies self.feed_id_of(k1)
                != self.feed_id_of(k2) by {
                if k1 != kb && k2 != kb {
                    assert(mid.table@.contains_key(k1) && mid.table@.contains_key(k2));
                } else if k1 == kb {
                    assert(mid.table@.contains_key(k2) && mid.entry_ok(k2));
                    let u2 = spec_feed_key_url(k2);
                    lemma_feed_key_canonical(k2);
                    assert(mid.feeds().contains_key(u2));
                    assert(mid.feeds()[u2].feed_id.0 <= m);
                } else {
                    assert(mid.table@.contains_key(k1) && mid.entry_ok(k1));
                    let u1 = spec_feed_key_url(k1);
                    lemma_feed_key_canonical(k1);
                    assert(mid.feeds().contains_key(u1));
                    assert(mid.feeds()[u1].feed_id.0 <= m);
                }
            }
            assert forall|k: Seq<u8>| #[trigger]
                self.table@.contains_key(k) && spec_is_item_key(k) implies self.owner_exists(
                spec_item_key_feed_id(k),
            ) by {
                lemma_feed_item_keys_distinct(kb);
                assert(mid.table@.contains_key(k));
                assert(mid.owner_exists(spec_item_key_feed_id(k)));
                let k2 = choose|k2: Seq<u8>|
                    #[trigger] mid.table@.contains_key(k2) && spec_is_feed_key(k2)
                        && mid.feed_id_of(k2) == spec_item_key_feed_id(k);
                assert(k2 != kb);
                assert(self.table@.contains_key(k2) && self.feed_id_of(k2)
                    == spec_item_key_feed_id(k));
            }
            // The abstract maps change exactly as stated.
            assert(self.items() =~= mid.items()) by {
                assert forall|p: (u32, Seq<char>)|
                    spec_item_key_bytes(p.0, p.1) != kb by {
                    lemma_item_key_round_trip(p.0, p.1);
                    lemma_feed_item_keys_distinct(kb);
                }
            }
            assert forall|u: Seq<char>|
                u != feed_url@ implies (#[trigger] self.feeds().contains_key(u) <==> mid.feeds()
                    .contains_key(u)) && (mid.feeds().contains_key(u) ==> self.feeds()[u]
                    == mid.feeds()[u]) by {
                if spec_feed_key_bytes(u) == kb {
                    lemma_feed_key_injective(u, feed_url@);
                }
            }
            assert(self.feeds().contains_key(feed_url@) && self.feeds()[feed_url@] == fv);
            assert forall|u: Seq<char>| #[trigger]
                mid.feeds().contains_key(u) implies mid.feeds()[u].feed_id.0 < id by {
                assert(mid.feeds()[u].feed_id.0 <= m);
            }
        }
        Ok(())
    }

    /// Removes a feed and, through one prefix-bounded cursor scan, every item
    /// record of that feed, leaving all other records untouched.
    pub fn remove_feed(&mut self, feed_url: &str) -> (r: Result<(), Error>)
        requires
            old(self).wf(),
        ensures
            final(self).wf(),
            !old(self).feeds().contains_key(feed_url@) ==> {
                &&& r matches Err(e) && e.kind == ErrorKind::NotFound
                &&& *final(self) == *old(self)
            },
            old(self).feeds().contains_key(feed_url@) ==> {
                &&& r is Ok
                &&& final(self).feeds() == old(self).feeds().remove(feed_url@)
                &&& final(self).items() == old(self).items().remove_keys(
                    Set::new(
                        |p: (u32, Seq<char>)| p.0 == old(self).feeds()[feed_url@].feed_id.0,
                    ),
                )
            },
    {
        let key = FeedKey::new_search().with_feed_url(feed_url).to_bytes();
        let id: u32 = match self.table.get(key.as_slice()) {
            None => {
                return Err(
                    Error::new(ErrorKind::NotFound, "Feed does not exist in database")
                        .into_error(),
                );
            },
            Some(StoredValue::ForFeed(fv)) => fv.feed_id.0,
            Some(StoredValue::ForItem(_)) => {
                // Impossible under the invariant: a feed key holds a feed
                // record.
                proof {
                    lemma_feed_key_round_trip(feed_url@);
                    lemma_feed_item_keys_distinct(spec_feed_key_bytes(feed_url@));
                    assert(self.entry_ok(spec_feed_key_bytes(feed_url@)));
                    assert(false);
                }
                return Err(
                    Error::new(ErrorKind::TransactionError, "Corrupt feed record").into_error(),
                );
            },
        };
        let ghost pre = *self;
        let ghost kb = spec_feed_key_bytes(feed_url@);
        self.table.remove(key.as_slice());
        let prefix = ItemKey::new_search().with_feed_id(FeedId::new(id)).to_bytes();
        let ghost mid = *self;
        self.table.remove_prefix(prefix.as_slice());
        proof {
            lemma_feed_key_round_trip(feed_url@);
            // Well-formedness is preserved.
            assert forall|k: Seq<u8>| #[trigger]
                self.table@.contains_key(k) implies self.entry_ok(k) by {
                assert(pre.table@.contains_key(k));
            }
            assert forall|k1: Seq<u8>, k2: Seq<u8>|
                self.table@.contains_key(k1) && self.table@.contains_key(k2) && spec_is_feed_key(
                    k1,
                ) && spec_is_feed_key(k2) && k1 != k2 implies self.feed_id_of(k1)
                != self.feed_id_of(k2) by {
                assert(pre.table@.contains_key(k1) && pre.table@.contains_key(k2));
            }
            assert forall|k: Seq<u8>| #[trigger]
                self.table@.contains_key(k) && spec_is_item_key(k) implies self.owner_exists(
                spec_item_key_feed_id(k),
            ) by {
                assert(pre.table@.contains_key(k) && pre.entry_ok(k));
                assert(pre.owner_exists(spec_item_key_feed_id(k)));
                let k2 = choose|k2: Seq<u8>|
                    #[trigger] pre.table@.contains_key(k2) && spec_is_feed_key(k2)
                        && pre.feed_id_of(k2) == spec_item_key_feed_id(k);
                // The surviving item's owner is not the removed feed.
                lemma_item_prefix_characterizes(id, k);
                assert(spec_item_key_feed_id(k) != id);
                assert(k2 != kb) by {
                    assert(pre.feed_id_of(kb) == id);
                }
                assert(mid.table@.contains_key(k2));
                lemma_item_prefix_not_on_feed_key(id, k2);
                assert(self.table@.contains_key(k2));
            }
            // The abstract maps change exactly as stated.
            assert(self.feeds() =~= pre.feeds().remove(feed_url@)) by {
                assert forall|u: Seq<char>|
                    self.feeds().contains_key(u) <==> (pre.feeds().contains_key(u) && u
                        != feed_url@) by {
                    lemma_feed_key_round_trip(u);
                    lemma_item_prefix_not_on_feed_key(id, spec_feed_key_bytes(u));
                    if spec_feed_key_bytes(u) == kb {
                        lemma_feed_key_injective(u, feed_url@);
                    }
                }
                assert forall|u: Seq<char>| #[trigger]
                    self.feeds().contains_key(u) implies self.feeds()[u] == pre.feeds()[u] by {
                    lemma_feed_key_round_trip(u);
                    if spec_feed_key_bytes(u) == kb {
                        lemma_feed_key_injective(u, feed_url@);
                    }
                    lemma_item_prefix_not_on_feed_key(id, spec_feed_key_bytes(u));
                }
            }
            assert(self.items() =~= pre.items().remove_keys(
                Set::new(|p: (u32, Seq<char>)| p.0 == id),
            )) by {
                assert forall|p: (u32, Seq<char>)|
                    self.items().contains_key(p) <==> (pre.items().contains_key(p) && p.0
                        != id) by {
                    let ik = spec_item_key_bytes(p.0, p.1);
                    lemma_item_key_round_trip(p.0, p.1);
                    lemma_feed_item_keys_distinct(ik);
                    lemma_item_prefix_characterizes(id, ik);
                    assert(ik != kb);
                }
                assert forall|p: (u32, Seq<char>)| #[trigger]
                    self.items().contains_key(p) implies self.items()[p] == pre.items()[p] by {
                    let ik = spec_item_key_bytes(p.0, p.1);
                    lemma_item_key_round_trip(p.0, p.1);
                    lemma_feed_item_keys_distinct(ik);
                    assert(ik != kb);
                }
            }
            assert(pre.feeds()[feed_url@].feed_id.0 == id);
        }
        Ok(())
    }

    /// The prefix property at the store level: for two different feed URLs,
    /// no encoded item key of one is a byte prefix of an encoded item key of
    /// the other, whatever the item ids.
    pub proof fn lemma_item_keys_of_distinct_feeds_disjoint(
        self,
        a: Seq<char>,
        b: Seq<char>,
        x: Seq<char>,
        y: Seq<char>,
    )
        requires
            self.wf(),
            self.feeds().contains_key(a),
            self.feeds().contains_key(b),
            a != b,
        ensures
            !is_prefix(
                spec_item_key_bytes(self.feeds()[a].feed_id.0, x),
                spec_item_key_bytes(self.feeds()[b].feed_id.0, y),
            ),
    {
        lemma_feed_key_round_trip(a);
        lemma_feed_key_round_trip(b);
        let ka = spec_feed_key_bytes(a);
        let kb2 = spec_feed_key_bytes(b);
        if ka == kb2 {
            lemma_feed_key_injective(a, b);
        }
        assert(self.feed_id_of(ka) != self.feed_id_of(kb2));
        crate::key_value::lemma_item_key_prefix_disjoint(
            self.feeds()[a].feed_id.0,
            self.feeds()[b].feed_id.0,
            x,
            y,
        );
    }

    /// Lists the stored feed URLs, in the store's native key order: a
    /// read-only, restartable traversal of the feed table's key range.
    pub fn feed_urls(&self) -> (r: Vec<String>)
        requires
            self.wf(),
        ensures
            forall|t: int| 0 <= t < r@.len() ==> self.feeds().contains_key(#[trigger] r@[t]@),
            forall|u: Seq<char>| #[trigger]
                self.feeds().contains_key(u) ==> exists|t: int| 0 <= t < r@.len() && r@[t]@ == u,
            forall|t1: int, t2: int|
                0 <= t1 < t2 < r@.len() ==> lex_lt(
                    vstd::utf8::encode_utf8(#[trigger] r@[t1]@),
                    vstd::utf8::encode_utf8(#[trigger] r@[t2]@),
                ),
    {
        let min_bytes = FeedKey::min_search();
        let n = self.table.len();
        let mut r: Vec<String> = Vec::new();
        let ghost mut idxs: Seq<int> = Seq::empty();
        let mut i: usize = 0;
        while i < n
            invariant
                self.wf(),
                i <= n,
                n == self.table.entries@.len(),
                min_bytes@ == crate::key_value::spec_be32(crate::key_value::KEY_KIND_FEED_NUM),
                idxs.len() == r@.len(),
                forall|t: int| 0 <= t < idxs.len() ==> 0 <= #[trigger] idxs[t] < i,
                forall|t1: int, t2: int| 0 <= t1 < t2 < idxs.len() ==> idxs[t1] < idxs[t2],
                forall|t: int|
                    0 <= t < idxs.len() ==> spec_is_feed_key(
                        #[trigger] self.table.entries@[idxs[t]].0@,
                    ) && r@[t]@ == spec_feed_key_url(self.table.entries@[idxs[t]].0@),
                forall|j: int|
                    0 <= j < i && spec_is_feed_key(#[trigger] self.table.entries@[j].0@)
                        ==> exists|t: int| 0 <= t < idxs.len() && idxs[t] == j,
            decreases n - i,
        {
            let key = self.table.key_at(i);
            if is_prefix_bytes(min_bytes.as_slice(), key.as_slice()) {
                proof {
                    self.table.lemma_entry_in_view(i as int);
                    assert(self.entry_ok(self.table.entries@[i as int].0@));
                    let k = self.table.entries@[i as int].0@;
                    assert(k.take(4) =~= min_bytes@);
                    if spec_is_item_key(k) {
                        crate::key_value::lemma_be32_injective(
                            crate::key_value::KEY_KIND_FEED_NUM,
                            crate::key_value::KEY_KIND_ITEM_NUM,
                        );
                    }
                }
                match FeedKey::from_bytes(key.as_slice()) {
                    Ok(fk) => {
                        let ghost r0 = r@;
                        r.push(fk.feed_url.to_owned());
                        proof {
                            let idxs0 = idxs;
                            idxs = idxs.push(i as int);
                            assert(idxs.len() == idxs0.len() + 1);
                            assert(forall|t: int| 0 <= t < idxs0.len() ==> idxs[t] == idxs0[t]);
                            assert(idxs[idxs0.len() as int] == i as int);
                            assert forall|j: int|
                                0 <= j < i + 1 && spec_is_feed_key(
                                    #[trigger] self.table.entries@[j].0@,
                                ) implies exists|t: int| 0 <= t < idxs.len() && idxs[t] == j by {
                                if j < i {
                                    let t = choose|t: int|
                                        0 <= t < idxs0.len() && idxs0[t] == j;
                                    assert(idxs[t] == j);
                                } else {
                                    assert(idxs[idxs0.len() as int] == j);
                                }
                            }
                            assert forall|t: int|
                                0 <= t < idxs.len() implies spec_is_feed_key(
                                #[trigger] self.table.entries@[idxs[t]].0@,
                            ) && r@[t]@ == spec_feed_key_url(self.table.entries@[idxs[t]].0@) by {
                                if t < idxs0.len() {
                                    assert(idxs[t] == idxs0[t] && r@[t] == r0[t]);
                                } else {
                                    assert(idxs[t] == i as int);
                                }
                            }
                        }
                    },
                    Err(_) => {
                        proof {
                            assert(false);
                        }
                    },
                }
            } else {
                proof {
                    let k = self.table.entries@[i as int].0@;
                    assert(self.entry_ok(k)) by {
                        self.table.lemma_entry_in_view(i as int);
                    }
                    if spec_is_feed_key(k) {
                        assert(k.take(4).len() == 4 && k.take(4) == min_bytes@);
                        assert(is_prefix(min_bytes@, k));
                    }
                }
            }
            i = i + 1;
        }
        proof {
            assert forall|t: int|
                0 <= t < r@.len() implies self.feeds().contains_key(#[trigger] r@[t]@) by {
                let j = idxs[t];
                crate::key_value::lemma_feed_key_canonical(self.table.entries@[j].0@);
                self.table.lemma_entry_in_view(j);
            }
            assert forall|u: Seq<char>| #[trigger]
                self.feeds().contains_key(u) implies exists|t: int|
                0 <= t < r@.len() && r@[t]@ == u by {
                lemma_feed_key_round_trip(u);
                let k = spec_feed_key_bytes(u);
                let w = self.table.spec_index_of(k);
                assert(self.table.entries@[w].0@ == k);
                let t = choose|t: int| 0 <= t < idxs.len() && idxs[t] == w;
                assert(r@[t]@ == spec_feed_key_url(k) && spec_feed_key_url(k) == u);
            }
            assert forall|t1: int, t2: int|
                0 <= t1 < t2 < r@.len() implies lex_lt(
                vstd::utf8::encode_utf8(#[trigger] r@[t1]@),
                vstd::utf8::encode_utf8(#[trigger] r@[t2]@),
            ) by {
                let j1 = idxs[t1];
                let j2 = idxs[t2];
                let k1 = self.table.entries@[j1].0@;
                let k2 = self.table.entries@[j2].0@;
                assert(lex_lt(k1, k2));
                crate::key_value::lemma_feed_key_canonical(k1);
                crate::key_value::lemma_feed_key_canonical(k2);
                crate::lex::lemma_lex_lt_common_prefix(
                    crate::key_value::spec_be32(crate::key_value::KEY_KIND_FEED_NUM),
                    vstd::utf8::encode_utf8(r@[t1]@),
                    vstd::utf8::encode_utf8(r@[t2]@),
                );
            }
        }
        r
    }

    /// The bytes of one serialized entry: length-framed key, then
    /// length-framed value.
    pub open spec fn spec_entry_bytes(k: Seq<u8>, v: StoredValue) -> Seq<u8> {
        crate::key_value::spec_be32(k.len() as u32) + k + crate::key_value::spec_be32(
            spec_value_bytes(v).len() as u32,
        ) + spec_value_bytes(v)
    }

    /// The serialized entries from position `i` on.
    pub open spec fn spec_entries_bytes_from(self, i: int) -> Seq<u8>
        decreases self.table.entries@.len() - i,
    {
        if i < 0 || i >= self.table.entries@.len() {
            Seq::<u8>::empty()
        } else {
            Self::spec_entry_bytes(self.table.entries@[i].0@, self.table.entries@[i].1)
                + self.spec_entries_bytes_from(i + 1)
        }
    }

    /// The serialized form of the whole store.
    pub open spec fn spec_db_bytes(self) -> Seq<u8> {
        crate::key_value::spec_be32(DB_MAGIC) + crate::key_value::spec_be32(
            self.table.entries@.len() as u32,
        ) + self.spec_entries_bytes_from(0)
    }

    /// `self` is a well-formed store whose serialized image is exactly
    /// `source`.
    #[verifier::opaque]
    pub open spec fn spec_image_of(self, source: Seq<u8>) -> bool {
        &&& self.wf()
        &&& self.spec_serializable()
        &&& source == self.spec_db_bytes()
    }

    /// Every frame of the serialized form fits its 32-bit length field.
    pub open spec fn spec_serializable(self) -> bool {
        &&& self.table.entries@.len() <= u32::MAX
        &&& forall|j: int|
            0 <= j < self.table.entries@.len() ==> (#[trigger] self.table.entries@[j].0@).len()
                <= u32::MAX
        &&& forall|j: int|
            0 <= j < self.table.entries@.len() ==> spec_value_bytes(
                #[trigger] self.table.entries@[j].1,
            ).len() <= u32::MAX
    }

    /// Serializes the store: the commit path hands these bytes to whatever
    /// writes and atomically replaces the backing file.  Serialization
    /// succeeds exactly when every frame fits its 32-bit length field.
    pub fn to_bytes(&self) -> (r: Result<Vec<u8>, Error>)
        requires
            self.wf(),
        ensures
            r is Ok <==> self.spec_serializable(),
            r matches Ok(b) ==> b@ == self.spec_db_bytes(),
            r matches Err(e) ==> e.kind == ErrorKind::TransactionError,
    {
        let n = self.table.len();
        if n > (u32::MAX as usize) {
            return Err(
                Error::new(ErrorKind::TransactionError, "Too many records to serialize")
                    .into_error(),
            );
        }
        let mut w = crate::key_value::Writer::new();
        w.write_u32(DB_MAGIC);
        w.write_u32(n as u32);
        let mut i: usize = 0;
        while i < n
            invariant
                self.wf(),
                i <= n,
                n == self.table.entries@.len(),
                n <= u32::MAX,
                w.bytes@ + self.spec_entries_bytes_from(i as int) == self.spec_db_bytes(),
                forall|j: int|
                    0 <= j < i ==> (#[trigger] self.table.entries@[j].0@).len() <= u32::MAX,
                forall|j: int|
                    0 <= j < i ==> spec_value_bytes(#[trigger] self.table.entries@[j].1).len()
                        <= u32::MAX,
            decreases n - i,
        {
            let key = self.table.key_at(i);
            if key.len() > (u32::MAX as usize) {
                proof {
                    assert((self.table.entries@[i as int].0@).len() > u32::MAX);
                }
                return Err(
                    Error::new(ErrorKind::TransactionError, "Record key too long to serialize")
                        .into_error(),
                );
            }
            let vb = match self.table.value_at(i) {
                StoredValue::ForFeed(fv) => fv.to_bytes(),
                StoredValue::ForItem(iv) => iv.to_bytes(),
            };
            if vb.len() > (u32::MAX as usize) {
                proof {
                    assert(spec_value_bytes(self.table.entries@[i as int].1).len() > u32::MAX);
                }
                return Err(
                    Error::new(ErrorKind::TransactionError, "Record value too long to serialize")
                        .into_error(),
                );
            }
            w.write_u32(key.len() as u32);
            w.write_bytes_eof(key.as_slice());
            w.write_u32(vb.len() as u32);
            w.write_bytes_eof(vb.as_slice());
            proof {
                assert(vb@ == spec_value_bytes(self.table.entries@[i as int].1));
                assert(w.bytes@ + self.spec_entries_bytes_from(i + 1) == self.spec_db_bytes());
            }
            i = i + 1;
        }
        Ok(w.into_bytes())
    }

    /// Opens a serialized store: fails with a not-found error when nothing
    /// was read, and with a decode error when the structure is not
    /// recognized.  What a committed store serialized to opens back to a
    /// store with the same feed and item tables.
    pub fn open(contents: Option<&Vec<u8>>) -> (r: Result<Database, Error>)
        ensures
            contents is None ==> (r matches Err(e) && e.kind == ErrorKind::NotFound),
            contents is Some && r is Err ==> (r->Err_0).kind == ErrorKind::DecodeError,
            r matches Ok(d) ==> d.wf(),
            forall|d: Database|
                contents is Some && #[trigger] d.spec_image_of((contents->0)@) ==> (r matches Ok(
                    d2,
                ) && d2.feeds() == d.feeds() && d2.items() == d.items()),
    {
        match contents {
            None => Err(
                Error::new(ErrorKind::NotFound, "Failed to open database: no such file")
                    .into_error(),
            ),
            Some(b) => Self::from_bytes(b.as_slice()),
        }
    }

    /// Reads the two length-framed fields of one entry; against any store
    /// whose image is being read, these are that store's next key and value
    /// bytes.
    #[verifier::rlimit(60)]
    fn read_frames<'a>(
        rd: &mut crate::key_value::Reader<'a>,
        Ghost(c): Ghost<u32>,
    ) -> (r: Result<(&'a [u8], &'a [u8]), Error>)
        requires
            old(rd).wf(),
            forall|d: Database|
                #[trigger] d.spec_image_of(old(rd).data@) ==> old(rd).remaining()
                    == d.spec_entries_bytes_from(c as int) && (c as int)
                    < d.table.entries@.len(),
        ensures
            final(rd).wf(),
            final(rd).data == old(rd).data,
            r matches Err(e) ==> e.kind == ErrorKind::DecodeError,
            r is Err ==> forall|d: Database| !(#[trigger] d.spec_image_of(old(rd).data@)),
            r matches Ok(p) ==> forall|d: Database|
                #[trigger] d.spec_image_of(old(rd).data@) ==> p.0@
                    == d.table.entries@[c as int].0@ && p.1@ == spec_value_bytes(
                    d.table.entries@[c as int].1,
                ) && final(rd).remaining() == d.spec_entries_bytes_from(c + 1),
    {
        let ghost source = old(rd).data@;
        let klen = match rd.read_u32() {
            Ok(x) => x,
            Err(e) => {
                proof {
                    assert forall|d: Database| #[trigger] d.spec_image_of(source) implies false by {
                        reveal(Database::spec_image_of);
                        lemma_entry_frames(d, c as int);
                    }
                }
                return Err(corrupt(e));
            },
        };
        let kb = match rd.read_bytes(klen as usize) {
            Ok(x) => x,
            Err(e) => {
                proof {
                    assert forall|d: Database| #[trigger] d.spec_image_of(source) implies false by {
                        reveal(Database::spec_image_of);
                        lemma_entry_frames(d, c as int);
                    }
                }
                return Err(corrupt(e));
            },
        };
        let vlen = match rd.read_u32() {
            Ok(x) => x,
            Err(e) => {
                proof {
                    assert forall|d: Database| #[trigger] d.spec_image_of(source) implies false by {
                        reveal(Database::spec_image_of);
                        lemma_entry_frames(d, c as int);
                    }
                }
                return Err(corrupt(e));
            },
        };
        let vb = match rd.read_bytes(vlen as usize) {
            Ok(x) => x,
            Err(e) => {
                proof {
                    assert forall|d: Database| #[trigger] d.spec_image_of(source) implies false by {
                        reveal(Database::spec_image_of);
                        lemma_entry_frames(d, c as int);
                    }
                }
                return Err(corrupt(e));
            },
        };
        proof {
            assert forall|d: Database| #[trigger] d.spec_image_of(source) implies kb@
                == d.table.entries@[c as int].0@ && vb@ == spec_value_bytes(
                d.table.entries@[c as int].1,
            ) && rd.remaining() == d.spec_entries_bytes_from(c + 1) by {
                reveal(Database::spec_image_of);
                lemma_entry_frames(d, c as int);
            }
        }
        Ok((kb, vb))
    }

    /// Reads one length-framed entry off the image and rebuilds it; against
    /// any store whose image is being read, this reproduces that store's
    /// next entry exactly.
    #[verifier::rlimit(100)]
    fn parse_entry<'a>(
        rd: &mut crate::key_value::Reader<'a>,
        table: &mut Table<StoredValue>,
        Ghost(count): Ghost<u32>,
        Ghost(c): Ghost<u32>,
    ) -> (r: Result<(), Error>)
        requires
            c < u32::MAX,
            old(rd).wf(),
            old(table).wf(),
            forall|k: Seq<u8>| #[trigger]
                old(table)@.contains_key(k) ==> value_matches(k, old(table)@[k]),
            forall|d: Database|
                #[trigger] d.spec_image_of(old(rd).data@) ==> spec_parse_state(
                    d,
                    count,
                    c,
                    *old(table),
                    old(rd).remaining(),
                ),
            forall|d: Database|
                #[trigger] d.spec_image_of(old(rd).data@) ==> (c as int)
                    < d.table.entries@.len(),
        ensures
            final(rd).wf(),
            final(rd).data == old(rd).data,
            final(table).wf(),
            forall|k: Seq<u8>| #[trigger]
                final(table)@.contains_key(k) ==> value_matches(k, final(table)@[k]),
            r matches Err(e) ==> e.kind == ErrorKind::DecodeError,
            r is Err ==> forall|d: Database| !(#[trigger] d.spec_image_of(old(rd).data@)),
            r is Ok ==> forall|d: Database|
                #[trigger] d.spec_image_of(old(rd).data@) ==> spec_parse_state(
                    d,
                    count,
                    (c + 1) as u32,
                    *final(table),
                    final(rd).remaining(),
                ),
    {
        let ghost source = old(rd).data@;
        let ghost table_c = *table;
        proof {
            assert forall|d: Database| #[trigger] d.spec_image_of(source) implies rd.remaining()
                == d.spec_entries_bytes_from(c as int) && (c as int)
                < d.table.entries@.len() by {
                reveal(spec_parse_state);
            }
        }
        let (kb, vb) = match Self::read_frames(rd, Ghost(c)) {
            Ok(x) => x,
            Err(e) => {
                return Err(e);
            },
        };
        let feed_min = FeedKey::min_search();
        let item_min = crate::key_value::KeyKind(crate::key_value::KEY_KIND_ITEM_NUM).to_bytes();
        if is_prefix_bytes(feed_min.as_slice(), kb) {
            match FeedKey::from_bytes(kb) {
                Err(e) => {
                    proof {
                        assert forall|d: Database| #[trigger] d.spec_image_of(source) implies
                            false by {
                            reveal(Database::spec_image_of);
                            lemma_wf_key_decodes(d, c as int, kb@);
                        }
                    }
                    return Err(corrupt(e));
                },
                Ok(_) => {},
            }
            let fv = match FeedValue::from_bytes(vb) {
                Ok(x) => x,
                Err(e) => {
                    proof {
                        assert forall|d: Database| #[trigger] d.spec_image_of(source) implies
                            false by {
                            reveal(Database::spec_image_of);
                            lemma_wf_key_decodes(d, c as int, kb@);
                            assert(d.table.entries@[c as int].1 is ForFeed);
                            assert(vb@ == (d.table.entries@[c as int].1->ForFeed_0).spec_bytes());
                        }
                    }
                    return Err(corrupt(e));
                },
            };
            let kv = vstd::slice::slice_to_vec(kb);
            table.insert(kv, StoredValue::ForFeed(fv));
            proof {
                assert forall|d: Database| #[trigger] d.spec_image_of(source) implies
                    spec_parse_state(d, count, (c + 1) as u32, *table, rd.remaining()) by {
                    reveal(spec_parse_state);
                    reveal(Database::spec_image_of);
                    lemma_wf_key_decodes(d, c as int, kb@);
                    assert(d.table.entries@[c as int].1 is ForFeed);
                    assert(vb@ == (d.table.entries@[c as int].1->ForFeed_0).spec_bytes());
                    assert(StoredValue::ForFeed(fv) == d.table.entries@[c as int].1);
                    assert forall|j: int|
                        0 <= j < table_c.entries@.len() implies lex_lt(
                        #[trigger] table_c.entries@[j].0@,
                        kb@,
                    ) by {
                        assert(table_c.entries@[j].0@ == d.table.entries@[j].0@);
                    }
                    assert(table_c.entries@.len() == c as int);
                    assert(table.entries@.len() == c + 1);
                    assert(table.entries@[c as int].0@ == kb@);
                    assert(table.entries@[c as int].1 == StoredValue::ForFeed(fv));
                    assert forall|j: int|
                        0 <= j < c + 1 implies (#[trigger] table.entries@[j].0@)
                        == d.table.entries@[j].0@ && table.entries@[j].1
                        == d.table.entries@[j].1 by {
                        if j < c {
                            assert(table.entries@[j] == table_c.entries@[j]);
                        }
                    }
                    assert(rd.remaining() == d.spec_entries_bytes_from(c + 1));
                }
            }
        } else if is_prefix_bytes(item_min.as_slice(), kb) {
            match ItemKey::from_bytes(kb) {
                Err(e) => {
                    proof {
                        assert forall|d: Database| #[trigger] d.spec_image_of(source) implies
                            false by {
                            reveal(Database::spec_image_of);
                            lemma_wf_key_decodes(d, c as int, kb@);
                        }
                    }
                    return Err(corrupt(e));
                },
                Ok(_) => {},
            }
            let iv = match ItemValue::from_bytes(vb) {
                Ok(x) => x,
                Err(e) => {
                    proof {
                        assert forall|d: Database| #[trigger] d.spec_image_of(source) implies
                            false by {
                            reveal(Database::spec_image_of);
                            lemma_wf_key_decodes(d, c as int, kb@);
                            assert(d.table.entries@[c as int].1 is ForItem);
                            assert(vb@ == (d.table.entries@[c as int].1->ForItem_0).spec_bytes());
                        }
                    }
                    return Err(corrupt(e));
                },
            };
            let kv = vstd::slice::slice_to_vec(kb);
            table.insert(kv, StoredValue::ForItem(iv));
            proof {
                assert forall|d: Database| #[trigger] d.spec_image_of(source) implies
                    spec_parse_state(d, count, (c + 1) as u32, *table, rd.remaining()) by {
                    reveal(spec_parse_state);
                    reveal(Database::spec_image_of);
                    lemma_wf_key_decodes(d, c as int, kb@);
                    assert(d.table.entries@[c as int].1 is ForItem);
                    assert(vb@ == (d.table.entries@[c as int].1->ForItem_0).spec_bytes());
                    assert(StoredValue::ForItem(iv) == d.table.entries@[c as int].1);
                    assert forall|j: int|
                        0 <= j < table_c.entries@.len() implies lex_lt(
                        #[trigger] table_c.entries@[j].0@,
                        kb@,
                    ) by {
                        assert(table_c.entries@[j].0@ == d.table.entries@[j].0@);
                    }
                    assert(table_c.entries@.len() == c as int);
                    assert(table.entries@.len() == c + 1);
                    assert(table.entries@[c as int].0@ == kb@);
                    assert(table.entries@[c as int].1 == StoredValue::ForItem(iv));
                    assert forall|j: int|
                        0 <= j < c + 1 implies (#[trigger] table.entries@[j].0@)
                        == d.table.entries@[j].0@ && table.entries@[j].1
                        == d.table.entries@[j].1 by {
                        if j < c {
                            assert(table.entries@[j] == table_c.entries@[j]);
                        }
                    }
                    assert(rd.remaining() == d.spec_entries_bytes_from(c + 1));
                }
            }
        } else {
            proof {
                assert forall|d: Database| #[trigger] d.spec_image_of(source) implies false by {
                    reveal(Database::spec_image_of);
                    lemma_wf_key_decodes(d, c as int, kb@);
                }
            }
            return Err(
                Error::new(ErrorKind::DecodeError, "Database is corrupt: unknown key kind")
                    .into_error(),
            );
        }
        Ok(())
    }

    /// Deserializes a store, validating everything well-formedness asks:
    /// keys must decode under a known kind, values must match their key's
    /// kind, feed ids must be distinct, and every item record must belong to
    /// a present feed.  The serialized image of a well-formed store opens
    /// back to a store with the same feed and item tables.
    #[verifier::rlimit(100)]
    pub fn from_bytes(source: &[u8]) -> (r: Result<Database, Error>)
        ensures
            r matches Ok(d) ==> d.wf(),
            r matches Err(e) ==> e.kind == ErrorKind::DecodeError,
            forall|d: Database|
                #[trigger] d.spec_image_of(source@) ==> (r matches Ok(d2) && d2.feeds()
                    == d.feeds() && d2.items() == d.items()),
    {
        let mut rd = crate::key_value::Reader::new(source);
        let magic = match rd.read_u32() {
            Ok(x) => x,
            Err(e) => {
                proof {
                    assert forall|d: Database| #[trigger] d.spec_image_of(source@) implies false by {
                        reveal(Database::spec_image_of);
                        lemma_db_header(d);
                    }
                }
                return Err(corrupt(e));
            },
        };
        if magic != DB_MAGIC {
            proof {
                assert forall|d: Database| #[trigger] d.spec_image_of(source@) implies false by {
                    reveal(Database::spec_image_of);
                    lemma_db_header(d);
                }
            }
            return Err(
                Error::new(ErrorKind::DecodeError, "Database is corrupt: unrecognized header")
                    .into_error(),
            );
        }
        let count = match rd.read_u32() {
            Ok(x) => x,
            Err(e) => {
                proof {
                    assert forall|d: Database| #[trigger] d.spec_image_of(source@) implies false by {
                        reveal(Database::spec_image_of);
                        lemma_db_header(d);
                    }
                }
                return Err(corrupt(e));
            },
        };
        let feed_min = FeedKey::min_search();
        let item_min = crate::key_value::KeyKind(crate::key_value::KEY_KIND_ITEM_NUM).to_bytes();
        let mut table: Table<StoredValue> = Table::new();
        proof {
            assert forall|d: Database| #[trigger] d.spec_image_of(source@) implies
                spec_parse_state(d, count, 0, table, rd.remaining()) by {
                reveal(Database::spec_image_of);
                lemma_db_header(d);
                reveal(spec_parse_state);
                assert(rd.remaining() == d.spec_entries_bytes_from(0));
            }
        }
        let mut c: u32 = 0;
        while c < count
            invariant
                table.wf(),
                rd.wf(),
                rd.data@ == source@,
                c <= count,
                forall|k: Seq<u8>| #[trigger]
                    table@.contains_key(k) ==> value_matches(k, table@[k]),
                forall|d: Database|
                    #[trigger] d.spec_image_of(source@) ==> spec_parse_state(
                        d,
                        count,
                        c,
                        table,
                        rd.remaining(),
                    ),
            decreases count - c,
        {
            proof {
                assert forall|d: Database| #[trigger] d.spec_image_of(source@) implies (c as int)
                    < d.table.entries@.len() by {
                    reveal(spec_parse_state);
                }
            }
            match Self::parse_entry(&mut rd, &mut table, Ghost(count), Ghost(c)) {
                Ok(()) => {},
                Err(e) => {
                    return Err(e);
                },
            }
            c = c + 1;
        }
        if rd.pos != source.len() {
            proof {
                assert forall|d: Database| #[trigger] d.spec_image_of(source@) implies false by {
                    reveal(spec_parse_state);
                    reveal(Database::spec_image_of);
                    assert(rd.remaining() == d.spec_entries_bytes_from(c as int));
                    assert(d.spec_entries_bytes_from(c as int) =~= Seq::<u8>::empty());
                }
            }
            return Err(
                Error::new(ErrorKind::DecodeError, "Database is corrupt: trailing bytes")
                    .into_error(),
            );
        }
        let db = Database { table };
        let valid = db.validate();
        proof {
            assert forall|d: Database| #[trigger] d.spec_image_of(source@) implies db.wf()
                && db.feeds() == d.feeds() && db.items() == d.items() by {
                reveal(spec_parse_state);
                reveal(Database::spec_image_of);
                Table::<StoredValue>::lemma_equal_entries_equal_views(db.table, d.table);
                lemma_same_view_same_store(d, db);
            }
        }
        match valid {
            Ok(()) => Ok(db),
            Err(e) => Err(e),
        }
    }

    /// Checks the parts of well-formedness that span records: distinct feed
    /// ids, and an owning feed for every item record.
    fn validate(&self) -> (r: Result<(), Error>)
        requires
            self.table.wf(),
            forall|k: Seq<u8>| #[trigger]
                self.table@.contains_key(k) ==> value_matches(k, self.table@[k]),
        ensures
            r is Ok ==> self.wf(),
            self.wf() ==> r is Ok,
            r matches Err(e) ==> e.kind == ErrorKind::DecodeError,
    {
        let n = self.table.len();
        let mut i: usize = 0;
        while i < n
            invariant
                self.table.wf(),
                forall|k: Seq<u8>| #[trigger]
                    self.table@.contains_key(k) ==> value_matches(k, self.table@[k]),
                i <= n,
                n == self.table.entries@.len(),
                forall|j1: int, j2: int|
                    0 <= j1 < j2 < i && spec_is_feed_key(#[trigger] self.table.entries@[j1].0@)
                        && spec_is_feed_key(#[trigger] self.table.entries@[j2].0@)
                        ==> self.table.entries@[j1].1->ForFeed_0.feed_id.0
                        != self.table.entries@[j2].1->ForFeed_0.feed_id.0,
                forall|j: int|
                    0 <= j < i && spec_is_item_key(#[trigger] self.table.entries@[j].0@)
                        ==> exists|jj: int|
                        0 <= jj < n && spec_is_feed_key(#[trigger] self.table.entries@[jj].0@)
                            && self.table.entries@[jj].1->ForFeed_0.feed_id.0
                            == spec_item_key_feed_id(self.table.entries@[j].0@),
            decreases n - i,
        {
            proof {
                self.table.lemma_entry_in_view(i as int);
            }
            match self.table.value_at(i) {
                StoredValue::ForFeed(fv) => {
                    proof {
                        lemma_feed_item_keys_distinct(self.table.entries@[i as int].0@);
                    }
                    let mut j: usize = 0;
                    while j < i
                        invariant
                            self.table.wf(),
                            forall|k: Seq<u8>| #[trigger]
                                self.table@.contains_key(k) ==> value_matches(k, self.table@[k]),
                            j <= i < n,
                            n == self.table.entries@.len(),
                            self.table.entries@[i as int].1 == StoredValue::ForFeed(*fv),
                            spec_is_feed_key(self.table.entries@[i as int].0@),
                            forall|jj: int|
                                0 <= jj < j && spec_is_feed_key(
                                    #[trigger] self.table.entries@[jj].0@,
                                ) ==> self.table.entries@[jj].1->ForFeed_0.feed_id.0
                                    != fv.feed_id.0,
                        decreases i - j,
                    {
                        proof {
                            self.table.lemma_entry_in_view(j as int);
                        }
                        match self.table.value_at(j) {
                            StoredValue::ForFeed(other) => {
                                if other.feed_id.0 == fv.feed_id.0 {
                                    // Two feed records with one id: not
                                    // well-formed.
                                    proof {
                                        if self.wf() {
                                            self.table.lemma_entry_in_view(i as int);
                                            self.table.lemma_entry_in_view(j as int);
                                            let ki = self.table.entries@[i as int].0@;
                                            let kj = self.table.entries@[j as int].0@;
                                            if ki == kj {
                                                self.table.lemma_key_unique(i as int, j as int);
                                            }
                                            assert(self.feed_id_of(ki) == fv.feed_id.0);
                                            assert(self.feed_id_of(kj) == other.feed_id.0);
                                        }
                                    }
                                    return Err(
                                        Error::new(
                                            ErrorKind::DecodeError,
                                            "Database is corrupt: duplicate feed id",
                                        ).into_error(),
                                    );
                                }
                            },
                            StoredValue::ForItem(_) => {
                                proof {
                                    lemma_feed_item_keys_distinct(
                                        self.table.entries@[j as int].0@,
                                    );
                                }
                            },
                        }
                        j = j + 1;
                    }
                },
                StoredValue::ForItem(_) => {
                    proof {
                        lemma_feed_item_keys_distinct(self.table.entries@[i as int].0@);
                    }
                    let fid = {
                        let key = self.table.key_at(i);
                        match ItemKey::from_bytes(key.as_slice()) {
                            Ok(ik) => ik.feed_id.0,
                            Err(_) => {
                                proof {
                                    assert(false);
                                }
                                0
                            },
                        }
                    };
                    let mut j: usize = 0;
                    let mut found = false;
                    loop
                        invariant_except_break
                            !found,
                        invariant
                            self.table.wf(),
                            forall|k: Seq<u8>| #[trigger]
                                self.table@.contains_key(k) ==> value_matches(k, self.table@[k]),
                            j <= n,
                            i < n,
                            n == self.table.entries@.len(),
                            fid == spec_item_key_feed_id(self.table.entries@[i as int].0@),
                            forall|jj: int|
                                0 <= jj < j && spec_is_feed_key(
                                    #[trigger] self.table.entries@[jj].0@,
                                ) ==> self.table.entries@[jj].1->ForFeed_0.feed_id.0 != fid,
                        ensures
                            j <= n,
                            n == self.table.entries@.len(),
                            fid == spec_item_key_feed_id(self.table.entries@[i as int].0@),
                            found ==> j < n && spec_is_feed_key(self.table.entries@[j as int].0@)
                                && self.table.entries@[j as int].1->ForFeed_0.feed_id.0 == fid,
                            !found ==> forall|jj: int|
                                0 <= jj < n && spec_is_feed_key(
                                    #[trigger] self.table.entries@[jj].0@,
                                ) ==> self.table.entries@[jj].1->ForFeed_0.feed_id.0 != fid,
                        decreases n - j,
                    {
                        if j == n {
                            break;
                        }
                        proof {
                            self.table.lemma_entry_in_view(j as int);
                        }
                        match self.table.value_at(j) {
                            StoredValue::ForFeed(other) => {
                                if other.feed_id.0 == fid {
                                    found = true;
                                    break;
                                }
                            },
                            StoredValue::ForItem(_) => {
                                proof {
                                    lemma_feed_item_keys_distinct(
                                        self.table.entries@[j as int].0@,
                                    );
                                }
                            },
                        }
                        j = j + 1;
                    }
                    if !found {
                        // An item record without its feed: not well-formed.
                        proof {
                            if self.wf() {
                                let ki = self.table.entries@[i as int].0@;
                                assert(self.owner_exists(spec_item_key_feed_id(ki)));
                                let k2 = choose|k2: Seq<u8>|
                                    #[trigger] self.table@.contains_key(k2) && spec_is_feed_key(
                                        k2,
                                    ) && self.feed_id_of(k2) == spec_item_key_feed_id(ki);
                                let w = self.table.spec_index_of(k2);
                                self.table.lemma_entry_in_view(w);
                                assert(self.table.entries@[w].0@ == k2);
                                assert(self.table.entries@[w].1->ForFeed_0.feed_id.0 == fid);
                            }
                        }
                        return Err(
                            Error::new(
                                ErrorKind::DecodeError,
                                "Database is corrupt: item record without its feed",
                            ).into_error(),
                        );
                    }
                    proof {
                        assert(spec_is_feed_key(self.table.entries@[j as int].0@)
                            && self.table.entries@[j as int].1->ForFeed_0.feed_id.0
                            == spec_item_key_feed_id(self.table.entries@[i as int].0@));
                    }
                },
            }
            i = i + 1;
        }
        proof {
            assert forall|k1: Seq<u8>, k2: Seq<u8>|
                self.table@.contains_key(k1) && self.table@.contains_key(k2) && spec_is_feed_key(
                    k1,
                ) && spec_is_feed_key(k2) && k1 != k2 implies self.feed_id_of(k1)
                != self.feed_id_of(k2) by {
                let w1 = self.table.spec_index_of(k1);
                let w2 = self.table.spec_index_of(k2);
                self.table.lemma_entry_in_view(w1);
                self.table.lemma_entry_in_view(w2);
                assert(w1 != w2);
            }
            assert forall|k: Seq<u8>| #[trigger]
                self.table@.contains_key(k) && spec_is_item_key(k) implies self.owner_exists(
                spec_item_key_feed_id(k),
            ) by {
                let w = self.table.spec_index_of(k);
                self.table.lemma_entry_in_view(w);
                let jj = choose|jj: int|
                    0 <= jj < self.table.entries@.len() && spec_is_feed_key(
                        #[trigger] self.table.entries@[jj].0@,
                    ) && self.table.entries@[jj].1->ForFeed_0.feed_id.0 == spec_item_key_feed_id(
                        k,
                    );
                self.table.lemma_entry_in_view(jj);
                assert(self.table@.contains_key(self.table.entries@[jj].0@));
            }
            assert forall|k: Seq<u8>| #[trigger]
                self.table@.contains_key(k) implies self.entry_ok(k) by {}
        }
        Ok(())
    }
}

// ---------------------------------------------------------------------------
// The fetch-and-send session
// ---------------------------------------------------------------------------

/// Ghost state of one fetch-and-send session: the item table as it evolves,
/// the items handed to the sender so far, and whether the session stopped.
pub ghost struct SessV {
    pub items: Map<(u32, Seq<char>), ItemValue>,
    pub sends: Seq<(FeedMeta, FeedItem)>,
    pub halted: bool,
    pub unknown: bool,
    pub failed: Option<(FeedMeta, FeedItem)>,
}

/// One item reconciled, when the environment grants `n` successful sends in
/// the whole session: a known item only has its last-fetched time refreshed;
/// a new one is delivered and recorded, or, if delivery fails, stops the
/// session with nothing further written.
pub open spec fn spec_session_item(
    st: SessV,
    fid: u32,
    meta: FeedMeta,
    it: FeedItem,
    ts: Timestamp,
    no_send: bool,
    n: nat,
) -> SessV {
    if st.halted || st.unknown {
        st
    } else if st.items.contains_key((fid, it.id@)) {
        SessV {
            items: st.items.insert(
                (fid, it.id@),
                ItemValue {
                    when_first_fetched: st.items[(fid, it.id@)].when_first_fetched,
                    when_last_fetched: ts,
                },
            ),
            sends: st.sends,
            halted: st.halted,
            unknown: st.unknown,
            failed: st.failed,
        }
    } else if no_send {
        SessV {
            items: st.items.insert(
                (fid, it.id@),
                ItemValue { when_first_fetched: ts, when_last_fetched: ts },
            ),
            sends: st.sends,
            halted: st.halted,
            unknown: st.unknown,
            failed: st.failed,
        }
    } else if st.sends.len() < n {
        SessV {
            items: st.items.insert(
                (fid, it.id@),
                ItemValue { when_first_fetched: ts, when_last_fetched: ts },
            ),
            sends: st.sends.push((meta, it)),
            halted: st.halted,
            unknown: st.unknown,
            failed: st.failed,
        }
    } else {
        SessV {
            items: st.items,
            sends: st.sends,
            halted: true,
            unknown: st.unknown,
            failed: Some((meta, it)),
        }
    }
}

/// A feed's items reconciled in parser order.
pub open spec fn spec_session_items(
    st: SessV,
    fid: u32,
    meta: FeedMeta,
    items: Seq<FeedItem>,
    ts: Timestamp,
    no_send: bool,
    n: nat,
) -> SessV
    decreases items.len(),
{
    if items.len() == 0 {
        st
    } else {
        spec_session_items(
            spec_session_item(st, fid, meta, items[0], ts, no_send, n),
            fid,
            meta,
            items.drop_first(),
            ts,
            no_send,
            n,
        )
    }
}

/// One pipeline result consumed: a transport error is skipped, a feed that
/// the store does not know stops the session as unknown, and a known feed
/// has its items reconciled.
pub open spec fn spec_session_feed(
    st: SessV,
    feeds: Map<Seq<char>, FeedValue>,
    res: Result<Feed, String>,
    ts: Timestamp,
    no_send: bool,
    n: nat,
) -> SessV {
    match res {
        Err(_) => st,
        Ok(feed) => {
            if st.halted || st.unknown {
                st
            } else if !feeds.contains_key(feed.meta.feed_url@) {
                SessV {
                    items: st.items,
                    sends: st.sends,
                    halted: st.halted,
                    unknown: true,
                    failed: st.failed,
                }
            } else {
                spec_session_items(
                    st,
                    feeds[feed.meta.feed_url@].feed_id.0,
                    feed.meta,
                    feed.items@,
                    ts,
                    no_send,
                    n,
                )
            }
        },
    }
}

/// The whole session: the pipeline's results consumed in order.
pub open spec fn spec_session_results(
    st: SessV,
    feeds: Map<Seq<char>, FeedValue>,
    results: Seq<Result<Feed, String>>,
    ts: Timestamp,
    no_send: bool,
    n: nat,
) -> SessV
    decreases results.len(),
{
    if results.len() == 0 {
        st
    } else {
        spec_session_results(
            spec_session_feed(st, feeds, results[0], ts, no_send, n),
            feeds,
            results.drop_first(),
            ts,
            no_send,
            n,
        )
    }
}

/// A stopped session stays stopped: nothing further is written or sent.
pub proof fn lemma_session_items_absorbs(
    st: SessV,
    fid: u32,
    meta: FeedMeta,
    items: Seq<FeedItem>,
    ts: Timestamp,
    no_send: bool,
    n: nat,
)
    requires
        st.halted || st.unknown,
    ensures
        spec_session_items(st, fid, meta, items, ts, no_send, n) == st,
    decreases items.len(),
{
    if items.len() > 0 {
        lemma_session_items_absorbs(st, fid, meta, items.drop_first(), ts, no_send, n);
    }
}

/// A stopped session stays stopped across the remaining results too.
pub proof fn lemma_session_results_absorbs(
    st: SessV,
    feeds: Map<Seq<char>, FeedValue>,
    results: Seq<Result<Feed, String>>,
    ts: Timestamp,
    no_send: bool,
    n: nat,
)
    requires
        st.halted || st.unknown,
    ensures
        spec_session_results(st, feeds, results, ts, no_send, n) == st,
    decreases results.len(),
{
    if results.len() > 0 {
        match results[0] {
            Err(_) => {},
            Ok(_) => {},
        }
        lemma_session_results_absorbs(st, feeds, results.drop_first(), ts, no_send, n);
    }
}

/// Reconciling one more item extends the fold by one step.
pub proof fn lemma_session_items_snoc(
    st: SessV,
    fid: u32,
    meta: FeedMeta,
    items: Seq<FeedItem>,
    j: int,
    ts: Timestamp,
    no_send: bool,
    n: nat,
)
    requires
        0 <= j < items.len(),
    ensures
        spec_session_items(st, fid, meta, items.take(j + 1), ts, no_send, n)
            == spec_session_item(
            spec_session_items(st, fid, meta, items.take(j), ts, no_send, n),
            fid,
            meta,
            items[j],
            ts,
            no_send,
            n,
        ),
    decreases j,
{
    if j == 0 {
        assert(items.take(1).len() == 1 && items.take(1)[0] == items[0]);
        assert(items.take(1).drop_first() =~= items.take(0));
        assert(items.take(0).len() == 0);
    } else {
        assert(items.take(j + 1)[0] == items[0]);
        assert(items.take(j)[0] == items[0]);
        assert(items.take(j + 1).drop_first() =~= items.drop_first().take(j));
        assert(items.take(j).drop_first() =~= items.drop_first().take(j - 1));
        assert(items.drop_first().take(j - 1).len() == j - 1);
        assert(items.drop_first()[j - 1] == items[j]);
        lemma_session_items_snoc(
            spec_session_item(st, fid, meta, items[0], ts, no_send, n),
            fid,
            meta,
            items.drop_first(),
            j - 1,
            ts,
            no_send,
            n,
        );
    }
}

/// Consuming one more result extends the fold by one step.
pub proof fn lemma_session_results_snoc(
    st: SessV,
    feeds: Map<Seq<char>, FeedValue>,
    results: Seq<Result<Feed, String>>,
    i: int,
    ts: Timestamp,
    no_send: bool,
    n: nat,
)
    requires
        0 <= i < results.len(),
    ensures
        spec_session_results(st, feeds, results.take(i + 1), ts, no_send, n)
            == spec_session_feed(
            spec_session_results(st, feeds, results.take(i), ts, no_send, n),
            feeds,
            results[i],
            ts,
            no_send,
            n,
        ),
    decreases i,
{
    if i == 0 {
        assert(results.take(1).len() == 1 && results.take(1)[0] == results[0]);
        assert(results.take(1).drop_first() =~= results.take(0));
        assert(results.take(0).len() == 0);
        let st1 = spec_session_feed(st, feeds, results[0], ts, no_send, n);
        assert(spec_session_results(st, feeds, results.take(0), ts, no_send, n) == st);
        assert(spec_session_results(st, feeds, results.take(1), ts, no_send, n)
            == spec_session_results(st1, feeds, results.take(1).drop_first(), ts, no_send, n));
        assert(spec_session_results(st1, feeds, results.take(0), ts, no_send, n) == st1);
    } else {
        assert(results.take(i + 1)[0] == results[0]);
        assert(results.take(i)[0] == results[0]);
        assert(results.take(i + 1).drop_first() =~= results.drop_first().take(i));
        assert(results.take(i).drop_first() =~= results.drop_first().take(i - 1));
        assert(results.drop_first()[i - 1] == results[i]);
        let st1 = spec_session_feed(st, feeds, results[0], ts, no_send, n);
        lemma_session_results_snoc(st1, feeds, results.drop_first(), i - 1, ts, no_send, n);
        assert(spec_session_results(st, feeds, results.take(i + 1), ts, no_send, n)
            == spec_session_results(st1, feeds, results.drop_first().take(i), ts, no_send, n));
        assert(spec_session_results(st, feeds, results.take(i), ts, no_send, n)
            == spec_session_results(st1, feeds, results.drop_first().take(i - 1), ts, no_send, n));
    }
}

/// Options narrowing one fetch-and-send session.
#[derive(Debug)]
pub struct FetchAndSendOptions {
    pub feed_urls: Option<Vec<String>>,
    pub no_send: bool,
}

/// Whether a feed URL falls inside the options' narrowing.
pub open spec fn spec_should_fetch(opts: FetchAndSendOptions, u: Seq<char>) -> bool {
    match opts.feed_urls {
        None => true,
        Some(v) => exists|i: int| 0 <= i < v@.len() && (#[trigger] v@[i])@ == u,
    }
}

impl FetchAndSendOptions {
    pub fn new() -> (r: Self)
        ensures
            r.feed_urls is None,
            r.no_send == false,
    {
        FetchAndSendOptions { feed_urls: None, no_send: false }
    }

    /// Narrows the session to the given feed URLs.
    pub fn with_feed_urls(&mut self, feed_urls: Vec<String>)
        ensures
            final(self).feed_urls == Some(feed_urls),
            final(self).no_send == old(self).no_send,
    {
        self.feed_urls = Some(feed_urls);
    }

    /// Runs the session without delivering: new items are recorded as if
    /// sent.
    pub fn with_no_send(&mut self, no_send: bool)
        ensures
            final(self).feed_urls == old(self).feed_urls,
            final(self).no_send == no_send,
    {
        self.no_send = no_send;
    }

    /// Whether this URL should be fetched under the narrowing.
    pub fn should_fetch(&self, feed_url: &str) -> (r: bool)
        ensures
            r == spec_should_fetch(*self, feed_url@),
    {
        match &self.feed_urls {
            None => true,
            Some(v) => {
                let m = v.len();
                let mut i: usize = 0;
                while i < m
                    invariant
                        i <= m,
                        m == v@.len(),
                        self.feed_urls == Some(*v),
                        forall|j: int| 0 <= j < i ==> (#[trigger] v@[j])@ != feed_url@,
                    decreases m - i,
                {
                    if crate::feed::str_eq(
                        vstd::std_specs::vec::vec_index(v, i).as_str(),
                        feed_url,
                    ) {
                        proof {
                            assert(self.feed_urls->0 == *v);
                            assert((v@[i as int])@ == feed_url@);
                            assert(((self.feed_urls->0)@[i as int])@ == feed_url@);
                        }
                        return true;
                    }
                    i = i + 1;
                }
                false
            },
        }
    }
}

/// A fold over a feed's items can be cut at any point: reconciling the rest
/// continues from the state the first part reached.
pub proof fn lemma_session_items_split(
    st: SessV,
    fid: u32,
    meta: FeedMeta,
    items: Seq<FeedItem>,
    j: int,
    ts: Timestamp,
    no_send: bool,
    n: nat,
)
    requires
        0 <= j <= items.len(),
    ensures
        spec_session_items(st, fid, meta, items, ts, no_send, n) == spec_session_items(
            spec_session_items(st, fid, meta, items.take(j), ts, no_send, n),
            fid,
            meta,
            items.skip(j),
            ts,
            no_send,
            n,
        ),
    decreases j,
{
    if j == 0 {
        assert(items.take(0).len() == 0);
        assert(items.skip(0) =~= items);
    } else {
        assert(items.len() > 0);
        assert(items.take(j)[0] == items[0]);
        assert(items.take(j).drop_first() =~= items.drop_first().take(j - 1));
        assert(items.skip(j) =~= items.drop_first().skip(j - 1));
        lemma_session_items_split(
            spec_session_item(st, fid, meta, items[0], ts, no_send, n),
            fid,
            meta,
            items.drop_first(),
            j - 1,
            ts,
            no_send,
            n,
        );
    }
}

/// A fold over the results can be cut at any point.
pub proof fn lemma_session_results_split(
    st: SessV,
    feeds: Map<Seq<char>, FeedValue>,
    results: Seq<Result<Feed, String>>,
    i: int,
    ts: Timestamp,
    no_send: bool,
    n: nat,
)
    requires
        0 <= i <= results.len(),
    ensures
        spec_session_results(st, feeds, results, ts, no_send, n) == spec_session_results(
            spec_session_results(st, feeds, results.take(i), ts, no_send, n),
            feeds,
            results.skip(i),
            ts,
            no_send,
            n,
        ),
    decreases i,
{
    if i == 0 {
        assert(results.take(0).len() == 0);
        assert(results.skip(0) =~= results);
    } else {
        assert(results.len() > 0);
        assert(results.take(i)[0] == results[0]);
        assert(results.take(i).drop_first() =~= results.drop_first().take(i - 1));
        assert(results.skip(i) =~= results.drop_first().skip(i - 1));
        lemma_session_results_split(
            spec_session_feed(st, feeds, results[0], ts, no_send, n),
            feeds,
            results.drop_first(),
            i - 1,
            ts,
            no_send,
            n,
        );
    }
}

impl Database {
    /// Writing an item record changes the item table at exactly that item
    /// and nothing else, provided its feed exists.
    proof fn lemma_insert_item(pre: Database, post: Database, fid: u32, id: Seq<char>, iv: ItemValue)
        requires
            pre.wf(),
            pre.owner_exists(fid),
            post.table.wf(),
            post.table@ == pre.table@.insert(
                spec_item_key_bytes(fid, id),
                StoredValue::ForItem(iv),
            ),
        ensures
            post.wf(),
            post.owner_exists(fid),
            post.feeds() == pre.feeds(),
            post.items() == pre.items().insert((fid, id), iv),
    {
        let ik = spec_item_key_bytes(fid, id);
        lemma_item_key_round_trip(fid, id);
        lemma_feed_item_keys_distinct(ik);
        assert forall|k: Seq<u8>| #[trigger]
            post.table@.contains_key(k) implies post.entry_ok(k) by {
            if k != ik {
                assert(pre.table@.contains_key(k) && pre.entry_ok(k));
            }
        }
        assert forall|k1: Seq<u8>, k2: Seq<u8>|
            post.table@.contains_key(k1) && post.table@.contains_key(k2) && spec_is_feed_key(k1)
                && spec_is_feed_key(k2) && k1 != k2 implies post.feed_id_of(k1)
            != post.feed_id_of(k2) by {
            assert(k1 != ik && k2 != ik);
            assert(pre.table@.contains_key(k1) && pre.table@.contains_key(k2));
        }
        let owner = choose|k2: Seq<u8>|
            #[trigger] pre.table@.contains_key(k2) && spec_is_feed_key(k2) && pre.feed_id_of(k2)
                == fid;
        assert(owner != ik);
        assert(post.table@.contains_key(owner) && post.feed_id_of(owner) == fid);
        assert(post.owner_exists(fid));
        assert forall|k: Seq<u8>| #[trigger]
            post.table@.contains_key(k) && spec_is_item_key(k) implies post.owner_exists(
            spec_item_key_feed_id(k),
        ) by {
            if k == ik {
            } else {
                assert(pre.table@.contains_key(k));
                assert(pre.owner_exists(spec_item_key_feed_id(k)));
                let o2 = choose|k2: Seq<u8>|
                    #[trigger] pre.table@.contains_key(k2) && spec_is_feed_key(k2)
                        && pre.feed_id_of(k2) == spec_item_key_feed_id(k);
                assert(o2 != ik);
                assert(post.table@.contains_key(o2) && post.feed_id_of(o2)
                    == spec_item_key_feed_id(k));
            }
        }
        assert(post.feeds() =~= pre.feeds()) by {
            assert forall|u: Seq<char>| spec_feed_key_bytes(u) != ik by {
                lemma_feed_key_round_trip(u);
            }
        }
        assert(post.items() =~= pre.items().insert((fid, id), iv)) by {
            assert forall|p: (u32, Seq<char>)|
                spec_item_key_bytes(p.0, p.1) == ik implies p == (fid, id) by {
                lemma_item_key_round_trip(p.0, p.1);
            }
        }
    }

    /// Reconciles one fetched feed against the store: known items only have
    /// their last-fetched time refreshed; new items are delivered and then
    /// recorded, and a delivery failure stops everything.  Returns whether
    /// the session must stop, together with what was delivered and what
    /// failed.
    fn reconcile_feed<S: crate::feed::Sender>(
        &mut self,
        fid: u32,
        feed: &Feed,
        now: Timestamp,
        sender: &mut S,
        no_send: bool,
        Ghost(prev_sends): Ghost<Seq<(FeedMeta, FeedItem)>>,
    ) -> (r: (bool, Ghost<(Seq<(FeedMeta, FeedItem)>, Option<(FeedMeta, FeedItem)>)>))
        requires
            old(self).wf(),
            old(self).owner_exists(fid),
        ensures
            final(self).wf(),
            final(self).feeds() == old(self).feeds(),
            final(self).owner_exists(fid),
            ({
                let entry = SessV {
                    items: old(self).items(),
                    sends: prev_sends,
                    halted: false,
                    unknown: false,
                    failed: None,
                };
                let delta = r.1@.0;
                &&& final(sender).sent() == old(sender).sent() + delta
                &&& !r.0 ==> {
                    &&& r.1@.1 is None
                    &&& final(sender).attempted() == old(sender).attempted() + delta
                    &&& forall|n: nat|
                        n >= prev_sends.len() + delta.len() ==> #[trigger] spec_session_items(
                            entry,
                            fid,
                            feed.meta,
                            feed.items@,
                            now,
                            no_send,
                            n,
                        ) == (SessV {
                            items: final(self).items(),
                            sends: prev_sends + delta,
                            halted: false,
                            unknown: false,
                            failed: None,
                        })
                }
                &&& r.0 ==> {
                    &&& r.1@.1 matches Some(fp) && final(sender).attempted() == old(
                        sender,
                    ).attempted() + delta.push(fp)
                    &&& spec_session_items(
                        entry,
                        fid,
                        feed.meta,
                        feed.items@,
                        now,
                        no_send,
                        (prev_sends.len() + delta.len()) as nat,
                    ) == (SessV {
                        items: final(self).items(),
                        sends: prev_sends + delta,
                        halted: true,
                        unknown: false,
                        failed: r.1@.1,
                    })
                }
            }),
    {
        let ghost entry = SessV {
            items: old(self).items(),
            sends: prev_sends,
            halted: false,
            unknown: false,
            failed: None,
        };
        let ghost sent0 = sender.sent();
        let ghost att0 = sender.attempted();
        let ghost mut delta: Seq<(FeedMeta, FeedItem)> = Seq::empty();
        let nitems = feed.items.len();
        let mut j: usize = 0;
        while j < nitems
            invariant
                self.wf(),
                self.feeds() == old(self).feeds(),
                self.owner_exists(fid),
                j <= nitems,
                nitems == feed.items@.len(),
                sent0 == old(sender).sent(),
                att0 == old(sender).attempted(),
                sender.sent() == sent0 + delta,
                sender.attempted() == att0 + delta,
                entry == (SessV {
                    items: old(self).items(),
                    sends: prev_sends,
                    halted: false,
                    unknown: false,
                    failed: None,
                }),
                forall|n: nat|
                    n >= prev_sends.len() + delta.len() ==> #[trigger] spec_session_items(
                        entry,
                        fid,
                        feed.meta,
                        feed.items@.take(j as int),
                        now,
                        no_send,
                        n,
                    ) == (SessV {
                        items: self.items(),
                        sends: prev_sends + delta,
                        halted: false,
                        unknown: false,
                        failed: None,
                    }),
            decreases nitems - j,
        {
            let item = vstd::std_specs::vec::vec_index(&feed.items, j);
            let key = ItemKey { feed_id: FeedId::new(fid), item_id: item.id.as_str() }.to_bytes();
            let ghost pre = *self;
            let found: Option<ItemValue> = match self.table.get(key.as_slice()) {
                Some(StoredValue::ForItem(iv)) => Some(*iv),
                Some(StoredValue::ForFeed(_)) => {
                    proof {
                        lemma_item_key_round_trip(fid, item.id@);
                        lemma_feed_item_keys_distinct(spec_item_key_bytes(fid, item.id@));
                        assert(self.entry_ok(spec_item_key_bytes(fid, item.id@)));
                        assert(false);
                    }
                    None
                },
                None => None,
            };
            match found {
                Some(iv) => {
                    // The item is already recorded: refresh only the
                    // last-fetched time; it is never re-delivered.
                    let refreshed = ItemValue {
                        when_first_fetched: iv.when_first_fetched,
                        when_last_fetched: now,
                    };
                    self.table.insert(key, StoredValue::ForItem(refreshed));
                    proof {
                        Self::lemma_insert_item(pre, *self, fid, item.id@, refreshed);
                        assert(pre.items().contains_key((fid, item.id@)));
                        assert(pre.items()[(fid, item.id@)] == iv);
                        assert forall|n: nat|
                            n >= prev_sends.len() + delta.len() implies #[trigger] spec_session_items(
                            entry,
                            fid,
                            feed.meta,
                            feed.items@.take(j + 1),
                            now,
                            no_send,
                            n,
                        ) == (SessV {
                            items: self.items(),
                            sends: prev_sends + delta,
                            halted: false,
                            unknown: false,
                            failed: None,
                        }) by {
                            lemma_session_items_snoc(
                                entry,
                                fid,
                                feed.meta,
                                feed.items@,
                                j as int,
                                now,
                                no_send,
                                n,
                            );
                        }
                    }
                },
                None => {
                    proof {
                        lemma_item_key_round_trip(fid, item.id@);
                        assert(!pre.items().contains_key((fid, item.id@)));
                    }
                    if !no_send {
                        match sender.send(&feed.meta, item) {
                            Ok(_) => {},
                            Err(_) => {
                                // Delivery failed: stop everything; what was
                                // written so far stays.
                                let ghost fp = (feed.meta, *item);
                                proof {
                                    let npin = (prev_sends.len() + delta.len()) as nat;
                                    lemma_session_items_snoc(
                                        entry,
                                        fid,
                                        feed.meta,
                                        feed.items@,
                                        j as int,
                                        now,
                                        no_send,
                                        npin,
                                    );
                                    let halted_st = spec_session_items(
                                        entry,
                                        fid,
                                        feed.meta,
                                        feed.items@.take(j + 1),
                                        now,
                                        no_send,
                                        npin,
                                    );
                                    assert(halted_st == (SessV {
                                        items: self.items(),
                                        sends: prev_sends + delta,
                                        halted: true,
                                        unknown: false,
                                        failed: Some(fp),
                                    }));
                                    lemma_session_items_split(
                                        entry,
                                        fid,
                                        feed.meta,
                                        feed.items@,
                                        j + 1,
                                        now,
                                        no_send,
                                        npin,
                                    );
                                    lemma_session_items_absorbs(
                                        halted_st,
                                        fid,
                                        feed.meta,
                                        feed.items@.skip(j + 1),
                                        now,
                                        no_send,
                                        npin,
                                    );
                                }
                                return (true, Ghost((delta, Some((feed.meta, *item)))));
                            },
                        }
                    }
                    let fresh = ItemValue { when_first_fetched: now, when_last_fetched: now };
                    self.table.insert(key, StoredValue::ForItem(fresh));
                    proof {
                        Self::lemma_insert_item(pre, *self, fid, item.id@, fresh);
                        let delta0 = delta;
                        if !no_send {
                            delta = delta.push((feed.meta, *item));
                        }
                        assert forall|n: nat|
                            n >= prev_sends.len() + delta.len() implies #[trigger] spec_session_items(
                            entry,
                            fid,
                            feed.meta,
                            feed.items@.take(j + 1),
                            now,
                            no_send,
                            n,
                        ) == (SessV {
                            items: self.items(),
                            sends: prev_sends + delta,
                            halted: false,
                            unknown: false,
                            failed: None,
                        }) by {
                            lemma_session_items_snoc(
                                entry,
                                fid,
                                feed.meta,
                                feed.items@,
                                j as int,
                                now,
                                no_send,
                                n,
                            );
                            if !no_send {
                                assert((prev_sends + delta0).len() < n);
                                assert((prev_sends + delta0).push((feed.meta, *item)) =~= prev_sends
                                    + delta);
                            }
                        }
                    }
                },
            }
            j = j + 1;
        }
        proof {
            assert(feed.items@.take(nitems as int) =~= feed.items@);
        }
        (false, Ghost((delta, None)))
    }

    /// Runs one fetch-and-send session over the results the pipeline
    /// produced, inside the open transaction: for each fetched feed, new
    /// items are delivered and recorded, known items only have their
    /// last-fetched time refreshed, a transport error skips its feed, and a
    /// delivery failure stops all further work while keeping what was
    /// already written — an item ends up recorded exactly when it was handed
    /// to the sender and the sender reported success.
    pub fn fetch_and_send_feeds<S: crate::feed::Sender>(
        &mut self,
        results: Vec<Result<Feed, String>>,
        sender: &mut S,
        options: &FetchAndSendOptions,
    ) -> (r: Result<(), Error>)
        requires
            old(self).wf(),
        ensures
            final(self).wf(),
            final(self).feeds() == old(self).feeds(),
            r matches Err(e) ==> e.kind == ErrorKind::UnknownFeed,
            exists|ts: Timestamp, n: nat|
                {
                    let st = #[trigger] spec_session_results(
                        SessV {
                            items: old(self).items(),
                            sends: Seq::empty(),
                            halted: false,
                            unknown: false,
                            failed: None,
                        },
                        old(self).feeds(),
                        results@,
                        ts,
                        options.no_send,
                        n,
                    );
                    &&& final(self).items() == st.items
                    &&& final(sender).sent() == old(sender).sent() + st.sends
                    &&& (!st.halted ==> final(sender).attempted() == old(sender).attempted()
                        + st.sends)
                    &&& (st.halted ==> (st.failed matches Some(fp) && final(sender).attempted()
                        == old(sender).attempted() + st.sends.push(fp)))
                    &&& (r is Ok <==> !st.unknown)
                    &&& (!st.halted ==> n == st.sends.len())
                },
    {
        let now = system_now();
        let no_send = options.no_send;
        let ghost feeds0 = self.feeds();
        let ghost init = SessV {
            items: self.items(),
            sends: Seq::<(FeedMeta, FeedItem)>::empty(),
            halted: false,
            unknown: false,
            failed: None,
        };
        let ghost sent0 = sender.sent();
        let ghost att0 = sender.attempted();
        let ghost mut gsends: Seq<(FeedMeta, FeedItem)> = Seq::empty();
        let ghost mut gfailed: Option<(FeedMeta, FeedItem)> = None;
        let nres = results.len();
        let mut ri: usize = 0;
        let mut halted_flag = false;
        loop
            invariant_except_break
                !halted_flag,
                gfailed is None,
                sender.attempted() == att0 + gsends,
                forall|n: nat|
                    n >= gsends.len() ==> #[trigger] spec_session_results(
                        init,
                        feeds0,
                        results@.take(ri as int),
                        now,
                        no_send,
                        n,
                    ) == (SessV {
                        items: self.items(),
                        sends: gsends,
                        halted: false,
                        unknown: false,
                        failed: None,
                    }),
            invariant
                self.wf(),
                self.feeds() == feeds0,
                feeds0 == old(self).feeds(),
                init == (SessV {
                    items: old(self).items(),
                    sends: Seq::<(FeedMeta, FeedItem)>::empty(),
                    halted: false,
                    unknown: false,
                    failed: None,
                }),
                ri <= nres,
                nres == results@.len(),
                sent0 == old(sender).sent(),
                att0 == old(sender).attempted(),
                sender.sent() == sent0 + gsends,
                no_send == options.no_send,
            ensures
                self.wf(),
                self.feeds() == feeds0,
                feeds0 == old(self).feeds(),
                init == (SessV {
                    items: old(self).items(),
                    sends: Seq::<(FeedMeta, FeedItem)>::empty(),
                    halted: false,
                    unknown: false,
                    failed: None,
                }),
                sent0 == old(sender).sent(),
                att0 == old(sender).attempted(),
                sender.sent() == sent0 + gsends,
                !halted_flag ==> {
                    &&& sender.attempted() == att0 + gsends
                    &&& forall|n: nat|
                        n >= gsends.len() ==> #[trigger] spec_session_results(
                            init,
                            feeds0,
                            results@,
                            now,
                            no_send,
                            n,
                        ) == (SessV {
                            items: self.items(),
                            sends: gsends,
                            halted: false,
                            unknown: false,
                            failed: None,
                        })
                },
                halted_flag ==> {
                    &&& gfailed matches Some(fp) && sender.attempted() == att0 + gsends.push(fp)
                    &&& spec_session_results(
                        init,
                        feeds0,
                        results@,
                        now,
                        no_send,
                        gsends.len() as nat,
                    ) == (SessV {
                        items: self.items(),
                        sends: gsends,
                        halted: true,
                        unknown: false,
                        failed: gfailed,
                    })
                },
            decreases nres - ri,
        {
            if ri == nres {
                proof {
                    assert(results@.take(nres as int) =~= results@);
                }
                break;
            }
            let res = vstd::std_specs::vec::vec_index(&results, ri);
            match res {
                Err(_) => {
                    proof {
                        assert forall|n: nat|
                            n >= gsends.len() implies #[trigger] spec_session_results(
                            init,
                            feeds0,
                            results@.take(ri + 1),
                            now,
                            no_send,
                            n,
                        ) == (SessV {
                            items: self.items(),
                            sends: gsends,
                            halted: false,
                            unknown: false,
                            failed: None,
                        }) by {
                            lemma_session_results_snoc(
                                init,
                                feeds0,
                                results@,
                                ri as int,
                                now,
                                no_send,
                                n,
                            );
                        }
                    }
                },
                Ok(feed) => {
                    let key = FeedKey::new_search().with_feed_url(
                        feed.meta.feed_url.as_str(),
                    ).to_bytes();
                    let fid_opt: Option<u32> = match self.table.get(key.as_slice()) {
                        Some(StoredValue::ForFeed(fv)) => Some(fv.feed_id.0),
                        Some(StoredValue::ForItem(_)) => {
                            proof {
                                lemma_feed_key_round_trip(feed.meta.feed_url@);
                                lemma_feed_item_keys_distinct(
                                    spec_feed_key_bytes(feed.meta.feed_url@),
                                );
                                assert(self.entry_ok(spec_feed_key_bytes(feed.meta.feed_url@)));
                                assert(false);
                            }
                            None
                        },
                        None => None,
                    };
                    match fid_opt {
                        None => {
                            // The pipeline returned a feed the store does
                            // not know: fail the session.
                            proof {
                                let npin = gsends.len() as nat;
                                lemma_session_results_snoc(
                                    init,
                                    feeds0,
                                    results@,
                                    ri as int,
                                    now,
                                    no_send,
                                    npin,
                                );
                                let ust = SessV {
                                    items: self.items(),
                                    sends: gsends,
                                    halted: false,
                                    unknown: true,
                                    failed: None,
                                };
                                assert(spec_session_results(
                                    init,
                                    feeds0,
                                    results@.take(ri + 1),
                                    now,
                                    no_send,
                                    npin,
                                ) == ust);
                                lemma_session_results_split(
                                    init,
                                    feeds0,
                                    results@,
                                    ri + 1,
                                    now,
                                    no_send,
                                    npin,
                                );
                                lemma_session_results_absorbs(
                                    ust,
                                    feeds0,
                                    results@.skip(ri + 1),
                                    now,
                                    no_send,
                                    npin,
                                );
                                assert(spec_session_results(
                                    init,
                                    feeds0,
                                    results@,
                                    now,
                                    no_send,
                                    npin,
                                ) == ust);
                            }
                            return Err(
                                Error::new(
                                    ErrorKind::UnknownFeed,
                                    "Fetched feed is not in the database",
                                ).into_error(),
                            );
                        },
                        Some(fid) => {
                            proof {
                                lemma_feed_key_round_trip(feed.meta.feed_url@);
                                assert(self.owner_exists(fid)) by {
                                    assert(self.table@.contains_key(
                                        spec_feed_key_bytes(feed.meta.feed_url@),
                                    ) && spec_is_feed_key(spec_feed_key_bytes(feed.meta.feed_url@))
                                        && self.feed_id_of(spec_feed_key_bytes(feed.meta.feed_url@))
                                        == fid);
                                }
                                assert(feeds0.contains_key(feed.meta.feed_url@)
                                    && feeds0[feed.meta.feed_url@].feed_id.0 == fid);
                            }
                            let ghost items_entry = self.items();
                            let rr = self.reconcile_feed(
                                fid,
                                feed,
                                now,
                                sender,
                                no_send,
                                Ghost(gsends),
                            );
                            let ghost delta = rr.1@.0;
                            let ghost entry_st = SessV {
                                items: items_entry,
                                sends: gsends,
                                halted: false,
                                unknown: false,
                                failed: None,
                            };
                            if rr.0 {
                                proof {
                                    let npin = (gsends.len() + delta.len()) as nat;
                                    lemma_session_results_snoc(
                                        init,
                                        feeds0,
                                        results@,
                                        ri as int,
                                        now,
                                        no_send,
                                        npin,
                                    );
                                    let hst = SessV {
                                        items: self.items(),
                                        sends: gsends + delta,
                                        halted: true,
                                        unknown: false,
                                        failed: rr.1@.1,
                                    };
                                    assert(spec_session_results(
                                        init,
                                        feeds0,
                                        results@.take(ri + 1),
                                        now,
                                        no_send,
                                        npin,
                                    ) == hst);
                                    lemma_session_results_split(
                                        init,
                                        feeds0,
                                        results@,
                                        ri + 1,
                                        now,
                                        no_send,
                                        npin,
                                    );
                                    lemma_session_results_absorbs(
                                        hst,
                                        feeds0,
                                        results@.skip(ri + 1),
                                        now,
                                        no_send,
                                        npin,
                                    );
                                    gsends = gsends + delta;
                                    gfailed = rr.1@.1;
                                }
                                halted_flag = true;
                                break;
                            } else {
                                proof {
                                    let gs0 = gsends;
                                    gsends = gsends + delta;
                                    assert forall|n: nat|
                                        n >= gsends.len() implies #[trigger] spec_session_results(
                                        init,
                                        feeds0,
                                        results@.take(ri + 1),
                                        now,
                                        no_send,
                                        n,
                                    ) == (SessV {
                                        items: self.items(),
                                        sends: gsends,
                                        halted: false,
                                        unknown: false,
                                        failed: None,
                                    }) by {
                                        lemma_session_results_snoc(
                                            init,
                                            feeds0,
                                            results@,
                                            ri as int,
                                            now,
                                            no_send,
                                            n,
                                        );
                                        assert(spec_session_results(
                                            init,
                                            feeds0,
                                            results@.take(ri as int),
                                            now,
                                            no_send,
                                            n,
                                        ) == entry_st);
                                    }
                                }
                            }
                        },
                    }
                },
            }
            ri = ri + 1;
        }
        proof {
            if !halted_flag {
                let npin = gsends.len() as nat;
                assert(spec_session_results(init, feeds0, results@, now, no_send, npin)
                    == (SessV {
                    items: self.items(),
                    sends: gsends,
                    halted: false,
                    unknown: false,
                    failed: None,
                }));
            }
        }
        Ok(())
    }

    /// Whether a feed record for this URL exists.
    pub fn contains_feed(&self, feed_url: &str) -> (r: bool)
        requires
            self.wf(),
        ensures
            r == self.feeds().contains_key(feed_url@),
    {
        let key = FeedKey::new_search().with_feed_url(feed_url).to_bytes();
        self.table.get(key.as_slice()).is_some()
    }

    /// Some requested URL is not in the store.
    pub open spec fn spec_unknown_requested(self, opts: FetchAndSendOptions) -> bool {
        match opts.feed_urls {
            None => false,
            Some(v) => exists|i: int|
                0 <= i < v@.len() && !self.feeds().contains_key((#[trigger] v@[i])@),
        }
    }

    /// Selects the candidate feed set of a session: every stored feed,
    /// optionally narrowed to the requested URLs; a requested URL that is
    /// not in the store fails the whole session before any network work.
    pub fn select_feeds(&self, options: &FetchAndSendOptions) -> (r: Result<Vec<String>, Error>)
        requires
            self.wf(),
        ensures
            self.spec_unknown_requested(*options) ==> (r matches Err(e) && e.kind
                == ErrorKind::UnknownFeed),
            !self.spec_unknown_requested(*options) ==> r is Ok,
            !self.spec_unknown_requested(*options) ==> forall|t: int|
                0 <= t < (r->Ok_0)@.len() ==> self.feeds().contains_key(
                    #[trigger] (r->Ok_0)@[t]@,
                ) && spec_should_fetch(*options, (r->Ok_0)@[t]@),
            !self.spec_unknown_requested(*options) ==> forall|u: Seq<char>|
                #[trigger] self.feeds().contains_key(u) && spec_should_fetch(*options, u)
                    ==> exists|t: int| 0 <= t < (r->Ok_0)@.len() && (r->Ok_0)@[t]@ == u,
            !self.spec_unknown_requested(*options) ==> forall|t1: int, t2: int|
                0 <= t1 < t2 < (r->Ok_0)@.len() ==> lex_lt(
                    vstd::utf8::encode_utf8(#[trigger] (r->Ok_0)@[t1]@),
                    vstd::utf8::encode_utf8(#[trigger] (r->Ok_0)@[t2]@),
                ),
    {
        if let Some(req) = &options.feed_urls {
            let m = req.len();
            let mut i: usize = 0;
            while i < m
                invariant
                    self.wf(),
                    i <= m,
                    m == req@.len(),
                    options.feed_urls == Some(*req),
                    forall|j: int|
                        0 <= j < i ==> self.feeds().contains_key((#[trigger] req@[j])@),
                decreases m - i,
            {
                if !self.contains_feed(vstd::std_specs::vec::vec_index(req, i).as_str()) {
                    proof {
                        assert(options.feed_urls->0 == *req);
                        assert(!self.feeds().contains_key(((options.feed_urls->0)@[i as int])@));
                        assert(self.spec_unknown_requested(*options));
                    }
                    return Err(
                        Error::new(ErrorKind::UnknownFeed, "Requested feed is not in the database")
                            .into_error(),
                    );
                }
                i = i + 1;
            }
            proof {
                assert forall|ii: int|
                    0 <= ii < (options.feed_urls->0)@.len() implies self.feeds().contains_key(
                    ((#[trigger] (options.feed_urls->0)@[ii])@),
                ) by {
                    assert(self.feeds().contains_key((req@[ii])@));
                }
                assert(!self.spec_unknown_requested(*options));
            }
        }
        let all = self.feed_urls();
        let total = all.len();
        let mut out: Vec<String> = Vec::new();
        let ghost mut idxs: Seq<int> = Seq::empty();
        let mut t: usize = 0;
        while t < total
            invariant
                self.wf(),
                t <= total,
                total == all@.len(),
                forall|t0: int|
                    0 <= t0 < all@.len() ==> self.feeds().contains_key(#[trigger] all@[t0]@),
                forall|u: Seq<char>|
                    #[trigger] self.feeds().contains_key(u) ==> exists|t0: int|
                        0 <= t0 < all@.len() && all@[t0]@ == u,
                forall|t1: int, t2: int|
                    0 <= t1 < t2 < all@.len() ==> lex_lt(
                        vstd::utf8::encode_utf8(#[trigger] all@[t1]@),
                        vstd::utf8::encode_utf8(#[trigger] all@[t2]@),
                    ),
                idxs.len() == out@.len(),
                forall|t0: int| 0 <= t0 < idxs.len() ==> 0 <= #[trigger] idxs[t0] < t,
                forall|t1: int, t2: int| 0 <= t1 < t2 < idxs.len() ==> idxs[t1] < idxs[t2],
                forall|t0: int|
                    0 <= t0 < idxs.len() ==> (#[trigger] out@[t0]@) == all@[idxs[t0]]@,
                forall|t0: int|
                    0 <= t0 < out@.len() ==> self.feeds().contains_key(#[trigger] out@[t0]@)
                        && spec_should_fetch(*options, out@[t0]@),
                forall|t0: int|
                    0 <= t0 < t && spec_should_fetch(*options, (#[trigger] all@[t0])@)
                        ==> exists|t1: int| 0 <= t1 < out@.len() && out@[t1]@ == all@[t0]@,
            decreases total - t,
        {
            let url = vstd::std_specs::vec::vec_index(&all, t);
            if options.should_fetch(url.as_str()) {
                let ghost out0 = out@;
                out.push(url.clone());
                proof {
                    let idxs0 = idxs;
                    idxs = idxs.push(t as int);
                    assert(idxs.len() == idxs0.len() + 1);
                    assert(forall|t0: int| 0 <= t0 < idxs0.len() ==> idxs[t0] == idxs0[t0]);
                    assert(idxs[idxs0.len() as int] == t as int);
                    assert(out@[out0.len() as int]@ == all@[t as int]@);
                    assert forall|t0: int|
                        0 <= t0 < idxs.len() implies (#[trigger] out@[t0]@)
                        == all@[idxs[t0]]@ by {
                        if t0 < idxs0.len() {
                            assert(out@[t0] == out0[t0] && idxs[t0] == idxs0[t0]);
                        }
                    }
                    assert forall|t0: int|
                        0 <= t0 < t + 1 && spec_should_fetch(
                            *options,
                            (#[trigger] all@[t0])@,
                        ) implies exists|t1: int| 0 <= t1 < out@.len() && out@[t1]@ == all@[t0]@ by {
                        if t0 < t {
                            let t1 = choose|t1: int| 0 <= t1 < out0.len() && out0[t1]@ == all@[t0]@;
                            assert(out@[t1]@ == all@[t0]@);
                        } else {
                            assert(out@[out0.len() as int]@ == all@[t0]@);
                        }
                    }
                }
            }
            t = t + 1;
        }
        proof {
            assert forall|u: Seq<char>|
                #[trigger] self.feeds().contains_key(u) && spec_should_fetch(*options, u) implies
                exists|t1: int| 0 <= t1 < out@.len() && out@[t1]@ == u by {
                let t0 = choose|t0: int| 0 <= t0 < all@.len() && all@[t0]@ == u;
                assert(spec_should_fetch(*options, all@[t0]@));
            }
            assert(forall|t0: int|
                0 <= t0 < out@.len() ==> self.feeds().contains_key(#[trigger] out@[t0]@)
                    && spec_should_fetch(*options, out@[t0]@));
        }
        proof {
            assert forall|t1: int, t2: int|
                0 <= t1 < t2 < out@.len() implies lex_lt(
                vstd::utf8::encode_utf8(#[trigger] out@[t1]@),
                vstd::utf8::encode_utf8(#[trigger] out@[t2]@),
            ) by {
                assert(out@[t1]@ == all@[idxs[t1]]@ && out@[t2]@ == all@[idxs[t2]]@);
                assert(idxs[t1] < idxs[t2]);
            }
        }
        let ghost outv = out@;
        let result: Result<Vec<String>, Error> = Ok(out);
        proof {
            assert((result->Ok_0)@ == outv);
            assert forall|u: Seq<char>|
                #[trigger] self.feeds().contains_key(u) && spec_should_fetch(*options, u) implies
                exists|t: int| 0 <= t < (result->Ok_0)@.len() && (result->Ok_0)@[t]@ == u by {
                let w = choose|t1: int| 0 <= t1 < outv.len() && outv[t1]@ == u;
                assert((result->Ok_0)@[w]@ == u);
            }
            assert forall|t1: int, t2: int|
                0 <= t1 < t2 < (result->Ok_0)@.len() implies lex_lt(
                vstd::utf8::encode_utf8(#[trigger] (result->Ok_0)@[t1]@),
                vstd::utf8::encode_utf8(#[trigger] (result->Ok_0)@[t2]@),
            ) by {
                assert((result->Ok_0)@[t1]@ == outv[t1]@ && (result->Ok_0)@[t2]@ == outv[t2]@);
                assert(lex_lt(
                    vstd::utf8::encode_utf8(outv[t1]@),
                    vstd::utf8::encode_utf8(outv[t2]@),
                ));
            }
        }
        result
    }
}

/// A session over exactly one successfully fetched, known feed reconciles
/// that feed's items and nothing else.
pub proof fn lemma_session_single_feed(
    items0: Map<(u32, Seq<char>), ItemValue>,
    feeds: Map<Seq<char>, FeedValue>,
    feed: Feed,
    ts: Timestamp,
    no_send: bool,
    n: nat,
)
    requires
        feeds.contains_key(feed.meta.feed_url@),
    ensures
        spec_session_results(
            SessV { items: items0, sends: Seq::empty(), halted: false, unknown: false, failed: None },
            feeds,
            seq![Ok(feed)],
            ts,
            no_send,
            n,
        ) == spec_session_items(
            SessV { items: items0, sends: Seq::empty(), halted: false, unknown: false, failed: None },
            feeds[feed.meta.feed_url@].feed_id.0,
            feed.meta,
            feed.items@,
            ts,
            no_send,
            n,
        ),
{
    let init = SessV {
        items: items0,
        sends: Seq::<(FeedMeta, FeedItem)>::empty(),
        halted: false,
        unknown: false,
        failed: None,
    };
    let r = seq![Ok::<Feed, String>(feed)];
    assert(r[0] == Ok::<Feed, String>(feed));
    assert(r.drop_first() =~= Seq::<Result<Feed, String>>::empty());
    let mid = spec_session_feed(init, feeds, r[0], ts, no_send, n);
    assert(spec_session_results(init, feeds, r, ts, no_send, n) == spec_session_results(
        mid,
        feeds,
        r.drop_first(),
        ts,
        no_send,
        n,
    ));
    assert(spec_session_results(mid, feeds, r.drop_first(), ts, no_send, n) == mid);
    assert(mid == spec_session_items(
        init,
        feeds[feed.meta.feed_url@].feed_id.0,
        feed.meta,
        feed.items@,
        ts,
        no_send,
        n,
    ));
}

/// Idempotent delivery: a feed returning items `a` and `b` on the first
/// fetch has exactly one send for each; a second fetch returning `a`, `b`
/// and a new item `c` sends only `c` — no item is ever sent twice.
pub proof fn lemma_idempotent_delivery(
    items0: Map<(u32, Seq<char>), ItemValue>,
    feeds: Map<Seq<char>, FeedValue>,
    feed1: Feed,
    feed2: Feed,
    a: FeedItem,
    b: FeedItem,
    c: FeedItem,
    fid: u32,
    ts1: Timestamp,
    ts2: Timestamp,
    n1: nat,
    n2: nat,
)
    requires
        feeds.contains_key(feed1.meta.feed_url@),
        feeds[feed1.meta.feed_url@].feed_id.0 == fid,
        feed2.meta.feed_url@ == feed1.meta.feed_url@,
        feed1.items@ == seq![a, b],
        feed2.items@ == seq![a, b, c],
        a.id@ != b.id@,
        a.id@ != c.id@,
        b.id@ != c.id@,
        !items0.contains_key((fid, a.id@)),
        !items0.contains_key((fid, b.id@)),
        !items0.contains_key((fid, c.id@)),
        n1 >= 2,
        n2 >= 1,
    ensures
        ({
            let st1 = spec_session_results(
                SessV {
                    items: items0,
                    sends: Seq::empty(),
                    halted: false,
                    unknown: false,
                    failed: None,
                },
                feeds,
                seq![Ok(feed1)],
                ts1,
                false,
                n1,
            );
            let st2 = spec_session_results(
                SessV {
                    items: st1.items,
                    sends: Seq::empty(),
                    halted: false,
                    unknown: false,
                    failed: None,
                },
                feeds,
                seq![Ok(feed2)],
                ts2,
                false,
                n2,
            );
            &&& st1.sends == seq![(feed1.meta, a), (feed1.meta, b)]
            &&& !st1.halted && !st1.unknown
            &&& st2.sends == seq![(feed2.meta, c)]
            &&& !st2.halted && !st2.unknown
        }),
{
    let init1 = SessV {
        items: items0,
        sends: Seq::<(FeedMeta, FeedItem)>::empty(),
        halted: false,
        unknown: false,
        failed: None,
    };
    lemma_session_single_feed(items0, feeds, feed1, ts1, false, n1);
    let sta = spec_session_item(init1, fid, feed1.meta, a, ts1, false, n1);
    assert(sta.sends =~= seq![(feed1.meta, a)]);
    let stb = spec_session_item(sta, fid, feed1.meta, b, ts1, false, n1);
    assert(!sta.items.contains_key((fid, b.id@)));
    assert(stb.sends =~= seq![(feed1.meta, a), (feed1.meta, b)]);
    assert(feed1.items@[0] == a);
    assert(feed1.items@.drop_first() =~= seq![b]);
    assert(seq![b][0] == b);
    assert(seq![b].drop_first() =~= Seq::<FeedItem>::empty());
    assert(spec_session_items(init1, fid, feed1.meta, feed1.items@, ts1, false, n1)
        == spec_session_items(sta, fid, feed1.meta, seq![b], ts1, false, n1));
    assert(spec_session_items(sta, fid, feed1.meta, seq![b], ts1, false, n1)
        == spec_session_items(stb, fid, feed1.meta, Seq::<FeedItem>::empty(), ts1, false, n1));
    assert(spec_session_items(stb, fid, feed1.meta, Seq::<FeedItem>::empty(), ts1, false, n1)
        == stb);
    let st1 = spec_session_results(init1, feeds, seq![Ok(feed1)], ts1, false, n1);
    assert(st1 == stb);
    // Second session: `a` and `b` are now recorded, so only `c` is new.
    let init2 = SessV {
        items: st1.items,
        sends: Seq::<(FeedMeta, FeedItem)>::empty(),
        halted: false,
        unknown: false,
        failed: None,
    };
    lemma_session_single_feed(st1.items, feeds, feed2, ts2, false, n2);
    assert(feeds.contains_key(feed2.meta.feed_url@) && feeds[feed2.meta.feed_url@].feed_id.0
        == fid);
    let st2a = spec_session_item(init2, fid, feed2.meta, a, ts2, false, n2);
    assert(init2.items.contains_key((fid, a.id@)));
    assert(st2a.sends == Seq::<(FeedMeta, FeedItem)>::empty());
    let st2b = spec_session_item(st2a, fid, feed2.meta, b, ts2, false, n2);
    assert(st2a.items.contains_key((fid, b.id@)));
    assert(st2b.sends == Seq::<(FeedMeta, FeedItem)>::empty());
    let st2c = spec_session_item(st2b, fid, feed2.meta, c, ts2, false, n2);
    assert(!st2b.items.contains_key((fid, c.id@)));
    assert(st2c.sends =~= seq![(feed2.meta, c)]);
    assert(feed2.items@[0] == a);
    assert(feed2.items@.drop_first() =~= seq![b, c]);
    assert(seq![b, c][0] == b);
    assert(seq![b, c].drop_first() =~= seq![c]);
    assert(seq![c][0] == c);
    assert(seq![c].drop_first() =~= Seq::<FeedItem>::empty());
    assert(spec_session_items(init2, fid, feed2.meta, feed2.items@, ts2, false, n2)
        == spec_session_items(st2a, fid, feed2.meta, seq![b, c], ts2, false, n2));
    assert(spec_session_items(st2a, fid, feed2.meta, seq![b, c], ts2, false, n2)
        == spec_session_items(st2b, fid, feed2.meta, seq![c], ts2, false, n2));
    assert(spec_session_items(st2b, fid, feed2.meta, seq![c], ts2, false, n2)
        == spec_session_items(st2c, fid, feed2.meta, Seq::<FeedItem>::empty(), ts2, false, n2));
    assert(spec_session_items(st2c, fid, feed2.meta, Seq::<FeedItem>::empty(), ts2, false, n2)
        == st2c);
    let st2 = spec_session_results(init2, feeds, seq![Ok(feed2)], ts2, false, n2);
    assert(st2 == st2c);
}

/// Partial-failure consistency: when delivery fails on the second of three
/// new items, the session stops with exactly the first item delivered and
/// recorded; the second and third are neither recorded nor delivered.
pub proof fn lemma_partial_failure(
    items0: Map<(u32, Seq<char>), ItemValue>,
    feeds: Map<Seq<char>, FeedValue>,
    feed: Feed,
    a: FeedItem,
    b: FeedItem,
    c: FeedItem,
    fid: u32,
    ts: Timestamp,
)
    requires
        feeds.contains_key(feed.meta.feed_url@),
        feeds[feed.meta.feed_url@].feed_id.0 == fid,
        feed.items@ == seq![a, b, c],
        a.id@ != b.id@,
        a.id@ != c.id@,
        b.id@ != c.id@,
        !items0.contains_key((fid, a.id@)),
        !items0.contains_key((fid, b.id@)),
        !items0.contains_key((fid, c.id@)),
    ensures
        ({
            let st = spec_session_results(
                SessV {
                    items: items0,
                    sends: Seq::empty(),
                    halted: false,
                    unknown: false,
                    failed: None,
                },
                feeds,
                seq![Ok(feed)],
                ts,
                false,
                1,
            );
            &&& st.sends == seq![(feed.meta, a)]
            &&& st.halted
            &&& st.failed == Some((feed.meta, b))
            &&& st.items == items0.insert(
                (fid, a.id@),
                ItemValue { when_first_fetched: ts, when_last_fetched: ts },
            )
        }),
{
    let init = SessV {
        items: items0,
        sends: Seq::<(FeedMeta, FeedItem)>::empty(),
        halted: false,
        unknown: false,
        failed: None,
    };
    lemma_session_single_feed(items0, feeds, feed, ts, false, 1);
    let sta = spec_session_item(init, fid, feed.meta, a, ts, false, 1);
    assert(sta.sends =~= seq![(feed.meta, a)]);
    let stb = spec_session_item(sta, fid, feed.meta, b, ts, false, 1);
    assert(!sta.items.contains_key((fid, b.id@)));
    assert(stb.halted && stb.failed == Some((feed.meta, b)));
    let stc = spec_session_item(stb, fid, feed.meta, c, ts, false, 1);
    assert(stc == stb);
    assert(feed.items@[0] == a);
    assert(feed.items@.drop_first() =~= seq![b, c]);
    assert(seq![b, c][0] == b);
    assert(seq![b, c].drop_first() =~= seq![c]);
    assert(seq![c][0] == c);
    assert(seq![c].drop_first() =~= Seq::<FeedItem>::empty());
    assert(spec_session_items(init, fid, feed.meta, feed.items@, ts, false, 1)
        == spec_session_items(sta, fid, feed.meta, seq![b, c], ts, false, 1));
    assert(spec_session_items(sta, fid, feed.meta, seq![b, c], ts, false, 1)
        == spec_session_items(stb, fid, feed.meta, seq![c], ts, false, 1));
    assert(spec_session_items(stb, fid, feed.meta, seq![c], ts, false, 1)
        == spec_session_items(stc, fid, feed.meta, Seq::<FeedItem>::empty(), ts, false, 1));
    assert(spec_session_items(stc, fid, feed.meta, Seq::<FeedItem>::empty(), ts, false, 1)
        == stc);
    let st = spec_session_results(init, feeds, seq![Ok(feed)], ts, false, 1);
    assert(st == stc);
}

/// Reading the leading length field of a framed run recovers it, and the
/// rest follows.
proof fn lemma_read_framed(x: u32, rest: Seq<u8>)
    ensures
        (crate::key_value::spec_be32(x) + rest).len() == 4 + rest.len(),
        crate::key_value::spec_read_be32(crate::key_value::spec_be32(x) + rest) == x,
        (crate::key_value::spec_be32(x) + rest).skip(4) == rest,
{
    let s = crate::key_value::spec_be32(x) + rest;
    assert(s[0] == crate::key_value::spec_be32(x)[0]);
    assert(s[1] == crate::key_value::spec_be32(x)[1]);
    assert(s[2] == crate::key_value::spec_be32(x)[2]);
    assert(s[3] == crate::key_value::spec_be32(x)[3]);
    crate::key_value::lemma_be32_read(x);
    assert(s.skip(4) =~= rest);
}

/// One serialized entry splits into its four frames, and the remaining
/// entries follow.
proof fn lemma_entry_frames(d: Database, c: int)
    requires
        d.spec_serializable(),
        0 <= c < d.table.entries@.len(),
    ensures
        ({
            let k = d.table.entries@[c].0@;
            let vb = spec_value_bytes(d.table.entries@[c].1);
            let rest = d.spec_entries_bytes_from(c + 1);
            let s = d.spec_entries_bytes_from(c);
            &&& s.len() == 8 + k.len() + vb.len() + rest.len()
            &&& crate::key_value::spec_read_be32(s) == k.len() as u32
            &&& (k.len() as u32) as int == k.len()
            &&& s.skip(4).len() == 4 + k.len() + vb.len() + rest.len()
            &&& s.skip(4).take(k.len() as int) == k
            &&& s.skip(4).skip(k.len() as int) == crate::key_value::spec_be32(vb.len() as u32)
                + (vb + rest)
            &&& crate::key_value::spec_read_be32(s.skip(4).skip(k.len() as int)) == vb.len() as u32
            &&& (vb.len() as u32) as int == vb.len()
            &&& s.skip(4).skip(k.len() as int).skip(4).take(vb.len() as int) == vb
            &&& s.skip(4).skip(k.len() as int).skip(4).skip(vb.len() as int) == rest
        }),
{
    let k = d.table.entries@[c].0@;
    let vb = spec_value_bytes(d.table.entries@[c].1);
    let rest = d.spec_entries_bytes_from(c + 1);
    let s = d.spec_entries_bytes_from(c);
    let kl = k.len() as u32;
    let vl = vb.len() as u32;
    assert(kl as int == k.len() && vl as int == vb.len());
    assert(s =~= crate::key_value::spec_be32(kl) + (k + (crate::key_value::spec_be32(vl) + (vb
        + rest))));
    lemma_read_framed(kl, k + (crate::key_value::spec_be32(vl) + (vb + rest)));
    assert(s.skip(4) == k + (crate::key_value::spec_be32(vl) + (vb + rest)));
    assert(s.skip(4).take(k.len() as int) =~= k);
    assert(s.skip(4).skip(k.len() as int) =~= crate::key_value::spec_be32(vl) + (vb + rest));
    lemma_read_framed(vl, vb + rest);
    assert(s.skip(4).skip(k.len() as int).skip(4) == vb + rest);
    assert(s.skip(4).skip(k.len() as int).skip(4).take(vb.len() as int) =~= vb);
    assert(s.skip(4).skip(k.len() as int).skip(4).skip(vb.len() as int) =~= rest);
}

/// The state of a parse in progress, measured against a store `d` whose
/// image is being read: the first `c` of `d`'s entries have been rebuilt and
/// the rest of the image remains.
#[verifier::opaque]
pub open spec fn spec_parse_state(
    d: Database,
    count: u32,
    c: u32,
    table: Table<StoredValue>,
    rem: Seq<u8>,
) -> bool {
    &&& count as int == d.table.entries@.len()
    &&& c as int <= d.table.entries@.len()
    &&& table.entries@.len() == c
    &&& forall|j: int|
        0 <= j < c ==> (#[trigger] table.entries@[j].0@) == d.table.entries@[j].0@
            && table.entries@[j].1 == d.table.entries@[j].1
    &&& rem == d.spec_entries_bytes_from(c as int)
}

/// The serialized image of a store opens with its magic marker and record
/// count.
proof fn lemma_db_header(d: Database)
    requires
        d.spec_serializable(),
    ensures
        d.spec_db_bytes().len() >= 8,
        crate::key_value::spec_read_be32(d.spec_db_bytes()) == DB_MAGIC,
        d.spec_db_bytes().skip(4).len() >= 4,
        crate::key_value::spec_read_be32(d.spec_db_bytes().skip(4)) == d.table.entries@.len()
            as u32,
        (d.table.entries@.len() as u32) as int == d.table.entries@.len(),
        d.spec_db_bytes().skip(4).skip(4) == d.spec_entries_bytes_from(0),
{
    let cnt = d.table.entries@.len() as u32;
    let from0 = d.spec_entries_bytes_from(0);
    assert(d.spec_db_bytes() =~= crate::key_value::spec_be32(DB_MAGIC) + (
    crate::key_value::spec_be32(cnt) + from0));
    lemma_read_framed(DB_MAGIC, crate::key_value::spec_be32(cnt) + from0);
    assert(d.spec_db_bytes().skip(4) == crate::key_value::spec_be32(cnt) + from0);
    lemma_read_framed(cnt, from0);
}

/// The key at one position of a well-formed store decodes under exactly one
/// kind, and its value record matches that kind.
proof fn lemma_wf_key_decodes(d: Database, c: int, kb: Seq<u8>)
    requires
        d.wf(),
        0 <= c < d.table.entries@.len(),
        kb == d.table.entries@[c].0@,
    ensures
        d.table@.contains_key(kb),
        d.table@[kb] == d.table.entries@[c].1,
        value_matches(kb, d.table.entries@[c].1),
        spec_is_feed_key(kb) || spec_is_item_key(kb),
        spec_is_feed_key(kb) ==> is_prefix(
            crate::key_value::spec_be32(crate::key_value::KEY_KIND_FEED_NUM),
            kb,
        ) && !is_prefix(crate::key_value::spec_be32(crate::key_value::KEY_KIND_ITEM_NUM), kb),
        spec_is_item_key(kb) ==> is_prefix(
            crate::key_value::spec_be32(crate::key_value::KEY_KIND_ITEM_NUM),
            kb,
        ) && !is_prefix(crate::key_value::spec_be32(crate::key_value::KEY_KIND_FEED_NUM), kb),
{
    d.table.lemma_entry_in_view(c);
    assert(d.entry_ok(kb));
    lemma_feed_item_keys_distinct(kb);
    if spec_is_feed_key(kb) {
        assert(kb.take(4) == crate::key_value::spec_be32(crate::key_value::KEY_KIND_FEED_NUM));
        assert(is_prefix(
            crate::key_value::spec_be32(crate::key_value::KEY_KIND_FEED_NUM),
            kb,
        ));
        if is_prefix(crate::key_value::spec_be32(crate::key_value::KEY_KIND_ITEM_NUM), kb) {
            crate::key_value::lemma_be32_injective(
                crate::key_value::KEY_KIND_FEED_NUM,
                crate::key_value::KEY_KIND_ITEM_NUM,
            );
        }
    }
    if spec_is_item_key(kb) {
        assert(kb.take(4) == crate::key_value::spec_be32(crate::key_value::KEY_KIND_ITEM_NUM));
        assert(is_prefix(
            crate::key_value::spec_be32(crate::key_value::KEY_KIND_ITEM_NUM),
            kb,
        ));
        if is_prefix(crate::key_value::spec_be32(crate::key_value::KEY_KIND_FEED_NUM), kb) {
            crate::key_value::lemma_be32_injective(
                crate::key_value::KEY_KIND_FEED_NUM,
                crate::key_value::KEY_KIND_ITEM_NUM,
            );
        }
    }
}

/// A store whose keyspace denotes the same map as a well-formed one is
/// well-formed itself and has the same abstract tables.
proof fn lemma_same_view_same_store(d1: Database, d2: Database)
    requires
        d1.wf(),
        d2.table.wf(),
        d2.table@ == d1.table@,
    ensures
        d2.wf(),
        d2.feeds() == d1.feeds(),
        d2.items() == d1.items(),
{
    assert forall|k: Seq<u8>| #[trigger] d2.table@.contains_key(k) implies d2.entry_ok(k) by {
        assert(d1.table@.contains_key(k) && d1.entry_ok(k));
    }
    assert forall|k1: Seq<u8>, k2: Seq<u8>|
        d2.table@.contains_key(k1) && d2.table@.contains_key(k2) && spec_is_feed_key(k1)
            && spec_is_feed_key(k2) && k1 != k2 implies d2.feed_id_of(k1) != d2.feed_id_of(
        k2,
    ) by {
        assert(d1.table@.contains_key(k1) && d1.table@.contains_key(k2));
    }
    assert forall|k: Seq<u8>| #[trigger]
        d2.table@.contains_key(k) && spec_is_item_key(k) implies d2.owner_exists(
        spec_item_key_feed_id(k),
    ) by {
        assert(d1.table@.contains_key(k));
        assert(d1.owner_exists(spec_item_key_feed_id(k)));
        let w = choose|w: Seq<u8>|
            #[trigger] d1.table@.contains_key(w) && spec_is_feed_key(w) && d1.feed_id_of(w)
                == spec_item_key_feed_id(k);
        assert(d2.table@.contains_key(w) && d2.feed_id_of(w) == spec_item_key_feed_id(k));
    }
    assert(d2.feeds() =~= d1.feeds());
    assert(d2.items() =~= d1.items());
}

/// Wraps a low-level failure as a corrupt-database decode error.
fn corrupt(e: Error) -> (r: Error)
    ensures
        r.kind == ErrorKind::DecodeError,
{
    Error::new(ErrorKind::DecodeError, "Database is corrupt").with_cause(e).into_error()
}

/// One entry's value matches its key's kind.
pub open spec fn value_matches(k: Seq<u8>, v: StoredValue) -> bool {
    ||| (spec_is_feed_key(k) && v is ForFeed)
    ||| (spec_is_item_key(k) && v is ForItem)
}

/// The serialized bytes of one value, under the self-describing serializer.
pub open spec fn spec_value_bytes(v: StoredValue) -> Seq<u8> {
    match v {
        StoredValue::ForFeed(f) => f.spec_bytes(),
        StoredValue::ForItem(iv) => iv.spec_bytes(),
    }
}

} // verus!
