//! Typed keys and values and their binary encoding.
//!
//! Keys are laid out so that the store's byte-lexicographic order matches the
//! intended logical order: a big-endian 4-byte kind discriminant first, then
//! the identifying fields, with a trailing string field occupying the rest of
//! the buffer.  Values use a self-describing serializer, so their layout is
//! named rather than spelled out.

use vstd::prelude::*;
use vstd::utf8::{encode_utf8, decode_utf8, valid_utf8};
use vstd::utf8::{encode_utf8_valid_utf8, encode_utf8_decode_utf8};
use vstd::slice::{slice_index_get, slice_subrange};
use vstd::string::StringExecFns;
use core::marker::PhantomData;
use crate::error::{Error, ErrorKind};

verus! {

// ---------------------------------------------------------------------------
// Big-endian 32-bit encoding
// ---------------------------------------------------------------------------

/// The four bytes of `x`, most significant first.
pub open spec fn spec_be32(x: u32) -> Seq<u8> {
    seq![
        ((x >> 24) & 0xff) as u8,
        ((x >> 16) & 0xff) as u8,
        ((x >> 8) & 0xff) as u8,
        (x & 0xff) as u8,
    ]
}

/// The value read big-endian from the first four bytes of `s`.
pub open spec fn spec_read_be32(s: Seq<u8>) -> u32
    recommends
        s.len() >= 4,
{
    (((s[0] as u32) << 24) | ((s[1] as u32) << 16) | ((s[2] as u32) << 8) | (s[3] as u32)) as u32
}

pub proof fn lemma_be32_read(x: u32)
    ensures
        spec_read_be32(spec_be32(x)) == x,
{
    assert((((((x >> 24) & 0xff) as u8 as u32) << 24) | ((((x >> 16) & 0xff) as u8 as u32) << 16)
        | ((((x >> 8) & 0xff) as u8 as u32) << 8) | ((x & 0xff) as u8 as u32)) as u32 == x)
        by (bit_vector);
}

/// Reading four bytes and writing the value back reproduces the bytes:
/// a four-byte sequence is the encoding of exactly one value.
pub proof fn lemma_be32_read_inverse(s: Seq<u8>)
    requires
        s.len() == 4,
    ensures
        spec_be32(spec_read_be32(s)) == s,
{
    let b0 = s[0];
    let b1 = s[1];
    let b2 = s[2];
    let b3 = s[3];
    let x = spec_read_be32(s);
    assert({
        let y = (((b0 as u32) << 24) | ((b1 as u32) << 16) | ((b2 as u32) << 8) | (b3 as u32)) as u32;
        ((y >> 24) & 0xff) as u8 == b0 && ((y >> 16) & 0xff) as u8 == b1
            && ((y >> 8) & 0xff) as u8 == b2 && (y & 0xff) as u8 == b3
    }) by (bit_vector);
    assert(spec_be32(x) =~= s);
}

pub proof fn lemma_be32_injective(a: u32, b: u32)
    requires
        spec_be32(a) == spec_be32(b),
    ensures
        a == b,
{
    lemma_be32_read(a);
    lemma_be32_read(b);
}

// ---------------------------------------------------------------------------
// Reader and Writer
// ---------------------------------------------------------------------------

/// Reads typed fields from a byte buffer, front to back.
pub struct Reader<'a> {
    pub data: &'a [u8],
    pub pos: usize,
}

/// Writes typed fields onto a growing byte buffer.
pub struct Writer {
    pub bytes: Vec<u8>,
}

impl<'a> Reader<'a> {
    pub open spec fn wf(self) -> bool {
        self.pos <= self.data@.len()
    }

    /// The bytes not yet consumed.
    pub open spec fn remaining(self) -> Seq<u8> {
        self.data@.skip(self.pos as int)
    }

    pub fn new(source: &'a [u8]) -> (r: Self)
        ensures
            r.wf(),
            r.data@ == source@,
            r.pos == 0,
            r.remaining() == source@,
    {
        let r = Reader { data: source, pos: 0 };
        proof {
            assert(r.remaining() =~= source@);
        }
        r
    }

    /// Reads a big-endian unsigned 32-bit value, or fails with a decode error
    /// if fewer than four bytes remain.
    pub fn read_u32(&mut self) -> (r: Result<u32, Error>)
        requires
            old(self).wf(),
        ensures
            final(self).wf(),
            final(self).data == old(self).data,
            old(self).remaining().len() >= 4 ==> {
                &&& r matches Ok(x) && x == spec_read_be32(old(self).remaining())
                &&& final(self).pos == old(self).pos + 4
                &&& final(self).remaining() == old(self).remaining().skip(4)
            },
            old(self).remaining().len() < 4 ==> {
                &&& r matches Err(e) && e.kind == ErrorKind::DecodeError
                &&& *final(self) == *old(self)
            },
    {
        if self.data.len() - self.pos < 4 {
            return Err(Error::new(ErrorKind::DecodeError, "Failed to decode u32").into_error());
        }
        let b0 = *slice_index_get(self.data, self.pos);
        let b1 = *slice_index_get(self.data, self.pos + 1);
        let b2 = *slice_index_get(self.data, self.pos + 2);
        let b3 = *slice_index_get(self.data, self.pos + 3);
        let x: u32 = ((b0 as u32) << 24) | ((b1 as u32) << 16) | ((b2 as u32) << 8) | (b3 as u32);
        proof {
            assert(old(self).remaining()[0] == self.data@[self.pos as int]);
            assert(old(self).remaining()[1] == self.data@[self.pos + 1]);
            assert(old(self).remaining()[2] == self.data@[self.pos + 2]);
            assert(old(self).remaining()[3] == self.data@[self.pos + 3]);
        }
        self.pos = self.pos + 4;
        proof {
            assert(self.remaining() =~= old(self).remaining().skip(4));
        }
        Ok(x)
    }

    /// Reads the 4-byte kind discriminant at the front of a key.
    pub fn read_key_kind(&mut self) -> (r: Result<KeyKind, Error>)
        requires
            old(self).wf(),
        ensures
            final(self).wf(),
            final(self).data == old(self).data,
            old(self).remaining().len() >= 4 ==> {
                &&& r matches Ok(k) && k.0 == spec_read_be32(old(self).remaining())
                &&& final(self).pos == old(self).pos + 4
                &&& final(self).remaining() == old(self).remaining().skip(4)
            },
            old(self).remaining().len() < 4 ==> {
                &&& r matches Err(e) && e.kind == ErrorKind::DecodeError
                &&& *final(self) == *old(self)
            },
    {
        match self.read_u32() {
            Ok(x) => Ok(KeyKind(x)),
            Err(e) => Err(Error::chain("Failed to decode key kind", e).into_error()),
        }
    }

    /// Reads the rest of the buffer as a UTF-8 string; this is only valid as
    /// the last field of a key.
    pub fn read_str_eof(&mut self) -> (r: Result<&'a str, Error>)
        requires
            old(self).wf(),
        ensures
            final(self).wf(),
            final(self).data == old(self).data,
            r matches Ok(s) ==> {
                &&& encode_utf8(s@) == old(self).remaining()
                &&& s@ == decode_utf8(old(self).remaining())
                &&& final(self).remaining().len() == 0
            },
            r is Ok <==> valid_utf8(old(self).remaining()),
            r matches Err(e) ==> e.kind == ErrorKind::DecodeError && *final(self) == *old(self),
    {
        let rest = slice_subrange(self.data, self.pos, self.data.len());
        match bytes_as_str(rest) {
            Some(s) => {
                proof {
                    encode_utf8_valid_utf8(s@);
                    encode_utf8_decode_utf8(s@);
                }
                self.pos = self.data.len();
                proof {
                    assert(self.remaining() =~= Seq::<u8>::empty());
                }
                Ok(s)
            },
            None => {
                proof {
                    if valid_utf8(old(self).remaining()) {
                        // `bytes_as_str` succeeds on valid UTF-8.
                        assert(false);
                    }
                }
                Err(Error::new(ErrorKind::DecodeError, "Failed to decode string eof").into_error())
            },
        }
    }

    /// Reads exactly `len` bytes, or fails with a decode error if fewer
    /// remain.
    pub fn read_bytes(&mut self, len: usize) -> (r: Result<&'a [u8], Error>)
        requires
            old(self).wf(),
        ensures
            final(self).wf(),
            final(self).data == old(self).data,
            old(self).remaining().len() >= len ==> {
                &&& r matches Ok(b) && b@ == old(self).remaining().take(len as int)
                &&& final(self).pos == old(self).pos + len
                &&& final(self).remaining() == old(self).remaining().skip(len as int)
            },
            old(self).remaining().len() < len ==> {
                &&& r matches Err(e) && e.kind == ErrorKind::DecodeError
                &&& *final(self) == *old(self)
            },
    {
        if self.data.len() - self.pos < len {
            return Err(
                Error::new(ErrorKind::DecodeError, "Failed to read bytes: buffer exhausted")
                    .into_error(),
            );
        }
        let b = slice_subrange(self.data, self.pos, self.pos + len);
        self.pos = self.pos + len;
        proof {
            assert(b@ =~= old(self).remaining().take(len as int));
            assert(self.remaining() =~= old(self).remaining().skip(len as int));
        }
        Ok(b)
    }

    /// Reads the rest of the buffer as raw bytes.
    pub fn read_bytes_eof(&mut self) -> (r: &'a [u8])
        requires
            old(self).wf(),
        ensures
            final(self).wf(),
            r@ == old(self).remaining(),
            final(self).remaining().len() == 0,
    {
        let rest = slice_subrange(self.data, self.pos, self.data.len());
        self.pos = self.data.len();
        proof {
            assert(self.remaining() =~= Seq::<u8>::empty());
        }
        rest
    }
}

/// Relies on `core::str::from_utf8`: it succeeds exactly on valid UTF-8 and
/// returns the string whose UTF-8 encoding is the input.
#[verifier::external_body]
fn bytes_as_str<'a>(v: &'a [u8]) -> (r: Option<&'a str>)
    ensures
        r matches Some(s) ==> encode_utf8(s@) == v@,
        valid_utf8(v@) ==> r is Some,
{
    core::str::from_utf8(v).ok()
}

impl Writer {
    pub fn new() -> (r: Self)
        ensures
            r.bytes@ == Seq::<u8>::empty(),
    {
        Writer { bytes: Vec::new() }
    }

    /// Appends a big-endian unsigned 32-bit value.
    pub fn write_u32(&mut self, source: u32)
        ensures
            final(self).bytes@ == old(self).bytes@ + spec_be32(source),
    {
        let x = source;
        proof {
            assert((x >> 24) & 0xff < 256 && (x >> 16) & 0xff < 256 && (x >> 8) & 0xff < 256
                && x & 0xff < 256) by (bit_vector);
        }
        self.bytes.push(((x >> 24) & 0xff) as u8);
        self.bytes.push(((x >> 16) & 0xff) as u8);
        self.bytes.push(((x >> 8) & 0xff) as u8);
        self.bytes.push((x & 0xff) as u8);
        proof {
            assert(self.bytes@ =~= old(self).bytes@ + spec_be32(source));
        }
    }

    /// Appends a key kind discriminant.
    pub fn write_key_kind(&mut self, source: KeyKind)
        ensures
            final(self).bytes@ == old(self).bytes@ + spec_be32(source.0),
    {
        self.write_u32(source.0);
    }

    /// Appends a string as raw UTF-8 bytes, occupying the rest of the buffer.
    pub fn write_str_eof(&mut self, source: &str)
        ensures
            final(self).bytes@ == old(self).bytes@ + encode_utf8(source@),
    {
        let b = source.as_bytes();
        self.write_bytes_eof(b);
    }

    /// Appends raw bytes.
    pub fn write_bytes_eof(&mut self, source: &[u8])
        ensures
            final(self).bytes@ == old(self).bytes@ + source@,
    {
        let n: usize = source.len();
        let mut i: usize = 0;
        while i < n
            invariant
                i <= n,
                n == source@.len(),
                self.bytes@ == old(self).bytes@ + source@.take(i as int),
            decreases n - i,
        {
            self.bytes.push(*slice_index_get(source, i));
            proof {
                assert(old(self).bytes@ + source@.take(i + 1) =~= (old(self).bytes@
                    + source@.take(i as int)).push(source@[i as int]));
            }
            i = i + 1;
        }
        proof {
            assert(source@.take(n as int) =~= source@);
        }
    }

    /// Hands out the accumulated bytes.
    pub fn into_bytes(self) -> (r: Vec<u8>)
        ensures
            r@ == self.bytes@,
    {
        self.bytes
    }
}

// ---------------------------------------------------------------------------
// Key kinds
// ---------------------------------------------------------------------------

pub const KEY_KIND_FEED_NUM: u32 = 1;
pub const KEY_KIND_ITEM_NUM: u32 = 2;

/// The 4-byte discriminant that keeps each table's keys in a contiguous range.
#[derive(Clone, Copy, Debug, PartialEq, Eq, Structural)]
pub struct KeyKind(pub u32);

pub type KeyKindBytes = [u8; 4];

impl KeyKind {
    /// The next kind: its encoding is the exclusive upper bound of this
    /// kind's key range.
    pub fn increment(self) -> (r: Self)
        requires
            self.0 < u32::MAX,
        ensures
            r.0 == self.0 + 1,
    {
        KeyKind(self.0 + 1)
    }

    pub fn to_bytes(self) -> (r: KeyKindBytes)
        ensures
            r@ == spec_be32(self.0),
    {
        let x = self.0;
        proof {
            assert((x >> 24) & 0xff < 256 && (x >> 16) & 0xff < 256 && (x >> 8) & 0xff < 256
                && x & 0xff < 256) by (bit_vector);
        }
        let r: [u8; 4] = [
            ((x >> 24) & 0xff) as u8,
            ((x >> 16) & 0xff) as u8,
            ((x >> 8) & 0xff) as u8,
            (x & 0xff) as u8,
        ];
        proof {
            assert(r@ =~= spec_be32(self.0));
        }
        r
    }
}

// ---------------------------------------------------------------------------
// Key byte layouts
// ---------------------------------------------------------------------------

/// Encoded bytes of the feed key for `url`.
pub open spec fn spec_feed_key_bytes(url: Seq<char>) -> Seq<u8> {
    spec_be32(KEY_KIND_FEED_NUM) + encode_utf8(url)
}

/// Encoded bytes of the item key for item `item_id` of the feed with id
/// `feed_id`.
pub open spec fn spec_item_key_bytes(feed_id: u32, item_id: Seq<char>) -> Seq<u8> {
    spec_be32(KEY_KIND_ITEM_NUM) + spec_be32(feed_id) + encode_utf8(item_id)
}

/// The prefix shared by every item key of one feed.
pub open spec fn spec_item_prefix_bytes(feed_id: u32) -> Seq<u8> {
    spec_be32(KEY_KIND_ITEM_NUM) + spec_be32(feed_id)
}

pub open spec fn spec_is_feed_key(b: Seq<u8>) -> bool {
    &&& b.len() >= 4
    &&& b.take(4) == spec_be32(KEY_KIND_FEED_NUM)
    &&& valid_utf8(b.skip(4))
}

pub open spec fn spec_feed_key_url(b: Seq<u8>) -> Seq<char> {
    decode_utf8(b.skip(4))
}

pub open spec fn spec_is_item_key(b: Seq<u8>) -> bool {
    &&& b.len() >= 8
    &&& b.take(4) == spec_be32(KEY_KIND_ITEM_NUM)
    &&& valid_utf8(b.skip(8))
}

pub open spec fn spec_item_key_feed_id(b: Seq<u8>) -> u32 {
    spec_read_be32(b.skip(4))
}

pub open spec fn spec_item_key_id(b: Seq<u8>) -> Seq<char> {
    decode_utf8(b.skip(8))
}

/// Round trip for feed keys: encoding a URL yields a well-formed feed key
/// whose decoded URL is the original.
pub proof fn lemma_feed_key_round_trip(url: Seq<char>)
    ensures
        spec_is_feed_key(spec_feed_key_bytes(url)),
        spec_feed_key_url(spec_feed_key_bytes(url)) == url,
        spec_feed_key_bytes(url).len() == 4 + encode_utf8(url).len(),
{
    let b = spec_feed_key_bytes(url);
    assert(b.take(4) =~= spec_be32(KEY_KIND_FEED_NUM));
    assert(b.skip(4) =~= encode_utf8(url));
    encode_utf8_valid_utf8(url);
    encode_utf8_decode_utf8(url);
}

/// Decoding a well-formed feed key and re-encoding its URL reproduces the
/// bytes: feed keys are canonical.
pub proof fn lemma_feed_key_canonical(b: Seq<u8>)
    requires
        spec_is_feed_key(b),
    ensures
        spec_feed_key_bytes(spec_feed_key_url(b)) == b,
{
    vstd::utf8::decode_utf8_encode_utf8(b.skip(4));
    assert(spec_feed_key_bytes(spec_feed_key_url(b)) =~= b.take(4) + b.skip(4));
    assert(b.take(4) + b.skip(4) =~= b);
}

pub proof fn lemma_feed_key_injective(u1: Seq<char>, u2: Seq<char>)
    requires
        spec_feed_key_bytes(u1) == spec_feed_key_bytes(u2),
    ensures
        u1 == u2,
{
    lemma_feed_key_round_trip(u1);
    lemma_feed_key_round_trip(u2);
}

/// Round trip for item keys.
pub proof fn lemma_item_key_round_trip(feed_id: u32, item_id: Seq<char>)
    ensures
        spec_is_item_key(spec_item_key_bytes(feed_id, item_id)),
        spec_item_key_feed_id(spec_item_key_bytes(feed_id, item_id)) == feed_id,
        spec_item_key_id(spec_item_key_bytes(feed_id, item_id)) == item_id,
{
    let b = spec_item_key_bytes(feed_id, item_id);
    assert(b.take(4) =~= spec_be32(KEY_KIND_ITEM_NUM));
    assert(b.skip(4).take(4) =~= spec_be32(feed_id));
    assert(b.skip(8) =~= encode_utf8(item_id));
    assert(b.skip(4)[0] == spec_be32(feed_id)[0]);
    assert(b.skip(4)[1] == spec_be32(feed_id)[1]);
    assert(b.skip(4)[2] == spec_be32(feed_id)[2]);
    assert(b.skip(4)[3] == spec_be32(feed_id)[3]);
    lemma_be32_read(feed_id);
    encode_utf8_valid_utf8(item_id);
    encode_utf8_decode_utf8(item_id);
}

/// Decoding a well-formed item key and re-encoding its fields reproduces the
/// bytes: item keys are canonical.
pub proof fn lemma_item_key_canonical(b: Seq<u8>)
    requires
        spec_is_item_key(b),
    ensures
        spec_item_key_bytes(spec_item_key_feed_id(b), spec_item_key_id(b)) == b,
{
    vstd::utf8::decode_utf8_encode_utf8(b.skip(8));
    let mid = b.skip(4).take(4);
    assert(mid.len() == 4);
    assert(mid[0] == b.skip(4)[0] && mid[1] == b.skip(4)[1] && mid[2] == b.skip(4)[2] && mid[3]
        == b.skip(4)[3]);
    lemma_be32_read_inverse(mid);
    assert(spec_be32(spec_item_key_feed_id(b)) == mid) by {
        assert(spec_read_be32(b.skip(4)) == spec_read_be32(mid));
    }
    assert(spec_item_key_bytes(spec_item_key_feed_id(b), spec_item_key_id(b)) =~= b.take(4) + mid
        + b.skip(8));
    assert(b.take(4) + mid + b.skip(8) =~= b);
}

/// The prefix property: item keys of two different feeds never stand in a
/// prefix relation, so a prefix-bounded scan for one feed cannot touch
/// another feed's items.
pub proof fn lemma_item_key_prefix_disjoint(f: u32, g: u32, x: Seq<char>, y: Seq<char>)
    requires
        f != g,
    ensures
        !crate::lex::is_prefix(spec_item_key_bytes(f, x), spec_item_key_bytes(g, y)),
{
    let p = spec_item_key_bytes(f, x);
    let s = spec_item_key_bytes(g, y);
    if crate::lex::is_prefix(p, s) {
        assert(p.len() >= 8);
        assert(forall|i: int| 0 <= i < p.len() ==> s.take(p.len() as int)[i] == s[i]);
        assert(forall|i: int| 0 <= i < p.len() ==> p[i] == s[i]);
        assert(p.skip(4).take(4) =~= spec_be32(f));
        assert(s.skip(4).take(4) =~= spec_be32(g));
        assert(forall|i: int| 0 <= i < 4 ==> spec_be32(f)[i] == p[4 + i]);
        assert(forall|i: int| 0 <= i < 4 ==> spec_be32(g)[i] == s[4 + i]);
        assert(spec_be32(f) =~= spec_be32(g));
        lemma_be32_injective(f, g);
    }
}

/// The feed-scoped search prefix is exactly eight bytes and bounds the
/// prefix scan: it leads every item key of its own feed and no other's.
pub proof fn lemma_item_prefix_bounds(f: u32, g: u32, item_id: Seq<char>)
    ensures
        spec_item_prefix_bytes(f).len() == 8,
        f == g ==> crate::lex::is_prefix(
            spec_item_prefix_bytes(f),
            spec_item_key_bytes(g, item_id),
        ),
        f != g ==> !crate::lex::is_prefix(
            spec_item_prefix_bytes(f),
            spec_item_key_bytes(g, item_id),
        ),
{
    lemma_item_key_round_trip(g, item_id);
    lemma_item_prefix_characterizes(f, spec_item_key_bytes(g, item_id));
}

/// Every item key of a feed carries that feed's prefix, and only keys with
/// that feed id do.
pub proof fn lemma_item_prefix_characterizes(feed_id: u32, b: Seq<u8>)
    requires
        spec_is_item_key(b),
    ensures
        crate::lex::is_prefix(spec_item_prefix_bytes(feed_id), b) <==> spec_item_key_feed_id(b)
            == feed_id,
{
    let p = spec_item_prefix_bytes(feed_id);
    assert(p.len() == 8);
    if crate::lex::is_prefix(p, b) {
        assert(forall|i: int| 0 <= i < 8 ==> b.take(8)[i] == b[i]);
        assert(b.skip(4).take(4) =~= spec_be32(feed_id));
        lemma_be32_read(feed_id);
        assert(spec_read_be32(b.skip(4)) == spec_read_be32(spec_be32(feed_id)));
    }
    if spec_item_key_feed_id(b) == feed_id {
        let mid = b.skip(4).take(4);
        assert(mid[0] == b.skip(4)[0] && mid[1] == b.skip(4)[1] && mid[2] == b.skip(4)[2]
            && mid[3] == b.skip(4)[3]);
        lemma_be32_read_inverse(mid);
        assert(spec_be32(feed_id) == mid) by {
            assert(spec_read_be32(b.skip(4)) == spec_read_be32(mid));
        }
        assert(b.take(8) =~= b.take(4) + mid);
        assert(b.take(8) =~= p);
    }
}

/// A feed key never carries an item prefix: the kind discriminants differ.
pub proof fn lemma_item_prefix_not_on_feed_key(feed_id: u32, b: Seq<u8>)
    requires
        spec_is_feed_key(b),
    ensures
        !crate::lex::is_prefix(spec_item_prefix_bytes(feed_id), b),
{
    let p = spec_item_prefix_bytes(feed_id);
    if crate::lex::is_prefix(p, b) {
        assert(forall|i: int| 0 <= i < 8 ==> b.take(8)[i] == b[i]);
        assert(forall|i: int| 0 <= i < 4 ==> p[i] == spec_be32(KEY_KIND_ITEM_NUM)[i]);
        assert(b.take(4) =~= spec_be32(KEY_KIND_ITEM_NUM));
        lemma_be32_injective(KEY_KIND_FEED_NUM, KEY_KIND_ITEM_NUM);
    }
}

/// Feed keys and item keys live in disjoint ranges of the keyspace.
pub proof fn lemma_feed_item_keys_distinct(b: Seq<u8>)
    ensures
        !(spec_is_feed_key(b) && spec_is_item_key(b)),
{
    if spec_is_feed_key(b) && spec_is_item_key(b) {
        lemma_be32_injective(KEY_KIND_FEED_NUM, KEY_KIND_ITEM_NUM);
    }
}

// ---------------------------------------------------------------------------
// Feed id and timestamps
// ---------------------------------------------------------------------------

/// Identifies one feed inside item keys; assigned by the store when the feed
/// is added.
#[derive(Clone, Copy, Debug, PartialEq, Eq, PartialOrd, Ord, Hash, Structural)]
pub struct FeedId(pub u32);

impl FeedId {
    pub fn new(x: u32) -> (r: Self)
        ensures
            r.0 == x,
    {
        FeedId(x)
    }

    pub fn as_usize(self) -> (r: usize)
        ensures
            r == self.0 as usize,
    {
        self.0 as usize
    }
}

/// A point in time as a duration since a fixed epoch.
#[derive(Clone, Copy, Debug, PartialEq, Eq, Structural)]
pub struct Timestamp {
    pub secs: u64,
    pub nanos: u32,
}

impl Timestamp {
    /// The sub-second part counts nanoseconds, so stays below one second.
    pub open spec fn wf(self) -> bool {
        self.nanos < 1_000_000_000
    }
}

// ---------------------------------------------------------------------------
// Feed keys
// ---------------------------------------------------------------------------

/// The typed key of a feed record.
#[derive(Clone, Copy, Debug, PartialEq)]
pub struct FeedKey<'a> {
    pub feed_url: &'a str,
}

/// Marks the completion stage of a staged feed key builder.
pub trait FeedSearchMark {

}

pub struct FeedSearchIsEmpty;

impl FeedSearchMark for FeedSearchIsEmpty {

}

pub struct FeedSearchHasFeedUrl;

impl FeedSearchMark for FeedSearchHasFeedUrl {

}

pub struct FeedSearchIsComplete;

impl FeedSearchMark for FeedSearchIsComplete {

}

/// A staged builder for feed keys and feed-table search prefixes: fields can
/// only be supplied in order, so a key with gaps cannot be built.
pub struct FeedSearch<'a, M: FeedSearchMark> {
    pub mark: PhantomData<M>,
    pub feed_url: Option<&'a str>,
}

impl<'a> FeedKey<'a> {
    /// An empty builder: it can only produce the full-table search prefix.
    pub fn new_search() -> (r: FeedSearch<'a, FeedSearchIsEmpty>)
        ensures
            r.feed_url is None,
    {
        FeedSearch { mark: PhantomData, feed_url: None }
    }

    /// The inclusive lower bound of the feed table's key range.
    pub fn min_search() -> (r: KeyKindBytes)
        ensures
            r@ == spec_be32(KEY_KIND_FEED_NUM),
    {
        KeyKind(KEY_KIND_FEED_NUM).to_bytes()
    }

    /// The exclusive upper bound of the feed table's key range.
    pub fn max_search() -> (r: KeyKindBytes)
        ensures
            r@ == spec_be32((KEY_KIND_FEED_NUM + 1) as u32),
    {
        KeyKind(KEY_KIND_FEED_NUM).increment().to_bytes()
    }

    /// Decodes a feed key, verifying the kind discriminant.
    pub fn from_bytes(source: &'a [u8]) -> (r: Result<Self, Error>)
        ensures
            r is Ok <==> spec_is_feed_key(source@),
            r matches Ok(k) ==> {
                &&& k.feed_url@ == spec_feed_key_url(source@)
                &&& source@ == spec_feed_key_bytes(k.feed_url@)
            },
            r matches Err(e) ==> {
                &&& source@.len() < 4 ==> e.kind == ErrorKind::DecodeError
                &&& source@.len() >= 4 && source@.take(4) != spec_be32(KEY_KIND_FEED_NUM)
                    ==> e.kind == ErrorKind::WrongKeyKind
                &&& source@.len() >= 4 && source@.take(4) == spec_be32(KEY_KIND_FEED_NUM)
                    ==> e.kind == ErrorKind::DecodeError
            },
    {
        let mut r = Reader::new(source);
        let key_kind = match r.read_key_kind() {
            Ok(k) => k,
            Err(e) => {
                return Err(decode_failed("Failed to decode database FeedKey (source: ", source, e));
            },
        };
        if key_kind.0 != KEY_KIND_FEED_NUM {
            proof {
                lemma_be32_read(KEY_KIND_FEED_NUM);
                assert(forall|i: int| 0 <= i < 4 ==> source@.take(4)[i] == source@[i]);
                assert(spec_read_be32(source@.take(4)) == spec_read_be32(source@));
            }
            let mut reason = "Got unexpected key kind value while decoding FeedKey (source: ".to_owned();
            reason.append(data_dump(source).as_str());
            reason.append(")");
            return Err(Error::new(ErrorKind::WrongKeyKind, reason.as_str()).into_error());
        }
        proof {
            lemma_be32_read_inverse(source@.take(4));
            assert(forall|i: int| 0 <= i < 4 ==> source@.take(4)[i] == source@[i]);
            assert(spec_read_be32(source@.take(4)) == spec_read_be32(source@));
            assert(source@.take(4) == spec_be32(KEY_KIND_FEED_NUM));
        }
        let feed_url = match r.read_str_eof() {
            Ok(s) => s,
            Err(e) => {
                return Err(decode_failed("Failed to decode database FeedKey (source: ", source, e));
            },
        };
        proof {
            assert(source@ =~= source@.take(4) + source@.skip(4));
        }
        Ok(FeedKey { feed_url })
    }

    /// Encodes this key; the builder stages guarantee the field order.
    pub fn to_bytes(&self) -> (r: Vec<u8>)
        ensures
            r@ == spec_feed_key_bytes(self.feed_url@),
    {
        let search: FeedSearch<'a, FeedSearchIsComplete> = FeedSearch {
            mark: PhantomData,
            feed_url: Some(self.feed_url),
        };
        search.to_bytes()
    }
}

impl<'a> FeedSearch<'a, FeedSearchIsEmpty> {
    /// Supplies the feed URL, completing the identifying fields.
    pub fn with_feed_url(self, feed_url: &'a str) -> (r: FeedSearch<'a, FeedSearchHasFeedUrl>)
        ensures
            r.feed_url matches Some(u) && u@ == feed_url@,
    {
        FeedSearch { mark: PhantomData, feed_url: Some(feed_url) }
    }
}

impl<'a, M: FeedSearchMark> FeedSearch<'a, M> {
    /// Encodes the fields supplied so far: a full key, or a search prefix.
    pub fn to_bytes(self) -> (r: Vec<u8>)
        ensures
            self.feed_url matches Some(u) ==> r@ == spec_feed_key_bytes(u@),
            self.feed_url is None ==> r@ == spec_be32(KEY_KIND_FEED_NUM),
    {
        let mut w = Writer::new();
        w.write_key_kind(KeyKind(KEY_KIND_FEED_NUM));
        match self.feed_url {
            Some(feed_url) => {
                w.write_str_eof(feed_url);
            },
            None => {},
        }
        w.into_bytes()
    }
}

// ---------------------------------------------------------------------------
// Item keys
// ---------------------------------------------------------------------------

/// The typed key of one item record; all items of one feed share the byte
/// prefix formed by the kind and the feed id.
#[derive(Clone, Copy, Debug, PartialEq)]
pub struct ItemKey<'a> {
    pub feed_id: FeedId,
    pub item_id: &'a str,
}

/// Marks the completion stage of a staged item key builder.
pub trait ItemSearchMark {

}

pub struct ItemSearchIsEmpty;

impl ItemSearchMark for ItemSearchIsEmpty {

}

pub struct ItemSearchHasFeedUrl;

impl ItemSearchMark for ItemSearchHasFeedUrl {

}

pub struct ItemSearchHasItemId;

impl ItemSearchMark for ItemSearchHasItemId {

}

/// A staged builder for item keys and feed-scoped search prefixes.
pub struct ItemSearch<'a, M: ItemSearchMark> {
    pub mark: PhantomData<M>,
    pub feed_id: Option<FeedId>,
    pub item_id: Option<&'a str>,
}

impl<'a> ItemKey<'a> {
    /// An empty builder: it can only produce the full-table search prefix.
    pub fn new_search() -> (r: ItemSearch<'a, ItemSearchIsEmpty>)
        ensures
            r.feed_id is None,
            r.item_id is None,
    {
        ItemSearch { mark: PhantomData, feed_id: None, item_id: None }
    }

    /// Decodes an item key, verifying the kind discriminant.
    pub fn from_bytes(source: &'a [u8]) -> (r: Result<Self, Error>)
        ensures
            r is Ok <==> spec_is_item_key(source@),
            r matches Ok(k) ==> {
                &&& k.feed_id.0 == spec_item_key_feed_id(source@)
                &&& k.item_id@ == spec_item_key_id(source@)
                &&& source@ == spec_item_key_bytes(k.feed_id.0, k.item_id@)
            },
            r matches Err(e) ==> {
                &&& source@.len() < 4 ==> e.kind == ErrorKind::DecodeError
                &&& source@.len() >= 4 && source@.take(4) != spec_be32(KEY_KIND_ITEM_NUM)
                    ==> e.kind == ErrorKind::WrongKeyKind
                &&& source@.len() >= 4 && source@.take(4) == spec_be32(KEY_KIND_ITEM_NUM)
                    ==> e.kind == ErrorKind::DecodeError
            },
    {
        let mut r = Reader::new(source);
        let key_kind = match r.read_key_kind() {
            Ok(k) => k,
            Err(e) => {
                return Err(decode_failed("Failed to decode database ItemKey (source: ", source, e));
            },
        };
        if key_kind.0 != KEY_KIND_ITEM_NUM {
            proof {
                lemma_be32_read(KEY_KIND_ITEM_NUM);
                assert(forall|i: int| 0 <= i < 4 ==> source@.take(4)[i] == source@[i]);
                assert(spec_read_be32(source@.take(4)) == spec_read_be32(source@));
            }
            let mut reason = "Got unexpected key kind value while decoding ItemKey (source: ".to_owned();
            reason.append(data_dump(source).as_str());
            reason.append(")");
            return Err(Error::new(ErrorKind::WrongKeyKind, reason.as_str()).into_error());
        }
        proof {
            lemma_be32_read_inverse(source@.take(4));
            assert(forall|i: int| 0 <= i < 4 ==> source@.take(4)[i] == source@[i]);
            assert(spec_read_be32(source@.take(4)) == spec_read_be32(source@));
            assert(source@.take(4) == spec_be32(KEY_KIND_ITEM_NUM));
        }
        let feed_id_num = match r.read_u32() {
            Ok(x) => x,
            Err(e) => {
                return Err(decode_failed("Failed to decode database ItemKey (source: ", source, e));
            },
        };
        let item_id = match r.read_str_eof() {
            Ok(s) => s,
            Err(e) => {
                return Err(decode_failed("Failed to decode database ItemKey (source: ", source, e));
            },
        };
        proof {
            let b = source@;
            assert(b.skip(4).skip(4) =~= b.skip(8));
            assert(forall|i: int| 0 <= i < 4 ==> b.skip(4)[i] == b[4 + i]);
            lemma_be32_read_inverse(b.skip(4).take(4));
            assert(forall|i: int| 0 <= i < 4 ==> b.skip(4).take(4)[i] == b.skip(4)[i]);
            assert(spec_read_be32(b.skip(4).take(4)) == spec_read_be32(b.skip(4)));
            assert(b =~= b.take(4) + b.skip(4).take(4) + b.skip(8));
        }
        Ok(ItemKey { feed_id: FeedId(feed_id_num), item_id })
    }

    /// Encodes this key; the builder stages guarantee the field order.
    pub fn to_bytes(&self) -> (r: Vec<u8>)
        ensures
            r@ == spec_item_key_bytes(self.feed_id.0, self.item_id@),
    {
        let search: ItemSearch<'a, ItemSearchIsEmpty> = ItemSearch {
            mark: PhantomData,
            feed_id: Some(self.feed_id),
            item_id: Some(self.item_id),
        };
        search.to_bytes()
    }
}

impl<'a> ItemSearch<'a, ItemSearchIsEmpty> {
    /// Supplies the owning feed, yielding a feed-scoped search prefix.
    pub fn with_feed_id(self, feed_id: FeedId) -> (r: ItemSearch<'a, ItemSearchHasItemId>)
        ensures
            r.feed_id matches Some(f) && f == feed_id,
            r.item_id is None,
    {
        ItemSearch { mark: PhantomData, feed_id: Some(feed_id), item_id: None }
    }
}

impl<'a, M: ItemSearchMark> ItemSearch<'a, M> {
    /// Encodes the fields supplied so far: a full key, a feed-scoped prefix,
    /// or the full-table prefix.
    pub fn to_bytes(&self) -> (r: Vec<u8>)
        ensures
            self.feed_id is Some && self.item_id is Some ==> r@ == spec_item_key_bytes(
                (self.feed_id->0).0,
                self.item_id->0@,
            ),
            self.feed_id is Some && self.item_id is None ==> r@ == spec_item_prefix_bytes(
                (self.feed_id->0).0,
            ),
            self.feed_id is None ==> r@ == spec_be32(KEY_KIND_ITEM_NUM),
    {
        let mut w = Writer::new();
        w.write_key_kind(KeyKind(KEY_KIND_ITEM_NUM));
        match self.feed_id {
            Some(feed_id) => {
                w.write_u32(feed_id.0);
                match self.item_id {
                    Some(item_id) => {
                        w.write_str_eof(item_id);
                    },
                    None => {},
                }
            },
            None => {},
        }
        w.into_bytes()
    }
}

/// Wraps a low-level decode failure with context and a bounded dump of the
/// offending bytes.
fn decode_failed(what: &str, source: &[u8], cause: Error) -> (r: Error)
    ensures
        r.kind == cause.kind,
{
    let mut reason = what.to_owned();
    reason.append(data_dump(source).as_str());
    reason.append(")");
    Error::chain(reason.as_str(), cause).into_error()
}

// ---------------------------------------------------------------------------
// Values
// ---------------------------------------------------------------------------

/// The value stored for a feed: created once when the feed is added and
/// immutable thereafter.
#[derive(Clone, Copy, Debug, PartialEq, Eq, Structural)]
pub struct FeedValue {
    pub feed_id: FeedId,
    pub when_added: Timestamp,
}

/// The value stored for an item: created when the item is first delivered;
/// `when_last_fetched` is refreshed whenever the item reappears.
#[derive(Clone, Copy, Debug, PartialEq, Eq, Structural)]
pub struct ItemValue {
    pub when_first_fetched: Timestamp,
    pub when_last_fetched: Timestamp,
}

/// What the self-describing serializer emits for a feed value; a function of
/// the fields alone.
pub uninterp spec fn msgpack_feed_value(feed_id: u32, secs: u64, nanos: u32) -> Seq<u8>;

/// What the self-describing serializer emits for an item value; a function of
/// the fields alone.
pub uninterp spec fn msgpack_item_value(
    first_secs: u64,
    first_nanos: u32,
    last_secs: u64,
    last_nanos: u32,
) -> Seq<u8>;

/// Relies on `rmp_serde::to_vec`: the encoding of plain integers is a
/// deterministic function of the values, and serializing them into a vector
/// cannot fail short of allocation failure (which, as everywhere in this
/// crate, aborts).
#[verifier::external_body]
fn msgpack_encode_feed_value(feed_id: u32, secs: u64, nanos: u32) -> (r: Vec<u8>)
    ensures
        r@ == msgpack_feed_value(feed_id, secs, nanos),
{
    rmp_serde::to_vec(&(feed_id, (secs, nanos))).unwrap()
}

/// Relies on `rmp_serde::from_slice`: deserialization inverts
/// `rmp_serde::to_vec` on plain integers.
#[verifier::external_body]
fn msgpack_decode_feed_value(source: &[u8]) -> (r: Option<(u32, (u64, u32))>)
    ensures
        forall|id: u32, s: u64, n: u32|
            source@ == msgpack_feed_value(id, s, n) ==> r == Some((id, (s, n))),
{
    rmp_serde::from_slice(source).ok()
}

/// Relies on `rmp_serde::to_vec`: the encoding of plain integers is a
/// deterministic function of the values, and serializing them into a vector
/// cannot fail short of allocation failure (which, as everywhere in this
/// crate, aborts).
#[verifier::external_body]
fn msgpack_encode_item_value(fs: u64, fn_: u32, ls: u64, ln: u32) -> (r: Vec<u8>)
    ensures
        r@ == msgpack_item_value(fs, fn_, ls, ln),
{
    rmp_serde::to_vec(&((fs, fn_), (ls, ln))).unwrap()
}

/// Relies on `rmp_serde::from_slice`: deserialization inverts
/// `rmp_serde::to_vec` on plain integers.
#[verifier::external_body]
fn msgpack_decode_item_value(source: &[u8]) -> (r: Option<((u64, u32), (u64, u32))>)
    ensures
        forall|fs: u64, fn_: u32, ls: u64, ln: u32|
            source@ == msgpack_item_value(fs, fn_, ls, ln) ==> r == Some(((fs, fn_), (ls, ln))),
{
    rmp_serde::from_slice(source).ok()
}

impl FeedValue {
    /// The serialized form of this value.
    pub open spec fn spec_bytes(self) -> Seq<u8> {
        msgpack_feed_value(self.feed_id.0, self.when_added.secs, self.when_added.nanos)
    }

    /// Decodes a feed value; any bytes the serializer emitted decode back to
    /// the original value.
    pub fn from_bytes(source: &[u8]) -> (r: Result<Self, Error>)
        ensures
            forall|v: FeedValue| source@ == v.spec_bytes() ==> r == Ok::<FeedValue, Error>(v),
            r matches Err(e) ==> e.kind == ErrorKind::DecodeError,
    {
        match msgpack_decode_feed_value(source) {
            Some((id, (secs, nanos))) => Ok(
                FeedValue {
                    feed_id: FeedId(id),
                    when_added: Timestamp { secs, nanos },
                },
            ),
            None => {
                let mut reason = "Failed to decode database FeedValue (source: ".to_owned();
                reason.append(data_dump(source).as_str());
                reason.append(")");
                Err(Error::new(ErrorKind::DecodeError, reason.as_str()).into_error())
            },
        }
    }

    /// Encodes this value with the self-describing serializer.
    pub fn to_bytes(&self) -> (r: Vec<u8>)
        ensures
            r@ == self.spec_bytes(),
    {
        msgpack_encode_feed_value(self.feed_id.0, self.when_added.secs, self.when_added.nanos)
    }
}

impl ItemValue {
    /// The serialized form of this value.
    pub open spec fn spec_bytes(self) -> Seq<u8> {
        msgpack_item_value(
            self.when_first_fetched.secs,
            self.when_first_fetched.nanos,
            self.when_last_fetched.secs,
            self.when_last_fetched.nanos,
        )
    }

    /// Decodes an item value; any bytes the serializer emitted decode back to
    /// the original value.
    pub fn from_bytes(source: &[u8]) -> (r: Result<Self, Error>)
        ensures
            forall|v: ItemValue| source@ == v.spec_bytes() ==> r == Ok::<ItemValue, Error>(v),
            r matches Err(e) ==> e.kind == ErrorKind::DecodeError,
    {
        match msgpack_decode_item_value(source) {
            Some(((fs, fnanos), (ls, lnanos))) => Ok(
                ItemValue {
                    when_first_fetched: Timestamp { secs: fs, nanos: fnanos },
                    when_last_fetched: Timestamp { secs: ls, nanos: lnanos },
                },
            ),
            None => {
                let mut reason = "Failed to decode database ItemValue (source: ".to_owned();
                reason.append(data_dump(source).as_str());
                reason.append(")");
                Err(Error::new(ErrorKind::DecodeError, reason.as_str()).into_error())
            },
        }
    }

    /// Encodes this value with the self-describing serializer.
    pub fn to_bytes(&self) -> (r: Vec<u8>)
        ensures
            r@ == self.spec_bytes(),
    {
        msgpack_encode_item_value(
            self.when_first_fetched.secs,
            self.when_first_fetched.nanos,
            self.when_last_fetched.secs,
            self.when_last_fetched.nanos,
        )
    }
}

// ---------------------------------------------------------------------------
// Diagnostic dump of raw bytes
// ---------------------------------------------------------------------------

/// The decimal digits of a single decimal digit value.
pub open spec fn spec_digit_seq(d: u8) -> Seq<char> {
    if d == 0 {
        "0"@
    } else if d == 1 {
        "1"@
    } else if d == 2 {
        "2"@
    } else if d == 3 {
        "3"@
    } else if d == 4 {
        "4"@
    } else if d == 5 {
        "5"@
    } else if d == 6 {
        "6"@
    } else if d == 7 {
        "7"@
    } else if d == 8 {
        "8"@
    } else {
        "9"@
    }
}

/// The decimal rendering of `n`.
pub open spec fn spec_decimal(n: nat) -> Seq<char>
    decreases n,
{
    if n < 10 {
        spec_digit_seq(n as u8)
    } else {
        spec_decimal(n / 10) + spec_digit_seq((n % 10) as u8)
    }
}

/// The comma-separated decimal renderings of the bytes of `d`.
pub open spec fn spec_byte_list_inner(d: Seq<u8>) -> Seq<char>
    decreases d.len(),
{
    if d.len() == 0 {
        Seq::<char>::empty()
    } else if d.len() == 1 {
        spec_decimal(d[0] as nat)
    } else {
        spec_byte_list_inner(d.drop_last()) + ", "@ + spec_decimal(d.last() as nat)
    }
}

pub open spec fn spec_byte_list(d: Seq<u8>) -> Seq<char> {
    "["@ + spec_byte_list_inner(d) + "]"@
}

/// The bounded dump: the full bytes when fewer than 100, else the first 100
/// with the original length reported.
pub open spec fn spec_data_dump(d: Seq<u8>) -> Seq<char> {
    if d.len() < 100 {
        spec_byte_list(d)
    } else {
        "(truncated, was size "@ + spec_decimal(d.len()) + ") "@ + spec_byte_list(d.take(100))
    }
}

/// Appends one decimal digit.
fn append_digit(s: &mut String, d: u8)
    requires
        d < 10,
    ensures
        final(s)@ == old(s)@ + spec_digit_seq(d),
{
    if d == 0 {
        s.append("0");
    } else if d == 1 {
        s.append("1");
    } else if d == 2 {
        s.append("2");
    } else if d == 3 {
        s.append("3");
    } else if d == 4 {
        s.append("4");
    } else if d == 5 {
        s.append("5");
    } else if d == 6 {
        s.append("6");
    } else if d == 7 {
        s.append("7");
    } else if d == 8 {
        s.append("8");
    } else {
        s.append("9");
    }
}

/// Appends the decimal rendering of `n`.
fn append_decimal(s: &mut String, n: usize)
    ensures
        final(s)@ == old(s)@ + spec_decimal(n as nat),
    decreases n,
{
    if n < 10 {
        append_digit(s, n as u8);
    } else {
        append_decimal(s, n / 10);
        append_digit(s, (n % 10) as u8);
    }
}

/// Appends the bracketed byte list for `d`.
fn append_byte_list(s: &mut String, d: &[u8])
    ensures
        final(s)@ == old(s)@ + spec_byte_list(d@),
{
    s.append("[");
    let n: usize = d.len();
    let mut i: usize = 0;
    while i < n
        invariant
            i <= n,
            n == d@.len(),
            s@ == old(s)@ + "["@ + spec_byte_list_inner(d@.take(i as int)),
        decreases n - i,
    {
        if i > 0 {
            s.append(", ");
        }
        let b = *slice_index_get(d, i);
        append_decimal(s, b as usize);
        proof {
            lemma_byte_list_inner_step(d@, i as int);
        }
        i = i + 1;
    }
    s.append("]");
    proof {
        assert(d@.take(n as int) =~= d@);
    }
}

proof fn lemma_byte_list_inner_step(d: Seq<u8>, i: int)
    requires
        0 <= i < d.len(),
    ensures
        i == 0 ==> spec_byte_list_inner(d.take(1)) == spec_decimal(d[0] as nat),
        i > 0 ==> spec_byte_list_inner(d.take(i + 1)) == spec_byte_list_inner(d.take(i)) + ", "@
            + spec_decimal(d[i] as nat),
{
    if i == 0 {
        assert(d.take(1).len() == 1);
        assert(d.take(1)[0] == d[0]);
    } else {
        assert(d.take(i + 1).len() == i + 1);
        assert(d.take(i + 1).drop_last() =~= d.take(i));
        assert(d.take(i + 1).last() == d[i]);
    }
}

/// A bounded, human-readable dump of raw binary data: the full bytes when
/// fewer than 100, else the first 100 with the original length reported.
pub fn data_dump(d: &[u8]) -> (r: String)
    ensures
        r@ == spec_data_dump(d@),
{
    if d.len() < 100 {
        let mut s = String::new();
        append_byte_list(&mut s, d);
        s
    } else {
        let mut s = "(truncated, was size ".to_owned();
        append_decimal(&mut s, d.len());
        s.append(") ");
        let head = slice_subrange(d, 0, 100);
        append_byte_list(&mut s, head);
        s
    }
}

} // verus!
