//! Byte-lexicographic order on byte sequences: the native key order of the
//! store, together with the prefix predicate used by range scans.

use vstd::prelude::*;

verus! {

/// Strict byte-lexicographic order: `a` comes before `b`.
pub open spec fn lex_lt(a: Seq<u8>, b: Seq<u8>) -> bool
    decreases a.len(),
{
    if b.len() == 0 {
        false
    } else if a.len() == 0 {
        true
    } else if a[0] < b[0] {
        true
    } else if a[0] > b[0] {
        false
    } else {
        lex_lt(a.drop_first(), b.drop_first())
    }
}

pub open spec fn lex_le(a: Seq<u8>, b: Seq<u8>) -> bool {
    lex_lt(a, b) || a == b
}

/// `p` is a prefix of `s`.
pub open spec fn is_prefix(p: Seq<u8>, s: Seq<u8>) -> bool {
    p.len() <= s.len() && s.take(p.len() as int) == p
}

pub proof fn lemma_lex_lt_irreflexive(a: Seq<u8>)
    ensures
        !lex_lt(a, a),
    decreases a.len(),
{
    if a.len() > 0 {
        lemma_lex_lt_irreflexive(a.drop_first());
    }
}

/// Two nonempty sequences with equal heads and equal tails are equal.
pub proof fn lemma_eq_from_first_rest(x: Seq<u8>, y: Seq<u8>)
    requires
        x.len() > 0,
        y.len() > 0,
        x[0] == y[0],
        x.drop_first() == y.drop_first(),
    ensures
        x == y,
{
    assert(x.drop_first().len() == x.len() - 1);
    assert(y.drop_first().len() == y.len() - 1);
    assert(x.len() == y.len());
    assert forall|i: int| 0 <= i < x.len() implies x[i] == y[i] by {
        if i > 0 {
            assert(x.drop_first()[i - 1] == x[i]);
            assert(y.drop_first()[i - 1] == y[i]);
        }
    }
    assert(x =~= y);
}

pub proof fn lemma_lex_lt_transitive(a: Seq<u8>, b: Seq<u8>, c: Seq<u8>)
    requires
        lex_lt(a, b),
        lex_lt(b, c),
    ensures
        lex_lt(a, c),
    decreases a.len(),
{
    if a.len() > 0 && b.len() > 0 && c.len() > 0 && a[0] == b[0] && b[0] == c[0] {
        lemma_lex_lt_transitive(a.drop_first(), b.drop_first(), c.drop_first());
    }
}

/// A proper extension of a sequence comes strictly after it.
pub proof fn lemma_prefix_le(p: Seq<u8>, s: Seq<u8>)
    requires
        is_prefix(p, s),
    ensures
        lex_le(p, s),
    decreases p.len(),
{
    if p.len() == 0 {
        if s.len() == 0 {
            assert(p =~= s);
        }
    } else {
        assert(s.take(p.len() as int)[0] == p[0]);
        assert(s[0] == p[0]);
        assert(s.drop_first().take(p.len() - 1) =~= s.take(p.len() as int).drop_first());
        lemma_prefix_le(p.drop_first(), s.drop_first());
        if p.drop_first() == s.drop_first() && p.len() == s.len() {
            assert(p =~= s);
        }
    }
}

/// In the lexicographic order, the keys sharing a prefix `p` form a window:
/// anything between two of them also carries the prefix.
pub proof fn lemma_prefix_window(p: Seq<u8>, a: Seq<u8>, b: Seq<u8>, c: Seq<u8>)
    requires
        is_prefix(p, a),
        is_prefix(p, c),
        lex_le(a, b),
        lex_le(b, c),
    ensures
        is_prefix(p, b),
    decreases p.len(),
{
    if p.len() == 0 {
        assert(b.take(0) =~= p);
    } else {
        assert(a.take(p.len() as int)[0] == p[0]);
        assert(c.take(p.len() as int)[0] == p[0]);
        assert(a[0] == p[0] && c[0] == p[0]);
        if a == b {
            assert(is_prefix(p, b));
        } else if b == c {
            assert(is_prefix(p, b));
        } else {
            // a < b < c strictly; since a[0] == c[0], also b[0] == p[0].
            assert(b.len() > 0);
            assert(b[0] == p[0]) by {
                if b[0] < a[0] {
                    lemma_lex_first_byte(a, b);
                } else if b[0] > c[0] {
                    lemma_lex_first_byte(b, c);
                }
            }
            assert(a.drop_first().take(p.len() - 1) =~= a.take(p.len() as int).drop_first());
            assert(c.drop_first().take(p.len() - 1) =~= c.take(p.len() as int).drop_first());
            assert(lex_le(a.drop_first(), b.drop_first())) by {
                if a.drop_first() == b.drop_first() {
                } else {
                    assert(lex_lt(a, b));
                }
            }
            assert(lex_le(b.drop_first(), c.drop_first())) by {
                if b.drop_first() == c.drop_first() {
                } else {
                    assert(lex_lt(b, c));
                }
            }
            lemma_prefix_window(p.drop_first(), a.drop_first(), b.drop_first(), c.drop_first());
            assert(b.drop_first().take(p.len() - 1) =~= b.take(p.len() as int).drop_first());
            assert(b.take(p.len() as int)[0] == b[0]);
            lemma_eq_from_first_rest(b.take(p.len() as int), p);
        }
    }
}

proof fn lemma_lex_first_byte(a: Seq<u8>, b: Seq<u8>)
    requires
        lex_lt(a, b),
        a.len() > 0,
        b.len() > 0,
    ensures
        a[0] <= b[0],
{
}

/// Prepending a common prefix preserves the lexicographic order.
pub proof fn lemma_lex_lt_common_prefix(p: Seq<u8>, a: Seq<u8>, b: Seq<u8>)
    ensures
        lex_lt(p + a, p + b) <==> lex_lt(a, b),
    decreases p.len(),
{
    if p.len() == 0 {
        assert(p + a =~= a);
        assert(p + b =~= b);
    } else {
        assert((p + a).len() > 0 && (p + b).len() > 0);
        assert((p + a)[0] == p[0] && (p + b)[0] == p[0]);
        assert((p + a).drop_first() =~= p.drop_first() + a);
        assert((p + b).drop_first() =~= p.drop_first() + b);
        lemma_lex_lt_common_prefix(p.drop_first(), a, b);
    }
}

/// Result of comparing two byte keys.
#[derive(Clone, Copy, Debug, PartialEq, Eq, Structural)]
pub enum KeyOrd {
    Less,
    Equal,
    Greater,
}

/// Compares two byte sequences in byte-lexicographic order.
pub fn compare_bytes(a: &[u8], b: &[u8]) -> (r: KeyOrd)
    ensures
        r == KeyOrd::Less ==> lex_lt(a@, b@),
        r == KeyOrd::Greater ==> lex_lt(b@, a@),
        r == KeyOrd::Equal ==> a@ == b@,
{
    let a_len: usize = a.len();
    let b_len: usize = b.len();
    let mut i: usize = 0;
    loop
        invariant
            i <= a_len,
            i <= b_len,
            a_len == a@.len(),
            b_len == b@.len(),
            a@.take(i as int) == b@.take(i as int),
        decreases a_len - i,
    {
        if i == a_len && i == b_len {
            proof {
                assert(a@ =~= a@.take(i as int));
                assert(b@ =~= b@.take(i as int));
            }
            return KeyOrd::Equal;
        }
        if i == a_len {
            proof {
                lemma_skip_lex(a@, b@, i as int);
            }
            return KeyOrd::Less;
        }
        if i == b_len {
            proof {
                lemma_skip_lex(b@, a@, i as int);
            }
            return KeyOrd::Greater;
        }
        let x = *vstd::slice::slice_index_get(a, i);
        let y = *vstd::slice::slice_index_get(b, i);
        if x < y {
            proof {
                lemma_skip_lex(a@, b@, i as int);
            }
            return KeyOrd::Less;
        }
        if x > y {
            proof {
                lemma_skip_lex(b@, a@, i as int);
            }
            return KeyOrd::Greater;
        }
        proof {
            assert(a@.take(i + 1) =~= a@.take(i as int).push(a@[i as int]));
            assert(b@.take(i + 1) =~= b@.take(i as int).push(b@[i as int]));
        }
        i = i + 1;
    }
}

/// If two sequences agree on their first `i` bytes and diverge there, the
/// lexicographic comparison is decided at position `i`.
proof fn lemma_skip_lex(a: Seq<u8>, b: Seq<u8>, i: int)
    requires
        0 <= i <= a.len(),
        i <= b.len(),
        a.take(i) == b.take(i),
        b.len() > i,
        a.len() > i ==> a[i] < b[i],
    ensures
        lex_lt(a, b),
    decreases i,
{
    if i == 0 {
        if a.len() == 0 {
        } else {
            assert(a[0] < b[0]);
        }
    } else {
        assert(a.take(i)[0] == a[0]);
        assert(b.take(i)[0] == b[0]);
        assert(a[0] == b[0]);
        assert(a.drop_first().take(i - 1) =~= a.take(i).drop_first());
        assert(b.drop_first().take(i - 1) =~= b.take(i).drop_first());
        if a.len() > i && b.len() > i {
            assert(a.drop_first()[i - 1] == a[i]);
            assert(b.drop_first()[i - 1] == b[i]);
        }
        lemma_skip_lex(a.drop_first(), b.drop_first(), i - 1);
    }
}

} // verus!
