//! The order in which names and paths are listed.
//!
//! Names are ordered by the bytes of their UTF-8 encoding, and paths name by
//! name, a path coming before every path that it begins. This is the order in
//! which a walk visits a tree when it takes the entries of each directory in
//! the order of their names.

use crate::path::Names;
use vstd::prelude::*;
use vstd::utf8::encode_utf8;

verus! {

/// How the first of two values stands to the second.
#[derive(Debug, Clone, Copy, PartialEq, Eq, Structural)]
pub enum Rank {
    /// It comes first.
    Before,
    /// The two are the same.
    Same,
    /// It comes second.
    After,
}

/// Whether `a` and `b` agree on their first `k` elements.
pub open spec fn agree_to<T>(a: Seq<T>, b: Seq<T>, k: int) -> bool {
    &&& 0 <= k <= a.len()
    &&& k <= b.len()
    &&& forall|i: int| 0 <= i < k ==> a[i] == b[i]
}

/// Whether the byte string `a` comes before `b`: at the first place where
/// they differ `a` has the smaller byte, or `a` ends there and `b` goes on.
pub open spec fn bytes_before(a: Seq<u8>, b: Seq<u8>) -> bool {
    exists|k: int| #[trigger]
        agree_to(a, b, k) && (if k == a.len() {
            k < b.len()
        } else {
            k < b.len() && a[k] < b[k]
        })
}

/// Whether the name `a` comes before the name `b`.
pub open spec fn name_before(a: Seq<char>, b: Seq<char>) -> bool {
    bytes_before(encode_utf8(a), encode_utf8(b))
}

/// Whether the path `a` comes before the path `b`: at the first place where
/// they differ `a` has the earlier name, or `a` ends there and `b` goes on.
pub open spec fn path_before(a: Names, b: Names) -> bool {
    exists|k: int| #[trigger]
        agree_to(a, b, k) && (if k == a.len() {
            k < b.len()
        } else {
            k < b.len() && name_before(a[k], b[k])
        })
}

/// No byte string comes before itself.
pub proof fn lemma_bytes_before_irreflexive(a: Seq<u8>)
    ensures
        !bytes_before(a, a),
{
}

/// The order of byte strings is transitive.
pub proof fn lemma_bytes_before_transitive(a: Seq<u8>, b: Seq<u8>, c: Seq<u8>)
    requires
        bytes_before(a, b),
        bytes_before(b, c),
    ensures
        bytes_before(a, c),
{
    let k1 = choose|k: int| #[trigger]
        agree_to(a, b, k) && (if k == a.len() {
            k < b.len()
        } else {
            k < b.len() && a[k] < b[k]
        });
    let k2 = choose|k: int| #[trigger]
        agree_to(b, c, k) && (if k == b.len() {
            k < c.len()
        } else {
            k < c.len() && b[k] < c[k]
        });
    let k = if k1 <= k2 {
        k1
    } else {
        k2
    };
    assert(agree_to(a, c, k));
}

/// No name comes before itself.
pub proof fn lemma_name_before_irreflexive(a: Seq<char>)
    ensures
        !name_before(a, a),
{
    lemma_bytes_before_irreflexive(encode_utf8(a));
}

/// The order of names is transitive.
pub proof fn lemma_name_before_transitive(a: Seq<char>, b: Seq<char>, c: Seq<char>)
    requires
        name_before(a, b),
        name_before(b, c),
    ensures
        name_before(a, c),
{
    lemma_bytes_before_transitive(encode_utf8(a), encode_utf8(b), encode_utf8(c));
}

/// No path comes before itself.
pub proof fn lemma_path_before_irreflexive(a: Names)
    ensures
        !path_before(a, a),
{
    assert forall|k: int| #[trigger] agree_to(a, a, k) implies !(if k == a.len() {
        k < a.len()
    } else {
        k < a.len() && name_before(a[k], a[k])
    }) by {
        if k < a.len() {
            lemma_name_before_irreflexive(a[k]);
        }
    }
}

/// The order of paths is transitive.
pub proof fn lemma_path_before_transitive(a: Names, b: Names, c: Names)
    requires
        path_before(a, b),
        path_before(b, c),
    ensures
        path_before(a, c),
{
    let k1 = choose|k: int| #[trigger]
        agree_to(a, b, k) && (if k == a.len() {
            k < b.len()
        } else {
            k < b.len() && name_before(a[k], b[k])
        });
    let k2 = choose|k: int| #[trigger]
        agree_to(b, c, k) && (if k == b.len() {
            k < c.len()
        } else {
            k < c.len() && name_before(b[k], c[k])
        });
    let k = if k1 <= k2 {
        k1
    } else {
        k2
    };
    if k1 == k2 && k1 < a.len() {
        lemma_name_before_transitive(a[k], b[k], c[k]);
    }
    assert(agree_to(a, c, k));
}

/// A path comes before every longer path that begins with it.
pub proof fn lemma_prefix_comes_before(a: Names, b: Names)
    requires
        crate::path::starts_with(b, a),
        a.len() < b.len(),
    ensures
        path_before(a, b),
{
    assert(agree_to(a, b, a.len() as int)) by {
        assert forall|i: int| 0 <= i < a.len() implies a[i] == b[i] by {
            assert(b.subrange(0, a.len() as int)[i] == b[i]);
        }
    }
}

/// Compares two byte strings.
pub fn rank_bytes(a: &[u8], b: &[u8]) -> (r: Rank)
    ensures
        r == Rank::Before <==> bytes_before(a@, b@),
        r == Rank::Same <==> a@ == b@,
        r == Rank::After <==> bytes_before(b@, a@),
{
    let mut i: usize = 0;
    while i < a.len() && i < b.len()
        invariant
            agree_to(a@, b@, i as int),
        decreases a@.len() - i,
    {
        if a[i] < b[i] {
            proof {
                lemma_bytes_differ(a@, b@, i as int);
            }
            return Rank::Before;
        }
        if a[i] > b[i] {
            proof {
                assert(agree_to(b@, a@, i as int));
                lemma_bytes_differ(b@, a@, i as int);
            }
            return Rank::After;
        }
        i += 1;
    }
    proof {
        assert(agree_to(b@, a@, i as int));
        if i < b@.len() {
            lemma_bytes_differ(a@, b@, i as int);
        } else if i < a@.len() {
            lemma_bytes_differ(b@, a@, i as int);
        } else {
            assert(a@ =~= b@);
            lemma_bytes_before_irreflexive(a@);
        }
    }
    if i < b.len() {
        Rank::Before
    } else if i < a.len() {
        Rank::After
    } else {
        Rank::Same
    }
}

/// Compares two names.
pub fn rank_names(a: &str, b: &str) -> (r: Rank)
    ensures
        r == Rank::Before <==> name_before(a@, b@),
        r == Rank::Same <==> a@ == b@,
        r == Rank::After <==> name_before(b@, a@),
{
    proof {
        vstd::utf8::encode_utf8_decode_utf8(a@);
        vstd::utf8::encode_utf8_decode_utf8(b@);
    }
    rank_bytes(a.as_bytes(), b.as_bytes())
}

/// Where `a` and `b` agree to place `k` and `a` ends or is smaller there,
/// `a` comes before `b`, `b` does not come before `a`, and the two differ.
proof fn lemma_bytes_differ(a: Seq<u8>, b: Seq<u8>, k: int)
    requires
        agree_to(a, b, k),
        k < b.len(),
        k == a.len() || a[k] < b[k],
    ensures
        bytes_before(a, b),
        !bytes_before(b, a),
        a != b,
{
    if bytes_before(b, a) {
        lemma_bytes_before_transitive(a, b, a);
        lemma_bytes_before_irreflexive(a);
    }
    if a == b {
        lemma_bytes_before_irreflexive(a);
    }
}

} // verus!
