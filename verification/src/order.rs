//! Strict lexicographic ordering of byte sequences.
//!
//! Every ordered structure in this crate (tree entries sorted by segment,
//! the backing key-value store sorted by key) is ordered by this relation.

use vstd::prelude::*;

verus! {

/// `a` is strictly below `b` in lexicographic byte order.
pub open spec fn lex_lt(a: Seq<u8>, b: Seq<u8>) -> bool
    decreases a.len(),
{
    if b.len() == 0 {
        false
    } else if a.len() == 0 {
        true
    } else if a[0] < b[0] {
        true
    } else if a[0] > b[0] {
        false
    } else {
        lex_lt(a.drop_first(), b.drop_first())
    }
}

/// Exactly one of `lex_lt(a, b)`, `a == b`, `lex_lt(b, a)` holds.
pub proof fn lemma_lex_trichotomy(a: Seq<u8>, b: Seq<u8>)
    ensures
        lex_lt(a, b) || lex_lt(b, a) || a == b,
        lex_lt(a, b) ==> !lex_lt(b, a) && a != b,
        lex_lt(b, a) ==> !lex_lt(a, b) && a != b,
    decreases a.len(),
{
    if a.len() == 0 || b.len() == 0 {
        if a.len() == 0 && b.len() == 0 {
            assert(a =~= b);
        }
    } else if a[0] == b[0] {
        lemma_lex_trichotomy(a.drop_first(), b.drop_first());
        if a.drop_first() == b.drop_first() {
            assert forall|i: int| 0 <= i < a.len() implies a[i] == b[i] by {
                if i > 0 {
                    assert(a.drop_first()[i - 1] == b.drop_first()[i - 1]);
                }
            }
            assert(a =~= b);
        }
        if a == b {
            assert(a.drop_first() =~= b.drop_first());
        }
    }
}

/// Lexicographic order is transitive.
pub proof fn lemma_lex_transitive(a: Seq<u8>, b: Seq<u8>, c: Seq<u8>)
    requires
        lex_lt(a, b),
        lex_lt(b, c),
    ensures
        lex_lt(a, c),
    decreases a.len(),
{
    if a.len() == 0 {
        if c.len() == 0 {
            assert(b.len() > 0 && c.len() == 0);
        }
    } else if b.len() > 0 && c.len() > 0 {
        if a[0] == b[0] && b[0] == c[0] {
            lemma_lex_transitive(a.drop_first(), b.drop_first(), c.drop_first());
        }
    }
}

/// Three-way comparison of byte slices; the result encodes the
/// lexicographic relation between the two operands.
pub fn bytes_cmp(a: &[u8], b: &[u8]) -> (r: i32)
    ensures
        r == -1 || r == 0 || r == 1,
        (r == -1) <==> lex_lt(a@, b@),
        (r == 0) <==> (a@ == b@),
        (r == 1) <==> lex_lt(b@, a@),
{
    proof {
        lemma_lex_trichotomy(a@, b@);
    }
    let a_len: usize = a.len();
    let b_len: usize = b.len();
    let mut i: usize = 0;
    loop
        invariant
            i <= a_len,
            i <= b_len,
            a_len == a@.len(),
            b_len == b@.len(),
            forall|j: int| 0 <= j < i ==> a@[j] == b@[j],
            lex_lt(a@, b@) || lex_lt(b@, a@) || a@ == b@,
            lex_lt(a@, b@) ==> !lex_lt(b@, a@) && a@ != b@,
            lex_lt(b@, a@) ==> !lex_lt(a@, b@) && a@ != b@,
        decreases a_len - i,
    {
        if i == a_len || i == b_len {
            if a_len == b_len {
                proof {
                    assert(a@ =~= b@);
                }
                return 0;
            } else if a_len < b_len {
                proof {
                    lemma_lex_prefix(a@, b@, i as int);
                }
                return -1;
            } else {
                proof {
                    lemma_lex_prefix(b@, a@, i as int);
                }
                return 1;
            }
        }
        let x = a[i];
        let y = b[i];
        if x < y {
            proof {
                lemma_lex_first_diff(a@, b@, i as int);
            }
            return -1;
        } else if x > y {
            proof {
                lemma_lex_first_diff(b@, a@, i as int);
            }
            return 1;
        }
        i = i + 1;
    }
}

/// If `a` is a strict prefix of `b` (they agree on all of `a`), then `a`
/// is lexicographically below `b`.
proof fn lemma_lex_prefix(a: Seq<u8>, b: Seq<u8>, n: int)
    requires
        a.len() < b.len(),
        n == a.len(),
        forall|j: int| 0 <= j < n ==> a[j] == b[j],
    ensures
        lex_lt(a, b),
    decreases a.len(),
{
    if a.len() > 0 {
        lemma_lex_prefix(a.drop_first(), b.drop_first(), n - 1);
    }
}

/// If `a` and `b` agree strictly before position `i` and differ there with
/// `a[i] < b[i]`, then `a` is lexicographically below `b`.
proof fn lemma_lex_first_diff(a: Seq<u8>, b: Seq<u8>, i: int)
    requires
        0 <= i < a.len(),
        i < b.len(),
        forall|j: int| 0 <= j < i ==> a[j] == b[j],
        a[i] < b[i],
    ensures
        lex_lt(a, b),
    decreases i,
{
    if i > 0 {
        lemma_lex_first_diff(a.drop_first(), b.drop_first(), i - 1);
    }
}

} // verus!
