//! Byte-wise lexicographic order on strings.
//!
//! User and team names are kept sorted by the lexicographic order of their
//! UTF-8 encodings, the order a relational store's `ORDER BY` produces for
//! text. On ASCII names it coincides with character order.

use vstd::prelude::*;

verus! {

use vstd::string::StringSliceAdditionalSpecFns;
use vstd::utf8::encode_utf8;
use vstd::utf8::encode_utf8_decode_utf8;

/// Strict lexicographic order on byte sequences: a proper prefix comes first,
/// otherwise the first differing byte decides.
pub open spec fn lex_lt(a: Seq<u8>, b: Seq<u8>) -> bool
    decreases b.len(),
{
    if b.len() == 0 {
        false
    } else if a.len() == 0 {
        true
    } else if a[0] < b[0] {
        true
    } else if b[0] < a[0] {
        false
    } else {
        lex_lt(a.drop_first(), b.drop_first())
    }
}

/// Strict order on strings: lexicographic order of their UTF-8 encodings.
pub open spec fn name_lt(a: Seq<char>, b: Seq<char>) -> bool {
    lex_lt(encode_utf8(a), encode_utf8(b))
}

/// `lex_lt` never holds of a sequence and itself.
pub proof fn lemma_lex_lt_irreflexive(a: Seq<u8>)
    ensures
        !lex_lt(a, a),
    decreases a.len(),
{
    if a.len() != 0 {
        lemma_lex_lt_irreflexive(a.drop_first());
    }
}

/// `lex_lt` holds in at most one direction.
pub proof fn lemma_lex_lt_asymmetric(a: Seq<u8>, b: Seq<u8>)
    ensures
        !(lex_lt(a, b) && lex_lt(b, a)),
    decreases a.len(),
{
    if a.len() != 0 && b.len() != 0 && a[0] == b[0] {
        lemma_lex_lt_asymmetric(a.drop_first(), b.drop_first());
    }
}

/// Two byte sequences that neither order admits are equal.
pub proof fn lemma_lex_lt_total(a: Seq<u8>, b: Seq<u8>)
    ensures
        lex_lt(a, b) || lex_lt(b, a) || a == b,
    decreases a.len(),
{
    if a.len() == 0 {
        if b.len() == 0 {
            assert(a =~= b);
        }
    } else if b.len() != 0 && a[0] == b[0] {
        lemma_lex_lt_total(a.drop_first(), b.drop_first());
        if !lex_lt(a, b) && !lex_lt(b, a) {
            assert(a.drop_first() == b.drop_first());
            assert forall|i: int| 1 <= i < a.len() implies a[i] == b[i] by {
                assert(a[i] == a.drop_first()[i - 1]);
                assert(b[i] == b.drop_first()[i - 1]);
            }
            assert(a =~= b);
        }
    }
}

/// `lex_lt` is transitive.
pub proof fn lemma_lex_lt_transitive(a: Seq<u8>, b: Seq<u8>, c: Seq<u8>)
    requires
        lex_lt(a, b),
        lex_lt(b, c),
    ensures
        lex_lt(a, c),
    decreases a.len(),
{
    if a.len() != 0 {
        if a[0] == b[0] && b[0] == c[0] {
            lemma_lex_lt_transitive(a.drop_first(), b.drop_first(), c.drop_first());
        }
    }
}

/// Equal UTF-8 encodings come from equal character sequences.
pub proof fn lemma_encode_injective(a: Seq<char>, b: Seq<char>)
    requires
        encode_utf8(a) == encode_utf8(b),
    ensures
        a == b,
{
    encode_utf8_decode_utf8(a);
    encode_utf8_decode_utf8(b);
}

/// `name_lt` orders strings totally: of two distinct strings one comes first.
pub proof fn lemma_name_lt_total(a: Seq<char>, b: Seq<char>)
    ensures
        name_lt(a, b) || name_lt(b, a) || a == b,
        !(name_lt(a, b) && name_lt(b, a)),
        a == b ==> !name_lt(a, b),
{
    lemma_lex_lt_total(encode_utf8(a), encode_utf8(b));
    lemma_lex_lt_asymmetric(encode_utf8(a), encode_utf8(b));
    lemma_lex_lt_irreflexive(encode_utf8(a));
    if !name_lt(a, b) && !name_lt(b, a) {
        lemma_encode_injective(a, b);
    }
}

/// `name_lt` is transitive.
pub proof fn lemma_name_lt_transitive(a: Seq<char>, b: Seq<char>, c: Seq<char>)
    requires
        name_lt(a, b),
        name_lt(b, c),
    ensures
        name_lt(a, c),
{
    lemma_lex_lt_transitive(encode_utf8(a), encode_utf8(b), encode_utf8(c));
}

/// The views of a sequence of strings.
pub open spec fn views_of(s: Seq<String>) -> Seq<Seq<char>> {
    s.map_values(|x: String| x@)
}

/// Strictly sorted in byte-lexicographic order (so also free of duplicates).
pub open spec fn sorted_names(s: Seq<Seq<char>>) -> bool {
    forall|i: int, j: int| 0 <= i < j < s.len() ==> name_lt(s[i], s[j])
}

/// A strictly sorted sequence of names has no duplicates.
pub proof fn lemma_sorted_unique(s: Seq<Seq<char>>)
    requires
        sorted_names(s),
    ensures
        forall|i: int, j: int| 0 <= i < s.len() && 0 <= j < s.len() && i != j ==> s[i] != s[j],
{
    assert forall|i: int, j: int|
        0 <= i < s.len() && 0 <= j < s.len() && i != j implies s[i] != s[j] by {
        if i < j {
            lemma_name_lt_total(s[i], s[j]);
        } else {
            lemma_name_lt_total(s[j], s[i]);
        }
    }
}

/// Inserting a name above everything before the position and below the name
/// at the position keeps the sequence strictly sorted.
pub proof fn lemma_sorted_insert(s: Seq<Seq<char>>, idx: int, nm: Seq<char>)
    requires
        sorted_names(s),
        0 <= idx <= s.len(),
        forall|j: int| 0 <= j < idx ==> name_lt(s[j], nm),
        idx < s.len() ==> name_lt(nm, s[idx]),
    ensures
        sorted_names(s.insert(idx, nm)),
{
    let t = s.insert(idx, nm);
    assert forall|i: int, j: int| 0 <= i < j < t.len() implies name_lt(t[i], t[j]) by {
        if j < idx {
            assert(t[i] == s[i] && t[j] == s[j]);
        } else if i < idx && j == idx {
            assert(t[i] == s[i]);
        } else if i < idx && j > idx {
            assert(t[i] == s[i] && t[j] == s[j - 1]);
        } else if i == idx {
            assert(t[j] == s[j - 1]);
            if j - 1 > idx {
                lemma_name_lt_transitive(nm, s[idx], s[j - 1]);
            }
        } else {
            assert(t[i] == s[i - 1] && t[j] == s[j - 1]);
        }
    }
}

/// What a sequence contains after an insertion.
pub proof fn lemma_contains_insert<A>(s: Seq<A>, idx: int, x: A, y: A)
    requires
        0 <= idx <= s.len(),
    ensures
        s.insert(idx, x).contains(y) <==> s.contains(y) || y == x,
{
    let t = s.insert(idx, x);
    if s.contains(y) {
        let k = choose|k: int| 0 <= k < s.len() && s[k] == y;
        if k < idx {
            assert(t[k] == y);
        } else {
            assert(t[k + 1] == y);
        }
    }
    assert(t[idx] == x);
    if t.contains(y) && y != x {
        let k = choose|k: int| 0 <= k < t.len() && t[k] == y;
        if k < idx {
            assert(s[k] == y);
        } else {
            assert(k != idx);
            assert(s[k - 1] == y);
        }
    }
}

/// What a sequence contains after appending an element.
pub proof fn lemma_contains_push<A>(s: Seq<A>, x: A, y: A)
    ensures
        s.push(x).contains(y) <==> s.contains(y) || y == x,
{
    let t = s.push(x);
    if s.contains(y) {
        let k = choose|k: int| 0 <= k < s.len() && s[k] == y;
        assert(t[k] == y);
    }
    assert(t[s.len() as int] == x);
    if t.contains(y) && y != x {
        let k = choose|k: int| 0 <= k < t.len() && t[k] == y;
        assert(k < s.len());
        assert(s[k] == y);
    }
}

/// What a sequence contains after a removal, when its entries are distinct.
pub proof fn lemma_contains_remove<A>(s: Seq<A>, idx: int, y: A)
    requires
        0 <= idx < s.len(),
        forall|i: int, j: int| 0 <= i < s.len() && 0 <= j < s.len() && i != j ==> s[i] != s[j],
    ensures
        s.remove(idx).contains(y) <==> s.contains(y) && y != s[idx],
{
    let t = s.remove(idx);
    if s.contains(y) && y != s[idx] {
        let k = choose|k: int| 0 <= k < s.len() && s[k] == y;
        if k < idx {
            assert(t[k] == y);
        } else {
            assert(t[k - 1] == y);
        }
    }
    if t.contains(y) {
        let k = choose|k: int| 0 <= k < t.len() && t[k] == y;
        if k < idx {
            assert(s[k] == y);
            assert(s[k] != s[idx]);
        } else {
            assert(s[k + 1] == y);
            assert(s[k + 1] != s[idx]);
        }
    }
}

/// Removing an entry keeps a strictly sorted sequence strictly sorted.
pub proof fn lemma_sorted_remove(s: Seq<Seq<char>>, idx: int)
    requires
        sorted_names(s),
        0 <= idx < s.len(),
    ensures
        sorted_names(s.remove(idx)),
{
    let t = s.remove(idx);
    assert forall|i: int, j: int| 0 <= i < j < t.len() implies name_lt(t[i], t[j]) by {
        if j < idx {
            assert(t[i] == s[i] && t[j] == s[j]);
        } else if i < idx {
            assert(t[i] == s[i] && t[j] == s[j + 1]);
        } else {
            assert(t[i] == s[i + 1] && t[j] == s[j + 1]);
        }
    }
}

/// Compare two byte slices in lexicographic order.
pub fn bytes_lt(a: &[u8], b: &[u8]) -> (r: bool)
    ensures
        r == lex_lt(a@, b@),
{
    let a_len = a.len();
    let b_len = b.len();
    proof {
        assert(a@.skip(0) =~= a@);
        assert(b@.skip(0) =~= b@);
    }
    let mut i: usize = 0;
    loop
        invariant
            i <= a_len,
            i <= b_len,
            a_len == a@.len(),
            b_len == b@.len(),
            lex_lt(a@, b@) == lex_lt(a@.skip(i as int), b@.skip(i as int)),
        decreases b_len - i,
    {
        if i >= b_len {
            return false;
        }
        if i >= a_len {
            return true;
        }
        let x = a[i];
        let y = b[i];
        if x < y {
            return true;
        }
        if y < x {
            return false;
        }
        proof {
            assert(a@.skip(i as int).drop_first() =~= a@.skip(i as int + 1));
            assert(b@.skip(i as int).drop_first() =~= b@.skip(i as int + 1));
        }
        i = i + 1;
    }
}

/// Compare two byte slices for equality.
pub fn bytes_eq(a: &[u8], b: &[u8]) -> (r: bool)
    ensures
        r == (a@ == b@),
{
    let a_len = a.len();
    let b_len = b.len();
    if a_len != b_len {
        return false;
    }
    let mut i: usize = 0;
    while i < a_len
        invariant
            i <= a_len,
            a_len == a@.len(),
            a_len == b@.len(),
            forall|j: int| 0 <= j < i ==> a@[j] == b@[j],
        decreases a_len - i,
    {
        if a[i] != b[i] {
            return false;
        }
        i = i + 1;
    }
    proof {
        assert(a@ =~= b@);
    }
    true
}

/// Whether `a` comes strictly before `b` in byte-lexicographic order.
pub fn str_lt(a: &str, b: &str) -> (r: bool)
    ensures
        r == name_lt(a@, b@),
{
    bytes_lt(a.as_bytes(), b.as_bytes())
}

/// Whether `a` and `b` are the same string.
pub fn str_eq(a: &str, b: &str) -> (r: bool)
    ensures
        r == (a@ == b@),
{
    let r = bytes_eq(a.as_bytes(), b.as_bytes());
    proof {
        if a.spec_bytes() == b.spec_bytes() {
            lemma_encode_injective(a@, b@);
        }
    }
    r
}

} // verus!
