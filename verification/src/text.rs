//! Verified character-level string utilities: equality, lexicographic
//! ordering, and insertion into a sorted, duplicate-free list of strings.

use vstd::prelude::*;

verus! {

/// The views (character sequences) of a sequence of strings.
pub open spec fn views_of(v: Seq<String>) -> Seq<Seq<char>> {
    v.map_values(|s: String| s@)
}

/// Lexicographic order on character sequences, comparing Unicode scalar
/// values position by position; a proper prefix precedes its extensions.
pub open spec fn lex_le(a: Seq<char>, b: Seq<char>) -> bool
    decreases a.len(),
{
    if a.len() == 0 {
        true
    } else if b.len() == 0 {
        false
    } else if (a[0] as u32) < (b[0] as u32) {
        true
    } else if (b[0] as u32) < (a[0] as u32) {
        false
    } else {
        lex_le(a.skip(1), b.skip(1))
    }
}

/// Strict lexicographic order.
pub open spec fn lex_lt(a: Seq<char>, b: Seq<char>) -> bool {
    lex_le(a, b) && a != b
}

/// A sequence of character sequences is strictly increasing, hence free of
/// duplicates.
pub open spec fn lex_sorted(s: Seq<Seq<char>>) -> bool {
    forall|i: int, j: int| 0 <= i < j < s.len() ==> lex_lt(s[i], s[j])
}

/// The lexicographic order is total.
pub proof fn lemma_lex_total(a: Seq<char>, b: Seq<char>)
    ensures
        lex_le(a, b) || lex_le(b, a),
    decreases a.len(),
{
    if a.len() != 0 && b.len() != 0 && (a[0] as u32) == (b[0] as u32) {
        lemma_lex_total(a.skip(1), b.skip(1));
    }
}

/// The lexicographic order is antisymmetric.
pub proof fn lemma_lex_antisym(a: Seq<char>, b: Seq<char>)
    requires
        lex_le(a, b),
        lex_le(b, a),
    ensures
        a == b,
    decreases a.len(),
{
    if a.len() == 0 {
        assert(b.len() == 0);
        assert(a =~= b);
    } else {
        assert(b.len() != 0);
        vstd::utf8::char_u32_cast(a[0], a[0] as u32);
        vstd::utf8::char_u32_cast(b[0], b[0] as u32);
        assert(a[0] == b[0]);
        lemma_lex_antisym(a.skip(1), b.skip(1));
        assert forall|i: int| 0 <= i < a.len() implies a[i] == b[i] by {
            if i > 0 {
                assert(a[i] == a.skip(1)[i - 1]);
                assert(b[i] == b.skip(1)[i - 1]);
            }
        }
        assert(a =~= b);
    }
}

/// The lexicographic order is transitive.
pub proof fn lemma_lex_trans(a: Seq<char>, b: Seq<char>, c: Seq<char>)
    requires
        lex_le(a, b),
        lex_le(b, c),
    ensures
        lex_le(a, c),
    decreases a.len(),
{
    if a.len() != 0 {
        assert(b.len() != 0);
        assert(c.len() != 0);
        if !((a[0] as u32) < (c[0] as u32)) {
            assert(!((a[0] as u32) < (b[0] as u32)) || !((b[0] as u32) < (c[0] as u32)));
            if (a[0] as u32) == (b[0] as u32) && (b[0] as u32) == (c[0] as u32) {
                lemma_lex_trans(a.skip(1), b.skip(1), c.skip(1));
            }
        }
    }
}

/// The strict lexicographic order is transitive.
pub proof fn lemma_lex_lt_trans(a: Seq<char>, b: Seq<char>, c: Seq<char>)
    requires
        lex_lt(a, b),
        lex_lt(b, c),
    ensures
        lex_lt(a, c),
{
    lemma_lex_trans(a, b, c);
    if a == c {
        lemma_lex_antisym(a, b);
    }
}

/// Character-by-character equality test on string slices.
pub fn str_eq(a: &str, b: &str) -> (r: bool)
    ensures
        r == (a@ == b@),
{
    let n = a.unicode_len();
    let m = b.unicode_len();
    if n != m {
        return false;
    }
    let mut i: usize = 0;
    while i < n
        invariant
            n == a@.len(),
            n == b@.len(),
            i <= n,
            forall|j: int| 0 <= j < i ==> a@[j] == b@[j],
        decreases n - i,
    {
        if a.get_char(i) != b.get_char(i) {
            return false;
        }
        i += 1;
    }
    proof {
        assert(a@ =~= b@);
    }
    true
}

/// Strict lexicographic comparison of string slices.
pub fn str_lt(a: &str, b: &str) -> (r: bool)
    ensures
        r == lex_lt(a@, b@),
{
    let n = a.unicode_len();
    let m = b.unicode_len();
    let mut i: usize = 0;
    loop
        invariant
            n == a@.len(),
            m == b@.len(),
            i <= n,
            i <= m,
            forall|j: int| 0 <= j < i ==> a@[j] == b@[j],
        decreases n - i,
    {
        proof {
            lemma_lex_prefix(a@, b@, i as int);
        }
        if i == n {
            proof {
                if i < m {
                    assert(a@ != b@);
                } else {
                    assert(a@ =~= b@);
                }
            }
            return i < m;
        }
        if i == m {
            proof {
                assert(!lex_le(a@.skip(i as int), b@.skip(i as int)));
            }
            return false;
        }
        let ca = a.get_char(i);
        let cb = b.get_char(i);
        if (ca as u32) < (cb as u32) {
            proof {
                assert(lex_le(a@.skip(i as int), b@.skip(i as int)));
                assert(a@[i as int] != b@[i as int]);
            }
            return true;
        }
        if (cb as u32) < (ca as u32) {
            proof {
                assert(!lex_le(a@.skip(i as int), b@.skip(i as int)));
            }
            return false;
        }
        proof {
            vstd::utf8::char_u32_cast(ca, ca as u32);
            vstd::utf8::char_u32_cast(cb, cb as u32);
            assert(ca == cb);
        }
        i += 1;
    }
}

/// With equal prefixes of length `i`, the order is decided by the tails.
proof fn lemma_lex_prefix(a: Seq<char>, b: Seq<char>, i: int)
    requires
        0 <= i <= a.len(),
        i <= b.len(),
        forall|j: int| 0 <= j < i ==> a[j] == b[j],
    ensures
        lex_le(a, b) == lex_le(a.skip(i), b.skip(i)),
    decreases i,
{
    if i > 0 {
        assert(a[0] == b[0]);
        assert forall|j: int| 0 <= j < i - 1 implies a.skip(1)[j] == b.skip(1)[j] by {
            assert(a.skip(1)[j] == a[j + 1]);
            assert(b.skip(1)[j] == b[j + 1]);
        }
        lemma_lex_prefix(a.skip(1), b.skip(1), i - 1);
        assert(a.skip(1).skip(i - 1) =~= a.skip(i));
        assert(b.skip(1).skip(i - 1) =~= b.skip(i));
        assert(lex_le(a, b) == lex_le(a.skip(1), b.skip(1)));
    } else {
        assert(a.skip(0) =~= a);
        assert(b.skip(0) =~= b);
    }
}

/// Law: a strictly sorted list is determined by its contents alone, so any
/// operation specified to return a strictly sorted list with fixed contents
/// returns one definite list.
pub proof fn lemma_lex_sorted_unique(a: Seq<Seq<char>>, b: Seq<Seq<char>>)
    requires
        lex_sorted(a),
        lex_sorted(b),
        forall|x: Seq<char>| a.contains(x) <==> b.contains(x),
    ensures
        a == b,
    decreases a.len(),
{
    if a.len() == 0 {
        if b.len() > 0 {
            assert(b.contains(b[0]));
            assert(a.contains(b[0]));
        }
        assert(a =~= b);
    } else {
        assert(a.contains(a[0]));
        assert(b.contains(a[0]));
        let j = choose|j: int| 0 <= j < b.len() && b[j] == a[0];
        assert(b.contains(b[0]));
        assert(a.contains(b[0]));
        let k = choose|k: int| 0 <= k < a.len() && a[k] == b[0];
        if j > 0 {
            // b[0] comes strictly before a[0], yet b[0] stands in a, where
            // a[0] is least: a contradiction.
            assert(lex_lt(b[0], b[j]));
            if k > 0 {
                assert(lex_lt(a[0], a[k]));
                lemma_lex_lt_trans(a[0], a[k], a[0]);
            }
        }
        assert(b[0] == a[0]);
        let ta = a.skip(1);
        let tb = b.skip(1);
        assert forall|x: Seq<char>| ta.contains(x) implies tb.contains(x) by {
            let i = choose|i: int| 0 <= i < ta.len() && ta[i] == x;
            assert(a[i + 1] == x);
            assert(a.contains(x));
            let m = choose|m: int| 0 <= m < b.len() && b[m] == x;
            assert(lex_lt(a[0], a[i + 1]));
            if m == 0 {
                assert(x == a[0]);
            }
            assert(tb[m - 1] == x);
        }
        assert forall|x: Seq<char>| tb.contains(x) implies ta.contains(x) by {
            let i = choose|i: int| 0 <= i < tb.len() && tb[i] == x;
            assert(b[i + 1] == x);
            assert(b.contains(x));
            let m = choose|m: int| 0 <= m < a.len() && a[m] == x;
            assert(lex_lt(b[0], b[i + 1]));
            if m == 0 {
                assert(x == b[0]);
            }
            assert(ta[m - 1] == x);
        }
        assert forall|p: int, q: int| 0 <= p < q < ta.len() implies lex_lt(ta[p], ta[q]) by {
            assert(ta[p] == a[p + 1]);
            assert(ta[q] == a[q + 1]);
        }
        assert forall|p: int, q: int| 0 <= p < q < tb.len() implies lex_lt(tb[p], tb[q]) by {
            assert(tb[p] == b[p + 1]);
            assert(tb[q] == b[q + 1]);
        }
        lemma_lex_sorted_unique(ta, tb);
        assert forall|i: int| 0 <= i < a.len() implies a[i] == b[i] by {
            if i > 0 {
                assert(a[i] == ta[i - 1]);
                assert(b[i] == tb[i - 1]);
            }
        }
        assert(a =~= b);
    }
}

/// Inserting at a position bounded below by the smaller elements and above
/// by the larger ones keeps the list strictly sorted and adds exactly one
/// character sequence to its contents.
proof fn lemma_insert_keeps_sorted(orig: Seq<String>, new: Seq<String>, owned: String, i: int)
    requires
        0 <= i <= orig.len(),
        new == orig.insert(i, owned),
        lex_sorted(views_of(orig)),
        forall|j: int| 0 <= j < i ==> lex_lt(views_of(orig)[j], owned@),
        forall|j: int| i <= j < orig.len() ==> lex_lt(owned@, views_of(orig)[j]),
    ensures
        lex_sorted(views_of(new)),
        forall|x: Seq<char>|
            views_of(new).contains(x) <==> (views_of(orig).contains(x) || x == owned@),
{
    let nv = views_of(new);
    let ov = views_of(orig);
    assert(nv.len() == ov.len() + 1);
    assert forall|j: int| 0 <= j < nv.len() implies nv[j] == (if j < i {
        ov[j]
    } else if j == i {
        owned@
    } else {
        ov[j - 1]
    }) by {
        assert(new[j] == orig.insert(i, owned)[j]);
    }
    assert forall|p: int, q: int| 0 <= p < q < nv.len() implies lex_lt(nv[p], nv[q]) by {
        if q < i {
        } else if p > i {
        } else if p == i {
            assert(lex_lt(owned@, ov[q - 1]));
        } else if q == i {
            assert(lex_lt(ov[p], owned@));
        } else {
            // p < i < q
            lemma_lex_lt_trans(ov[p], owned@, ov[q - 1]);
        }
    }
    assert forall|x: Seq<char>| nv.contains(x) implies (ov.contains(x) || x == owned@) by {
        let j = choose|j: int| 0 <= j < nv.len() && nv[j] == x;
        if j < i {
            assert(ov[j] == x);
        } else if j > i {
            assert(ov[j - 1] == x);
        }
    }
    assert forall|x: Seq<char>| ov.contains(x) implies nv.contains(x) by {
        let j = choose|j: int| 0 <= j < ov.len() && ov[j] == x;
        if j < i {
            assert(nv[j] == x);
        } else {
            assert(nv[j + 1] == x);
        }
    }
    assert(nv[i] == owned@);
    assert(nv.contains(owned@));
}

/// Insert a string into a strictly sorted list, keeping it sorted; a string
/// already present is left alone, so the list stays duplicate-free.
pub fn insert_sorted(out: &mut Vec<String>, s: &str)
    requires
        lex_sorted(views_of(old(out)@)),
    ensures
        lex_sorted(views_of(final(out)@)),
        forall|x: Seq<char>|
            views_of(final(out)@).contains(x) <==> (views_of(old(out)@).contains(x) || x == s@),
{
    let ghost orig = out@;
    let mut i: usize = 0;
    loop
        invariant
            out@ == orig,
            orig == old(out)@,
            lex_sorted(views_of(out@)),
            i <= out@.len(),
            forall|j: int| 0 <= j < i ==> lex_lt(views_of(out@)[j], s@),
        decreases out@.len() - i,
    {
        if i == out.len() {
            let owned = s.to_owned();
            out.insert(i, owned);
            proof {
                lemma_insert_keeps_sorted(orig, out@, owned, i as int);
            }
            return;
        }
        if str_eq(out[i].as_str(), s) {
            proof {
                assert(views_of(out@)[i as int] == s@);
                assert(views_of(out@).contains(s@));
            }
            return;
        }
        if str_lt(s, out[i].as_str()) {
            proof {
                assert forall|j: int| i <= j < out@.len() implies lex_lt(s@, views_of(out@)[j]) by {
                    if j > i {
                        lemma_lex_lt_trans(s@, views_of(out@)[i as int], views_of(out@)[j]);
                    }
                }
            }
            let owned = s.to_owned();
            out.insert(i, owned);
            proof {
                lemma_insert_keeps_sorted(orig, out@, owned, i as int);
            }
            return;
        }
        proof {
            lemma_lex_total(views_of(out@)[i as int], s@);
        }
        i += 1;
    }
}

} // verus!
