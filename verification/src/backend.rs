//! Translation backends: the `Backend` capability trait, the in-memory
//! `SimpleBackend`, and the layered `CombinedBackend` in which the extension
//! leg shadows the base leg for reads while writes go to both legs.

use vstd::prelude::*;

use crate::text::{insert_sorted, lex_sorted, str_eq, views_of};

verus! {

/// The mathematical model of a translation store: a mapping from locale to a
/// mapping from key to text, all as character sequences.
pub type SpecTable = Map<Seq<char>, Map<Seq<char>, Seq<char>>>;

/// The view of an optional owned string.
pub open spec fn view_opt(o: Option<String>) -> Option<Seq<char>> {
    match o {
        Some(s) => Some(s@),
        None => None,
    }
}

/// Looking up a key for exactly one locale; no fallback of any kind.
pub open spec fn spec_translate(t: SpecTable, locale: Seq<char>, key: Seq<char>) -> Option<
    Seq<char>,
> {
    if t.contains_key(locale) && t[locale].contains_key(key) {
        Some(t[locale][key])
    } else {
        None
    }
}

/// The idempotent upsert: insert the locale's sub-table if absent, then set
/// `key` to `value`, overwriting any earlier value.
pub open spec fn spec_add(t: SpecTable, locale: Seq<char>, key: Seq<char>, value: Seq<char>) -> SpecTable {
    let inner = if t.contains_key(locale) {
        t[locale]
    } else {
        Map::<Seq<char>, Seq<char>>::empty()
    };
    t.insert(locale, inner.insert(key, value))
}

/// Upserting a list of pairs in order; a later pair for the same key wins.
pub open spec fn spec_add_all(t: SpecTable, locale: Seq<char>, data: Seq<(String, String)>) -> SpecTable
    decreases data.len(),
{
    if data.len() == 0 {
        t
    } else {
        spec_add(spec_add_all(t, locale, data.drop_last()), locale, data.last().0@, data.last().1@)
    }
}

/// Merging two key-to-text mappings; the extension `e` wins on shared keys.
pub open spec fn combine_inner(b: Map<Seq<char>, Seq<char>>, e: Map<Seq<char>, Seq<char>>) -> Map<
    Seq<char>,
    Seq<char>,
> {
    Map::new(
        |k: Seq<char>| b.contains_key(k) || e.contains_key(k),
        |k: Seq<char>|
            if e.contains_key(k) {
                e[k]
            } else {
                b[k]
            },
    )
}

/// Merging two tables locale by locale; the extension `e` wins on shared
/// (locale, key) pairs.
pub open spec fn spec_combine(b: SpecTable, e: SpecTable) -> SpecTable {
    Map::new(
        |l: Seq<char>| b.contains_key(l) || e.contains_key(l),
        |l: Seq<char>|
            combine_inner(
                if b.contains_key(l) {
                    b[l]
                } else {
                    Map::<Seq<char>, Seq<char>>::empty()
                },
                if e.contains_key(l) {
                    e[l]
                } else {
                    Map::<Seq<char>, Seq<char>>::empty()
                },
            ),
    )
}

/// What `available_locales` must return: the strictly sorted list of exactly
/// the locales of the table.
pub open spec fn locales_listed(r: Seq<String>, t: SpecTable) -> bool {
    &&& lex_sorted(views_of(r))
    &&& forall|l: Seq<char>| #[trigger] views_of(r).contains(l) <==> t.contains_key(l)
}

/// The capability contract of a translation backend.
pub trait Backend: Sized {
    /// The translation table this backend serves.
    spec fn table(&self) -> SpecTable;

    /// Internal well-formedness of the representation.
    spec fn inv(&self) -> bool;

    /// The lexicographically sorted, deduplicated list of locales.
    fn available_locales(&self) -> (r: Vec<String>)
        requires
            self.inv(),
        ensures
            locales_listed(r@, self.table()),
    ;

    /// The stored text for exactly this locale and key, if any.
    fn translate(&self, locale: &str, key: &str) -> (r: Option<String>)
        requires
            self.inv(),
        ensures
            view_opt(r) == spec_translate(self.table(), locale@, key@),
    ;

    /// Idempotent upsert of one translation.
    fn add(&mut self, locale: &str, key: &str, value: &str)
        requires
            old(self).inv(),
        ensures
            final(self).inv(),
            final(self).table() == spec_add(old(self).table(), locale@, key@, value@),
    ;
}

/// Builder for layered backends.
pub trait BackendExt: Backend {
    /// Compose `self` as the base with `other` as the extension, which takes
    /// precedence on reads.
    fn extend<T: Backend>(self, other: T) -> (r: CombinedBackend<Self, T>)
        ensures
            r.0 == self,
            r.1 == other,
    {
        CombinedBackend(self, other)
    }
}

// ---------------------------------------------------------------------------
// SimpleBackend: an association list of locales, each with an association
// list of key/value entries.
// ---------------------------------------------------------------------------

/// Simple in-memory key/value storage backend.
pub struct SimpleBackend {
    tables: Vec<(String, Vec<(String, String)>)>,
}

/// The mapping held by one locale's entry list.
spec fn entries_map(es: Seq<(String, String)>) -> Map<Seq<char>, Seq<char>>
    decreases es.len(),
{
    if es.len() == 0 {
        Map::empty()
    } else {
        entries_map(es.drop_last()).insert(es.last().0@, es.last().1@)
    }
}

/// The table held by the whole list of locales.
spec fn tables_map(ts: Seq<(String, Vec<(String, String)>)>) -> SpecTable
    decreases ts.len(),
{
    if ts.len() == 0 {
        Map::empty()
    } else {
        tables_map(ts.drop_last()).insert(ts.last().0@, entries_map(ts.last().1@))
    }
}

spec fn has_entry_key(es: Seq<(String, String)>, k: Seq<char>) -> bool {
    exists|i: int| 0 <= i < es.len() && es[i].0@ == k
}

spec fn has_locale(ts: Seq<(String, Vec<(String, String)>)>, l: Seq<char>) -> bool {
    exists|i: int| 0 <= i < ts.len() && ts[i].0@ == l
}

spec fn entry_keys_distinct(es: Seq<(String, String)>) -> bool {
    forall|i: int, j: int| 0 <= i < j < es.len() ==> es[i].0@ != es[j].0@
}

spec fn locales_distinct(ts: Seq<(String, Vec<(String, String)>)>) -> bool {
    forall|i: int, j: int| 0 <= i < j < ts.len() ==> ts[i].0@ != ts[j].0@
}

proof fn lemma_entries_map_contains(es: Seq<(String, String)>, k: Seq<char>)
    ensures
        entries_map(es).contains_key(k) <==> has_entry_key(es, k),
    decreases es.len(),
{
    if es.len() > 0 {
        lemma_entries_map_contains(es.drop_last(), k);
        if has_entry_key(es.drop_last(), k) {
            let i = choose|i: int| 0 <= i < es.drop_last().len() && es.drop_last()[i].0@ == k;
            assert(es[i].0@ == k);
        }
        if has_entry_key(es, k) && es.last().0@ != k {
            let i = choose|i: int| 0 <= i < es.len() && es[i].0@ == k;
            assert(es.drop_last()[i] == es[i]);
        }
    }
}

proof fn lemma_entries_map_index(es: Seq<(String, String)>, i: int)
    requires
        entry_keys_distinct(es),
        0 <= i < es.len(),
    ensures
        entries_map(es).contains_key(es[i].0@),
        entries_map(es)[es[i].0@] == es[i].1@,
    decreases es.len(),
{
    if i < es.len() - 1 {
        assert forall|p: int, q: int|
            0 <= p < q < es.drop_last().len() implies es.drop_last()[p].0@
            != es.drop_last()[q].0@ by {
            assert(es.drop_last()[p] == es[p]);
            assert(es.drop_last()[q] == es[q]);
        }
        assert(es.drop_last()[i] == es[i]);
        lemma_entries_map_index(es.drop_last(), i);
        assert(es.last().0@ != es[i].0@);
    }
}

proof fn lemma_entries_map_update(es: Seq<(String, String)>, i: int, e: (String, String))
    requires
        entry_keys_distinct(es),
        0 <= i < es.len(),
        e.0@ == es[i].0@,
    ensures
        entries_map(es.update(i, e)) == entries_map(es).insert(e.0@, e.1@),
    decreases es.len(),
{
    let u = es.update(i, e);
    if i == es.len() - 1 {
        assert(u.drop_last() =~= es.drop_last());
        assert(u.last() == e);
        assert(entries_map(u) =~= entries_map(es).insert(e.0@, e.1@));
    } else {
        assert forall|p: int, q: int|
            0 <= p < q < es.drop_last().len() implies es.drop_last()[p].0@
            != es.drop_last()[q].0@ by {
            assert(es.drop_last()[p] == es[p]);
            assert(es.drop_last()[q] == es[q]);
        }
        assert(es.drop_last()[i] == es[i]);
        lemma_entries_map_update(es.drop_last(), i, e);
        assert(u.drop_last() =~= es.drop_last().update(i, e));
        assert(u.last() == es.last());
        assert(es.last().0@ != e.0@);
        assert(entries_map(u) =~= entries_map(es).insert(e.0@, e.1@));
    }
}

proof fn lemma_entries_map_push(es: Seq<(String, String)>, e: (String, String))
    ensures
        entries_map(es.push(e)) == entries_map(es).insert(e.0@, e.1@),
{
    assert(es.push(e).drop_last() =~= es);
    assert(es.push(e).last() == e);
}

proof fn lemma_tables_map_contains(ts: Seq<(String, Vec<(String, String)>)>, l: Seq<char>)
    ensures
        tables_map(ts).contains_key(l) <==> has_locale(ts, l),
    decreases ts.len(),
{
    if ts.len() > 0 {
        lemma_tables_map_contains(ts.drop_last(), l);
        if has_locale(ts.drop_last(), l) {
            let i = choose|i: int| 0 <= i < ts.drop_last().len() && ts.drop_last()[i].0@ == l;
            assert(ts[i].0@ == l);
        }
        if has_locale(ts, l) && ts.last().0@ != l {
            let i = choose|i: int| 0 <= i < ts.len() && ts[i].0@ == l;
            assert(ts.drop_last()[i] == ts[i]);
        }
    }
}

proof fn lemma_tables_map_index(ts: Seq<(String, Vec<(String, String)>)>, i: int)
    requires
        locales_distinct(ts),
        0 <= i < ts.len(),
    ensures
        tables_map(ts).contains_key(ts[i].0@),
        tables_map(ts)[ts[i].0@] == entries_map(ts[i].1@),
    decreases ts.len(),
{
    if i < ts.len() - 1 {
        assert forall|p: int, q: int|
            0 <= p < q < ts.drop_last().len() implies ts.drop_last()[p].0@
            != ts.drop_last()[q].0@ by {
            assert(ts.drop_last()[p] == ts[p]);
            assert(ts.drop_last()[q] == ts[q]);
        }
        assert(ts.drop_last()[i] == ts[i]);
        lemma_tables_map_index(ts.drop_last(), i);
        assert(ts.last().0@ != ts[i].0@);
    }
}

proof fn lemma_tables_map_update(
    ts: Seq<(String, Vec<(String, String)>)>,
    i: int,
    t: (String, Vec<(String, String)>),
)
    requires
        locales_distinct(ts),
        0 <= i < ts.len(),
        t.0@ == ts[i].0@,
    ensures
        tables_map(ts.update(i, t)) == tables_map(ts).insert(t.0@, entries_map(t.1@)),
    decreases ts.len(),
{
    let u = ts.update(i, t);
    if i == ts.len() - 1 {
        assert(u.drop_last() =~= ts.drop_last());
        assert(u.last() == t);
        assert(tables_map(u) =~= tables_map(ts).insert(t.0@, entries_map(t.1@)));
    } else {
        assert forall|p: int, q: int|
            0 <= p < q < ts.drop_last().len() implies ts.drop_last()[p].0@
            != ts.drop_last()[q].0@ by {
            assert(ts.drop_last()[p] == ts[p]);
            assert(ts.drop_last()[q] == ts[q]);
        }
        assert(ts.drop_last()[i] == ts[i]);
        lemma_tables_map_update(ts.drop_last(), i, t);
        assert(u.drop_last() =~= ts.drop_last().update(i, t));
        assert(u.last() == ts.last());
        assert(ts.last().0@ != t.0@);
        assert(tables_map(u) =~= tables_map(ts).insert(t.0@, entries_map(t.1@)));
    }
}

proof fn lemma_tables_map_push(
    ts: Seq<(String, Vec<(String, String)>)>,
    t: (String, Vec<(String, String)>),
)
    ensures
        tables_map(ts.push(t)) == tables_map(ts).insert(t.0@, entries_map(t.1@)),
{
    assert(ts.push(t).drop_last() =~= ts);
    assert(ts.push(t).last() == t);
}

/// Linear search of one locale's entry list.
fn entries_get(es: &Vec<(String, String)>, key: &str) -> (r: Option<String>)
    requires
        entry_keys_distinct(es@),
    ensures
        view_opt(r) == (if entries_map(es@).contains_key(key@) {
            Some(entries_map(es@)[key@])
        } else {
            None::<Seq<char>>
        }),
{
    let n = es.len();
    let mut i: usize = 0;
    while i < n
        invariant
            n == es@.len(),
            i <= n,
            entry_keys_distinct(es@),
            forall|j: int| 0 <= j < i ==> es@[j].0@ != key@,
        decreases n - i,
    {
        if str_eq(es[i].0.as_str(), key) {
            proof {
                lemma_entries_map_index(es@, i as int);
            }
            return Some(es[i].1.clone());
        }
        i += 1;
    }
    proof {
        lemma_entries_map_contains(es@, key@);
    }
    None
}

/// Upsert into one locale's entry list.
fn entries_set(es: &mut Vec<(String, String)>, key: &str, value: &str)
    requires
        entry_keys_distinct(old(es)@),
    ensures
        entry_keys_distinct(final(es)@),
        entries_map(final(es)@) == entries_map(old(es)@).insert(key@, value@),
{
    let ghost orig = es@;
    let n = es.len();
    let mut i: usize = 0;
    while i < n
        invariant
            es@ == orig,
            orig == old(es)@,
            n == es@.len(),
            i <= n,
            entry_keys_distinct(es@),
            forall|j: int| 0 <= j < i ==> es@[j].0@ != key@,
        decreases n - i,
    {
        if str_eq(es[i].0.as_str(), key) {
            let pair = (key.to_owned(), value.to_owned());
            es[i] = pair;
            proof {
                assert(es@ == orig.update(i as int, pair));
                lemma_entries_map_update(orig, i as int, pair);
                assert forall|p: int, q: int|
                    0 <= p < q < es@.len() implies es@[p].0@ != es@[q].0@ by {}
            }
            return;
        }
        i += 1;
    }
    let pair = (key.to_owned(), value.to_owned());
    es.push(pair);
    proof {
        lemma_entries_map_push(orig, pair);
        assert forall|p: int, q: int| 0 <= p < q < es@.len() implies es@[p].0@ != es@[q].0@ by {
            if q == es@.len() - 1 {
                assert(es@[p].0@ != key@);
            }
        }
    }
}

impl SimpleBackend {
    /// Create an empty backend.
    pub fn new() -> (r: Self)
        ensures
            r.inv(),
            r.table() == Map::<Seq<char>, Map<Seq<char>, Seq<char>>>::empty(),
    {
        SimpleBackend { tables: Vec::new() }
    }

    /// Add all the given key/value pairs for one locale, in order; a later
    /// pair for the same key overwrites an earlier one.
    pub fn add_translations(&mut self, locale: &str, data: &Vec<(String, String)>)
        requires
            old(self).inv(),
        ensures
            final(self).inv(),
            final(self).table() == spec_add_all(old(self).table(), locale@, data@),
    {
        let n = data.len();
        let mut i: usize = 0;
        while i < n
            invariant
                n == data@.len(),
                i <= n,
                self.inv(),
                self.table() == spec_add_all(old(self).table(), locale@, data@.take(i as int)),
            decreases n - i,
        {
            self.add(locale, data[i].0.as_str(), data[i].1.as_str());
            proof {
                assert(data@.take(i + 1).drop_last() =~= data@.take(i as int));
                assert(data@.take(i + 1).last() == data@[i as int]);
            }
            i += 1;
        }
        proof {
            assert(data@.take(n as int) =~= data@);
        }
    }
}

impl Backend for SimpleBackend {
    closed spec fn table(&self) -> SpecTable {
        tables_map(self.tables@)
    }

    closed spec fn inv(&self) -> bool {
        &&& locales_distinct(self.tables@)
        &&& forall|i: int|
            0 <= i < self.tables@.len() ==> entry_keys_distinct(#[trigger] self.tables@[i].1@)
    }

    fn available_locales(&self) -> (r: Vec<String>) {
        let mut out: Vec<String> = Vec::new();
        let n = self.tables.len();
        let mut i: usize = 0;
        while i < n
            invariant
                n == self.tables@.len(),
                i <= n,
                lex_sorted(views_of(out@)),
                forall|l: Seq<char>| #[trigger]
                    views_of(out@).contains(l) <==> has_locale(self.tables@.take(i as int), l),
            decreases n - i,
        {
            insert_sorted(&mut out, self.tables[i].0.as_str());
            proof {
                let ts = self.tables@;
                assert forall|l: Seq<char>| #[trigger]
                    views_of(out@).contains(l) <==> has_locale(ts.take(i + 1), l) by {
                    if views_of(out@).contains(l) {
                        if has_locale(ts.take(i as int), l) {
                            let j = choose|j: int|
                                0 <= j < ts.take(i as int).len() && ts.take(i as int)[j].0@ == l;
                            assert(ts.take(i + 1)[j] == ts[j]);
                        } else {
                            assert(l == ts[i as int].0@);
                            assert(ts.take(i + 1)[i as int] == ts[i as int]);
                        }
                    }
                    if has_locale(ts.take(i + 1), l) {
                        let j = choose|j: int|
                            0 <= j < ts.take(i + 1).len() && (#[trigger] ts.take(i + 1)[j]).0@
                                == l;
                        if j < i {
                            assert(ts.take(i as int)[j] == ts[j]);
                            assert(has_locale(ts.take(i as int), l));
                        } else {
                            assert(l == ts[i as int].0@);
                        }
                    }
                }
            }
            i += 1;
        }
        proof {
            assert(self.tables@.take(n as int) =~= self.tables@);
            assert forall|l: Seq<char>| #[trigger]
                views_of(out@).contains(l) <==> self.table().contains_key(l) by {
                lemma_tables_map_contains(self.tables@, l);
            }
        }
        out
    }

    fn translate(&self, locale: &str, key: &str) -> (r: Option<String>) {
        let n = self.tables.len();
        let mut i: usize = 0;
        while i < n
            invariant
                n == self.tables@.len(),
                i <= n,
                self.inv(),
                forall|j: int| 0 <= j < i ==> self.tables@[j].0@ != locale@,
            decreases n - i,
        {
            if str_eq(self.tables[i].0.as_str(), locale) {
                proof {
                    lemma_tables_map_index(self.tables@, i as int);
                }
                let r = entries_get(&self.tables[i].1, key);
                proof {
                    lemma_entries_map_contains(self.tables@[i as int].1@, key@);
                }
                return r;
            }
            i += 1;
        }
        proof {
            lemma_tables_map_contains(self.tables@, locale@);
        }
        None
    }

    fn add(&mut self, locale: &str, key: &str, value: &str) {
        let ghost orig = self.tables@;
        let n = self.tables.len();
        let mut i: usize = 0;
        while i < n
            invariant
                self.tables@ == orig,
                orig == old(self).tables@,
                old(self).inv(),
                n == self.tables@.len(),
                i <= n,
                forall|j: int| 0 <= j < i ==> self.tables@[j].0@ != locale@,
            decreases n - i,
        {
            if str_eq(self.tables[i].0.as_str(), locale) {
                proof {
                    lemma_tables_map_index(orig, i as int);
                }
                let entry = &mut self.tables[i];
                entries_set(&mut entry.1, key, value);
                proof {
                    let t = self.tables@[i as int];
                    assert(self.tables@ == orig.update(i as int, t));
                    assert(t.0@ == orig[i as int].0@);
                    lemma_tables_map_update(orig, i as int, t);
                    assert forall|p: int, q: int|
                        0 <= p < q < self.tables@.len() implies self.tables@[p].0@
                        != self.tables@[q].0@ by {}
                    assert forall|p: int|
                        0 <= p < self.tables@.len() implies entry_keys_distinct(
                        #[trigger] self.tables@[p].1@,
                    ) by {}
                    assert(final(self).table() == spec_add(
                        tables_map(orig),
                        locale@,
                        key@,
                        value@,
                    ));
                }
                return;
            }
            i += 1;
        }
        proof {
            lemma_tables_map_contains(orig, locale@);
        }
        let mut es: Vec<(String, String)> = Vec::new();
        es.push((key.to_owned(), value.to_owned()));
        let t = (locale.to_owned(), es);
        self.tables.push(t);
        proof {
            lemma_tables_map_push(orig, t);
            assert(t.1@.drop_last() =~= Seq::<(String, String)>::empty());
            assert(entries_map(Seq::<(String, String)>::empty()) == Map::<
                Seq<char>,
                Seq<char>,
            >::empty());
            assert(entries_map(t.1@) =~= Map::<Seq<char>, Seq<char>>::empty().insert(key@, value@));
            assert forall|p: int, q: int|
                0 <= p < q < self.tables@.len() implies self.tables@[p].0@
                != self.tables@[q].0@ by {
                if q == self.tables@.len() - 1 {
                    assert(self.tables@[p].0@ != locale@);
                }
            }
            assert forall|p: int|
                0 <= p < self.tables@.len() implies entry_keys_distinct(
                #[trigger] self.tables@[p].1@,
            ) by {}
            assert(final(self).table() == spec_add(tables_map(orig), locale@, key@, value@));
        }
    }
}

impl BackendExt for SimpleBackend {

}

// ---------------------------------------------------------------------------
// CombinedBackend
// ---------------------------------------------------------------------------

/// Two backends layered for reading, with the second (extension) leg taking
/// precedence over the first (base) leg.
pub struct CombinedBackend<A: Backend, B: Backend>(pub A, pub B);

impl<A: Backend, B: Backend> Backend for CombinedBackend<A, B> {
    open spec fn table(&self) -> SpecTable {
        spec_combine(self.0.table(), self.1.table())
    }

    open spec fn inv(&self) -> bool {
        self.0.inv() && self.1.inv()
    }

    fn available_locales(&self) -> (r: Vec<String>) {
        let mut out = self.0.available_locales();
        let more = self.1.available_locales();
        let n = more.len();
        let mut i: usize = 0;
        while i < n
            invariant
                n == more@.len(),
                i <= n,
                locales_listed(more@, self.1.table()),
                lex_sorted(views_of(out@)),
                forall|l: Seq<char>| #[trigger]
                    views_of(out@).contains(l) <==> (self.0.table().contains_key(l) || (
                    exists|j: int| 0 <= j < i && views_of(more@)[j] == l)),
            decreases n - i,
        {
            insert_sorted(&mut out, more[i].as_str());
            proof {
                assert forall|l: Seq<char>| #[trigger]
                    views_of(out@).contains(l) <==> (self.0.table().contains_key(l) || (
                    exists|j: int| 0 <= j < i + 1 && views_of(more@)[j] == l)) by {
                    if views_of(out@).contains(l) && l == more@[i as int]@ {
                        assert(views_of(more@)[i as int] == l);
                    }
                }
            }
            i += 1;
        }
        proof {
            assert forall|l: Seq<char>| #[trigger]
                views_of(out@).contains(l) <==> self.table().contains_key(l) by {
                if self.1.table().contains_key(l) {
                    assert(views_of(more@).contains(l));
                    let j = choose|j: int|
                        0 <= j < views_of(more@).len() && views_of(more@)[j] == l;
                    assert(exists|k: int| 0 <= k < n && views_of(more@)[k] == l);
                }
                if exists|j: int| 0 <= j < n && views_of(more@)[j] == l {
                    let j = choose|j: int| 0 <= j < n && views_of(more@)[j] == l;
                    assert(views_of(more@).contains(l));
                }
            }
        }
        out
    }

    fn translate(&self, locale: &str, key: &str) -> (r: Option<String>) {
        let first = self.1.translate(locale, key);
        proof {
            lemma_combined_translate(self.0.table(), self.1.table(), locale@, key@);
        }
        match first {
            Some(v) => Some(v),
            None => self.0.translate(locale, key),
        }
    }

    fn add(&mut self, locale: &str, key: &str, value: &str)
        ensures
            final(self).0.table() == spec_add(old(self).0.table(), locale@, key@, value@),
            final(self).1.table() == spec_add(old(self).1.table(), locale@, key@, value@),
    {
        self.0.add(locale, key, value);
        self.1.add(locale, key, value);
        proof {
            lemma_combine_add(old(self).0.table(), old(self).1.table(), locale@, key@, value@);
        }
    }
}

// ---------------------------------------------------------------------------
// Laws of the composition model
// ---------------------------------------------------------------------------

/// Law: a translation just added is exactly the one translated back.
pub proof fn lemma_add_then_translate(
    t: SpecTable,
    locale: Seq<char>,
    key: Seq<char>,
    value: Seq<char>,
)
    ensures
        spec_translate(spec_add(t, locale, key, value), locale, key) == Some(value),
{
}

/// Law: upserting twice for the same locale and key leaves only the later
/// value; the earlier one is gone without trace.
pub proof fn lemma_add_overwrites(
    t: SpecTable,
    locale: Seq<char>,
    key: Seq<char>,
    v1: Seq<char>,
    v2: Seq<char>,
)
    ensures
        spec_add(spec_add(t, locale, key, v1), locale, key, v2) == spec_add(t, locale, key, v2),
{
    assert(spec_add(spec_add(t, locale, key, v1), locale, key, v2) =~~= spec_add(
        t,
        locale,
        key,
        v2,
    ));
}

/// Law: a combination translates from the extension leg first and falls back
/// to the base leg, so the extension shadows the base.
pub proof fn lemma_combined_translate(b: SpecTable, e: SpecTable, locale: Seq<char>, key: Seq<char>)
    ensures
        spec_translate(spec_combine(b, e), locale, key) == (if spec_translate(
            e,
            locale,
            key,
        ) is Some {
            spec_translate(e, locale, key)
        } else {
            spec_translate(b, locale, key)
        }),
{
}

/// Law: the locales of a combination are exactly the union of both legs'
/// locales.
pub proof fn lemma_combined_locales(b: SpecTable, e: SpecTable)
    ensures
        forall|l: Seq<char>| #[trigger]
            spec_combine(b, e).contains_key(l) <==> (b.contains_key(l) || e.contains_key(l)),
{
}

/// Law: adding to both legs of a combination is the same as adding to the
/// combination, so writes pass through composition.
pub proof fn lemma_combine_add(
    b: SpecTable,
    e: SpecTable,
    locale: Seq<char>,
    key: Seq<char>,
    value: Seq<char>,
)
    ensures
        spec_combine(spec_add(b, locale, key, value), spec_add(e, locale, key, value))
            == spec_add(spec_combine(b, e), locale, key, value),
{
    let lhs = spec_combine(spec_add(b, locale, key, value), spec_add(e, locale, key, value));
    let rhs = spec_add(spec_combine(b, e), locale, key, value);
    assert forall|l: Seq<char>| lhs.contains_key(l) implies rhs.contains_key(l) by {}
    assert forall|l: Seq<char>| rhs.contains_key(l) implies lhs.contains_key(l) by {}
    assert forall|l: Seq<char>| #[trigger] lhs.contains_key(l) && rhs.contains_key(l) implies lhs[l]
        =~= rhs[l] by {}
    assert(lhs =~~= rhs);
}

} // verus!
