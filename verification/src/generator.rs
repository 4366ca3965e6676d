//! Reconciliation: diff the keys discovered by extraction against the
//! translations already present for a target locale, yielding the ordered
//! list of keys that still need a human translation. Writing the to-do
//! document itself is the caller's concern; this module fixes its name and
//! the predicate recognizing it, so earlier to-do output is never mistaken
//! for a real translation source.

use vstd::prelude::*;

use crate::extractor::{msgs_view, Message, SpecMessage};
use crate::text::{str_eq, views_of};

verus! {

/// The fully qualified form of a key for one locale: `locale.key`.
pub open spec fn qualify(locale: Seq<char>, key: Seq<char>) -> Seq<char> {
    locale + "."@ + key
}

/// The name of the to-do document for one locale: `TODO.locale.yml`.
pub open spec fn spec_todo_filename(locale: Seq<char>) -> Seq<char> {
    "TODO."@ + locale + ".yml"@
}

/// One sequence ends with another.
pub open spec fn ends_with(a: Seq<char>, b: Seq<char>) -> bool {
    b.len() <= a.len() && a.subrange(a.len() - b.len(), a.len() as int) == b
}

/// The keys of the messages, in discovery order, whose qualified form is not
/// among the existing qualified keys.
pub open spec fn spec_new_keys(
    locale: Seq<char>,
    msgs: Seq<SpecMessage>,
    existing: Seq<Seq<char>>,
) -> Seq<Seq<char>>
    decreases msgs.len(),
{
    if msgs.len() == 0 {
        Seq::empty()
    } else {
        let rest = spec_new_keys(locale, msgs.drop_last(), existing);
        if existing.contains(qualify(locale, msgs.last().key)) {
            rest
        } else {
            rest.push(msgs.last().key)
        }
    }
}

/// Build the qualified `locale.key` string.
pub fn qualified_key(locale: &str, key: &str) -> (r: String)
    ensures
        r@ == qualify(locale@, key@),
{
    let mut q = locale.to_owned();
    q.append(".");
    q.append(key);
    q
}

/// Build the to-do file name for one locale.
pub fn todo_filename(locale: &str) -> (r: String)
    ensures
        r@ == spec_todo_filename(locale@),
{
    let mut s = "TODO.".to_owned();
    s.append(locale);
    s.append(".yml");
    s
}

/// Whether a file name is this tool's own to-do output for the locale; the
/// loader of existing translations must ignore such files.
pub fn filename_is_todo(fname: &str, locale: &str) -> (r: bool)
    ensures
        r == ends_with(fname@, spec_todo_filename(locale@)),
{
    let todo = todo_filename(locale);
    let n = fname.unicode_len();
    let m = todo.as_str().unicode_len();
    if m > n {
        return false;
    }
    let tail = fname.substring_char(n - m, n);
    str_eq(tail, todo.as_str())
}

/// Whether a string with this view is in the list.
pub fn list_contains(v: &Vec<String>, s: &str) -> (r: bool)
    ensures
        r == views_of(v@).contains(s@),
{
    let n = v.len();
    let mut i: usize = 0;
    while i < n
        invariant
            n == v@.len(),
            i <= n,
            forall|j: int| 0 <= j < i ==> views_of(v@)[j] != s@,
        decreases n - i,
    {
        if str_eq(v[i].as_str(), s) {
            proof {
                assert(views_of(v@)[i as int] == s@);
            }
            return true;
        }
        i += 1;
    }
    false
}

/// The ordered keys for `locale` that are not yet translated: a message
/// whose qualified key already stands in `existing` is dropped, since an
/// existing human translation always wins; every other key survives, in
/// discovery order.
pub fn new_translation_keys(locale: &str, messages: &Vec<Message>, existing: &Vec<String>) -> (r:
    Vec<String>)
    ensures
        views_of(r@) == spec_new_keys(locale@, msgs_view(messages@), views_of(existing@)),
{
    let mut r: Vec<String> = Vec::new();
    let n = messages.len();
    let mut i: usize = 0;
    while i < n
        invariant
            n == messages@.len(),
            i <= n,
            views_of(r@) == spec_new_keys(
                locale@,
                msgs_view(messages@).take(i as int),
                views_of(existing@),
            ),
        decreases n - i,
    {
        let q = qualified_key(locale, messages[i].key.as_str());
        proof {
            assert(msgs_view(messages@).take(i + 1).drop_last() =~= msgs_view(messages@).take(
                i as int,
            ));
            assert(msgs_view(messages@).take(i + 1).last() == msgs_view(messages@)[i as int]);
        }
        if !list_contains(existing, q.as_str()) {
            r.push(messages[i].key.clone());
            proof {
                assert(views_of(r@) =~= spec_new_keys(
                    locale@,
                    msgs_view(messages@).take(i + 1),
                    views_of(existing@),
                ));
            }
        }
        i += 1;
    }
    proof {
        assert(msgs_view(messages@).take(n as int) =~= msgs_view(messages@));
    }
    r
}

/// Every key that survives reconciliation is among its results.
proof fn lemma_new_keys_complete(
    locale: Seq<char>,
    msgs: Seq<SpecMessage>,
    existing: Seq<Seq<char>>,
    i: int,
)
    requires
        0 <= i < msgs.len(),
        !existing.contains(qualify(locale, msgs[i].key)),
    ensures
        spec_new_keys(locale, msgs, existing).contains(msgs[i].key),
    decreases msgs.len(),
{
    let r = spec_new_keys(locale, msgs, existing);
    let rest = spec_new_keys(locale, msgs.drop_last(), existing);
    if i == msgs.len() - 1 {
        assert(r == rest.push(msgs[i].key));
        assert(r[r.len() - 1] == msgs[i].key);
    } else {
        assert(msgs.drop_last()[i] == msgs[i]);
        lemma_new_keys_complete(locale, msgs.drop_last(), existing, i);
        let j = choose|j: int| 0 <= j < rest.len() && rest[j] == msgs[i].key;
        assert(r[j] == msgs[i].key);
    }
}

/// Once every reconciled key is available under its qualified form, nothing
/// survives.
proof fn lemma_new_keys_covered(
    locale: Seq<char>,
    msgs: Seq<SpecMessage>,
    existing: Seq<Seq<char>>,
    extra: Seq<Seq<char>>,
)
    requires
        forall|i: int|
            0 <= i < msgs.len() && !existing.contains(qualify(locale, #[trigger] msgs[i].key))
                ==> extra.contains(qualify(locale, msgs[i].key)),
    ensures
        spec_new_keys(locale, msgs, existing + extra).len() == 0,
    decreases msgs.len(),
{
    if msgs.len() > 0 {
        assert forall|i: int|
            0 <= i < msgs.drop_last().len() && !existing.contains(
                qualify(locale, #[trigger] msgs.drop_last()[i].key),
            ) implies extra.contains(qualify(locale, msgs.drop_last()[i].key)) by {
            assert(msgs.drop_last()[i] == msgs[i]);
        }
        lemma_new_keys_covered(locale, msgs.drop_last(), existing, extra);
        let q = qualify(locale, msgs.last().key);
        if existing.contains(q) {
            let j = choose|j: int| 0 <= j < existing.len() && existing[j] == q;
            assert((existing + extra)[j] == q);
        } else {
            assert(extra.contains(q));
            let j = choose|j: int| 0 <= j < extra.len() && extra[j] == q;
            assert((existing + extra)[existing.len() + j] == q);
        }
        assert((existing + extra).contains(q));
    }
}

/// Law: reconciliation closes the loop. Take the keys it reports for a
/// locale, translate them, and merge them under their qualified names into
/// the existing translations: running reconciliation again over the same
/// messages finds nothing left to translate.
pub proof fn lemma_reconcile_round_trip(
    locale: Seq<char>,
    msgs: Seq<SpecMessage>,
    existing: Seq<Seq<char>>,
)
    ensures
        spec_new_keys(
            locale,
            msgs,
            existing + spec_new_keys(locale, msgs, existing).map_values(
                |k: Seq<char>| qualify(locale, k),
            ),
        ).len() == 0,
{
    let news = spec_new_keys(locale, msgs, existing);
    let extra = news.map_values(|k: Seq<char>| qualify(locale, k));
    assert forall|i: int|
        0 <= i < msgs.len() && !existing.contains(
            qualify(locale, #[trigger] msgs[i].key),
        ) implies extra.contains(qualify(locale, msgs[i].key)) by {
        lemma_new_keys_complete(locale, msgs, existing, i);
        let j = choose|j: int| 0 <= j < news.len() && news[j] == msgs[i].key;
        assert(extra[j] == qualify(locale, msgs[i].key));
    }
    lemma_new_keys_covered(locale, msgs, existing, extra);
}

} // verus!
