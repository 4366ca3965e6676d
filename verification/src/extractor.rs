//! Extraction: scan source text units for invocations of the translation
//! macro, `t!("some.key", ...)`, and collect one message record per distinct
//! key, in first-seen order, with every location where the key occurs.

use vstd::prelude::*;

use crate::text::str_eq;

verus! {

/// One place where a key was referenced.
#[derive(Debug, PartialEq)]
pub struct Location {
    pub path: String,
    pub line: usize,
}

impl View for Location {
    type V = (Seq<char>, int);

    open spec fn view(&self) -> (Seq<char>, int) {
        (self.path@, self.line as int)
    }
}

/// One discovered message: the literal key, the order in which it was first
/// seen, and every location referencing it.
#[derive(Debug, PartialEq)]
pub struct Message {
    pub key: String,
    pub index: usize,
    pub locations: Vec<Location>,
}

/// The mathematical model of a message record.
#[verifier::ext_equal]
pub ghost struct SpecMessage {
    pub key: Seq<char>,
    pub index: int,
    pub locations: Seq<(Seq<char>, int)>,
}

impl View for Message {
    type V = SpecMessage;

    open spec fn view(&self) -> SpecMessage {
        SpecMessage {
            key: self.key@,
            index: self.index as int,
            locations: self.locations@.map_values(|lo: Location| lo@),
        }
    }
}

/// The models of a list of message records.
pub open spec fn msgs_view(v: Seq<Message>) -> Seq<SpecMessage> {
    v.map_values(|m: Message| m@)
}

/// Message lists are keyed by distinct keys and indexed by discovery order.
pub open spec fn messages_wf(msgs: Seq<SpecMessage>) -> bool {
    &&& forall|i: int, j: int| 0 <= i < j < msgs.len() ==> msgs[i].key != msgs[j].key
    &&& forall|i: int| 0 <= i < msgs.len() ==> #[trigger] msgs[i].index == i
}

/// A character that may appear in an identifier; an invocation must not be
/// immediately preceded by one, so that a longer name ending in `t` does not
/// count as the macro.
pub open spec fn ident_char(c: char) -> bool {
    ||| ('a' as u32) <= (c as u32) <= ('z' as u32)
    ||| ('A' as u32) <= (c as u32) <= ('Z' as u32)
    ||| ('0' as u32) <= (c as u32) <= ('9' as u32)
    ||| c == '_'
}

/// The least position at or after `j` holding a double quote, or the text
/// length if there is none.
pub open spec fn close_quote(text: Seq<char>, j: int) -> int
    decreases text.len() - j when 0 <= j <= text.len()
{
    if j >= text.len() {
        text.len() as int
    } else if text[j] == '"' {
        j
    } else {
        close_quote(text, j + 1)
    }
}

/// The closing quote lies between the start of the search and the text end.
proof fn lemma_close_quote_range(text: Seq<char>, j: int)
    requires
        0 <= j <= text.len(),
    ensures
        j <= close_quote(text, j) <= text.len(),
    decreases text.len() - j,
{
    if j < text.len() && text[j] != '"' {
        lemma_close_quote_range(text, j + 1);
    }
}

/// An invocation of the translation macro with a literal key starts at `i`:
/// the tokens `t!("` not preceded by an identifier character, with a closing
/// quote somewhere after. An invocation whose key is not a literal does not
/// match and is skipped.
pub open spec fn is_call_at(text: Seq<char>, i: int) -> bool {
    &&& 0 <= i
    &&& i + 4 <= text.len()
    &&& text[i] == 't'
    &&& text[i + 1] == '!'
    &&& text[i + 2] == '('
    &&& text[i + 3] == '"'
    &&& (i == 0 || !ident_char(text[i - 1]))
    &&& close_quote(text, i + 4) < text.len()
}

/// The literal key of the invocation at `i`: the characters between the
/// opening quote and the next quote.
pub open spec fn key_at(text: Seq<char>, i: int) -> Seq<char> {
    text.subrange(i + 4, close_quote(text, i + 4))
}

/// How many newline characters a text holds.
pub open spec fn count_newlines(s: Seq<char>) -> int
    decreases s.len(),
{
    if s.len() == 0 {
        0
    } else {
        count_newlines(s.drop_last()) + if s.last() == '\n' {
            1int
        } else {
            0int
        }
    }
}

/// The one-based line number of position `i`.
pub open spec fn line_at(text: Seq<char>, i: int) -> int {
    1 + count_newlines(text.take(i))
}

/// The (key, line) occurrences from position `i` onward, in text order.
pub open spec fn occs_from(text: Seq<char>, i: int) -> Seq<(Seq<char>, int)>
    decreases text.len() - i when 0 <= i <= text.len()
{
    if i >= text.len() {
        Seq::empty()
    } else if is_call_at(text, i) {
        seq![(key_at(text, i), line_at(text, i))] + occs_from(text, i + 1)
    } else {
        occs_from(text, i + 1)
    }
}

/// All occurrences of one text unit.
pub open spec fn occurrences(text: Seq<char>) -> Seq<(Seq<char>, int)> {
    occs_from(text, 0)
}

/// Recording one occurrence: a known key gains a location; a new key gains a
/// fresh record carrying the next discovery index.
pub open spec fn spec_record(
    msgs: Seq<SpecMessage>,
    path: Seq<char>,
    key: Seq<char>,
    line: int,
) -> Seq<SpecMessage> {
    if exists|i: int| 0 <= i < msgs.len() && msgs[i].key == key {
        let i = choose|i: int| 0 <= i < msgs.len() && msgs[i].key == key;
        msgs.update(
            i,
            SpecMessage {
                key: msgs[i].key,
                index: msgs[i].index,
                locations: msgs[i].locations.push((path, line)),
            },
        )
    } else {
        msgs.push(
            SpecMessage { key: key, index: msgs.len() as int, locations: seq![(path, line)] },
        )
    }
}

/// Recording a list of occurrences in order.
pub open spec fn spec_scan(
    msgs: Seq<SpecMessage>,
    path: Seq<char>,
    occs: Seq<(Seq<char>, int)>,
) -> Seq<SpecMessage>
    decreases occs.len(),
{
    if occs.len() == 0 {
        msgs
    } else {
        spec_scan(spec_record(msgs, path, occs[0].0, occs[0].1), path, occs.skip(1))
    }
}

/// What scanning one unit does to the message list.
pub open spec fn spec_extract(
    msgs: Seq<SpecMessage>,
    path: Seq<char>,
    text: Seq<char>,
) -> Seq<SpecMessage> {
    spec_scan(msgs, path, occurrences(text))
}

/// Recording preserves well-formedness.
proof fn lemma_record_wf(msgs: Seq<SpecMessage>, path: Seq<char>, key: Seq<char>, line: int)
    requires
        messages_wf(msgs),
    ensures
        messages_wf(spec_record(msgs, path, key, line)),
{
    let r = spec_record(msgs, path, key, line);
    if exists|i: int| 0 <= i < msgs.len() && msgs[i].key == key {
        let i = choose|i: int| 0 <= i < msgs.len() && msgs[i].key == key;
        assert forall|p: int, q: int| 0 <= p < q < r.len() implies r[p].key != r[q].key by {}
        assert forall|p: int| 0 <= p < r.len() implies #[trigger] r[p].index == p by {}
    } else {
        assert forall|p: int, q: int| 0 <= p < q < r.len() implies r[p].key != r[q].key by {
            if q == r.len() - 1 {
                assert(msgs[p].key != key);
            }
        }
        assert forall|p: int| 0 <= p < r.len() implies #[trigger] r[p].index == p by {}
    }
}

/// Law: extraction is deterministic. The resulting message list is a
/// function of the prior list and the unit alone, so scanning the same
/// corpus twice yields identical message lists, in the same order, with the
/// same location lists.
pub proof fn lemma_extraction_deterministic(
    m1: Seq<SpecMessage>,
    m2: Seq<SpecMessage>,
    init: Seq<SpecMessage>,
    path: Seq<char>,
    text: Seq<char>,
)
    requires
        m1 == spec_extract(init, path, text),
        m2 == spec_extract(init, path, text),
    ensures
        m1 == m2,
{
}

/// Whether this character may appear in an identifier.
fn is_ident_char(c: char) -> (r: bool)
    ensures
        r == ident_char(c),
{
    let u = c as u32;
    (('a' as u32) <= u && u <= ('z' as u32)) || (('A' as u32) <= u && u <= ('Z' as u32)) || (('0'
        as u32) <= u && u <= ('9' as u32)) || c == '_'
}

/// The least position at or after `start` holding a double quote.
fn find_quote(source: &str, start: usize) -> (r: usize)
    requires
        start <= source@.len(),
    ensures
        r == close_quote(source@, start as int),
{
    let n = source.unicode_len();
    let mut j = start;
    while j < n
        invariant
            start <= j <= n,
            n == source@.len(),
            close_quote(source@, start as int) == close_quote(source@, j as int),
        decreases n - j,
    {
        if source.get_char(j) == '"' {
            return j;
        }
        j += 1;
    }
    n
}

/// Append one occurrence of `key` at `line` to the message list.
fn record(messages: &mut Vec<Message>, path: &str, key: &str, line: usize)
    requires
        messages_wf(msgs_view(old(messages)@)),
    ensures
        messages_wf(msgs_view(final(messages)@)),
        msgs_view(final(messages)@) == spec_record(
            msgs_view(old(messages)@),
            path@,
            key@,
            line as int,
        ),
{
    let ghost orig = msgs_view(old(messages)@);
    let n = messages.len();
    let mut i: usize = 0;
    while i < n
        invariant
            messages@ == old(messages)@,
            orig == msgs_view(old(messages)@),
            messages_wf(orig),
            n == messages@.len(),
            i <= n,
            forall|j: int| 0 <= j < i ==> msgs_view(messages@)[j].key != key@,
        decreases n - i,
    {
        if str_eq(messages[i].key.as_str(), key) {
            proof {
                assert(orig[i as int].key == key@);
            }
            let loc = Location { path: path.to_owned(), line };
            let m = &mut messages[i];
            m.locations.push(loc);
            proof {
                lemma_record_wf(orig, path@, key@, line as int);
                let p = choose|p: int| 0 <= p < orig.len() && orig[p].key == key@;
                assert(p == i as int);
                assert(msgs_view(messages@) =~~= spec_record(orig, path@, key@, line as int));
            }
            return;
        }
        i += 1;
    }
    proof {
        assert forall|p: int| 0 <= p < orig.len() implies orig[p].key != key@ by {}
        assert(!exists|p: int| 0 <= p < orig.len() && orig[p].key == key@);
    }
    let loc = Location { path: path.to_owned(), line };
    let mut locs: Vec<Location> = Vec::new();
    locs.push(loc);
    let m = Message { key: key.to_owned(), index: n, locations: locs };
    messages.push(m);
    proof {
        lemma_record_wf(orig, path@, key@, line as int);
        assert(msgs_view(messages@) =~~= spec_record(orig, path@, key@, line as int));
    }
}

/// Each newline adds at most one to the count.
proof fn lemma_count_newlines_bound(s: Seq<char>)
    ensures
        0 <= count_newlines(s) <= s.len(),
    decreases s.len(),
{
    if s.len() > 0 {
        lemma_count_newlines_bound(s.drop_last());
    }
}

/// Scan one source text unit and fold every discovered occurrence into the
/// message list: a unit is a path naming it and its full text.
pub fn extract(messages: &mut Vec<Message>, path: &str, source: &str)
    requires
        messages_wf(msgs_view(old(messages)@)),
        source@.len() < usize::MAX,
    ensures
        messages_wf(msgs_view(final(messages)@)),
        msgs_view(final(messages)@) == spec_extract(msgs_view(old(messages)@), path@, source@),
{
    let ghost orig = msgs_view(old(messages)@);
    let ghost text = source@;
    let n = source.unicode_len();
    let mut i: usize = 0;
    let mut line: usize = 1;
    while i < n
        invariant
            orig == msgs_view(old(messages)@),
            text == source@,
            n == text.len(),
            n < usize::MAX,
            i <= n,
            line == line_at(text, i as int),
            messages_wf(msgs_view(messages@)),
            spec_scan(msgs_view(messages@), path@, occs_from(text, i as int)) == spec_scan(
                orig,
                path@,
                occs_from(text, 0),
            ),
        decreases n - i,
    {
        let c = source.get_char(i);
        let mut matched = false;
        if n - i >= 4 {
            if c == 't' && source.get_char(i + 1) == '!' && source.get_char(i + 2) == '('
                && source.get_char(i + 3) == '"' {
                let boundary = if i == 0 {
                    true
                } else {
                    !is_ident_char(source.get_char(i - 1))
                };
                if boundary {
                    let q = find_quote(source, i + 4);
                    if q < n {
                        proof {
                            lemma_close_quote_range(text, i as int + 4);
                            assert(is_call_at(text, i as int));
                        }
                        let key = source.substring_char(i + 4, q);
                        proof {
                            assert(key@ == key_at(text, i as int));
                            let occs = occs_from(text, i as int);
                            assert(occs == seq![(key_at(text, i as int), line_at(text, i as int))]
                                + occs_from(text, i as int + 1));
                            assert(occs[0] == (key_at(text, i as int), line_at(text, i as int)));
                            assert(occs.skip(1) =~= occs_from(text, i as int + 1));
                        }
                        record(messages, path, key, line);
                        matched = true;
                    }
                }
            }
        }
        proof {
            if !matched {
                if i as int + 4 <= n && text[i as int] == 't' && text[i as int + 1] == '!'
                    && text[i as int + 2] == '(' && text[i as int + 3] == '"' && (i == 0
                    || !ident_char(text[i as int - 1])) {
                    assert(close_quote(text, i as int + 4) >= n);
                }
                assert(!is_call_at(text, i as int));
                assert(occs_from(text, i as int) == occs_from(text, i as int + 1));
            }
            // the line counter steps with the newline just passed
            assert(text.take(i as int + 1).drop_last() =~= text.take(i as int));
            assert(text.take(i as int + 1).last() == text[i as int]);
            lemma_count_newlines_bound(text.take(i as int));
        }
        if c == '\n' {
            line += 1;
        }
        i += 1;
    }
    proof {
        assert(occs_from(text, n as int) =~= Seq::<(Seq<char>, int)>::empty());
    }
}

} // verus!
