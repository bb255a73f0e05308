use crate::cursor::slice_to_vec;
use crate::text::{lossy_string, lossy_text};
use vstd::prelude::*;
use vstd::slice::slice_subrange;

verus! {

/// The byte that ends a line (line feed).
pub const LINE_END: u8 = 0x0A;

/// First byte of a continuation line (`+`).
pub const CONTINUE_MARK: u8 = 0x2B;

/// The byte between a key and its binary value (`:`).
pub const BINARY_MARK: u8 = 0x3A;

/// The byte between a key and its text value (`=`).
pub const TEXT_MARK: u8 = 0x3D;

/// What a key is bound to.
#[derive(Debug, PartialEq, Eq)]
pub enum Value {
    /// From a `key=value` line.
    Text(String),
    /// From a `key:bytes` line that no continuation followed.
    Binary(Vec<u8>),
    /// From a `key:bytes` line and its continuations, in file order.
    BinaryList(Vec<Vec<u8>>),
}

/// A value as plain sequences.
pub enum ValueView {
    Text(Seq<char>),
    Binary(Seq<u8>),
    BinaryList(Seq<Seq<u8>>),
}

impl View for Value {
    type V = ValueView;

    open spec fn view(&self) -> ValueView {
        match self {
            Value::Text(s) => ValueView::Text(s@),
            Value::Binary(b) => ValueView::Binary(b@),
            Value::BinaryList(l) => ValueView::BinaryList(l@.map_values(|b: Vec<u8>| b@)),
        }
    }
}

/// A key and the value it is bound to.
#[derive(Debug, PartialEq, Eq)]
pub struct Entry {
    pub key: String,
    pub value: Value,
}

/// An entry as plain sequences.
pub struct EntryView {
    pub key: Seq<char>,
    pub value: ValueView,
}

impl View for Entry {
    type V = EntryView;

    open spec fn view(&self) -> EntryView {
        EntryView { key: self.key@, value: self.value@ }
    }
}

/// The entries of a vector, each by its view.
pub open spec fn entries_view(items: Seq<Entry>) -> Seq<EntryView> {
    items.map_values(|e: Entry| e@)
}

/// No key stands twice in the list.
pub open spec fn distinct_keys(items: Seq<EntryView>) -> bool {
    forall|i: int, j: int| 0 <= i < j < items.len() ==> items[i].key != items[j].key
}

/// The mapping that a list of entries stands for.
pub open spec fn entries_map(items: Seq<EntryView>) -> Map<Seq<char>, ValueView>
    decreases items.len(),
{
    if items.len() == 0 {
        Map::empty()
    } else {
        entries_map(items.drop_last()).insert(items.last().key, items.last().value)
    }
}

/// What one section's decoding pass knows between two lines: the mapping so
/// far and the key that the last assignment bound.
pub struct EntryState {
    pub entries: Map<Seq<char>, ValueView>,
    pub last_key: Option<Seq<char>>,
}

/// The state before the first line.
pub open spec fn initial_state() -> EntryState {
    EntryState { entries: Map::empty(), last_key: None }
}

/// The first position from `pos` on at which `byte` stands, or the length of
/// the line if there is none.
pub open spec fn find_from(line: Seq<u8>, byte: u8, pos: int) -> int
    decreases line.len() - pos,
{
    if pos < 0 || pos >= line.len() {
        line.len() as int
    } else if line[pos] == byte {
        pos
    } else {
        find_from(line, byte, pos + 1)
    }
}

/// A line that starts with the two bytes `+:`.
pub open spec fn is_continuation(line: Seq<u8>) -> bool {
    line.len() >= 2 && line[0] == CONTINUE_MARK && line[1] == BINARY_MARK
}

/// The state after a fragment has been added to the last key's value: a
/// binary value becomes a list of two, a list grows by one, and a text value
/// or a missing key leaves everything as it was.
pub open spec fn extend_last(st: EntryState, fragment: Seq<u8>) -> EntryState {
    match st.last_key {
        Some(k) => if st.entries.dom().contains(k) {
            match st.entries[k] {
                ValueView::BinaryList(l) => EntryState {
                    entries: st.entries.insert(k, ValueView::BinaryList(l.push(fragment))),
                    last_key: st.last_key,
                },
                ValueView::Binary(b) => EntryState {
                    entries: st.entries.insert(k, ValueView::BinaryList(seq![b, fragment])),
                    last_key: st.last_key,
                },
                ValueView::Text(_) => st,
            }
        } else {
            st
        },
        None => st,
    }
}

/// The state after `key` has been bound to `value`.
pub open spec fn bind(st: EntryState, key: Seq<char>, value: ValueView) -> EntryState {
    EntryState { entries: st.entries.insert(key, value), last_key: Some(key) }
}

/// The state after one completed line. An empty line does nothing; a
/// continuation extends the last key; otherwise the first `=` makes a text
/// assignment, else the first `:` a binary one; any other line is dropped.
pub open spec fn apply_line(st: EntryState, line: Seq<u8>) -> EntryState {
    let n = line.len() as int;
    let eq = find_from(line, TEXT_MARK, 0);
    let colon = find_from(line, BINARY_MARK, 0);
    if n == 0 {
        st
    } else if is_continuation(line) {
        extend_last(st, line.subrange(2, n))
    } else if eq < n {
        bind(
            st,
            lossy_text(line.subrange(0, eq)),
            ValueView::Text(lossy_text(line.subrange(eq + 1, n))),
        )
    } else if colon < n {
        bind(
            st,
            lossy_text(line.subrange(0, colon)),
            ValueView::Binary(line.subrange(colon + 1, n)),
        )
    } else {
        st
    }
}

/// The state after the bytes of a body from `pos` on, `line` being what has
/// been read of the line under way. Every line feed completes a line, and so
/// does the end of the body.
pub open spec fn feed(st: EntryState, line: Seq<u8>, body: Seq<u8>, pos: int) -> EntryState
    decreases body.len() - pos,
{
    if pos < 0 || pos >= body.len() {
        apply_line(st, line)
    } else if body[pos] == LINE_END {
        feed(apply_line(st, line), Seq::empty(), body, pos + 1)
    } else {
        feed(st, line.push(body[pos]), body, pos + 1)
    }
}

/// The mapping that a line-oriented section body decodes to.
pub open spec fn decode_body(body: Seq<u8>) -> Map<Seq<char>, ValueView> {
    feed(initial_state(), Seq::empty(), body, 0).entries
}

/// In a list without repeated keys, the mapping binds each key to the value
/// that stands beside it.
pub proof fn lemma_map_lookup(items: Seq<EntryView>, i: int)
    requires
        distinct_keys(items),
        0 <= i < items.len(),
    ensures
        entries_map(items).dom().contains(items[i].key),
        entries_map(items)[items[i].key] == items[i].value,
    decreases items.len(),
{
    if i < items.len() - 1 {
        lemma_map_lookup(items.drop_last(), i);
    }
}

/// Replacing the value beside a key rebinds that key and nothing else.
pub proof fn lemma_map_update(items: Seq<EntryView>, i: int, e: EntryView)
    requires
        distinct_keys(items),
        0 <= i < items.len(),
        e.key == items[i].key,
    ensures
        distinct_keys(items.update(i, e)),
        entries_map(items.update(i, e)) == entries_map(items).insert(e.key, e.value),
    decreases items.len(),
{
    let updated = items.update(i, e);
    if i == items.len() - 1 {
        assert(updated.drop_last() =~= items.drop_last());
        assert(entries_map(updated) =~= entries_map(items).insert(e.key, e.value));
    } else {
        lemma_map_update(items.drop_last(), i, e);
        assert(updated.drop_last() =~= items.drop_last().update(i, e));
        assert(entries_map(updated) =~= entries_map(items).insert(e.key, e.value));
    }
}

/// Adding a key that the list lacks binds it and nothing else.
pub proof fn lemma_map_push(items: Seq<EntryView>, e: EntryView)
    requires
        distinct_keys(items),
        forall|i: int| 0 <= i < items.len() ==> items[i].key != e.key,
    ensures
        distinct_keys(items.push(e)),
        entries_map(items.push(e)) == entries_map(items).insert(e.key, e.value),
{
    assert(items.push(e).drop_last() =~= items);
}

/// Finds the first position at which `byte` stands in `line`.
pub fn find_byte(line: &[u8], byte: u8) -> (r: usize)
    ensures
        r == find_from(line@, byte, 0),
        r <= line@.len(),
        forall|j: int| 0 <= j < r ==> line@[j] != byte,
        r < line@.len() ==> line@[r as int] == byte,
{
    let mut i: usize = 0;
    while i < line.len()
        invariant
            i <= line@.len(),
            find_from(line@, byte, 0) == find_from(line@, byte, i as int),
            forall|j: int| 0 <= j < i ==> line@[j] != byte,
        decreases line@.len() - i,
    {
        if line[i] == byte {
            return i;
        }
        i = i + 1;
    }
    i
}

/// The decoding pass over one section: the entries so far, each key once,
/// and the place of the last key bound.
pub struct EntryDecoder {
    items: Vec<Entry>,
    last: Option<usize>,
}

impl View for EntryDecoder {
    type V = EntryState;

    closed spec fn view(&self) -> EntryState {
        EntryState {
            entries: entries_map(entries_view(self.items@)),
            last_key: match self.last {
                Some(i) => Some(self.items@[i as int].key@),
                None => None,
            },
        }
    }
}

impl EntryDecoder {
    /// No key stands twice, and the last key is one of them.
    pub closed spec fn wf(&self) -> bool {
        &&& distinct_keys(entries_view(self.items@))
        &&& match self.last {
            Some(i) => i < self.items@.len(),
            None => true,
        }
    }

    /// A decoder that has seen no line.
    pub fn new() -> (d: Self)
        ensures
            d.wf(),
            d@ == initial_state(),
    {
        let d = EntryDecoder { items: Vec::new(), last: None };
        assert(entries_view(d.items@) =~= Seq::empty());
        d
    }

    /// The place of `key` among the entries.
    fn position(&self, key: &String) -> (r: Option<usize>)
        ensures
            match r {
                Some(i) => i < self.items@.len() && self.items@[i as int].key@ == key@,
                None => forall|j: int| 0 <= j < self.items@.len() ==> self.items@[j].key@ != key@,
            },
    {
        let mut i: usize = 0;
        while i < self.items.len()
            invariant
                i <= self.items@.len(),
                forall|j: int| 0 <= j < i ==> self.items@[j].key@ != key@,
            decreases self.items@.len() - i,
        {
            if self.items[i].key == *key {
                return Some(i);
            }
            i = i + 1;
        }
        None
    }

    /// Binds `key` to `value`, over whatever it was bound to, and makes it
    /// the last key.
    pub fn store(&mut self, key: String, value: Value)
        requires
            old(self).wf(),
        ensures
            final(self).wf(),
            final(self)@ == bind(old(self)@, key@, value@),
    {
        let ghost before = entries_view(self.items@);
        let entry = Entry { key, value };
        match self.position(&entry.key) {
            Some(i) => {
                let _ = self.items.remove(i);
                self.items.insert(i, entry);
                proof {
                    assert(entries_view(self.items@) =~= before.update(i as int, entry@));
                    lemma_map_update(before, i as int, entry@);
                }
                self.last = Some(i);
            },
            None => {
                let n = self.items.len();
                self.items.push(entry);
                proof {
                    assert(entries_view(self.items@) =~= before.push(entry@));
                    lemma_map_push(before, entry@);
                }
                self.last = Some(n);
            },
        }
    }

    /// Adds a fragment to the value of the last key, where it has a binary
    /// one.
    pub fn extend(&mut self, fragment: Vec<u8>)
        requires
            old(self).wf(),
        ensures
            final(self).wf(),
            final(self)@ == extend_last(old(self)@, fragment@),
    {
        let ghost before = entries_view(self.items@);
        let i = match self.last {
            Some(i) => i,
            None => {
                return;
            },
        };
        proof {
            lemma_map_lookup(before, i as int);
        }
        let old_entry = self.items.remove(i);
        let key = old_entry.key;
        let value = match old_entry.value {
            Value::BinaryList(list) => {
                let mut list = list;
                list.push(fragment);
                assert(list@.map_values(|b: Vec<u8>| b@) =~= old_entry.value@->BinaryList_0.push(
                    fragment@,
                ));
                Value::BinaryList(list)
            },
            Value::Binary(first) => {
                let mut list: Vec<Vec<u8>> = Vec::new();
                list.push(first);
                list.push(fragment);
                assert(list@.map_values(|b: Vec<u8>| b@) =~= seq![first@, fragment@]);
                Value::BinaryList(list)
            },
            Value::Text(text) => Value::Text(text),
        };
        let entry = Entry { key, value };
        self.items.insert(i, entry);
        proof {
            assert(entries_view(self.items@) =~= before.update(i as int, entry@));
            lemma_map_update(before, i as int, entry@);
            if old_entry.value is Text {
                assert(entry@ == before[i as int]);
                assert(before.update(i as int, entry@) =~= before);
            }
        }
    }

    /// Takes one completed line, without its line feed.
    pub fn process_line(&mut self, line: &[u8])
        requires
            old(self).wf(),
        ensures
            final(self).wf(),
            final(self)@ == apply_line(old(self)@, line@),
    {
        let n = line.len();
        if n == 0 {
            return;
        }
        if n >= 2 && line[0] == CONTINUE_MARK && line[1] == BINARY_MARK {
            let fragment = slice_to_vec(slice_subrange(line, 2, n));
            self.extend(fragment);
            return;
        }
        let eq = find_byte(line, TEXT_MARK);
        if eq < n {
            let key = lossy_string(slice_subrange(line, 0, eq));
            let text = lossy_string(slice_subrange(line, eq + 1, n));
            self.store(key, Value::Text(text));
            return;
        }
        let colon = find_byte(line, BINARY_MARK);
        if colon < n {
            let key = lossy_string(slice_subrange(line, 0, colon));
            let bytes = slice_to_vec(slice_subrange(line, colon + 1, n));
            self.store(key, Value::Binary(bytes));
        }
    }

    /// The entries, each key once.
    pub fn into_entries(self) -> (r: Vec<Entry>)
        requires
            self.wf(),
        ensures
            distinct_keys(entries_view(r@)),
            entries_map(entries_view(r@)) == self@.entries,
    {
        self.items
    }
}

/// Decodes a line-oriented section body into its entries. No key stands
/// twice in the result.
pub fn decode_entries(body: &[u8]) -> (r: Vec<Entry>)
    ensures
        distinct_keys(entries_view(r@)),
        entries_map(entries_view(r@)) == decode_body(body@),
{
    let mut decoder = EntryDecoder::new();
    let mut line: Vec<u8> = Vec::new();
    let mut i: usize = 0;
    while i < body.len()
        invariant
            i <= body@.len(),
            decoder.wf(),
            decode_body(body@) == feed(decoder@, line@, body@, i as int).entries,
        decreases body@.len() - i,
    {
        let b: u8 = body[i];
        if b == LINE_END {
            decoder.process_line(line.as_slice());
            line = Vec::new();
        } else {
            line.push(b);
        }
        i = i + 1;
    }
    decoder.process_line(line.as_slice());
    decoder.into_entries()
}

/// The continuation line that carries `fragment`.
pub open spec fn continuation(fragment: Seq<u8>) -> Seq<u8> {
    seq![CONTINUE_MARK, BINARY_MARK] + fragment
}

/// The state after several completed lines, in order.
pub open spec fn apply_lines(st: EntryState, lines: Seq<Seq<u8>>) -> EntryState
    decreases lines.len(),
{
    if lines.len() == 0 {
        st
    } else {
        apply_line(apply_lines(st, lines.drop_last()), lines.last())
    }
}

/// The continuation lines that carry `fragments`, in order.
pub open spec fn continuations(fragments: Seq<Seq<u8>>) -> Seq<Seq<u8>> {
    fragments.map_values(|f: Seq<u8>| continuation(f))
}

/// After a binary assignment, continuation lines turn the value into a list
/// that holds the first value and then one element for each continuation,
/// in file order: one more element than there were continuations.
pub proof fn lemma_continuations_grow(
    st: EntryState,
    key: Seq<char>,
    first: Seq<u8>,
    fragments: Seq<Seq<u8>>,
)
    requires
        st.last_key == Some(key),
        st.entries.dom().contains(key),
        st.entries[key] == ValueView::Binary(first),
        fragments.len() >= 1,
    ensures
        apply_lines(st, continuations(fragments)) == (EntryState {
            entries: st.entries.insert(key, ValueView::BinaryList(seq![first] + fragments)),
            last_key: Some(key),
        }),
        (seq![first] + fragments).len() == fragments.len() + 1,
    decreases fragments.len(),
{
    let lines = continuations(fragments);
    let line = lines.last();
    let fragment = fragments.last();
    assert(line == continuation(fragment));
    assert(line.subrange(2, line.len() as int) =~= fragment);
    assert(lines.drop_last() =~= continuations(fragments.drop_last()));
    if fragments.len() == 1 {
        assert(seq![first, fragment] =~= seq![first] + fragments);
        assert(apply_lines(st, lines.drop_last()) == st);
    } else {
        lemma_continuations_grow(st, key, first, fragments.drop_last());
        let list = seq![first] + fragments.drop_last();
        assert(list.push(fragment) =~= seq![first] + fragments);
        let mid = apply_lines(st, lines.drop_last());
        assert(mid.entries.insert(key, ValueView::BinaryList(list.push(fragment)))
            =~= st.entries.insert(key, ValueView::BinaryList(list.push(fragment))));
    }
}

/// Continuation lines change nothing while no key has been bound, or while
/// the last key is bound to text.
pub proof fn lemma_continuations_ignored(st: EntryState, fragments: Seq<Seq<u8>>)
    requires
        match st.last_key {
            Some(key) => !st.entries.dom().contains(key) || st.entries[key] is Text,
            None => true,
        },
    ensures
        apply_lines(st, continuations(fragments)) == st,
    decreases fragments.len(),
{
    if fragments.len() > 0 {
        let lines = continuations(fragments);
        assert(lines.drop_last() =~= continuations(fragments.drop_last()));
        assert(lines.last() == continuation(fragments.last()));
        lemma_continuations_ignored(st, fragments.drop_last());
    }
}

/// The lines of a body from `pos` on, `line` being what has been read of the
/// first of them: the stretches between line feeds, the last one running to
/// the end of the body.
pub open spec fn split_lines(line: Seq<u8>, body: Seq<u8>, pos: int) -> Seq<Seq<u8>>
    decreases body.len() - pos,
{
    if pos < 0 || pos >= body.len() {
        seq![line]
    } else if body[pos] == LINE_END {
        seq![line] + split_lines(Seq::empty(), body, pos + 1)
    } else {
        split_lines(line.push(body[pos]), body, pos + 1)
    }
}

/// Applying a line and then more lines is applying them all.
pub proof fn lemma_apply_lines_front(st: EntryState, line: Seq<u8>, rest: Seq<Seq<u8>>)
    ensures
        apply_lines(st, seq![line] + rest) == apply_lines(apply_line(st, line), rest),
    decreases rest.len(),
{
    let all = seq![line] + rest;
    if rest.len() == 0 {
        assert(all.drop_last() =~= Seq::empty());
        assert(apply_lines(st, all.drop_last()) == st);
    } else {
        lemma_apply_lines_front(st, line, rest.drop_last());
        assert(all.drop_last() =~= seq![line] + rest.drop_last());
        assert(all.last() == rest.last());
    }
}

/// Feeding a body byte by byte is applying its lines in order.
pub proof fn lemma_feed_applies_lines(st: EntryState, line: Seq<u8>, body: Seq<u8>, pos: int)
    ensures
        feed(st, line, body, pos) == apply_lines(st, split_lines(line, body, pos)),
    decreases body.len() - pos,
{
    if pos < 0 || pos >= body.len() {
        lemma_apply_lines_front(st, line, Seq::empty());
        assert(seq![line] + Seq::<Seq<u8>>::empty() =~= seq![line]);
    } else if body[pos] == LINE_END {
        lemma_feed_applies_lines(apply_line(st, line), Seq::empty(), body, pos + 1);
        lemma_apply_lines_front(st, line, split_lines(Seq::empty(), body, pos + 1));
    } else {
        lemma_feed_applies_lines(st, line.push(body[pos]), body, pos + 1);
    }
}

/// A body decodes to what its lines, applied in order to the empty state,
/// leave bound.
pub proof fn lemma_decode_by_lines(body: Seq<u8>)
    ensures
        decode_body(body) == apply_lines(
            initial_state(),
            split_lines(Seq::empty(), body, 0),
        ).entries,
{
    lemma_feed_applies_lines(initial_state(), Seq::empty(), body, 0);
}

/// Every list among the values holds at least two fragments.
pub open spec fn lists_hold_two(entries: Map<Seq<char>, ValueView>) -> bool {
    forall|k: Seq<char>| #[trigger]
        entries.dom().contains(k) ==> (entries[k] matches ValueView::BinaryList(l) ==> l.len()
            >= 2)
}

/// No line makes a list of fewer than two fragments.
pub proof fn lemma_line_keeps_lists(st: EntryState, line: Seq<u8>)
    requires
        lists_hold_two(st.entries),
    ensures
        lists_hold_two(apply_line(st, line).entries),
{
}

/// No sequence of lines makes a list of fewer than two fragments.
pub proof fn lemma_lines_keep_lists(st: EntryState, lines: Seq<Seq<u8>>)
    requires
        lists_hold_two(st.entries),
    ensures
        lists_hold_two(apply_lines(st, lines).entries),
    decreases lines.len(),
{
    if lines.len() > 0 {
        lemma_lines_keep_lists(st, lines.drop_last());
        lemma_line_keeps_lists(apply_lines(st, lines.drop_last()), lines.last());
    }
}

/// In a decoded body a binary value that was continued is a list of at
/// least two fragments; one that was not stays a single binary value.
pub proof fn lemma_decoded_lists_hold_two(body: Seq<u8>)
    ensures
        lists_hold_two(decode_body(body)),
{
    lemma_decode_by_lines(body);
    lemma_lines_keep_lists(initial_state(), split_lines(Seq::empty(), body, 0));
}

} // verus!
