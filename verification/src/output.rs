//! The entry log of a session and the decoder that fills it from the
//! text stream of the running program.

use std::collections::hash_map::DefaultHasher;
use std::hash::{Hash, Hasher};
use vstd::prelude::*;
use vstd::std_specs::hash::DefaultHasherAdditionalSpecFns;
use vstd::string::StringExecFns;

use crate::format::{format_output, tokens_of_text, Token, TokenView};
use crate::protocol::{
    decimal_text, fields, framed, identity_of, identity_text, lemma_split_fields_nonempty, marked,
    parse_identity, send_message, split_fields, MAGIC,
};

verus! {

/// What one entry of the log shows.
#[derive(Debug, Clone, PartialEq, Eq)]
pub enum OutputType {
    /// Ordinary output of the program.
    Text(String),
    /// A progress bar: its description, and its value as the decimal text
    /// that travelled on the stream.
    ProgressBar(String, String),
}

/// The mathematical content of an [`OutputType`].
pub enum Payload {
    Text(Seq<char>),
    ProgressBar(Seq<char>, Seq<char>),
}

impl View for OutputType {
    type V = Payload;

    open spec fn view(&self) -> Payload {
        match self {
            OutputType::Text(text) => Payload::Text(text@),
            OutputType::ProgressBar(description, value) => Payload::ProgressBar(
                description@,
                value@,
            ),
        }
    }
}

impl DeepView for OutputType {
    type V = Payload;

    open spec fn deep_view(&self) -> Payload {
        self@
    }
}

/// What the display draws for one entry of the log.
#[derive(Debug, Clone, PartialEq, Eq)]
pub enum Widget {
    /// A row of tokens, laid out from left to right with nothing between
    /// them.
    Row(Vec<Token>),
    /// A progress bar, known to the display by its identity.
    ProgressBar { identity: u64, description: String, value: String },
}

/// The mathematical content of a [`Widget`].
pub enum WidgetView {
    Row(Seq<TokenView>),
    ProgressBar { identity: u64, description: Seq<char>, value: Seq<char> },
}

impl View for Widget {
    type V = WidgetView;

    open spec fn view(&self) -> WidgetView {
        match self {
            Widget::Row(tokens) => WidgetView::Row(tokens.deep_view()),
            Widget::ProgressBar { identity, description, value } => WidgetView::ProgressBar {
                identity: *identity,
                description: description@,
                value: value@,
            },
        }
    }
}

impl DeepView for Widget {
    type V = WidgetView;

    open spec fn deep_view(&self) -> WidgetView {
        self@
    }
}

/// The widget that shows an entry: text becomes a row of its tokens, a
/// progress bar keeps its identity, description and value.
pub open spec fn widget_of(entry: (u64, Payload)) -> WidgetView {
    match entry.1 {
        Payload::Text(text) => WidgetView::Row(tokens_of_text(text)),
        Payload::ProgressBar(description, value) => WidgetView::ProgressBar {
            identity: entry.0,
            description,
            value,
        },
    }
}

/// The widgets that show a log: one for each entry, in the order of the log.
pub open spec fn widgets_of(log: Seq<(u64, Payload)>) -> Seq<WidgetView> {
    Seq::new(log.len(), |i: int| widget_of(log[i]))
}

/// Why a chunk could not be decoded.
#[derive(Debug, Clone, Copy, PartialEq, Eq, Structural)]
pub enum DecodeError {
    /// A message with a valid identity carries a tag that this decoder does
    /// not know.
    UnknownTag,
}

/// The tag of a progress-bar message.
pub open spec fn progress_tag() -> Seq<char> {
    "progress-bar"@
}

/// The field at position `i`, or the empty text where there is none.
pub open spec fn field_or_empty(f: Seq<Seq<char>>, i: int) -> Seq<char> {
    if 0 <= i < f.len() {
        f[i]
    } else {
        Seq::empty()
    }
}

/// Whether the field at position `at` can be read as a tag: it is the
/// progress tag, or there is no field at `at`.
pub open spec fn known_tag(f: Seq<Seq<char>>, at: int) -> bool {
    0 <= at < f.len() ==> f[at] == progress_tag()
}

/// The payload that the fields from position `at` on spell out, for a
/// message whose identity field has been read already: a progress bar where
/// the progress tag stands at `at`, none where no field is left. A
/// description or a value that is missing is empty.
pub open spec fn payload_at(f: Seq<Seq<char>>, at: int) -> Option<Payload> {
    if 0 <= at < f.len() && f[at] == progress_tag() {
        Some(Payload::ProgressBar(field_or_empty(f, at + 1), field_or_empty(f, at + 2)))
    } else {
        None
    }
}

/// The position behind the payload that starts at `at`.
pub open spec fn payload_end(f: Seq<Seq<char>>, at: int) -> int {
    if 0 <= at < f.len() && f[at] == progress_tag() {
        if at + 3 <= f.len() { at + 3 } else { f.len() as int }
    } else {
        at
    }
}

/// A progress-bar message as it travels on the stream: the identity in
/// decimal, the progress tag, the description and the value, each behind a
/// marker, then a last marker and a line feed.
pub open spec fn message_text(id: u64, description: Seq<char>, value: Seq<char>) -> Seq<char> {
    seq![MAGIC] + decimal_text(id as nat) + seq![MAGIC] + progress_tag() + seq![MAGIC]
        + description + seq![MAGIC] + value + seq![MAGIC] + seq!['\n']
}

/// What a payload looks like on the stream: text as it is, a progress bar as
/// a message under identity `id`.
pub open spec fn wire_text(payload: Payload, id: u64) -> Seq<char> {
    match payload {
        Payload::Text(text) => text,
        Payload::ProgressBar(description, value) => message_text(id, description, value),
    }
}

/// A progress-bar message is the frame of its four fields.
pub proof fn lemma_message_framed(id: u64, description: Seq<char>, value: Seq<char>)
    ensures
        message_text(id, description, value) == framed(
            seq![decimal_text(id as nat), progress_tag(), description, value],
        ),
{
    let four = seq![decimal_text(id as nat), progress_tag(), description, value];
    let three = seq![decimal_text(id as nat), progress_tag(), description];
    let two = seq![decimal_text(id as nat), progress_tag()];
    let one = seq![decimal_text(id as nat)];
    assert(four.drop_last() == three);
    assert(three.drop_last() == two);
    assert(two.drop_last() == one);
    assert(marked(one.drop_last()) == Seq::<char>::empty());
    assert(marked(two) == marked(one) + seq![MAGIC] + progress_tag());
    assert(marked(four) == marked(three) + seq![MAGIC] + value);
}

impl OutputType {
    /// The text that puts this payload on the stream under identity `id`.
    pub fn send(self, id: u64) -> (wire: String)
        ensures
            wire@ == wire_text(self@, id),
    {
        match self {
            OutputType::Text(text) => text,
            OutputType::ProgressBar(description, value) => {
                let number = identity_text(id);
                let mut data: Vec<&str> = Vec::new();
                data.push(number.as_str());
                data.push("progress-bar");
                data.push(description.as_str());
                data.push(value.as_str());
                proof {
                    lemma_message_framed(id, description@, value@);
                    assert(crate::protocol::texts_of(data@) == seq![
                        decimal_text(id as nat),
                        progress_tag(),
                        description@,
                        value@,
                    ]);
                }
                send_message(data.as_slice())
            },
        }
    }

    /// Whether the field at position `at` can be read as a tag: whether
    /// [`OutputType::parse`] may be called there.
    pub fn knows_tag(fields: &Vec<String>, at: usize) -> (known: bool)
        ensures
            known == known_tag(fields.deep_view(), at as int),
    {
        if at >= fields.len() {
            return true;
        }
        let tag = String::from_str("progress-bar");
        fields[at] == tag
    }

    /// Reads the payload of a message from `fields`, starting at `*at`, and
    /// moves `*at` behind the fields that it took. The tag at `*at` must be
    /// known: a message of an unknown kind cannot be read.
    pub fn parse(fields: &Vec<String>, at: &mut usize) -> (payload: Option<OutputType>)
        requires
            known_tag(fields.deep_view(), *old(at) as int),
        ensures
            payload.deep_view() == payload_at(fields.deep_view(), *old(at) as int),
            *final(at) == payload_end(fields.deep_view(), *old(at) as int),
    {
        if *at >= fields.len() {
            return None;
        }
        *at = *at + 1;
        let description = if *at < fields.len() {
            *at = *at + 1;
            fields[*at - 1].clone()
        } else {
            String::new()
        };
        let value = if *at < fields.len() {
            *at = *at + 1;
            fields[*at - 1].clone()
        } else {
            String::new()
        };
        Some(OutputType::ProgressBar(description, value))
    }
}

/// `s` without the line feed that ends a message, where `s` starts with one.
pub open spec fn without_newline(s: Seq<char>) -> Seq<char> {
    if s.len() > 0 && s[0] == '\n' {
        s.skip(1)
    } else {
        s
    }
}

/// The entries that a stretch of plain text adds: one text entry with
/// identity zero, or none where the text is empty.
pub open spec fn text_entries(s: Seq<char>) -> Seq<(u64, Payload)> {
    if s.len() == 0 {
        Seq::empty()
    } else {
        seq![(0u64, Payload::Text(s))]
    }
}

/// The entries of the message whose identity field stands at position `i`:
/// none where the field denotes no identity or nothing follows it, and an
/// error where an identity is followed by a tag that is not known.
pub open spec fn message_entries(f: Seq<Seq<char>>, i: int) -> Result<
    Seq<(u64, Payload)>,
    DecodeError,
> {
    match identity_of(f[i]) {
        Some(id) => if !known_tag(f, i + 1) {
            Err(DecodeError::UnknownTag)
        } else {
            match payload_at(f, i + 1) {
                Some(payload) => Ok(seq![(id, payload)]),
                None => Ok(Seq::empty()),
            }
        },
        None => Ok(Seq::empty()),
    }
}

/// The position of the text that trails the message at position `i`.
pub open spec fn message_end(f: Seq<Seq<char>>, i: int) -> int {
    if identity_of(f[i]) is Some {
        payload_end(f, i + 1)
    } else {
        i + 1
    }
}

/// `head` in front of the entries of `rest`, or the error of `rest`.
pub open spec fn followed_by(
    head: Seq<(u64, Payload)>,
    rest: Result<Seq<(u64, Payload)>, DecodeError>,
) -> Result<Seq<(u64, Payload)>, DecodeError> {
    match rest {
        Ok(entries) => Ok(head + entries),
        Err(error) => Err(error),
    }
}

/// The entries that the fields from position `i` on decode to, where a
/// message starts at `i`: the message, then the text that trails it with
/// its line feed taken off, then the messages that follow.
pub open spec fn decode_from(f: Seq<Seq<char>>, i: int) -> Result<Seq<(u64, Payload)>, DecodeError>
    decreases f.len() - i,
{
    if i < 0 || i >= f.len() {
        Ok(Seq::empty())
    } else {
        match message_entries(f, i) {
            Err(error) => Err(error),
            Ok(message) => {
                let end = message_end(f, i);
                if i < end < f.len() {
                    followed_by(
                        message + text_entries(without_newline(f[end])),
                        decode_from(f, end + 1),
                    )
                } else {
                    Ok(message)
                }
            },
        }
    }
}

/// The entries that a chunk decodes to, in the order of the stream, or the
/// error that stops the decoding.
pub open spec fn decoded(chunk: Seq<char>) -> Result<Seq<(u64, Payload)>, DecodeError> {
    let f = split_fields(chunk);
    followed_by(text_entries(f[0]), decode_from(f, 1))
}

/// The mathematical content of what [`decode`] returns.
pub open spec fn decode_view(entries: Result<Vec<(u64, OutputType)>, DecodeError>) -> Result<
    Seq<(u64, Payload)>,
    DecodeError,
> {
    match entries {
        Ok(found) => Ok(found.deep_view()),
        Err(error) => Err(error),
    }
}

/// Copies `text` without the line feed that ends a message.
pub fn strip_newline(text: &str) -> (rest: String)
    ensures
        rest@ == without_newline(text@),
{
    let mut rest = String::new();
    let mut first = true;
    for c in it: text.chars()
        invariant
            it.seq() == text@,
            first <==> it.index() == 0,
            rest@ == without_newline(text@.take(it.index() as int)),
    {
        if !(first && c == '\n') {
            rest.push(c);
        }
        first = false;
    }
    rest
}

/// Decodes one chunk of the stream into the entries that it holds, in the
/// order of the stream.
pub fn decode(chunk: &str) -> (entries: Result<Vec<(u64, OutputType)>, DecodeError>)
    ensures
        decode_view(entries) == decoded(chunk@),
{
    let fs = fields(chunk);
    let ghost f = fs.deep_view();
    proof {
        lemma_split_fields_nonempty(chunk@);
    }
    let mut out: Vec<(u64, OutputType)> = Vec::new();
    if !fs[0].as_str().is_empty() {
        out.push((0, OutputType::Text(fs[0].clone())));
    }
    assert(out.deep_view() == text_entries(f[0]));
    let mut i: usize = 1;
    while i < fs.len()
        invariant
            1 <= i,
            f == fs.deep_view(),
            decoded(chunk@) == followed_by(out.deep_view(), decode_from(f, i as int)),
            f == split_fields(chunk@),
        decreases fs.len() - i,
    {
        let ghost start = i as int;
        let ghost before = out.deep_view();
        let identity = parse_identity(fs[i].as_str());
        i = i + 1;
        if let Some(id) = identity {
            if !OutputType::knows_tag(&fs, i) {
                return Err(DecodeError::UnknownTag);
            }
            if let Some(payload) = OutputType::parse(&fs, &mut i) {
                out.push((id, payload));
            }
        }
        assert(out.deep_view() == before + message_entries(f, start)->Ok_0);
        if i < fs.len() {
            let text = strip_newline(fs[i].as_str());
            i = i + 1;
            if !text.as_str().is_empty() {
                out.push((0, OutputType::Text(text)));
            }
            proof {
                let end = message_end(f, start);
                let trailing = text_entries(without_newline(f[end]));
                assert(out.deep_view() == before + (message_entries(f, start)->Ok_0 + trailing));
                match decode_from(f, end + 1) {
                    Ok(rest) => {
                        assert(before + (message_entries(f, start)->Ok_0 + trailing + rest)
                            == before + (message_entries(f, start)->Ok_0 + trailing) + rest);
                    },
                    Err(_) => {},
                }
            }
        }
    }
    Ok(out)
}

/// Whether `entry` is a progress bar under identity `id`.
pub open spec fn is_bar(entry: (u64, Payload), id: u64) -> bool {
    entry.1 is ProgressBar && entry.0 == id
}

/// Whether `k` is the first position of `log` that holds a progress bar
/// under identity `id`.
pub open spec fn is_first_position(log: Seq<(u64, Payload)>, id: u64, k: int) -> bool {
    &&& 0 <= k < log.len()
    &&& is_bar(log[k], id)
    &&& forall|j: int| 0 <= j < k ==> !is_bar(#[trigger] log[j], id)
}

/// Whether `log` holds a progress bar under identity `id`.
pub open spec fn holds_bar(log: Seq<(u64, Payload)>, id: u64) -> bool {
    exists|k: int| 0 <= k < log.len() && is_bar(#[trigger] log[k], id)
}

/// The first position of `log` that holds a progress bar under identity
/// `id`, where there is one.
pub open spec fn first_position(log: Seq<(u64, Payload)>, id: u64) -> int {
    choose|k: int| is_first_position(log, id, k)
}

/// `log` after an update of the progress bar under identity `id`: the first
/// progress bar with that identity shows the new description and value and
/// keeps its place, or, where the log holds none, a new progress bar stands
/// at the end. An update looks at progress bars only: text is never found
/// and never replaced, whatever its identity.
pub open spec fn upsert(
    log: Seq<(u64, Payload)>,
    id: u64,
    description: Seq<char>,
    value: Seq<char>,
) -> Seq<(u64, Payload)> {
    if holds_bar(log, id) {
        log.update(first_position(log, id), (id, Payload::ProgressBar(description, value)))
    } else {
        log.push((id, Payload::ProgressBar(description, value)))
    }
}

/// `log` after one decoded entry: text is always added at the end, under
/// identity zero, and a progress bar updates the progress bar of its
/// identity.
pub open spec fn record(log: Seq<(u64, Payload)>, entry: (u64, Payload)) -> Seq<(u64, Payload)> {
    match entry.1 {
        Payload::Text(_) => log.push((0u64, entry.1)),
        Payload::ProgressBar(description, value) => upsert(log, entry.0, description, value),
    }
}

/// `log` after the decoded entries `entries`, taken in order.
pub open spec fn record_all(log: Seq<(u64, Payload)>, entries: Seq<(u64, Payload)>) -> Seq<
    (u64, Payload),
>
    decreases entries.len(),
{
    if entries.len() == 0 {
        log
    } else {
        record(record_all(log, entries.drop_last()), entries.last())
    }
}

/// Whether every text of `log` stands under identity zero.
pub open spec fn texts_under_zero(log: Seq<(u64, Payload)>) -> bool {
    forall|k: int| 0 <= k < log.len() && (#[trigger] log[k]).1 is Text ==> log[k].0 == 0
}

/// Whether no two progress bars of `log` share an identity.
pub open spec fn bars_unique(log: Seq<(u64, Payload)>) -> bool {
    forall|i: int, j: int|
        0 <= i < j < log.len() && (#[trigger] log[i]).1 is ProgressBar && (
        #[trigger] log[j]).1 is ProgressBar ==> log[i].0 != log[j].0
}

/// Whether no identity but zero occurs twice in `log`.
pub open spec fn identities_unique(log: Seq<(u64, Payload)>) -> bool {
    forall|i: int, j: int|
        0 <= i < j < log.len() && (#[trigger] log[i]).0 == (#[trigger] log[j]).0 ==> log[i].0 == 0
}

/// The invariant of a log: every text stands under identity zero, and no
/// two progress bars share an identity.
pub open spec fn well_formed(log: Seq<(u64, Payload)>) -> bool {
    texts_under_zero(log) && bars_unique(log)
}

/// What `old` and `new` hold of one log, `old` before `new`: nothing was
/// deleted or moved, each position kept its identity, and no text was
/// rewritten.
pub open spec fn grown_from(new: Seq<(u64, Payload)>, old: Seq<(u64, Payload)>) -> bool {
    &&& new.len() >= old.len()
    &&& forall|i: int| 0 <= i < old.len() ==> (#[trigger] new[i]).0 == old[i].0
    &&& forall|i: int| 0 <= i < old.len() && (#[trigger] old[i]).1 is Text ==> new[i] == old[i]
}

/// In a log that keeps its invariant, no identity but zero occurs twice.
pub proof fn lemma_identities_unique(log: Seq<(u64, Payload)>)
    requires
        well_formed(log),
    ensures
        identities_unique(log),
{
    assert forall|i: int, j: int|
        0 <= i < j < log.len() && (#[trigger] log[i]).0 == (#[trigger] log[j]).0 implies log[i].0
        == 0 by {
        if log[i].0 != 0 {
            assert(log[i].1 is ProgressBar);
            assert(log[j].1 is ProgressBar);
        }
    }
}

/// A first position is the only first position.
pub proof fn lemma_first_position(log: Seq<(u64, Payload)>, id: u64, k: int)
    requires
        is_first_position(log, id, k),
    ensures
        holds_bar(log, id),
        first_position(log, id) == k,
{
    let other = first_position(log, id);
    assert(is_first_position(log, id, other));
}

/// A progress bar that stands at a position has a first position at or
/// before it.
proof fn lemma_first_position_upto(log: Seq<(u64, Payload)>, id: u64, k: int)
    requires
        0 <= k < log.len(),
        is_bar(log[k], id),
    ensures
        exists|first: int| first <= k && is_first_position(log, id, first),
    decreases k,
{
    if exists|j: int| 0 <= j < k && is_bar(#[trigger] log[j], id) {
        let j = choose|j: int| 0 <= j < k && is_bar(#[trigger] log[j], id);
        lemma_first_position_upto(log, id, j);
    } else {
        assert(is_first_position(log, id, k));
    }
}

/// Where a log holds a progress bar under an identity, the first position
/// of that identity is a position of the log, holds such a progress bar, and
/// no earlier position does.
pub proof fn lemma_first_position_exists(log: Seq<(u64, Payload)>, id: u64)
    requires
        holds_bar(log, id),
    ensures
        is_first_position(log, id, first_position(log, id)),
{
    let k = choose|k: int| 0 <= k < log.len() && is_bar(#[trigger] log[k], id);
    lemma_first_position_upto(log, id, k);
}

/// An update deletes nothing, moves nothing and rewrites no text, and it
/// keeps the invariant of the log.
pub proof fn lemma_upsert_keeps(
    log: Seq<(u64, Payload)>,
    id: u64,
    description: Seq<char>,
    value: Seq<char>,
)
    ensures
        grown_from(upsert(log, id, description, value), log),
        upsert(log, id, description, value).len() <= log.len() + 1,
        well_formed(log) ==> well_formed(upsert(log, id, description, value)),
{
    if holds_bar(log, id) {
        lemma_first_position_exists(log, id);
    }
}

/// One decoded entry deletes nothing, moves nothing and rewrites no text,
/// and it keeps the invariant of the log.
pub proof fn lemma_record_keeps(log: Seq<(u64, Payload)>, entry: (u64, Payload))
    ensures
        grown_from(record(log, entry), log),
        record(log, entry).len() <= log.len() + 1,
        well_formed(log) ==> well_formed(record(log, entry)),
{
    match entry.1 {
        Payload::Text(_) => {},
        Payload::ProgressBar(description, value) => {
            lemma_upsert_keeps(log, entry.0, description, value);
        },
    }
}

/// Decoded entries delete nothing, move nothing and rewrite no text: the
/// log only grows. They keep the invariant of the log.
pub proof fn lemma_record_all_keeps(log: Seq<(u64, Payload)>, entries: Seq<(u64, Payload)>)
    ensures
        grown_from(record_all(log, entries), log),
        well_formed(log) ==> well_formed(record_all(log, entries)),
    decreases entries.len(),
{
    if entries.len() > 0 {
        lemma_record_all_keeps(log, entries.drop_last());
        lemma_record_keeps(record_all(log, entries.drop_last()), entries.last());
    }
}

/// The log of a session: what the program has put out so far, in the order
/// in which each entry first appeared.
#[derive(Debug)]
pub struct Output(Vec<(u64, OutputType)>);

impl View for Output {
    type V = Seq<(u64, Payload)>;

    closed spec fn view(&self) -> Seq<(u64, Payload)> {
        self.0.deep_view()
    }
}

impl Output {
    /// Whether the log keeps its invariant: every text stands under identity
    /// zero, and no two progress bars share an identity.
    pub open spec fn wf(&self) -> bool {
        well_formed(self@)
    }

    /// An empty log.
    pub fn new() -> (log: Output)
        ensures
            log@ == Seq::<(u64, Payload)>::empty(),
            log.wf(),
    {
        Output(Vec::new())
    }

    /// The entries of the log, oldest first.
    pub fn entries(&self) -> (entries: &Vec<(u64, OutputType)>)
        ensures
            entries.deep_view() == self@,
    {
        &self.0
    }

    /// Shows a progress bar under identity `id`: in place of the first
    /// progress bar with that identity, or at the end where there is none.
    /// Text is never replaced.
    pub fn upsert(&mut self, id: u64, description: String, value: String)
        ensures
            final(self)@ == upsert(old(self)@, id, description@, value@),
            forall|i: int|
                0 <= i < old(self)@.len() && (#[trigger] old(self)@[i]).1 is Text
                    ==> final(self)@[i] == old(self)@[i],
            grown_from(final(self)@, old(self)@),
            old(self).wf() ==> final(self).wf(),
    {
        proof {
            lemma_upsert_keeps(old(self)@, id, description@, value@);
        }
        let mut k: usize = 0;
        while k < self.0.len()
            invariant
                k <= self.0.len(),
                self.0 == old(self).0,
                forall|j: int| 0 <= j < k ==> !is_bar(#[trigger] self.0.deep_view()[j], id),
            decreases self.0.len() - k,
        {
            let found = match &self.0[k].1 {
                OutputType::Text(_) => false,
                OutputType::ProgressBar(_, _) => self.0[k].0 == id,
            };
            if found {
                proof {
                    lemma_first_position(self.0.deep_view(), id, k as int);
                }
                self.0[k] = (id, OutputType::ProgressBar(description, value));
                return ;
            }
            k = k + 1;
        }
        self.0.push((id, OutputType::ProgressBar(description, value)));
    }

    /// Takes one decoded entry into the log: text at the end, under identity
    /// zero, and a progress bar as an update under `id`.
    pub fn record(&mut self, id: u64, payload: OutputType)
        ensures
            final(self)@ == record(old(self)@, (id, payload@)),
            forall|i: int|
                0 <= i < old(self)@.len() && (#[trigger] old(self)@[i]).1 is Text
                    ==> final(self)@[i] == old(self)@[i],
            grown_from(final(self)@, old(self)@),
            old(self).wf() ==> final(self).wf(),
    {
        proof {
            lemma_record_keeps(old(self)@, (id, payload@));
        }
        match payload {
            OutputType::Text(text) => {
                self.0.push((0, OutputType::Text(text)));
            },
            OutputType::ProgressBar(description, value) => {
                self.upsert(id, description, value);
            },
        }
    }

    /// The widgets that the display draws for this log in one frame, in the
    /// order of the log.
    pub fn update(&self) -> (widgets: Vec<Widget>)
        ensures
            widgets.deep_view() == widgets_of(self@),
    {
        let mut widgets: Vec<Widget> = Vec::new();
        let mut i: usize = 0;
        while i < self.0.len()
            invariant
                i <= self.0.len(),
                widgets.deep_view() == widgets_of(self@.take(i as int)),
            decreases self.0.len() - i,
        {
            let widget = match &self.0[i].1 {
                OutputType::Text(text) => Widget::Row(format_output(text.as_str())),
                OutputType::ProgressBar(description, value) => Widget::ProgressBar {
                    identity: self.0[i].0,
                    description: description.clone(),
                    value: value.clone(),
                },
            };
            widgets.push(widget);
            assert(widgets_of(self@.take(i + 1)) == widgets_of(self@.take(i as int)).push(
                widget_of(self@[i as int]),
            ));
            i = i + 1;
        }
        widgets
    }

    /// Decodes one chunk of the stream into the log. Text is added at the
    /// end; a progress bar is shown in place of the progress bar of its
    /// identity, or at the end where the log has none. Nothing is deleted or
    /// moved, and no text is rewritten. A chunk that cannot be decoded leaves
    /// the log as it was.
    pub fn parse(&mut self, chunk: &str) -> (done: Result<(), DecodeError>)
        ensures
            match decoded(chunk@) {
                Ok(entries) => done is Ok && final(self)@ == record_all(old(self)@, entries),
                Err(error) => done == Err::<(), DecodeError>(error) && final(self)@ == old(self)@,
            },
            forall|i: int|
                0 <= i < old(self)@.len() && (#[trigger] old(self)@[i]).1 is Text
                    ==> final(self)@[i] == old(self)@[i],
            grown_from(final(self)@, old(self)@),
            old(self).wf() ==> final(self).wf(),
    {
        match decode(chunk) {
            Err(error) => Err(error),
            Ok(found) => {
                let ghost entries = found.deep_view();
                for entry in it: found
                    invariant
                        it.seq().len() == entries.len(),
                        forall|i: int|
                            0 <= i < entries.len() ==> (#[trigger] it.seq()[i]).deep_view()
                                == entries[i],
                        self@ == record_all(old(self)@, entries.take(it.index() as int)),
                {
                    proof {
                        let k = it.index() as int;
                        assert(entries.take(k + 1).drop_last() == entries.take(k));
                    }
                    self.record(entry.0, entry.1);
                }
                proof {
                    assert(entries.take(entries.len() as int) == entries);
                    lemma_record_all_keeps(old(self)@, entries);
                }
                Ok(())
            },
        }
    }
}

/// `Hash::hash`, for a key of any type, feeds `key` into the hasher `state`.
/// Nothing is claimed of the state that it leaves: what is written is up to
/// the type of the key.
#[verifier::external_body]
fn feed<K: Hash>(key: &K, state: &mut DefaultHasher) {
    key.hash(state)
}

/// What hashing a text writes into a hasher.
pub uninterp spec fn text_writes(key: Seq<char>) -> Seq<Seq<u8>>;

/// `Hash::hash`, for a text, feeds `key` into the hasher `state`. What it
/// writes depends on the text alone, so equal texts written into equal
/// states leave equal states.
#[verifier::external_body]
fn feed_text(key: &str, state: &mut DefaultHasher)
    ensures
        final(state)@ == old(state)@ + text_writes(key@),
{
    key.hash(state)
}

/// The identity of the progress bar that is known by the text `key`: the hash
/// that a fresh default hasher gives to the text.
pub open spec fn text_identity(key: Seq<char>) -> u64 {
    DefaultHasher::spec_finish(text_writes(key))
}

/// The message that shows a progress bar, or updates the one shown before
/// under the same `id`. The identity of the bar is the hash of `id`. The
/// value is the decimal text of a number between 0 and 1.
pub fn progress_bar_with_id<K: Hash>(id: K, description: &str, value: &str) -> (wire: String)
    ensures
        exists|identity: u64| wire@ == message_text(identity, description@, value@),
{
    let mut state = DefaultHasher::new();
    feed(&id, &mut state);
    let identity = state.finish();
    let bar = OutputType::ProgressBar(String::from_str(description), String::from_str(value));
    bar.send(identity)
}

/// The message that shows a progress bar, or updates the one shown before
/// under the same text `id`, whatever its description was. The identity of
/// the bar is the hash of `id`, so one text always names one bar.
pub fn progress_bar_with_text_id(id: &str, description: &str, value: &str) -> (wire: String)
    ensures
        wire@ == message_text(text_identity(id@), description@, value@),
{
    let mut state = DefaultHasher::new();
    feed_text(id, &mut state);
    assert(state@ == text_writes(id@));
    let identity = state.finish();
    let bar = OutputType::ProgressBar(String::from_str(description), String::from_str(value));
    bar.send(identity)
}

/// The message that shows a progress bar, or updates the one shown before
/// under the same description. The identity of the bar is the hash of its
/// description.
pub fn progress_bar(description: &str, value: &str) -> (wire: String)
    ensures
        wire@ == message_text(text_identity(description@), description@, value@),
{
    progress_bar_with_text_id(description, description, value)
}

} // verus!
