//! What holds of the decoder and of the log, whatever the stream carries.

use vstd::prelude::*;

use crate::output::{
    decode_from, decoded, first_position, followed_by, holds_bar, is_bar, is_first_position,
    lemma_first_position, lemma_first_position_exists, lemma_record_all_keeps,
    lemma_upsert_keeps, message_end, message_entries, message_text, payload_at, payload_end,
    progress_tag, record, record_all, text_entries, texts_under_zero, upsert, well_formed,
    without_newline, DecodeError, Payload,
};
use crate::protocol::{
    decimal_text, lemma_decimal_text, lemma_identity_round_trip, lemma_split_marker,
    lemma_split_plain, lemma_split_prefix, marker_free, split_fields, MAGIC,
};

verus! {

/// Decoding from a position looks at no field before it: two field
/// sequences that agree from a position on decode alike from there.
pub proof fn lemma_decode_shift(f: Seq<Seq<char>>, g: Seq<Seq<char>>, shift: int, i: int)
    requires
        0 <= i,
        0 <= shift,
        f.len() == g.len() + shift,
        forall|j: int| i <= j < g.len() ==> f[j + shift] == g[j],
    ensures
        decode_from(f, i + shift) == decode_from(g, i),
    decreases g.len() - i,
{
    if i < g.len() {
        assert(payload_at(f, i + shift + 1) == payload_at(g, i + 1));
        assert(payload_end(f, i + shift + 1) == payload_end(g, i + 1) + shift);
        let end = message_end(g, i);
        if i < end < g.len() {
            lemma_decode_shift(f, g, shift, end + 1);
        }
    }
}

/// The fields of a progress-bar message that stands between text without a
/// marker and the rest of a chunk.
proof fn lemma_message_fields(
    text: Seq<char>,
    id: u64,
    description: Seq<char>,
    value: Seq<char>,
    rest: Seq<char>,
)
    requires
        marker_free(text),
        marker_free(description),
        marker_free(value),
    ensures
        split_fields(rest).len() >= 1,
        split_fields(text + message_text(id, description, value) + rest) == seq![
            text,
            decimal_text(id as nat),
            progress_tag(),
            description,
            value,
        ] + split_fields(rest).update(0, seq!['\n'] + split_fields(rest)[0]),
{
    let m = seq![MAGIC];
    let number = decimal_text(id as nat);
    let tail = seq!['\n'] + rest;
    let to_number = text + m + number;
    let to_tag = to_number + m + progress_tag();
    let to_description = to_tag + m + description;
    let to_value = to_description + m + value;
    lemma_decimal_text(id as nat);
    lemma_tag_marker_free();
    lemma_split_plain(text);
    lemma_split_plain(number);
    lemma_split_plain(progress_tag());
    lemma_split_plain(description);
    lemma_split_plain(value);
    lemma_split_marker(text, number);
    lemma_split_marker(to_number, progress_tag());
    lemma_split_marker(to_tag, description);
    lemma_split_marker(to_description, value);
    lemma_split_marker(to_value, tail);
    lemma_split_prefix(seq!['\n'], rest);
    assert(split_fields(to_value) == seq![text, number, progress_tag(), description, value]);
    assert(text + message_text(id, description, value) + rest == to_value + m + tail);
}

/// The progress tag holds no marker.
proof fn lemma_tag_marker_free()
    ensures
        marker_free(progress_tag()),
        progress_tag().len() == 12,
{
    reveal_strlit("progress-bar");
}

/// `followed_by` puts entries in front one group after the other.
proof fn lemma_followed_by_twice(
    a: Seq<(u64, Payload)>,
    b: Seq<(u64, Payload)>,
    rest: Result<Seq<(u64, Payload)>, DecodeError>,
)
    ensures
        followed_by(a, followed_by(b, rest)) == followed_by(a + b, rest),
{
    match rest {
        Ok(entries) => {
            assert(a + (b + entries) == (a + b) + entries);
        },
        Err(_) => {},
    }
}

/// A message decodes by itself, whatever stands round it: text without a
/// marker, then a progress-bar message, then any chunk, decode to the entry
/// of the text, the entry of the message, and the entries of the chunk, in
/// that order.
pub proof fn lemma_message_then_chunk(
    text: Seq<char>,
    id: u64,
    description: Seq<char>,
    value: Seq<char>,
    rest: Seq<char>,
)
    requires
        marker_free(text),
        marker_free(description),
        marker_free(value),
    ensures
        decoded(text + message_text(id, description, value) + rest) == followed_by(
            text_entries(text) + seq![(id, Payload::ProgressBar(description, value))],
            decoded(rest),
        ),
{
    let whole = text + message_text(id, description, value) + rest;
    let f = split_fields(whole);
    let g = split_fields(rest);
    let entry = seq![(id, Payload::ProgressBar(description, value))];
    lemma_message_fields(text, id, description, value, rest);
    lemma_identity_round_trip(id);
    assert(f.len() == g.len() + 5);
    assert(without_newline(f[5]) == g[0]);
    assert forall|j: int| 1 <= j < g.len() implies f[j + 5] == g[j] by {}
    lemma_decode_shift(f, g, 5, 1);
    assert(message_entries(f, 1) == Ok::<Seq<(u64, Payload)>, DecodeError>(entry));
    assert(message_end(f, 1) == 5);
    lemma_followed_by_twice(entry, text_entries(g[0]), decode_from(g, 1));
    lemma_followed_by_twice(text_entries(text), entry, decoded(rest));
}

/// What goes onto the stream comes back: a progress-bar message decodes to
/// one entry with the identity, the description and the value that went in.
pub proof fn lemma_message_round_trip(id: u64, description: Seq<char>, value: Seq<char>)
    requires
        marker_free(description),
        marker_free(value),
    ensures
        decoded(message_text(id, description, value)) == Ok::<Seq<(u64, Payload)>, DecodeError>(
            seq![(id, Payload::ProgressBar(description, value))],
        ),
{
    let empty = Seq::<char>::empty();
    lemma_message_then_chunk(empty, id, description, value, empty);
    assert(empty + message_text(id, description, value) + empty == message_text(
        id,
        description,
        value,
    ));
}

/// Text, a message and more text decode to three entries in that order.
pub proof fn lemma_interleaving(
    before: Seq<char>,
    id: u64,
    description: Seq<char>,
    value: Seq<char>,
    after: Seq<char>,
)
    requires
        marker_free(before),
        marker_free(description),
        marker_free(value),
        marker_free(after),
    ensures
        decoded(before + message_text(id, description, value) + after) == Ok::<
            Seq<(u64, Payload)>,
            DecodeError,
        >(
            text_entries(before) + seq![(id, Payload::ProgressBar(description, value))]
                + text_entries(after),
        ),
{
    lemma_message_then_chunk(before, id, description, value, after);
    lemma_plain_text(after);
}

/// Text without a marker passes through: it decodes to itself as one text
/// entry, or to nothing where it is empty.
pub proof fn lemma_plain_text(chunk: Seq<char>)
    requires
        marker_free(chunk),
    ensures
        decoded(chunk) == Ok::<Seq<(u64, Payload)>, DecodeError>(text_entries(chunk)),
{
    lemma_split_plain(chunk);
}

/// A chunk of text without a marker adds exactly one entry to a log: the
/// chunk itself, as text, at the end.
pub proof fn lemma_plain_text_appended(log: Seq<(u64, Payload)>, chunk: Seq<char>)
    requires
        marker_free(chunk),
        chunk.len() > 0,
    ensures
        decoded(chunk) is Ok,
        record_all(log, decoded(chunk)->Ok_0) == log.push((0u64, Payload::Text(chunk))),
{
    lemma_plain_text(chunk);
    let entries = text_entries(chunk);
    assert(record_all(log, entries.drop_last()) == log);
}

/// A second update under one identity takes the place of the first: the log
/// is as if only the second had come, it has grown by no entry, and the
/// progress bar stands where the first update put it.
pub proof fn lemma_update_twice(
    log: Seq<(u64, Payload)>,
    id: u64,
    first: (Seq<char>, Seq<char>),
    second: (Seq<char>, Seq<char>),
)
    ensures
        upsert(upsert(log, id, first.0, first.1), id, second.0, second.1) == upsert(
            log,
            id,
            second.0,
            second.1,
        ),
        upsert(upsert(log, id, first.0, first.1), id, second.0, second.1).len() == upsert(
            log,
            id,
            first.0,
            first.1,
        ).len(),
        is_first_position(
            upsert(log, id, first.0, first.1),
            id,
            first_position(upsert(log, id, first.0, first.1), id),
        ),
        first_position(upsert(upsert(log, id, first.0, first.1), id, second.0, second.1), id)
            == first_position(upsert(log, id, first.0, first.1), id),
        upsert(upsert(log, id, first.0, first.1), id, second.0, second.1)[first_position(
            upsert(log, id, first.0, first.1),
            id,
        )] == (id, Payload::ProgressBar(second.0, second.1)),
{
    let once = upsert(log, id, first.0, first.1);
    let k = if holds_bar(log, id) {
        lemma_first_position_exists(log, id);
        first_position(log, id)
    } else {
        log.len() as int
    };
    lemma_first_position(once, id, k);
    let twice = upsert(once, id, second.0, second.1);
    lemma_first_position(twice, id, k);
}

/// In a log that keeps its invariant, an identity has one progress bar
/// after an update, and that progress bar shows the update. An identity
/// other than zero has no other entry at all.
pub proof fn lemma_one_bar_per_identity(
    log: Seq<(u64, Payload)>,
    id: u64,
    description: Seq<char>,
    value: Seq<char>,
)
    requires
        well_formed(log),
    ensures
        forall|j: int|
            0 <= j < upsert(log, id, description, value).len() && is_bar(
                #[trigger] upsert(log, id, description, value)[j],
                id,
            ) ==> j == first_position(upsert(log, id, description, value), id) && upsert(
                log,
                id,
                description,
                value,
            )[j] == (id, Payload::ProgressBar(description, value)),
        id != 0 ==> forall|j: int|
            0 <= j < upsert(log, id, description, value).len() && (#[trigger] upsert(
                log,
                id,
                description,
                value,
            )[j]).0 == id ==> j == first_position(upsert(log, id, description, value), id),
{
    let after = upsert(log, id, description, value);
    lemma_upsert_keeps(log, id, description, value);
    let k = if holds_bar(log, id) {
        lemma_first_position_exists(log, id);
        first_position(log, id)
    } else {
        log.len() as int
    };
    lemma_first_position(after, id, k);
    assert forall|j: int| 0 <= j < after.len() && is_bar(#[trigger] after[j], id) implies j
        == k by {
        if j < k {
            assert(after[j].1 is ProgressBar && after[k].1 is ProgressBar);
        }
        if k < j {
            assert(after[k].1 is ProgressBar && after[j].1 is ProgressBar);
        }
    }
    if id != 0 {
        assert forall|j: int| 0 <= j < after.len() && (#[trigger] after[j]).0 == id implies j
            == k by {
            assert(is_bar(after[j], id));
        }
    }
}

/// Two messages under one identity, one behind the other, leave one update
/// in the log: that of the second message.
pub proof fn lemma_same_identity_twice(
    log: Seq<(u64, Payload)>,
    id: u64,
    first: (Seq<char>, Seq<char>),
    second: (Seq<char>, Seq<char>),
)
    requires
        marker_free(first.0),
        marker_free(first.1),
        marker_free(second.0),
        marker_free(second.1),
    ensures
        decoded(message_text(id, first.0, first.1) + message_text(id, second.0, second.1)) == Ok::<
            Seq<(u64, Payload)>,
            DecodeError,
        >(
            seq![
                (id, Payload::ProgressBar(first.0, first.1)),
                (id, Payload::ProgressBar(second.0, second.1)),
            ],
        ),
        record_all(
            log,
            seq![
                (id, Payload::ProgressBar(first.0, first.1)),
                (id, Payload::ProgressBar(second.0, second.1)),
            ],
        ) == upsert(log, id, second.0, second.1),
{
    let empty = Seq::<char>::empty();
    let one = (id, Payload::ProgressBar(first.0, first.1));
    let two = (id, Payload::ProgressBar(second.0, second.1));
    let both = seq![one, two];
    lemma_message_then_chunk(empty, id, first.0, first.1, message_text(id, second.0, second.1));
    lemma_message_round_trip(id, second.0, second.1);
    assert(text_entries(empty) + seq![one] + seq![two] == both);
    assert(both.drop_last() == seq![one]);
    assert(record_all(log, seq![one].drop_last()) == log);
    assert(record_all(log, seq![one]) == upsert(log, id, first.0, first.1));
    lemma_update_twice(log, id, first, second);
}

/// A message that breaks off before its value is no error: it decodes to a
/// progress bar with an empty value. One that breaks off before its
/// description decodes to a progress bar with neither.
pub proof fn lemma_missing_value(id: u64, description: Seq<char>)
    requires
        marker_free(description),
    ensures
        decoded(
            seq![MAGIC] + decimal_text(id as nat) + seq![MAGIC] + progress_tag() + seq![MAGIC]
                + description,
        ) == Ok::<Seq<(u64, Payload)>, DecodeError>(
            seq![(id, Payload::ProgressBar(description, Seq::empty()))],
        ),
        decoded(seq![MAGIC] + decimal_text(id as nat) + seq![MAGIC] + progress_tag()) == Ok::<
            Seq<(u64, Payload)>,
            DecodeError,
        >(seq![(id, Payload::ProgressBar(Seq::empty(), Seq::empty()))]),
{
    let m = seq![MAGIC];
    let empty = Seq::<char>::empty();
    let number = decimal_text(id as nat);
    let to_number = empty + m + number;
    let to_tag = to_number + m + progress_tag();
    let to_description = to_tag + m + description;
    lemma_decimal_text(id as nat);
    lemma_identity_round_trip(id);
    lemma_tag_marker_free();
    lemma_split_plain(empty);
    lemma_split_plain(number);
    lemma_split_plain(progress_tag());
    lemma_split_plain(description);
    lemma_split_marker(empty, number);
    lemma_split_marker(to_number, progress_tag());
    lemma_split_marker(to_tag, description);
    assert(split_fields(to_tag) == seq![empty, number, progress_tag()]);
    assert(split_fields(to_description) == seq![empty, number, progress_tag(), description]);
}

/// Whether every text among `entries` holds at least one character.
pub open spec fn texts_hold_text(entries: Seq<(u64, Payload)>) -> bool {
    forall|k: int|
        0 <= k < entries.len() ==> match (#[trigger] entries[k]).1 {
            Payload::Text(text) => text.len() > 0,
            Payload::ProgressBar(_, _) => true,
        }
}

/// The text entries that decoding from a position gives hold text and stand
/// under identity zero.
proof fn lemma_decode_from_texts(f: Seq<Seq<char>>, i: int)
    ensures
        decode_from(f, i) is Ok ==> texts_hold_text(decode_from(f, i)->Ok_0) && texts_under_zero(
            decode_from(f, i)->Ok_0,
        ),
    decreases f.len() - i,
{
    if 0 <= i < f.len() && message_entries(f, i) is Ok {
        let end = message_end(f, i);
        if i < end < f.len() {
            lemma_decode_from_texts(f, end + 1);
        }
    }
}

/// The text entries that a chunk decodes to hold text and stand under
/// identity zero: decoding never gives an empty text, nor a text under an
/// identity of its own.
pub proof fn lemma_decoded_texts(chunk: Seq<char>)
    ensures
        decoded(chunk) is Ok ==> texts_hold_text(decoded(chunk)->Ok_0) && texts_under_zero(
            decoded(chunk)->Ok_0,
        ),
{
    lemma_decode_from_texts(split_fields(chunk), 1);
}

/// Whether one of `entries` is an update for identity `id`.
pub open spec fn updates(entries: Seq<(u64, Payload)>, id: u64) -> bool {
    exists|k: int| 0 <= k < entries.len() && is_bar(#[trigger] entries[k], id)
}

/// One decoded entry changes a progress bar only where it is an update under
/// the identity of that progress bar.
proof fn lemma_record_leaves_others(log: Seq<(u64, Payload)>, entry: (u64, Payload))
    ensures
        forall|i: int|
            0 <= i < log.len() && !is_bar(entry, log[i].0) ==> (#[trigger] record(log, entry)[i])
                == log[i],
{
    if entry.1 is ProgressBar && holds_bar(log, entry.0) {
        lemma_first_position_exists(log, entry.0);
    }
}

/// The log only grows: decoding deletes nothing and moves nothing, each
/// position keeps its identity, no text is ever rewritten, and a progress
/// bar changes only through an update under its identity.
pub proof fn lemma_log_only_grows(log: Seq<(u64, Payload)>, entries: Seq<(u64, Payload)>)
    ensures
        record_all(log, entries).len() >= log.len(),
        forall|i: int|
            0 <= i < log.len() ==> (#[trigger] record_all(log, entries)[i]).0 == log[i].0,
        forall|i: int|
            0 <= i < log.len() && log[i].1 is Text ==> (#[trigger] record_all(log, entries)[i])
                == log[i],
        forall|i: int|
            0 <= i < log.len() && !updates(entries, log[i].0) ==> (#[trigger] record_all(
                log,
                entries,
            )[i]) == log[i],
    decreases entries.len(),
{
    lemma_record_all_keeps(log, entries);
    if entries.len() > 0 {
        let earlier = entries.drop_last();
        let before = record_all(log, earlier);
        lemma_log_only_grows(log, earlier);
        lemma_record_leaves_others(before, entries.last());
        assert forall|i: int| 0 <= i < log.len() && !updates(entries, log[i].0) implies (
        #[trigger] record_all(log, entries)[i]) == log[i] by {
            if updates(earlier, log[i].0) {
                let k = choose|k: int| 0 <= k < earlier.len() && is_bar(
                    #[trigger] earlier[k],
                    log[i].0,
                );
                assert(entries[k] == earlier[k]);
            }
            if is_bar(entries.last(), log[i].0) {
                assert(entries[entries.len() - 1] == entries.last());
            }
            assert(before[i].0 == log[i].0);
        }
    }
}

} // verus!
