//! The wire grammar: the marker character, the split of a chunk into
//! marker-delimited fields, and the decimal form of an identity.

use vstd::prelude::*;
use vstd::string::StringExecFns;

verus! {

/// Unicode non-character that separates the fields of a message. It never
/// occurs in ordinary text.
pub const MAGIC: char = '\u{5FFFE}';

/// `String::push` appends the given character to the end of the string.
pub assume_specification[ String::push ](s: &mut String, c: char)
    ensures
        final(s)@ == old(s)@.push(c),
;

/// The fields of `s`: the maximal marker-free stretches of `s`, in order.
/// A text with `n` markers has `n + 1` fields, some of which may be empty.
pub open spec fn split_fields(s: Seq<char>) -> Seq<Seq<char>>
    decreases s.len(),
{
    if s.len() == 0 {
        seq![Seq::<char>::empty()]
    } else {
        let before = split_fields(s.drop_last());
        if s.last() == MAGIC {
            before.push(Seq::<char>::empty())
        } else {
            before.update(before.len() - 1, before.last().push(s.last()))
        }
    }
}

/// A text has at least one field.
pub proof fn lemma_split_fields_nonempty(s: Seq<char>)
    ensures
        split_fields(s).len() >= 1,
    decreases s.len(),
{
    if s.len() > 0 {
        lemma_split_fields_nonempty(s.drop_last());
    }
}

/// Whether the marker occurs nowhere in `s`.
pub open spec fn marker_free(s: Seq<char>) -> bool {
    forall|i: int| 0 <= i < s.len() ==> #[trigger] s[i] != MAGIC
}

/// A text without a marker is its own single field.
pub proof fn lemma_split_plain(s: Seq<char>)
    requires
        marker_free(s),
    ensures
        split_fields(s) == seq![s],
    decreases s.len(),
{
    if s.len() == 0 {
        assert(s == Seq::<char>::empty());
    } else {
        lemma_split_plain(s.drop_last());
        assert(s.drop_last().push(s.last()) == s);
    }
}

/// A marker between two texts keeps their fields apart: the fields of the
/// whole are those of the first text followed by those of the second.
pub proof fn lemma_split_marker(a: Seq<char>, b: Seq<char>)
    ensures
        split_fields(a + seq![MAGIC] + b) == split_fields(a) + split_fields(b),
    decreases b.len(),
{
    let whole = a + seq![MAGIC] + b;
    if b.len() == 0 {
        assert(whole.drop_last() == a);
    } else {
        lemma_split_marker(a, b.drop_last());
        lemma_split_fields_nonempty(b.drop_last());
        assert(whole.drop_last() == a + seq![MAGIC] + b.drop_last());
    }
}

/// Text without a marker in front of a text only grows its first field.
pub proof fn lemma_split_prefix(a: Seq<char>, b: Seq<char>)
    requires
        marker_free(a),
    ensures
        split_fields(b).len() >= 1,
        split_fields(a + b) == split_fields(b).update(0, a + split_fields(b)[0]),
    decreases b.len(),
{
    lemma_split_fields_nonempty(b);
    if b.len() == 0 {
        lemma_split_plain(a);
    } else {
        lemma_split_prefix(a, b.drop_last());
        assert((a + b).drop_last() == a + b.drop_last());
    }
}

/// No field of a text holds a marker.
pub proof fn lemma_fields_marker_free(s: Seq<char>)
    ensures
        forall|i: int| 0 <= i < split_fields(s).len() ==> marker_free(#[trigger] split_fields(s)[i]),
    decreases s.len(),
{
    if s.len() > 0 {
        lemma_fields_marker_free(s.drop_last());
        lemma_split_fields_nonempty(s.drop_last());
    }
}

/// The fields `f` with a marker between each two of them.
pub open spec fn join_fields(f: Seq<Seq<char>>) -> Seq<char>
    decreases f.len(),
{
    if f.len() == 0 {
        Seq::empty()
    } else if f.len() == 1 {
        f[0]
    } else {
        join_fields(f.drop_last()) + seq![MAGIC] + f.last()
    }
}

/// Splitting loses nothing: the fields of a text, joined by markers, are the
/// text.
pub proof fn lemma_join_split(s: Seq<char>)
    ensures
        join_fields(split_fields(s)) == s,
    decreases s.len(),
{
    if s.len() > 0 {
        lemma_join_split(s.drop_last());
        lemma_split_fields_nonempty(s.drop_last());
        let before = split_fields(s.drop_last());
        if s.last() == MAGIC {
            assert(before.push(Seq::<char>::empty()).drop_last() == before);
        } else if before.len() > 1 {
            let after = before.update(before.len() - 1, before.last().push(s.last()));
            assert(after.drop_last() == before.drop_last());
            assert(join_fields(before.drop_last()) + seq![MAGIC] + before.last().push(s.last())
                == (join_fields(before.drop_last()) + seq![MAGIC] + before.last()).push(s.last()));
        }
    }
}

/// Joining loses nothing: fields without a marker, joined by markers, are
/// the fields of the text that they make.
pub proof fn lemma_split_join(f: Seq<Seq<char>>)
    requires
        f.len() >= 1,
        forall|i: int| 0 <= i < f.len() ==> marker_free(#[trigger] f[i]),
    ensures
        split_fields(join_fields(f)) == f,
    decreases f.len(),
{
    lemma_split_plain(f.last());
    if f.len() > 1 {
        lemma_split_join(f.drop_last());
        lemma_split_marker(join_fields(f.drop_last()), f.last());
        assert(f.drop_last() + seq![f.last()] == f);
    } else {
        assert(seq![f[0]] == f);
    }
}

/// Splits `chunk` on the marker.
pub fn fields(chunk: &str) -> (out: Vec<String>)
    ensures
        out.deep_view() == split_fields(chunk@),
{
    let mut done: Vec<String> = Vec::new();
    let mut current = String::new();
    for c in it: chunk.chars()
        invariant
            it.seq() == chunk@,
            done.deep_view().push(current@) == split_fields(chunk@.take(it.index() as int)),
    {
        proof {
            let k = it.index() as int;
            assert(chunk@.take(k + 1).drop_last() == chunk@.take(k));
        }
        if c == MAGIC {
            done.push(current);
            current = String::new();
        } else {
            current.push(c);
        }
    }
    proof {
        assert(chunk@.take(chunk@.len() as int) == chunk@);
    }
    done.push(current);
    done
}

/// Whether `c` is one of the ten ASCII decimal digits.
pub open spec fn is_digit(c: char) -> bool {
    '0' <= c && c <= '9'
}

/// The number that the digit `c` stands for.
pub open spec fn digit_value(c: char) -> nat {
    (c as int - '0' as int) as nat
}

/// The digit that stands for `d`, for `d` below ten.
pub open spec fn digit_char(d: nat) -> char {
    ('0' as int + d as int) as char
}

/// Whether `s` holds decimal digits only.
pub open spec fn all_digits(s: Seq<char>) -> bool {
    forall|i: int| 0 <= i < s.len() ==> is_digit(#[trigger] s[i])
}

/// The number written by the digits `s`, most significant digit first.
pub open spec fn decimal_value(s: Seq<char>) -> nat
    decreases s.len(),
{
    if s.len() == 0 {
        0
    } else {
        decimal_value(s.drop_last()) * 10 + digit_value(s.last())
    }
}

/// `s` without one leading plus sign.
pub open spec fn unsigned_part(s: Seq<char>) -> Seq<char> {
    if s.len() > 0 && s[0] == '+' {
        s.skip(1)
    } else {
        s
    }
}

/// The identity that a field denotes: an optional plus sign followed by one
/// or more decimal digits whose value fits in 64 bits. Any other field
/// denotes none.
pub open spec fn identity_of(s: Seq<char>) -> Option<u64> {
    let digits = unsigned_part(s);
    if digits.len() > 0 && all_digits(digits) && decimal_value(digits) <= u64::MAX {
        Some(decimal_value(digits) as u64)
    } else {
        None
    }
}

/// The decimal form of `n`, without sign or leading zeros.
pub open spec fn decimal_text(n: nat) -> Seq<char>
    decreases n,
{
    if n < 10 {
        seq![digit_char(n)]
    } else {
        decimal_text(n / 10).push(digit_char(n % 10))
    }
}

/// The decimal form of a number is made of digits, and is the number when
/// read back.
pub proof fn lemma_decimal_text(n: nat)
    ensures
        decimal_text(n).len() > 0,
        all_digits(decimal_text(n)),
        decimal_value(decimal_text(n)) == n,
        marker_free(decimal_text(n)),
    decreases n,
{
    let text = decimal_text(n);
    if n >= 10 {
        lemma_decimal_text(n / 10);
        assert(text.drop_last() == decimal_text(n / 10));
    }
    assert(decimal_value(text) == decimal_value(text.drop_last()) * 10 + digit_value(text.last()));
}

/// An identity survives the stream: its decimal form denotes it.
pub proof fn lemma_identity_round_trip(id: u64)
    ensures
        identity_of(decimal_text(id as nat)) == Some(id),
{
    lemma_decimal_text(id as nat);
}

/// Digits in front of more digits write no more than all of them.
proof fn lemma_decimal_value_prefix(s: Seq<char>, k: int)
    requires
        0 <= k <= s.len(),
    ensures
        decimal_value(s.take(k)) <= decimal_value(s),
    decreases s.len() - k,
{
    if k < s.len() {
        lemma_decimal_value_prefix(s, k + 1);
        assert(s.take(k + 1).drop_last() == s.take(k));
    } else {
        assert(s.take(k) == s);
    }
}

fn digit_of(c: char) -> (d: Option<u64>)
    ensures
        d is Some <==> is_digit(c),
        d is Some ==> d->0 == digit_value(c),
{
    match c {
        '0' => Some(0),
        '1' => Some(1),
        '2' => Some(2),
        '3' => Some(3),
        '4' => Some(4),
        '5' => Some(5),
        '6' => Some(6),
        '7' => Some(7),
        '8' => Some(8),
        '9' => Some(9),
        _ => None,
    }
}

/// Reads a field as an identity.
pub fn parse_identity(field: &str) -> (id: Option<u64>)
    ensures
        id == identity_of(field@),
{
    let mut value: u64 = 0;
    let mut any = false;
    let mut signed = false;
    let ghost mut count: int = 0;
    let ghost digits = unsigned_part(field@);
    for c in it: field.chars()
        invariant
            it.seq() == field@,
            digits == unsigned_part(field@),
            signed <==> it.index() > 0 && field@[0] == '+',
            count == it.index() - if signed { 1int } else { 0 },
            0 <= count <= digits.len(),
            any <==> count > 0,
            all_digits(digits.take(count)),
            value == decimal_value(digits.take(count)),
    {
        if !any && !signed && c == '+' {
            signed = true;
        } else {
            proof {
                assert(digits.take(count + 1).drop_last() == digits.take(count));
                lemma_decimal_value_prefix(digits, count + 1);
            }
            match digit_of(c) {
                Some(d) => {
                    let shifted = match value.checked_mul(10) {
                        Some(v) => v,
                        None => { return None; },
                    };
                    value = match shifted.checked_add(d) {
                        Some(v) => v,
                        None => { return None; },
                    };
                    any = true;
                    proof {
                        count = count + 1;
                    }
                },
                None => {
                    return None;
                },
            }
        }
    }
    proof {
        assert(digits.take(count) == digits);
    }
    if any {
        Some(value)
    } else {
        None
    }
}

fn char_of_digit(d: u64) -> (c: char)
    requires
        d < 10,
    ensures
        c == digit_char(d as nat),
{
    match d {
        0 => '0',
        1 => '1',
        2 => '2',
        3 => '3',
        4 => '4',
        5 => '5',
        6 => '6',
        7 => '7',
        8 => '8',
        _ => '9',
    }
}

/// Appends the decimal form of `n` to `out`.
pub fn push_decimal(out: &mut String, n: u64)
    ensures
        final(out)@ == old(out)@ + decimal_text(n as nat),
    decreases n,
{
    if n >= 10 {
        push_decimal(out, n / 10);
    }
    out.push(char_of_digit(n % 10));
}

/// The decimal form of an identity.
pub fn identity_text(id: u64) -> (text: String)
    ensures
        text@ == decimal_text(id as nat),
{
    let mut text = String::new();
    push_decimal(&mut text, id);
    text
}

/// The fields `f`, each behind a marker.
pub open spec fn marked(f: Seq<Seq<char>>) -> Seq<char>
    decreases f.len(),
{
    if f.len() == 0 {
        Seq::empty()
    } else {
        marked(f.drop_last()) + seq![MAGIC] + f.last()
    }
}

/// A message as it travels on the stream: each of its fields behind a
/// marker, then a last marker and a line feed.
pub open spec fn framed(f: Seq<Seq<char>>) -> Seq<char> {
    marked(f) + seq![MAGIC] + seq!['\n']
}

/// What each of `data` holds, in order.
pub open spec fn texts_of(data: Seq<&str>) -> Seq<Seq<char>> {
    Seq::new(data.len(), |i: int| data[i]@)
}

/// Frames the fields `data` as one message.
pub fn send_message(data: &[&str]) -> (wire: String)
    ensures
        wire@ == framed(texts_of(data@)),
{
    let mut wire = String::new();
    let mut i: usize = 0;
    while i < data.len()
        invariant
            i <= data.len(),
            wire@ == marked(texts_of(data@).take(i as int)),
        decreases data.len() - i,
    {
        proof {
            assert(texts_of(data@).take(i + 1).drop_last() == texts_of(data@).take(i as int));
        }
        wire.push(MAGIC);
        wire.append(data[i]);
        i = i + 1;
    }
    proof {
        assert(texts_of(data@).take(data.len() as int) == texts_of(data@));
    }
    wire.push(MAGIC);
    wire.push('\n');
    wire
}

} // verus!
