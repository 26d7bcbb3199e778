//! Reading the wire format back. `decode` accepts exactly the lines that
//! `encode` writes, and gives the record that a line was written for.

use crate::decimal::{all_digits, decimal_text, digit_char, digit_value, digits_value, is_digit,
    lemma_decimal_text_value, parse_digits};
use crate::summary::{SummaryRecord, SummaryView};
use crate::text::{chars_of, same_text};
use crate::wire::{encode, escape_of, escaped, field_name, field_text, fields_of, fields_text,
    hex_digit, hundredths_text, kind_of, line_of, name_of, value_of, value_text, Field,
    FieldValue, Kind, FIELD_COUNT};
use vstd::prelude::*;

verus! {

/// Whether `c` is a hexadecimal digit, letters in lower case.
pub open spec fn is_hex(c: char) -> bool {
    0x30 <= c as u32 <= 0x39 || 0x61 <= c as u32 <= 0x66
}

/// The number that the hexadecimal digit `c` stands for.
pub open spec fn hex_value(c: char) -> nat {
    if c as u32 <= 0x39 {
        (c as u32 - 0x30) as nat
    } else {
        (c as u32 - 0x57) as nat
    }
}

/// The character whose code the two hexadecimal digits give.
pub open spec fn unescaped(hi: char, lo: char) -> char {
    ((hex_value(hi) * 16 + hex_value(lo)) as u8) as char
}

/// `head` put before the text that was read, where one was.
pub open spec fn prepend(head: Seq<char>, tail: Option<(Seq<char>, Seq<char>)>) -> Option<
    (Seq<char>, Seq<char>),
> {
    match tail {
        Some((value, rest)) => Some((head + value, rest)),
        None => None,
    }
}

/// Reads a text up to its closing quote: the text, and what follows the
/// quote. `s` begins behind the opening quote.
pub open spec fn read_text(s: Seq<char>) -> Option<(Seq<char>, Seq<char>)>
    decreases s.len(),
{
    if s.len() == 0 {
        None
    } else if s[0] == '"' {
        Some((Seq::empty(), s.skip(1)))
    } else if s[0] == '\\' {
        if s.len() >= 2 && (s[1] == '"' || s[1] == '\\') {
            prepend(seq![s[1]], read_text(s.skip(2)))
        } else if s.len() >= 6 && s[1] == 'u' && s[2] == '0' && s[3] == '0' && is_hex(s[4])
            && is_hex(s[5]) {
            prepend(seq![unescaped(s[4], s[5])], read_text(s.skip(6)))
        } else {
            None
        }
    } else {
        prepend(seq![s[0]], read_text(s.skip(1)))
    }
}

/// How many digits `s` begins with.
pub open spec fn leading_digits(s: Seq<char>) -> nat
    decreases s.len(),
{
    if s.len() > 0 && is_digit(s[0]) {
        1 + leading_digits(s.drop_first())
    } else {
        0
    }
}

/// Reads a whole number no greater than `limit`: the number, and what
/// follows its digits.
pub open spec fn read_whole(s: Seq<char>, limit: nat) -> Option<(nat, Seq<char>)> {
    let k = leading_digits(s) as int;
    if k > 0 && digits_value(s.take(k)) <= limit {
        Some((digits_value(s.take(k)), s.skip(k)))
    } else {
        None
    }
}

/// Reads a number with two decimals as a number of hundredths no greater
/// than `limit`: the number, and what follows it.
pub open spec fn read_hundredths(s: Seq<char>, limit: nat) -> Option<(nat, Seq<char>)> {
    match read_whole(s, limit) {
        Some((whole, rest)) => {
            let n = whole * 100 + digit_value(rest[1]) * 10 + digit_value(rest[2]);
            if rest.len() >= 3 && rest[0] == '.' && is_digit(rest[1]) && is_digit(rest[2]) && n
                <= limit {
                Some((n, rest.skip(3)))
            } else {
                None
            }
        },
        None => None,
    }
}

/// Reads a value of the given kind: the value, and what follows it.
pub open spec fn read_value(kind: Kind, s: Seq<char>) -> Option<(FieldValue, Seq<char>)> {
    match kind {
        Kind::Text => if s.len() > 0 && s[0] == '"' {
            match read_text(s.skip(1)) {
                Some((value, rest)) => Some((FieldValue::Text(value), rest)),
                None => None,
            }
        } else {
            None
        },
        Kind::Whole => match read_whole(s, u64::MAX as nat) {
            Some((n, rest)) => Some((FieldValue::Whole(n), rest)),
            None => None,
        },
        Kind::Hundredths => match read_hundredths(s, u32::MAX as nat) {
            Some((n, rest)) => Some((FieldValue::Hundredths(n), rest)),
            None => None,
        },
    }
}

/// What stands before a field's value: the name in quotes and a colon.
pub open spec fn label_of(name: Seq<char>) -> Seq<char> {
    seq!['"'] + name + seq!['"', ':']
}

pub open spec fn starts_with(s: Seq<char>, prefix: Seq<char>) -> bool {
    prefix.len() <= s.len() && s.take(prefix.len() as int) == prefix
}

/// Reads the field of the given name and kind: its value, and what follows
/// the value.
pub open spec fn read_field(name: Seq<char>, kind: Kind, s: Seq<char>) -> Option<
    (FieldValue, Seq<char>),
> {
    if starts_with(s, label_of(name)) {
        read_value(kind, s.skip(label_of(name).len() as int))
    } else {
        None
    }
}

/// What follows the field at place `i`: a comma, or the closing brace
/// behind the last.
pub open spec fn closer_of(i: int) -> char {
    if i + 1 == FIELD_COUNT {
        '}'
    } else {
        ','
    }
}

/// Whether a value is one that a record can hold in a field of its kind.
pub open spec fn value_fits(value: FieldValue) -> bool {
    match value {
        FieldValue::Text(_) => true,
        FieldValue::Whole(n) => n <= u64::MAX,
        FieldValue::Hundredths(n) => n <= u32::MAX,
    }
}

pub open spec fn kind_of_value(value: FieldValue) -> Kind {
    match value {
        FieldValue::Text(_) => Kind::Text,
        FieldValue::Whole(_) => Kind::Whole,
        FieldValue::Hundredths(_) => Kind::Hundredths,
    }
}

/// Whether the numbers of a record are such as a `SummaryRecord` can hold.
pub open spec fn record_fits(record: SummaryView) -> bool {
    forall|i: int| 0 <= i < FIELD_COUNT ==> value_fits(#[trigger] value_of(record, i))
}

/// The values of a record, in the order of the line.
pub open spec fn values_of(record: SummaryView) -> Seq<FieldValue> {
    Seq::new(FIELD_COUNT as nat, |i: int| value_of(record, i))
}

/// The values as mathematical values.
pub open spec fn views(fields: Seq<Field>) -> Seq<FieldValue> {
    Seq::new(fields.len(), |i: int| fields[i]@)
}

/// What `decode` gives for a line: the one record that is written so, or
/// none where no record is.
pub open spec fn decodes_to(line: Seq<char>, record: Option<SummaryView>) -> bool {
    match record {
        Some(r) => record_fits(r) && line == line_of(r),
        None => forall|v: SummaryView| record_fits(v) ==> line != #[trigger] line_of(v),
    }
}

proof fn lemma_prepend_twice(a: Seq<char>, b: Seq<char>, tail: Option<(Seq<char>, Seq<char>)>)
    ensures
        prepend(a, prepend(b, tail)) == prepend(a + b, tail),
{
    match tail {
        Some((value, rest)) => {
            assert(a + (b + value) =~= (a + b) + value);
        },
        None => {},
    }
}

/// The two hexadecimal digits that are written for a control character
/// give the character back.
proof fn lemma_unescaped(c: char)
    requires
        (c as u32) < 0x20,
    ensures
        unescaped(hex_digit((c as u32 / 16) as nat), hex_digit((c as u32 % 16) as nat)) == c,
{
    let hi = hex_digit((c as u32 / 16) as nat);
    let lo = hex_digit((c as u32 % 16) as nat);
    assert(hex_value(hi) == c as u32 / 16 && hex_value(lo) == c as u32 % 16);
}

/// An escaped text, its closing quote and anything behind it read as the
/// text and what is behind the quote.
pub proof fn lemma_read_escaped(value: Seq<char>, rest: Seq<char>)
    ensures
        read_text(escaped(value) + seq!['"'] + rest) == Some((value, rest)),
    decreases value.len(),
{
    let s = escaped(value) + seq!['"'] + rest;
    if value.len() == 0 {
        assert(s[0] == '"');
        assert(s.skip(1) =~= rest);
        assert(value =~= Seq::<char>::empty());
    } else {
        let c = value[0];
        let tail = value.drop_first();
        let e = escape_of(c);
        let next = escaped(tail) + seq!['"'] + rest;
        lemma_read_escaped(tail, rest);
        assert(s =~= e + next);
        assert(s.skip(e.len() as int) =~= next);
        assert(seq![c] + tail =~= value);
        if c == '"' {
            assert(s[0] == '\\' && s[1] == '"');
        } else if c == '\\' {
            assert(s[0] == '\\' && s[1] == '\\');
        } else if (c as u32) < 0x20 {
            let hi = hex_digit((c as u32 / 16) as nat);
            let lo = hex_digit((c as u32 % 16) as nat);
            assert(s[0] == '\\' && s[1] == 'u' && s[2] == '0' && s[3] == '0' && s[4] == hi && s[5]
                == lo);
            assert(is_hex(hi) && is_hex(lo));
            assert(hex_value(hi) == c as u32 / 16 && hex_value(lo) == c as u32 % 16);
            lemma_unescaped(c);
        } else {
            assert(s[0] == c);
        }
    }
}

/// A run of digits of length `n` at the start of `s`, followed by the end
/// of `s` or by another character, is all of its leading digits.
proof fn lemma_leading_digits(s: Seq<char>, n: int)
    requires
        0 <= n <= s.len(),
        forall|j: int| 0 <= j < n ==> is_digit(s[j]),
        n < s.len() ==> !is_digit(s[n]),
    ensures
        leading_digits(s) == n,
    decreases n,
{
    if n > 0 {
        let rest = s.drop_first();
        assert forall|j: int| 0 <= j < n - 1 implies is_digit(rest[j]) by {
            assert(rest[j] == s[j + 1]);
        }
        if n - 1 < rest.len() {
            assert(rest[n - 1] == s[n]);
        }
        lemma_leading_digits(rest, n - 1);
    }
}

/// The decimal text of a number, followed by anything but a digit, reads
/// as the number.
pub proof fn lemma_read_whole(n: nat, rest: Seq<char>, limit: nat)
    requires
        n <= limit,
        rest.len() > 0 ==> !is_digit(rest[0]),
    ensures
        read_whole(decimal_text(n) + rest, limit) == Some((n, rest)),
{
    let d = decimal_text(n);
    let s = d + rest;
    lemma_decimal_text_value(n);
    assert forall|j: int| 0 <= j < d.len() implies is_digit(s[j]) by {
        assert(s[j] == d[j]);
    }
    if d.len() < s.len() {
        assert(s[d.len() as int] == rest[0]);
    }
    lemma_leading_digits(s, d.len() as int);
    assert(s.take(d.len() as int) =~= d);
    assert(s.skip(d.len() as int) =~= rest);
}

/// The text of a number of hundredths, followed by anything, reads as the
/// number.
pub proof fn lemma_read_hundredths(n: nat, rest: Seq<char>, limit: nat)
    requires
        n <= limit,
    ensures
        read_hundredths(hundredths_text(n) + rest, limit) == Some((n, rest)),
{
    let decimals = seq!['.', digit_char(n / 10 % 10), digit_char(n % 10)];
    let behind = decimals + rest;
    let s = hundredths_text(n) + rest;
    assert(s =~= decimal_text(n / 100) + behind);
    assert(behind[0] == '.' && behind[1] == decimals[1] && behind[2] == decimals[2]);
    lemma_read_whole(n / 100, behind, limit);
    assert(digit_value(behind[1]) == n / 10 % 10 && digit_value(behind[2]) == n % 10);
    assert(is_digit(behind[1]) && is_digit(behind[2]));
    assert((n / 100) * 100 + (n / 10 % 10) * 10 + n % 10 == n);
    assert(behind.skip(3) =~= rest);
}

/// A written value, followed by something that is no digit, reads as the
/// value.
pub proof fn lemma_read_value(value: FieldValue, rest: Seq<char>)
    requires
        value_fits(value),
        rest.len() > 0,
        !is_digit(rest[0]),
    ensures
        read_value(kind_of_value(value), value_text(value) + rest) == Some((value, rest)),
{
    let s = value_text(value) + rest;
    match value {
        FieldValue::Text(text) => {
            lemma_read_escaped(text, rest);
            assert(s[0] == '"');
            assert(s.skip(1) =~= escaped(text) + seq!['"'] + rest);
        },
        FieldValue::Whole(n) => {
            lemma_read_whole(n, rest, u64::MAX as nat);
        },
        FieldValue::Hundredths(n) => {
            lemma_read_hundredths(n, rest, u32::MAX as nat);
        },
    }
}

/// A written field, followed by something that is no digit, reads as its
/// value.
pub proof fn lemma_read_field(name: Seq<char>, value: FieldValue, rest: Seq<char>)
    requires
        value_fits(value),
        rest.len() > 0,
        !is_digit(rest[0]),
    ensures
        read_field(name, kind_of_value(value), field_text(name, value) + rest) == Some(
            (value, rest),
        ),
{
    let s = field_text(name, value) + rest;
    let label = label_of(name);
    assert(s.take(label.len() as int) =~= label);
    assert(s.skip(label.len() as int) =~= value_text(value) + rest);
    lemma_read_value(value, rest);
}

/// What is written from place `i` on begins with the field at place `i`,
/// which reads as the record's value there; its closer and the fields from
/// the next place on follow.
pub proof fn lemma_read_place(record: SummaryView, i: int)
    requires
        record_fits(record),
        0 <= i < FIELD_COUNT,
    ensures
        read_field(name_of(i), kind_of(i), fields_text(fields_of(record).skip(i))) == Some(
            (
                value_of(record, i),
                seq![closer_of(i)] + fields_text(fields_of(record).skip(i + 1)),
            ),
        ),
{
    let fields = fields_of(record).skip(i);
    let behind = seq![closer_of(i)] + fields_text(fields_of(record).skip(i + 1));
    assert(fields.len() == FIELD_COUNT - i);
    assert(fields[0] == fields_of(record)[i]);
    assert(fields.drop_first() =~= fields_of(record).skip(i + 1));
    assert(fields_text(fields) =~= field_text(name_of(i), value_of(record, i)) + behind);
    assert(behind[0] == closer_of(i));
    assert(value_fits(value_of(record, i)));
    assert(kind_of_value(value_of(record, i)) == kind_of(i));
    lemma_read_field(name_of(i), value_of(record, i), behind);
}

/// Two records that are written alike from place `i` on hold the same
/// values from there on.
proof fn lemma_same_text_same_values(a: SummaryView, b: SummaryView, i: int)
    requires
        record_fits(a),
        record_fits(b),
        0 <= i <= FIELD_COUNT,
        fields_text(fields_of(a).skip(i)) == fields_text(fields_of(b).skip(i)),
    ensures
        forall|j: int| i <= j < FIELD_COUNT ==> value_of(a, j) == value_of(b, j),
    decreases FIELD_COUNT - i,
{
    if i < FIELD_COUNT {
        lemma_read_place(a, i);
        lemma_read_place(b, i);
        let tail_a = fields_text(fields_of(a).skip(i + 1));
        let tail_b = fields_text(fields_of(b).skip(i + 1));
        assert((seq![closer_of(i)] + tail_a).skip(1) =~= tail_a);
        assert((seq![closer_of(i)] + tail_b).skip(1) =~= tail_b);
        lemma_same_text_same_values(a, b, i + 1);
    }
}

/// A line stands for one record only.
pub proof fn lemma_line_names_one_record(a: SummaryView, b: SummaryView)
    requires
        record_fits(a),
        record_fits(b),
        line_of(a) == line_of(b),
    ensures
        a == b,
{
    assert(line_of(a).skip(1) =~= fields_text(fields_of(a)));
    assert(line_of(b).skip(1) =~= fields_text(fields_of(b)));
    assert(fields_of(a).skip(0) =~= fields_of(a));
    assert(fields_of(b).skip(0) =~= fields_of(b));
    lemma_same_text_same_values(a, b, 0);
    lemma_values_name_record(a, b);
}

/// Two records with the same value at every place are the same record.
proof fn lemma_values_name_record(a: SummaryView, b: SummaryView)
    requires
        forall|j: int| 0 <= j < FIELD_COUNT ==> value_of(a, j) == value_of(b, j),
    ensures
        a == b,
{
    assert(value_of(a, 0) == value_of(b, 0));
    assert(value_of(a, 1) == value_of(b, 1));
    assert(value_of(a, 2) == value_of(b, 2));
    assert(value_of(a, 3) == value_of(b, 3));
    assert(value_of(a, 4) == value_of(b, 4));
    assert(value_of(a, 5) == value_of(b, 5));
    assert(value_of(a, 6) == value_of(b, 6));
    assert(value_of(a, 7) == value_of(b, 7));
    assert(value_of(a, 8) == value_of(b, 8));
    assert(value_of(a, 9) == value_of(b, 9));
    assert(value_of(a, 10) == value_of(b, 10));
    assert(value_of(a, 11) == value_of(b, 11));
    assert(value_of(a, 12) == value_of(b, 12));
}

/// Writing a record and reading the line gives the record back: whatever
/// `decode` may give for the line of a record is that record.
pub proof fn lemma_round_trip(record: SummaryView, decoded: Option<SummaryView>)
    requires
        record_fits(record),
        decodes_to(line_of(record), decoded),
    ensures
        decoded == Some(record),
{
    match decoded {
        Some(r) => {
            lemma_line_names_one_record(r, record);
        },
        None => {},
    }
}

fn hex_of(c: char) -> (value: Option<u8>)
    ensures
        match value {
            Some(d) => is_hex(c) && d == hex_value(c),
            None => !is_hex(c),
        },
{
    let u: u32 = c as u32;
    if 0x30 <= u && u <= 0x39 {
        Some((u - 0x30) as u8)
    } else if 0x61 <= u && u <= 0x66 {
        Some((u - 0x57) as u8)
    } else {
        None
    }
}

fn digit_of(c: char) -> (value: Option<u8>)
    ensures
        match value {
            Some(d) => is_digit(c) && d == digit_value(c),
            None => !is_digit(c),
        },
{
    let u: u32 = c as u32;
    if 0x30 <= u && u <= 0x39 {
        Some((u - 0x30) as u8)
    } else {
        None
    }
}

fn kind_at(place: usize) -> (kind: Kind)
    ensures
        kind == kind_of(place as int),
{
    if place <= 1 {
        Kind::Text
    } else if 4 <= place && place <= 6 {
        Kind::Hundredths
    } else {
        Kind::Whole
    }
}

/// Reads a text from `pos`, which is behind its opening quote: the text,
/// and the place behind its closing quote.
fn read_text_at(text: &Vec<char>, pos: usize) -> (got: Option<(String, usize)>)
    requires
        pos <= text.len(),
    ensures
        match got {
            Some((value, next)) => next <= text.len() && read_text(text@.skip(pos as int)) == Some(
                (value@, text@.skip(next as int)),
            ),
            None => read_text(text@.skip(pos as int)) is None,
        },
{
    let mut acc = String::new();
    let mut i: usize = pos;
    proof {
        lemma_prepend_twice(Seq::empty(), Seq::empty(), read_text(text@.skip(pos as int)));
        match read_text(text@.skip(pos as int)) {
            Some((value, rest)) => {
                assert(Seq::<char>::empty() + value =~= value);
            },
            None => {},
        }
    }
    while i < text.len()
        invariant
            pos <= i <= text.len(),
            read_text(text@.skip(pos as int)) == prepend(acc@, read_text(text@.skip(i as int))),
        decreases text.len() - i,
    {
        let ghost s = text@.skip(i as int);
        let ghost before = acc@;
        assert(forall|k: int| 0 <= k < s.len() ==> s[k] == text@[i + k]);
        let c = text[i];
        assert(s[0] == c);
        if c == '"' {
            proof {
                assert(s.skip(1) =~= text@.skip(i + 1));
                assert(before + Seq::<char>::empty() =~= before);
            }
            return Some((acc, i + 1));
        } else if c == '\\' {
            if text.len() - i >= 2 && (text[i + 1] == '"' || text[i + 1] == '\\') {
                let e = text[i + 1];
                acc.push(e);
                proof {
                    assert(s[1] == e);
                    assert(s.skip(2) =~= text@.skip(i + 2));
                    lemma_prepend_twice(before, seq![e], read_text(text@.skip(i + 2)));
                    assert(before + seq![e] =~= acc@);
                }
                i += 2;
            } else if text.len() - i >= 6 && text[i + 1] == 'u' && text[i + 2] == '0' && text[i
                + 3] == '0' {
                assert(s[1] == 'u' && s[2] == '0' && s[3] == '0');
                assert(s[4] == text@[i + 4] && s[5] == text@[i + 5]);
                let hi = hex_of(text[i + 4]);
                let lo = hex_of(text[i + 5]);
                match (hi, lo) {
                    (Some(x), Some(y)) => {
                        let e = (x * 16 + y) as char;
                        acc.push(e);
                        proof {
                            assert(e == unescaped(s[4], s[5]));
                            assert(s.skip(6) =~= text@.skip(i + 6));
                            lemma_prepend_twice(before, seq![e], read_text(text@.skip(i + 6)));
                            assert(before + seq![e] =~= acc@);
                        }
                        i += 6;
                    },
                    _ => {
                        return None;
                    },
                }
            } else {
                proof {
                    if s.len() >= 2 {
                        assert(s[1] == text@[i + 1]);
                    }
                    if s.len() >= 6 {
                        assert(s[2] == text@[i + 2] && s[3] == text@[i + 3]);
                    }
                }
                return None;
            }
        } else {
            acc.push(c);
            proof {
                assert(s.skip(1) =~= text@.skip(i + 1));
                lemma_prepend_twice(before, seq![c], read_text(text@.skip(i + 1)));
                assert(before + seq![c] =~= acc@);
            }
            i += 1;
        }
    }
    assert(text@.skip(i as int).len() == 0);
    None
}

/// The place behind the digits that begin at `pos`.
fn digits_end(text: &Vec<char>, pos: usize) -> (end: usize)
    requires
        pos <= text.len(),
    ensures
        pos <= end <= text.len(),
        end - pos == leading_digits(text@.skip(pos as int)),
        all_digits(text@.subrange(pos as int, end as int)),
{
    let mut end: usize = pos;
    while end < text.len() && digit_of(text[end]).is_some()
        invariant
            pos <= end <= text.len(),
            forall|j: int| pos <= j < end ==> is_digit(text@[j]),
        decreases text.len() - end,
    {
        end += 1;
    }
    proof {
        let s = text@.skip(pos as int);
        assert forall|j: int| 0 <= j < end - pos implies is_digit(s[j]) by {
            assert(s[j] == text@[pos + j]);
        }
        if end - pos < s.len() {
            assert(s[end - pos] == text@[end as int]);
        }
        lemma_leading_digits(s, end - pos);
        let sub = text@.subrange(pos as int, end as int);
        assert forall|j: int| 0 <= j < sub.len() implies is_digit(#[trigger] sub[j]) by {
            assert(sub[j] == text@[pos + j]);
        }
    }
    end
}

fn read_whole_at(text: &Vec<char>, pos: usize, limit: u64) -> (got: Option<(u64, usize)>)
    requires
        pos <= text.len(),
    ensures
        match got {
            Some((n, next)) => next <= text.len() && read_whole(
                text@.skip(pos as int),
                limit as nat,
            ) == Some((n as nat, text@.skip(next as int))),
            None => read_whole(text@.skip(pos as int), limit as nat) is None,
        },
{
    let end = digits_end(text, pos);
    proof {
        let s = text@.skip(pos as int);
        assert(s.take(end - pos) =~= text@.subrange(pos as int, end as int));
        assert(s.skip(end - pos) =~= text@.skip(end as int));
    }
    match parse_digits(text, pos, end, limit) {
        Some(n) => Some((n, end)),
        None => None,
    }
}

fn read_hundredths_at(text: &Vec<char>, pos: usize) -> (got: Option<(u32, usize)>)
    requires
        pos <= text.len(),
    ensures
        match got {
            Some((n, next)) => next <= text.len() && read_hundredths(
                text@.skip(pos as int),
                u32::MAX as nat,
            ) == Some((n as nat, text@.skip(next as int))),
            None => read_hundredths(text@.skip(pos as int), u32::MAX as nat) is None,
        },
{
    match read_whole_at(text, pos, 0xffff_ffff) {
        None => None,
        Some((whole, p)) => {
            let ghost rest = text@.skip(p as int);
            if text.len() - p < 3 {
                return None;
            }
            assert(rest[0] == text@[p as int] && rest[1] == text@[p + 1] && rest[2] == text@[p
                + 2]);
            if text[p] != '.' {
                return None;
            }
            let first = digit_of(text[p + 1]);
            let second = digit_of(text[p + 2]);
            match (first, second) {
                (Some(d1), Some(d2)) => {
                    let n: u64 = whole * 100 + (d1 as u64) * 10 + (d2 as u64);
                    if n > 0xffff_ffff {
                        return None;
                    }
                    proof {
                        assert(rest.skip(3) =~= text@.skip(p + 3));
                    }
                    Some((n as u32, p + 3))
                },
                _ => None,
            }
        },
    }
}

/// The place behind the label of `name`, where the label stands at `pos`.
fn label_end(text: &Vec<char>, pos: usize, name: &str) -> (end: Option<usize>)
    requires
        pos <= text.len(),
    ensures
        match end {
            Some(next) => next <= text.len() && next == pos + label_of(name@).len() && starts_with(
                text@.skip(pos as int),
                label_of(name@),
            ),
            None => !starts_with(text@.skip(pos as int), label_of(name@)),
        },
{
    let mut label: Vec<char> = Vec::new();
    label.push('"');
    let mut letters = chars_of(name);
    label.append(&mut letters);
    label.push('"');
    label.push(':');
    assert(label@ =~= label_of(name@));
    let ghost s = text@.skip(pos as int);
    if text.len() - pos < label.len() {
        return None;
    }
    let mut k: usize = 0;
    while k < label.len()
        invariant
            k <= label.len(),
            pos + label.len() <= text.len(),
            s == text@.skip(pos as int),
            label@ == label_of(name@),
            forall|j: int| 0 <= j < k ==> text@[pos + j] == label@[j],
        decreases label.len() - k,
    {
        if text[pos + k] != label[k] {
            assert(s.take(label.len() as int)[k as int] == text@[pos + k]);
            return None;
        }
        k += 1;
    }
    assert(s.take(label.len() as int) =~= label@);
    Some(pos + label.len())
}

/// Reads the field of place `place` at `pos`: its value, and the place
/// behind the value.
fn read_field_at(text: &Vec<char>, pos: usize, place: usize) -> (got: Option<(Field, usize)>)
    requires
        pos <= text.len(),
        place < FIELD_COUNT,
    ensures
        match got {
            Some((value, next)) => next <= text.len() && read_field(
                name_of(place as int),
                kind_of(place as int),
                text@.skip(pos as int),
            ) == Some((value@, text@.skip(next as int))),
            None => read_field(
                name_of(place as int),
                kind_of(place as int),
                text@.skip(pos as int),
            ) is None,
        },
{
    let name = field_name(place);
    let start = match label_end(text, pos, name) {
        Some(start) => start,
        None => {
            return None;
        },
    };
    let ghost s = text@.skip(start as int);
    assert(text@.skip(pos as int).skip(label_of(name@).len() as int) =~= s);
    match kind_at(place) {
        Kind::Text => {
            if start >= text.len() || text[start] != '"' {
                assert(s.len() > 0 ==> s[0] == text@[start as int]);
                return None;
            }
            assert(s[0] == text@[start as int]);
            assert(s.skip(1) =~= text@.skip(start + 1));
            match read_text_at(text, start + 1) {
                Some((value, next)) => Some((Field::Text(value), next)),
                None => None,
            }
        },
        Kind::Whole => match read_whole_at(text, start, 0xffff_ffff_ffff_ffff) {
            Some((n, next)) => Some((Field::Whole(n), next)),
            None => None,
        },
        Kind::Hundredths => match read_hundredths_at(text, start) {
            Some((n, next)) => Some((Field::Hundredths(n), next)),
            None => None,
        },
    }
}

fn text_at(values: &Vec<Field>, i: usize) -> (text: Option<String>)
    requires
        i < values.len(),
    ensures
        match text {
            Some(s) => values@[i as int]@ == FieldValue::Text(s@),
            None => kind_of_value(values@[i as int]@) != Kind::Text,
        },
{
    match &values[i] {
        Field::Text(s) => Some(s.clone()),
        _ => None,
    }
}

fn whole_at(values: &Vec<Field>, i: usize) -> (number: Option<u64>)
    requires
        i < values.len(),
    ensures
        match number {
            Some(n) => values@[i as int]@ == FieldValue::Whole(n as nat),
            None => kind_of_value(values@[i as int]@) != Kind::Whole,
        },
{
    match &values[i] {
        Field::Whole(n) => Some(*n),
        _ => None,
    }
}

fn hundredths_at(values: &Vec<Field>, i: usize) -> (number: Option<u32>)
    requires
        i < values.len(),
    ensures
        match number {
            Some(n) => values@[i as int]@ == FieldValue::Hundredths(n as nat),
            None => kind_of_value(values@[i as int]@) != Kind::Hundredths,
        },
{
    match &values[i] {
        Field::Hundredths(n) => Some(*n),
        _ => None,
    }
}

/// The record that holds the given values, one for each place; none where
/// a value is not of the kind of its place, or where there is not one
/// value for each place.
pub fn record_from(values: &Vec<Field>) -> (record: Option<SummaryRecord>)
    ensures
        match record {
            Some(r) => values_of(r@) == views(values@),
            None => values.len() != FIELD_COUNT || exists|i: int|
                0 <= i < FIELD_COUNT && kind_of_value(#[trigger] values@[i]@) != kind_of(i),
        },
{
    if values.len() != FIELD_COUNT {
        return None;
    }
    let host_identity = match text_at(values, 0) {
        Some(s) => s,
        None => {
            return None;
        },
    };
    let component_tag = match text_at(values, 1) {
        Some(s) => s,
        None => {
            return None;
        },
    };
    let timestamp = match whole_at(values, 2) {
        Some(n) => n,
        None => {
            return None;
        },
    };
    let uptime_seconds = match whole_at(values, 3) {
        Some(n) => n,
        None => {
            return None;
        },
    };
    let cpu_avg = match hundredths_at(values, 4) {
        Some(n) => n,
        None => {
            return None;
        },
    };
    let cpu_min = match hundredths_at(values, 5) {
        Some(n) => n,
        None => {
            return None;
        },
    };
    let cpu_max = match hundredths_at(values, 6) {
        Some(n) => n,
        None => {
            return None;
        },
    };
    let mem_avg = match whole_at(values, 7) {
        Some(n) => n,
        None => {
            return None;
        },
    };
    let mem_min = match whole_at(values, 8) {
        Some(n) => n,
        None => {
            return None;
        },
    };
    let mem_max = match whole_at(values, 9) {
        Some(n) => n,
        None => {
            return None;
        },
    };
    let net_rx_delta = match whole_at(values, 10) {
        Some(n) => n,
        None => {
            return None;
        },
    };
    let net_tx_delta = match whole_at(values, 11) {
        Some(n) => n,
        None => {
            return None;
        },
    };
    let sample_count = match whole_at(values, 12) {
        Some(n) => n,
        None => {
            return None;
        },
    };
    let record = SummaryRecord {
        host_identity,
        component_tag,
        timestamp,
        uptime_seconds,
        cpu_avg,
        cpu_min,
        cpu_max,
        mem_avg,
        mem_min,
        mem_max,
        net_rx_delta,
        net_tx_delta,
        sample_count,
    };
    assert(values_of(record@) =~= views(values@));
    Some(record)
}

/// A record as a mathematical value, where there is one.
pub open spec fn view_of(record: Option<SummaryRecord>) -> Option<SummaryView> {
    match record {
        Some(r) => Some(r@),
        None => None,
    }
}

/// Reads a line: the record that it stands for, or none where it is not
/// the line of any record.
pub fn decode(line: &str) -> (record: Option<SummaryRecord>)
    ensures
        decodes_to(line@, view_of(record)),
{
    let text = chars_of(line);
    if text.len() == 0 || text[0] != '{' {
        assert forall|v: SummaryView| record_fits(v) implies line@ != #[trigger] line_of(v) by {
            assert(line_of(v)[0] == '{');
        }
        return None;
    }
    let mut values: Vec<Field> = Vec::new();
    let mut pos: usize = 1;
    let mut i: usize = 0;
    assert forall|v: SummaryView| record_fits(v) && line@ == #[trigger] line_of(v) implies text@.skip(
        1,
    ) == fields_text(fields_of(v).skip(0)) && views(values@) == values_of(v).take(0) by {
        assert(fields_of(v).skip(0) =~= fields_of(v));
        assert(line_of(v).skip(1) =~= fields_text(fields_of(v)));
        assert(views(values@) =~= values_of(v).take(0));
    }
    while i < FIELD_COUNT
        invariant
            i <= FIELD_COUNT,
            pos <= text.len(),
            text@ == line@,
            values.len() == i,
            forall|v: SummaryView|
                record_fits(v) && line@ == #[trigger] line_of(v) ==> text@.skip(pos as int)
                    == fields_text(fields_of(v).skip(i as int)) && views(values@) == values_of(
                    v,
                ).take(i as int),
        decreases FIELD_COUNT - i,
    {
        let ghost so_far = values@;
        let (value, next) = match read_field_at(&text, pos, i) {
            Some(found) => found,
            None => {
                assert forall|v: SummaryView| record_fits(v) implies line@ != #[trigger] line_of(
                    v,
                ) by {
                    if line@ == line_of(v) {
                        lemma_read_place(v, i as int);
                    }
                }
                return None;
            },
        };
        if next >= text.len() {
            assert forall|v: SummaryView| record_fits(v) implies line@ != #[trigger] line_of(
                v,
            ) by {
                if line@ == line_of(v) {
                    lemma_read_place(v, i as int);
                    assert(text@.skip(next as int).len() > 0);
                }
            }
            return None;
        }
        assert forall|v: SummaryView| record_fits(v) && line@ == #[trigger] line_of(v) implies text@.skip(
            next + 1,
        ) == fields_text(fields_of(v).skip(i + 1)) && views(so_far.push(value)) == values_of(
            v,
        ).take(i + 1) by {
            lemma_read_place(v, i as int);
            let behind = seq![closer_of(i as int)] + fields_text(fields_of(v).skip(i + 1));
            assert(text@.skip(next as int) == behind);
            assert(behind.skip(1) =~= fields_text(fields_of(v).skip(i + 1)));
            assert(text@.skip(next as int).skip(1) =~= text@.skip(next + 1));
            assert(value@ == value_of(v, i as int));
            assert(views(so_far.push(value)) =~= values_of(v).take(i + 1)) by {
                assert forall|j: int| 0 <= j < i + 1 implies views(so_far.push(value))[j]
                    == values_of(v).take(i + 1)[j] by {
                    if j < i {
                        assert(views(so_far)[j] == values_of(v).take(i as int)[j]);
                    }
                }
            }
        }
        values.push(value);
        pos = next + 1;
        i += 1;
    }
    let record = match record_from(&values) {
        Some(record) => record,
        None => {
            assert forall|v: SummaryView| record_fits(v) implies line@ != #[trigger] line_of(v) by {
                if line@ == line_of(v) {
                    assert(values_of(v).take(FIELD_COUNT as int) =~= values_of(v));
                    let k = choose|k: int|
                        0 <= k < FIELD_COUNT && kind_of_value(#[trigger] values@[k]@) != kind_of(k);
                    assert(views(values@)[k] == values_of(v)[k]);
                }
            }
            return None;
        },
    };
    let again = encode(&record);
    if same_text(again.as_str(), line) {
        assert(record_fits(record@));
        Some(record)
    } else {
        assert forall|v: SummaryView| record_fits(v) implies line@ != #[trigger] line_of(v) by {
            if line@ == line_of(v) {
                assert(values_of(v).take(FIELD_COUNT as int) =~= values_of(v));
                assert forall|j: int| 0 <= j < FIELD_COUNT implies value_of(record@, j)
                    == value_of(v, j) by {
                    assert(values_of(record@)[j] == values_of(v)[j]);
                }
                lemma_values_name_record(record@, v);
            }
        }
        None
    }
}

} // verus!
