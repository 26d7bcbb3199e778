//! The wire format of a summary record: one JSON object on one line.
//!
//! The fields stand in a fixed order, each as `"name":value`, with a comma
//! between two fields and no white space anywhere. Text stands in double
//! quotes, with `"` and `\` behind a backslash and each control character
//! as `\u00` and two hexadecimal digits. Whole numbers stand in decimal.
//! Processor load, which a record counts in hundredths of a percent, stands
//! in percent with two decimals: `4250` is written `42.50`.

use crate::decimal::{decimal_text, digit_char, is_digit, lemma_decimal_text_value,
    push_decimal};
use crate::summary::{SummaryRecord, SummaryView};
use vstd::prelude::*;
use vstd::string::StringExecFns;

verus! {

/// How a field's value is written.
#[derive(Clone, Copy, Debug, PartialEq, Eq, Structural)]
pub enum Kind {
    Text,
    Whole,
    Hundredths,
}

/// The value of one field, as a mathematical value.
pub enum FieldValue {
    Text(Seq<char>),
    Whole(nat),
    Hundredths(nat),
}

/// The value of one field.
#[derive(Debug, PartialEq, Eq)]
pub enum Field {
    Text(String),
    Whole(u64),
    Hundredths(u32),
}

impl View for Field {
    type V = FieldValue;

    open spec fn view(&self) -> FieldValue {
        match self {
            Field::Text(s) => FieldValue::Text(s@),
            Field::Whole(n) => FieldValue::Whole(*n as nat),
            Field::Hundredths(n) => FieldValue::Hundredths(*n as nat),
        }
    }
}

/// The number of fields of a record.
pub const FIELD_COUNT: usize = 13;

/// The name of the field at place `i`; beyond the last place, that of the
/// last field.
pub open spec fn name_of(i: int) -> Seq<char> {
    if i == 0 {
        "host_identity"@
    } else if i == 1 {
        "component_tag"@
    } else if i == 2 {
        "timestamp"@
    } else if i == 3 {
        "uptime_seconds"@
    } else if i == 4 {
        "cpu_avg"@
    } else if i == 5 {
        "cpu_min"@
    } else if i == 6 {
        "cpu_max"@
    } else if i == 7 {
        "mem_avg"@
    } else if i == 8 {
        "mem_min"@
    } else if i == 9 {
        "mem_max"@
    } else if i == 10 {
        "net_rx_delta"@
    } else if i == 11 {
        "net_tx_delta"@
    } else {
        "sample_count"@
    }
}

/// How the field at place `i` is written.
pub open spec fn kind_of(i: int) -> Kind {
    if i <= 1 {
        Kind::Text
    } else if 4 <= i <= 6 {
        Kind::Hundredths
    } else {
        Kind::Whole
    }
}

/// The value that `record` holds in the field at place `i`; beyond the
/// last place, that of the last field.
pub open spec fn value_of(record: SummaryView, i: int) -> FieldValue {
    if i == 0 {
        FieldValue::Text(record.host_identity)
    } else if i == 1 {
        FieldValue::Text(record.component_tag)
    } else if i == 2 {
        FieldValue::Whole(record.timestamp)
    } else if i == 3 {
        FieldValue::Whole(record.uptime_seconds)
    } else if i == 4 {
        FieldValue::Hundredths(record.cpu_avg)
    } else if i == 5 {
        FieldValue::Hundredths(record.cpu_min)
    } else if i == 6 {
        FieldValue::Hundredths(record.cpu_max)
    } else if i == 7 {
        FieldValue::Whole(record.mem_avg)
    } else if i == 8 {
        FieldValue::Whole(record.mem_min)
    } else if i == 9 {
        FieldValue::Whole(record.mem_max)
    } else if i == 10 {
        FieldValue::Whole(record.net_rx_delta)
    } else if i == 11 {
        FieldValue::Whole(record.net_tx_delta)
    } else {
        FieldValue::Whole(record.sample_count)
    }
}

/// The fields of a record, by name and value, in the order of the line.
pub open spec fn fields_of(record: SummaryView) -> Seq<(Seq<char>, FieldValue)> {
    Seq::new(FIELD_COUNT as nat, |i: int| (name_of(i), value_of(record, i)))
}

/// The hexadecimal digit for `d`, for `d` under sixteen.
pub open spec fn hex_digit(d: nat) -> char {
    if d < 10 {
        (0x30 + d) as char
    } else {
        (0x57 + d) as char
    }
}

/// How one character of a text is written.
pub open spec fn escape_of(c: char) -> Seq<char> {
    if c == '"' {
        seq!['\\', '"']
    } else if c == '\\' {
        seq!['\\', '\\']
    } else if (c as u32) < 0x20 {
        seq!['\\', 'u', '0', '0', hex_digit((c as u32 / 16) as nat), hex_digit((c as u32 % 16) as nat)]
    } else {
        seq![c]
    }
}

/// How a text is written between its quotes.
pub open spec fn escaped(s: Seq<char>) -> Seq<char>
    decreases s.len(),
{
    if s.len() == 0 {
        Seq::empty()
    } else {
        escape_of(s[0]) + escaped(s.drop_first())
    }
}

/// How a number of hundredths is written: the whole part, a point, and two
/// decimals.
pub open spec fn hundredths_text(n: nat) -> Seq<char> {
    decimal_text(n / 100) + seq!['.', digit_char(n / 10 % 10), digit_char(n % 10)]
}

/// How a value is written.
pub open spec fn value_text(value: FieldValue) -> Seq<char> {
    match value {
        FieldValue::Text(s) => seq!['"'] + escaped(s) + seq!['"'],
        FieldValue::Whole(n) => decimal_text(n),
        FieldValue::Hundredths(n) => hundredths_text(n),
    }
}

/// How a field is written: its name in quotes, a colon, its value.
pub open spec fn field_text(name: Seq<char>, value: FieldValue) -> Seq<char> {
    seq!['"'] + name + seq!['"', ':'] + value_text(value)
}

/// How fields are written up to the end of the object: a comma behind each
/// but the last, the closing brace behind the last.
pub open spec fn fields_text(fields: Seq<(Seq<char>, FieldValue)>) -> Seq<char>
    decreases fields.len(),
{
    if fields.len() == 0 {
        Seq::empty()
    } else {
        field_text(fields[0].0, fields[0].1) + seq![if fields.len() == 1 {
            '}'
        } else {
            ','
        }] + fields_text(fields.drop_first())
    }
}

/// The line that stands for a record, without a line feed.
pub open spec fn line_of(record: SummaryView) -> Seq<char> {
    seq!['{'] + fields_text(fields_of(record))
}

/// The name of the field at place `i`.
pub fn field_name(i: usize) -> (name: &'static str)
    ensures
        name@ == name_of(i as int),
{
    if i == 0 {
        "host_identity"
    } else if i == 1 {
        "component_tag"
    } else if i == 2 {
        "timestamp"
    } else if i == 3 {
        "uptime_seconds"
    } else if i == 4 {
        "cpu_avg"
    } else if i == 5 {
        "cpu_min"
    } else if i == 6 {
        "cpu_max"
    } else if i == 7 {
        "mem_avg"
    } else if i == 8 {
        "mem_min"
    } else if i == 9 {
        "mem_max"
    } else if i == 10 {
        "net_rx_delta"
    } else if i == 11 {
        "net_tx_delta"
    } else {
        "sample_count"
    }
}

/// The value that `record` holds in the field at place `i`.
pub fn field_value(record: &SummaryRecord, i: usize) -> (value: Field)
    ensures
        value@ == value_of(record@, i as int),
{
    if i == 0 {
        Field::Text(record.host_identity.clone())
    } else if i == 1 {
        Field::Text(record.component_tag.clone())
    } else if i == 2 {
        Field::Whole(record.timestamp)
    } else if i == 3 {
        Field::Whole(record.uptime_seconds)
    } else if i == 4 {
        Field::Hundredths(record.cpu_avg)
    } else if i == 5 {
        Field::Hundredths(record.cpu_min)
    } else if i == 6 {
        Field::Hundredths(record.cpu_max)
    } else if i == 7 {
        Field::Whole(record.mem_avg)
    } else if i == 8 {
        Field::Whole(record.mem_min)
    } else if i == 9 {
        Field::Whole(record.mem_max)
    } else if i == 10 {
        Field::Whole(record.net_rx_delta)
    } else if i == 11 {
        Field::Whole(record.net_tx_delta)
    } else {
        Field::Whole(record.sample_count)
    }
}

/// A text with one more character is written as the text, then the
/// character.
proof fn lemma_escaped_push(s: Seq<char>, c: char)
    ensures
        escaped(s.push(c)) == escaped(s) + escape_of(c),
    decreases s.len(),
{
    if s.len() == 0 {
        assert(s.push(c).drop_first() =~= Seq::<char>::empty());
        assert(escaped(Seq::<char>::empty()) =~= Seq::<char>::empty());
        assert(s.push(c)[0] == c);
        assert(escaped(s.push(c)) =~= escaped(s) + escape_of(c));
    } else {
        lemma_escaped_push(s.drop_first(), c);
        assert(s.push(c).drop_first() =~= s.drop_first().push(c));
        assert(escaped(s.push(c)) =~= escaped(s) + escape_of(c));
    }
}

fn hex_char(d: u8) -> (c: char)
    requires
        d < 16,
    ensures
        c == hex_digit(d as nat),
{
    if d < 10 {
        (0x30 + d) as char
    } else {
        (0x57 + d) as char
    }
}

/// Appends `text` to `out` as it is written between quotes.
pub fn push_escaped(out: &mut String, text: &str)
    ensures
        final(out)@ == old(out)@ + escaped(text@),
{
    let chars = crate::text::chars_of(text);
    let mut i: usize = 0;
    assert(chars@.take(0) =~= Seq::<char>::empty());
    assert(out@ =~= old(out)@ + escaped(chars@.take(0)));
    while i < chars.len()
        invariant
            i <= chars.len(),
            out@ == old(out)@ + escaped(chars@.take(i as int)),
        decreases chars.len() - i,
    {
        let c = chars[i];
        let ghost before = out@;
        proof {
            lemma_escaped_push(chars@.take(i as int), c);
            assert(chars@.take(i as int).push(c) =~= chars@.take(i + 1));
        }
        let u: u32 = c as u32;
        if c == '"' {
            out.push('\\');
            out.push('"');
            assert(out@ =~= before + escape_of(c));
        } else if c == '\\' {
            out.push('\\');
            out.push('\\');
            assert(out@ =~= before + escape_of(c));
        } else if u < 0x20 {
            let b: u8 = u as u8;
            out.push('\\');
            out.push('u');
            out.push('0');
            out.push('0');
            out.push(hex_char(b / 16));
            out.push(hex_char(b % 16));
            assert(out@ =~= before + escape_of(c));
        } else {
            out.push(c);
            assert(out@ =~= before + escape_of(c));
        }
        assert(out@ =~= old(out)@ + escaped(chars@.take(i + 1)));
        i += 1;
    }
    assert(chars@.take(i as int) =~= chars@);
}

/// Appends a value to `out` as it is written.
pub fn push_value(out: &mut String, value: &Field)
    ensures
        final(out)@ == old(out)@ + value_text(value@),
{
    match value {
        Field::Text(s) => {
            out.push('"');
            push_escaped(out, s.as_str());
            out.push('"');
        },
        Field::Whole(n) => {
            push_decimal(out, *n);
        },
        Field::Hundredths(n) => {
            let n: u32 = *n;
            push_decimal(out, (n / 100) as u64);
            out.push('.');
            out.push((0x30 + (n / 10 % 10) as u8) as char);
            out.push((0x30 + (n % 10) as u8) as char);
        },
    }
    assert(out@ =~= old(out)@ + value_text(value@));
}

/// Appends a field to `out` as it is written.
pub fn push_field(out: &mut String, name: &str, value: &Field)
    ensures
        final(out)@ == old(out)@ + field_text(name@, value@),
{
    out.push('"');
    out.append(name);
    out.push('"');
    out.push(':');
    push_value(out, value);
    assert(out@ =~= old(out)@ + field_text(name@, value@));
}

/// Writes the line that stands for `record`, without a line feed.
pub fn encode(record: &SummaryRecord) -> (line: String)
    ensures
        line@ == line_of(record@),
{
    let mut out = String::new();
    out.push('{');
    let ghost fields = fields_of(record@);
    let mut i: usize = 0;
    assert(fields.skip(0) =~= fields);
    assert(out@ =~= seq!['{']);
    while i < FIELD_COUNT
        invariant
            i <= FIELD_COUNT,
            fields == fields_of(record@),
            out@ + fields_text(fields.skip(i as int)) == line_of(record@),
        decreases FIELD_COUNT - i,
    {
        let name = field_name(i);
        let value = field_value(record, i);
        let ghost before = out@;
        let ghost rest = fields.skip(i as int);
        proof {
            assert(rest.len() == FIELD_COUNT - i);
            assert(rest[0] == fields[i as int]);
            assert(rest.drop_first() =~= fields.skip(i + 1));
        }
        push_field(&mut out, name, &value);
        let last = i + 1 == FIELD_COUNT;
        out.push(if last { '}' } else { ',' });
        proof {
            let next = fields_text(fields.skip(i + 1));
            assert(out@ + next =~= before + fields_text(rest));
        }
        i += 1;
    }
    assert(fields.skip(i as int) =~= Seq::<(Seq<char>, FieldValue)>::empty());
    assert(out@ =~= out@ + fields_text(fields.skip(i as int)));
    out
}

/// Whether no character of `s` is a control character.
pub open spec fn printable(s: Seq<char>) -> bool {
    forall|i: int| 0 <= i < s.len() ==> (#[trigger] s[i]) as u32 >= 0x20
}

proof fn lemma_printable_concat(a: Seq<char>, b: Seq<char>)
    requires
        printable(a),
        printable(b),
    ensures
        printable(a + b),
{
    assert forall|i: int| 0 <= i < (a + b).len() implies (#[trigger] (a + b)[i]) as u32
        >= 0x20 by {
        if i < a.len() {
            assert((a + b)[i] == a[i]);
        } else {
            assert((a + b)[i] == b[i - a.len()]);
        }
    }
}

/// A text is written without control characters, whatever it holds.
proof fn lemma_escaped_printable(s: Seq<char>)
    ensures
        printable(escaped(s)),
    decreases s.len(),
{
    if s.len() > 0 {
        let c = s[0];
        let e = escape_of(c);
        if (c as u32) < 0x20 {
            let hi = hex_digit((c as u32 / 16) as nat);
            let lo = hex_digit((c as u32 % 16) as nat);
            assert(hi as u32 >= 0x30 && lo as u32 >= 0x30);
            assert(e[4] == hi && e[5] == lo);
        }
        assert(printable(e));
        lemma_escaped_printable(s.drop_first());
        lemma_printable_concat(e, escaped(s.drop_first()));
    }
}

proof fn lemma_decimal_printable(n: nat)
    ensures
        printable(decimal_text(n)),
{
    lemma_decimal_text_value(n);
    let d = decimal_text(n);
    assert forall|i: int| 0 <= i < d.len() implies (#[trigger] d[i]) as u32 >= 0x20 by {
        assert(is_digit(d[i]));
    }
}

proof fn lemma_names_printable(i: int)
    ensures
        printable(name_of(i)),
{
    reveal_strlit("host_identity");
    reveal_strlit("component_tag");
    reveal_strlit("timestamp");
    reveal_strlit("uptime_seconds");
    reveal_strlit("cpu_avg");
    reveal_strlit("cpu_min");
    reveal_strlit("cpu_max");
    reveal_strlit("mem_avg");
    reveal_strlit("mem_min");
    reveal_strlit("mem_max");
    reveal_strlit("net_rx_delta");
    reveal_strlit("net_tx_delta");
    reveal_strlit("sample_count");
}

proof fn lemma_field_printable(name: Seq<char>, value: FieldValue)
    requires
        printable(name),
    ensures
        printable(field_text(name, value)),
{
    let quote = seq!['"'];
    match value {
        FieldValue::Text(s) => {
            lemma_escaped_printable(s);
            lemma_printable_concat(quote, escaped(s));
            lemma_printable_concat(quote + escaped(s), quote);
        },
        FieldValue::Whole(n) => {
            lemma_decimal_printable(n);
        },
        FieldValue::Hundredths(n) => {
            lemma_decimal_printable(n / 100);
            let decimals = seq!['.', digit_char(n / 10 % 10), digit_char(n % 10)];
            assert(is_digit(decimals[1]) && is_digit(decimals[2]));
            assert(printable(decimals));
            lemma_printable_concat(decimal_text(n / 100), decimals);
        },
    }
    lemma_printable_concat(quote, name);
    lemma_printable_concat(quote + name, seq!['"', ':']);
    lemma_printable_concat(quote + name + seq!['"', ':'], value_text(value));
}

proof fn lemma_fields_printable(fields: Seq<(Seq<char>, FieldValue)>)
    requires
        forall|j: int| 0 <= j < fields.len() ==> printable(#[trigger] fields[j].0),
    ensures
        printable(fields_text(fields)),
    decreases fields.len(),
{
    if fields.len() > 0 {
        let rest = fields.drop_first();
        assert forall|j: int| 0 <= j < rest.len() implies printable(#[trigger] rest[j].0) by {
            assert(rest[j] == fields[j + 1]);
        }
        lemma_fields_printable(rest);
        lemma_field_printable(fields[0].0, fields[0].1);
        let closer = seq![if fields.len() == 1 {
            '}'
        } else {
            ','
        }];
        lemma_printable_concat(field_text(fields[0].0, fields[0].1), closer);
        lemma_printable_concat(field_text(fields[0].0, fields[0].1) + closer, fields_text(rest));
    }
}

/// A record takes one line: what is written for it holds no control
/// character, and so no line feed, whatever its texts hold.
pub proof fn lemma_record_takes_one_line(record: SummaryView)
    ensures
        printable(line_of(record)),
        !line_of(record).contains('\n'),
{
    let fields = fields_of(record);
    assert forall|j: int| 0 <= j < fields.len() implies printable(#[trigger] fields[j].0) by {
        lemma_names_printable(j);
    }
    lemma_fields_printable(fields);
    lemma_printable_concat(seq!['{'], fields_text(fields));
}

} // verus!
