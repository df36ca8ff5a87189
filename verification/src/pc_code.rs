//! The first CSV rendering of the collector: humidity, temperature, then the
//! device's own time in seconds.

use vstd::prelude::*;
use vstd::string::*;

use crate::csv::{
    lemma_field_chars_facts, lemma_tenths_field, reading_count, reading_time, tenths_text,
    tenths_to_text,
};
use crate::text::{
    decimal, lemma_decimal, lemma_digits_lack, lemma_parse_decimal, lemma_split_on_join,
    lemma_split_on_without_sep, parsed_u32, push_char, split_on, u32_to_decimal,
};

verus! {

/// The line of reading `i`: humidity, temperature and time, each followed by
/// a comma, then a line break.
pub open spec fn plain_csv_line(data: Seq<u8>, i: int) -> Seq<char> {
    tenths_text(data[i * 7], data[i * 7 + 1]) + seq![','] + tenths_text(
        data[i * 7 + 2],
        data[i * 7 + 3],
    ) + seq![','] + decimal(reading_time(data, i)) + seq![',', '\n']
}

/// The lines of the first `k` readings.
pub open spec fn plain_csv_lines(data: Seq<u8>, k: int) -> Seq<char>
    decreases k,
{
    if k <= 0 {
        Seq::<char>::empty()
    } else {
        plain_csv_lines(data, k - 1) + plain_csv_line(data, k - 1)
    }
}

/// The heading line of a new file.
pub open spec fn plain_csv_heading() -> Seq<char> {
    "Humidity,Temperature,Time,\n"@
}

/// The CSV text of `data`: the heading if asked for, then one line per
/// whole reading.
pub open spec fn plain_csv_text(data: Seq<u8>, heading: bool) -> Seq<char> {
    (if heading {
        plain_csv_heading()
    } else {
        Seq::<char>::empty()
    }) + plain_csv_lines(data, reading_count(data) as int)
}

/// The line of reading `i`.
fn plain_csv_line_text(data: &Vec<u8>, i: usize) -> (line: String)
    requires
        i < reading_count(data@),
    ensures
        line@ == plain_csv_line(data@, i as int),
{
    let mut csv_text = String::new();
    assert(i * 7 + 6 < data.len()) by (nonlinear_arith)
        requires
            i < data.len() / 7,
    ;
    let base = i * 7;
    let humidity = tenths_to_text(data[base], data[base + 1]);
    csv_text.append(humidity.as_str());
    push_char(&mut csv_text, ',');
    let temperature = tenths_to_text(data[base + 2], data[base + 3]);
    csv_text.append(temperature.as_str());
    push_char(&mut csv_text, ',');
    let b4 = data[base + 4];
    let b5 = data[base + 5];
    let b6 = data[base + 6];
    assert(((b5 as u32) << 8) == b5 as u32 * 256) by (bit_vector);
    assert(((b6 as u32) << 16) == b6 as u32 * 65536) by (bit_vector);
    let time: u32 = (b4 as u32) + ((b5 as u32) << 8) + ((b6 as u32) << 16);
    let time_str = u32_to_decimal(time);
    csv_text.append(time_str.as_str());
    push_char(&mut csv_text, ',');
    push_char(&mut csv_text, '\n');
    assert(csv_text@ =~= plain_csv_line(data@, i as int));
    csv_text
}

/// Renders the readings in `data` as CSV lines
/// `humidity,temperature,time,`, with the heading first when `heading` is
/// set.
pub fn to_csv_text(data: Vec<u8>, heading: bool) -> (csv: String)
    ensures
        csv@ == plain_csv_text(data@, heading),
{
    let mut csv_text = String::new();
    if heading {
        csv_text.append("Humidity,Temperature,Time,\n");
    }
    let ghost start = csv_text@;
    let count = data.len() / 7;
    let mut i: usize = 0;
    while i < count
        invariant
            i <= count,
            count == reading_count(data@),
            start == (if heading { plain_csv_heading() } else { Seq::<char>::empty() }),
            csv_text@ == start + plain_csv_lines(data@, i as int),
        decreases count - i,
    {
        let line = plain_csv_line_text(&data, i);
        csv_text.append(line.as_str());
        i = i + 1;
    }
    csv_text
}


/// The fields of a line: humidity, temperature, then the time that bytes 4,
/// 5 and 6 of the reading write little-endian (`b4 + 256 * b5 + 65536 * b6`)
/// in seconds, which reads back as that number; the line ends with a comma
/// and a line break.
pub proof fn law_plain_line_fields(data: Seq<u8>, i: int)
    requires
        0 <= i < reading_count(data),
    ensures
        ({
            let time = data[i * 7 + 4] as nat + 256 * data[i * 7 + 5] as nat + 65536 * data[i * 7
                + 6] as nat;
            let fields = split_on(plain_csv_line(data, i), ',');
            &&& fields == seq![
                tenths_text(data[i * 7], data[i * 7 + 1]),
                tenths_text(data[i * 7 + 2], data[i * 7 + 3]),
                decimal(time),
                seq!['\n'],
            ]
            &&& parsed_u32(fields[2]) == Some(time as u32)
            &&& time == reading_time(data, i)
        }),
{
    let time = data[i * 7 + 4] as nat + 256 * data[i * 7 + 5] as nat + 65536 * data[i * 7 + 6] as nat;
    let h = tenths_text(data[i * 7], data[i * 7 + 1]);
    let t = tenths_text(data[i * 7 + 2], data[i * 7 + 3]);
    let d = decimal(time);
    let nl = seq!['\n'];
    lemma_tenths_field(data[i * 7], data[i * 7 + 1]);
    lemma_tenths_field(data[i * 7 + 2], data[i * 7 + 3]);
    lemma_field_chars_facts(h);
    lemma_field_chars_facts(t);
    lemma_decimal(time);
    lemma_digits_lack(d, ',');
    assert(!nl.contains(',')) by {
        if nl.contains(',') {
            let j = choose|j: int| 0 <= j < nl.len() && nl[j] == ',';
            assert(nl[j] == '\n');
        }
    }
    lemma_split_on_without_sep(h, ',');
    lemma_split_on_without_sep(t, ',');
    lemma_split_on_without_sep(d, ',');
    lemma_split_on_without_sep(nl, ',');
    let r3 = d + seq![','] + nl;
    let r2 = t + seq![','] + r3;
    assert(plain_csv_line(data, i) =~= h + seq![','] + r2);
    lemma_split_on_join(d, nl, ',');
    lemma_split_on_join(t, r3, ',');
    lemma_split_on_join(h, r2, ',');
    assert(split_on(plain_csv_line(data, i), ',') =~= seq![h, t, d, nl]);
    assert(time <= u32::MAX);
    lemma_parse_decimal(time as u32);
}

} // verus!
