//! The CSV rendering of readings, the day-hour-minute-second time format,
//! and the parsing of the time of an earlier record.

use vstd::prelude::*;
use vstd::string::*;
use vstd::arithmetic::div_mod::*;
use vstd::arithmetic::mul::*;

use crate::text::{
    all_digits, decimal, digit_char, digit_to_char, digits_value, is_digit, lemma_decimal,
    lemma_digit_char, lemma_digits_lack, lemma_leading_zero, lemma_parse_decimal,
    lemma_parse_digits, lemma_split_on_join, lemma_split_on_nonempty, lemma_split_on_without_sep,
    parse_unsigned, parsed_u32, push_char, split_on, split_pieces, u32_to_decimal, views,
};
use vstd::utf8::{
    decode_utf8, encode_utf8, encode_utf8_decode_utf8, encode_utf8_valid_utf8, is_ascii_chars,
    is_ascii_chars_encode_utf8, valid_utf8,
};

verus! {

/// Seconds in one unit of field `index` of the `days-hours-minutes-seconds`
/// format (and 1 past the last field).
pub open spec fn seconds_per_unit(index: int) -> nat {
    if index <= 0 {
        86400
    } else if index == 1 {
        3600
    } else if index == 2 {
        60
    } else {
        1
    }
}

/// Converts `val` units of field `index` (0 days, 1 hours, 2 minutes,
/// 3 seconds) to seconds.
pub fn hour_format_to_seconds(val: u32, index: u32) -> (secs: u32)
    requires
        index < 4,
        val * seconds_per_unit(index as int) <= u32::MAX,
    ensures
        secs == val * seconds_per_unit(index as int),
{
    let multiples: [u32; 4] = [24, 60, 60, 1];
    let mut sum = val;
    let mut i: i32 = 3;
    while i >= index as i32
        invariant
            index < 4,
            index as int - 1 <= i <= 3,
            multiples@ == seq![24u32, 60, 60, 1],
            sum == val * seconds_per_unit(i + 1),
            val * seconds_per_unit(index as int) <= u32::MAX,
        decreases i + 1,
    {
        proof {
            let u = seconds_per_unit(i + 1) as int;
            let m = multiples@[i as int] as int;
            assert(seconds_per_unit(i as int) == m * u);
            assert(seconds_per_unit(i as int) <= seconds_per_unit(index as int));
            assert(val * (m * u) <= val * seconds_per_unit(index as int)) by (nonlinear_arith)
                requires
                    m * u <= seconds_per_unit(index as int),
                    0 <= val,
            ;
            assert((val * u) * m == val * (m * u)) by (nonlinear_arith);
        }
        sum = sum * multiples[i as usize];
        i = i - 1;
    }
    sum
}

/// The seconds of `t` left once the fields before `index` are taken out.
pub open spec fn remaining_seconds(t: nat, index: int) -> nat {
    if index <= 0 {
        t
    } else {
        t % seconds_per_unit(index - 1)
    }
}

/// Field `index` of `t` in the `days-hours-minutes-seconds` format.
pub open spec fn hour_field(t: nat, index: int) -> nat {
    remaining_seconds(t, index) / seconds_per_unit(index)
}

/// A number written with at least two digits.
pub open spec fn two_digits(n: nat) -> Seq<char> {
    if decimal(n).len() == 1 {
        seq!['0'] + decimal(n)
    } else {
        decimal(n)
    }
}

/// The first `k` fields of the `days-hours-minutes-seconds` rendering of
/// `t`, each followed by `-` but the last.
pub open spec fn hour_text_prefix(t: nat, k: int) -> Seq<char>
    decreases k,
{
    if k <= 0 {
        Seq::<char>::empty()
    } else {
        hour_text_prefix(t, k - 1) + two_digits(hour_field(t, k - 1)) + if k - 1 != 3 {
            seq!['-']
        } else {
            Seq::<char>::empty()
        }
    }
}

/// The `days-hours-minutes-seconds` rendering of `t`, such as `01-02-03-04`.
pub open spec fn hour_text(t: nat) -> Seq<char> {
    hour_text_prefix(t, 4)
}

/// Writes `val` seconds as `dd-hh-mm-ss`: days, hours, minutes and seconds,
/// each with at least two digits.
pub fn seconds_format_to_hour(val: u32) -> (formatted: String)
    ensures
        formatted@ == hour_text(val as nat),
{
    let multiples: [u32; 4] = [24, 60, 60, 1];
    let mut seconds_left = val;
    let mut formatted_time = String::new();
    let mut i: usize = 0;
    while i < 4
        invariant
            i <= 4,
            multiples@ == seq![24u32, 60, 60, 1],
            seconds_left == remaining_seconds(val as nat, i as int),
            formatted_time@ == hour_text_prefix(val as nat, i as int),
        decreases 4 - i,
    {
        let mut corrected_time = seconds_left;
        let mut j: usize = 4;
        while j > i
            invariant
                i < j <= 4 || j == i,
                i < 4,
                multiples@ == seq![24u32, 60, 60, 1],
                corrected_time == seconds_left as nat / seconds_per_unit(j as int),
            decreases j,
        {
            proof {
                assert(seconds_per_unit(j - 1) == seconds_per_unit(j as int)
                    * multiples@[j - 1]);
                lemma_div_denominator(
                    seconds_left as int,
                    seconds_per_unit(j as int) as int,
                    multiples@[j - 1] as int,
                );
            }
            corrected_time = corrected_time / multiples[j - 1];
            j = j - 1;
        }
        proof {
            let u = seconds_per_unit(i as int) as int;
            lemma_fundamental_div_mod(seconds_left as int, u);
            lemma_mul_is_commutative(u, corrected_time as int);
            if i > 0 {
                let b: int = seconds_per_unit(i - 1) as int / u;
                assert(seconds_per_unit(i - 1) == u * b);
                lemma_mod_mod(val as int, u, b);
            }
        }
        seconds_left = seconds_left - hour_format_to_seconds(corrected_time, i as u32);
        let val_text = u32_to_decimal(corrected_time);
        if val_text.as_str().unicode_len() == 1 {
            push_char(&mut formatted_time, '0');
        }
        formatted_time.append(val_text.as_str());
        if i != 3 {
            push_char(&mut formatted_time, '-');
        }
        assert(formatted_time@ =~= hour_text_prefix(val as nat, i + 1));
        i = i + 1;
    }
    formatted_time
}

/// The text that `f32` display gives for `whole + tenth / 10`: the value in
/// tenths written in base ten, with the tenth after a `.` unless it is 0.
pub open spec fn tenths_text(whole: u8, tenth: u8) -> Seq<char> {
    let t = whole as nat * 10 + tenth as nat;
    if t % 10 == 0 {
        decimal(t / 10)
    } else {
        decimal(t / 10) + seq!['.', digit_char(t % 10)]
    }
}

/// Writes the sensor value `whole + tenth / 10` (humidity or temperature) as
/// `f32` display does, such as `23.5` or `24`.
pub fn tenths_to_text(whole: u8, tenth: u8) -> (text: String)
    ensures
        text@ == tenths_text(whole, tenth),
{
    let t: u32 = whole as u32 * 10 + tenth as u32;
    let mut text = u32_to_decimal(t / 10);
    if t % 10 != 0 {
        push_char(&mut text, '.');
        push_char(&mut text, digit_to_char(t % 10));
    }
    assert(text@ =~= tenths_text(whole, tenth));
    text
}

/// The time of reading `i`: bytes 4, 5 and 6 of the reading, little-endian.
pub open spec fn reading_time(data: Seq<u8>, i: int) -> nat {
    data[i * 7 + 4] as nat + data[i * 7 + 5] as nat * 256 + data[i * 7 + 6] as nat * 65536
}

/// The number of whole readings in `data`; a trailing partial one is left out.
pub open spec fn reading_count(data: Seq<u8>) -> nat {
    data.len() / 7
}

/// True when every reading's time plus `offset` fits a `u32`.
pub open spec fn times_fit(data: Seq<u8>, offset: u32) -> bool {
    forall|i: int| 0 <= i < reading_count(data) ==> #[trigger] reading_time(data, i) + offset
        <= u32::MAX
}

/// A time as the CSV writes it: plain seconds, or `dd-hh-mm-ss`.
pub open spec fn time_text(t: nat, use_hour_format: bool) -> Seq<char> {
    if use_hour_format {
        hour_text(t)
    } else {
        decimal(t)
    }
}

/// The CSV line of reading `i`: time, humidity, temperature, each followed
/// by a comma, then a line break.
pub open spec fn csv_line(data: Seq<u8>, i: int, time_offset: u32, use_hour_format: bool) -> Seq<
    char,
> {
    time_text(reading_time(data, i) + time_offset as nat, use_hour_format) + seq![','] + tenths_text(
        data[i * 7],
        data[i * 7 + 1],
    ) + seq![','] + tenths_text(data[i * 7 + 2], data[i * 7 + 3]) + seq![',', '\n']
}

/// The CSV lines of the first `k` readings.
pub open spec fn csv_lines(data: Seq<u8>, k: int, time_offset: u32, use_hour_format: bool) -> Seq<
    char,
>
    decreases k,
{
    if k <= 0 {
        Seq::<char>::empty()
    } else {
        csv_lines(data, k - 1, time_offset, use_hour_format) + csv_line(
            data,
            k - 1,
            time_offset,
            use_hour_format,
        )
    }
}

/// The heading line of a new CSV file.
pub open spec fn csv_heading() -> Seq<char> {
    "Time,Humidity,Temperature,\n"@
}

/// The CSV text of `data`: the heading if asked for, then one line per
/// whole reading.
pub open spec fn csv_text(data: Seq<u8>, heading: bool, time_offset: u32, use_hour_format: bool) -> Seq<
    char,
> {
    (if heading {
        csv_heading()
    } else {
        Seq::<char>::empty()
    }) + csv_lines(data, reading_count(data) as int, time_offset, use_hour_format)
}

/// The CSV line of reading `i`.
fn csv_line_text(data: &Vec<u8>, i: usize, time_offset: u32, use_hour_format: bool) -> (line: String)
    requires
        i < reading_count(data@),
        times_fit(data@, time_offset),
    ensures
        line@ == csv_line(data@, i as int, time_offset, use_hour_format),
{
    let mut csv_text = String::new();
    assert(i * 7 + 6 < data.len()) by (nonlinear_arith)
        requires
            i < data.len() / 7,
    ;
    let base = i * 7;
    let b4 = data[base + 4];
    let b5 = data[base + 5];
    let b6 = data[base + 6];
    assert(((b5 as u32) << 8) == b5 as u32 * 256) by (bit_vector);
    assert(((b6 as u32) << 16) == b6 as u32 * 65536) by (bit_vector);
    assert(reading_time(data@, i as int) + time_offset <= u32::MAX);
    let time: u32 = (b4 as u32) + ((b5 as u32) << 8) + ((b6 as u32) << 16) + time_offset;
    let time_str = if use_hour_format {
        seconds_format_to_hour(time)
    } else {
        u32_to_decimal(time)
    };
    csv_text.append(time_str.as_str());
    push_char(&mut csv_text, ',');
    let humidity = tenths_to_text(data[base], data[base + 1]);
    csv_text.append(humidity.as_str());
    push_char(&mut csv_text, ',');
    let temperature = tenths_to_text(data[base + 2], data[base + 3]);
    csv_text.append(temperature.as_str());
    push_char(&mut csv_text, ',');
    push_char(&mut csv_text, '\n');
    assert(csv_text@ =~= csv_line(data@, i as int, time_offset, use_hour_format));
    csv_text
}

/// Renders the readings in `data` as CSV lines `time,humidity,temperature,`,
/// with the heading first when `heading` is set. Each time is the reading's
/// time plus `time_offset`, written as seconds or as `dd-hh-mm-ss`.
pub fn to_csv_text(data: Vec<u8>, heading: bool, time_offset: u32, use_hour_format: bool) -> (csv: String)
    requires
        times_fit(data@, time_offset),
    ensures
        csv@ == csv_text(data@, heading, time_offset, use_hour_format),
{
    let mut csv_text = String::new();
    if heading {
        csv_text.append("Time,Humidity,Temperature,\n");
    }
    let ghost start = csv_text@;
    assert(start == (if heading { csv_heading() } else { Seq::<char>::empty() }));
    let count = data.len() / 7;
    let mut i: usize = 0;
    while i < count
        invariant
            i <= count,
            count == reading_count(data@),
            times_fit(data@, time_offset),
            csv_text@ == start + csv_lines(data@, i as int, time_offset, use_hour_format),
        decreases count - i,
    {
        let line = csv_line_text(&data, i, time_offset, use_hour_format);
        csv_text.append(line.as_str());
        i = i + 1;
    }
    csv_text
}

/// The message of a time that does not parse as a `u32`.
pub open spec fn parse_failure_text(time: Seq<char>, failed_msg: Seq<char>) -> Seq<char> {
    "    failed to convert prev time \""@ + time + "\" to u32 number\n"@ + failed_msg
}

/// Parses `time` as a `u32`, as `str::parse` does; on failure the error
/// names the text and ends with `failed_msg`.
pub fn parse_string_to_u32(time: &str, failed_msg: &str) -> (r: Result<u32, String>)
    ensures
        match parsed_u32(time@) {
            Some(v) => r == Ok::<u32, String>(v),
            None => r matches Err(e) && e@ == parse_failure_text(time@, failed_msg@),
        },
{
    match parse_unsigned(time, u32::MAX) {
        Some(v) => Ok(v),
        None => {
            let mut e = String::new();
            e.append("    failed to convert prev time \"");
            e.append(time);
            e.append("\" to u32 number\n");
            e.append(failed_msg);
            Err(e)
        },
    }
}

/// Field `i` of a `dd-hh-mm-ss` record: its `i`-th piece between `-`, or
/// the text `Missing Time Record` where the record has fewer pieces.
pub open spec fn hour_piece(time: Seq<char>, i: int) -> Seq<char> {
    let pieces = split_on(time, '-');
    if i < pieces.len() {
        pieces[i]
    } else {
        "Missing Time Record"@
    }
}

/// Reading the first `k` fields of a `dd-hh-mm-ss` record: the seconds they
/// add up to, or the index of the first field that is no `u32`.
pub open spec fn hour_parse(time: Seq<char>, k: int) -> Result<nat, int>
    decreases k,
{
    if k <= 0 {
        Ok(0)
    } else {
        match hour_parse(time, k - 1) {
            Err(j) => Err(j),
            Ok(t) => match parsed_u32(hour_piece(time, k - 1)) {
                None => Err(k - 1),
                Some(v) => Ok(t + (v as nat) * seconds_per_unit(k - 1)),
            },
        }
    }
}

/// True when reading a `dd-hh-mm-ss` record never sums past `u32::MAX`.
pub open spec fn hour_time_fits(time: Seq<char>) -> bool {
    forall|k: int|
        0 <= k <= 4 ==> (#[trigger] hour_parse(time, k) matches Ok(t) ==> t <= u32::MAX)
}

/// What reading the time of an earlier record yields: as `dd-hh-mm-ss` when
/// `as_24` is set, else as plain seconds.
pub open spec fn prev_time_result(time: Seq<char>, as_24: bool, failed_msg: Seq<char>) -> Result<
    u32,
    Seq<char>,
> {
    if as_24 {
        match hour_parse(time, 4) {
            Ok(t) => Ok(t as u32),
            Err(j) => Err(parse_failure_text(hour_piece(time, j), failed_msg)),
        }
    } else {
        match parsed_u32(time) {
            Some(v) => Ok(v),
            None => Err(parse_failure_text(time, failed_msg)),
        }
    }
}

/// Once a field fails, reading more fields fails at the same field.
pub proof fn lemma_hour_parse_err_stays(time: Seq<char>, k: int, m: int)
    requires
        k <= m,
        hour_parse(time, k) is Err,
    ensures
        hour_parse(time, m) == hour_parse(time, k),
    decreases m - k,
{
    if k < m {
        lemma_hour_parse_err_stays(time, k, m - 1);
    }
}

/// Reads the time of an earlier record: `dd-hh-mm-ss` when `as_24` is set
/// (fields past the fourth are ignored), else plain seconds.
pub fn parse_prev_time(time: &str, as_24: bool, failed_msg: &str) -> (r: Result<u32, String>)
    requires
        as_24 ==> hour_time_fits(time@),
    ensures
        match prev_time_result(time@, as_24, failed_msg@) {
            Ok(v) => r == Ok::<u32, String>(v),
            Err(m) => r matches Err(e) && e@ == m,
        },
{
    if as_24 {
        let pieces = split_pieces(time, '-');
        let mut offset: u32 = 0;
        let mut i: usize = 0;
        while i < 4
            invariant
                i <= 4,
                as_24,
                hour_time_fits(time@),
                views(pieces@) == split_on(time@, '-'),
                hour_parse(time@, i as int) == Ok::<nat, int>(offset as nat),
            decreases 4 - i,
        {
            let piece: &str = if i < pieces.len() {
                pieces[i].as_str()
            } else {
                "Missing Time Record"
            };
            assert(piece@ == hour_piece(time@, i as int));
            let v = match parse_string_to_u32(piece, failed_msg) {
                Ok(v) => v,
                Err(e) => {
                    proof {
                        assert(hour_parse(time@, i + 1) == Err::<nat, int>(i as int));
                        lemma_hour_parse_err_stays(time@, i + 1, 4);
                    }
                    return Err(e);
                },
            };
            assert(hour_parse(time@, i + 1) matches Ok(t) && t <= u32::MAX);
            offset = offset + hour_format_to_seconds(v, i as u32);
            i = i + 1;
        }
        Ok(offset)
    } else {
        parse_string_to_u32(time, failed_msg)
    }
}

/// Tells whether reading `time` as a `dd-hh-mm-ss` record stays within
/// `u32` seconds.
pub fn fits_hour_format(time: &str) -> (ok: bool)
    ensures
        ok == hour_time_fits(time@),
{
    let pieces = split_pieces(time, '-');
    let mut total: u64 = 0;
    let mut i: usize = 0;
    while i < 4
        invariant
            i <= 4,
            views(pieces@) == split_on(time@, '-'),
            hour_parse(time@, i as int) == Ok::<nat, int>(total as nat),
            total <= u32::MAX,
            forall|k: int|
                0 <= k <= i ==> (#[trigger] hour_parse(time@, k) matches Ok(t) ==> t <= u32::MAX),
        decreases 4 - i,
    {
        let piece: &str = if i < pieces.len() {
            pieces[i].as_str()
        } else {
            "Missing Time Record"
        };
        assert(piece@ == hour_piece(time@, i as int));
        match parse_unsigned(piece, u32::MAX) {
            None => {
                assert forall|k: int|
                    0 <= k <= 4 implies (#[trigger] hour_parse(time@, k) matches Ok(t) ==> t
                    <= u32::MAX) by {
                    if k > i {
                        assert(hour_parse(time@, i + 1) is Err);
                        lemma_hour_parse_err_stays(time@, i + 1, k);
                    }
                }
                return true;
            },
            Some(v) => {
                let unit = hour_format_to_seconds(1, i as u32) as u64;
                assert(v as u64 * unit <= 0xffff_ffff * 86400) by (nonlinear_arith)
                    requires
                        v <= 0xffff_ffff,
                        unit <= 86400,
                ;
                total = total + v as u64 * unit;
                assert(hour_parse(time@, i + 1) == Ok::<nat, int>(total as nat));
                if total > u32::MAX as u64 {
                    assert(!(hour_parse(time@, i + 1) matches Ok(t) ==> t <= u32::MAX));
                    return false;
                }
            },
        }
        i = i + 1;
    }
    true
}

/// The closing words of every message about a missing earlier time.
pub const PREVIOUS_OFFSET_FAILED_MSG: &'static str =
    "    Warning: Asked for offset with previous time, but no previous time could be found\n";

/// The first field of the last line of `text`: the time of its last record.
pub open spec fn record_time(text: Seq<char>) -> Seq<char> {
    split_on(split_on(text, '\n').last(), ',')[0]
}

/// The first field of the last line of `text`, as `text.split('\n').last()`
/// then `.split(',').next()` give it.
pub fn last_record_time(text: &str) -> (time: String)
    ensures
        time@ == record_time(text@),
{
    let lines = split_pieces(text, '\n');
    proof {
        lemma_split_on_nonempty(text@, '\n');
    }
    let last = &lines[lines.len() - 1];
    assert(last@ == split_on(text@, '\n').last());
    let fields = split_pieces(last.as_str(), ',');
    proof {
        lemma_split_on_nonempty(last@, ',');
    }
    assert(fields@[0]@ == record_time(text@));
    fields[0].clone()
}

/// Calls `std::str::from_utf8`, which gives the text that `bytes` encode when
/// they are valid UTF-8 and an error otherwise; the contract states that with
/// vstd's definitions of valid UTF-8 and of its decoding.
#[verifier::external_body]
fn utf8_text(bytes: &[u8]) -> (text: Option<&str>)
    ensures
        text is Some <==> valid_utf8(bytes@),
        text matches Some(t) ==> t@ == decode_utf8(bytes@),
{
    std::str::from_utf8(bytes).ok()
}

/// What the end of an existing CSV file tells of its last time.
pub enum PreviousTime {
    /// The last time, read in the format asked for.
    Found(u32),
    /// The last time, read in the other format.
    OtherFormat(u32),
    /// Neither format reads; the error of the format asked for.
    Unparsable(String),
    /// The bytes are no UTF-8 text.
    InvalidText,
    /// Reading the `dd-hh-mm-ss` record sums past `u32::MAX` seconds.
    TooLarge,
}

/// True when reading `time` in the formats tried, in the order tried, stays
/// within `u32` seconds.
pub open spec fn record_time_fits(time: Seq<char>, as_24: bool) -> bool {
    (as_24 || parsed_u32(time) is None) ==> hour_time_fits(time)
}

/// Reads the last time of a CSV file from its end: the format asked for
/// first, then the other one.
pub fn previous_time_of_record(time: &str, as_24: bool) -> (r: PreviousTime)
    requires
        record_time_fits(time@, as_24),
    ensures
        match prev_time_result(time@, as_24, PREVIOUS_OFFSET_FAILED_MSG@) {
            Ok(v) => r == PreviousTime::Found(v),
            Err(m) => match prev_time_result(time@, !as_24, PREVIOUS_OFFSET_FAILED_MSG@) {
                Ok(v) => r == PreviousTime::OtherFormat(v),
                Err(_) => r matches PreviousTime::Unparsable(e) && e@ == m,
            },
        },
{
    match parse_prev_time(time, as_24, PREVIOUS_OFFSET_FAILED_MSG) {
        Ok(num) => PreviousTime::Found(num),
        Err(e) => match parse_prev_time(time, !as_24, PREVIOUS_OFFSET_FAILED_MSG) {
            Ok(num) => PreviousTime::OtherFormat(num),
            Err(_) => PreviousTime::Unparsable(e),
        },
    }
}

/// Reads the last time of a CSV file from the bytes at its end (the last
/// line without its closing `,` and line break, and what precedes it).
pub fn previous_time(tail: &[u8], as_24: bool) -> (r: PreviousTime)
    ensures
        !valid_utf8(tail@) ==> r is InvalidText,
        valid_utf8(tail@) ==> {
            let time = record_time(decode_utf8(tail@));
            if !record_time_fits(time, as_24) {
                r is TooLarge
            } else {
                match prev_time_result(time, as_24, PREVIOUS_OFFSET_FAILED_MSG@) {
                    Ok(v) => r == PreviousTime::Found(v),
                    Err(m) => match prev_time_result(time, !as_24, PREVIOUS_OFFSET_FAILED_MSG@) {
                        Ok(v) => r == PreviousTime::OtherFormat(v),
                        Err(_) => r matches PreviousTime::Unparsable(e) && e@ == m,
                    },
                }
            }
        },
{
    match utf8_text(tail) {
        None => PreviousTime::InvalidText,
        Some(text) => {
            let time = last_record_time(text);
            let checked_as_24 = as_24 || parse_unsigned(time.as_str(), u32::MAX).is_none();
            if checked_as_24 && !fits_hour_format(time.as_str()) {
                PreviousTime::TooLarge
            } else {
                previous_time_of_record(time.as_str(), as_24)
            }
        },
    }
}

/// A field written with at least two digits is digits that write it.
pub proof fn lemma_two_digits(n: nat)
    ensures
        two_digits(n).len() >= 1,
        all_digits(two_digits(n)),
        digits_value(two_digits(n)) == n,
{
    lemma_decimal(n);
    let d = decimal(n);
    if d.len() == 1 {
        lemma_leading_zero(d);
        assert forall|i: int| 0 <= i < two_digits(n).len() implies is_digit(
            #[trigger] two_digits(n)[i],
        ) by {
            if i > 0 {
                assert(two_digits(n)[i] == d[i - 1]);
            }
        }
    }
}

/// The pieces between `-` of the first `k + 1` fields of `t`.
proof fn lemma_hour_text_pieces(t: nat, k: int)
    requires
        0 <= k < 4,
    ensures
        split_on(hour_text_prefix(t, k) + two_digits(hour_field(t, k)), '-') == Seq::new(
            (k + 1) as nat,
            |j: int| two_digits(hour_field(t, j)),
        ),
    decreases k,
{
    let last = two_digits(hour_field(t, k));
    lemma_two_digits(hour_field(t, k));
    lemma_digits_lack(last, '-');
    lemma_split_on_without_sep(last, '-');
    if k == 0 {
        assert(hour_text_prefix(t, k) + last =~= last);
        assert(seq![last] =~= Seq::new(1, |j: int| two_digits(hour_field(t, j))));
    } else {
        let before = hour_text_prefix(t, k - 1) + two_digits(hour_field(t, k - 1));
        assert(hour_text_prefix(t, k) + last =~= before + seq!['-'] + last);
        lemma_split_on_join(before, last, '-');
        lemma_hour_text_pieces(t, k - 1);
        assert(Seq::new(k as nat, |j: int| two_digits(hour_field(t, j))) + seq![last] =~= Seq::new(
            (k + 1) as nat,
            |j: int| two_digits(hour_field(t, j)),
        ));
    }
}

/// The four fields of `t` write `t` again in seconds.
proof fn lemma_hour_fields_sum(t: nat)
    ensures
        hour_field(t, 0) * 86400 + hour_field(t, 1) * 3600 + hour_field(t, 2) * 60 + hour_field(
            t,
            3,
        ) == t,
{
    lemma_fundamental_div_mod(t as int, 86400);
    let r1 = t % 86400;
    lemma_fundamental_div_mod(r1 as int, 3600);
    lemma_mod_mod(t as int, 3600, 24);
    let r2 = t % 3600;
    lemma_fundamental_div_mod(r2 as int, 60);
    lemma_mod_mod(t as int, 60, 60);
    assert(hour_field(t, 3) == t % 60);
}

/// Writing `t` seconds as `dd-hh-mm-ss` and reading the text back as a
/// `dd-hh-mm-ss` record gives `t` again, and the reading never sums past
/// `u32::MAX`.
pub proof fn law_hour_format_round_trip(t: u32, failed_msg: Seq<char>)
    ensures
        hour_time_fits(hour_text(t as nat)),
        prev_time_result(hour_text(t as nat), true, failed_msg) == Ok::<u32, Seq<char>>(t),
{
    let n = t as nat;
    let text = hour_text(n);
    assert(text =~= hour_text_prefix(n, 3) + two_digits(hour_field(n, 3)));
    lemma_hour_text_pieces(n, 3);
    let pieces = split_on(text, '-');
    assert forall|j: int| 0 <= j < 4 implies parsed_u32(#[trigger] hour_piece(text, j)) == Some(
        hour_field(n, j) as u32,
    ) by {
        assert(hour_piece(text, j) == two_digits(hour_field(n, j)));
        lemma_two_digits(hour_field(n, j));
        assert(hour_field(n, j) <= n) by {
            lemma_div_is_ordered_by_denominator(
                remaining_seconds(n, j) as int,
                1,
                seconds_per_unit(j) as int,
            );
            if j > 0 {
                let m = seconds_per_unit(j - 1) as int;
                lemma_fundamental_div_mod(n as int, m);
                lemma_div_pos_is_pos(n as int, m);
                lemma_mul_nonnegative(m, n as int / m);
            }
        }
        lemma_parse_digits(two_digits(hour_field(n, j)), u32::MAX as nat);
    }
    lemma_hour_fields_sum(n);
    let f0 = hour_field(n, 0);
    let f1 = hour_field(n, 1);
    let f2 = hour_field(n, 2);
    let f3 = hour_field(n, 3);
    assert(hour_parse(text, 0) == Ok::<nat, int>(0));
    assert(parsed_u32(hour_piece(text, 0)) == Some(f0 as u32));
    assert(hour_parse(text, 1) == Ok::<nat, int>(f0 * 86400));
    assert(parsed_u32(hour_piece(text, 1)) == Some(f1 as u32));
    assert(hour_parse(text, 2) == Ok::<nat, int>(f0 * 86400 + f1 * 3600));
    assert(parsed_u32(hour_piece(text, 2)) == Some(f2 as u32));
    assert(hour_parse(text, 3) == Ok::<nat, int>(f0 * 86400 + f1 * 3600 + f2 * 60));
    assert(parsed_u32(hour_piece(text, 3)) == Some(f3 as u32));
    assert(hour_parse(text, 4) == Ok::<nat, int>(n));
}

/// Writing `t` as plain seconds and reading the text back as plain seconds
/// gives `t` again.
pub proof fn law_seconds_round_trip(t: u32, failed_msg: Seq<char>)
    ensures
        prev_time_result(decimal(t as nat), false, failed_msg) == Ok::<u32, Seq<char>>(t),
{
    lemma_parse_decimal(t);
}

/// True when every character of `s` is a digit, `-` or `.`: the characters
/// of a CSV field of this format.
pub open spec fn field_chars(s: Seq<char>) -> bool {
    forall|i: int|
        0 <= i < s.len() ==> is_digit(#[trigger] s[i]) || s[i] == '-' || s[i] == '.'
}

/// Field characters are ASCII, and hold neither line breaks nor commas.
pub proof fn lemma_field_chars_facts(s: Seq<char>)
    requires
        field_chars(s),
    ensures
        is_ascii_chars(s),
        !s.contains('\n'),
        !s.contains(','),
{
    assert forall|i: int| 0 <= i < s.len() implies '\0' <= #[trigger] s[i] <= '\u{7f}' by {
        assert(is_digit(s[i]) || s[i] == '-' || s[i] == '.');
    }
    if s.contains('\n') {
        let j = choose|j: int| 0 <= j < s.len() && s[j] == '\n';
        assert(is_digit(s[j]) || s[j] == '-' || s[j] == '.');
    }
    if s.contains(',') {
        let j = choose|j: int| 0 <= j < s.len() && s[j] == ',';
        assert(is_digit(s[j]) || s[j] == '-' || s[j] == '.');
    }
}

/// Joining field texts gives a field text.
proof fn lemma_field_chars_concat(a: Seq<char>, b: Seq<char>)
    requires
        field_chars(a),
        field_chars(b),
    ensures
        field_chars(a + b),
{
    assert forall|i: int| 0 <= i < (a + b).len() implies is_digit(#[trigger] (a + b)[i]) || (a
        + b)[i] == '-' || (a + b)[i] == '.' by {
        if i < a.len() {
            assert((a + b)[i] == a[i]);
        } else {
            assert((a + b)[i] == b[i - a.len()]);
        }
    }
}

/// Joining ASCII texts gives ASCII text.
proof fn lemma_ascii_concat(a: Seq<char>, b: Seq<char>)
    requires
        is_ascii_chars(a),
        is_ascii_chars(b),
    ensures
        is_ascii_chars(a + b),
{
    assert forall|i: int| 0 <= i < (a + b).len() implies '\0' <= #[trigger] (a + b)[i] <= '\u{7f}' by {
        if i < a.len() {
            assert((a + b)[i] == a[i]);
        } else {
            assert((a + b)[i] == b[i - a.len()]);
        }
    }
}

/// Digits are field text.
proof fn lemma_digits_field(d: Seq<char>)
    requires
        all_digits(d),
    ensures
        field_chars(d),
{
    assert forall|i: int| 0 <= i < d.len() implies is_digit(#[trigger] d[i]) || d[i] == '-' || d[i]
        == '.' by {
        assert(is_digit(d[i]));
    }
}

/// The rendering of a time is field text.
proof fn lemma_time_text_field(t: nat, use_hour_format: bool)
    ensures
        field_chars(time_text(t, use_hour_format)),
{
    lemma_decimal(t);
    lemma_digits_field(decimal(t));
    if use_hour_format {
        lemma_hour_prefix_field(t, 4);
    }
}

/// The first fields of a `dd-hh-mm-ss` rendering are field text.
proof fn lemma_hour_prefix_field(t: nat, k: int)
    ensures
        field_chars(hour_text_prefix(t, k)),
    decreases k,
{
    if k > 0 {
        lemma_hour_prefix_field(t, k - 1);
        lemma_two_digits(hour_field(t, k - 1));
        lemma_digits_field(two_digits(hour_field(t, k - 1)));
        lemma_field_chars_concat(hour_text_prefix(t, k - 1), two_digits(hour_field(t, k - 1)));
        let sep = if k - 1 != 3 {
            seq!['-']
        } else {
            Seq::<char>::empty()
        };
        assert(field_chars(sep));
        lemma_field_chars_concat(
            hour_text_prefix(t, k - 1) + two_digits(hour_field(t, k - 1)),
            sep,
        );
    }
}

/// A sensor value's text is field text.
pub proof fn lemma_tenths_field(whole: u8, tenth: u8)
    ensures
        field_chars(tenths_text(whole, tenth)),
{
    let t = whole as nat * 10 + tenth as nat;
    lemma_decimal(t / 10);
    lemma_digits_field(decimal(t / 10));
    if t % 10 != 0 {
        lemma_digit_char(t % 10);
        assert(field_chars(seq!['.', digit_char(t % 10)]));
        lemma_field_chars_concat(decimal(t / 10), seq!['.', digit_char(t % 10)]);
    }
}

/// The part of a CSV line before its closing `,` and line break.
pub open spec fn csv_line_body(data: Seq<u8>, i: int, time_offset: u32, use_hour_format: bool) -> Seq<
    char,
> {
    time_text(reading_time(data, i) + time_offset as nat, use_hour_format) + seq![','] + (
    tenths_text(data[i * 7], data[i * 7 + 1]) + seq![','] + tenths_text(
        data[i * 7 + 2],
        data[i * 7 + 3],
    ))
}

/// A CSV line is ASCII, its body has no line break, and its first field is
/// its time.
proof fn lemma_csv_line_shape(data: Seq<u8>, i: int, time_offset: u32, use_hour_format: bool)
    ensures
        csv_line(data, i, time_offset, use_hour_format) == csv_line_body(
            data,
            i,
            time_offset,
            use_hour_format,
        ) + seq![',', '\n'],
        is_ascii_chars(csv_line(data, i, time_offset, use_hour_format)),
        !csv_line_body(data, i, time_offset, use_hour_format).contains('\n'),
        split_on(csv_line_body(data, i, time_offset, use_hour_format), ',')[0] == time_text(
            reading_time(data, i) + time_offset as nat,
            use_hour_format,
        ),
{
    let time = time_text(reading_time(data, i) + time_offset as nat, use_hour_format);
    let hum = tenths_text(data[i * 7], data[i * 7 + 1]);
    let temp = tenths_text(data[i * 7 + 2], data[i * 7 + 3]);
    let rest = hum + seq![','] + temp;
    lemma_time_text_field(reading_time(data, i) + time_offset as nat, use_hour_format);
    lemma_tenths_field(data[i * 7], data[i * 7 + 1]);
    lemma_tenths_field(data[i * 7 + 2], data[i * 7 + 3]);
    lemma_field_chars_facts(time);
    lemma_field_chars_facts(hum);
    lemma_field_chars_facts(temp);
    let body = csv_line_body(data, i, time_offset, use_hour_format);
    assert(body == time + seq![','] + rest);
    assert(csv_line(data, i, time_offset, use_hour_format) =~= body + seq![',', '\n']);
    assert(is_ascii_chars(seq![',']));
    assert(is_ascii_chars(seq![',', '\n']));
    lemma_ascii_concat(hum, seq![',']);
    lemma_ascii_concat(hum + seq![','], temp);
    lemma_ascii_concat(time, seq![',']);
    lemma_ascii_concat(time + seq![','], rest);
    lemma_ascii_concat(body, seq![',', '\n']);
    assert(!body.contains('\n')) by {
        if body.contains('\n') {
            let j = choose|j: int| 0 <= j < body.len() && body[j] == '\n';
            if j < time.len() {
                assert(time[j] == '\n');
            } else if j == time.len() {
            } else if j < time.len() + 1 + hum.len() {
                assert(hum[j - time.len() - 1] == '\n');
            } else if j == time.len() + 1 + hum.len() {
            } else {
                assert(temp[j - time.len() - 2 - hum.len()] == '\n');
            }
        }
    }
    lemma_split_on_join(time, rest, ',');
    lemma_split_on_without_sep(time, ',');
}

/// The CSV lines of the first `k` readings are ASCII, and end with a line
/// break when there is one.
proof fn lemma_csv_lines_shape(data: Seq<u8>, k: int, time_offset: u32, use_hour_format: bool)
    ensures
        is_ascii_chars(csv_lines(data, k, time_offset, use_hour_format)),
        k >= 1 ==> csv_lines(data, k, time_offset, use_hour_format).last() == '\n',
    decreases k,
{
    if k > 0 {
        lemma_csv_lines_shape(data, k - 1, time_offset, use_hour_format);
        lemma_csv_line_shape(data, k - 1, time_offset, use_hour_format);
        lemma_ascii_concat(
            csv_lines(data, k - 1, time_offset, use_hour_format),
            csv_line(data, k - 1, time_offset, use_hour_format),
        );
    }
}

/// The heading is ASCII and ends with a line break.
proof fn lemma_heading_shape()
    ensures
        is_ascii_chars(csv_heading()),
        csv_heading().len() >= 1,
        csv_heading().last() == '\n',
{
    reveal_strlit("Time,Humidity,Temperature,\n");
}

/// Every CSV text this library writes is ASCII.
pub proof fn law_csv_text_ascii(data: Seq<u8>, heading: bool, time_offset: u32, use_hour_format: bool)
    ensures
        is_ascii_chars(csv_text(data, heading, time_offset, use_hour_format)),
{
    let head = if heading {
        csv_heading()
    } else {
        Seq::<char>::empty()
    };
    lemma_heading_shape();
    assert(is_ascii_chars(head));
    lemma_csv_lines_shape(data, reading_count(data) as int, time_offset, use_hour_format);
    lemma_ascii_concat(
        head,
        csv_lines(data, reading_count(data) as int, time_offset, use_hour_format),
    );
}

/// Encoding joined text encodes each part in turn.
proof fn lemma_encode_utf8_concat(x: Seq<char>, y: Seq<char>)
    ensures
        encode_utf8(x + y) == encode_utf8(x) + encode_utf8(y),
    decreases x.len(),
{
    if x.len() > 0 {
        assert((x + y).drop_first() =~= x.drop_first() + y);
        assert((x + y)[0] == x[0]);
        lemma_encode_utf8_concat(x.drop_first(), y);
        assert(encode_utf8(x + y) =~= encode_utf8(x) + encode_utf8(y));
    } else {
        assert(x + y =~= y);
    }
}

/// The bytes read from the end of text whose last 26 characters are ASCII
/// decode to its characters there.
proof fn lemma_tail_text(full: Seq<char>)
    requires
        full.len() >= 26,
        is_ascii_chars(full.subrange(full.len() - 26, full.len() as int)),
    ensures
        valid_utf8(record_tail(full)),
        decode_utf8(record_tail(full)) == full.subrange(full.len() - 26, full.len() - 2),
{
    let x = full.subrange(0, full.len() - 26);
    let y = full.subrange(full.len() - 26, full.len() as int);
    let window = full.subrange(full.len() - 26, full.len() - 2);
    assert(full =~= x + y);
    lemma_encode_utf8_concat(x, y);
    assert(window =~= y.subrange(0, 24));
    assert(is_ascii_chars(window)) by {
        assert forall|i: int| 0 <= i < window.len() implies '\0' <= #[trigger] window[i] <= '\u{7f}' by {
            assert(window[i] == y[i]);
        }
    }
    is_ascii_chars_encode_utf8(y);
    is_ascii_chars_encode_utf8(window);
    let bytes = encode_utf8(full);
    assert(bytes.len() == encode_utf8(x).len() + 26);
    assert(record_tail(full) =~= encode_utf8(window)) by {
        assert forall|i: int| 0 <= i < 24 implies #[trigger] record_tail(full)[i] == encode_utf8(
            window,
        )[i] by {
            assert(record_tail(full)[i] == encode_utf8(y)[i]);
            assert(window[i] == y[i]);
        }
    }
    encode_utf8_valid_utf8(window);
    encode_utf8_decode_utf8(window);
}

/// The time read from the end of lines is the first field of the last one.
proof fn lemma_window_record_time(prefix: Seq<char>, body: Seq<char>, time: Seq<char>)
    requires
        prefix.len() == 0 || prefix.last() == '\n' || body.len() == 24,
        !body.contains('\n'),
        split_on(body, ',')[0] == time,
        body.len() <= 24,
        prefix.len() + body.len() + 2 >= 26,
    ensures
        ({
            let full = prefix + body + seq![',', '\n'];
            record_time(full.subrange(full.len() - 26, full.len() - 2)) == time
        }),
{
    let full = prefix + body + seq![',', '\n'];
    let window = full.subrange(full.len() - 26, full.len() - 2);
    let m = body.len();
    lemma_split_on_without_sep(body, '\n');
    if m == 24 {
        assert(window =~= body);
    } else {
        let q = prefix.subrange(prefix.len() - (24 - m), prefix.len() - 1);
        assert(prefix[prefix.len() - 1] == '\n');
        assert(window =~= q + seq!['\n'] + body);
        lemma_split_on_join(q, body, '\n');
        lemma_split_on_nonempty(q, '\n');
        assert(split_on(window, '\n').last() == body);
    }
}

/// The bytes that an earlier time is read from: those of the last 26
/// characters of `text` but its last two.
pub open spec fn record_tail(text: Seq<char>) -> Seq<u8> {
    let bytes = encode_utf8(text);
    bytes.subrange(bytes.len() - 26, bytes.len() - 2)
}

/// Reading an earlier time from `tail` gives `t` in the format asked for.
pub open spec fn tail_reads_time(tail: Seq<u8>, as_24: bool, t: u32) -> bool {
    &&& valid_utf8(tail)
    &&& record_time_fits(record_time(decode_utf8(tail)), as_24)
    &&& prev_time_result(record_time(decode_utf8(tail)), as_24, PREVIOUS_OFFSET_FAILED_MSG@)
        == Ok::<u32, Seq<char>>(t)
}

/// What a CSV file gives back as its last time is the time of the last
/// reading written to it: after appending `to_csv_text` of readings to
/// earlier lines (or to nothing), reading the end of the file in the same
/// time format gives the last reading's time plus the offset. This holds when
/// the file has the 26 characters that are read, those of the earlier lines
/// among them are ASCII (the lines written here always are), the last line
/// but its closing `,` and line break has at most 24 characters, and a line
/// break comes before that line where it is shorter.
pub proof fn law_csv_time_read_back(
    before: Seq<char>,
    data: Seq<u8>,
    heading: bool,
    time_offset: u32,
    use_hour_format: bool,
)
    requires
        reading_count(data) >= 1,
        times_fit(data, time_offset),
        (before + csv_text(data, heading, time_offset, use_hour_format)).len() >= 26,
        forall|i: int|
            (before + csv_text(data, heading, time_offset, use_hour_format)).len() - 26 <= i
                < before.len() ==> '\0' <= #[trigger] before[i] <= '\u{7f}',
        csv_line(data, reading_count(data) - 1, time_offset, use_hour_format).len() <= 26,
        before.len() == 0 || before.last() == '\n' || heading || reading_count(data) >= 2
            || csv_line(data, reading_count(data) - 1, time_offset, use_hour_format).len() == 26,
    ensures
        tail_reads_time(
            record_tail(before + csv_text(data, heading, time_offset, use_hour_format)),
            use_hour_format,
            (reading_time(data, reading_count(data) - 1) + time_offset) as u32,
        ),
{
    let n = reading_count(data) as int;
    let last = n - 1;
    let full = before + csv_text(data, heading, time_offset, use_hour_format);
    let head = if heading {
        csv_heading()
    } else {
        Seq::<char>::empty()
    };
    lemma_heading_shape();
    lemma_csv_lines_shape(data, last, time_offset, use_hour_format);
    lemma_csv_line_shape(data, last, time_offset, use_hour_format);
    let prefix = before + head + csv_lines(data, last, time_offset, use_hour_format);
    let body = csv_line_body(data, last, time_offset, use_hour_format);
    assert(full =~= prefix + body + seq![',', '\n']);
    assert(prefix.len() == 0 || prefix.last() == '\n' || body.len() == 24) by {
        if last >= 1 {
            assert(prefix.last() == csv_lines(data, last, time_offset, use_hour_format).last());
        } else if heading {
            assert(csv_lines(data, last, time_offset, use_hour_format) =~= Seq::<char>::empty());
            assert(prefix =~= before + head);
        } else {
            assert(csv_lines(data, last, time_offset, use_hour_format) =~= Seq::<char>::empty());
            assert(prefix =~= before);
        }
    }
    assert(is_ascii_chars(full.subrange(full.len() - 26, full.len() as int))) by {
        let text = csv_text(data, heading, time_offset, use_hour_format);
        law_csv_text_ascii(data, heading, time_offset, use_hour_format);
        assert forall|i: int| 0 <= i < 26 implies '\0' <= #[trigger] full.subrange(
            full.len() - 26,
            full.len() as int,
        )[i] <= '\u{7f}' by {
            let k = full.len() - 26 + i;
            if k < before.len() {
                assert(full[k] == before[k]);
            } else {
                assert(full[k] == text[k - before.len()]);
            }
        }
    }
    lemma_tail_text(full);
    lemma_window_record_time(prefix, body, time_text(
        reading_time(data, last) + time_offset as nat,
        use_hour_format,
    ));
    let t = (reading_time(data, last) + time_offset) as u32;
    if use_hour_format {
        law_hour_format_round_trip(t, PREVIOUS_OFFSET_FAILED_MSG@);
    } else {
        law_seconds_round_trip(t, PREVIOUS_OFFSET_FAILED_MSG@);
        lemma_parse_decimal(t);
    }
}

/// The bit of the saving options asking for the last time in the file to be
/// added to the readings' times.
pub const SAVE_USE_PREVIOUS_TIME: u8 = 0b00000001;

/// The bit of the saving options asking for `dd-hh-mm-ss` times.
pub const SAVE_USE_24_HOUR_FORMAT: u8 = 0b00000010;

/// The saving options, read from their bits.
pub struct SaveOptions {
    /// Add the last time in the file to the readings' times.
    pub offset_with_prev_time: bool,
    /// Write times as `dd-hh-mm-ss`.
    pub use_hour_format: bool,
}

/// Reads the saving options from the bits of `optional_args`.
pub fn save_options(optional_args: u8) -> (o: SaveOptions)
    ensures
        o.offset_with_prev_time == (optional_args & SAVE_USE_PREVIOUS_TIME != 0),
        o.use_hour_format == (optional_args & SAVE_USE_24_HOUR_FORMAT != 0),
{
    SaveOptions {
        offset_with_prev_time: (optional_args & SAVE_USE_PREVIOUS_TIME) != 0,
        use_hour_format: (optional_args & SAVE_USE_24_HOUR_FORMAT) != 0,
    }
}

/// Tells whether every reading's time plus `offset` fits a `u32`.
pub fn times_fit_offset(data: &Vec<u8>, offset: u32) -> (ok: bool)
    ensures
        ok == times_fit(data@, offset),
{
    let count = data.len() / 7;
    let mut i: usize = 0;
    while i < count
        invariant
            i <= count,
            count == reading_count(data@),
            forall|j: int| 0 <= j < i ==> #[trigger] reading_time(data@, j) + offset <= u32::MAX,
        decreases count - i,
    {
        assert(i * 7 + 6 < data.len()) by (nonlinear_arith)
            requires
                i < data.len() / 7,
        ;
        let base = i * 7;
        let time: u64 = data[base + 4] as u64 + data[base + 5] as u64 * 256 + data[base + 6] as u64
            * 65536;
        if time + offset as u64 > u32::MAX as u64 {
            assert(reading_time(data@, i as int) == time);
            assert(!(reading_time(data@, i as int) + offset <= u32::MAX));
            return false;
        }
        i = i + 1;
    }
    true
}

/// The CSV text to append to a file: the readings' times get the file's last
/// time `prev_time` plus `time_offset`. None where that sum, or a reading's
/// time plus it, passes `u32::MAX`.
pub open spec fn save_text(
    data: Seq<u8>,
    heading: bool,
    prev_time: u32,
    time_offset: u32,
    use_hour_format: bool,
) -> Option<Seq<char>> {
    if prev_time + time_offset > u32::MAX {
        None
    } else if !times_fit(data, (prev_time + time_offset) as u32) {
        None
    } else {
        Some(csv_text(data, heading, (prev_time + time_offset) as u32, use_hour_format))
    }
}

/// The CSV text to append to a file, as `save_text` says.
pub fn csv_for_save(
    data: Vec<u8>,
    heading: bool,
    prev_time: u32,
    time_offset: u32,
    use_hour_format: bool,
) -> (csv: Option<String>)
    ensures
        match save_text(data@, heading, prev_time, time_offset, use_hour_format) {
            Some(t) => csv matches Some(c) && c@ == t,
            None => csv is None,
        },
{
    match prev_time.checked_add(time_offset) {
        None => None,
        Some(offset) => {
            if times_fit_offset(&data, offset) {
                Some(to_csv_text(data, heading, offset, use_hour_format))
            } else {
                None
            }
        },
    }
}

/// Where the earlier time of a save comes from.
pub enum PreviousTimeStep {
    /// No offset from the file was asked for: it is 0.
    NotAsked,
    /// There is no earlier file: the offset is 0.
    NoEarlierFile,
    /// Read the end of the earlier file.
    ReadTail,
}

/// Decides where the earlier time of a save comes from.
pub fn previous_time_step(offset_with_prev_time: bool, prexisting_file: bool) -> (step: PreviousTimeStep)
    ensures
        !offset_with_prev_time ==> step is NotAsked,
        offset_with_prev_time && !prexisting_file ==> step is NoEarlierFile,
        offset_with_prev_time && prexisting_file ==> step is ReadTail,
{
    if !offset_with_prev_time {
        PreviousTimeStep::NotAsked
    } else if !prexisting_file {
        PreviousTimeStep::NoEarlierFile
    } else {
        PreviousTimeStep::ReadTail
    }
}

/// The earlier time that the end of a file gives: the time read in either
/// format, else 0.
pub fn previous_offset(outcome: &PreviousTime) -> (offset: u32)
    requires
        !(outcome is TooLarge),
    ensures
        match outcome {
            PreviousTime::Found(n) => offset == n,
            PreviousTime::OtherFormat(n) => offset == n,
            _ => offset == 0,
        },
{
    match outcome {
        PreviousTime::Found(n) => *n,
        PreviousTime::OtherFormat(n) => *n,
        _ => 0,
    }
}

/// Saving continues from the last saved time: when readings are saved to a
/// new file (heading, no earlier time), then later readings are saved to it
/// with the earlier time asked for, the end of the file gives back the last
/// time written, and the later lines' times are their own plus that time and
/// their offset. This holds when the last line written first, but its closing
/// `,` and line break, has at most 24 characters, and the later times fit a
/// `u32`.
pub proof fn law_save_continues(
    first: Seq<u8>,
    first_offset: u32,
    use_hour_format: bool,
    later: Seq<u8>,
    later_offset: u32,
)
    requires
        reading_count(first) >= 1,
        times_fit(first, first_offset),
        csv_line(first, reading_count(first) - 1, first_offset, use_hour_format).len() <= 26,
    ensures
        ({
            let file = csv_text(first, true, first_offset, use_hour_format);
            let last = (reading_time(first, reading_count(first) - 1) + first_offset) as u32;
            &&& save_text(first, true, 0, first_offset, use_hour_format) == Some(file)
            &&& tail_reads_time(record_tail(file), use_hour_format, last)
            &&& (last + later_offset + 0xFF_FFFF <= u32::MAX ==> save_text(
                later,
                false,
                last,
                later_offset,
                use_hour_format,
            ) == Some(csv_text(later, false, (last + later_offset) as u32, use_hour_format)))
        }),
{
    let file = csv_text(first, true, first_offset, use_hour_format);
    let n = reading_count(first) as int;
    let last = (reading_time(first, n - 1) + first_offset) as u32;
    lemma_heading_shape();
    reveal_strlit("Time,Humidity,Temperature,\n");
    assert(csv_heading().len() == 27);
    assert(file.len() >= 26);
    assert(Seq::<char>::empty() + file =~= file);
    law_csv_time_read_back(Seq::<char>::empty(), first, true, first_offset, use_hour_format);
    if last + later_offset + 0xFF_FFFF <= u32::MAX {
        let offset = (last + later_offset) as u32;
        assert forall|i: int| 0 <= i < reading_count(later) implies #[trigger] reading_time(later, i)
            + offset <= u32::MAX by {
            assert(reading_time(later, i) <= 0xFF_FFFF);
        }
    }
}

/// Two readings with the same bytes give the same CSV line.
proof fn lemma_same_reading_same_line(
    d1: Seq<u8>,
    i1: int,
    d2: Seq<u8>,
    i2: int,
    time_offset: u32,
    use_hour_format: bool,
)
    requires
        forall|m: int| 0 <= m < 7 ==> #[trigger] d1[i1 * 7 + m] == d2[i2 * 7 + m],
    ensures
        csv_line(d1, i1, time_offset, use_hour_format) == csv_line(
            d2,
            i2,
            time_offset,
            use_hour_format,
        ),
        reading_time(d1, i1) == reading_time(d2, i2),
{
    assert(d1[i1 * 7 + 0] == d2[i2 * 7 + 0]);
    assert(d1[i1 * 7 + 1] == d2[i2 * 7 + 1]);
    assert(d1[i1 * 7 + 2] == d2[i2 * 7 + 2]);
    assert(d1[i1 * 7 + 3] == d2[i2 * 7 + 3]);
    assert(d1[i1 * 7 + 4] == d2[i2 * 7 + 4]);
    assert(d1[i1 * 7 + 5] == d2[i2 * 7 + 5]);
    assert(d1[i1 * 7 + 6] == d2[i2 * 7 + 6]);
}

/// The lines of the first readings of a batch do not depend on what follows.
proof fn lemma_csv_lines_prefix(a: Seq<u8>, b: Seq<u8>, k: int, time_offset: u32, use_hour_format: bool)
    requires
        0 <= k <= reading_count(a),
    ensures
        csv_lines(a + b, k, time_offset, use_hour_format) == csv_lines(
            a,
            k,
            time_offset,
            use_hour_format,
        ),
    decreases k,
{
    if k > 0 {
        lemma_csv_lines_prefix(a, b, k - 1, time_offset, use_hour_format);
        assert forall|m: int| 0 <= m < 7 implies #[trigger] (a + b)[(k - 1) * 7 + m] == a[(k - 1)
            * 7 + m] by {
            assert((k - 1) * 7 + m < a.len()) by (nonlinear_arith)
                requires
                    0 <= m < 7,
                    1 <= k <= a.len() / 7,
            ;
        }
        lemma_same_reading_same_line(a + b, k - 1, a, k - 1, time_offset, use_hour_format);
    }
}

/// The lines of the readings of a second batch, after a first batch of whole
/// readings.
proof fn lemma_csv_lines_suffix(a: Seq<u8>, b: Seq<u8>, j: int, time_offset: u32, use_hour_format: bool)
    requires
        a.len() % 7 == 0,
        0 <= j <= reading_count(b),
    ensures
        csv_lines(a + b, reading_count(a) + j, time_offset, use_hour_format) == csv_lines(
            a,
            reading_count(a) as int,
            time_offset,
            use_hour_format,
        ) + csv_lines(b, j, time_offset, use_hour_format),
    decreases j,
{
    let na = reading_count(a) as int;
    if j == 0 {
        lemma_csv_lines_prefix(a, b, na, time_offset, use_hour_format);
        assert(csv_lines(b, 0, time_offset, use_hour_format) =~= Seq::<char>::empty());
    } else {
        lemma_csv_lines_suffix(a, b, j - 1, time_offset, use_hour_format);
        assert forall|m: int| 0 <= m < 7 implies #[trigger] (a + b)[(na + j - 1) * 7 + m] == b[(j
            - 1) * 7 + m] by {
            assert((na + j - 1) * 7 + m == a.len() + ((j - 1) * 7 + m)) by (nonlinear_arith)
                requires
                    a.len() % 7 == 0,
                    na == a.len() / 7,
            ;
            assert((j - 1) * 7 + m < b.len()) by (nonlinear_arith)
                requires
                    0 <= m < 7,
                    1 <= j <= b.len() / 7,
            ;
        }
        lemma_same_reading_same_line(a + b, na + j - 1, b, j - 1, time_offset, use_hour_format);
        assert(csv_lines(a + b, na + j, time_offset, use_hour_format) =~= csv_lines(
            a,
            na,
            time_offset,
            use_hour_format,
        ) + csv_lines(b, j, time_offset, use_hour_format));
    }
}

/// Saving readings in two batches writes the same text as saving them at
/// once: the CSV of `a` then `b` is that of `a` followed by the lines of
/// `b`, when `a` holds whole readings.
pub proof fn law_csv_batches(
    a: Seq<u8>,
    b: Seq<u8>,
    heading: bool,
    time_offset: u32,
    use_hour_format: bool,
)
    requires
        a.len() % 7 == 0,
    ensures
        csv_text(a + b, heading, time_offset, use_hour_format) == csv_text(
            a,
            heading,
            time_offset,
            use_hour_format,
        ) + csv_text(b, false, time_offset, use_hour_format),
        times_fit(a + b, time_offset) <==> times_fit(a, time_offset) && times_fit(b, time_offset),
{
    let na = reading_count(a) as int;
    let nb = reading_count(b) as int;
    assert(reading_count(a + b) == na + nb) by (nonlinear_arith)
        requires
            a.len() % 7 == 0,
            na == a.len() / 7,
            nb == b.len() / 7,
            (a + b).len() == a.len() + b.len(),
    ;
    lemma_csv_lines_suffix(a, b, nb, time_offset, use_hour_format);
    let head = if heading {
        csv_heading()
    } else {
        Seq::<char>::empty()
    };
    assert(csv_text(a + b, heading, time_offset, use_hour_format) =~= csv_text(
        a,
        heading,
        time_offset,
        use_hour_format,
    ) + csv_text(b, false, time_offset, use_hour_format));
    assert forall|i: int| 0 <= i < reading_count(a) implies #[trigger] reading_time(a + b, i)
        == reading_time(a, i) by {
        assert forall|m: int| 0 <= m < 7 implies #[trigger] (a + b)[i * 7 + m] == a[i * 7 + m] by {
            assert(i * 7 + m < a.len()) by (nonlinear_arith)
                requires
                    0 <= m < 7,
                    0 <= i < a.len() / 7,
            ;
        }
        lemma_same_reading_same_line(a + b, i, a, i, time_offset, use_hour_format);
    }
    assert forall|j: int| 0 <= j < reading_count(b) implies #[trigger] reading_time(a + b, na + j)
        == reading_time(b, j) by {
        assert forall|m: int| 0 <= m < 7 implies #[trigger] (a + b)[(na + j) * 7 + m] == b[j * 7
            + m] by {
            assert((na + j) * 7 + m == a.len() + (j * 7 + m)) by (nonlinear_arith)
                requires
                    a.len() % 7 == 0,
                    na == a.len() / 7,
            ;
            assert(j * 7 + m < b.len()) by (nonlinear_arith)
                requires
                    0 <= m < 7,
                    0 <= j < b.len() / 7,
            ;
        }
        lemma_same_reading_same_line(a + b, na + j, b, j, time_offset, use_hour_format);
    }
    if times_fit(a, time_offset) && times_fit(b, time_offset) {
        assert forall|i: int| 0 <= i < reading_count(a + b) implies #[trigger] reading_time(a + b, i)
            + time_offset <= u32::MAX by {
            if i < na {
                assert(reading_time(a + b, i) == reading_time(a, i));
            } else {
                assert(reading_time(a + b, na + (i - na)) == reading_time(b, i - na));
            }
        }
    }
    if times_fit(a + b, time_offset) {
        assert forall|j: int| 0 <= j < reading_count(b) implies #[trigger] reading_time(b, j)
            + time_offset <= u32::MAX by {
            assert(reading_time(a + b, na + j) == reading_time(b, j));
        }
        assert forall|i: int| 0 <= i < reading_count(a) implies #[trigger] reading_time(a, i)
            + time_offset <= u32::MAX by {
            assert(reading_time(a + b, i) == reading_time(a, i));
        }
    }
}


/// The `dd-hh-mm-ss` rendering of `t` has four pieces between `-`, each of
/// at least two digits: the days `t / 86400`, the hours `(t % 86400) / 3600`,
/// below 24, the minutes `(t % 3600) / 60`, below 60, and the seconds
/// `t % 60`, below 60; together they make `t`.
pub proof fn law_hour_text_fields(t: u32)
    ensures
        ({
            let pieces = split_on(hour_text(t as nat), '-');
            let days = t / 86400;
            let hours = (t % 86400) / 3600;
            let minutes = (t % 3600) / 60;
            let seconds = t % 60;
            &&& pieces.len() == 4
            &&& parsed_u32(pieces[0]) == Some(days)
            &&& parsed_u32(pieces[1]) == Some(hours)
            &&& parsed_u32(pieces[2]) == Some(minutes)
            &&& parsed_u32(pieces[3]) == Some(seconds)
            &&& forall|k: int| 0 <= k < 4 ==> (#[trigger] pieces[k]).len() >= 2
            &&& hours < 24 && minutes < 60 && seconds < 60
            &&& days * 86400 + hours * 3600 + minutes * 60 + seconds == t
        }),
{
    let n = t as nat;
    let text = hour_text(n);
    assert(text =~= hour_text_prefix(n, 3) + two_digits(hour_field(n, 3)));
    lemma_hour_text_pieces(n, 3);
    let pieces = split_on(text, '-');
    assert(hour_field(n, 0) == t / 86400);
    assert(hour_field(n, 1) == (t % 86400) / 3600);
    assert(hour_field(n, 2) == (t % 3600) / 60);
    assert(hour_field(n, 3) == t % 60);
    assert forall|k: int| 0 <= k < 4 implies parsed_u32(#[trigger] pieces[k]) == Some(
        hour_field(n, k) as u32,
    ) && pieces[k].len() >= 2 by {
        assert(pieces[k] == two_digits(hour_field(n, k)));
        lemma_two_digits(hour_field(n, k));
        lemma_decimal(hour_field(n, k));
        assert(hour_field(n, k) <= n) by {
            lemma_div_is_ordered_by_denominator(
                remaining_seconds(n, k) as int,
                1,
                seconds_per_unit(k) as int,
            );
            if k > 0 {
                let m = seconds_per_unit(k - 1) as int;
                lemma_fundamental_div_mod(n as int, m);
                lemma_div_pos_is_pos(n as int, m);
                lemma_mul_nonnegative(m, n as int / m);
            }
        }
        lemma_parse_digits(two_digits(hour_field(n, k)), u32::MAX as nat);
        if decimal(hour_field(n, k)).len() != 1 {
            assert(decimal(hour_field(n, k)).len() >= 2);
        }
    }
    assert(parsed_u32(pieces[0]) == Some(t / 86400));
    assert(parsed_u32(pieces[1]) == Some((t % 86400) / 3600));
    assert(parsed_u32(pieces[2]) == Some((t % 3600) / 60));
    assert(parsed_u32(pieces[3]) == Some(t % 60));
    assert((t % 86400) / 3600 < 24) by (nonlinear_arith)
        requires
            t % 86400 < 86400,
    ;
    assert((t % 3600) / 60 < 60) by (nonlinear_arith)
        requires
            t % 3600 < 3600,
    ;
    lemma_hour_fields_sum(n);
}

} // verus!
