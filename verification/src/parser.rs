//! Parser for one line of the Keyence camera CSV log.
//!
//! A line reads `seq,YYYY,M,D,H,Mi,S,<judgement...>,'<qr_serial>,<mo>`: a
//! sequence number, six date-time fields, one or more inspection verdicts
//! (their number depends on how the camera is set up), the product QR
//! serial (written with a leading `'` text marker) and the production
//! order code.

use crate::calendar::datetime_exists;
use crate::digest::{hex_lower, sha256, sha256_hex};
use crate::models::{ScanRecord, Timestamp};
use crate::text::{
    chars_of, decimal_digits, parse_in_range, parse_integer, push_char, push_decimal, split_chars,
    split_on, string_of, strip_leading, strip_leading_chars, trim, trim_chars,
};
use vstd::prelude::*;

verus! {

/// Sequence number, six date-time fields, at least one verdict, the QR
/// serial and the order code: ten fields.
pub const MIN_FIELDS: usize = 10;

/// Why a line is not a scan record.
#[derive(Debug, Clone, PartialEq)]
pub enum ParseError {
    /// The line is blank.
    Empty,
    /// Fewer comma-separated fields than a record needs.
    TooFewFields { min: usize, actual: usize },
    /// The first field (given as it stood) is not a 64-bit integer.
    InvalidSequence(String),
    /// The six date-time fields (given as they stood, comma-joined) do not
    /// name an existing date and time.
    InvalidTimestamp(String),
    /// Nothing is left of the QR field once its `'` markers are removed.
    EmptyQrSerial,
    /// The order code field is blank.
    EmptyMo,
}

/// [`ParseError`] with its texts as character sequences.
pub enum ParseErrorView {
    Empty,
    TooFewFields { min: nat, actual: nat },
    InvalidSequence(Seq<char>),
    InvalidTimestamp(Seq<char>),
    EmptyQrSerial,
    EmptyMo,
}

impl View for ParseError {
    type V = ParseErrorView;

    open spec fn view(&self) -> ParseErrorView {
        match self {
            ParseError::Empty => ParseErrorView::Empty,
            ParseError::TooFewFields { min, actual } => ParseErrorView::TooFewFields {
                min: *min as nat,
                actual: *actual as nat,
            },
            ParseError::InvalidSequence(s) => ParseErrorView::InvalidSequence(s@),
            ParseError::InvalidTimestamp(s) => ParseErrorView::InvalidTimestamp(s@),
            ParseError::EmptyQrSerial => ParseErrorView::EmptyQrSerial,
            ParseError::EmptyMo => ParseErrorView::EmptyMo,
        }
    }
}

/// [`ScanRecord`] with its texts as character sequences.
pub struct ScanRecordView {
    pub sequence: i64,
    pub timestamp: Timestamp,
    pub judgements: Seq<Seq<char>>,
    pub qr_serial: Seq<char>,
    pub mo: Seq<char>,
    pub record_key: Seq<char>,
}

impl View for ScanRecord {
    type V = ScanRecordView;

    open spec fn view(&self) -> ScanRecordView {
        ScanRecordView {
            sequence: self.sequence,
            timestamp: self.timestamp,
            judgements: self.judgement_texts(),
            qr_serial: self.qr_serial@,
            mo: self.mo@,
            record_key: self.record_key@,
        }
    }
}

/// The timestamp that fields 1..=6 name (year as `i32`, the others as
/// `u32`), when each is an integer and together they name an existing
/// date and time.
pub open spec fn timestamp_of_fields(f: Seq<Seq<char>>) -> Option<Timestamp> {
    let y = parse_in_range(trim(f[1]), i32::MIN as int, i32::MAX as int);
    let mo = parse_in_range(trim(f[2]), 0, u32::MAX as int);
    let d = parse_in_range(trim(f[3]), 0, u32::MAX as int);
    let h = parse_in_range(trim(f[4]), 0, u32::MAX as int);
    let mi = parse_in_range(trim(f[5]), 0, u32::MAX as int);
    let s = parse_in_range(trim(f[6]), 0, u32::MAX as int);
    if y is Some && mo is Some && d is Some && h is Some && mi is Some && s is Some {
        let t = Timestamp {
            year: y->0 as i32,
            month: mo->0 as u32,
            day: d->0 as u32,
            hour: h->0 as u32,
            minute: mi->0 as u32,
            second: s->0 as u32,
        };
        if t.is_valid() {
            Some(t)
        } else {
            None
        }
    } else {
        None
    }
}

/// Fields 1..=6 joined again by commas.
pub open spec fn timestamp_fields_text(f: Seq<Seq<char>>) -> Seq<char> {
    f[1] + seq![','] + f[2] + seq![','] + f[3] + seq![','] + f[4] + seq![','] + f[5] + seq![',']
        + f[6]
}

/// The record a trimmed line with fields `f` gives, once the checks passed.
pub open spec fn record_of(line: Seq<char>, f: Seq<Seq<char>>, sequence: int, timestamp: Timestamp) -> ScanRecordView {
    ScanRecordView {
        sequence: sequence as i64,
        timestamp: timestamp,
        judgements: f.subrange(7, f.len() - 2).map_values(|x: Seq<char>| trim(x)),
        qr_serial: strip_leading(trim(f[f.len() - 2]), '\''),
        mo: trim(f.last()),
        record_key: hex_lower(sha256(vstd::utf8::encode_utf8(line))),
    }
}

/// What parsing the raw line `raw` gives.
pub open spec fn spec_parse_line(raw: Seq<char>) -> Result<ScanRecordView, ParseErrorView> {
    let line = trim(raw);
    let f = split_on(line, ',');
    if line.len() == 0 {
        Err(ParseErrorView::Empty)
    } else if f.len() < MIN_FIELDS {
        Err(ParseErrorView::TooFewFields { min: MIN_FIELDS as nat, actual: f.len() })
    } else if parse_in_range(trim(f[0]), i64::MIN as int, i64::MAX as int) is None {
        Err(ParseErrorView::InvalidSequence(f[0]))
    } else if timestamp_of_fields(f) is None {
        Err(ParseErrorView::InvalidTimestamp(timestamp_fields_text(f)))
    } else if strip_leading(trim(f[f.len() - 2]), '\'').len() == 0 {
        Err(ParseErrorView::EmptyQrSerial)
    } else if trim(f.last()).len() == 0 {
        Err(ParseErrorView::EmptyMo)
    } else {
        Ok(
            record_of(
                line,
                f,
                parse_in_range(trim(f[0]), i64::MIN as int, i64::MAX as int)->0,
                timestamp_of_fields(f)->0,
            ),
        )
    }
}

fn timestamp_text(fields: &Vec<Vec<char>>) -> (s: String)
    requires
        fields.len() >= 7,
    ensures
        s@ == timestamp_fields_text(fields@.map_values(|v: Vec<char>| v@)),
{
    let mut s = string_of(&fields[1]);
    let mut k: usize = 2;
    while k <= 6
        invariant
            2 <= k <= 7,
            fields.len() >= 7,
            k == 3 ==> s@ == fields[1]@ + seq![','] + fields[2]@,
            k == 2 ==> s@ == fields[1]@,
            k == 4 ==> s@ == fields[1]@ + seq![','] + fields[2]@ + seq![','] + fields[3]@,
            k == 5 ==> s@ == fields[1]@ + seq![','] + fields[2]@ + seq![','] + fields[3]@ + seq![
                ',',
            ] + fields[4]@,
            k == 6 ==> s@ == fields[1]@ + seq![','] + fields[2]@ + seq![','] + fields[3]@ + seq![
                ',',
            ] + fields[4]@ + seq![','] + fields[5]@,
            k == 7 ==> s@ == fields[1]@ + seq![','] + fields[2]@ + seq![','] + fields[3]@ + seq![
                ',',
            ] + fields[4]@ + seq![','] + fields[5]@ + seq![','] + fields[6]@,
        decreases 7 - k,
    {
        push_char(&mut s, ',');
        let piece = string_of(&fields[k]);
        s.append(piece.as_str());
        k = k + 1;
    }
    s
}

/// The timestamp of fields 1..=6, see [`timestamp_of_fields`].
fn timestamp_of(fields: &Vec<Vec<char>>) -> (t: Option<Timestamp>)
    requires
        fields.len() >= 7,
    ensures
        t == timestamp_of_fields(fields@.map_values(|v: Vec<char>| v@)),
{
    let ghost f = fields@.map_values(|v: Vec<char>| v@);
    let y = parse_integer(&trim_chars(&fields[1]), i32::MIN as i64, i32::MAX as i64);
    let mo = parse_integer(&trim_chars(&fields[2]), 0, u32::MAX as i64);
    let d = parse_integer(&trim_chars(&fields[3]), 0, u32::MAX as i64);
    let h = parse_integer(&trim_chars(&fields[4]), 0, u32::MAX as i64);
    let mi = parse_integer(&trim_chars(&fields[5]), 0, u32::MAX as i64);
    let s = parse_integer(&trim_chars(&fields[6]), 0, u32::MAX as i64);
    assert(f[1] == fields[1]@ && f[2] == fields[2]@ && f[3] == fields[3]@ && f[4] == fields[4]@
        && f[5] == fields[5]@ && f[6] == fields[6]@);
    match (y, mo, d, h, mi, s) {
        (Some(y), Some(mo), Some(d), Some(h), Some(mi), Some(s)) => {
            let (y, mo, d, h, mi, s) = (y as i32, mo as u32, d as u32, h as u32, mi as u32, s as u32);
            if datetime_exists(y, mo, d, h, mi, s) {
                Some(Timestamp { year: y, month: mo, day: d, hour: h, minute: mi, second: s })
            } else {
                None
            }
        },
        _ => None,
    }
}

/// Parses one raw log line: see [`spec_parse_line`].
pub fn parse_line(raw: &str) -> (res: Result<ScanRecord, ParseError>)
    ensures
        match res {
            Ok(r) => spec_parse_line(raw@) == Ok::<ScanRecordView, ParseErrorView>(r@)
                && r.record_key@.len() == 64,
            Err(e) => spec_parse_line(raw@) == Err::<ScanRecordView, ParseErrorView>(e@),
        },
{
    let chars = chars_of(raw);
    let line = trim_chars(&chars);
    if line.len() == 0 {
        return Err(ParseError::Empty);
    }
    let fields = split_chars(&line, ',');
    let ghost f = split_on(line@, ',');
    assert(fields@.map_values(|v: Vec<char>| v@) =~= f);
    let nf = fields.len();
    if nf < MIN_FIELDS {
        return Err(ParseError::TooFewFields { min: MIN_FIELDS, actual: nf });
    }
    let sequence = match parse_integer(&trim_chars(&fields[0]), i64::MIN, i64::MAX) {
        Some(v) => v,
        None => {
            return Err(ParseError::InvalidSequence(string_of(&fields[0])));
        },
    };
    let timestamp = match timestamp_of(&fields) {
        Some(t) => t,
        None => {
            return Err(ParseError::InvalidTimestamp(timestamp_text(&fields)));
        },
    };
    let qr = strip_leading_chars(&trim_chars(&fields[nf - 2]), '\'');
    if qr.len() == 0 {
        return Err(ParseError::EmptyQrSerial);
    }
    let mo = trim_chars(&fields[nf - 1]);
    if mo.len() == 0 {
        return Err(ParseError::EmptyMo);
    }
    let mut judgements: Vec<String> = Vec::new();
    let mut k: usize = 7;
    while k < nf - 2
        invariant
            nf == fields.len(),
            nf >= MIN_FIELDS,
            7 <= k <= nf - 2,
            judgements.len() == k - 7,
            forall|i: int|
                0 <= i < judgements.len() ==> #[trigger] judgements[i]@ == trim(fields[i + 7]@),
        decreases nf - 2 - k,
    {
        judgements.push(string_of(&trim_chars(&fields[k])));
        k = k + 1;
    }
    let line_text = string_of(&line);
    let record_key = sha256_hex(line_text.as_str());
    let record = ScanRecord {
        sequence,
        timestamp,
        judgements,
        qr_serial: string_of(&qr),
        mo: string_of(&mo),
        record_key,
    };
    proof {
        let expected = record_of(line@, f, sequence as int, timestamp);
        assert(record@.judgements =~= expected.judgements) by {
            assert forall|i: int| 0 <= i < record@.judgements.len() implies record@.judgements[i]
                == expected.judgements[i] by {
                assert(record@.judgements[i] == judgements[i]@);
                assert(f[i + 7] == fields[i + 7]@);
            }
        }
        assert(f[nf - 2] == fields[nf - 2]@);
        assert(f.last() == fields[nf - 1]@);
    }
    Ok(record)
}

proof fn lemma_strip_leading_first(s: Seq<char>, c: char)
    ensures
        strip_leading(s, c).len() > 0 ==> strip_leading(s, c)[0] != c,
    decreases s.len(),
{
    if s.len() > 0 && s[0] == c {
        lemma_strip_leading_first(s.drop_first(), c);
    }
}

/// Parsing looks only at the line without its surrounding white space:
/// two lines that agree once trimmed give the same result, record key
/// included.
pub proof fn lemma_parse_depends_on_trimmed_line(a: Seq<char>, b: Seq<char>)
    requires
        trim(a) == trim(b),
    ensures
        spec_parse_line(a) == spec_parse_line(b),
{
}

/// Shape of every parsed record: as many verdicts as fields between the
/// seven leading ones and the last two (at least one), an existing
/// timestamp, a non-empty QR serial that no longer starts with `'`, and a
/// non-empty order code.
pub proof fn lemma_parsed_record_shape(raw: Seq<char>)
    ensures
        spec_parse_line(raw) matches Ok(r) ==> {
            &&& r.judgements.len() == split_on(trim(raw), ',').len() - 9
            &&& r.judgements.len() >= 1
            &&& r.timestamp.is_valid()
            &&& r.qr_serial.len() > 0
            &&& r.qr_serial[0] != '\''
            &&& r.mo.len() > 0
        },
{
    let f = split_on(trim(raw), ',');
    if f.len() >= MIN_FIELDS {
        lemma_strip_leading_first(trim(f[f.len() - 2]), '\'');
    }
}

/// The message shown for a parse error.
pub open spec fn message_text(e: ParseErrorView) -> Seq<char> {
    match e {
        ParseErrorView::Empty => "dòng rỗng"@,
        ParseErrorView::TooFewFields { min, actual } => "thiếu field (cần tối thiểu "@
            + decimal_digits(min) + ", có "@ + decimal_digits(actual) + ")"@,
        ParseErrorView::InvalidSequence(s) => "sequence không phải số nguyên: "@ + s,
        ParseErrorView::InvalidTimestamp(s) => "timestamp không hợp lệ: "@ + s,
        ParseErrorView::EmptyQrSerial => "QR serial rỗng sau khi bỏ dấu nháy"@,
        ParseErrorView::EmptyMo => "MO code rỗng"@,
    }
}

impl ParseError {
    /// The message shown for this error: see [`message_text`].
    pub fn message(&self) -> (m: String)
        ensures
            m@ == message_text(self@),
    {
        match self {
            ParseError::Empty => String::from_str("dòng rỗng"),
            ParseError::TooFewFields { min, actual } => {
                let mut m = String::from_str("thiếu field (cần tối thiểu ");
                push_decimal(&mut m, *min as u64);
                m.append(", có ");
                push_decimal(&mut m, *actual as u64);
                m.append(")");
                m
            },
            ParseError::InvalidSequence(s) => {
                let mut m = String::from_str("sequence không phải số nguyên: ");
                m.append(s.as_str());
                m
            },
            ParseError::InvalidTimestamp(s) => {
                let mut m = String::from_str("timestamp không hợp lệ: ");
                m.append(s.as_str());
                m
            },
            ParseError::EmptyQrSerial => String::from_str("QR serial rỗng sau khi bỏ dấu nháy"),
            ParseError::EmptyMo => String::from_str("MO code rỗng"),
        }
    }
}

/// Every parsed record holds exactly what its fields say: with `f` the
/// comma-separated fields of the trimmed line,
/// - the sequence number is the integer written in the first field;
/// - year, month, day, hour, minute and second are the integers written in
///   fields 1 to 6, unchanged;
/// - the verdicts are fields 7 up to the last two, each trimmed, all of
///   them and in order;
/// - the QR serial is the whole trimmed second-to-last field after its
///   leading `'` markers, nothing cut from its end;
/// - the order code is the whole trimmed last field.
pub proof fn lemma_record_holds_its_fields(raw: Seq<char>)
    ensures
        spec_parse_line(raw) matches Ok(r) ==> {
            let f = split_on(trim(raw), ',');
            &&& parse_in_range(trim(f[0]), i64::MIN as int, i64::MAX as int) == Some(
                r.sequence as int,
            )
            &&& parse_in_range(trim(f[1]), i32::MIN as int, i32::MAX as int) == Some(
                r.timestamp.year as int,
            )
            &&& parse_in_range(trim(f[2]), 0, u32::MAX as int) == Some(r.timestamp.month as int)
            &&& parse_in_range(trim(f[3]), 0, u32::MAX as int) == Some(r.timestamp.day as int)
            &&& parse_in_range(trim(f[4]), 0, u32::MAX as int) == Some(r.timestamp.hour as int)
            &&& parse_in_range(trim(f[5]), 0, u32::MAX as int) == Some(r.timestamp.minute as int)
            &&& parse_in_range(trim(f[6]), 0, u32::MAX as int) == Some(r.timestamp.second as int)
            &&& r.judgements.len() == f.len() - 9
            &&& forall|i: int| 0 <= i < r.judgements.len() ==> #[trigger] r.judgements[i] == trim(f[i + 7])
            &&& exists|k: nat| trim(f[f.len() - 2]) =~= #[trigger] quote_marks(k) + r.qr_serial
            &&& r.qr_serial.len() > 0 && r.qr_serial[0] != '\''
            &&& r.mo == trim(f[f.len() - 1])
        },
{
    let f = split_on(trim(raw), ',');
    if f.len() >= MIN_FIELDS {
        let q = trim(f[f.len() - 2]);
        lemma_strip_leading_first(q, '\'');
        let k = lemma_strip_leading_shape(q, '\'');
        if spec_parse_line(raw) is Ok {
            let r = spec_parse_line(raw)->Ok_0;
            assert(q =~= quote_marks(k) + r.qr_serial);
        }
    }
}

/// `k` text markers `'` in a row.
pub open spec fn quote_marks(k: nat) -> Seq<char> {
    Seq::new(k, |j: int| '\'')
}

proof fn lemma_strip_leading_shape(s: Seq<char>, c: char) -> (k: nat)
    ensures
        s =~= Seq::new(k, |j: int| c) + strip_leading(s, c),
    decreases s.len(),
{
    if s.len() > 0 && s[0] == c {
        let k1 = lemma_strip_leading_shape(s.drop_first(), c);
        assert(s =~= seq![c] + s.drop_first());
        assert(Seq::new(k1 + 1, |j: int| c) =~= seq![c] + Seq::new(k1, |j: int| c));
        k1 + 1
    } else {
        assert(Seq::new(0, |j: int| c) + s =~= s);
        0
    }
}

/// A line is refused for too few fields only when it has fewer than
/// [`MIN_FIELDS`]; the error reports that minimum and the true count.
pub proof fn lemma_too_few_fields_only_below_minimum(raw: Seq<char>)
    ensures
        spec_parse_line(raw) matches Err(ParseErrorView::TooFewFields { min, actual }) ==> {
            &&& min == MIN_FIELDS
            &&& actual == split_on(trim(raw), ',').len()
            &&& actual < MIN_FIELDS
        },
{
}

/// Any number of verdicts is accepted: a line with at least
/// [`MIN_FIELDS`] fields parses whenever its sequence field is a 64-bit
/// integer, its six date-time fields are integers naming an existing date
/// and time, its QR field keeps something after the `'` markers, and its
/// order field is not blank.
pub proof fn lemma_valid_fields_parse(raw: Seq<char>)
    requires
        split_on(trim(raw), ',').len() >= MIN_FIELDS,
        parse_in_range(trim(split_on(trim(raw), ',')[0]), i64::MIN as int, i64::MAX as int) is Some,
        ({
            let f = split_on(trim(raw), ',');
            let y = parse_in_range(trim(f[1]), i32::MIN as int, i32::MAX as int);
            let mo = parse_in_range(trim(f[2]), 0, u32::MAX as int);
            let d = parse_in_range(trim(f[3]), 0, u32::MAX as int);
            let h = parse_in_range(trim(f[4]), 0, u32::MAX as int);
            let mi = parse_in_range(trim(f[5]), 0, u32::MAX as int);
            let s = parse_in_range(trim(f[6]), 0, u32::MAX as int);
            &&& y is Some && mo is Some && d is Some && h is Some && mi is Some && s is Some
            &&& crate::calendar::is_valid_date(y->0, mo->0, d->0)
            &&& crate::calendar::is_valid_time(h->0, mi->0, s->0)
        }),
        strip_leading(
            trim(split_on(trim(raw), ',')[split_on(trim(raw), ',').len() - 2]),
            '\'',
        ).len() > 0,
        trim(split_on(trim(raw), ',').last()).len() > 0,
    ensures
        spec_parse_line(raw) is Ok,
{
    if trim(raw).len() == 0 {
        assert(trim(raw) =~= Seq::<char>::empty());
        assert(split_on(Seq::<char>::empty(), ',').len() == 1);
    }
}

} // verus!
