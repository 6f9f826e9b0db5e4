//! Raw samples, and the record format they are read from.
//!
//! A record is one line of comma-separated text with seven fields: latitude,
//! longitude, two unused fields, the date as a day count, and two more unused
//! fields. Turning the day count into seconds is floating-point work and is
//! left to the caller; everything else is done here.

use crate::decimal::{parsed_decimal, DecimalNumber};
use vstd::prelude::*;
use vstd::string::StringSliceAdditionalSpecFns;

verus! {

/// The number of header lines that precede the records of a file.
pub const HEADER_LINES: usize = 6;

/// The number of fields in a record.
pub const FIELD_COUNT: usize = 7;

/// Why a record could not be read.
#[derive(Debug, Clone, PartialEq, Eq)]
pub enum ParseError {
    /// The line could not be read from its source; the text is the message.
    Io(String),
    /// The line does not have exactly seven fields.
    InvalidFieldCount,
    /// The date field is not a number; the text is the message.
    DateParse(String),
    /// The latitude field is not a decimal; the text is the message.
    LatitudeParse(String),
    /// The longitude field is not a decimal; the text is the message.
    LongitudeParse(String),
    /// The second count names no representable instant.
    InvalidTimestamp,
}

/// A raw sample: decimal coordinates and whole seconds since the Unix epoch.
#[derive(Debug, Clone, Copy, PartialEq, Eq, Structural)]
pub struct Point {
    pub latitude: DecimalNumber,
    pub longitude: DecimalNumber,
    pub timestamp: i64,
}

/// The fields of a record that a sample is built from, as text.
#[derive(Debug, Clone, Copy)]
pub struct PltRecord<'a> {
    pub latitude: &'a str,
    pub longitude: &'a str,
    pub date: &'a str,
}

/// The fields of `line`: the stretches between its commas. A line without a
/// comma is one field; an empty line is one empty field.
pub open spec fn comma_fields(line: Seq<char>) -> Seq<Seq<char>>
    decreases line.len(),
{
    if line.len() == 0 {
        seq![Seq::<char>::empty()]
    } else {
        let before = comma_fields(line.drop_last());
        if line.last() == ',' {
            before.push(Seq::<char>::empty())
        } else {
            before.drop_last().push(before.last().push(line.last()))
        }
    }
}

/// The texts of a list of string slices.
pub open spec fn texts(fields: Seq<&str>) -> Seq<Seq<char>> {
    Seq::new(fields.len(), |k: int| fields[k]@)
}

/// Whether `chrono` has a UTC instant for this count of seconds since the
/// Unix epoch.
pub uninterp spec fn instant_representable(seconds: int) -> bool;

/// What `assemble` returns, case by case: the first of timestamp, latitude and
/// longitude that failed decides the error.
pub open spec fn assembled(
    instant_exists: bool,
    latitude: Result<DecimalNumber, String>,
    longitude: Result<DecimalNumber, String>,
    unix_timestamp: i64,
) -> Result<Point, ParseError> {
    if !instant_exists {
        Err(ParseError::InvalidTimestamp)
    } else {
        match (latitude, longitude) {
            (Err(message), _) => Err(ParseError::LatitudeParse(message)),
            (Ok(_), Err(message)) => Err(ParseError::LongitudeParse(message)),
            (Ok(lat), Ok(lon)) => Ok(
                Point { latitude: lat, longitude: lon, timestamp: unix_timestamp },
            ),
        }
    }
}

/// Splits a line at its commas.
///
/// A line of ASCII text, which is what a record is, is split in one pass over
/// its bytes; any other line is walked character by character.
pub fn split_fields<'a>(line: &'a str) -> (fields: Vec<&'a str>)
    ensures
        texts(fields@) == comma_fields(line@),
{
    if line.is_ascii() {
        split_ascii_fields(line)
    } else {
        split_unicode_fields(line)
    }
}

/// `split_fields` for a line of ASCII text, where bytes and characters
/// correspond one to one.
fn split_ascii_fields<'a>(line: &'a str) -> (fields: Vec<&'a str>)
    requires
        line.is_ascii(),
    ensures
        texts(fields@) == comma_fields(line@),
{
    broadcast use vstd::string::is_ascii_spec_bytes;

    let bytes = line.as_bytes();
    let n = bytes.len();
    let mut fields: Vec<&'a str> = Vec::new();
    let mut start: usize = 0;
    let mut i: usize = 0;
    assert(line@.take(0) =~= Seq::<char>::empty());
    assert(comma_fields(line@.take(0)) =~= texts(fields@).push(line@.subrange(0, 0)));
    while i < n
        invariant
            line.is_ascii(),
            bytes@ == line.spec_bytes(),
            n == line@.len(),
            n == bytes@.len(),
            start <= i <= n,
            comma_fields(line@.take(i as int)) == texts(fields@).push(
                line@.subrange(start as int, i as int),
            ),
        decreases n - i,
    {
        let ghost before = comma_fields(line@.take(i as int));
        let ghost done = texts(fields@);
        assert(line@.take(i + 1).drop_last() =~= line@.take(i as int));
        assert(before.drop_last() =~= done);
        assert(bytes@[i as int] == line@[i as int] as u8);
        assert(line@[i as int] as u32 <= 0x7f);
        if bytes[i] == 0x2c {
            assert(line@[i as int] == ',');
            fields.push(line.substring_ascii(start, i));
            start = i + 1;
            assert(texts(fields@) =~= before);
            assert(line@.subrange(start as int, i + 1) =~= Seq::<char>::empty());
        } else {
            assert(line@[i as int] != ',');
            assert(before.last().push(line@[i as int]) =~= line@.subrange(start as int, i + 1));
        }
        i += 1;
    }
    assert(line@.take(n as int) =~= line@);
    let ghost done = texts(fields@);
    fields.push(line.substring_ascii(start, n));
    assert(texts(fields@) =~= done.push(line@.subrange(start as int, n as int)));
    fields
}

/// `split_fields` for any line.
fn split_unicode_fields<'a>(line: &'a str) -> (fields: Vec<&'a str>)
    ensures
        texts(fields@) == comma_fields(line@),
{
    let n = line.unicode_len();
    let mut fields: Vec<&'a str> = Vec::new();
    let mut start: usize = 0;
    let mut i: usize = 0;
    assert(line@.take(0) =~= Seq::<char>::empty());
    assert(comma_fields(line@.take(0)) =~= texts(fields@).push(line@.subrange(0, 0)));
    while i < n
        invariant
            n == line@.len(),
            start <= i <= n,
            comma_fields(line@.take(i as int)) == texts(fields@).push(
                line@.subrange(start as int, i as int),
            ),
        decreases n - i,
    {
        let ghost before = comma_fields(line@.take(i as int));
        let ghost done = texts(fields@);
        assert(line@.take(i + 1).drop_last() =~= line@.take(i as int));
        assert(before.drop_last() =~= done);
        if line.get_char(i) == ',' {
            fields.push(line.substring_char(start, i));
            start = i + 1;
            assert(texts(fields@) =~= before);
            assert(line@.subrange(start as int, i + 1) =~= Seq::<char>::empty());
        } else {
            assert(before.last().push(line@[i as int]) =~= line@.subrange(start as int, i + 1));
        }
        i += 1;
    }
    assert(line@.take(n as int) =~= line@);
    let ghost done = texts(fields@);
    fields.push(line.substring_char(start, n));
    assert(texts(fields@) =~= done.push(line@.subrange(start as int, n as int)));
    fields
}

/// Reads the fields of a record from a line.
///
/// Fails exactly when the line does not have seven fields.
pub fn parse_plt_record<'a>(line: &'a str) -> (r: Result<PltRecord<'a>, ParseError>)
    ensures
        r is Ok <==> comma_fields(line@).len() == FIELD_COUNT,
        r matches Ok(record) ==> record.latitude@ == comma_fields(line@)[0],
        r matches Ok(record) ==> record.longitude@ == comma_fields(line@)[1],
        r matches Ok(record) ==> record.date@ == comma_fields(line@)[4],
        r matches Err(e) ==> e == ParseError::InvalidFieldCount,
{
    let fields = split_fields(line);
    if fields.len() != FIELD_COUNT {
        return Err(ParseError::InvalidFieldCount);
    }
    assert(texts(fields@)[0] == fields@[0]@);
    assert(texts(fields@)[1] == fields@[1]@);
    assert(texts(fields@)[4] == fields@[4]@);
    Ok(PltRecord { latitude: fields[0], longitude: fields[1], date: fields[4] })
}

impl Point {
    /// Builds a sample from the outcome of its three conversions.
    pub fn assemble(
        instant_exists: bool,
        latitude: Result<DecimalNumber, String>,
        longitude: Result<DecimalNumber, String>,
        unix_timestamp: i64,
    ) -> (r: Result<Point, ParseError>)
        ensures
            r == assembled(instant_exists, latitude, longitude, unix_timestamp),
    {
        if !instant_exists {
            return Err(ParseError::InvalidTimestamp);
        }
        let lat = match latitude {
            Ok(d) => d,
            Err(message) => {
                return Err(ParseError::LatitudeParse(message));
            },
        };
        let lon = match longitude {
            Ok(d) => d,
            Err(message) => {
                return Err(ParseError::LongitudeParse(message));
            },
        };
        Ok(Point { latitude: lat, longitude: lon, timestamp: unix_timestamp })
    }

    /// Builds a sample from the latitude and longitude fields of a record and
    /// the second count of its date.
    ///
    /// The timestamp is checked first, then the latitude, then the longitude;
    /// the first that fails decides the error.
    pub fn from_fields(latitude: &str, longitude: &str, unix_timestamp: i64) -> (r: Result<
        Point,
        ParseError,
    >)
        ensures
            r is Ok <==> instant_representable(unix_timestamp as int) && parsed_decimal(latitude@)
                is Some && parsed_decimal(longitude@) is Some,
            r matches Ok(p) ==> p.timestamp == unix_timestamp,
            r matches Ok(p) ==> p.latitude.representable() && p.latitude.is_parse_of(
                parsed_decimal(latitude@),
            ),
            r matches Ok(p) ==> p.longitude.representable() && p.longitude.is_parse_of(
                parsed_decimal(longitude@),
            ),
            r matches Err(e) ==> (e == ParseError::InvalidTimestamp <==> !instant_representable(
                unix_timestamp as int,
            )),
            r matches Err(e) ==> (e is LatitudeParse <==> instant_representable(
                unix_timestamp as int,
            ) && parsed_decimal(latitude@) is None),
            r matches Err(e) ==> (e is LongitudeParse <==> instant_representable(
                unix_timestamp as int,
            ) && parsed_decimal(latitude@) is Some && parsed_decimal(longitude@) is None),
    {
        let instant_exists = instant_exists(unix_timestamp);
        let lat = DecimalNumber::parse(latitude);
        let lon = DecimalNumber::parse(longitude);
        Point::assemble(instant_exists, lat, lon, unix_timestamp)
    }
}

/// Calls `DateTime::from_timestamp` of `chrono` with no nanoseconds, and says
/// whether it returned an instant.
///
/// Claimed of it: the outcome depends on the second count alone.
#[verifier::external_body]
fn instant_exists(seconds: i64) -> (r: bool)
    ensures
        r == instant_representable(seconds as int),
{
    chrono::DateTime::from_timestamp(seconds, 0).is_some()
}

} // verus!
