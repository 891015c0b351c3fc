//! One telemetry record, and how a raw input line becomes one.
//!
//! A line is split on commas and validated in a fixed order. Missing fields
//! and sentinel values are benign rejects (the line is silently skipped);
//! a malformed number or timestamp in a present field is a hard error that
//! aborts the whole run.

use vstd::prelude::*;

use crate::datetime::DateTime;
use crate::datetime::dt_of;
use crate::datetime::parse_timestamp;
use crate::datetime::valid_ts;
use crate::digits::parse_uint;
use crate::digits::parsed_uint;
use crate::text::split_commas;
use crate::text::split_fields;
use crate::text::trim;
use crate::text::trimmed;

verus! {

/// One accepted observation.
#[derive(Debug)]
pub struct Point {
    /// Grouping key; zero marks an invalid record, so accepted points have
    /// a positive identifier.
    pub id: usize,
    /// When the observation was made.
    pub time: DateTime,
    /// Latitude, kept as trimmed text.
    pub lat: String,
    /// Longitude, kept as trimmed text.
    pub lng: String,
}

/// The mathematical image of a [`Point`].
#[verifier::ext_equal]
pub struct PointV {
    pub id: int,
    pub time: DateTime,
    pub lat: Seq<char>,
    pub lng: Seq<char>,
}

impl View for Point {
    type V = PointV;

    open spec fn view(&self) -> PointV {
        PointV { id: self.id as int, time: self.time, lat: self.lat@, lng: self.lng@ }
    }
}

impl DeepView for Point {
    type V = PointV;

    open spec fn deep_view(&self) -> PointV {
        self.view()
    }
}

impl PointV {
    /// Every point the parser hands out satisfies this.
    pub open spec fn wf(self) -> bool {
        self.id > 0 && self.time.wf()
    }
}

impl Point {
    /// Every point the parser hands out satisfies this.
    pub open spec fn wf(self) -> bool {
        self@.wf()
    }
}

/// A hard parse error: the line had enough fields, but a numeric or
/// timestamp field that is present is malformed.
#[derive(Clone, Copy, PartialEq, Eq, Structural, Debug)]
pub enum LineError {
    /// The trailing validity flag does not parse as an unsigned integer.
    BadFlag,
    /// The timestamp field is not a valid compact `YYYYMMDDHHMMSS` form.
    BadTimestamp,
    /// The identifier field does not parse as an unsigned integer.
    BadId,
}

/// What handling one line yields: a silent reject, a hard error, or an
/// accepted point.
pub enum LineOutcome {
    Reject,
    Fail(LineError),
    Accept(PointV),
}

/// The coordinate value that marks a record as invalid.
pub open spec fn coord_sentinel() -> Seq<char> {
    "0.0000000"@
}

/// The outcome of one raw line, checked in this order: too few fields is a
/// reject; an unparseable trailing validity flag is a hard error; a zero flag
/// is a reject; absent coordinate fields are a reject (the coordinates sit at
/// indices four and five, so a line of exactly five fields cannot supply
/// them); a sentinel coordinate is a reject; a malformed timestamp and a
/// malformed identifier are hard errors; a zero identifier, the sentinel for
/// an invalid record, is a reject; anything left is an accepted point built
/// from the trimmed coordinate fields.
pub open spec fn line_outcome(s: Seq<char>) -> LineOutcome {
    let fs = split_fields(s);
    if fs.len() < 5 {
        LineOutcome::Reject
    } else if parsed_uint(fs.last()) is None {
        LineOutcome::Fail(LineError::BadFlag)
    } else if parsed_uint(fs.last()) == Some(0int) {
        LineOutcome::Reject
    } else if fs.len() == 5 {
        LineOutcome::Reject
    } else if trimmed(fs[4]) == coord_sentinel() || trimmed(fs[5]) == coord_sentinel() {
        LineOutcome::Reject
    } else if !valid_ts(fs[3]) {
        LineOutcome::Fail(LineError::BadTimestamp)
    } else if parsed_uint(fs[0]) is None {
        LineOutcome::Fail(LineError::BadId)
    } else if parsed_uint(fs[0]) == Some(0int) {
        LineOutcome::Reject
    } else {
        LineOutcome::Accept(
            PointV {
                id: parsed_uint(fs[0])->0,
                time: dt_of(fs[3]),
                lat: trimmed(fs[4]),
                lng: trimmed(fs[5]),
            },
        )
    }
}

/// An accepted line's record holds exactly the line's fields: the identifier
/// and timestamp as parsed, the coordinates trimmed, and rendering the
/// record's time reproduces the timestamp's own digits in canonical
/// `YYYY-MM-DD HH:MM:SS` form.
pub proof fn lemma_accepted_round_trip(s: Seq<char>, p: PointV)
    requires
        line_outcome(s) == LineOutcome::Accept(p),
    ensures
        Some(p.id) == parsed_uint(split_fields(s)[0]),
        p.time == dt_of(split_fields(s)[3]),
        p.lat == trimmed(split_fields(s)[4]),
        p.lng == trimmed(split_fields(s)[5]),
        crate::datetime::fmt_dt(p.time) == crate::datetime::canonical_ts(split_fields(s)[3]),
{
    crate::datetime::lemma_ts_roundtrip(split_fields(s)[3]);
}

/// Parse and validate one raw line, exactly as `line_outcome` says:
/// `Ok(Some(point))` for an accepted line, `Ok(None)` for a benign reject,
/// `Err` for a hard error.
pub fn parse_line(line: &str) -> (r: Result<Option<Point>, LineError>)
    ensures
        match r {
            Ok(Some(p)) => line_outcome(line@) == LineOutcome::Accept(p@) && p.wf(),
            Ok(None) => line_outcome(line@) is Reject,
            Err(e) => line_outcome(line@) == LineOutcome::Fail(e),
        },
{
    let ghost fs = split_fields(line@);
    let fields = split_commas(line);
    proof {
        assert(fields.deep_view().len() == fields@.len());
        assert(forall|i: int|
            0 <= i < fields@.len() ==> fields.deep_view()[i] == #[trigger] fields@[i]@);
    }
    if fields.len() < 5 {
        return Ok(None);
    }
    let flag = match parse_uint(fields[fields.len() - 1].as_str()) {
        None => {
            return Err(LineError::BadFlag);
        },
        Some(v) => v,
    };
    if flag == 0 {
        return Ok(None);
    }
    if fields.len() == 5 {
        return Ok(None);
    }
    let lat = trim(fields[4].as_str());
    let lng = trim(fields[5].as_str());
    let sentinel: String = "0.0000000".to_owned();
    if lat == sentinel || lng == sentinel {
        return Ok(None);
    }
    let time = match parse_timestamp(fields[3].as_str()) {
        None => {
            return Err(LineError::BadTimestamp);
        },
        Some(t) => t,
    };
    let id = match parse_uint(fields[0].as_str()) {
        None => {
            return Err(LineError::BadId);
        },
        Some(v) => v,
    };
    if id == 0 {
        return Ok(None);
    }
    Ok(Some(Point { id, time, lat, lng }))
}

} // verus!
