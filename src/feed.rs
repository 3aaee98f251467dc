use vstd::prelude::*;
use vstd::string::StrSliceExecFns;

use crate::catalog::{records_in_range, BusyRecord, FeedError};
use crate::room::in_range;

verus! {

/// How calendar feeds write a UTC date and time.
pub const ICAL_DATE_FORMAT: &'static str = "%Y%m%dT%H%M%SZ";

/// Position of an event's start among its property values.
pub const START_FIELD: usize = 1;

/// Position of an event's end among its property values.
pub const END_FIELD: usize = 2;

/// Position of an event's location, the names of the rooms it takes.
pub const LOCATION_FIELD: usize = 4;

/// What `text`, read as a date and time by `format`, is in seconds since the epoch.
pub uninterp spec fn parsed_timestamp(text: Seq<char>, format: Seq<char>) -> Option<i64>;

#[verifier::external_type_specification]
#[verifier::external_body]
pub struct ExParseError(chrono::format::ParseError);

/// Relies on chrono's NaiveDateTime::parse_from_str, which reads `text` by `format`,
/// and on and_utc().timestamp(), the seconds since the epoch of that time taken as
/// UTC; both depend on their arguments alone.
#[verifier::external_body]
fn parse_timestamp(text: &str, format: &str) -> (r: Result<i64, chrono::format::ParseError>)
    ensures
        r is Ok <==> parsed_timestamp(text@, format@) is Some,
        r matches Ok(t) ==> parsed_timestamp(text@, format@) == Some(t),
{
    match chrono::NaiveDateTime::parse_from_str(text, format) {
        Ok(dt) => Ok(dt.and_utc().timestamp()),
        Err(e) => Err(e),
    }
}

/// The pieces of `s` from index `start` on, cut at each `\,`, scanning from `i`.
pub open spec fn split_rest(s: Seq<char>, start: int, i: int) -> Seq<Seq<char>>
    decreases s.len() - i,
{
    if i >= s.len() {
        seq![s.subrange(start, s.len() as int)]
    } else if i + 1 < s.len() && s[i] == '\\' && s[i + 1] == ',' {
        seq![s.subrange(start, i)] + split_rest(s, i + 2, i + 2)
    } else {
        split_rest(s, start, i + 1)
    }
}

/// The room names of a location: the pieces between the escaped commas `\,`.
pub open spec fn split_names(s: Seq<char>) -> Seq<Seq<char>> {
    split_rest(s, 0, 0)
}

pub open spec fn names_view(v: Seq<String>) -> Seq<Seq<char>> {
    v.map_values(|p: String| p@)
}

/// The room names of a location, cut at each escaped comma `\,`.
pub fn room_names(text: &str) -> (r: Vec<String>)
    ensures
        names_view(r@) == split_names(text@),
{
    let n = text.unicode_len();
    let mut out: Vec<String> = Vec::new();
    let mut start: usize = 0;
    let mut i: usize = 0;
    while i < n
        invariant
            start <= i <= n,
            n == text@.len(),
            names_view(out@) + split_rest(text@, start as int, i as int) == split_names(text@),
        decreases n - i,
    {
        if i + 1 < n && text.get_char(i) == '\\' && text.get_char(i + 1) == ',' {
            let piece = text.substring_char(start, i).to_owned();
            let ghost before = out@;
            out.push(piece);
            assert(names_view(out@) =~= names_view(before).push(piece@));
            assert(names_view(out@) + split_rest(text@, i + 2, i + 2) =~= names_view(before) + split_rest(
                text@,
                start as int,
                i as int,
            ));
            i = i + 2;
            start = i;
        } else {
            i = i + 1;
        }
    }
    let piece = text.substring_char(start, n).to_owned();
    let ghost before = out@;
    out.push(piece);
    assert(names_view(out@) =~= names_view(before).push(piece@));
    assert(names_view(out@) =~= names_view(before) + split_rest(text@, start as int, i as int));
    out
}

pub open spec fn field_view(field: Option<String>) -> Option<Seq<char>> {
    match field {
        Some(t) => Some(t@),
        None => None,
    }
}

pub open spec fn fields_view(values: Seq<Option<String>>) -> Seq<Option<Seq<char>>> {
    values.map_values(|field: Option<String>| field_view(field))
}

pub open spec fn events_view(events: Seq<Vec<Option<String>>>) -> Seq<Seq<Option<Seq<char>>>> {
    events.map_values(|values: Vec<Option<String>>| fields_view(values@))
}

pub open spec fn date_of(field: Option<Seq<char>>) -> Option<i64> {
    match field {
        Some(t) => parsed_timestamp(t, ICAL_DATE_FORMAT@),
        None => None,
    }
}

pub open spec fn location_of(field: Option<Seq<char>>) -> Seq<char> {
    match field {
        Some(t) => t,
        None => Seq::empty(),
    }
}

pub open spec fn records_view(v: Seq<BusyRecord>) -> Seq<(Seq<char>, i64, i64)> {
    v.map_values(|r: BusyRecord| (r.room@, r.start, r.end))
}

pub open spec fn outcome_view(r: Result<Vec<BusyRecord>, FeedError>) -> Result<
    Seq<(Seq<char>, i64, i64)>,
    FeedError,
> {
    match r {
        Ok(v) => Ok(records_view(v@)),
        Err(e) => Err(e),
    }
}

/// The busy records of one event, given its property values in order: one record
/// for each room its location names, from its start to its end. An event with too
/// few properties is malformed; a missing, unreadable or out-of-range date is a bad
/// date.
pub open spec fn event_spec(values: Seq<Option<Seq<char>>>) -> Result<Seq<(Seq<char>, i64, i64)>, FeedError> {
    if values.len() <= LOCATION_FIELD {
        Err(FeedError::Malformed)
    } else {
        match (date_of(values[START_FIELD as int]), date_of(values[END_FIELD as int])) {
            (Some(s), Some(e)) => if in_range(s as int) && in_range(e as int) {
                Ok(
                    split_names(location_of(values[LOCATION_FIELD as int])).map_values(
                        |n: Seq<char>| (n, s, e),
                    ),
                )
            } else {
                Err(FeedError::BadDate)
            },
            _ => Err(FeedError::BadDate),
        }
    }
}

fn event_date(field: &Option<String>) -> (r: Result<i64, FeedError>)
    ensures
        r is Ok <==> (date_of(field_view(*field)) matches Some(t) && in_range(t as int)),
        r matches Ok(t) ==> date_of(field_view(*field)) == Some(t),
        r matches Err(e) ==> e == FeedError::BadDate,
{
    match field {
        Some(text) => match parse_timestamp(text.as_str(), ICAL_DATE_FORMAT) {
            Ok(t) => {
                if -crate::room::TIMESTAMP_LIMIT <= t && t <= crate::room::TIMESTAMP_LIMIT {
                    Ok(t)
                } else {
                    Err(FeedError::BadDate)
                }
            },
            Err(_) => Err(FeedError::BadDate),
        },
        None => Err(FeedError::BadDate),
    }
}

/// The busy records of one calendar event, from its property values in order.
pub fn process_event(values: &Vec<Option<String>>) -> (r: Result<Vec<BusyRecord>, FeedError>)
    ensures
        outcome_view(r) == event_spec(fields_view(values@)),
        r matches Ok(v) ==> records_in_range(v@),
{
    let ghost fields = fields_view(values@);
    if values.len() <= LOCATION_FIELD {
        return Err(FeedError::Malformed);
    }
    let start = match event_date(&values[START_FIELD]) {
        Ok(t) => t,
        Err(e) => {
            return Err(e);
        },
    };
    let end = match event_date(&values[END_FIELD]) {
        Ok(t) => t,
        Err(e) => {
            return Err(e);
        },
    };
    let names = match &values[LOCATION_FIELD] {
        Some(text) => room_names(text.as_str()),
        None => {
            proof {
                reveal_strlit("");
                assert(""@ =~= Seq::<char>::empty());
            }
            room_names("")
        },
    };
    let mut out: Vec<BusyRecord> = Vec::new();
    let mut k: usize = 0;
    while k < names.len()
        invariant
            k <= names@.len(),
            out@.len() == k,
            in_range(start as int),
            in_range(end as int),
            records_view(out@) == names_view(names@).subrange(0, k as int).map_values(
                |n: Seq<char>| (n, start, end),
            ),
            records_in_range(out@),
        decreases names.len() - k,
    {
        let ghost before = out@;
        let room = names[k].clone();
        out.push(BusyRecord { room, start, end });
        assert forall|m: int| 0 <= m < k + 1 implies #[trigger] records_view(out@)[m]
            == names_view(names@).subrange(0, k + 1).map_values(|n: Seq<char>| (n, start, end))[m] by {
            if m < k {
                assert(out@[m] == before[m]);
                assert(records_view(before)[m] == names_view(names@).subrange(0, k as int).map_values(
                    |n: Seq<char>| (n, start, end),
                )[m]);
            } else {
                assert(out@[m].room@ == names@[m]@);
            }
        }
        assert(records_view(out@) =~= names_view(names@).subrange(0, k + 1).map_values(
            |n: Seq<char>| (n, start, end),
        ));
        assert forall|m: int| 0 <= m < out@.len() implies in_range(#[trigger] out@[m].start as int)
            && in_range(out@[m].end as int) by {
            if m < before.len() {
                assert(out@[m] == before[m]);
            }
        }
        k = k + 1;
    }
    assert(names_view(names@).subrange(0, names@.len() as int) =~= names_view(names@));
    Ok(out)
}

/// The busy records of a whole feed: the events' records in order, or the first
/// event's failure.
pub open spec fn feed_spec(events: Seq<Seq<Option<Seq<char>>>>) -> Result<Seq<(Seq<char>, i64, i64)>, FeedError>
    decreases events.len(),
{
    if events.len() == 0 {
        Ok(Seq::empty())
    } else {
        match feed_spec(events.drop_last()) {
            Err(e) => Err(e),
            Ok(acc) => match event_spec(events.last()) {
                Err(e) => Err(e),
                Ok(rs) => Ok(acc + rs),
            },
        }
    }
}

/// The busy records of a feed whose events are given by their property values.
/// A single bad event fails the whole feed, so that the rooms it names keep what
/// they had.
pub fn feed_records(events: &Vec<Vec<Option<String>>>) -> (r: Result<Vec<BusyRecord>, FeedError>)
    ensures
        outcome_view(r) == feed_spec(events_view(events@)),
        r matches Ok(v) ==> records_in_range(v@),
{
    let mut out: Vec<BusyRecord> = Vec::new();
    let mut i: usize = 0;
    assert(records_view(out@) =~= Seq::empty());
    assert(events_view(events@).subrange(0, 0).len() == 0);
    while i < events.len()
        invariant
            i <= events@.len(),
            feed_spec(events_view(events@).subrange(0, i as int)) == Ok::<Seq<(Seq<char>, i64, i64)>, FeedError>(
                records_view(out@),
            ),
            records_in_range(out@),
        decreases events.len() - i,
    {
        assert(events_view(events@).subrange(0, i + 1).drop_last() =~= events_view(events@).subrange(0, i as int));
        assert(events_view(events@).subrange(0, i + 1).last() == fields_view(events@[i as int]@));
        let mut records = match process_event(&events[i]) {
            Ok(v) => v,
            Err(e) => {
                proof {
                    lemma_feed_failure_stays(events_view(events@), i + 1);
                }
                return Err(e);
            },
        };
        let ghost before = out@;
        let ghost added = records@;
        out.append(&mut records);
        assert(records_view(out@) =~= records_view(before) + records_view(added));
        assert forall|m: int| 0 <= m < out@.len() implies in_range(#[trigger] out@[m].start as int)
            && in_range(out@[m].end as int) by {
            if m < before.len() {
                assert(out@[m] == before[m]);
            } else {
                assert(out@[m] == added[m - before.len()]);
            }
        }
        i = i + 1;
    }
    assert(events_view(events@).subrange(0, events@.len() as int) =~= events_view(events@));
    Ok(out)
}

proof fn lemma_feed_failure_stays(events: Seq<Seq<Option<Seq<char>>>>, i: int)
    requires
        0 <= i <= events.len(),
        feed_spec(events.subrange(0, i)) is Err,
    ensures
        feed_spec(events) == feed_spec(events.subrange(0, i)),
    decreases events.len() - i,
{
    if i == events.len() {
        assert(events.subrange(0, i) =~= events);
    } else {
        assert(events.subrange(0, i + 1).drop_last() =~= events.subrange(0, i));
        lemma_feed_failure_stays(events, i + 1);
    }
}

/// The property values, in order, of each event of the first calendar in `text`,
/// when that calendar reads.
pub uninterp spec fn calendar_fields(text: Seq<char>) -> Option<Seq<Seq<Option<Seq<char>>>>>;

#[verifier::external_type_specification]
#[verifier::external_body]
pub struct ExCalendarError(ical::parser::ParserError);

/// Relies on ical's IcalParser::new and its Iterator::next, which read the first
/// calendar of `ics` (nothing, a parse error, or the calendar); the property values
/// of its events depend on the text alone.
#[verifier::external_body]
fn calendar_events(ics: &str) -> (r: Option<Result<Vec<Vec<Option<String>>>, ical::parser::ParserError>>)
    ensures
        r matches Some(Ok(events)) ==> calendar_fields(ics@) == Some(events_view(events@)),
        !(r matches Some(Ok(_))) ==> calendar_fields(ics@) is None,
{
    match ical::IcalParser::new(ics.as_bytes()).next() {
        None => None,
        Some(Err(e)) => Some(Err(e)),
        Some(Ok(calendar)) => Some(Ok(calendar.events.into_iter().map(
            |event| event.properties.into_iter().map(|p| p.value).collect(),
        ).collect())),
    }
}

/// The busy records of a calendar document: malformed when it holds no calendar
/// that reads, else the records of its events.
pub fn parse_feed(ics: &str) -> (r: Result<Vec<BusyRecord>, FeedError>)
    ensures
        outcome_view(r) == match calendar_fields(ics@) {
            Some(events) => feed_spec(events),
            None => Err(FeedError::Malformed),
        },
        r matches Ok(v) ==> records_in_range(v@),
{
    match calendar_events(ics) {
        Some(Ok(events)) => feed_records(&events),
        _ => Err(FeedError::Malformed),
    }
}

} // verus!
