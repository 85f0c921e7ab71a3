//! Device events: what one line of a device log says of one device, and how
//! a device log is read into the events of each device.

use crate::error::{outcome_view, result_view, Field, ParseError, ParseErrorView};
use crate::group::{
    collected, gathered, group_by_key, items_by_key, keys_in_order, lemma_collected_fails,
    lemma_collected_failure, lemma_collected_items, lemma_gathered_len, lemma_gathered_source,
    lemma_grouping_map, lemma_items_of_len, lemma_items_of_source, line_number, Grouped, Keyed,
    Outcome,
};
use crate::number::{float_literal, i32_of, is_float_literal, parse_i32};
use crate::text::{
    chars_of, contains, contains_str, cut, lines, split, split_lines, split_once, split_str,
    split_whitespace, string_of, strip_prefix, strip_suffixes, tokens, trim, trim_end_matches,
    trimmed, views, without_prefix,
};
use crate::time::{parse_time, timestamp_of, Timestamp};
use vstd::prelude::*;

verus! {

/// One snapshot of the health of a device. The three measures are kept as
/// the line writes them, each a decimal floating-point literal.
#[derive(Debug)]
pub struct TelemetrySample {
    pub time: Timestamp,
    pub cpu_usage_pct: String,
    pub mem_usage_pct: String,
    pub mem_used_mb: String,
}

/// An unload direction that is not the expected one.
#[derive(Debug)]
pub struct DirectionMismatchEvent {
    pub time: Timestamp,
    pub direction: i32,
    pub device: String,
}

/// The end of a replenish operation.
#[derive(Debug)]
pub struct ReplenishEvent {
    pub time: Timestamp,
    pub device: String,
}

/// What one line says of a device. An event read from a line holds exactly
/// one of the three.
#[derive(Debug)]
pub struct DeviceEvent {
    pub telemetry: Option<TelemetrySample>,
    pub direction_mismatch: Option<DirectionMismatchEvent>,
    pub replenish: Option<ReplenishEvent>,
}

/// A `TelemetrySample` with its texts as sequences of characters.
pub struct TelemetryView {
    pub time: Timestamp,
    pub cpu_usage_pct: Seq<char>,
    pub mem_usage_pct: Seq<char>,
    pub mem_used_mb: Seq<char>,
}

/// A `DirectionMismatchEvent` with its text as a sequence of characters.
pub struct DirectionMismatchView {
    pub time: Timestamp,
    pub direction: i32,
    pub device: Seq<char>,
}

/// A `ReplenishEvent` with its text as a sequence of characters.
pub struct ReplenishView {
    pub time: Timestamp,
    pub device: Seq<char>,
}

/// A `DeviceEvent` with its texts as sequences of characters.
pub struct DeviceEventView {
    pub telemetry: Option<TelemetryView>,
    pub direction_mismatch: Option<DirectionMismatchView>,
    pub replenish: Option<ReplenishView>,
}

impl View for TelemetrySample {
    type V = TelemetryView;

    open spec fn view(&self) -> TelemetryView {
        TelemetryView {
            time: self.time,
            cpu_usage_pct: self.cpu_usage_pct@,
            mem_usage_pct: self.mem_usage_pct@,
            mem_used_mb: self.mem_used_mb@,
        }
    }
}

impl View for DirectionMismatchEvent {
    type V = DirectionMismatchView;

    open spec fn view(&self) -> DirectionMismatchView {
        DirectionMismatchView { time: self.time, direction: self.direction, device: self.device@ }
    }
}

impl View for ReplenishEvent {
    type V = ReplenishView;

    open spec fn view(&self) -> ReplenishView {
        ReplenishView { time: self.time, device: self.device@ }
    }
}

impl View for DeviceEvent {
    type V = DeviceEventView;

    open spec fn view(&self) -> DeviceEventView {
        DeviceEventView {
            telemetry: match self.telemetry {
                Some(x) => Some(x@),
                None => None,
            },
            direction_mismatch: match self.direction_mismatch {
                Some(x) => Some(x@),
                None => None,
            },
            replenish: match self.replenish {
                Some(x) => Some(x@),
                None => None,
            },
        }
    }
}

impl TelemetryView {
    /// Each of the three measures is a decimal floating-point literal.
    pub open spec fn wf(self) -> bool {
        &&& is_float_literal(self.cpu_usage_pct)
        &&& is_float_literal(self.mem_usage_pct)
        &&& is_float_literal(self.mem_used_mb)
    }
}

impl DeviceEventView {
    /// How many of the three the event holds.
    pub open spec fn populated(self) -> nat {
        let a: nat = if self.telemetry.is_some() {
            1
        } else {
            0
        };
        let b: nat = if self.direction_mismatch.is_some() {
            1
        } else {
            0
        };
        let c: nat = if self.replenish.is_some() {
            1
        } else {
            0
        };
        a + b + c
    }
}

impl DeviceEvent {
    /// An event that holds nothing.
    pub fn new() -> (e: Self)
        ensures
            e@.populated() == 0,
    {
        DeviceEvent { telemetry: None, direction_mismatch: None, replenish: None }
    }
}

/// The kinds of device event.
#[derive(Clone, Copy, Debug, PartialEq, Eq, Structural)]
pub enum DeviceSchema {
    Telemetry,
    DirectionMismatch,
    Replenish,
}

/// The kind of event that `line` is taken for, by the words it holds
/// somewhere: `cpu usage`; or else both `unload direction` and `match with`;
/// or else `send replenish finish`. A line with none of these is taken for
/// no event.
pub open spec fn device_schema(line: Seq<char>) -> Option<DeviceSchema> {
    if contains_str(line, "cpu usage"@) {
        Some(DeviceSchema::Telemetry)
    } else if contains_str(line, "unload direction"@) && contains_str(line, "match with"@) {
        Some(DeviceSchema::DirectionMismatch)
    } else if contains_str(line, "send replenish finish"@) {
        Some(DeviceSchema::Replenish)
    } else {
        None
    }
}

/// The kind of event that `line` is taken for, if it is taken for any.
pub fn classify_device_line(line: &[char]) -> (r: Option<DeviceSchema>)
    ensures
        r == device_schema(line@),
{
    if contains(line, "cpu usage") {
        Some(DeviceSchema::Telemetry)
    } else if contains(line, "unload direction") && contains(line, "match with") {
        Some(DeviceSchema::DirectionMismatch)
    } else if contains(line, "send replenish finish") {
        Some(DeviceSchema::Replenish)
    } else {
        None
    }
}

/// The time stamp, the device name and the message of `line`. The line is
/// cut at its first three `]`. The first part opens with `[`, the second
/// and the third with a blank and `[`; what follows in the first is the
/// time stamp, in the third the device name. What stands after the third
/// `]` is the message. White space around each of the three is dropped.
pub open spec fn device_parts(line: Seq<char>) -> Option<(Seq<char>, Seq<char>, Seq<char>)> {
    match split_once(line, ']') {
        None => None,
        Some((first, rest)) => match split_once(rest, ']') {
            None => None,
            Some((second, rest)) => match split_once(rest, ']') {
                None => None,
                Some((third, message)) => match (
                    strip_prefix(first, "["@),
                    strip_prefix(second, " ["@),
                    strip_prefix(third, " ["@),
                ) {
                    (Some(time), Some(_), Some(device)) => Some(
                        (trimmed(time), trimmed(device), trimmed(message)),
                    ),
                    _ => None,
                },
            },
        },
    }
}

/// The time stamp, the device name and the message of `line`, where it has
/// its three bracketed parts.
pub fn split_device_line<'a>(line: &'a [char]) -> (r: Option<
    (&'a [char], &'a [char], &'a [char]),
>)
    ensures
        match r {
            Some((time, device, message)) => device_parts(line@) == Some(
                (time@, device@, message@),
            ),
            None => device_parts(line@).is_none(),
        },
{
    let (first, rest) = match cut(line, ']') {
        Some(p) => p,
        None => {
            return None;
        },
    };
    let (second, rest) = match cut(rest, ']') {
        Some(p) => p,
        None => {
            return None;
        },
    };
    let (third, message) = match cut(rest, ']') {
        Some(p) => p,
        None => {
            return None;
        },
    };
    let time = match without_prefix(first, "[") {
        Some(t) => t,
        None => {
            return None;
        },
    };
    if without_prefix(second, " [").is_none() {
        return None;
    }
    let device = match without_prefix(third, " [") {
        Some(d) => d,
        None => {
            return None;
        },
    };
    Some((trim(time), trim(device), trim(message)))
}

/// The measure that the part `segment` of a telemetry message gives: what
/// follows its first `:`, without the copies of `unit` that close it, where
/// that is a decimal floating-point literal.
pub open spec fn measure_of(segment: Seq<char>, unit: Seq<char>) -> Option<Seq<char>> {
    match split_once(segment, ':') {
        Some((_, value)) => if is_float_literal(trim_end_matches(value, unit)) {
            Some(trim_end_matches(value, unit))
        } else {
            None
        },
        None => None,
    }
}

/// The measure that the part `segment` of a telemetry message gives, if it
/// gives one.
pub fn read_measure<'a>(segment: &'a [char], unit: &str) -> (r: Option<&'a [char]>)
    ensures
        match r {
            Some(v) => measure_of(segment@, unit@) == Some(v@),
            None => measure_of(segment@, unit@).is_none(),
        },
{
    match cut(segment, ':') {
        Some((_, value)) => {
            let number = strip_suffixes(value, unit);
            if float_literal(number) {
                Some(number)
            } else {
                None
            }
        },
        None => None,
    }
}

/// The measure at index `at` among the parts `segments`, or the failure to
/// give it.
pub open spec fn measure_at(
    line: usize,
    field: Field,
    segments: Seq<Seq<char>>,
    at: int,
    unit: Seq<char>,
) -> Result<Seq<char>, ParseErrorView> {
    if at < segments.len() && measure_of(segments[at], unit).is_some() {
        Ok(measure_of(segments[at], unit).unwrap())
    } else {
        Err(ParseErrorView::InvalidTelemetryField { line, field })
    }
}

/// The measure at index `at` among the parts `segments`.
fn read_measure_at(line: usize, field: Field, segments: &Vec<&[char]>, at: usize, unit: &str) -> (r:
    Result<String, ParseError>)
    ensures
        result_view(r) == measure_at(line, field, views(segments@), at as int, unit@),
{
    if at < segments.len() {
        assert(views(segments@)[at as int] == segments@[at as int]@);
        match read_measure(segments[at], unit) {
            Some(v) => Ok(string_of(v)),
            None => Err(ParseError::InvalidTelemetryField { line, field }),
        }
    } else {
        Err(ParseError::InvalidTelemetryField { line, field })
    }
}

/// The telemetry sample that `message` gives for the instant `time`. The
/// message is cut at each comma followed by a blank. The first and the
/// second part give the processor and the memory usage in percent, the
/// fourth the memory used in megabytes; the third must be there and is not
/// looked into. The first part that fails is reported.
pub open spec fn telemetry_of(line: usize, time: Timestamp, message: Seq<char>) -> Result<
    TelemetryView,
    ParseErrorView,
> {
    let segments = split_str(message, ", "@);
    match measure_at(line, Field::CpuUsage, segments, 0, "%"@) {
        Err(e) => Err(e),
        Ok(cpu_usage_pct) => match measure_at(line, Field::MemUsage, segments, 1, "%"@) {
            Err(e) => Err(e),
            Ok(mem_usage_pct) => if segments.len() <= 2 {
                Err(ParseErrorView::InvalidTelemetryField { line, field: Field::MemTotal })
            } else {
                match measure_at(line, Field::MemUsed, segments, 3, "MB"@) {
                    Err(e) => Err(e),
                    Ok(mem_used_mb) => Ok(
                        TelemetryView { time, cpu_usage_pct, mem_usage_pct, mem_used_mb },
                    ),
                }
            },
        },
    }
}

/// Reads the telemetry sample that `message` gives for the instant `time`.
pub fn parse_telemetry(line: usize, time: Timestamp, message: &[char]) -> (r: Result<
    TelemetrySample,
    ParseError,
>)
    ensures
        result_view(r) == telemetry_of(line, time, message@),
        r matches Ok(sample) ==> sample@.wf(),
{
    let segments = split(message, ", ");
    let cpu_usage_pct = match read_measure_at(line, Field::CpuUsage, &segments, 0, "%") {
        Ok(v) => v,
        Err(e) => {
            return Err(e);
        },
    };
    let mem_usage_pct = match read_measure_at(line, Field::MemUsage, &segments, 1, "%") {
        Ok(v) => v,
        Err(e) => {
            return Err(e);
        },
    };
    if segments.len() <= 2 {
        return Err(ParseError::InvalidTelemetryField { line, field: Field::MemTotal });
    }
    let mem_used_mb = match read_measure_at(line, Field::MemUsed, &segments, 3, "MB") {
        Ok(v) => v,
        Err(e) => {
            return Err(e);
        },
    };
    Ok(TelemetrySample { time, cpu_usage_pct, mem_usage_pct, mem_used_mb })
}

/// The unload direction that `message` gives: the integer that the first
/// word after `unload direction ` writes. A message that does not open so,
/// or has no word after it, lacks the direction.
pub open spec fn direction_of(line: usize, message: Seq<char>) -> Result<i32, ParseErrorView> {
    match strip_prefix(message, "unload direction "@) {
        None => Err(ParseErrorView::MissingField { line, field: Field::Direction }),
        Some(rest) => if tokens(rest).len() == 0 {
            Err(ParseErrorView::MissingField { line, field: Field::Direction })
        } else {
            match i32_of(tokens(rest)[0]) {
                Some(direction) => Ok(direction),
                None => Err(
                    ParseErrorView::InvalidFieldValue {
                        line,
                        field: Field::Direction,
                        value: tokens(rest)[0],
                    },
                ),
            }
        },
    }
}

/// Reads the unload direction that `message` gives.
pub fn parse_direction(line: usize, message: &[char]) -> (r: Result<i32, ParseError>)
    ensures
        match r {
            Ok(direction) => direction_of(line, message@) == Ok::<i32, ParseErrorView>(direction),
            Err(e) => direction_of(line, message@) == Err::<i32, ParseErrorView>(e@),
        },
{
    let rest = match without_prefix(message, "unload direction ") {
        Some(rest) => rest,
        None => {
            return Err(ParseError::MissingField { line, field: Field::Direction });
        },
    };
    let words = split_whitespace(rest);
    if words.len() == 0 {
        return Err(ParseError::MissingField { line, field: Field::Direction });
    }
    assert(views(words@)[0] == words@[0]@);
    match parse_i32(words[0]) {
        Some(direction) => Ok(direction),
        None => Err(
            ParseError::InvalidFieldValue {
                line,
                field: Field::Direction,
                value: string_of(words[0]),
            },
        ),
    }
}

/// The event of kind `schema` that a line with the given parts makes, where
/// `time` is what the time stamp `time_text` was read as.
pub open spec fn assembled_event(
    line: usize,
    schema: DeviceSchema,
    time_text: Seq<char>,
    time: Option<Timestamp>,
    device: Seq<char>,
    message: Seq<char>,
) -> Result<DeviceEventView, ParseErrorView> {
    match time {
        None => Err(
            ParseErrorView::InvalidFieldValue { line, field: Field::Time, value: time_text },
        ),
        Some(time) => match schema {
            DeviceSchema::Telemetry => match telemetry_of(line, time, message) {
                Ok(sample) => Ok(
                    DeviceEventView {
                        telemetry: Some(sample),
                        direction_mismatch: None,
                        replenish: None,
                    },
                ),
                Err(e) => Err(e),
            },
            DeviceSchema::DirectionMismatch => match direction_of(line, message) {
                Ok(direction) => Ok(
                    DeviceEventView {
                        telemetry: None,
                        direction_mismatch: Some(
                            DirectionMismatchView { time, direction, device },
                        ),
                        replenish: None,
                    },
                ),
                Err(e) => Err(e),
            },
            DeviceSchema::Replenish => Ok(
                DeviceEventView {
                    telemetry: None,
                    direction_mismatch: None,
                    replenish: Some(ReplenishView { time, device }),
                },
            ),
        },
    }
}

/// Makes the event of kind `schema` of a line with the given parts, where
/// `time` is what the time stamp `time_text` was read as.
pub fn assemble_device_event(
    line: usize,
    schema: DeviceSchema,
    time_text: &[char],
    time: Option<Timestamp>,
    device: &[char],
    message: &[char],
) -> (r: Result<DeviceEvent, ParseError>)
    ensures
        result_view(r) == assembled_event(line, schema, time_text@, time, device@, message@),
        r matches Ok(event) ==> event@.populated() == 1,
{
    let time = match time {
        Some(t) => t,
        None => {
            return Err(
                ParseError::InvalidFieldValue {
                    line,
                    field: Field::Time,
                    value: string_of(time_text),
                },
            );
        },
    };
    match schema {
        DeviceSchema::Telemetry => match parse_telemetry(line, time, message) {
            Ok(sample) => Ok(
                DeviceEvent { telemetry: Some(sample), direction_mismatch: None, replenish: None },
            ),
            Err(e) => Err(e),
        },
        DeviceSchema::DirectionMismatch => match parse_direction(line, message) {
            Ok(direction) => Ok(
                DeviceEvent {
                    telemetry: None,
                    direction_mismatch: Some(
                        DirectionMismatchEvent { time, direction, device: string_of(device) },
                    ),
                    replenish: None,
                },
            ),
            Err(e) => Err(e),
        },
        DeviceSchema::Replenish => Ok(
            DeviceEvent {
                telemetry: None,
                direction_mismatch: None,
                replenish: Some(ReplenishEvent { time, device: string_of(device) }),
            },
        ),
    }
}

/// What line number `line` of a device log gives: nothing where it is taken
/// for no event, and else its event under the name of its device, or the
/// reason why it has none.
pub open spec fn device_line(line: usize, text: Seq<char>) -> Outcome<DeviceEventView> {
    match device_schema(text) {
        None => Ok(None),
        Some(schema) => match device_parts(text) {
            None => Err(ParseErrorView::MalformedLine { line }),
            Some((time, device, message)) => match assembled_event(
                line,
                schema,
                time,
                timestamp_of(time),
                device,
                message,
            ) {
                Ok(event) => Ok(Some((device, event))),
                Err(e) => Err(e),
            },
        },
    }
}

/// Reads line number `line` of a device log.
pub fn parse_device_line(line: usize, text: &[char]) -> (r: Result<
    Option<Keyed<DeviceEvent>>,
    ParseError,
>)
    ensures
        outcome_view(r) == device_line(line, text@),
{
    let schema = match classify_device_line(text) {
        Some(schema) => schema,
        None => {
            return Ok(None);
        },
    };
    match split_device_line(text) {
        None => Err(ParseError::MalformedLine { line }),
        Some((time_text, device, message)) => {
            let stamp = string_of(time_text);
            let time = parse_time(stamp.as_str());
            match assemble_device_event(line, schema, time_text, time, device, message) {
                Ok(event) => Ok(Some(Keyed { key: string_of(device), item: event })),
                Err(e) => Err(e),
            }
        },
    }
}

/// The events of a device log, by device name. The events of a device
/// stand in the order of their lines.
pub type DeviceLog = Grouped<DeviceEvent>;

/// The number of lines of a device log that are read; what follows them is
/// not looked at.
pub const DEVICE_LINE_LIMIT: usize = 1000;

/// The lines of `ls` that are read: the first `DEVICE_LINE_LIMIT`.
pub open spec fn lines_read(ls: Seq<Seq<char>>) -> Seq<Seq<char>> {
    if ls.len() > DEVICE_LINE_LIMIT {
        ls.take(DEVICE_LINE_LIMIT as int)
    } else {
        ls
    }
}

/// What each of the lines `ls` of a device log gives.
pub open spec fn device_outcomes(ls: Seq<Seq<char>>) -> Seq<Outcome<DeviceEventView>> {
    Seq::new(ls.len(), |i: int| device_line(line_number(i), ls[i]))
}

/// What a device log with the text `text` gives: the failure of the first
/// line that has one among the lines that are read, and else the events of
/// those lines by device name, in the order of the lines.
pub open spec fn device_log(text: Seq<char>) -> Result<
    Map<Seq<char>, Seq<DeviceEventView>>,
    ParseErrorView,
> {
    match collected(device_outcomes(lines_read(lines(text)))) {
        Ok(pairs) => Ok(items_by_key(pairs)),
        Err(e) => Err(e),
    }
}

/// Reads the first `count` lines of a device log into events, each under
/// the name of its device.
fn read_device_lines(ls: &Vec<&[char]>, count: usize) -> (r: Result<
    Vec<Keyed<DeviceEvent>>,
    ParseError,
>)
    requires
        count <= ls.len(),
    ensures
        match r {
            Ok(entries) => collected(device_outcomes(views(ls@).take(count as int))) == Ok::<
                Seq<(Seq<char>, DeviceEventView)>,
                ParseErrorView,
            >(views(entries@)),
            Err(e) => collected(device_outcomes(views(ls@).take(count as int))) == Err::<
                Seq<(Seq<char>, DeviceEventView)>,
                ParseErrorView,
            >(e@),
        },
{
    let ghost outcomes = device_outcomes(views(ls@).take(count as int));
    let mut entries: Vec<Keyed<DeviceEvent>> = Vec::new();
    let mut i: usize = 0;
    assert(outcomes.take(0) == Seq::<Outcome<DeviceEventView>>::empty());
    assert(views(entries@) == Seq::<(Seq<char>, DeviceEventView)>::empty());
    while i < count
        invariant
            i <= count <= ls.len(),
            outcomes == device_outcomes(views(ls@).take(count as int)),
            forall|j: int| 0 <= j < i ==> (#[trigger] outcomes[j]) is Ok,
            views(entries@) == gathered(outcomes.take(i as int)),
        decreases count - i,
    {
        assert(views(ls@).take(count as int)[i as int] == ls@[i as int]@);
        assert(outcomes.take(i + 1).drop_last() == outcomes.take(i as int));
        assert(outcomes.take(i + 1).last() == outcomes[i as int]);
        let ghost before = views(entries@);
        match parse_device_line(i + 1, ls[i]) {
            Err(e) => {
                proof {
                    lemma_collected_failure(outcomes, i as int);
                }
                return Err(e);
            },
            Ok(None) => {},
            Ok(Some(entry)) => {
                entries.push(entry);
                assert(views(entries@) == before.push(entry@));
            },
        }
        i += 1;
    }
    proof {
        assert(outcomes.take(i as int) == outcomes);
        lemma_collected_items(outcomes);
    }
    Ok(entries)
}

/// Reads a device log: the events of its first `DEVICE_LINE_LIMIT` lines, by
/// device name, in the order of the lines. The first of those lines that
/// is taken for an event and gives none makes the whole parse fail.
pub fn parse_device_log(text: &str) -> (r: Result<DeviceLog, ParseError>)
    ensures
        result_view(r) == device_log(text@),
        r matches Ok(log) ==> log.wf() && keys_in_order(
            views(log.groups@),
            collected(device_outcomes(lines_read(lines(text@))))->Ok_0,
        ),
        r matches Ok(log) ==> forall|device: Seq<char>, k: int|
            log@.contains_key(device) && 0 <= k < log@[device].len() ==> (
            #[trigger] log@[device][k]).populated() == 1,
{
    let chars = chars_of(text);
    let ls = split_lines(chars.as_slice());
    let count = if ls.len() > DEVICE_LINE_LIMIT {
        DEVICE_LINE_LIMIT
    } else {
        ls.len()
    };
    assert(views(ls@).take(count as int) == lines_read(lines(text@)));
    let entries = match read_device_lines(&ls, count) {
        Ok(entries) => entries,
        Err(e) => {
            return Err(e);
        },
    };
    let ghost pairs = views(entries@);
    let groups = group_by_key(entries);
    let log = Grouped { groups };
    proof {
        lemma_grouping_map(views(log.groups@), pairs);
        assert forall|device: Seq<char>, k: int|
            log@.contains_key(device) && 0 <= k < log@[device].len() implies (
        #[trigger] log@[device][k]).populated() == 1 by {
            lemma_events_match_lines(text@, device, k);
        }
    }
    Ok(log)
}

/// Every event of a device log that parses holds exactly one of the three
/// kinds and is what one of the lines that are read gives, under the name
/// of its device.
pub proof fn lemma_events_match_lines(text: Seq<char>, device: Seq<char>, k: int) -> (i: int)
    requires
        device_log(text) is Ok,
        device_log(text)->Ok_0.contains_key(device),
        0 <= k < device_log(text)->Ok_0[device].len(),
    ensures
        0 <= i < lines(text).len(),
        i < DEVICE_LINE_LIMIT,
        device_line(line_number(i), lines(text)[i]) == Ok::<
            Option<(Seq<char>, DeviceEventView)>,
            ParseErrorView,
        >(Some((device, device_log(text)->Ok_0[device][k]))),
        device_log(text)->Ok_0[device][k].populated() == 1,
        device_log(text)->Ok_0[device][k].telemetry matches Some(sample) ==> sample.wf(),
{
    let ls = lines_read(lines(text));
    let outcomes = device_outcomes(ls);
    let pairs = collected(outcomes)->Ok_0;
    assert(pairs == gathered(outcomes));
    let p = lemma_items_of_source(pairs, device, k);
    let i = lemma_gathered_source(outcomes, p);
    assert(ls[i] == lines(text)[i]);
    i
}

/// A device log that parses gives no device more events than lines are
/// read.
pub proof fn lemma_device_log_bounded(text: Seq<char>, device: Seq<char>)
    requires
        device_log(text) is Ok,
        device_log(text)->Ok_0.contains_key(device),
    ensures
        device_log(text)->Ok_0[device].len() <= DEVICE_LINE_LIMIT,
{
    let outcomes = device_outcomes(lines_read(lines(text)));
    let pairs = collected(outcomes)->Ok_0;
    assert(pairs == gathered(outcomes));
    lemma_gathered_len(outcomes);
    lemma_items_of_len(pairs, device);
}

/// What a device log gives does not depend on what follows its first
/// `DEVICE_LINE_LIMIT` lines: two files that agree on those lines give the
/// same.
pub proof fn lemma_device_log_limit(a: Seq<char>, b: Seq<char>)
    requires
        lines(a).len() >= DEVICE_LINE_LIMIT,
        lines(b).len() >= DEVICE_LINE_LIMIT,
        lines(a).take(DEVICE_LINE_LIMIT as int) == lines(b).take(DEVICE_LINE_LIMIT as int),
    ensures
        device_log(a) == device_log(b),
{
    assert(lines_read(lines(a)) == lines(a).take(DEVICE_LINE_LIMIT as int));
    assert(lines_read(lines(b)) == lines(b).take(DEVICE_LINE_LIMIT as int));
}

/// A line among those that are read which is taken for an event and lacks
/// the three bracketed parts makes the parse fail; where no line before it
/// fails, the failure is that this line is malformed.
pub proof fn lemma_malformed_device_line_fails(text: Seq<char>, i: int)
    requires
        0 <= i < lines(text).len(),
        i < DEVICE_LINE_LIMIT,
        device_schema(lines(text)[i]).is_some(),
        device_parts(lines(text)[i]).is_none(),
    ensures
        device_log(text) is Err,
        (forall|j: int| 0 <= j < i ==> device_line(line_number(j), #[trigger] lines(text)[j]) is Ok)
            ==> device_log(text) == Err::<Map<Seq<char>, Seq<DeviceEventView>>, ParseErrorView>(
            ParseErrorView::MalformedLine { line: line_number(i) },
        ),
{
    let ls = lines_read(lines(text));
    let outcomes = device_outcomes(ls);
    assert(ls[i] == lines(text)[i]);
    lemma_collected_fails(outcomes, i);
    if forall|j: int| 0 <= j < i ==> device_line(line_number(j), #[trigger] lines(text)[j]) is Ok {
        assert forall|j: int| 0 <= j < i implies (#[trigger] outcomes[j]) is Ok by {
            assert(ls[j] == lines(text)[j]);
            assert(device_line(line_number(j), lines(text)[j]) is Ok);
        }
        lemma_collected_failure(outcomes, i);
    }
}

} // verus!
