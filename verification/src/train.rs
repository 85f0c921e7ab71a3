//! Train position records: what one line of a train log says of one train car
//! at one instant, and how a line is read into one.

use crate::error::{outcome_view, result_view, Field, ParseError, ParseErrorView};
use crate::group::{
    collected, comes_before, gathered, group_at, group_by_key, group_map, has_group, has_key,
    items_by_key, items_of, keys_in_order, lemma_collected_fails, lemma_collected_failure,
    lemma_collected_items, lemma_gathered_source, lemma_grouping_map, lemma_items_of_source,
    line_number, Group, Grouped, Keyed, Outcome,
};
use crate::number::{float_literal, is_float_literal};
use crate::sort::{
    at_time, is_sorted, lemma_stable_sort_keeps, lemma_stable_sort_sorted,
    lemma_stable_sort_source, sort_by_time, stable_sort,
};
use crate::text::{
    chars_of, contains, contains_str, cut, lemma_prefix_len_unique, lines, split_lines,
    split_once, split_whitespace, string_of, tokens, views, CharClass,
};
use crate::time::{parse_time, timestamp_of, Timestamp};
use crate::tokens::TokenMap;
use vstd::prelude::*;
use vstd::slice::slice_subrange;
use vstd::string::StringExecFns;

verus! {

/// One measurement of one train car at one instant. The four measures are
/// kept as the line writes them, each a decimal floating-point literal.
#[derive(Debug)]
pub struct TrainPositionRecord {
    pub time: Timestamp,
    pub number: String,
    pub head: String,
    pub tail: String,
    pub height: String,
    pub pos: String,
}

/// A `TrainPositionRecord` with its texts as sequences of characters.
pub struct TrainRecordView {
    pub time: Timestamp,
    pub number: Seq<char>,
    pub head: Seq<char>,
    pub tail: Seq<char>,
    pub height: Seq<char>,
    pub pos: Seq<char>,
}

impl View for TrainPositionRecord {
    type V = TrainRecordView;

    open spec fn view(&self) -> TrainRecordView {
        TrainRecordView {
            time: self.time,
            number: self.number@,
            head: self.head@,
            tail: self.tail@,
            height: self.height@,
            pos: self.pos@,
        }
    }
}

impl TrainRecordView {
    /// Each of the four measures is a decimal floating-point literal.
    pub open spec fn wf(self) -> bool {
        &&& is_float_literal(self.head)
        &&& is_float_literal(self.tail)
        &&& is_float_literal(self.height)
        &&& is_float_literal(self.pos)
    }
}

/// Whether `line` is taken for a train position line: it holds each of the
/// words `train`, `head`, `tail` and `number` somewhere.
pub open spec fn is_train_line(line: Seq<char>) -> bool {
    &&& contains_str(line, "train"@)
    &&& contains_str(line, "head"@)
    &&& contains_str(line, "tail"@)
    &&& contains_str(line, "number"@)
}

/// Whether `line` is taken for a train position line.
pub fn check_train_line(line: &[char]) -> (b: bool)
    ensures
        b == is_train_line(line@),
{
    contains(line, "train") && contains(line, "head") && contains(line, "tail") && contains(
        line,
        "number",
    )
}

/// The time stamp and the message of `line`: what stands between the `[`
/// that opens the line and the first `]`, and what follows that `]`.
pub open spec fn bracket_split(line: Seq<char>) -> Option<(Seq<char>, Seq<char>)> {
    if line.len() > 0 && line[0] == '[' {
        split_once(line.skip(1), ']')
    } else {
        None
    }
}

/// The time stamp and the message of `line`, where it opens with a
/// bracketed time stamp.
pub fn split_bracket<'a>(line: &'a [char]) -> (r: Option<(&'a [char], &'a [char])>)
    ensures
        match r {
            Some((time, message)) => bracket_split(line@) == Some((time@, message@)),
            None => bracket_split(line@).is_none(),
        },
{
    if line.len() > 0 && line[0] == '[' {
        let rest = slice_subrange(line, 1, line.len());
        assert(rest@ == line@.skip(1));
        cut(rest, ']')
    } else {
        None
    }
}

/// Whether the word `t` names a field of a train position record.
pub open spec fn is_field_token(t: Seq<char>) -> bool {
    ||| contains_str(t, "head"@)
    ||| contains_str(t, "tail"@)
    ||| contains_str(t, "number"@)
    ||| contains_str(t, "height"@)
    ||| contains_str(t, "pos"@)
}

/// The field name and the raw value that the word `t` gives: what stands
/// before its first `:` and what stands after it. A word that names no field
/// or holds no `:` gives nothing.
pub open spec fn key_value(t: Seq<char>) -> Option<(Seq<char>, Seq<char>)> {
    if is_field_token(t) {
        split_once(t, ':')
    } else {
        None
    }
}

/// The field name and the raw value that the word `t` gives, if it gives any.
pub fn split_key_value<'a>(t: &'a [char]) -> (r: Option<(&'a [char], &'a [char])>)
    ensures
        match r {
            Some((key, value)) => key_value(t@) == Some((key@, value@)),
            None => key_value(t@).is_none(),
        },
{
    if contains(t, "head") || contains(t, "tail") || contains(t, "number") || contains(
        t,
        "height",
    ) || contains(t, "pos") {
        cut(t, ':')
    } else {
        None
    }
}

/// The mapping that the words `ts` give, taken in order: a later word with
/// the name of an earlier one takes its place.
pub open spec fn token_map(ts: Seq<Seq<char>>) -> Map<Seq<char>, Seq<char>>
    decreases ts.len(),
{
    if ts.len() == 0 {
        Map::empty()
    } else {
        let before = token_map(ts.drop_last());
        match key_value(ts.last()) {
            Some((key, value)) => before.insert(key, value),
            None => before,
        }
    }
}

/// The fields of a line with time stamp `time` and message `message`: those
/// of the words of the message, and the time stamp under the name `time`.
pub open spec fn train_fields(time: Seq<char>, message: Seq<char>) -> Map<Seq<char>, Seq<char>> {
    token_map(tokens(message)).insert("time"@, time)
}

/// The fields of a line with time stamp `time` and message `message`.
pub fn collect_fields(time: &[char], message: &[char]) -> (fields: TokenMap)
    ensures
        fields.wf(),
        fields@ == train_fields(time@, message@),
{
    let words = split_whitespace(message);
    let mut fields = TokenMap::new();
    let mut i: usize = 0;
    while i < words.len()
        invariant
            i <= words.len(),
            fields.wf(),
            fields@ == token_map(views(words@).take(i as int)),
        decreases words.len() - i,
    {
        assert(views(words@).take(i + 1).drop_last() == views(words@).take(i as int));
        match split_key_value(words[i]) {
            Some((key, value)) => {
                fields.insert(string_of(key), string_of(value));
            },
            None => {},
        }
        i += 1;
    }
    assert(views(words@).take(i as int) == views(words@));
    fields.insert(String::from_str("time"), string_of(time));
    fields
}

/// The record made of the given field values, where `time` is what the time
/// stamp `time_text` was read as. The time stamp must have been read as an
/// instant, and each of the four measures must be a decimal floating-point
/// literal; the first value that is not is reported.
pub open spec fn assembled(
    line: usize,
    time_text: Seq<char>,
    time: Option<Timestamp>,
    number: Seq<char>,
    head: Seq<char>,
    tail: Seq<char>,
    height: Seq<char>,
    pos: Seq<char>,
) -> Result<TrainRecordView, ParseErrorView> {
    if time.is_none() {
        Err(ParseErrorView::InvalidFieldValue { line, field: Field::Time, value: time_text })
    } else if !is_float_literal(head) {
        Err(ParseErrorView::InvalidFieldValue { line, field: Field::Head, value: head })
    } else if !is_float_literal(tail) {
        Err(ParseErrorView::InvalidFieldValue { line, field: Field::Tail, value: tail })
    } else if !is_float_literal(height) {
        Err(ParseErrorView::InvalidFieldValue { line, field: Field::Height, value: height })
    } else if !is_float_literal(pos) {
        Err(ParseErrorView::InvalidFieldValue { line, field: Field::Pos, value: pos })
    } else {
        Ok(TrainRecordView { time: time.unwrap(), number, head, tail, height, pos })
    }
}

/// The measure `value`, where it is a decimal floating-point literal.
fn check_measure(line: usize, field: Field, value: &String) -> (r: Result<String, ParseError>)
    ensures
        match r {
            Ok(v) => is_float_literal(value@) && v@ == value@,
            Err(e) => !is_float_literal(value@) && e@ == (ParseErrorView::InvalidFieldValue {
                line,
                field,
                value: value@,
            }),
        },
{
    let chars = chars_of(value.as_str());
    if float_literal(chars.as_slice()) {
        Ok(value.clone())
    } else {
        Err(ParseError::InvalidFieldValue { line, field, value: value.clone() })
    }
}

/// Makes a record of the given field values, where `time` is what the time
/// stamp `time_text` was read as.
pub fn assemble_train_record(
    line: usize,
    time_text: &String,
    time: Option<Timestamp>,
    number: &String,
    head: &String,
    tail: &String,
    height: &String,
    pos: &String,
) -> (r: Result<TrainPositionRecord, ParseError>)
    ensures
        result_view(r) == assembled(
            line,
            time_text@,
            time,
            number@,
            head@,
            tail@,
            height@,
            pos@,
        ),
        r matches Ok(record) ==> record@.wf(),
{
    let time = match time {
        Some(t) => t,
        None => {
            return Err(
                ParseError::InvalidFieldValue {
                    line,
                    field: Field::Time,
                    value: time_text.clone(),
                },
            );
        },
    };
    let head = match check_measure(line, Field::Head, head) {
        Ok(v) => v,
        Err(e) => {
            return Err(e);
        },
    };
    let tail = match check_measure(line, Field::Tail, tail) {
        Ok(v) => v,
        Err(e) => {
            return Err(e);
        },
    };
    let height = match check_measure(line, Field::Height, height) {
        Ok(v) => v,
        Err(e) => {
            return Err(e);
        },
    };
    let pos = match check_measure(line, Field::Pos, pos) {
        Ok(v) => v,
        Err(e) => {
            return Err(e);
        },
    };
    Ok(TrainPositionRecord { time, number: number.clone(), head, tail, height, pos })
}

/// The field of a train position record that `fields` lacks, the first of
/// them in the order time, number, head, tail, height, pos.
pub open spec fn first_missing(fields: Map<Seq<char>, Seq<char>>) -> Option<Field> {
    if !fields.contains_key("time"@) {
        Some(Field::Time)
    } else if !fields.contains_key("number"@) {
        Some(Field::Number)
    } else if !fields.contains_key("head"@) {
        Some(Field::Head)
    } else if !fields.contains_key("tail"@) {
        Some(Field::Tail)
    } else if !fields.contains_key("height"@) {
        Some(Field::Height)
    } else if !fields.contains_key("pos"@) {
        Some(Field::Pos)
    } else {
        None
    }
}

/// The record that the fields of line `line` make. Every field must be
/// there before any value is looked at.
pub open spec fn train_record_of(line: usize, fields: Map<Seq<char>, Seq<char>>) -> Result<
    TrainRecordView,
    ParseErrorView,
> {
    match first_missing(fields) {
        Some(field) => Err(ParseErrorView::MissingField { line, field }),
        None => assembled(
            line,
            fields["time"@],
            timestamp_of(fields["time"@]),
            fields["number"@],
            fields["head"@],
            fields["tail"@],
            fields["height"@],
            fields["pos"@],
        ),
    }
}

/// The value that `fields` gives under `name`, where it gives one.
fn require<'a>(fields: &'a TokenMap, name: &str, line: usize, field: Field) -> (r: Result<
    &'a String,
    ParseError,
>)
    requires
        fields.wf(),
    ensures
        match r {
            Ok(v) => fields@.contains_key(name@) && fields@[name@] == v@,
            Err(e) => !fields@.contains_key(name@) && e@ == (ParseErrorView::MissingField {
                line,
                field,
            }),
        },
{
    match fields.get(name) {
        Some(v) => Ok(v),
        None => Err(ParseError::MissingField { line, field }),
    }
}

/// Makes a record of the fields of line `line`.
pub fn build_train_record(line: usize, fields: &TokenMap) -> (r: Result<
    TrainPositionRecord,
    ParseError,
>)
    requires
        fields.wf(),
    ensures
        result_view(r) == train_record_of(line, fields@),
        r matches Ok(record) ==> record@.wf(),
{
    let time_text = match require(fields, "time", line, Field::Time) {
        Ok(v) => v,
        Err(e) => {
            return Err(e);
        },
    };
    let number = match require(fields, "number", line, Field::Number) {
        Ok(v) => v,
        Err(e) => {
            return Err(e);
        },
    };
    let head = match require(fields, "head", line, Field::Head) {
        Ok(v) => v,
        Err(e) => {
            return Err(e);
        },
    };
    let tail = match require(fields, "tail", line, Field::Tail) {
        Ok(v) => v,
        Err(e) => {
            return Err(e);
        },
    };
    let height = match require(fields, "height", line, Field::Height) {
        Ok(v) => v,
        Err(e) => {
            return Err(e);
        },
    };
    let pos = match require(fields, "pos", line, Field::Pos) {
        Ok(v) => v,
        Err(e) => {
            return Err(e);
        },
    };
    let time = parse_time(time_text.as_str());
    assemble_train_record(line, time_text, time, number, head, tail, height, pos)
}

/// What line number `line` of a train log gives: nothing where it is not
/// taken for a train position line, and else its record, or the reason why
/// it has none.
pub open spec fn train_line(line: usize, text: Seq<char>) -> Result<
    Option<TrainRecordView>,
    ParseErrorView,
> {
    if !is_train_line(text) {
        Ok(None)
    } else {
        match bracket_split(text) {
            None => Err(ParseErrorView::MalformedLine { line }),
            Some((time, message)) => match train_record_of(line, train_fields(time, message)) {
                Ok(record) => Ok(Some(record)),
                Err(e) => Err(e),
            },
        }
    }
}

/// Reads line number `line` of a train log.
pub fn parse_train_line(line: usize, text: &[char]) -> (r: Result<
    Option<TrainPositionRecord>,
    ParseError,
>)
    ensures
        outcome_view(r) == train_line(line, text@),
        r matches Ok(Some(record)) ==> record@.wf(),
{
    if !check_train_line(text) {
        return Ok(None);
    }
    match split_bracket(text) {
        None => Err(ParseError::MalformedLine { line }),
        Some((time, message)) => {
            let fields = collect_fields(time, message);
            match build_train_record(line, &fields) {
                Ok(record) => Ok(Some(record)),
                Err(e) => Err(e),
            }
        },
    }
}

/// The train position records of a log file, by train number. The records
/// of a train are sorted by time.
pub type TrainLog = Grouped<TrainPositionRecord>;

/// What line number `line` of a train log gives, a record standing under
/// its train number.
pub open spec fn train_outcome(line: usize, text: Seq<char>) -> Outcome<TrainRecordView> {
    match train_line(line, text) {
        Ok(Some(record)) => Ok(Some((record.number, record))),
        Ok(None) => Ok(None),
        Err(e) => Err(e),
    }
}

/// What each of the lines `ls` of a train log gives.
pub open spec fn train_outcomes(ls: Seq<Seq<char>>) -> Seq<Outcome<TrainRecordView>> {
    Seq::new(ls.len(), |i: int| train_outcome(line_number(i), ls[i]))
}

/// The mapping from each train number of `pairs` to the records of that
/// train, sorted by time.
pub open spec fn train_map(pairs: Seq<(Seq<char>, TrainRecordView)>) -> Map<
    Seq<char>,
    Seq<TrainRecordView>,
> {
    Map::new(
        |number: Seq<char>| has_key(pairs, number),
        |number: Seq<char>| stable_sort(items_of(pairs, number)),
    )
}

/// What a train log with the text `text` gives: the failure of the first
/// line that has one, and else the records of all lines by train number,
/// those of each train sorted by time.
pub open spec fn train_log(text: Seq<char>) -> Result<
    Map<Seq<char>, Seq<TrainRecordView>>,
    ParseErrorView,
> {
    match collected(train_outcomes(lines(text))) {
        Ok(pairs) => Ok(train_map(pairs)),
        Err(e) => Err(e),
    }
}

/// Reads the lines of a train log into records, each under its train number.
fn read_train_lines(ls: &Vec<&[char]>) -> (r: Result<Vec<Keyed<TrainPositionRecord>>, ParseError>)
    ensures
        match r {
            Ok(entries) => collected(train_outcomes(views(ls@))) == Ok::<
                Seq<(Seq<char>, TrainRecordView)>,
                ParseErrorView,
            >(views(entries@)),
            Err(e) => collected(train_outcomes(views(ls@))) == Err::<
                Seq<(Seq<char>, TrainRecordView)>,
                ParseErrorView,
            >(e@),
        },
{
    let ghost outcomes = train_outcomes(views(ls@));
    let mut entries: Vec<Keyed<TrainPositionRecord>> = Vec::new();
    let mut i: usize = 0;
    assert(outcomes.take(0) == Seq::<Outcome<TrainRecordView>>::empty());
    assert(views(entries@) == Seq::<(Seq<char>, TrainRecordView)>::empty());
    while i < ls.len()
        invariant
            i <= ls.len(),
            outcomes == train_outcomes(views(ls@)),
            forall|j: int| 0 <= j < i ==> (#[trigger] outcomes[j]) is Ok,
            views(entries@) == gathered(outcomes.take(i as int)),
        decreases ls.len() - i,
    {
        assert(views(ls@)[i as int] == ls@[i as int]@);
        assert(outcomes.take(i + 1).drop_last() == outcomes.take(i as int));
        assert(outcomes.take(i + 1).last() == outcomes[i as int]);
        let ghost before = views(entries@);
        match parse_train_line(i + 1, ls[i]) {
            Err(e) => {
                proof {
                    lemma_collected_failure(outcomes, i as int);
                }
                return Err(e);
            },
            Ok(None) => {},
            Ok(Some(record)) => {
                entries.push(Keyed { key: record.number.clone(), item: record });
                assert(views(entries@) == before.push((record@.number, record@)));
            },
        }
        i += 1;
    }
    proof {
        assert(outcomes.take(i as int) == outcomes);
        lemma_collected_items(outcomes);
    }
    Ok(entries)
}

/// Sorts the records of each group by time.
fn sort_groups(groups: Vec<Group<TrainPositionRecord>>) -> (sorted: Vec<Group<TrainPositionRecord>>)
    ensures
        sorted.len() == groups.len(),
        forall|g: int|
            0 <= g < groups.len() ==> (#[trigger] sorted[g]).key@ == groups[g].key@ && views(
                sorted[g].items@,
            ) == stable_sort(views(groups[g].items@)),
{
    let mut sorted: Vec<Group<TrainPositionRecord>> = Vec::new();
    for group in iter: groups
        invariant
            iter.seq() == groups@,
            sorted.len() == iter.index(),
            forall|g: int|
                0 <= g < sorted.len() ==> (#[trigger] sorted[g]).key@ == groups[g].key@ && views(
                    sorted[g].items@,
                ) == stable_sort(views(groups[g].items@)),
    {
        let Group { key, items } = group;
        sorted.push(Group { key, items: sort_by_time(items) });
    }
    sorted
}

/// Reads a train log: the records of all its train position lines, by train
/// number, those of each train sorted by time. The first line that is
/// taken for a train position line and gives no record makes the whole
/// parse fail.
pub fn parse_train_log(text: &str) -> (r: Result<TrainLog, ParseError>)
    ensures
        result_view(r) == train_log(text@),
        r matches Ok(log) ==> log.wf() && keys_in_order(
            views(log.groups@),
            collected(train_outcomes(lines(text@)))->Ok_0,
        ) && forall|number: Seq<char>|
            log@.contains_key(number) ==> is_sorted(#[trigger] log@[number]),
        r matches Ok(log) ==> forall|number: Seq<char>, k: int|
            log@.contains_key(number) && 0 <= k < log@[number].len() ==> (#[trigger] log@[number][k]).wf()
                && log@[number][k].number == number,
{
    let chars = chars_of(text);
    let ls = split_lines(chars.as_slice());
    let entries = match read_train_lines(&ls) {
        Ok(entries) => entries,
        Err(e) => {
            return Err(e);
        },
    };
    let ghost pairs = views(entries@);
    let groups = group_by_key(entries);
    let ghost unsorted = views(groups@);
    let sorted = sort_groups(groups);
    let log = Grouped { groups: sorted };
    proof {
        let after = views(log.groups@);
        assert(after.len() == unsorted.len());
        assert forall|g: int| 0 <= g < after.len() implies (#[trigger] after[g]).0
            == unsorted[g].0 && after[g].1 == stable_sort(unsorted[g].1) by {}
        assert forall|g: int, h: int| 0 <= g < h < after.len() implies comes_before(
            pairs,
            (#[trigger] after[g]).0,
            (#[trigger] after[h]).0,
        ) by {
            assert(comes_before(pairs, unsorted[g].0, unsorted[h].0));
        }
        lemma_grouping_map(unsorted, pairs);
        assert forall|number: Seq<char>| has_group(after, number) <==> has_group(
            unsorted,
            number,
        ) by {
            if has_group(after, number) {
                let g = group_at(after, number);
                assert(unsorted[g].0 == number);
            }
            if has_group(unsorted, number) {
                let g = group_at(unsorted, number);
                assert(after[g].0 == number);
            }
        }
        assert forall|number: Seq<char>| has_group(after, number) implies after[group_at(
            after,
            number,
        )].1 == stable_sort(items_of(pairs, number)) by {
            let g = group_at(after, number);
            assert(unsorted[g].0 == number);
            assert(unsorted[g].1 == items_of(pairs, number));
        }
        assert(forall|number: Seq<char>|
            has_group(unsorted, number) <==> group_map(unsorted).contains_key(number));
        assert(forall|number: Seq<char>|
            has_key(pairs, number) <==> items_by_key(pairs).contains_key(number));
        assert(log@ =~= train_map(pairs));
        assert forall|number: Seq<char>| log@.contains_key(number) implies is_sorted(
            #[trigger] log@[number],
        ) by {
            lemma_stable_sort_sorted(items_of(pairs, number));
        }
        assert forall|number: Seq<char>, k: int|
            log@.contains_key(number) && 0 <= k < log@[number].len() implies (
        #[trigger] log@[number][k]).wf() && log@[number][k].number == number by {
            lemma_records_match_lines(text@, number, k);
        }
    }
    Ok(log)
}

/// Whether `record` is what `line` says: the line is taken for a train
/// position line and opens with a bracketed time stamp, which reads as the
/// instant of the record, and each other field of the record is the raw
/// value that the line gives under the name of that field.
pub open spec fn says(line: Seq<char>, record: TrainRecordView) -> bool {
    &&& is_train_line(line)
    &&& bracket_split(line) matches Some((time, message))
    &&& {
        let fields = line_fields(line);
        &&& fields["time"@] == time
        &&& timestamp_of(time) == Some(record.time)
        &&& fields.contains_key("number"@) && fields["number"@] == record.number
        &&& fields.contains_key("head"@) && fields["head"@] == record.head
        &&& fields.contains_key("tail"@) && fields["tail"@] == record.tail
        &&& fields.contains_key("height"@) && fields["height"@] == record.height
        &&& fields.contains_key("pos"@) && fields["pos"@] == record.pos
    }
}

/// Every record of a train log that parses stands under its own train
/// number, holds four decimal floating-point literals, and is what one of
/// the lines of the file says.
pub proof fn lemma_records_match_lines(text: Seq<char>, number: Seq<char>, k: int) -> (i: int)
    requires
        train_log(text) is Ok,
        train_log(text)->Ok_0.contains_key(number),
        0 <= k < train_log(text)->Ok_0[number].len(),
    ensures
        0 <= i < lines(text).len(),
        says(lines(text)[i], train_log(text)->Ok_0[number][k]),
        train_log(text)->Ok_0[number][k].number == number,
        train_log(text)->Ok_0[number][k].wf(),
{
    let ls = lines(text);
    let outcomes = train_outcomes(ls);
    let pairs = collected(outcomes)->Ok_0;
    assert(pairs == gathered(outcomes));
    let unsorted = items_of(pairs, number);
    let j = lemma_stable_sort_source(unsorted, k);
    let p = lemma_items_of_source(pairs, number, j);
    let i = lemma_gathered_source(outcomes, p);
    i
}

/// The records of each train of a train log that parses are sorted by
/// time, and records of the same instant stand in the order of their
/// lines.
pub proof fn lemma_train_log_sorted(text: Seq<char>, number: Seq<char>)
    requires
        train_log(text) is Ok,
        train_log(text)->Ok_0.contains_key(number),
    ensures
        is_sorted(train_log(text)->Ok_0[number]),
        forall|t: Timestamp|
            at_time(train_log(text)->Ok_0[number], t) == at_time(
                items_of(collected(train_outcomes(lines(text)))->Ok_0, number),
                t,
            ),
{
    let pairs = collected(train_outcomes(lines(text)))->Ok_0;
    lemma_stable_sort_sorted(items_of(pairs, number));
    assert forall|t: Timestamp|
        at_time(train_log(text)->Ok_0[number], t) == at_time(items_of(pairs, number), t) by {
        lemma_stable_sort_keeps(items_of(pairs, number), t);
    }
}

/// A line that is taken for a train position line and does not open with a
/// bracketed time stamp makes the parse fail; where no line before it
/// fails, the failure is that this line is malformed.
pub proof fn lemma_malformed_line_fails(text: Seq<char>, i: int)
    requires
        0 <= i < lines(text).len(),
        is_train_line(lines(text)[i]),
        bracket_split(lines(text)[i]).is_none(),
    ensures
        train_log(text) is Err,
        (forall|j: int| 0 <= j < i ==> train_line(line_number(j), #[trigger] lines(text)[j]) is Ok)
            ==> train_log(text) == Err::<Map<Seq<char>, Seq<TrainRecordView>>, ParseErrorView>(
            ParseErrorView::MalformedLine { line: line_number(i) },
        ),
{
    let ls = lines(text);
    let outcomes = train_outcomes(ls);
    lemma_collected_fails(outcomes, i);
    if forall|j: int| 0 <= j < i ==> train_line(line_number(j), #[trigger] ls[j]) is Ok {
        assert forall|j: int| 0 <= j < i implies (#[trigger] outcomes[j]) is Ok by {
            assert(train_line(line_number(j), ls[j]) is Ok);
        }
        lemma_collected_failure(outcomes, i);
    }
}

/// A line that holds no `]` does not open with a bracketed time stamp.
pub proof fn lemma_unclosed_bracket(line: Seq<char>)
    requires
        forall|k: int| 0 <= k < line.len() ==> line[k] != ']',
    ensures
        bracket_split(line).is_none(),
{
    if line.len() > 0 {
        let rest = line.skip(1);
        assert forall|k: int| 0 <= k < rest.len() implies CharClass::Except(']').has(
            #[trigger] rest[k],
        ) by {
            assert(rest[k] == line[k + 1]);
        }
        lemma_prefix_len_unique(rest, CharClass::Except(']'), rest.len() as int);
    }
}

/// The fields of `line`, where it opens with a bracketed time stamp.
pub open spec fn line_fields(line: Seq<char>) -> Map<Seq<char>, Seq<char>> {
    match bracket_split(line) {
        Some((time, message)) => train_fields(time, message),
        None => Map::empty(),
    }
}

/// A line that is taken for a train position line, opens with a bracketed
/// time stamp and gives no value for the train number, the head, the tail,
/// the height or the position makes the parse fail; where no line before
/// it fails, the failure is that this line lacks a field, the first it
/// lacks.
pub proof fn lemma_missing_field_fails(text: Seq<char>, i: int)
    requires
        0 <= i < lines(text).len(),
        is_train_line(lines(text)[i]),
        bracket_split(lines(text)[i]).is_some(),
        ({
            let fields = line_fields(lines(text)[i]);
            ||| !fields.contains_key("number"@)
            ||| !fields.contains_key("head"@)
            ||| !fields.contains_key("tail"@)
            ||| !fields.contains_key("height"@)
            ||| !fields.contains_key("pos"@)
        }),
    ensures
        train_log(text) is Err,
        first_missing(line_fields(lines(text)[i])).is_some(),
        first_missing(line_fields(lines(text)[i])) != Some(Field::Time),
        (forall|j: int| 0 <= j < i ==> train_line(line_number(j), #[trigger] lines(text)[j]) is Ok)
            ==> train_log(text) == Err::<Map<Seq<char>, Seq<TrainRecordView>>, ParseErrorView>(
            ParseErrorView::MissingField {
                line: line_number(i),
                field: first_missing(line_fields(lines(text)[i])).unwrap(),
            },
        ),
{
    let ls = lines(text);
    let outcomes = train_outcomes(ls);
    lemma_collected_fails(outcomes, i);
    if forall|j: int| 0 <= j < i ==> train_line(line_number(j), #[trigger] ls[j]) is Ok {
        assert forall|j: int| 0 <= j < i implies (#[trigger] outcomes[j]) is Ok by {
            assert(train_line(line_number(j), ls[j]) is Ok);
        }
        lemma_collected_failure(outcomes, i);
    }
}

} // verus!
