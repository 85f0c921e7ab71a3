//! The text of a train position line, and that a line written from a record
//! reads back as that record.

use crate::error::ParseErrorView;
use crate::number::lemma_float_literal_is_word;
use crate::text::{
    contains_str, is_whitespace, is_word, lemma_first_token, lemma_prefix_len_unique, occurs_at,
    tokens, CharClass,
};
use crate::time::timestamp_of;
use crate::train::{
    bracket_split, is_field_token, is_train_line, key_value, token_map, train_fields, train_line,
    train_record_of, TrainRecordView,
};
use vstd::prelude::*;

verus! {

/// A field as a line writes it: the name, a colon, and the value.
pub open spec fn token_text(name: Seq<char>, value: Seq<char>) -> Seq<char> {
    name + ":"@ + value
}

/// A blank and the word `word`, before `rest`.
pub open spec fn after_word(word: Seq<char>, rest: Seq<char>) -> Seq<char> {
    " "@ + word + rest
}

/// The message that writes `record`: the word `train` and the five fields
/// of the record other than the time, each after a blank.
pub open spec fn message_text(record: TrainRecordView) -> Seq<char> {
    after_word(
        "train"@,
        after_word(
            token_text("number"@, record.number),
            after_word(
                token_text("head"@, record.head),
                after_word(
                    token_text("tail"@, record.tail),
                    after_word(
                        token_text("height"@, record.height),
                        after_word(token_text("pos"@, record.pos), Seq::empty()),
                    ),
                ),
            ),
        ),
    )
}

/// The line that writes `record` under the time stamp `time`: the time
/// stamp in brackets, and the message.
pub open spec fn train_line_text(time: Seq<char>, record: TrainRecordView) -> Seq<char> {
    "["@ + time + "]"@ + message_text(record)
}

/// The characters of the words that a line is written with.
proof fn lemma_literals()
    ensures
        " "@ == seq![' '],
        ":"@ == seq![':'],
        "["@ == seq!['['],
        "]"@ == seq![']'],
        "time"@ == seq!['t', 'i', 'm', 'e'],
        "train"@ == seq!['t', 'r', 'a', 'i', 'n'],
        "number"@ == seq!['n', 'u', 'm', 'b', 'e', 'r'],
        "head"@ == seq!['h', 'e', 'a', 'd'],
        "tail"@ == seq!['t', 'a', 'i', 'l'],
        "height"@ == seq!['h', 'e', 'i', 'g', 'h', 't'],
        "pos"@ == seq!['p', 'o', 's'],
{
    reveal_strlit(" ");
    reveal_strlit(":");
    reveal_strlit("[");
    reveal_strlit("]");
    reveal_strlit("time");
    reveal_strlit("train");
    reveal_strlit("number");
    reveal_strlit("head");
    reveal_strlit("tail");
    reveal_strlit("height");
    reveal_strlit("pos");
    assert(" "@ =~= seq![' ']);
    assert(":"@ =~= seq![':']);
    assert("["@ =~= seq!['[']);
    assert("]"@ =~= seq![']']);
    assert("time"@ =~= seq!['t', 'i', 'm', 'e']);
    assert("train"@ =~= seq!['t', 'r', 'a', 'i', 'n']);
    assert("number"@ =~= seq!['n', 'u', 'm', 'b', 'e', 'r']);
    assert("head"@ =~= seq!['h', 'e', 'a', 'd']);
    assert("tail"@ =~= seq!['t', 'a', 'i', 'l']);
    assert("height"@ =~= seq!['h', 'e', 'i', 'g', 'h', 't']);
    assert("pos"@ =~= seq!['p', 'o', 's']);
}

/// Whether `name` is one of the five field names that a token gives.
spec fn is_field_name(name: Seq<char>) -> bool {
    ||| name == "number"@
    ||| name == "head"@
    ||| name == "tail"@
    ||| name == "height"@
    ||| name == "pos"@
}

/// A field name is a word and holds no colon.
proof fn lemma_field_name(name: Seq<char>)
    requires
        is_field_name(name),
    ensures
        name.len() > 0,
        is_word(name),
        forall|i: int| 0 <= i < name.len() ==> name[i] != ':',
{
    lemma_literals();
}

/// A field written as a token gives its name and its value.
proof fn lemma_token_gives_field(name: Seq<char>, value: Seq<char>)
    requires
        is_field_name(name),
        is_word(value),
    ensures
        token_text(name, value).len() > 0,
        is_word(token_text(name, value)),
        key_value(token_text(name, value)) == Some((name, value)),
{
    lemma_literals();
    lemma_field_name(name);
    let t = token_text(name, value);
    assert forall|i: int| 0 <= i < t.len() implies !is_whitespace(#[trigger] t[i]) by {
        if i < name.len() {
            assert(t[i] == name[i]);
        } else if i > name.len() {
            assert(t[i] == value[i - name.len() - 1]);
        }
    }
    assert(t.subrange(0, name.len() as int) == name);
    assert(occurs_at(t, name, 0));
    assert(contains_str(t, name));
    assert(is_field_token(t));
    assert forall|j: int| 0 <= j < name.len() implies CharClass::Except(':').has(
        #[trigger] t[j],
    ) by {
        assert(t[j] == name[j]);
    }
    assert(t[name.len() as int] == ':');
    lemma_prefix_len_unique(t, CharClass::Except(':'), name.len() as int);
    assert(t.take(name.len() as int) == name);
    assert(t.skip(name.len() + 1int) == value);
}

/// The first word of a text that opens with a blank and a word.
proof fn lemma_tokens_after_word(word: Seq<char>, rest: Seq<char>)
    requires
        word.len() > 0,
        is_word(word),
        rest.len() == 0 || is_whitespace(rest[0]),
    ensures
        tokens(after_word(word, rest)) == seq![word] + tokens(rest),
        after_word(word, rest).len() > 0,
        is_whitespace(after_word(word, rest)[0]),
{
    lemma_literals();
    let s = after_word(word, rest);
    assert forall|j: int| 1 <= j < 1 + word.len() implies !is_whitespace(#[trigger] s[j]) by {
        assert(s[j] == word[j - 1]);
    }
    if rest.len() > 0 {
        assert(s[1int + word.len()] == rest[0]);
    }
    lemma_first_token(s, 1, word.len() as int);
    assert(s.subrange(1, 1int + word.len()) == word);
    assert(s.skip(1int + word.len()) == rest);
}

/// A text that holds `part` holds it also with something before it and
/// something after it.
proof fn lemma_contains_within(before: Seq<char>, text: Seq<char>, after: Seq<char>, part: Seq<char>)
    requires
        contains_str(text, part),
    ensures
        contains_str(before + text + after, part),
{
    let i = choose|i: int| occurs_at(text, part, i);
    let whole = before + text + after;
    assert(whole.subrange(before.len() + i, before.len() + i + part.len()) == text.subrange(
        i,
        i + part.len(),
    ));
    assert(occurs_at(whole, part, before.len() + i));
}

/// A text holds itself.
proof fn lemma_contains_self(part: Seq<char>)
    ensures
        contains_str(part, part),
{
    assert(part.subrange(0, part.len() as int) == part);
    assert(occurs_at(part, part, 0));
}

/// Whether `w` is a word: it is not empty and holds no white space.
#[verifier::opaque]
spec fn is_token(w: Seq<char>) -> bool {
    w.len() > 0 && is_word(w)
}

/// The words of `s`.
#[verifier::opaque]
spec fn words_of(s: Seq<char>) -> Seq<Seq<char>> {
    tokens(s)
}

/// Whether `s` is empty or opens with white space.
#[verifier::opaque]
spec fn is_tail(s: Seq<char>) -> bool {
    s.len() == 0 || is_whitespace(s[0])
}

/// The words of a text that opens with a blank and a word.
proof fn lemma_words_after_word(word: Seq<char>, rest: Seq<char>)
    requires
        is_token(word),
        is_tail(rest),
    ensures
        words_of(after_word(word, rest)) == seq![word] + words_of(rest),
        is_tail(after_word(word, rest)),
{
    reveal(is_token);
    reveal(words_of);
    reveal(is_tail);
    lemma_tokens_after_word(word, rest);
}

/// The words of a text made of six words, each after a blank.
proof fn lemma_six_words(
    w0: Seq<char>,
    w1: Seq<char>,
    w2: Seq<char>,
    w3: Seq<char>,
    w4: Seq<char>,
    w5: Seq<char>,
)
    requires
        is_token(w0),
        is_token(w1),
        is_token(w2),
        is_token(w3),
        is_token(w4),
        is_token(w5),
    ensures
        tokens(
            after_word(
                w0,
                after_word(
                    w1,
                    after_word(w2, after_word(w3, after_word(w4, after_word(w5, Seq::empty())))),
                ),
            ),
        ) == seq![w0, w1, w2, w3, w4, w5],
{
    let none = Seq::<char>::empty();
    let r5 = after_word(w5, none);
    let r4 = after_word(w4, r5);
    let r3 = after_word(w3, r4);
    let r2 = after_word(w2, r3);
    let r1 = after_word(w1, r2);
    let r0 = after_word(w0, r1);
    assert(words_of(none) == Seq::<Seq<char>>::empty() && is_tail(none)) by {
        reveal(words_of);
        reveal(is_tail);
    }
    lemma_words_after_word(w5, none);
    assert(words_of(r5) =~= seq![w5]);
    lemma_words_after_word(w4, r5);
    assert(words_of(r4) =~= seq![w4, w5]);
    lemma_words_after_word(w3, r4);
    assert(words_of(r3) =~= seq![w3, w4, w5]);
    lemma_words_after_word(w2, r3);
    assert(words_of(r2) =~= seq![w2, w3, w4, w5]);
    lemma_words_after_word(w1, r2);
    assert(words_of(r1) =~= seq![w1, w2, w3, w4, w5]);
    lemma_words_after_word(w0, r1);
    assert(words_of(r0) =~= seq![w0, w1, w2, w3, w4, w5]);
    assert(words_of(r0) == tokens(r0)) by {
        reveal(words_of);
    }
}

/// The mapping that a word which gives no field and five words which give
/// one each make.
proof fn lemma_six_tokens_map(
    w0: Seq<char>,
    w1: Seq<char>,
    w2: Seq<char>,
    w3: Seq<char>,
    w4: Seq<char>,
    w5: Seq<char>,
)
    requires
        key_value(w0).is_none(),
        key_value(w1).is_some(),
        key_value(w2).is_some(),
        key_value(w3).is_some(),
        key_value(w4).is_some(),
        key_value(w5).is_some(),
    ensures
        token_map(seq![w0, w1, w2, w3, w4, w5]) == added(
            added(
                added(added(added(Map::empty(), key_value(w1)), key_value(w2)), key_value(w3)),
                key_value(w4),
            ),
            key_value(w5),
        ),
{
    let t0 = Seq::<Seq<char>>::empty();
    let t1 = seq![w0];
    let t2 = seq![w0, w1];
    let t3 = seq![w0, w1, w2];
    let t4 = seq![w0, w1, w2, w3];
    let t5 = seq![w0, w1, w2, w3, w4];
    let t6 = seq![w0, w1, w2, w3, w4, w5];
    assert(t1.drop_last() =~= t0);
    assert(t2.drop_last() =~= t1);
    assert(t3.drop_last() =~= t2);
    assert(t4.drop_last() =~= t3);
    assert(t5.drop_last() =~= t4);
    assert(t6.drop_last() =~= t5);
    let m0 = Map::<Seq<char>, Seq<char>>::empty();
    assert(token_map(t0) == m0);
    assert(token_map(t1) == m0);
    assert(token_map(t2) == added(m0, key_value(w1)));
    assert(token_map(t3) == added(token_map(t2), key_value(w2)));
    assert(token_map(t4) == added(token_map(t3), key_value(w3)));
    assert(token_map(t5) == added(token_map(t4), key_value(w4)));
    assert(token_map(t6) == added(token_map(t5), key_value(w5)));
}

/// `fields` with the field that `field` holds.
spec fn added(fields: Map<Seq<char>, Seq<char>>, field: Option<(Seq<char>, Seq<char>)>) -> Map<
    Seq<char>,
    Seq<char>,
> {
    match field {
        Some((key, value)) => fields.insert(key, value),
        None => fields,
    }
}

/// The word `train` is a word and gives no field.
proof fn lemma_train_gives_no_field()
    ensures
        "train"@.len() > 0,
        is_word("train"@),
        key_value("train"@).is_none(),
{
    lemma_literals();
    assert forall|j: int| 0 <= j < "train"@.len() implies CharClass::Except(':').has(
        #[trigger] "train"@[j],
    ) by {}
    lemma_prefix_len_unique("train"@, CharClass::Except(':'), "train"@.len() as int);
}

/// No two of the six field names are the same.
proof fn lemma_names_differ()
    ensures
        "time"@ != "number"@,
        "time"@ != "head"@,
        "time"@ != "tail"@,
        "time"@ != "height"@,
        "time"@ != "pos"@,
        "number"@ != "head"@,
        "number"@ != "tail"@,
        "number"@ != "height"@,
        "number"@ != "pos"@,
        "head"@ != "tail"@,
        "head"@ != "height"@,
        "head"@ != "pos"@,
        "tail"@ != "height"@,
        "tail"@ != "pos"@,
        "height"@ != "pos"@,
{
    lemma_literals();
    assert("time"@.len() == 4 && "head"@.len() == 4 && "tail"@.len() == 4);
    assert("number"@.len() == 6 && "height"@.len() == 6 && "pos"@.len() == 3);
    assert("time"@[1] != "tail"@[1]);
    assert("time"@[0] != "head"@[0]);
    assert("head"@[0] != "tail"@[0]);
    assert("number"@[0] != "height"@[0]);
}

/// The fields that the message that writes `record` gives.
proof fn lemma_message_fields(record: TrainRecordView)
    requires
        is_word(record.number),
        record.head.len() > 0 && is_word(record.head),
        record.tail.len() > 0 && is_word(record.tail),
        record.height.len() > 0 && is_word(record.height),
        record.pos.len() > 0 && is_word(record.pos),
    ensures
        token_map(tokens(message_text(record))) == Map::<Seq<char>, Seq<char>>::empty().insert(
            "number"@,
            record.number,
        ).insert("head"@, record.head).insert("tail"@, record.tail).insert(
            "height"@,
            record.height,
        ).insert("pos"@, record.pos),
{
    let number = token_text("number"@, record.number);
    let head = token_text("head"@, record.head);
    let tail = token_text("tail"@, record.tail);
    let height = token_text("height"@, record.height);
    let pos = token_text("pos"@, record.pos);
    lemma_train_gives_no_field();
    lemma_token_gives_field("number"@, record.number);
    lemma_token_gives_field("head"@, record.head);
    lemma_token_gives_field("tail"@, record.tail);
    lemma_token_gives_field("height"@, record.height);
    lemma_token_gives_field("pos"@, record.pos);
    assert(is_token("train"@) && is_token(number) && is_token(head) && is_token(tail) && is_token(
        height,
    ) && is_token(pos)) by {
        reveal(is_token);
    }
    lemma_six_words("train"@, number, head, tail, height, pos);
    lemma_six_tokens_map("train"@, number, head, tail, height, pos);
}

/// The line that writes `record` is taken for a train position line.
proof fn lemma_written_line_is_train_line(time: Seq<char>, record: TrainRecordView)
    ensures
        is_train_line(train_line_text(time, record)),
{
    let open = "["@ + time + "]"@;
    let r5 = after_word(token_text("pos"@, record.pos), Seq::empty());
    let r4 = after_word(token_text("height"@, record.height), r5);
    let r3 = after_word(token_text("tail"@, record.tail), r4);
    let r2 = after_word(token_text("head"@, record.head), r3);
    let r1 = after_word(token_text("number"@, record.number), r2);
    let r0 = after_word("train"@, r1);
    let none = Seq::<char>::empty();
    // each word stands in its token
    lemma_contains_self("train"@);
    lemma_contains_self("number"@);
    lemma_contains_self("head"@);
    lemma_contains_self("tail"@);
    lemma_contains_within(none, "number"@, ":"@ + record.number, "number"@);
    assert(none + "number"@ + (":"@ + record.number) == token_text("number"@, record.number));
    lemma_contains_within(none, "head"@, ":"@ + record.head, "head"@);
    assert(none + "head"@ + (":"@ + record.head) == token_text("head"@, record.head));
    lemma_contains_within(none, "tail"@, ":"@ + record.tail, "tail"@);
    assert(none + "tail"@ + (":"@ + record.tail) == token_text("tail"@, record.tail));
    // and each token in what follows it in the message
    lemma_contains_within(" "@, token_text("tail"@, record.tail), r4, "tail"@);
    lemma_contains_within(" "@ + token_text("head"@, record.head), r3, none, "tail"@);
    assert(" "@ + token_text("head"@, record.head) + r3 + none == r2);
    lemma_contains_within(" "@, token_text("head"@, record.head), r3, "head"@);
    lemma_contains_within(" "@ + token_text("number"@, record.number), r2, none, "tail"@);
    lemma_contains_within(" "@ + token_text("number"@, record.number), r2, none, "head"@);
    assert(" "@ + token_text("number"@, record.number) + r2 + none == r1);
    lemma_contains_within(" "@, token_text("number"@, record.number), r2, "number"@);
    lemma_contains_within(" "@ + "train"@, r1, none, "tail"@);
    lemma_contains_within(" "@ + "train"@, r1, none, "head"@);
    lemma_contains_within(" "@ + "train"@, r1, none, "number"@);
    assert(" "@ + "train"@ + r1 + none == r0);
    lemma_contains_within(" "@, "train"@, r1, "train"@);
    lemma_contains_within(open, r0, none, "tail"@);
    lemma_contains_within(open, r0, none, "head"@);
    lemma_contains_within(open, r0, none, "number"@);
    lemma_contains_within(open, r0, none, "train"@);
    assert(open + r0 + none == train_line_text(time, record));
}

/// The line that writes `record` opens with its time stamp in brackets, and
/// the message follows.
proof fn lemma_written_line_splits(time: Seq<char>, record: TrainRecordView)
    requires
        forall|i: int| 0 <= i < time.len() ==> time[i] != ']',
    ensures
        bracket_split(train_line_text(time, record)) == Some((time, message_text(record))),
{
    lemma_literals();
    let line = train_line_text(time, record);
    let rest = line.skip(1);
    assert(line[0] == '[');
    assert forall|j: int| 0 <= j < time.len() implies CharClass::Except(']').has(
        #[trigger] rest[j],
    ) by {
        assert(rest[j] == time[j]);
    }
    assert(rest[time.len() as int] == ']');
    lemma_prefix_len_unique(rest, CharClass::Except(']'), time.len() as int);
    assert(rest.take(time.len() as int) == time);
    assert(rest.skip(time.len() + 1int) == message_text(record));
}

/// A line written from a record reads back as that record: where the time
/// stamp holds no `]` and reads as the instant of the record, the train
/// number holds no white space, and the four measures are decimal
/// floating-point literals, the line that writes the record gives the
/// record.
pub proof fn lemma_written_line_reads_back(line: usize, time: Seq<char>, record: TrainRecordView)
    requires
        forall|i: int| 0 <= i < time.len() ==> time[i] != ']',
        timestamp_of(time) == Some(record.time),
        is_word(record.number),
        record.wf(),
    ensures
        train_line(line, train_line_text(time, record)) == Ok::<
            Option<TrainRecordView>,
            ParseErrorView,
        >(Some(record)),
{
    lemma_written_line_is_train_line(time, record);
    lemma_written_line_splits(time, record);
    lemma_float_literal_is_word(record.head);
    lemma_float_literal_is_word(record.tail);
    lemma_float_literal_is_word(record.height);
    lemma_float_literal_is_word(record.pos);
    lemma_message_fields(record);
    lemma_names_differ();
    lemma_record_of_fields(line, time, record, train_fields(time, message_text(record)));
}

/// The record that its own six fields make.
proof fn lemma_record_of_fields(
    line: usize,
    time: Seq<char>,
    record: TrainRecordView,
    fields: Map<Seq<char>, Seq<char>>,
)
    requires
        timestamp_of(time) == Some(record.time),
        record.wf(),
        fields.contains_key("time"@) && fields["time"@] == time,
        fields.contains_key("number"@) && fields["number"@] == record.number,
        fields.contains_key("head"@) && fields["head"@] == record.head,
        fields.contains_key("tail"@) && fields["tail"@] == record.tail,
        fields.contains_key("height"@) && fields["height"@] == record.height,
        fields.contains_key("pos"@) && fields["pos"@] == record.pos,
    ensures
        train_record_of(line, fields) == Ok::<TrainRecordView, ParseErrorView>(record),
{
}

} // verus!
