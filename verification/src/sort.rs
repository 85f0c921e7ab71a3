//! Sorting of train position records by time. Records of the same instant
//! keep the order in which they were met.

use crate::text::views;
use crate::time::Timestamp;
use crate::train::{TrainPositionRecord, TrainRecordView};
use std::collections::VecDeque;
use vstd::prelude::*;

verus! {

/// Whether no record of `s` stands before one of an earlier instant.
pub open spec fn is_sorted(s: Seq<TrainRecordView>) -> bool {
    forall|i: int, j: int| 0 <= i <= j < s.len() ==> s[i].time.at_or_before(s[j].time)
}

/// Where a record of instant `t` goes into `s`: the index directly after the
/// last record of `s` that is at or before `t`, or 0 where there is none.
pub open spec fn insertion_point(s: Seq<TrainRecordView>, t: Timestamp) -> int
    decreases s.len(),
{
    if s.len() > 0 && !s.last().time.at_or_before(t) {
        insertion_point(s.drop_last(), t)
    } else {
        s.len() as int
    }
}

/// `p` is the index directly after the last record of `s` that is at or
/// before `t`, or 0 where there is none.
pub open spec fn is_insertion_point(s: Seq<TrainRecordView>, t: Timestamp, p: int) -> bool {
    &&& 0 <= p <= s.len()
    &&& forall|j: int| p <= j < s.len() ==> !(#[trigger] s[j]).time.at_or_before(t)
    &&& p > 0 ==> s[p - 1].time.at_or_before(t)
}

/// `s` sorted by time: its records taken in order, each put directly after
/// the last one before it that is not later.
pub open spec fn stable_sort(s: Seq<TrainRecordView>) -> Seq<TrainRecordView>
    decreases s.len(),
{
    if s.len() == 0 {
        s
    } else {
        let before = stable_sort(s.drop_last());
        before.insert(insertion_point(before, s.last().time), s.last())
    }
}

/// The records of `s` of instant `t`, in order.
pub open spec fn at_time(s: Seq<TrainRecordView>, t: Timestamp) -> Seq<TrainRecordView>
    decreases s.len(),
{
    if s.len() == 0 {
        s
    } else if s.last().time == t {
        at_time(s.drop_last(), t).push(s.last())
    } else {
        at_time(s.drop_last(), t)
    }
}

/// `insertion_point` gives the index directly after the last record that is
/// at or before `t`.
pub proof fn lemma_insertion_point(s: Seq<TrainRecordView>, t: Timestamp)
    ensures
        is_insertion_point(s, t, insertion_point(s, t)),
    decreases s.len(),
{
    if s.len() > 0 && !s.last().time.at_or_before(t) {
        lemma_insertion_point(s.drop_last(), t);
        let p = insertion_point(s.drop_last(), t);
        assert forall|j: int| p <= j < s.len() implies !(#[trigger] s[j]).time.at_or_before(
            t,
        ) by {
            if j < s.len() - 1 {
                assert(s.drop_last()[j] == s[j]);
            }
        }
        if p > 0 {
            assert(s.drop_last()[p - 1] == s[p - 1]);
        }
    }
}

/// A sorted sequence is sorted after a record went in at its insertion point.
proof fn lemma_insert_keeps_sorted(s: Seq<TrainRecordView>, x: TrainRecordView)
    requires
        is_sorted(s),
    ensures
        is_sorted(s.insert(insertion_point(s, x.time), x)),
{
    let p = insertion_point(s, x.time);
    lemma_insertion_point(s, x.time);
    let r = s.insert(p, x);
    s.insert_ensures(p, x);
    assert forall|i: int, j: int| 0 <= i <= j < r.len() implies r[i].time.at_or_before(
        r[j].time,
    ) by {
        if j < p {
            assert(r[i] == s[i] && r[j] == s[j]);
        } else if j == p {
            if i < p {
                assert(r[i] == s[i]);
                assert(s[i].time.at_or_before(s[p - 1].time));
            }
        } else {
            assert(r[j] == s[j - 1]);
            assert(!s[j - 1].time.at_or_before(x.time));
            if i < p {
                assert(r[i] == s[i]);
            } else if i > p {
                assert(r[i] == s[i - 1]);
            }
        }
    }
}

/// The sorted sequence is sorted, and as long as what was sorted.
pub proof fn lemma_stable_sort_sorted(s: Seq<TrainRecordView>)
    ensures
        is_sorted(stable_sort(s)),
        stable_sort(s).len() == s.len(),
    decreases s.len(),
{
    if s.len() > 0 {
        let before = stable_sort(s.drop_last());
        lemma_stable_sort_sorted(s.drop_last());
        lemma_insertion_point(before, s.last().time);
        lemma_insert_keeps_sorted(before, s.last());
        before.insert_ensures(insertion_point(before, s.last().time), s.last());
    }
}

/// The records of an instant in two sequences joined are those in the first
/// and then those in the second.
proof fn lemma_at_time_add(a: Seq<TrainRecordView>, b: Seq<TrainRecordView>, t: Timestamp)
    ensures
        at_time(a + b, t) == at_time(a, t) + at_time(b, t),
    decreases b.len(),
{
    if b.len() == 0 {
        assert(a + b == a);
        assert(at_time(a, t) + at_time(b, t) == at_time(a, t));
    } else {
        assert((a + b).drop_last() == a + b.drop_last());
        lemma_at_time_add(a, b.drop_last(), t);
        assert((a + b).last() == b.last());
        if b.last().time == t {
            assert((at_time(a, t) + at_time(b.drop_last(), t)).push(b.last()) == at_time(a, t)
                + at_time(b.drop_last(), t).push(b.last()));
        }
    }
}

/// Where no record is of instant `t`, there are no records of that instant.
proof fn lemma_at_time_none(s: Seq<TrainRecordView>, t: Timestamp)
    requires
        forall|j: int| 0 <= j < s.len() ==> (#[trigger] s[j]).time != t,
    ensures
        at_time(s, t) == Seq::<TrainRecordView>::empty(),
    decreases s.len(),
{
    if s.len() > 0 {
        assert(s[s.len() - 1].time != t);
        assert forall|j: int| 0 <= j < s.drop_last().len() implies (#[trigger] s.drop_last()[j]).time
            != t by {
            assert(s[j].time != t);
        }
        lemma_at_time_none(s.drop_last(), t);
    }
}

/// Sorting keeps the records of each instant, in the order they had.
pub proof fn lemma_stable_sort_keeps(s: Seq<TrainRecordView>, t: Timestamp)
    ensures
        at_time(stable_sort(s), t) == at_time(s, t),
    decreases s.len(),
{
    if s.len() > 0 {
        let x = s.last();
        let before = stable_sort(s.drop_last());
        lemma_stable_sort_keeps(s.drop_last(), t);
        lemma_stable_sort_sorted(s.drop_last());
        let p = insertion_point(before, x.time);
        lemma_insertion_point(before, x.time);
        let lower = before.subrange(0, p);
        let upper = before.subrange(p, before.len() as int);
        assert(before == lower + upper);
        lemma_at_time_add(lower, upper, t);
        lemma_at_time_add(lower.push(x), upper, t);
        assert(lower.push(x).drop_last() == lower);
        if x.time == t {
            assert forall|j: int| 0 <= j < upper.len() implies (#[trigger] upper[j]).time
                != t by {
                assert(upper[j] == before[p + j]);
            }
            lemma_at_time_none(upper, t);
            assert(at_time(lower, t) + Seq::<TrainRecordView>::empty() == at_time(lower, t));
            assert(at_time(lower, t).push(x) + Seq::<TrainRecordView>::empty() == at_time(
                lower,
                t,
            ).push(x));
        }
    }
}

/// Where there are records of instant `t`, one of the records is of that
/// instant.
proof fn lemma_at_time_member(s: Seq<TrainRecordView>, t: Timestamp) -> (i: int)
    requires
        at_time(s, t).len() > 0,
    ensures
        0 <= i < s.len(),
        s[i].time == t,
    decreases s.len(),
{
    if s.last().time == t {
        s.len() - 1
    } else {
        let i = lemma_at_time_member(s.drop_last(), t);
        assert(s.drop_last()[i] == s[i]);
        i
    }
}

/// Two sorted sequences that hold, for each instant, the same records of
/// that instant in the same order are the same.
proof fn lemma_sorted_same_records(r: Seq<TrainRecordView>, q: Seq<TrainRecordView>)
    requires
        is_sorted(r),
        is_sorted(q),
        forall|t: Timestamp| at_time(r, t) == at_time(q, t),
    ensures
        r == q,
    decreases r.len(),
{
    if r.len() == 0 {
        if q.len() > 0 {
            assert(at_time(q, q.last().time).len() > 0);
            assert(at_time(r, q.last().time).len() == 0);
        }
        assert(r =~= q);
    } else {
        let t = r.last().time;
        assert(at_time(r, t) == at_time(r.drop_last(), t).push(r.last()));
        assert(at_time(q, t).len() > 0);
        if q.len() == 0 {
            assert(at_time(q, t).len() == 0);
        }
        let u = q.last().time;
        assert(at_time(q, u) == at_time(q.drop_last(), u).push(q.last()));
        assert(at_time(r, u).len() > 0);
        let i = lemma_at_time_member(r, u);
        let j = lemma_at_time_member(q, t);
        assert(r[i].time.at_or_before(r[r.len() - 1].time));
        assert(q[j].time.at_or_before(q[q.len() - 1].time));
        assert(t == u);
        assert(r.last() == at_time(r, t).last());
        assert(q.last() == at_time(q, t).last());
        let r1 = r.drop_last();
        let q1 = q.drop_last();
        assert forall|a: int, b: int| 0 <= a <= b < r1.len() implies r1[a].time.at_or_before(
            r1[b].time,
        ) by {
            assert(r1[a] == r[a] && r1[b] == r[b]);
        }
        assert forall|a: int, b: int| 0 <= a <= b < q1.len() implies q1[a].time.at_or_before(
            q1[b].time,
        ) by {
            assert(q1[a] == q[a] && q1[b] == q[b]);
        }
        assert forall|w: Timestamp| at_time(r1, w) == at_time(q1, w) by {
            assert(at_time(r, w) == at_time(q, w));
            if w == t {
                assert(at_time(r1, w) == at_time(r, w).drop_last());
                assert(at_time(q1, w) == at_time(q, w).drop_last());
            }
        }
        lemma_sorted_same_records(r1, q1);
        assert(r == r1.push(r.last()));
        assert(q == q1.push(q.last()));
    }
}

/// What sorting gives is told by two properties: a sorted sequence that
/// holds, for each instant, the records of `s` of that instant in the
/// order they have in `s`, is `s` sorted.
pub proof fn lemma_stable_sort_unique(r: Seq<TrainRecordView>, s: Seq<TrainRecordView>)
    requires
        is_sorted(r),
        forall|t: Timestamp| at_time(r, t) == at_time(s, t),
    ensures
        r == stable_sort(s),
{
    lemma_stable_sort_sorted(s);
    assert forall|t: Timestamp| at_time(r, t) == at_time(stable_sort(s), t) by {
        lemma_stable_sort_keeps(s, t);
        assert(at_time(r, t) == at_time(s, t));
    }
    lemma_sorted_same_records(r, stable_sort(s));
}

/// Sorting leaves a sorted sequence as it is.
pub proof fn lemma_sorted_is_fixed(s: Seq<TrainRecordView>)
    requires
        is_sorted(s),
    ensures
        stable_sort(s) == s,
    decreases s.len(),
{
    if s.len() > 0 {
        let rest = s.drop_last();
        assert forall|i: int, j: int| 0 <= i <= j < rest.len() implies rest[i].time.at_or_before(
            rest[j].time,
        ) by {
            assert(rest[i] == s[i] && rest[j] == s[j]);
        }
        lemma_sorted_is_fixed(rest);
        if rest.len() > 0 {
            assert(rest.last() == s[s.len() - 2]);
        }
        assert(insertion_point(rest, s.last().time) == rest.len());
        assert(rest.insert(rest.len() as int, s.last()) == s);
    }
}

/// Sorting twice gives what sorting once gives.
pub proof fn lemma_stable_sort_idempotent(s: Seq<TrainRecordView>)
    ensures
        stable_sort(stable_sort(s)) == stable_sort(s),
{
    lemma_stable_sort_sorted(s);
    lemma_sorted_is_fixed(stable_sort(s));
}

/// Sorting neither adds a record nor drops one.
pub proof fn lemma_stable_sort_permutes(s: Seq<TrainRecordView>)
    ensures
        stable_sort(s).to_multiset() == s.to_multiset(),
    decreases s.len(),
{
    if s.len() > 0 {
        let before = stable_sort(s.drop_last());
        lemma_stable_sort_permutes(s.drop_last());
        lemma_insertion_point(before, s.last().time);
        vstd::seq_lib::to_multiset_insert(before, insertion_point(before, s.last().time), s.last());
        assert(s == s.drop_last().push(s.last()));
        vstd::seq_lib::to_multiset_build(s.drop_last(), s.last());
    }
}

/// Each record of the sorted sequence is a record of what was sorted.
pub proof fn lemma_stable_sort_source(s: Seq<TrainRecordView>, k: int) -> (j: int)
    requires
        0 <= k < stable_sort(s).len(),
    ensures
        0 <= j < s.len(),
        s[j] == stable_sort(s)[k],
    decreases s.len(),
{
    let before = stable_sort(s.drop_last());
    let p = insertion_point(before, s.last().time);
    lemma_stable_sort_sorted(s.drop_last());
    lemma_insertion_point(before, s.last().time);
    before.insert_ensures(p, s.last());
    if k < p {
        let j = lemma_stable_sort_source(s.drop_last(), k);
        assert(s.drop_last()[j] == s[j]);
        j
    } else if k == p {
        s.len() - 1
    } else {
        let j = lemma_stable_sort_source(s.drop_last(), k - 1);
        assert(s.drop_last()[j] == s[j]);
        j
    }
}

/// The records of `v`, to be taken from the front.
fn queue_of(v: Vec<TrainPositionRecord>) -> (q: VecDeque<TrainPositionRecord>)
    ensures
        q@ == v@,
{
    let mut q: VecDeque<TrainPositionRecord> = VecDeque::new();
    for record in iter: v
        invariant
            iter.seq() == v@,
            q@ == v@.take(iter.index() as int),
    {
        q.push_back(record);
    }
    q
}

/// Merges two sorted sequences into one. Of two records of the same
/// instant, one of `left` comes before one of `right`.
fn merge(left: Vec<TrainPositionRecord>, right: Vec<TrainPositionRecord>) -> (merged: Vec<
    TrainPositionRecord,
>)
    requires
        is_sorted(views(left@)),
        is_sorted(views(right@)),
    ensures
        is_sorted(views(merged@)),
        forall|t: Timestamp|
            at_time(views(merged@), t) == at_time(views(left@), t) + at_time(views(right@), t),
{
    let ghost l = views(left@);
    let ghost r = views(right@);
    let mut a = queue_of(left);
    let mut b = queue_of(right);
    let mut merged: Vec<TrainPositionRecord> = Vec::new();
    let ghost mut i: int = 0;
    let ghost mut j: int = 0;
    proof {
        assert(l.skip(0) == l && r.skip(0) == r);
        assert(a.len() == a@.len() && b.len() == b@.len());
        assert forall|t: Timestamp|
            at_time(views(merged@), t) == at_time(l.take(0), t) + at_time(r.take(0), t) by {
            assert(at_time(l.take(0), t) + at_time(r.take(0), t) == Seq::<
                TrainRecordView,
            >::empty());
        }
    }
    while a.len() > 0 || b.len() > 0
        invariant
            is_sorted(l),
            is_sorted(r),
            0 <= i <= l.len(),
            0 <= j <= r.len(),
            views(a@) == l.skip(i),
            views(b@) == r.skip(j),
            a.len() == l.len() - i,
            b.len() == r.len() - j,
            is_sorted(views(merged@)),
            forall|k: int|
                0 <= k < merged.len() && i < l.len() ==> (#[trigger] views(
                    merged@,
                )[k]).time.at_or_before(l[i].time),
            forall|k: int|
                0 <= k < merged.len() && j < r.len() ==> (#[trigger] views(
                    merged@,
                )[k]).time.at_or_before(r[j].time),
            forall|k: int|
                0 <= k < j && i < l.len() ==> !l[i].time.at_or_before((#[trigger] r[k]).time),
            forall|t: Timestamp|
                at_time(views(merged@), t) == at_time(l.take(i), t) + at_time(r.take(j), t),
        decreases a.len() + b.len(),
    {
        let ghost before = views(merged@);
        let ghost a_before = a@;
        let ghost b_before = b@;
        proof {
            if a.len() > 0 {
                assert(l.skip(i)[0] == l[i]);
                assert(views(a@)[0] == a@[0]@);
            }
            if b.len() > 0 {
                assert(r.skip(j)[0] == r[j]);
                assert(views(b@)[0] == b@[0]@);
            }
        }
        let from_left = b.len() == 0 || (a.len() > 0 && a[0].time.is_at_or_before(&b[0].time));
        if from_left {
            match a.pop_front() {
                Some(record) => {
                    merged.push(record);
                    proof {
                        let x = l[i];
                        assert(views(a@) == views(a_before).subrange(1, a_before.len() as int));
                        assert(l.skip(i).subrange(1, a_before.len() as int) == l.skip(i + 1));
                        assert(views(merged@) == before.push(x));
                        assert(l.take(i + 1).drop_last() == l.take(i));
                        assert(l.take(i + 1).last() == x);
                        assert forall|t: Timestamp|
                            at_time(views(merged@), t) == at_time(l.take(i + 1), t) + at_time(
                                r.take(j),
                                t,
                            ) by {
                            assert(before.push(x).drop_last() == before);
                            assert(at_time(before, t) == at_time(l.take(i), t) + at_time(
                                r.take(j),
                                t,
                            ));
                            if x.time == t {
                                assert forall|k: int| 0 <= k < j implies (#[trigger] r.take(
                                    j,
                                )[k]).time != t by {
                                    assert(!l[i].time.at_or_before(r[k].time));
                                }
                                lemma_at_time_none(r.take(j), t);
                                assert(at_time(l.take(i), t).push(x) + Seq::<
                                    TrainRecordView,
                                >::empty() == (at_time(l.take(i), t) + Seq::<
                                    TrainRecordView,
                                >::empty()).push(x));
                            }
                        }
                        assert forall|k: int| 0 <= k < j && i + 1 < l.len() implies !l[i
                            + 1].time.at_or_before((#[trigger] r[k]).time) by {
                            assert(!l[i].time.at_or_before(r[k].time));
                            assert(l[i].time.at_or_before(l[i + 1].time));
                        }
                        assert forall|k: int|
                            0 <= k < merged.len() && i + 1 < l.len() implies (#[trigger] views(
                            merged@,
                        )[k]).time.at_or_before(l[i + 1].time) by {
                            assert(l[i].time.at_or_before(l[i + 1].time));
                            if k < before.len() {
                                assert(before[k].time.at_or_before(l[i].time));
                            }
                        }
                        assert forall|k: int|
                            0 <= k < merged.len() && j < r.len() implies (#[trigger] views(
                            merged@,
                        )[k]).time.at_or_before(r[j].time) by {
                            if k < before.len() {
                                assert(before[k].time.at_or_before(r[j].time));
                            }
                        }
                        assert forall|p: int, q: int|
                            0 <= p <= q < merged.len() implies views(
                            merged@,
                        )[p].time.at_or_before(views(merged@)[q].time) by {
                            if q < before.len() {
                                assert(before[p].time.at_or_before(before[q].time));
                            } else if p < before.len() {
                                assert(before[p].time.at_or_before(l[i].time));
                            }
                        }
                        i = i + 1;
                    }
                },
                None => {},
            }
        } else {
            match b.pop_front() {
                Some(record) => {
                    merged.push(record);
                    proof {
                        let x = r[j];
                        assert(views(b@) == views(b_before).subrange(1, b_before.len() as int));
                        assert(r.skip(j).subrange(1, b_before.len() as int) == r.skip(j + 1));
                        assert(views(merged@) == before.push(x));
                        assert(r.take(j + 1).drop_last() == r.take(j));
                        assert(r.take(j + 1).last() == x);
                        assert forall|t: Timestamp|
                            at_time(views(merged@), t) == at_time(l.take(i), t) + at_time(
                                r.take(j + 1),
                                t,
                            ) by {
                            assert(before.push(x).drop_last() == before);
                            assert(at_time(before, t) == at_time(l.take(i), t) + at_time(
                                r.take(j),
                                t,
                            ));
                            if x.time == t {
                                assert((at_time(l.take(i), t) + at_time(r.take(j), t)).push(x)
                                    == at_time(l.take(i), t) + at_time(r.take(j), t).push(x));
                            }
                        }
                        assert forall|k: int|
                            0 <= k < merged.len() && j + 1 < r.len() implies (#[trigger] views(
                            merged@,
                        )[k]).time.at_or_before(r[j + 1].time) by {
                            assert(r[j].time.at_or_before(r[j + 1].time));
                            if k < before.len() {
                                assert(before[k].time.at_or_before(r[j].time));
                            }
                        }
                        assert forall|k: int|
                            0 <= k < merged.len() && i < l.len() implies (#[trigger] views(
                            merged@,
                        )[k]).time.at_or_before(l[i].time) by {
                            if k < before.len() {
                                assert(before[k].time.at_or_before(l[i].time));
                            }
                        }
                        assert forall|p: int, q: int|
                            0 <= p <= q < merged.len() implies views(
                            merged@,
                        )[p].time.at_or_before(views(merged@)[q].time) by {
                            if q < before.len() {
                                assert(before[p].time.at_or_before(before[q].time));
                            } else if p < before.len() {
                                assert(before[p].time.at_or_before(r[j].time));
                            }
                        }
                        j = j + 1;
                    }
                },
                None => {},
            }
        }
    }
    proof {
        assert(l.skip(i).len() == 0 && r.skip(j).len() == 0);
        assert(l.take(i) == l && r.take(j) == r);
    }
    merged
}

/// Sorts `records` by time. Records of the same instant keep their order.
pub fn sort_by_time(records: Vec<TrainPositionRecord>) -> (sorted: Vec<TrainPositionRecord>)
    ensures
        views(sorted@) == stable_sort(views(records@)),
        is_sorted(views(sorted@)),
        forall|t: Timestamp| at_time(views(sorted@), t) == at_time(views(records@), t),
    decreases records.len(),
{
    let ghost all = views(records@);
    proof {
        lemma_stable_sort_sorted(all);
        assert forall|t: Timestamp| at_time(stable_sort(all), t) == at_time(all, t) by {
            lemma_stable_sort_keeps(all, t);
        }
    }
    if records.len() <= 1 {
        proof {
            if all.len() == 1 {
                assert(all.drop_last() == Seq::<TrainRecordView>::empty());
                assert(stable_sort(all) == all);
            }
        }
        return records;
    }
    let mut left = records;
    let right = left.split_off(left.len() / 2);
    let ghost l = views(left@);
    let ghost r = views(right@);
    assert(all == l + r);
    let left = sort_by_time(left);
    let right = sort_by_time(right);
    let sorted = merge(left, right);
    proof {
        assert forall|t: Timestamp| at_time(views(sorted@), t) == at_time(all, t) by {
            lemma_at_time_add(l, r, t);
        }
        lemma_stable_sort_unique(views(sorted@), all);
    }
    sorted
}

} // verus!
