//! Grouping of records by the entity they belong to: a train number or a
//! device name.

use crate::error::ParseErrorView;
use crate::text::views;
use vstd::prelude::*;
use vstd::string::StringExecFns;

verus! {

/// An item with the key of the entity it belongs to.
#[derive(Debug)]
pub struct Keyed<T> {
    pub key: String,
    pub item: T,
}

impl<T: View> View for Keyed<T> {
    type V = (Seq<char>, T::V);

    open spec fn view(&self) -> (Seq<char>, T::V) {
        (self.key@, self.item@)
    }
}

/// The items of one entity, in the order in which they were met.
#[derive(Debug)]
pub struct Group<T> {
    pub key: String,
    pub items: Vec<T>,
}

impl<T: View> View for Group<T> {
    type V = (Seq<char>, Seq<T::V>);

    open spec fn view(&self) -> (Seq<char>, Seq<T::V>) {
        (self.key@, views(self.items@))
    }
}

/// The items of `pairs` that stand under `key`, in order.
pub open spec fn items_of<V>(pairs: Seq<(Seq<char>, V)>, key: Seq<char>) -> Seq<V>
    decreases pairs.len(),
{
    if pairs.len() == 0 {
        Seq::empty()
    } else if pairs.last().0 == key {
        items_of(pairs.drop_last(), key).push(pairs.last().1)
    } else {
        items_of(pairs.drop_last(), key)
    }
}

/// Whether an item of `pairs` stands under `key`.
pub open spec fn has_key<V>(pairs: Seq<(Seq<char>, V)>, key: Seq<char>) -> bool {
    exists|i: int| 0 <= i < pairs.len() && (#[trigger] pairs[i]).0 == key
}

/// Whether `first` occurs in `pairs` before `second` does.
pub open spec fn comes_before<V>(
    pairs: Seq<(Seq<char>, V)>,
    first: Seq<char>,
    second: Seq<char>,
) -> bool {
    exists|i: int|
        0 <= i < pairs.len() && (#[trigger] pairs[i]).0 == first && forall|j: int|
            0 <= j <= i ==> (#[trigger] pairs[j]).0 != second
}

/// Whether the keys of `groups` stand in the order in which they first occur
/// in `pairs`.
pub open spec fn keys_in_order<V, W>(
    groups: Seq<(Seq<char>, Seq<W>)>,
    pairs: Seq<(Seq<char>, V)>,
) -> bool {
    forall|g: int, h: int|
        0 <= g < h < groups.len() ==> comes_before(
            pairs,
            (#[trigger] groups[g]).0,
            (#[trigger] groups[h]).0,
        )
}

/// Whether `groups` is `pairs` grouped by key: one group for each key that
/// occurs, which holds the items under that key in their order, and the
/// groups in the order in which their keys first occur.
pub open spec fn is_grouping<V>(
    groups: Seq<(Seq<char>, Seq<V>)>,
    pairs: Seq<(Seq<char>, V)>,
) -> bool {
    &&& forall|g: int, h: int|
        0 <= g < h < groups.len() ==> (#[trigger] groups[g]).0 != (#[trigger] groups[h]).0
    &&& forall|i: int|
        0 <= i < pairs.len() ==> exists|g: int|
            0 <= g < groups.len() && (#[trigger] groups[g]).0 == (#[trigger] pairs[i]).0
    &&& forall|g: int|
        0 <= g < groups.len() ==> has_key(pairs, (#[trigger] groups[g]).0) && groups[g].1
            == items_of(pairs, groups[g].0)
    &&& keys_in_order(groups, pairs)
}

/// Each item under `key` is an item of `pairs` that stands under `key`.
pub proof fn lemma_items_of_source<V>(pairs: Seq<(Seq<char>, V)>, key: Seq<char>, k: int) -> (i:
    int)
    requires
        0 <= k < items_of(pairs, key).len(),
    ensures
        0 <= i < pairs.len(),
        pairs[i] == (key, items_of(pairs, key)[k]),
    decreases pairs.len(),
{
    let before = items_of(pairs.drop_last(), key);
    if k < before.len() {
        let i = lemma_items_of_source(pairs.drop_last(), key, k);
        assert(pairs.drop_last()[i] == pairs[i]);
        i
    } else {
        pairs.len() - 1
    }
}

/// No item stands under a key that does not occur.
pub proof fn lemma_items_of_absent<V>(pairs: Seq<(Seq<char>, V)>, key: Seq<char>)
    requires
        !has_key(pairs, key),
    ensures
        items_of(pairs, key) == Seq::<V>::empty(),
    decreases pairs.len(),
{
    if pairs.len() > 0 {
        assert(pairs[pairs.len() - 1].0 != key);
        assert forall|i: int| 0 <= i < pairs.drop_last().len() implies (
        #[trigger] pairs.drop_last()[i]).0 != key by {
            assert(pairs[i].0 != key);
        }
        lemma_items_of_absent(pairs.drop_last(), key);
    }
}

/// The index in `groups` of the group with key `key`, or the number of
/// groups where none has it.
fn find_group<T: View>(groups: &Vec<Group<T>>, key: &String) -> (g: usize)
    ensures
        g <= groups.len(),
        g < groups.len() ==> groups[g as int].key@ == key@,
        g == groups.len() ==> forall|h: int|
            0 <= h < groups.len() ==> (#[trigger] groups[h]).key@ != key@,
{
    let mut g: usize = 0;
    while g < groups.len()
        invariant
            g <= groups.len(),
            forall|h: int| 0 <= h < g ==> (#[trigger] groups[h]).key@ != key@,
        decreases groups.len() - g,
    {
        if groups[g].key == *key {
            return g;
        }
        g += 1;
    }
    g
}

/// Groups `entries` by key.
pub fn group_by_key<T: View>(entries: Vec<Keyed<T>>) -> (groups: Vec<Group<T>>)
    ensures
        is_grouping(views(groups@), views(entries@)),
{
    let mut groups: Vec<Group<T>> = Vec::new();
    let ghost all = views(entries@);
    assert(is_grouping(views(groups@), all.take(0)));
    for entry in iter: entries
        invariant
            iter.seq() == entries@,
            all == views(entries@),
            is_grouping(views(groups@), all.take(iter.index() as int)),
    {
        let ghost k = iter.index() as int;
        let ghost done = all.take(k);
        let ghost next = all.take(k + 1);
        let ghost before = views(groups@);
        assert(next.drop_last() == done);
        assert(next.last() == entry@);
        assert forall|i: int| 0 <= i < done.len() implies #[trigger] next[i] == done[i] by {}
        let Keyed { key, item } = entry;
        let g = find_group(&groups, &key);
        if g < groups.len() {
            let ghost old_items = groups[g as int].items@;
            groups[g].items.push(item);
            let ghost after = views(groups@);
            assert(after.len() == before.len());
            assert(views(groups[g as int].items@) == views(old_items).push(item@));
            assert forall|h: int| 0 <= h < after.len() implies (#[trigger] after[h]).0
                == before[h].0 by {}
            assert forall|h: int| 0 <= h < after.len() implies has_key(
                next,
                (#[trigger] after[h]).0,
            ) && after[h].1 == items_of(next, after[h].0) by {
                assert(has_key(done, before[h].0));
                let i = choose|i: int| 0 <= i < done.len() && (#[trigger] done[i]).0 == before[h].0;
                assert(next[i].0 == before[h].0);
                if h != g {
                    assert(after[h] == before[h]);
                    assert(before[h].0 != before[g as int].0);
                }
            }
            assert forall|i: int| 0 <= i < next.len() implies exists|h: int|
                0 <= h < after.len() && (#[trigger] after[h]).0 == (#[trigger] next[i]).0 by {
                if i < done.len() {
                    let h = choose|h: int|
                        0 <= h < before.len() && (#[trigger] before[h]).0 == done[i].0;
                    assert(after[h].0 == next[i].0);
                } else {
                    assert(after[g as int].0 == next[i].0);
                }
            }
            assert forall|a: int, b: int| 0 <= a < b < after.len() implies comes_before(
                next,
                (#[trigger] after[a]).0,
                (#[trigger] after[b]).0,
            ) by {
                lemma_comes_before_grows(done, next, before[a].0, before[b].0);
            }
        } else {
            let mut items: Vec<T> = Vec::new();
            items.push(item);
            groups.push(Group { key, items });
            let ghost after = views(groups@);
            assert(after.len() == before.len() + 1);
            assert(views(groups@.last().items@) == seq![item@]);
            assert forall|h: int| 0 <= h < before.len() implies #[trigger] after[h]
                == before[h] by {}
            assert(!has_key(done, entry@.0)) by {
                if has_key(done, entry@.0) {
                    let i = choose|i: int| 0 <= i < done.len() && (#[trigger] done[i]).0 == entry@.0;
                    let h = choose|h: int|
                        0 <= h < before.len() && (#[trigger] before[h]).0 == done[i].0;
                    assert(groups@[h].key@ == before[h].0);
                }
            }
            proof {
                lemma_items_of_absent(done, entry@.0);
            }
            assert(after[before.len() as int].0 == entry@.0);
            assert forall|h: int| 0 <= h < after.len() implies has_key(
                next,
                (#[trigger] after[h]).0,
            ) && after[h].1 == items_of(next, after[h].0) by {
                if h < before.len() {
                    assert(has_key(done, before[h].0));
                    let i = choose|i: int|
                        0 <= i < done.len() && (#[trigger] done[i]).0 == before[h].0;
                    assert(next[i].0 == before[h].0);
                    assert(groups@[h].key@ == before[h].0);
                } else {
                    assert(next[k].0 == entry@.0);
                }
            }
            assert forall|i: int| 0 <= i < next.len() implies exists|h: int|
                0 <= h < after.len() && (#[trigger] after[h]).0 == (#[trigger] next[i]).0 by {
                if i < done.len() {
                    let h = choose|h: int|
                        0 <= h < before.len() && (#[trigger] before[h]).0 == done[i].0;
                    assert(after[h].0 == next[i].0);
                } else {
                    assert(after[before.len() as int].0 == next[i].0);
                }
            }
            assert forall|a: int, b: int| 0 <= a < b < after.len() implies (#[trigger] after[a]).0
                != (#[trigger] after[b]).0 && comes_before(next, after[a].0, after[b].0) by {
                if b < before.len() {
                    lemma_comes_before_grows(done, next, before[a].0, before[b].0);
                } else {
                    assert(groups@[a].key@ == before[a].0);
                    assert(has_key(done, before[a].0));
                    let i = choose|i: int|
                        0 <= i < done.len() && (#[trigger] done[i]).0 == before[a].0;
                    assert(next[i].0 == before[a].0);
                    assert forall|j: int| 0 <= j <= i implies (#[trigger] next[j]).0
                        != entry@.0 by {
                        assert(done[j].0 != entry@.0);
                    }
                }
            }
        }
    }
    assert(all.take(entries@.len() as int) == all);
    groups
}

/// A key that occurs before another still does when items are added at the
/// end.
proof fn lemma_comes_before_grows<V>(
    done: Seq<(Seq<char>, V)>,
    next: Seq<(Seq<char>, V)>,
    first: Seq<char>,
    second: Seq<char>,
)
    requires
        comes_before(done, first, second),
        done.len() <= next.len(),
        forall|i: int| 0 <= i < done.len() ==> #[trigger] next[i] == done[i],
    ensures
        comes_before(next, first, second),
{
    let i = choose|i: int|
        0 <= i < done.len() && (#[trigger] done[i]).0 == first && forall|j: int|
            0 <= j <= i ==> (#[trigger] done[j]).0 != second;
    assert(next[i].0 == first);
    assert forall|j: int| 0 <= j <= i implies (#[trigger] next[j]).0 != second by {
        assert(done[j].0 != second);
    }
}

/// The number of the line at index `i`: lines are counted from 1.
pub open spec fn line_number(i: int) -> usize {
    (i + 1) as usize
}

/// What one line gives: an item with its key, nothing, or the reason why the
/// parse fails on it.
pub type Outcome<V> = Result<Option<(Seq<char>, V)>, ParseErrorView>;

/// The items that `outcomes` give, each with its key, in order.
pub open spec fn gathered<V>(outcomes: Seq<Outcome<V>>) -> Seq<(Seq<char>, V)>
    decreases outcomes.len(),
{
    if outcomes.len() == 0 {
        Seq::empty()
    } else {
        match outcomes.last() {
            Ok(Some(pair)) => gathered(outcomes.drop_last()).push(pair),
            _ => gathered(outcomes.drop_last()),
        }
    }
}

/// Whether the outcome at `i` is the first that is a failure.
pub open spec fn fails_first_at<V>(outcomes: Seq<Outcome<V>>, i: int) -> bool {
    &&& 0 <= i < outcomes.len()
    &&& outcomes[i] is Err
    &&& forall|j: int| 0 <= j < i ==> (#[trigger] outcomes[j]) is Ok
}

/// What the lines of a file give together: the first failure among
/// `outcomes`, or where there is none the items of all of them.
pub open spec fn collected<V>(outcomes: Seq<Outcome<V>>) -> Result<
    Seq<(Seq<char>, V)>,
    ParseErrorView,
> {
    if exists|i: int| fails_first_at(outcomes, i) {
        Err(outcomes[choose|i: int| fails_first_at(outcomes, i)]->Err_0)
    } else {
        Ok(gathered(outcomes))
    }
}

/// A failure that no failure stands before is what the file gives.
pub proof fn lemma_collected_failure<V>(outcomes: Seq<Outcome<V>>, i: int)
    requires
        fails_first_at(outcomes, i),
    ensures
        collected(outcomes) == Err::<Seq<(Seq<char>, V)>, ParseErrorView>(outcomes[i]->Err_0),
{
    let c = choose|c: int| fails_first_at(outcomes, c);
    if c < i {
        assert(outcomes[c] is Ok);
    } else if i < c {
        assert(outcomes[i] is Ok);
    }
}

/// Where no outcome is a failure, the file gives the items of all of them.
pub proof fn lemma_collected_items<V>(outcomes: Seq<Outcome<V>>)
    requires
        forall|j: int| 0 <= j < outcomes.len() ==> (#[trigger] outcomes[j]) is Ok,
    ensures
        collected(outcomes) == Ok::<Seq<(Seq<char>, V)>, ParseErrorView>(gathered(outcomes)),
{
    if exists|i: int| fails_first_at(outcomes, i) {
        let c = choose|c: int| fails_first_at(outcomes, c);
        assert(outcomes[c] is Ok);
    }
}

/// One failure among the outcomes, wherever it stands, makes the file fail.
pub proof fn lemma_collected_fails<V>(outcomes: Seq<Outcome<V>>, i: int)
    requires
        0 <= i < outcomes.len(),
        outcomes[i] is Err,
    ensures
        collected(outcomes) is Err,
    decreases i,
{
    if forall|j: int| 0 <= j < i ==> (#[trigger] outcomes[j]) is Ok {
        lemma_collected_failure(outcomes, i);
    } else {
        let j = choose|j: int| 0 <= j < i && !((#[trigger] outcomes[j]) is Ok);
        lemma_collected_fails(outcomes, j);
    }
}

/// The outcomes give no more items than there are outcomes.
pub proof fn lemma_gathered_len<V>(outcomes: Seq<Outcome<V>>)
    ensures
        gathered(outcomes).len() <= outcomes.len(),
    decreases outcomes.len(),
{
    if outcomes.len() > 0 {
        lemma_gathered_len(outcomes.drop_last());
    }
}

/// No more items stand under one key than there are items.
pub proof fn lemma_items_of_len<V>(pairs: Seq<(Seq<char>, V)>, key: Seq<char>)
    ensures
        items_of(pairs, key).len() <= pairs.len(),
    decreases pairs.len(),
{
    if pairs.len() > 0 {
        lemma_items_of_len(pairs.drop_last(), key);
    }
}

/// Each gathered item is the item of one of the outcomes.
pub proof fn lemma_gathered_source<V>(outcomes: Seq<Outcome<V>>, k: int) -> (i: int)
    requires
        0 <= k < gathered(outcomes).len(),
    ensures
        0 <= i < outcomes.len(),
        outcomes[i] == Ok::<Option<(Seq<char>, V)>, ParseErrorView>(Some(gathered(outcomes)[k])),
    decreases outcomes.len(),
{
    let before = gathered(outcomes.drop_last());
    if k < before.len() {
        let i = lemma_gathered_source(outcomes.drop_last(), k);
        assert(outcomes.drop_last()[i] == outcomes[i]);
        i
    } else {
        outcomes.len() - 1
    }
}

/// Whether no two of `groups` have the same key.
pub open spec fn distinct_keys<V>(groups: Seq<(Seq<char>, Seq<V>)>) -> bool {
    forall|g: int, h: int|
        0 <= g < h < groups.len() ==> (#[trigger] groups[g]).0 != (#[trigger] groups[h]).0
}

/// Whether one of `groups` has the key `key`.
pub open spec fn has_group<V>(groups: Seq<(Seq<char>, Seq<V>)>, key: Seq<char>) -> bool {
    exists|g: int| 0 <= g < groups.len() && (#[trigger] groups[g]).0 == key
}

/// The index of a group with key `key`.
pub open spec fn group_at<V>(groups: Seq<(Seq<char>, Seq<V>)>, key: Seq<char>) -> int {
    choose|g: int| 0 <= g < groups.len() && (#[trigger] groups[g]).0 == key
}

/// The mapping from each key of `groups` to the items of its group.
pub open spec fn group_map<V>(groups: Seq<(Seq<char>, Seq<V>)>) -> Map<Seq<char>, Seq<V>> {
    Map::new(|key: Seq<char>| has_group(groups, key), |key: Seq<char>| groups[group_at(groups, key)].1)
}

/// The mapping from each key of `pairs` to its items, in order.
pub open spec fn items_by_key<V>(pairs: Seq<(Seq<char>, V)>) -> Map<Seq<char>, Seq<V>> {
    Map::new(|key: Seq<char>| has_key(pairs, key), |key: Seq<char>| items_of(pairs, key))
}

/// The groups of a grouping map each key to its items.
pub proof fn lemma_grouping_map<V>(groups: Seq<(Seq<char>, Seq<V>)>, pairs: Seq<(Seq<char>, V)>)
    requires
        is_grouping(groups, pairs),
    ensures
        group_map(groups) == items_by_key(pairs),
{
    assert forall|key: Seq<char>| has_group(groups, key) <==> has_key(pairs, key) by {
        if has_group(groups, key) {
            let g = choose|g: int| 0 <= g < groups.len() && (#[trigger] groups[g]).0 == key;
            assert(has_key(pairs, groups[g].0));
        }
        if has_key(pairs, key) {
            let i = choose|i: int| 0 <= i < pairs.len() && (#[trigger] pairs[i]).0 == key;
            let g = choose|g: int|
                0 <= g < groups.len() && (#[trigger] groups[g]).0 == (#[trigger] pairs[i]).0;
            assert(groups[g].0 == key);
        }
    }
    assert forall|key: Seq<char>| has_group(groups, key) implies groups[group_at(groups, key)].1
        == items_of(pairs, key) by {
        let g = group_at(groups, key);
        assert(groups[g].0 == key);
    }
    assert(group_map(groups) =~= items_by_key(pairs));
}

/// Groups with distinct keys have as many keys as there are groups.
proof fn lemma_group_keys<V>(groups: Seq<(Seq<char>, Seq<V>)>)
    requires
        distinct_keys(groups),
    ensures
        group_map(groups).dom().finite(),
        group_map(groups).dom().len() == groups.len(),
    decreases groups.len(),
{
    let dom = group_map(groups).dom();
    if groups.len() == 0 {
        assert(dom =~= Set::<Seq<char>>::empty());
    } else {
        let rest = groups.drop_last();
        let key = groups.last().0;
        assert forall|g: int, h: int| 0 <= g < h < rest.len() implies (#[trigger] rest[g]).0 != (
        #[trigger] rest[h]).0 by {
            assert(rest[g] == groups[g] && rest[h] == groups[h]);
        }
        lemma_group_keys(rest);
        let before = group_map(rest).dom();
        assert(!before.contains(key)) by {
            if has_group(rest, key) {
                let g = group_at(rest, key);
                assert(rest[g] == groups[g]);
                assert(groups[g].0 != groups[groups.len() - 1].0);
            }
        }
        assert forall|k: Seq<char>| dom.contains(k) <==> before.insert(key).contains(k) by {
            if has_group(groups, k) {
                let g = group_at(groups, k);
                if g < rest.len() {
                    assert(rest[g].0 == k);
                }
            }
            if has_group(rest, k) {
                let g = group_at(rest, k);
                assert(groups[g].0 == k);
            }
            if k == key {
                assert(groups[groups.len() - 1].0 == k);
            }
        }
        assert(dom =~= before.insert(key));
    }
}

/// Items grouped by the key of the entity they belong to.
#[derive(Debug)]
pub struct Grouped<T> {
    pub groups: Vec<Group<T>>,
}

impl<T: View> View for Grouped<T> {
    type V = Map<Seq<char>, Seq<T::V>>;

    open spec fn view(&self) -> Map<Seq<char>, Seq<T::V>> {
        group_map(views(self.groups@))
    }
}

impl<T: View> Grouped<T> {
    /// No two groups have the same key.
    pub open spec fn wf(&self) -> bool {
        distinct_keys(views(self.groups@))
    }

    /// The number of keys.
    pub fn len(&self) -> (n: usize)
        requires
            self.wf(),
        ensures
            self@.dom().finite(),
            n == self@.dom().len(),
    {
        proof {
            lemma_group_keys(views(self.groups@));
        }
        self.groups.len()
    }

    /// Whether there is no key at all.
    pub fn is_empty(&self) -> (b: bool)
        ensures
            b <==> forall|key: Seq<char>| !self@.contains_key(key),
    {
        proof {
            let groups = views(self.groups@);
            if groups.len() > 0 {
                assert(has_group(groups, groups[0].0));
                assert(self@.contains_key(groups[0].0));
            } else {
                assert forall|key: Seq<char>| !self@.contains_key(key) by {
                    if has_group(groups, key) {
                        let g = group_at(groups, key);
                        assert(0 <= g < groups.len());
                    }
                }
            }
        }
        self.groups.len() == 0
    }

    /// The items under `key`, if there are any.
    pub fn get(&self, key: &str) -> (r: Option<&Vec<T>>)
        requires
            self.wf(),
        ensures
            match r {
                Some(items) => self@.contains_key(key@) && self@[key@] == views(items@),
                None => !self@.contains_key(key@),
            },
    {
        let name = String::from_str(key);
        let g = find_group(&self.groups, &name);
        let ghost groups = views(self.groups@);
        if g < self.groups.len() {
            proof {
                assert(groups[g as int].0 == key@);
                let c = group_at(groups, key@);
                assert(groups[c].0 == key@);
                assert(c == g);
            }
            Some(&self.groups[g].items)
        } else {
            proof {
                if has_group(groups, key@) {
                    let c = group_at(groups, key@);
                    assert(self.groups@[c].key@ == groups[c].0);
                }
            }
            None
        }
    }
}

} // verus!
