//! The mapping from field names to raw values that one line gives.

use vstd::prelude::*;
use vstd::string::StringExecFns;

verus! {

/// One field name with its raw value.
pub struct Entry {
    pub key: String,
    pub value: String,
}

/// A mapping from field names to raw values. No name occurs twice: a value
/// inserted under a name that is present takes the place of the earlier one.
pub struct TokenMap {
    entries: Vec<Entry>,
}

/// The mapping that `es` gives when its entries are inserted in order.
pub closed spec fn entries_map(es: Seq<Entry>) -> Map<Seq<char>, Seq<char>>
    decreases es.len(),
{
    if es.len() == 0 {
        Map::empty()
    } else {
        entries_map(es.drop_last()).insert(es.last().key@, es.last().value@)
    }
}

/// Whether no two entries of `es` have the same name.
spec fn distinct_keys(es: Seq<Entry>) -> bool {
    forall|i: int, j: int| 0 <= i < j < es.len() ==> es[i].key@ != es[j].key@
}

/// A name that no entry has is not in the mapping.
proof fn lemma_absent(es: Seq<Entry>, key: Seq<char>)
    requires
        forall|i: int| 0 <= i < es.len() ==> es[i].key@ != key,
    ensures
        !entries_map(es).contains_key(key),
    decreases es.len(),
{
    if es.len() > 0 {
        lemma_absent(es.drop_last(), key);
    }
}

/// The name of each entry is mapped to the value of that entry.
proof fn lemma_present(es: Seq<Entry>, at: int)
    requires
        distinct_keys(es),
        0 <= at < es.len(),
    ensures
        entries_map(es).contains_key(es[at].key@),
        entries_map(es)[es[at].key@] == es[at].value@,
    decreases es.len(),
{
    if at < es.len() - 1 {
        lemma_present(es.drop_last(), at);
    }
}

/// An entry put in the place of one with its name sets the value of that name.
proof fn lemma_replace(es: Seq<Entry>, at: int, e: Entry)
    requires
        distinct_keys(es),
        0 <= at < es.len(),
        es[at].key@ == e.key@,
    ensures
        distinct_keys(es.update(at, e)),
        entries_map(es.update(at, e)) == entries_map(es).insert(e.key@, e.value@),
    decreases es.len(),
{
    let fs = es.update(at, e);
    if at == es.len() - 1 {
        assert(fs.drop_last() == es.drop_last());
        assert(entries_map(fs) =~= entries_map(es).insert(e.key@, e.value@));
    } else {
        lemma_replace(es.drop_last(), at, e);
        assert(fs.drop_last() == es.drop_last().update(at, e));
        assert(es.last().key@ != es[at].key@);
        assert(entries_map(fs) =~= entries_map(es).insert(e.key@, e.value@));
    }
}

impl View for TokenMap {
    type V = Map<Seq<char>, Seq<char>>;

    closed spec fn view(&self) -> Map<Seq<char>, Seq<char>> {
        entries_map(self.entries@)
    }
}

impl TokenMap {
    /// No field name occurs twice.
    pub closed spec fn wf(&self) -> bool {
        distinct_keys(self.entries@)
    }

/// A mapping without fields.
    pub fn new() -> (m: Self)
        ensures
            m.wf(),
            m@ == Map::<Seq<char>, Seq<char>>::empty(),
    {
        TokenMap { entries: Vec::new() }
    }

    /// Sets the value of `key`, in place of an earlier one if there is one.
    pub fn insert(&mut self, key: String, value: String)
        requires
            old(self).wf(),
        ensures
            final(self).wf(),
            final(self)@ == old(self)@.insert(key@, value@),
    {
        let mut i: usize = 0;
        while i < self.entries.len()
            invariant
                i <= self.entries.len(),
                self.entries == old(self).entries,
                old(self).wf(),
                forall|j: int| 0 <= j < i ==> self.entries@[j].key@ != key@,
            decreases self.entries.len() - i,
        {
            if self.entries[i].key == key {
                proof {
                    lemma_replace(self.entries@, i as int, Entry { key, value });
                }
                self.entries.set(i, Entry { key, value });
                return ;
            }
            i += 1;
        }
        self.entries.push(Entry { key, value });
        assert(self.entries@.drop_last() == old(self).entries@);
    }

    /// The value of `key`, if it has one.
    pub fn get(&self, key: &str) -> (r: Option<&String>)
        requires
            self.wf(),
        ensures
            match r {
                Some(v) => self@.contains_key(key@) && self@[key@] == v@,
                None => !self@.contains_key(key@),
            },
    {
        let name = String::from_str(key);
        let mut i: usize = 0;
        while i < self.entries.len()
            invariant
                i <= self.entries.len(),
                self.wf(),
                name@ == key@,
                forall|j: int| 0 <= j < i ==> self.entries@[j].key@ != key@,
            decreases self.entries.len() - i,
        {
            if self.entries[i].key == name {
                proof {
                    lemma_present(self.entries@, i as int);
                }
                return Some(&self.entries[i].value);
            }
            i += 1;
        }
        proof {
            lemma_absent(self.entries@, key@);
        }
        None
    }
}

} // verus!
