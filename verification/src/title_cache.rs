//! The titles that were looked up before.

use vstd::prelude::*;

use crate::text::{optional_view, same_text};

verus! {

/// The texts of cached entries.
pub open spec fn entry_views(entries: Seq<(String, Option<String>)>) -> Seq<
    (Seq<char>, Option<Seq<char>>),
> {
    Seq::new(entries.len(), |i: int| (entries[i].0@, optional_view(entries[i].1)))
}

/// What entries say; of two with the same key the later one counts.
pub open spec fn entry_map(entries: Seq<(Seq<char>, Option<Seq<char>>)>) -> Map<
    Seq<char>,
    Option<Seq<char>>,
>
    decreases entries.len(),
{
    if entries.len() == 0 {
        Map::empty()
    } else {
        entry_map(entries.drop_last()).insert(entries.last().0, entries.last().1)
    }
}

/// Whether no two entries have the same key.
pub open spec fn distinct_keys(entries: Seq<(Seq<char>, Option<Seq<char>>)>) -> bool {
    forall|i: int, j: int|
        0 <= i < j < entries.len() ==> (#[trigger] entries[i]).0 != (#[trigger] entries[j]).0
}

/// The titles that were looked up before: under the normal form of a title, the
/// Japanese title that was found, or that none was.
#[derive(Debug)]
pub struct TitleCache {
    entries: Vec<(String, Option<String>)>,
}

impl View for TitleCache {
    type V = Map<Seq<char>, Option<Seq<char>>>;

    closed spec fn view(&self) -> Map<Seq<char>, Option<Seq<char>>> {
        entry_map(entry_views(self.entries@))
    }
}

proof fn lemma_entry_keys(entries: Seq<(Seq<char>, Option<Seq<char>>)>, key: Seq<char>)
    ensures
        entry_map(entries).contains_key(key) <==> exists|i: int|
            0 <= i < entries.len() && (#[trigger] entries[i]).0 == key,
    decreases entries.len(),
{
    if entries.len() > 0 {
        let shorter = entries.drop_last();
        lemma_entry_keys(shorter, key);
        if entry_map(shorter).contains_key(key) {
            let i = choose|i: int| 0 <= i < shorter.len() && (#[trigger] shorter[i]).0 == key;
            assert(entries[i].0 == key);
        }
        if entries.last().0 == key {
            assert(entries[entries.len() - 1].0 == key);
        }
        if exists|i: int| 0 <= i < entries.len() && (#[trigger] entries[i]).0 == key {
            let i = choose|i: int| 0 <= i < entries.len() && (#[trigger] entries[i]).0 == key;
            if i < shorter.len() {
                assert(shorter[i].0 == key);
            }
        }
    }
}

proof fn lemma_entry_value(entries: Seq<(Seq<char>, Option<Seq<char>>)>, at: int)
    requires
        distinct_keys(entries),
        0 <= at < entries.len(),
    ensures
        entry_map(entries).contains_key(entries[at].0),
        entry_map(entries)[entries[at].0] == entries[at].1,
    decreases entries.len(),
{
    if at < entries.len() - 1 {
        let shorter = entries.drop_last();
        assert(distinct_keys(shorter)) by {
            assert forall|i: int, j: int| 0 <= i < j < shorter.len() implies (
            #[trigger] shorter[i]).0 != (#[trigger] shorter[j]).0 by {
                assert(entries[i].0 != entries[j].0);
            }
        }
        lemma_entry_value(shorter, at);
        assert(entries[at].0 != entries[entries.len() - 1].0);
    }
}

proof fn lemma_entry_update(
    entries: Seq<(Seq<char>, Option<Seq<char>>)>,
    at: int,
    value: Option<Seq<char>>,
)
    requires
        distinct_keys(entries),
        0 <= at < entries.len(),
    ensures
        entry_map(entries.update(at, (entries[at].0, value))) == entry_map(entries).insert(
            entries[at].0,
            value,
        ),
        distinct_keys(entries.update(at, (entries[at].0, value))),
    decreases entries.len(),
{
    let updated = entries.update(at, (entries[at].0, value));
    let shorter = entries.drop_last();
    assert(distinct_keys(shorter)) by {
        assert forall|i: int, j: int| 0 <= i < j < shorter.len() implies (
        #[trigger] shorter[i]).0 != (#[trigger] shorter[j]).0 by {
            assert(entries[i].0 != entries[j].0);
        }
    }
    assert forall|i: int, j: int| 0 <= i < j < updated.len() implies (#[trigger] updated[i]).0 != (
    #[trigger] updated[j]).0 by {
        assert(updated[i].0 == entries[i].0 && updated[j].0 == entries[j].0);
    }
    if at < entries.len() - 1 {
        lemma_entry_update(shorter, at, value);
        assert(updated.drop_last() =~= shorter.update(at, (shorter[at].0, value)));
        assert(entries[at].0 != entries[entries.len() - 1].0);
        assert(entry_map(updated) =~= entry_map(entries).insert(entries[at].0, value));
    } else {
        assert(updated.drop_last() =~= shorter);
        assert(entry_map(updated) =~= entry_map(entries).insert(entries[at].0, value));
    }
}

impl TitleCache {
    #[verifier::type_invariant]
    closed spec fn has_distinct_keys(self) -> bool {
        distinct_keys(entry_views(self.entries@))
    }

    /// A cache that holds nothing.
    pub fn new() -> (cache: TitleCache)
        ensures
            cache@ == Map::<Seq<char>, Option<Seq<char>>>::empty(),
    {
        let entries: Vec<(String, Option<String>)> = Vec::new();
        assert(entry_views(entries@) =~= Seq::empty());
        TitleCache { entries }
    }

    /// A cache of entries; of two with the same key the later one counts.
    pub fn from_entries(entries: Vec<(String, Option<String>)>) -> (cache: TitleCache)
        ensures
            cache@ == entry_map(entry_views(entries@)),
    {
        let ghost all = entry_views(entries@);
        let ghost pairs = entries@;
        let mut cache = TitleCache::new();
        assert(all.take(0) =~= Seq::empty());
        for entry in it: entries
            invariant
                it.seq() == pairs,
                all == entry_views(pairs),
                cache@ == entry_map(all.take(it.index())),
        {
            assert(all.take(it.index() + 1).drop_last() =~= all.take(it.index()));
            assert(all.take(it.index() + 1).last() == (entry.0@, optional_view(entry.1)));
            cache.put(entry.0, entry.1);
        }
        assert(all.take(all.len() as int) =~= all);
        cache
    }

    /// The entries of a cache.
    pub fn to_entries(&self) -> (entries: Vec<(String, Option<String>)>)
        ensures
            entry_map(entry_views(entries@)) == self@,
            distinct_keys(entry_views(entries@)),
    {
        proof {
            use_type_invariant(self);
        }
        let mut entries: Vec<(String, Option<String>)> = Vec::new();
        let mut i: usize = 0;
        while i < self.entries.len()
            invariant
                i <= self.entries@.len(),
                entry_views(entries@) == entry_views(self.entries@).take(i as int),
            decreases self.entries@.len() - i,
        {
            let ghost before = entry_views(entries@);
            let entry = &self.entries[i];
            let value = copied(&entry.1);
            entries.push((entry.0.clone(), value));
            assert(entry_views(entries@) =~= before.push((entry.0@, optional_view(entry.1))));
            assert(entry_views(self.entries@).take(i + 1) =~= before.push(
                (entry.0@, optional_view(entry.1)),
            ));
            i = i + 1;
        }
        assert(entry_views(self.entries@).take(self.entries@.len() as int) =~= entry_views(
            self.entries@,
        ));
        entries
    }

    fn position(&self, key: &str) -> (at: usize)
        ensures
            at <= self.entries@.len(),
            at < self.entries@.len() ==> self.entries@[at as int].0@ == key@,
            at == self.entries@.len() ==> !self@.contains_key(key@),
    {
        let mut at: usize = 0;
        while at < self.entries.len() && !same_text(self.entries[at].0.as_str(), key)
            invariant
                at <= self.entries@.len(),
                forall|k: int| 0 <= k < at ==> (#[trigger] self.entries@[k]).0@ != key@,
            decreases self.entries@.len() - at,
        {
            at = at + 1;
        }
        proof {
            let all = entry_views(self.entries@);
            lemma_entry_keys(all, key@);
            if at == all.len() && all.len() > 0 && entry_map(all).contains_key(key@) {
                let i = choose|i: int| 0 <= i < all.len() && (#[trigger] all[i]).0 == key@;
                assert(self.entries@[i].0@ != key@);
            }
        }
        at
    }

    /// What the cache holds under `key`.
    pub fn get(&self, key: &str) -> (value: Option<Option<String>>)
        ensures
            value is Some <==> self@.contains_key(key@),
            value matches Some(value) ==> optional_view(value) == self@[key@],
    {
        proof {
            use_type_invariant(self);
        }
        let at = self.position(key);
        if at < self.entries.len() {
            proof {
                lemma_entry_value(entry_views(self.entries@), at as int);
            }
            Some(copied(&self.entries[at].1))
        } else {
            None
        }
    }

    /// Puts `value` under `key`.
    pub fn put(&mut self, key: String, value: Option<String>)
        ensures
            final(self)@ == old(self)@.insert(key@, optional_view(value)),
    {
        proof {
            use_type_invariant(&*self);
        }
        let at = self.position(key.as_str());
        let ghost before = entry_views(self.entries@);
        let mut entries: Vec<(String, Option<String>)> = Vec::new();
        std::mem::swap(&mut entries, &mut self.entries);
        let ghost key_text = key@;
        let ghost value_text = optional_view(value);
        if at < entries.len() {
            entries.set(at, (key, value));
            proof {
                lemma_entry_update(before, at as int, value_text);
                assert(entry_views(entries@) =~= before.update(at as int, (key_text, value_text)));
            }
        } else {
            entries.push((key, value));
            proof {
                let after = entry_views(entries@);
                assert(after =~= before.push((key_text, value_text)));
                assert(after.drop_last() =~= before);
                lemma_entry_keys(before, key_text);
                assert forall|i: int, j: int| 0 <= i < j < after.len() implies (
                #[trigger] after[i]).0 != (#[trigger] after[j]).0 by {
                    assert(after[i] == before[i]);
                    if j < before.len() {
                        assert(after[j] == before[j]);
                    }
                }
            }
        }
        self.entries = entries;
    }
}

/// A copy of an optional text.
pub fn copied(text: &Option<String>) -> (copy: Option<String>)
    ensures
        optional_view(copy) == optional_view(*text),
{
    match text {
        Some(text) => Some(text.clone()),
        None => None,
    }
}

/// Of entries with the same key the last one counts, and every other entry stays.
pub proof fn law_later_entries_count(
    entries: Seq<(Seq<char>, Option<Seq<char>>)>,
    key: Seq<char>,
    value: Option<Seq<char>>,
    other: Seq<char>,
)
    ensures
        ({
            let after = entry_map(entries.push((key, value)));
            &&& after.contains_key(key) && after[key] == value
            &&& other != key ==> after.contains_key(other) == entry_map(entries).contains_key(other)
            &&& other != key && entry_map(entries).contains_key(other) ==> after[other]
                == entry_map(entries)[other]
        }),
        !entry_map(Seq::empty()).contains_key(key),
{
    assert(entries.push((key, value)).drop_last() =~= entries);
}

} // verus!
