//! The order of texts, sets of texts, sorting by rank, and walking maps.

use std::collections::HashMap;

use vstd::prelude::*;

use crate::text::{chars_of, same_text, views};

verus! {

// ---------------------------------------------------------------------------
// The order of texts
// ---------------------------------------------------------------------------

/// Whether `left` stands before `right`: texts are ordered by their first
/// differing character, and a text stands before its own extensions.
pub open spec fn text_before(left: Seq<char>, right: Seq<char>) -> bool
    decreases left.len(),
{
    if right.len() == 0 {
        false
    } else if left.len() == 0 {
        true
    } else if left[0] != right[0] {
        left[0] < right[0]
    } else {
        text_before(left.drop_first(), right.drop_first())
    }
}

/// Whether each text of `list` stands before all that follow it.
pub open spec fn ascending(list: Seq<Seq<char>>) -> bool {
    forall|i: int, j: int|
        0 <= i < j < list.len() ==> text_before(#[trigger] list[i], #[trigger] list[j])
}

/// The texts of a set in ascending order.
pub open spec fn sorted_listing(texts: Set<Seq<char>>) -> Seq<Seq<char>> {
    choose|list: Seq<Seq<char>>| #[trigger] ascending(list) && list.to_set() == texts
}

/// No text stands before itself.
pub proof fn lemma_before_irreflexive(text: Seq<char>)
    ensures
        !text_before(text, text),
    decreases text.len(),
{
    if text.len() > 0 {
        lemma_before_irreflexive(text.drop_first());
    }
}

/// What stands before a text stands before all that the text stands before.
pub proof fn lemma_before_transitive(a: Seq<char>, b: Seq<char>, c: Seq<char>)
    requires
        text_before(a, b),
        text_before(b, c),
    ensures
        text_before(a, c),
    decreases a.len(),
{
    if a.len() > 0 && a[0] == b[0] && b[0] == c[0] {
        lemma_before_transitive(a.drop_first(), b.drop_first(), c.drop_first());
    }
}

/// Of two different texts one stands before the other.
pub proof fn lemma_before_total(a: Seq<char>, b: Seq<char>)
    requires
        a != b,
    ensures
        text_before(a, b) || text_before(b, a),
    decreases a.len(),
{
    if a.len() > 0 && b.len() > 0 {
        if a[0] == b[0] {
            if a.drop_first() == b.drop_first() {
                assert(a =~= seq![a[0]] + a.drop_first());
                assert(b =~= seq![b[0]] + b.drop_first());
            }
            lemma_before_total(a.drop_first(), b.drop_first());
        }
    } else if a.len() == 0 && b.len() == 0 {
        assert(a =~= b);
    }
}

/// An ascending list holds nothing twice.
pub proof fn lemma_ascending_distinct(list: Seq<Seq<char>>)
    requires
        ascending(list),
    ensures
        list.no_duplicates(),
{
    assert forall|i: int, j: int|
        0 <= i < list.len() && 0 <= j < list.len() && i != j implies list[i] != list[j] by {
        lemma_before_irreflexive(list[i]);
        if i < j {
            assert(text_before(list[i], list[j]));
        } else {
            assert(text_before(list[j], list[i]));
        }
    }
}

/// Whether each value of `list` stands before all that follow it.
pub open spec fn strictly_sorted<A>(list: Seq<A>, before: spec_fn(A, A) -> bool) -> bool {
    forall|i: int, j: int|
        #![trigger list[i], list[j]]
        0 <= i < j < list.len() ==> before(list[i], list[j])
}

/// Two lists of the same values that are sorted by the same strict order are
/// the same list.
pub proof fn lemma_sorted_unique<A>(
    left: Seq<A>,
    right: Seq<A>,
    before: spec_fn(A, A) -> bool,
)
    requires
        strictly_sorted(left, before),
        strictly_sorted(right, before),
        forall|a: A| !#[trigger] before(a, a),
        forall|a: A, b: A, c: A|
            #[trigger] before(a, b) && #[trigger] before(b, c) ==> before(a, c),
        left.to_set() == right.to_set(),
    ensures
        left == right,
    decreases left.len(),
{
    if left.len() == 0 {
        if right.len() > 0 {
            assert(right.to_set().contains(right[0]));
            assert(left.to_set().contains(right[0]));
        }
        assert(left =~= right);
    } else if right.len() == 0 {
        assert(left.to_set().contains(left[0]));
        assert(right.to_set().contains(left[0]));
    } else {
        let a = left.last();
        let b = right.last();
        assert(left.to_set().contains(a) && right.to_set().contains(b));
        assert(right.to_set().contains(a) && left.to_set().contains(b));
        let i = choose|i: int| 0 <= i < right.len() && right[i] == a;
        let j = choose|j: int| 0 <= j < left.len() && left[j] == b;
        if a != b {
            assert(before(right[i], right[right.len() - 1]));
            assert(before(left[j], left[left.len() - 1]));
        }
        let l = left.drop_last();
        let r = right.drop_last();
        assert forall|t: A| l.to_set().contains(t) == r.to_set().contains(t) by {
            lemma_drop_last_to_set(left, before, t);
            lemma_drop_last_to_set(right, before, t);
        }
        assert(l.to_set() =~= r.to_set());
        lemma_sorted_unique(l, r, before);
        assert(left =~= l.push(a));
        assert(right =~= r.push(b));
    }
}

proof fn lemma_drop_last_to_set<A>(list: Seq<A>, before: spec_fn(A, A) -> bool, value: A)
    requires
        list.len() > 0,
        strictly_sorted(list, before),
        forall|a: A| !#[trigger] before(a, a),
    ensures
        list.drop_last().to_set().contains(value) == (list.to_set().contains(value) && value
            != list.last()),
{
    let shorter = list.drop_last();
    if shorter.to_set().contains(value) {
        let k = choose|k: int| 0 <= k < shorter.len() && shorter[k] == value;
        assert(list[k] == value);
        assert(before(list[k], list[list.len() - 1]));
    }
    if list.to_set().contains(value) && value != list.last() {
        let k = choose|k: int| 0 <= k < list.len() && list[k] == value;
        assert(shorter[k] == value);
    }
}

/// Two ascending lists of the same texts are the same list.
pub proof fn lemma_ascending_unique(left: Seq<Seq<char>>, right: Seq<Seq<char>>)
    requires
        ascending(left),
        ascending(right),
        left.to_set() == right.to_set(),
    ensures
        left == right,
{
    let before = |a: Seq<char>, b: Seq<char>| text_before(a, b);
    assert forall|a: Seq<char>| !#[trigger] before(a, a) by {
        lemma_before_irreflexive(a);
    }
    assert forall|a: Seq<char>, b: Seq<char>, c: Seq<char>|
        #[trigger] before(a, b) && #[trigger] before(b, c) implies before(a, c) by {
        lemma_before_transitive(a, b, c);
    }
    assert(strictly_sorted(left, before));
    assert(strictly_sorted(right, before));
    lemma_sorted_unique(left, right, before);
}

/// An ascending list is the listing of its own texts.
pub proof fn lemma_sorted_listing(list: Seq<Seq<char>>)
    requires
        ascending(list),
    ensures
        sorted_listing(list.to_set()) == list,
{
    let listing = sorted_listing(list.to_set());
    assert(ascending(list) && list.to_set() == list.to_set());
    assert(ascending(listing) && listing.to_set() == list.to_set());
    lemma_ascending_unique(listing, list);
}

/// A finite set of texts has a listing in ascending order.
pub proof fn lemma_listing_exists(texts: Set<Seq<char>>)
    requires
        texts.finite(),
    ensures
        ascending(sorted_listing(texts)),
        sorted_listing(texts).to_set() == texts,
    decreases texts.len(),
{
    if texts.len() == 0 {
        let list = Seq::<Seq<char>>::empty();
        assert(ascending(list));
        assert(list.to_set() =~= texts);
    } else {
        let text = texts.choose();
        lemma_listing_exists(texts.remove(text));
        let list = sorted_listing(texts.remove(text));
        let at = lemma_place(list, text);
        lemma_inserted(list, at, text);
        assert(list.insert(at, text).to_set() =~= texts);
    }
}

/// The place of a text among others in ascending order.
proof fn lemma_place(list: Seq<Seq<char>>, text: Seq<char>) -> (at: int)
    requires
        ascending(list),
        !list.to_set().contains(text),
    ensures
        0 <= at <= list.len(),
        forall|k: int| 0 <= k < at ==> text_before(#[trigger] list[k], text),
        at < list.len() ==> text_before(text, list[at]),
    decreases list.len(),
{
    if list.len() == 0 {
        0
    } else {
        let shorter = list.drop_last();
        assert(!shorter.to_set().contains(text)) by {
            if shorter.contains(text) {
                let k = shorter.index_of(text);
                assert(list[k] == text);
            }
        }
        assert(ascending(shorter)) by {
            assert forall|i: int, j: int| 0 <= i < j < shorter.len() implies text_before(
                #[trigger] shorter[i],
                #[trigger] shorter[j],
            ) by {
                assert(text_before(list[i], list[j]));
            }
        }
        let at = lemma_place(shorter, text);
        assert forall|k: int| 0 <= k < at implies text_before(#[trigger] list[k], text) by {
            assert(shorter[k] == list[k]);
        }
        if at < shorter.len() {
            assert(shorter[at] == list[at]);
            at
        } else {
            assert(list[list.len() - 1] == list.last());
            lemma_before_total(list.last(), text);
            if text_before(list.last(), text) {
                list.len() as int
            } else {
                at
            }
        }
    }
}

/// Whether `left` stands before `right`.
pub fn is_before(left: &str, right: &str) -> (before: bool)
    ensures
        before == text_before(left@, right@),
{
    let a = chars_of(left);
    let b = chars_of(right);
    let mut i: usize = 0;
    assert(a@.skip(0) =~= a@);
    assert(b@.skip(0) =~= b@);
    while i < a.len() && i < b.len() && a[i] == b[i]
        invariant
            i <= a@.len(),
            i <= b@.len(),
            text_before(a@, b@) == text_before(a@.skip(i as int), b@.skip(i as int)),
        decreases a@.len() - i,
    {
        assert(a@.skip(i as int).drop_first() =~= a@.skip(i + 1));
        assert(b@.skip(i as int).drop_first() =~= b@.skip(i + 1));
        i = i + 1;
    }
    if i >= b.len() {
        false
    } else if i >= a.len() {
        true
    } else {
        a[i] < b[i]
    }
}

// ---------------------------------------------------------------------------
// Sets of texts
// ---------------------------------------------------------------------------

/// A set of texts, held in ascending order.
#[derive(Debug)]
pub struct TextSet {
    items: Vec<String>,
}

impl View for TextSet {
    type V = Set<Seq<char>>;

    closed spec fn view(&self) -> Set<Seq<char>> {
        views(self.items@).to_set()
    }
}

proof fn lemma_inserted(list: Seq<Seq<char>>, at: int, text: Seq<char>)
    requires
        ascending(list),
        0 <= at <= list.len(),
        forall|k: int| 0 <= k < at ==> text_before(#[trigger] list[k], text),
        at < list.len() ==> text_before(text, list[at]),
    ensures
        ascending(list.insert(at, text)),
        list.insert(at, text).to_set() == list.to_set().insert(text),
        !list.to_set().contains(text),
{
    let longer = list.insert(at, text);
    assert forall|k: int| at <= k < list.len() implies text_before(text, #[trigger] list[k]) by {
        if k > at {
            lemma_before_transitive(text, list[at], list[k]);
        }
    }
    assert forall|i: int, j: int| 0 <= i < j < longer.len() implies text_before(
        #[trigger] longer[i],
        #[trigger] longer[j],
    ) by {
        let a = if i < at { i } else { i - 1 };
        let b = if j < at { j } else { j - 1 };
        if i == at {
            assert(longer[j] == list[b]);
        } else if j == at {
            assert(longer[i] == list[a]);
        } else {
            assert(longer[i] == list[a] && longer[j] == list[b]);
        }
    }
    assert forall|t: Seq<char>| longer.to_set().contains(t) == list.to_set().insert(
        text,
    ).contains(t) by {
        if longer.to_set().contains(t) {
            let k = choose|k: int| 0 <= k < longer.len() && longer[k] == t;
            if k < at {
                assert(list[k] == t);
            } else if k > at {
                assert(list[k - 1] == t);
            }
        }
        if t == text {
            assert(longer[at] == t);
        } else if list.to_set().contains(t) {
            let k = choose|k: int| 0 <= k < list.len() && list[k] == t;
            if k < at {
                assert(longer[k] == t);
            } else {
                assert(longer[k + 1] == t);
            }
        }
    }
    assert(longer.to_set() =~= list.to_set().insert(text));
    if list.to_set().contains(text) {
        let k = choose|k: int| 0 <= k < list.len() && list[k] == text;
        assert(text_before(list[k], text) || text_before(text, list[k]));
        lemma_before_irreflexive(text);
    }
}

impl TextSet {
    #[verifier::type_invariant]
    closed spec fn in_order(self) -> bool {
        ascending(views(self.items@))
    }

    /// A set that holds nothing.
    pub fn new() -> (set: TextSet)
        ensures
            set@ == Set::<Seq<char>>::empty(),
    {
        let items: Vec<String> = Vec::new();
        assert(views(items@).to_set() =~= Set::<Seq<char>>::empty());
        TextSet { items }
    }

    /// The number of texts in the set.
    pub fn len(&self) -> (count: usize)
        ensures
            self@.finite(),
            count == self@.len(),
    {
        proof {
            use_type_invariant(self);
            lemma_ascending_distinct(views(self.items@));
            views(self.items@).unique_seq_to_set();
        }
        self.items.len()
    }

    /// Whether `text` is in the set.
    pub fn contains(&self, text: &str) -> (found: bool)
        ensures
            found == self@.contains(text@),
    {
        let mut i: usize = 0;
        while i < self.items.len()
            invariant
                i <= self.items@.len(),
                forall|k: int| 0 <= k < i ==> (#[trigger] self.items@[k])@ != text@,
            decreases self.items@.len() - i,
        {
            if same_text(self.items[i].as_str(), text) {
                assert(views(self.items@)[i as int] == text@);
                return true;
            }
            i = i + 1;
        }
        false
    }

    /// Adds `text`, and says whether it was new.
    pub fn insert(&mut self, text: String) -> (added: bool)
        ensures
            final(self)@ == old(self)@.insert(text@),
            added == !old(self)@.contains(text@),
    {
        proof {
            use_type_invariant(&*self);
        }
        let mut items: Vec<String> = Vec::new();
        std::mem::swap(&mut items, &mut self.items);
        let ghost list = views(items@);
        let mut at: usize = 0;
        while at < items.len() && is_before(items[at].as_str(), text.as_str())
            invariant
                at <= items@.len(),
                list == views(items@),
                forall|k: int| 0 <= k < at ==> text_before(#[trigger] list[k], text@),
            decreases items@.len() - at,
        {
            at = at + 1;
        }
        if at < items.len() && items[at] == text {
            proof {
                assert(list[at as int] == text@);
                assert(list.to_set() =~= list.to_set().insert(text@));
            }
            self.items = items;
            return false;
        }
        proof {
            if at < items@.len() {
                lemma_before_total(list[at as int], text@);
            }
            lemma_inserted(list, at as int, text@);
        }
        let ghost added_text = text@;
        items.insert(at, text);
        assert(views(items@) =~= list.insert(at as int, added_text));
        self.items = items;
        true
    }

    /// Adds all texts of `other`.
    pub fn extend(&mut self, other: &TextSet)
        ensures
            final(self)@ == old(self)@.union(other@),
    {
        let ghost base = self@;
        let ghost more = views(other.items@);
        let mut i: usize = 0;
        assert(more.take(0).to_set() =~= Set::<Seq<char>>::empty());
        assert(self@ =~= base.union(more.take(0).to_set()));
        while i < other.items.len()
            invariant
                i <= other.items@.len(),
                more == views(other.items@),
                self@ == base.union(more.take(i as int).to_set()),
            decreases other.items@.len() - i,
        {
            let ghost before = self@;
            self.insert(other.items[i].clone());
            proof {
                lemma_take_to_set(more, i as int);
                assert(self@ =~= base.union(more.take(i + 1).to_set()));
            }
            i = i + 1;
        }
        assert(more.take(more.len() as int) =~= more);
    }

    /// The texts of the set in ascending order.
    pub fn to_list(&self) -> (list: Vec<String>)
        ensures
            views(list@) == sorted_listing(self@),
            ascending(views(list@)),
            views(list@).to_set() == self@,
    {
        proof {
            use_type_invariant(self);
            lemma_sorted_listing(views(self.items@));
        }
        let mut list: Vec<String> = Vec::new();
        let mut i: usize = 0;
        while i < self.items.len()
            invariant
                i <= self.items@.len(),
                views(list@) == views(self.items@).take(i as int),
            decreases self.items@.len() - i,
        {
            let ghost before = views(list@);
            list.push(self.items[i].clone());
            assert(views(list@) =~= before.push(self.items@[i as int]@));
            assert(views(self.items@).take(i + 1) =~= before.push(self.items@[i as int]@));
            i = i + 1;
        }
        assert(views(self.items@).take(self.items@.len() as int) =~= views(self.items@));
        list
    }

    /// The number of texts that both sets hold.
    pub fn overlap(&self, other: &TextSet) -> (count: usize)
        ensures
            count == self@.intersect(other@).len(),
    {
        let ghost list = views(self.items@);
        proof {
            use_type_invariant(self);
            lemma_ascending_distinct(list);
        }
        let mut count: usize = 0;
        let mut i: usize = 0;
        assert(list.take(0).to_set().intersect(other@) =~= Set::<Seq<char>>::empty());
        while i < self.items.len()
            invariant
                i <= self.items@.len(),
                count <= i,
                list == views(self.items@),
                list.no_duplicates(),
                list.take(i as int).to_set().intersect(other@).finite(),
                count == list.take(i as int).to_set().intersect(other@).len(),
            decreases self.items@.len() - i,
        {
            proof {
                lemma_take_to_set(list, i as int);
                let so_far = list.take(i as int).to_set();
                let text = list[i as int];
                assert(!so_far.contains(text)) by {
                    if so_far.contains(text) {
                        let k = choose|k: int| 0 <= k < i && list.take(i as int)[k] == text;
                        assert(list[k] == text);
                    }
                }
                if other@.contains(text) {
                    assert(so_far.insert(text).intersect(other@) =~= so_far.intersect(
                        other@,
                    ).insert(text));
                } else {
                    assert(so_far.insert(text).intersect(other@) =~= so_far.intersect(other@));
                }
            }
            if other.contains(self.items[i].as_str()) {
                count = count + 1;
            }
            i = i + 1;
        }
        assert(list.take(list.len() as int) =~= list);
        count
    }
}

impl Clone for TextSet {
    fn clone(&self) -> (copy: TextSet)
        ensures
            copy@ == self@,
    {
        let mut copy = TextSet::new();
        copy.extend(self);
        assert(copy@ =~= self@);
        copy
    }
}

pub proof fn lemma_take_to_set<A>(list: Seq<A>, count: int)
    requires
        0 <= count < list.len(),
    ensures
        list.take(count + 1).to_set() == list.take(count).to_set().insert(list[count]),
{
    let longer = list.take(count + 1);
    let shorter = list.take(count);
    assert forall|t: A| longer.to_set().contains(t) == shorter.to_set().insert(
        list[count],
    ).contains(t) by {
        if longer.to_set().contains(t) {
            let k = choose|k: int| 0 <= k < longer.len() && longer[k] == t;
            if k < count {
                assert(shorter[k] == t);
            }
        }
        if t == list[count] {
            assert(longer[count] == t);
        } else if shorter.to_set().contains(t) {
            let k = choose|k: int| 0 <= k < shorter.len() && shorter[k] == t;
            assert(longer[k] == t);
        }
    }
    assert(longer.to_set() =~= shorter.to_set().insert(list[count]));
}

// ---------------------------------------------------------------------------
// Sorting by rank
// ---------------------------------------------------------------------------

/// Values with a rank.
pub trait Ranked: Sized {
    /// Whether `self` ranks before `other`.
    spec fn ranks_before(&self, other: &Self) -> bool;

    /// Ranking before is transitive.
    proof fn lemma_ranks_transitive(a: &Self, b: &Self, c: &Self)
        requires
            a.ranks_before(b),
            b.ranks_before(c),
        ensures
            a.ranks_before(c),
    ;

    /// Nothing ranks before itself.
    proof fn lemma_ranks_irreflexive(a: &Self)
        ensures
            !a.ranks_before(a),
    ;

    /// Whether `self` ranks before `other`.
    fn is_ranked_before(&self, other: &Self) -> (before: bool)
        ensures
            before == self.ranks_before(other),
    ;
}

/// Whether no value of `list` ranks before one that it follows.
pub open spec fn in_rank_order<T: Ranked>(list: Seq<T>) -> bool {
    forall|i: int, j: int|
        #![trigger list[i], list[j]]
        0 <= i < j < list.len() ==> !list[j].ranks_before(&list[i])
}

/// The values of `items` in the order of their ranks.
pub fn sort_by_rank<T: Ranked>(items: Vec<T>) -> (sorted: Vec<T>)
    ensures
        in_rank_order(sorted@),
        sorted@.to_multiset() == items@.to_multiset(),
{
    let mut sorted: Vec<T> = Vec::new();
    let ghost all = items@;
    assert(all.take(0) =~= sorted@);
    for item in it: items
        invariant
            it.seq() == all,
            in_rank_order(sorted@),
            sorted@.to_multiset() == all.take(it.index()).to_multiset(),
    {
        let ghost done = it.index();
        let mut at: usize = 0;
        while at < sorted.len() && !item.is_ranked_before(&sorted[at])
            invariant
                at <= sorted@.len(),
                forall|k: int|
                    #![trigger sorted@[k]]
                    0 <= k < at ==> !item.ranks_before(&sorted@[k]),
            decreases sorted@.len() - at,
        {
            at = at + 1;
        }
        let ghost before = sorted@;
        proof {
            assert forall|k: int|
                #![trigger before[k]]
                at <= k < before.len() implies !before[k].ranks_before(&item) by {
                if before[k].ranks_before(&item) {
                    T::lemma_ranks_transitive(&before[k], &item, &before[at as int]);
                    T::lemma_ranks_irreflexive(&before[k]);
                }
            }
        }
        sorted.insert(at, item);
        proof {
            assert forall|i: int, j: int|
                #![trigger sorted@[i], sorted@[j]]
                0 <= i < j < sorted@.len() implies !sorted@[j].ranks_before(&sorted@[i]) by {
                let a = if i < at { i } else { i - 1 };
                let b = if j < at { j } else { j - 1 };
                if i != at {
                    assert(sorted@[i] == before[a]);
                }
                if j != at {
                    assert(sorted@[j] == before[b]);
                }
            }
            assert(sorted@ == before.insert(at as int, item));
            vstd::seq_lib::to_multiset_insert(before, at as int, item);
            vstd::seq_lib::to_multiset_build(all.take(done), item);
            assert(all.take(done + 1) =~= all.take(done).push(item));
        }
    }
    assert(all.take(all.len() as int) =~= all);
    sorted
}

/// Two lists that hold the same values equally often have the same length,
/// the same values, and both or neither of them a value twice.
pub proof fn lemma_same_multiset<A>(left: Seq<A>, right: Seq<A>)
    requires
        left.to_multiset() == right.to_multiset(),
    ensures
        left.len() == right.len(),
        forall|a: A| left.contains(a) == right.contains(a),
        left.no_duplicates() ==> right.no_duplicates(),
{
    vstd::seq_lib::to_multiset_len(left);
    vstd::seq_lib::to_multiset_len(right);
    assert forall|a: A| left.contains(a) == right.contains(a) by {
        vstd::seq_lib::to_multiset_contains(left, a);
        vstd::seq_lib::to_multiset_contains(right, a);
    }
    if left.no_duplicates() {
        left.lemma_multiset_has_no_duplicates();
        right.lemma_multiset_has_no_duplicates_conv();
    }
}

// ---------------------------------------------------------------------------
// Walking maps
// ---------------------------------------------------------------------------

/// Whether `order` lists the keys of a map, each once.
pub open spec fn walks<V>(order: Seq<u64>, map: Map<u64, V>) -> bool {
    order.no_duplicates() && order.to_set() == map.dom()
}

/// The keys of a map, in the order in which the map is walked.
pub fn walked_keys<V>(map: &HashMap<u64, V>) -> (order: Vec<u64>)
    ensures
        walks(order@, map@),
{
    broadcast use vstd::std_specs::hash::group_hash_axioms;

    let mut order: Vec<u64> = Vec::new();
    let keys = map.keys();
    let ghost all = vstd::std_specs::iter::IteratorSpec::remaining(&keys).unref();
    for id in it: keys
        invariant
            it.seq().unref() == all,
            order@ == all.take(it.index()),
    {
        assert(*id == all[order@.len() as int]);
        order.push(*id);
        assert(order@ =~= all.take(it.index() + 1));
    }
    assert(all.take(all.len() as int) =~= all);
    order
}

/// Texts are ordered by the first character in which they differ, and a text
/// stands before those that go on after it.
pub proof fn law_first_difference_decides(left: Seq<char>, right: Seq<char>, at: int)
    requires
        0 <= at <= left.len(),
        at <= right.len(),
        forall|k: int| 0 <= k < at ==> left[k] == #[trigger] right[k],
        at < left.len() && at < right.len() ==> left[at] != right[at],
    ensures
        at < left.len() && at < right.len() ==> text_before(left, right) == (left[at] < right[at]),
        at == left.len() ==> text_before(left, right) == (left.len() < right.len()),
        at == right.len() ==> !text_before(left, right),
    decreases at,
{
    if at > 0 {
        assert(left[0] == right[0]);
        assert forall|k: int| 0 <= k < at - 1 implies left.drop_first()[k]
            == #[trigger] right.drop_first()[k] by {
            assert(left[k + 1] == right[k + 1]);
        }
        law_first_difference_decides(left.drop_first(), right.drop_first(), at - 1);
    }
}

} // verus!
