//! Strings in order, and maps from strings to strings that keep their keys in
//! order.
use crate::text::{chars_of, same_text, texts};
use vstd::prelude::*;

verus! {

/// `left` comes before `right` by the first character in which they differ;
/// a text comes before its continuations.
pub open spec fn text_before(left: Seq<char>, right: Seq<char>) -> bool
    decreases left.len(),
{
    if right.len() == 0 {
        false
    } else if left.len() == 0 {
        true
    } else {
        left[0] < right[0] || (left[0] == right[0] && text_before(
            left.drop_first(),
            right.drop_first(),
        ))
    }
}

pub proof fn lemma_text_before_total(left: Seq<char>, right: Seq<char>)
    ensures
        !text_before(left, left),
        left != right ==> text_before(left, right) || text_before(right, left),
        !(text_before(left, right) && text_before(right, left)),
    decreases left.len(),
{
    if left.len() > 0 {
        lemma_text_before_total(left.drop_first(), left.drop_first());
    }
    if left.len() > 0 && right.len() > 0 {
        lemma_text_before_total(left.drop_first(), right.drop_first());
        if left[0] == right[0] && left.drop_first() == right.drop_first() {
            assert(left == seq![left[0]] + left.drop_first());
            assert(right == seq![right[0]] + right.drop_first());
        }
    } else if left.len() == 0 && right.len() == 0 {
        assert(left == right);
    }
}

pub proof fn lemma_text_before_transitive(a: Seq<char>, b: Seq<char>, c: Seq<char>)
    requires
        text_before(a, b),
        text_before(b, c),
    ensures
        text_before(a, c),
    decreases a.len(),
{
    if a.len() > 0 && a[0] == b[0] && b[0] == c[0] {
        lemma_text_before_transitive(a.drop_first(), b.drop_first(), c.drop_first());
    }
}

pub enum Place {
    Before,
    Same,
    After,
}

/// Where the first string stands with respect to the second.
pub fn place_of(left: &str, right: &str) -> (place: Place)
    ensures
        match place {
            Place::Before => text_before(left@, right@),
            Place::Same => left@ == right@,
            Place::After => text_before(right@, left@),
        },
{
    let left_chars = chars_of(left);
    let right_chars = chars_of(right);
    let mut i: usize = 0;
    let ghost l = left@;
    let ghost r = right@;
    assert(l.skip(0) == l && r.skip(0) == r);
    while i < left_chars.len() && i < right_chars.len()
        invariant
            i <= l.len(),
            i <= r.len(),
            l == left@,
            r == right@,
            l == left_chars@,
            r == right_chars@,
            l.take(i as int) == r.take(i as int),
            text_before(l, r) == text_before(l.skip(i as int), r.skip(i as int)),
            text_before(r, l) == text_before(r.skip(i as int), l.skip(i as int)),
        decreases l.len() - i,
    {
        if left_chars[i] < right_chars[i] {
            return Place::Before;
        }
        if right_chars[i] < left_chars[i] {
            return Place::After;
        }
        assert(l.skip(i as int).drop_first() == l.skip(i + 1));
        assert(r.skip(i as int).drop_first() == r.skip(i + 1));
        assert(l.take(i + 1) == l.take(i as int).push(l[i as int]));
        assert(r.take(i + 1) == r.take(i as int).push(r[i as int]));
        i += 1;
    }
    if left_chars.len() == right_chars.len() {
        assert(l.take(i as int) == l && r.take(i as int) == r);
        Place::Same
    } else if i == left_chars.len() {
        Place::Before
    } else {
        Place::After
    }
}

// ---------------------------------------------------------------------------
// Sets of strings
// ---------------------------------------------------------------------------

/// The strings stand in order, none of them twice.
pub open spec fn in_order(items: Seq<String>) -> bool {
    forall|i: int, j: int|
        0 <= i < j < items.len() ==> text_before(#[trigger] items[i]@, #[trigger] items[j]@)
}

pub open spec fn holds(items: Seq<String>, text: Seq<char>) -> bool {
    exists|i: int| 0 <= i < items.len() && #[trigger] items[i]@ == text
}

/// Adds a string to a set that is kept in order.
pub fn insert_in_order(items: &mut Vec<String>, text: &str)
    requires
        in_order(old(items)@),
    ensures
        in_order(final(items)@),
        forall|other: Seq<char>| #[trigger]
            holds(final(items)@, other) <==> holds(old(items)@, other) || other == text@,
{
    let ghost before = items@;
    let mut at: usize = 0;
    while at < items.len()
        invariant
            at <= items@.len(),
            items@ == before,
            in_order(before),
            forall|k: int| 0 <= k < at ==> text_before(#[trigger] before[k]@, text@),
            before == old(items)@,
        ensures
            at < items@.len() ==> text_before(text@, before[at as int]@),
        decreases items@.len() - at,
    {
        match place_of(items[at].as_str(), text) {
            Place::Before => {
                at += 1;
            },
            Place::Same => {
                assert forall|other: Seq<char>| #[trigger] holds(items@, other) <==> holds(
                    before,
                    other,
                ) || other == text@ by {
                    if other == text@ {
                        assert(before[at as int]@ == other);
                    }
                }
                return ;
            },
            Place::After => {
                break;
            },
        }
    }
    proof {
        if at < before.len() {
            assert forall|k: int| at <= k < before.len() implies text_before(
                text@,
                #[trigger] before[k]@,
            ) by {
                lemma_text_before_total(before[at as int]@, text@);
                if k > at {
                    lemma_text_before_transitive(text@, before[at as int]@, before[k]@);
                }
            }
        }
    }
    let owned = text.to_owned();
    items.insert(at, owned);
    proof {
        let after = items@;
        assert(after == before.insert(at as int, owned));
        assert forall|i: int, j: int| 0 <= i < j < after.len() implies text_before(
            #[trigger] after[i]@,
            #[trigger] after[j]@,
        ) by {
            let i0 = if i < at { i } else { i - 1 };
            let j0 = if j < at { j } else { j - 1 };
            if i != at {
                assert(after[i] == before[i0]);
            }
            if j != at {
                assert(after[j] == before[j0]);
            }
        }
        assert forall|other: Seq<char>| #[trigger] holds(after, other) <==> holds(before, other)
            || other == text@ by {
            if holds(after, other) {
                let i = choose|i: int| 0 <= i < after.len() && #[trigger] after[i]@ == other;
                if i < at {
                    assert(before[i]@ == other);
                } else if i > at {
                    assert(before[i - 1]@ == other);
                }
            }
            if holds(before, other) {
                let i = choose|i: int| 0 <= i < before.len() && #[trigger] before[i]@ == other;
                let i1 = if i < at { i } else { i + 1 };
                assert(after[i1]@ == other);
            }
            if other == text@ {
                assert(after[at as int]@ == other);
            }
        }
    }
}

/// A text put into a list in order, unless it is there.
pub open spec fn with_text(list: Seq<Seq<char>>, text: Seq<char>) -> Seq<Seq<char>>
    decreases list.len(),
{
    if list.len() == 0 {
        seq![text]
    } else if list.last() == text {
        list
    } else if text_before(list.last(), text) {
        list.push(text)
    } else {
        with_text(list.drop_last(), text).push(list.last())
    }
}

proof fn lemma_with_text_back(list: Seq<Seq<char>>, text: Seq<char>, at: int)
    requires
        0 <= at <= list.len(),
        forall|k: int| at <= k < list.len() ==> text_before(text, #[trigger] list[k]),
    ensures
        with_text(list, text) == with_text(list.take(at), text) + list.skip(at),
    decreases list.len() - at,
{
    if at < list.len() {
        let shorter = list.drop_last();
        lemma_text_before_total(list.last(), text);
        assert(text_before(text, list[list.len() - 1]));
        assert forall|k: int| at <= k < shorter.len() implies text_before(
            text,
            #[trigger] shorter[k],
        ) by {
            assert(shorter[k] == list[k]);
        }
        lemma_with_text_back(shorter, text, at);
        assert(shorter.take(at) =~= list.take(at));
        assert(list.skip(at) =~= shorter.skip(at).push(list.last()));
    } else {
        assert(list.take(at) =~= list);
    }
    assert(with_text(list, text) =~= with_text(list.take(at), text) + list.skip(at));
}

/// Puts a text into a list in order, unless it is there.
pub fn put_text(list: &mut Vec<String>, text: &str)
    ensures
        texts(final(list)@) == with_text(texts(old(list)@), text@),
{
    let ghost before = texts(list@);
    let ghost held = list@;
    let mut at: usize = list.len();
    while at > 0 && comes_before(text, list[at - 1].as_str())
        invariant
            at <= list@.len(),
            list@ == held,
            before == texts(held),
            forall|k: int| at <= k < before.len() ==> text_before(text@, #[trigger] before[k]),
        decreases at,
    {
        assert(before[at - 1] == held[at - 1]@);
        at -= 1;
    }
    proof {
        lemma_with_text_back(before, text@, at as int);
        if at > 0 {
            assert(before.take(at as int).last() == held[at - 1]@);
            lemma_text_before_total(before[at - 1], text@);
        }
    }
    if at > 0 && same_text(list[at - 1].as_str(), text) {
        assert(before.take(at as int) + before.skip(at as int) =~= before);
        return ;
    }
    let owned = text.to_owned();
    list.insert(at, owned);
    assert(texts(list@) =~= before.take(at as int).push(text@) + before.skip(at as int));
    assert(at == 0 ==> before.take(at as int).push(text@) =~= seq![text@]);
}

/// Whether a text comes before another.
pub fn comes_before(left: &str, right: &str) -> (result: bool)
    ensures
        result == text_before(left@, right@),
{
    proof {
        lemma_text_before_total(left@, right@);
    }
    match place_of(left, right) {
        Place::Before => true,
        Place::Same => false,
        Place::After => false,
    }
}

// ---------------------------------------------------------------------------
// Maps
// ---------------------------------------------------------------------------

/// Fields by name, in the order of the names.
pub struct FieldMap {
    pub entries: Vec<(String, String)>,
}

impl View for FieldMap {
    type V = Map<Seq<char>, Seq<char>>;

    open spec fn view(&self) -> Map<Seq<char>, Seq<char>> {
        Map::new(
            |key: Seq<char>| has_key(self.entries@, key),
            |key: Seq<char>| value_of(self.entries@, key),
        )
    }
}

pub open spec fn has_key(entries: Seq<(String, String)>, key: Seq<char>) -> bool {
    exists|i: int| 0 <= i < entries.len() && #[trigger] entries[i].0@ == key
}

pub open spec fn value_of(entries: Seq<(String, String)>, key: Seq<char>) -> Seq<char> {
    entries[choose|i: int| 0 <= i < entries.len() && #[trigger] entries[i].0@ == key].1@
}

impl FieldMap {
    /// The names stand in order, none of them twice.
    pub open spec fn well_formed(&self) -> bool {
        forall|i: int, j: int|
            0 <= i < j < self.entries@.len() ==> text_before(
                #[trigger] self.entries@[i].0@,
                #[trigger] self.entries@[j].0@,
            )
    }

    /// An entry holds the value of its name.
    pub proof fn lemma_entry(&self, i: int)
        requires
            self.well_formed(),
            0 <= i < self.entries@.len(),
        ensures
            self@.contains_key(self.entries@[i].0@),
            self@[self.entries@[i].0@] == self.entries@[i].1@,
    {
        let key = self.entries@[i].0@;
        let k = choose|k: int| 0 <= k < self.entries@.len() && #[trigger] self.entries@[k].0@ == key;
        lemma_text_before_total(key, key);
        assert(k == i);
    }

    pub fn new() -> (fields: FieldMap)
        ensures
            fields.well_formed(),
            fields@ == Map::<Seq<char>, Seq<char>>::empty(),
    {
        let fields = FieldMap { entries: Vec::new() };
        assert(fields@ =~= Map::<Seq<char>, Seq<char>>::empty());
        fields
    }

    /// The value of a name.
    pub fn get(&self, key: &str) -> (value: Option<&str>)
        requires
            self.well_formed(),
        ensures
            match value {
                Some(text) => self@.contains_key(key@) && text@ == self@[key@],
                None => !self@.contains_key(key@),
            },
    {
        let mut i: usize = 0;
        while i < self.entries.len()
            invariant
                i <= self.entries@.len(),
                self.well_formed(),
                forall|k: int| 0 <= k < i ==> #[trigger] self.entries@[k].0@ != key@,
            decreases self.entries@.len() - i,
        {
            match place_of(self.entries[i].0.as_str(), key) {
                Place::Same => {
                    proof {
                        self.lemma_entry(i as int);
                    }
                    return Some(self.entries[i].1.as_str());
                },
                _ => {
                    proof {
                        lemma_text_before_total(self.entries@[i as int].0@, key@);
                    }
                    i += 1;
                },
            }
        }
        None
    }

    /// Sets the value of a name, and says whether it had one before.
    pub fn insert(&mut self, key: &str, value: &str) -> (had: bool)
        requires
            old(self).well_formed(),
        ensures
            final(self).well_formed(),
            had == old(self)@.contains_key(key@),
            final(self)@ == old(self)@.insert(key@, value@),
    {
        let ghost before = *self;
        let mut at: usize = 0;
        while at < self.entries.len()
            invariant
                at <= self.entries@.len(),
                *self == before,
                before.well_formed(),
                forall|k: int|
                    0 <= k < at ==> text_before(#[trigger] before.entries@[k].0@, key@),
                before == *old(self),
            ensures
                at < self.entries@.len() ==> text_before(key@, before.entries@[at as int].0@),
            decreases self.entries@.len() - at,
        {
            match place_of(self.entries[at].0.as_str(), key) {
                Place::Before => {
                    at += 1;
                },
                Place::Same => {
                    proof {
                        self.lemma_entry(at as int);
                    }
                    let owned = (key.to_owned(), value.to_owned());
                    self.entries.set(at, owned);
                    proof {
                        assert(self.well_formed()) by {
                            assert forall|i: int, j: int|
                                0 <= i < j < self.entries@.len() implies text_before(
                                #[trigger] self.entries@[i].0@,
                                #[trigger] self.entries@[j].0@,
                            ) by {
                                assert(self.entries@[i].0@ == before.entries@[i].0@);
                                assert(self.entries@[j].0@ == before.entries@[j].0@);
                            }
                        }
                        lemma_set_value(before, *self, at as int, key@, value@);
                    }
                    return true;
                },
                Place::After => {
                    break;
                },
            }
        }
        proof {
            if at < before.entries@.len() {
                assert forall|k: int| at <= k < before.entries@.len() implies text_before(
                    key@,
                    #[trigger] before.entries@[k].0@,
                ) by {
                    lemma_text_before_total(before.entries@[at as int].0@, key@);
                    if k > at {
                        lemma_text_before_transitive(
                            key@,
                            before.entries@[at as int].0@,
                            before.entries@[k].0@,
                        );
                    }
                }
            }
            assert(!before@.contains_key(key@)) by {
                if has_key(before.entries@, key@) {
                    let k = choose|k: int|
                        0 <= k < before.entries@.len() && #[trigger] before.entries@[k].0@ == key@;
                    lemma_text_before_total(key@, key@);
                }
            }
        }
        let owned = (key.to_owned(), value.to_owned());
        self.entries.insert(at, owned);
        proof {
            let after = self.entries@;
            assert(after == before.entries@.insert(at as int, owned));
            assert forall|i: int, j: int| 0 <= i < j < after.len() implies text_before(
                #[trigger] after[i].0@,
                #[trigger] after[j].0@,
            ) by {
                let i0 = if i < at { i } else { i - 1 };
                let j0 = if j < at { j } else { j - 1 };
                if i != at {
                    assert(after[i] == before.entries@[i0]);
                }
                if j != at {
                    assert(after[j] == before.entries@[j0]);
                }
            }
            assert(self.well_formed());
            lemma_insert_value(before, *self, at as int, key@, value@);
        }
        false
    }
}

proof fn lemma_set_value(
    before: FieldMap,
    after: FieldMap,
    at: int,
    key: Seq<char>,
    value: Seq<char>,
)
    requires
        before.well_formed(),
        after.well_formed(),
        0 <= at < before.entries@.len(),
        before.entries@[at].0@ == key,
        after.entries@.len() == before.entries@.len(),
        after.entries@[at].0@ == key,
        after.entries@[at].1@ == value,
        forall|i: int|
            0 <= i < before.entries@.len() && i != at ==> #[trigger] after.entries@[i]
                == before.entries@[i],
    ensures
        after@ == before@.insert(key, value),
{
    let grown = before@.insert(key, value);
    assert forall|other: Seq<char>| #[trigger] after@.contains_key(other) == grown.contains_key(
        other,
    ) by {
        if after@.contains_key(other) {
            let i = choose|i: int|
                0 <= i < after.entries@.len() && #[trigger] after.entries@[i].0@ == other;
            assert(before.entries@[i].0@ == other);
        }
        if before@.contains_key(other) {
            let i = choose|i: int|
                0 <= i < before.entries@.len() && #[trigger] before.entries@[i].0@ == other;
            assert(after.entries@[i].0@ == other);
        }
        assert(after.entries@[at].0@ == key);
    }
    assert forall|other: Seq<char>| #[trigger] after@.contains_key(other) implies after@[other]
        == grown[other] by {
        let i = choose|i: int|
            0 <= i < after.entries@.len() && #[trigger] after.entries@[i].0@ == other;
        after.lemma_entry(i);
        before.lemma_entry(i);
        lemma_text_before_total(key, key);
    }
    assert(after@ =~= grown);
}

proof fn lemma_insert_value(
    before: FieldMap,
    after: FieldMap,
    at: int,
    key: Seq<char>,
    value: Seq<char>,
)
    requires
        before.well_formed(),
        after.well_formed(),
        0 <= at <= before.entries@.len(),
        after.entries@.len() == before.entries@.len() + 1,
        after.entries@[at].0@ == key,
        after.entries@[at].1@ == value,
        forall|i: int| 0 <= i < at ==> #[trigger] after.entries@[i] == before.entries@[i],
        forall|i: int|
            at < i < after.entries@.len() ==> #[trigger] after.entries@[i] == before.entries@[i - 1],
    ensures
        after@ == before@.insert(key, value),
{
    let grown = before@.insert(key, value);
    assert forall|other: Seq<char>| #[trigger] after@.contains_key(other) == grown.contains_key(
        other,
    ) by {
        if after@.contains_key(other) {
            let i = choose|i: int|
                0 <= i < after.entries@.len() && #[trigger] after.entries@[i].0@ == other;
            if i < at {
                assert(before.entries@[i].0@ == other);
            } else if i > at {
                assert(before.entries@[i - 1].0@ == other);
            }
        }
        if before@.contains_key(other) {
            let i = choose|i: int|
                0 <= i < before.entries@.len() && #[trigger] before.entries@[i].0@ == other;
            let i1 = if i < at { i } else { i + 1 };
            assert(after.entries@[i1].0@ == other);
        }
        assert(after.entries@[at].0@ == key);
    }
    assert forall|other: Seq<char>| #[trigger] after@.contains_key(other) implies after@[other]
        == grown[other] by {
        let i = choose|i: int|
            0 <= i < after.entries@.len() && #[trigger] after.entries@[i].0@ == other;
        after.lemma_entry(i);
        lemma_text_before_total(key, key);
        if i < at {
            before.lemma_entry(i);
            assert(text_before(after.entries@[i].0@, after.entries@[at].0@));
        } else if i > at {
            before.lemma_entry(i - 1);
            assert(text_before(after.entries@[at].0@, after.entries@[i].0@));
        }
    }
    assert(after@ =~= grown);
}

} // verus!
