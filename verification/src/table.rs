//! A table of values by text, kept in the order of its keys.
use vstd::prelude::*;

use crate::text;
use crate::text::Text;

verus! {

/// Every key stands once, in the order of the code points.
pub open spec fn sorted<V>(s: Seq<(Text, V)>) -> bool {
    forall|i: int, j: int|
        0 <= i < j < s.len() ==> #[trigger] text::precedes(s[i].0, s[j].0)
}

/// The value under a key.
pub open spec fn at<V>(s: Seq<(Text, V)>, key: Text) -> Option<V>
    decreases s.len(),
{
    if s.len() == 0 {
        None
    } else if s.last().0 == key {
        Some(s.last().1)
    } else {
        at(s.drop_last(), key)
    }
}

/// The table with this value under this key.
pub open spec fn put<V>(s: Seq<(Text, V)>, key: Text, value: V) -> Seq<(Text, V)>
    decreases s.len(),
{
    if s.len() == 0 {
        seq![(key, value)]
    } else if s.last().0 == key {
        s.drop_last().push((key, value))
    } else if text::precedes(s.last().0, key) {
        s.push((key, value))
    } else {
        put(s.drop_last(), key, value).push(s.last())
    }
}

/// The table without this key.
pub open spec fn without<V>(s: Seq<(Text, V)>, key: Text) -> Seq<(Text, V)>
    decreases s.len(),
{
    if s.len() == 0 {
        s
    } else if s.last().0 == key {
        without(s.drop_last(), key)
    } else {
        without(s.drop_last(), key).push(s.last())
    }
}

pub proof fn lemma_at_put<V>(s: Seq<(Text, V)>, key: Text, value: V, other: Text)
    ensures
        at(put(s, key, value), other) == (if other == key {
            Some(value)
        } else {
            at(s, other)
        }),
    decreases s.len(),
{
    if s.len() == 0 {
        assert(put(s, key, value).drop_last() == s);
    } else if s.last().0 == key {
        assert(put(s, key, value).drop_last() == s.drop_last());
    } else if text::precedes(s.last().0, key) {
        assert(put(s, key, value).drop_last() == s);
    } else {
        lemma_at_put(s.drop_last(), key, value, other);
        assert(put(s, key, value).drop_last() == put(s.drop_last(), key, value));
    }
}

pub proof fn lemma_at_without<V>(s: Seq<(Text, V)>, key: Text, other: Text)
    ensures
        at(without(s, key), other) == (if other == key {
            None
        } else {
            at(s, other)
        }),
    decreases s.len(),
{
    if s.len() > 0 {
        lemma_at_without(s.drop_last(), key, other);
        if s.last().0 != key {
            assert(without(s, key).drop_last() == without(s.drop_last(), key));
        }
    }
}

proof fn lemma_put_keys<V>(s: Seq<(Text, V)>, key: Text, value: V, i: int)
    requires
        0 <= i < put(s, key, value).len(),
    ensures
        put(s, key, value)[i].0 == key || exists|j: int|
            0 <= j < s.len() && s[j].0 == put(s, key, value)[i].0,
    decreases s.len(),
{
    let r = put(s, key, value);
    if s.len() == 0 {
    } else if s.last().0 == key {
        if i < s.len() - 1 {
            assert(s[i].0 == r[i].0);
        }
    } else if text::precedes(s.last().0, key) {
        if i < s.len() {
            assert(s[i].0 == r[i].0);
        }
    } else {
        if i < r.len() - 1 {
            lemma_put_keys(s.drop_last(), key, value, i);
            if r[i].0 != key {
                let j = choose|j: int|
                    0 <= j < s.drop_last().len() && s.drop_last()[j].0 == put(
                        s.drop_last(),
                        key,
                        value,
                    )[i].0;
                assert(s[j].0 == r[i].0);
            }
        } else {
            assert(s[s.len() - 1].0 == r[i].0);
        }
    }
}

/// A table stays in the order of its keys, whatever is put into it or taken out.
pub proof fn law_a_table_stays_in_order<V>(s: Seq<(Text, V)>, key: Text, value: V)
    requires
        sorted(s),
    ensures
        sorted(put(s, key, value)),
        sorted(without(s, key)),
{
    lemma_put_sorted(s, key, value);
    lemma_without_sorted(s, key);
}

pub proof fn lemma_sorted_drop<V>(s: Seq<(Text, V)>)
    requires
        sorted(s),
        s.len() > 0,
    ensures
        sorted(s.drop_last()),
{
    assert forall|a: int, b: int| 0 <= a < b < s.drop_last().len() implies #[trigger] text::precedes(
        s.drop_last()[a].0,
        s.drop_last()[b].0,
    ) by {
        assert(text::precedes(s[a].0, s[b].0));
    }
}

pub proof fn lemma_put_sorted<V>(s: Seq<(Text, V)>, key: Text, value: V)
    requires
        sorted(s),
    ensures
        sorted(put(s, key, value)),
    decreases s.len(),
{
    let r = put(s, key, value);
    if s.len() == 0 {
    } else if s.last().0 == key {
        assert forall|a: int, b: int| 0 <= a < b < r.len() implies #[trigger] text::precedes(
            r[a].0,
            r[b].0,
        ) by {
            assert(text::precedes(s[a].0, s[b].0));
        }
    } else if text::precedes(s.last().0, key) {
        assert forall|a: int, b: int| 0 <= a < b < r.len() implies #[trigger] text::precedes(
            r[a].0,
            r[b].0,
        ) by {
            if b < s.len() {
                assert(text::precedes(s[a].0, s[b].0));
            } else if a < s.len() - 1 {
                assert(text::precedes(s[a].0, s[s.len() - 1].0));
                text::lemma_precedes(s[a].0, s.last().0, key);
            }
        }
    } else {
        lemma_sorted_drop(s);
        lemma_put_sorted(s.drop_last(), key, value);
        let front = put(s.drop_last(), key, value);
        text::lemma_precedes(key, s.last().0, key);
        assert forall|a: int, b: int| 0 <= a < b < r.len() implies #[trigger] text::precedes(
            r[a].0,
            r[b].0,
        ) by {
            if b < front.len() {
                assert(text::precedes(front[a].0, front[b].0));
            } else {
                lemma_put_keys(s.drop_last(), key, value, a);
                if front[a].0 != key {
                    let j = choose|j: int|
                        0 <= j < s.drop_last().len() && s.drop_last()[j].0 == front[a].0;
                    assert(text::precedes(s[j].0, s[s.len() - 1].0));
                }
            }
        }
    }
}

proof fn lemma_without_keys<V>(s: Seq<(Text, V)>, key: Text, i: int)
    requires
        0 <= i < without(s, key).len(),
    ensures
        exists|j: int| 0 <= j < s.len() && s[j] == without(s, key)[i],
    decreases s.len(),
{
    let r = without(s, key);
    if s.len() > 0 {
        if s.last().0 != key && i == r.len() - 1 {
            assert(s[s.len() - 1] == r[i]);
        } else {
            lemma_without_keys(s.drop_last(), key, i);
            let j = choose|j: int|
                0 <= j < s.drop_last().len() && s.drop_last()[j] == without(s.drop_last(), key)[i];
            assert(s[j] == r[i]);
        }
    }
}

pub proof fn lemma_without_sorted<V>(s: Seq<(Text, V)>, key: Text)
    requires
        sorted(s),
    ensures
        sorted(without(s, key)),
    decreases s.len(),
{
    if s.len() > 0 {
        lemma_sorted_drop(s);
        lemma_without_sorted(s.drop_last(), key);
        let front = without(s.drop_last(), key);
        let r = without(s, key);
        if s.last().0 != key {
            assert forall|a: int, b: int| 0 <= a < b < r.len() implies #[trigger] text::precedes(
                r[a].0,
                r[b].0,
            ) by {
                if b < front.len() {
                    assert(text::precedes(front[a].0, front[b].0));
                } else {
                    lemma_without_keys(s.drop_last(), key, a);
                    let j = choose|j: int|
                        0 <= j < s.drop_last().len() && s.drop_last()[j] == front[a];
                    assert(text::precedes(s[j].0, s[s.len() - 1].0));
                }
            }
        }
    }
}

/// The entries by the views of their values.
pub open spec fn views<V: View>(s: Seq<(Text, V)>) -> Seq<(Text, V::V)> {
    Seq::new(s.len(), |i: int| (s[i].0, s[i].1@))
}

pub proof fn lemma_views_put<V: View>(s: Seq<(Text, V)>, key: Text, value: V)
    ensures
        views(put(s, key, value)) == put(views(s), key, value@),
    decreases s.len(),
{
    if s.len() == 0 {
        assert(views(put(s, key, value)) =~= put(views(s), key, value@));
    } else {
        assert(views(s).last() == (s.last().0, s.last().1@));
        assert(views(s).drop_last() =~= views(s.drop_last()));
        if s.last().0 == key {
            assert(views(put(s, key, value)) =~= put(views(s), key, value@));
        } else if text::precedes(s.last().0, key) {
            assert(views(put(s, key, value)) =~= put(views(s), key, value@));
        } else {
            lemma_views_put(s.drop_last(), key, value);
            assert(views(put(s, key, value)) =~= put(views(s), key, value@));
        }
    }
}

pub proof fn lemma_views_without<V: View>(s: Seq<(Text, V)>, key: Text)
    ensures
        views(without(s, key)) == without(views(s), key),
    decreases s.len(),
{
    if s.len() == 0 {
        assert(views(without(s, key)) =~= without(views(s), key));
    } else {
        assert(views(s).last() == (s.last().0, s.last().1@));
        assert(views(s).drop_last() =~= views(s.drop_last()));
        lemma_views_without(s.drop_last(), key);
        assert(views(without(s, key)) =~= without(views(s), key));
    }
}

pub proof fn lemma_views_at<V: View>(s: Seq<(Text, V)>, key: Text)
    ensures
        at(s, key) is Some == at(views(s), key) is Some,
        at(s, key) is Some ==> at(views(s), key) == Some(at(s, key)->0@),
    decreases s.len(),
{
    if s.len() > 0 {
        assert(views(s).last() == (s.last().0, s.last().1@));
        assert(views(s).drop_last() =~= views(s.drop_last()));
        lemma_views_at(s.drop_last(), key);
    }
}

/// A value taken out and put back stands where it stood.
pub proof fn lemma_put_without<V>(s: Seq<(Text, V)>, key: Text, value: V)
    requires
        sorted(s),
    ensures
        put(without(s, key), key, value) == put(s, key, value),
    decreases s.len(),
{
    if s.len() > 0 {
        lemma_sorted_drop(s);
        lemma_put_without(s.drop_last(), key, value);
        let front = s.drop_last();
        if s.last().0 == key {
            assert(without(front, key) == front) by {
                assert forall|i: int| 0 <= i < front.len() implies front[i].0 != key by {
                    assert(text::precedes(s[i].0, s[s.len() - 1].0));
                    text::lemma_precedes(key, key, key);
                }
                lemma_without_absent(front, key);
            }
            if front.len() > 0 {
                assert(text::precedes(s[s.len() - 2].0, s[s.len() - 1].0));
                text::lemma_precedes(key, key, key);
            }
            assert(put(front, key, value) == front.push((key, value)));
        } else if text::precedes(s.last().0, key) {
            assert(without(front, key) == front) by {
                assert forall|i: int| 0 <= i < front.len() implies front[i].0 != key by {
                    assert(text::precedes(s[i].0, s[s.len() - 1].0));
                    text::lemma_precedes(s[i].0, s.last().0, key);
                    text::lemma_precedes(key, key, key);
                }
                lemma_without_absent(front, key);
            }
            assert(without(s, key) == s);
        } else {
            assert(without(s, key) == without(front, key).push(s.last()));
            assert(without(s, key).drop_last() == without(front, key));
        }
    }
}

proof fn lemma_without_absent<V>(s: Seq<(Text, V)>, key: Text)
    requires
        forall|i: int| 0 <= i < s.len() ==> s[i].0 != key,
    ensures
        without(s, key) == s,
    decreases s.len(),
{
    if s.len() > 0 {
        assert(s.last() == s[s.len() - 1]);
        assert forall|i: int| 0 <= i < s.drop_last().len() implies s.drop_last()[i].0 != key by {
            assert(s[i].0 != key);
        }
        lemma_without_absent(s.drop_last(), key);
        assert(s.drop_last().push(s.last()) == s);
    }
}

/// A table of values by text.
#[derive(Debug)]
pub struct Table<V> {
    entries: Vec<(String, V)>,
}

/// The entries by the views of their keys.
spec fn keyed<V>(s: Seq<(String, V)>) -> Seq<(Text, V)> {
    Seq::new(s.len(), |i: int| (s[i].0@, s[i].1))
}

impl<V> View for Table<V> {
    type V = Seq<(Text, V)>;

    closed spec fn view(&self) -> Seq<(Text, V)> {
        keyed(self.entries@)
    }
}

impl<V: Clone> Clone for Table<V> {
    fn clone(&self) -> (r: Table<V>)
        ensures
            r@.len() == self@.len(),
            forall|i: int|
                0 <= i < self@.len() ==> (#[trigger] r@[i]).0 == self@[i].0 && cloned(
                    self@[i].1,
                    r@[i].1,
                ),
    {
        proof {
            use_type_invariant(self);
        }
        let mut entries: Vec<(String, V)> = Vec::new();
        let mut i: usize = 0;
        while i < self.entries.len()
            invariant
                i <= self.entries@.len(),
                entries@.len() == i,
                forall|j: int|
                    0 <= j < i ==> (#[trigger] entries@[j]).0@ == self.entries@[j].0@ && cloned(
                        self.entries@[j].1,
                        entries@[j].1,
                    ),
            decreases self.entries@.len() - i,
        {
            let key = self.entries[i].0.clone();
            let value = self.entries[i].1.clone();
            entries.push((key, value));
            i += 1;
        }
        assert(sorted(keyed(entries@))) by {
            let own = keyed(self.entries@);
            let all = keyed(entries@);
            assert forall|j: int| 0 <= j < all.len() implies (#[trigger] all[j]).0 == own[j].0 by {
                assert(entries@[j].0@ == self.entries@[j].0@);
            }
        }
        let r = Table { entries };
        assert forall|j: int| 0 <= j < self@.len() implies (#[trigger] r@[j]).0 == self@[j].0
            && cloned(self@[j].1, r@[j].1) by {
            assert(entries@[j].0@ == self.entries@[j].0@);
        }
        r
    }
}

impl<V> Table<V> {
    #[verifier::type_invariant]
    spec fn ordered(self) -> bool {
        sorted(keyed(self.entries@))
    }

    pub fn new() -> (r: Self)
        ensures
            r@ == Seq::<(Text, V)>::empty(),
            sorted(r@),
    {
        let r = Table { entries: Vec::new() };
        assert(r@ == Seq::<(Text, V)>::empty());
        r
    }

    /// How many entries there are; their keys are in order, each once.
    pub fn len(&self) -> (n: usize)
        ensures
            n == self@.len(),
            sorted(self@),
    {
        proof {
            use_type_invariant(self);
        }
        self.entries.len()
    }

    pub fn is_empty(&self) -> (r: bool)
        ensures
            r == (self@.len() == 0),
    {
        self.entries.len() == 0
    }

    /// The key at a place.
    pub fn key(&self, i: usize) -> (r: &String)
        requires
            i < self@.len(),
        ensures
            r@ == self@[i as int].0,
    {
        &self.entries[i].0
    }

    /// The value at a place.
    pub fn value(&self, i: usize) -> (r: &V)
        requires
            i < self@.len(),
        ensures
            *r == self@[i as int].1,
    {
        &self.entries[i].1
    }

    pub fn get(&self, key: &str) -> (r: Option<&V>)
        ensures
            match r {
                Some(v) => at(self@, key@) == Some(*v),
                None => at(self@, key@) is None,
            },
            sorted(self@),
    {
        proof {
            use_type_invariant(self);
        }
        let mut i: usize = self.entries.len();
        assert(self@.take(i as int) == self@);
        while i > 0
            invariant
                i <= self.entries@.len(),
                at(self@, key@) == at(self@.take(i as int), key@),
                sorted(self@),
            decreases i,
        {
            assert(self@.take(i as int).drop_last() == self@.take(i - 1));
            assert(self@.take(i as int).last() == self@[i - 1]);
            if text::same(self.entries[i - 1].0.as_str(), key) {
                return Some(&self.entries[i - 1].1);
            }
            i -= 1;
        }
        None
    }

    pub fn contains_key(&self, key: &str) -> (r: bool)
        ensures
            r == (at(self@, key@) is Some),
    {
        self.get(key).is_some()
    }

    pub fn insert(&mut self, key: String, value: V)
        ensures
            final(self)@ == put(old(self)@, key@, value),
            sorted(final(self)@),
    {
        proof {
            use_type_invariant(&*self);
            lemma_put_sorted(self@, key@, value);
        }
        let mut old_entries: Vec<(String, V)> = Vec::new();
        std::mem::swap(&mut self.entries, &mut old_entries);
        let ghost before = old_entries@;
        let mut tail: Vec<(String, V)> = Vec::new();
        let mut done = false;
        while !done
            invariant
                sorted(keyed(before)),
                !done ==> put(keyed(before), key@, value) == put(keyed(old_entries@), key@, value)
                    + keyed(tail@).reverse(),
                done ==> put(keyed(before), key@, value) == keyed(old_entries@).push((key@, value))
                    + keyed(tail@).reverse(),
            decreases old_entries@.len(), (if done {
                0int
            } else {
                1int
            }),
        {
            let n = old_entries.len();
            let ghost s = keyed(old_entries@);
            if n == 0 {
                done = true;
                assert(s.push((key@, value)) == seq![(key@, value)]);
            } else if text::same(old_entries[n - 1].0.as_str(), key.as_str()) {
                old_entries.pop();
                assert(keyed(old_entries@) == s.drop_last());
                done = true;
            } else if text::is_before(old_entries[n - 1].0.as_str(), key.as_str()) {
                done = true;
            } else {
                let ghost old_tail = keyed(tail@);
                let last = old_entries.pop().unwrap();
                let ghost last_view = (last.0@, last.1);
                tail.push(last);
                assert(keyed(old_entries@) == s.drop_last());
                assert(keyed(tail@) == old_tail.push(s.last()));
                assert(old_tail.push(s.last()).reverse() == seq![s.last()] + old_tail.reverse());
                let ghost front = put(s.drop_last(), key@, value);
                assert(front.push(s.last()) + old_tail.reverse() == front + (seq![s.last()]
                    + old_tail.reverse()));
            }
        }
        let ghost wanted = put(keyed(before), key@, value);
        let ghost front = keyed(old_entries@);
        let ghost pair = (key@, value);
        old_entries.push((key, value));
        assert(keyed(old_entries@) == front.push(pair));
        while tail.len() > 0
            invariant
                wanted == keyed(old_entries@) + keyed(tail@).reverse(),
            decreases tail@.len(),
        {
            let ghost s = keyed(old_entries@);
            let ghost t = keyed(tail@);
            let last = tail.pop().unwrap();
            old_entries.push(last);
            assert(keyed(tail@) == t.drop_last());
            assert(keyed(old_entries@) == s.push(t.last()));
            assert(t.reverse() == seq![t.last()] + t.drop_last().reverse());
            assert(s + (seq![t.last()] + t.drop_last().reverse()) == s.push(t.last())
                + t.drop_last().reverse());
        }
        assert(keyed(old_entries@) == wanted);
        *self = Table { entries: old_entries };
    }

    /// Takes the last entry out of the table.
    pub fn pop(&mut self) -> (r: Option<(String, V)>)
        ensures
            sorted(old(self)@),
            match r {
                Some(entry) => old(self)@ == final(self)@.push((entry.0@, entry.1)),
                None => old(self)@.len() == 0 && final(self)@ == old(self)@,
            },
    {
        proof {
            use_type_invariant(&*self);
        }
        let mut entries: Vec<(String, V)> = Vec::new();
        std::mem::swap(&mut self.entries, &mut entries);
        let ghost before = keyed(entries@);
        let r = entries.pop();
        proof {
            if before.len() > 0 {
                lemma_sorted_drop(before);
                assert(keyed(entries@) == before.drop_last());
            }
        }
        *self = Table { entries };
        proof {
            if before.len() > 0 {
                assert(before == self@.push(before.last()));
            }
        }
        r
    }

    /// Takes the value under a key out of the table.
    pub fn remove(&mut self, key: &str) -> (r: Option<V>)
        ensures
            r == at(old(self)@, key@),
            final(self)@ == without(old(self)@, key@),
            sorted(final(self)@),
    {
        proof {
            use_type_invariant(&*self);
            lemma_without_sorted(self@, key@);
        }
        let mut entries: Vec<(String, V)> = Vec::new();
        std::mem::swap(&mut self.entries, &mut entries);
        let ghost before = keyed(entries@);
        let mut found: Option<V> = None;
        let mut kept: Vec<(String, V)> = Vec::new();
        let mut rest: Vec<(String, V)> = Vec::new();
        while entries.len() > 0
            invariant
                keyed(entries@) + keyed(rest@).reverse() == before,
            decreases entries@.len(),
        {
            let ghost s = keyed(entries@);
            let ghost t = keyed(rest@);
            let last = entries.pop().unwrap();
            rest.push(last);
            assert(keyed(entries@) == s.drop_last());
            assert(keyed(rest@) == t.push(s.last()));
            assert(t.push(s.last()).reverse() == seq![s.last()] + t.reverse());
            assert(s.drop_last() + (seq![s.last()] + t.reverse()) == s + t.reverse());
        }
        assert(keyed(rest@).reverse() == before);
        let ghost done: Seq<(Text, V)> = Seq::empty();
        while rest.len() > 0
            invariant
                done + keyed(rest@).reverse() == before,
                keyed(kept@) == without(done, key@),
                found == at(done, key@),
            decreases rest@.len(),
        {
            let ghost t = keyed(rest@);
            let ghost k = keyed(kept@);
            let next = rest.pop().unwrap();
            assert(keyed(rest@) == t.drop_last());
            assert(t.reverse() == seq![t.last()] + t.drop_last().reverse());
            assert(done + (seq![t.last()] + t.drop_last().reverse()) == done.push(t.last())
                + t.drop_last().reverse());
            assert(done.push(t.last()).drop_last() == done);
            proof {
                done = done.push(t.last());
            }
            if text::same(next.0.as_str(), key) {
                found = Some(next.1);
            } else {
                kept.push(next);
                assert(keyed(kept@) == k.push(t.last()));
            }
        }
        assert(done == before);
        *self = Table { entries: kept };
        found
    }
}

} // verus!
