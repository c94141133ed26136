//! Lists in the order of numbers, each number once.
use vstd::prelude::*;

verus! {

/// A list with one more entry in the place of its number; an entry that is there
/// already stays.
pub open spec fn insert_keyed<T>(s: Seq<(int, T)>, key: int, value: T) -> Seq<(int, T)>
    decreases s.len(),
{
    if s.len() == 0 || s.last().0 < key {
        s.push((key, value))
    } else if s.last().0 == key {
        s
    } else {
        insert_keyed(s.drop_last(), key, value).push(s.last())
    }
}

/// The entries in the order of their numbers, the first with each number.
pub open spec fn sorted_keyed<T>(s: Seq<(int, T)>) -> Seq<(int, T)>
    decreases s.len(),
{
    if s.len() == 0 {
        s
    } else {
        insert_keyed(sorted_keyed(s.drop_last()), s.last().0, s.last().1)
    }
}

/// The numbers grow.
pub open spec fn growing<T>(s: Seq<(int, T)>) -> bool {
    forall|i: int, j: int| 0 <= i < j < s.len() ==> (#[trigger] s[i]).0 < (#[trigger] s[j]).0
}

pub open spec fn has_key<T>(s: Seq<(int, T)>, key: int) -> bool {
    exists|i: int| 0 <= i < s.len() && (#[trigger] s[i]).0 == key
}

/// An entry that is put in its place keeps the order, and adds its number alone.
pub proof fn lemma_insert_keyed<T>(s: Seq<(int, T)>, key: int, value: T)
    requires
        growing(s),
    ensures
        growing(insert_keyed(s, key, value)),
        forall|k: int|
            #[trigger] has_key(insert_keyed(s, key, value), k) == (k == key || has_key(s, k)),
    decreases s.len(),
{
    let r = insert_keyed(s, key, value);
    if s.len() == 0 || s.last().0 < key {
        assert(r[s.len() as int].0 == key);
        assert forall|i: int, j: int| 0 <= i < j < r.len() implies (#[trigger] r[i]).0 < (
        #[trigger] r[j]).0 by {
            if j == s.len() && i < s.len() - 1 {
                assert(s[i].0 < s[s.len() - 1].0);
            }
        }
        assert forall|k: int| #[trigger] has_key(r, k) == (k == key || has_key(s, k)) by {
            if has_key(s, k) {
                let i = choose|i: int| 0 <= i < s.len() && (#[trigger] s[i]).0 == k;
                assert(r[i].0 == k);
            }
            if has_key(r, k) && k != key {
                let i = choose|i: int| 0 <= i < r.len() && (#[trigger] r[i]).0 == k;
                assert(s[i].0 == k);
            }
        }
    } else if s.last().0 == key {
        assert(s[s.len() - 1].0 == key);
        assert(has_key(s, key));
        assert(r == s);
    } else {
        let front = s.drop_last();
        assert(growing(front)) by {
            assert forall|i: int, j: int| 0 <= i < j < front.len() implies (#[trigger] front[i]).0
                < (#[trigger] front[j]).0 by {
                assert(s[i].0 < s[j].0);
            }
        }
        lemma_insert_keyed(front, key, value);
        let inner = insert_keyed(front, key, value);
        assert forall|i: int, j: int| 0 <= i < j < r.len() implies (#[trigger] r[i]).0 < (
        #[trigger] r[j]).0 by {
            if j < inner.len() {
                assert(inner[i].0 < inner[j].0);
            } else {
                assert(has_key(inner, inner[i].0));
                if inner[i].0 != key {
                    assert(has_key(front, inner[i].0));
                    let m = choose|m: int|
                        0 <= m < front.len() && (#[trigger] front[m]).0 == inner[i].0;
                    assert(s[m].0 < s[s.len() - 1].0);
                }
            }
        }
        assert forall|k: int| #[trigger] has_key(r, k) == (k == key || has_key(s, k)) by {
            if has_key(s, k) {
                let i = choose|i: int| 0 <= i < s.len() && (#[trigger] s[i]).0 == k;
                if i < front.len() {
                    assert(front[i].0 == k);
                    assert(has_key(front, k));
                    assert(has_key(inner, k));
                    let m = choose|m: int| 0 <= m < inner.len() && (#[trigger] inner[m]).0 == k;
                    assert(r[m].0 == k);
                } else {
                    assert(r[r.len() - 1].0 == k);
                }
            }
            if k == key {
                assert(has_key(inner, k));
                let m = choose|m: int| 0 <= m < inner.len() && (#[trigger] inner[m]).0 == k;
                assert(r[m].0 == k);
            }
            if has_key(r, k) && k != key {
                let i = choose|i: int| 0 <= i < r.len() && (#[trigger] r[i]).0 == k;
                if i < inner.len() {
                    assert(inner[i].0 == k);
                    assert(has_key(inner, k));
                    assert(has_key(front, k));
                    let m = choose|m: int| 0 <= m < front.len() && (#[trigger] front[m]).0 == k;
                    assert(s[m].0 == k);
                } else {
                    assert(s[s.len() - 1].0 == k);
                }
            }
        }
    }
}

/// Sorting keeps every number, once, and puts them in order.
pub proof fn law_sorted_keyed<T>(s: Seq<(int, T)>)
    ensures
        growing(sorted_keyed(s)),
        forall|k: int| #[trigger] has_key(sorted_keyed(s), k) <==> has_key(s, k),
    decreases s.len(),
{
    if s.len() > 0 {
        let front = s.drop_last();
        law_sorted_keyed(front);
        lemma_insert_keyed(sorted_keyed(front), s.last().0, s.last().1);
        assert forall|k: int| #[trigger] has_key(sorted_keyed(s), k) <==> has_key(s, k) by {
            assert(has_key(sorted_keyed(front), k) <==> has_key(front, k));
            if has_key(front, k) {
                let m = choose|m: int| 0 <= m < front.len() && (#[trigger] front[m]).0 == k;
                assert(s[m].0 == k);
            }
            if k == s.last().0 {
                assert(s[s.len() - 1].0 == k);
            }
            if has_key(s, k) && k != s.last().0 {
                let m = choose|m: int| 0 <= m < s.len() && (#[trigger] s[m]).0 == k;
                assert(front[m].0 == k);
            }
        }
    }
}

/// The entries by their mathematical numbers.
pub open spec fn keyed<T>(v: Seq<(i128, T)>) -> Seq<(int, T)> {
    Seq::new(v.len(), |i: int| (v[i].0 as int, v[i].1))
}

pub fn put_keyed<T>(list: &mut Vec<(i128, T)>, key: i128, value: T)
    ensures
        keyed(final(list)@) == insert_keyed(keyed(old(list)@), key as int, value),
{
    let ghost s = keyed(list@);
    let mut at: usize = list.len();
    assert(s.take(at as int) == s);
    assert(insert_keyed(s, key as int, value) == insert_keyed(s.take(at as int), key as int, value)
        + s.skip(at as int));
    while at > 0 && list[at - 1].0 > key
        invariant
            at <= list@.len(),
            s == keyed(list@),
            insert_keyed(s, key as int, value) == insert_keyed(
                s.take(at as int),
                key as int,
                value,
            ) + s.skip(at as int),
        decreases at,
    {
        let ghost front = s.take(at as int);
        assert(front.last() == s[at - 1]);
        assert(front.drop_last() == s.take(at - 1));
        assert(insert_keyed(s.take(at - 1), key as int, value).push(front.last()) + s.skip(
            at as int,
        ) == insert_keyed(s.take(at - 1), key as int, value) + s.skip(at - 1));
        at -= 1;
    }
    let ghost front = s.take(at as int);
    if at > 0 {
        assert(front.last() == s[at - 1]);
        if list[at - 1].0 == key {
            assert(front + s.skip(at as int) == s);
            return;
        }
    }
    list.insert(at, (key, value));
    assert(keyed(list@) == front.push((key as int, value)) + s.skip(at as int));
}

/// A list with one more entry behind those with the same number or a smaller one.
pub open spec fn insert_stable<T>(s: Seq<(int, T)>, key: int, value: T) -> Seq<(int, T)>
    decreases s.len(),
{
    if s.len() == 0 || s.last().0 <= key {
        s.push((key, value))
    } else {
        insert_stable(s.drop_last(), key, value).push(s.last())
    }
}

/// Puts an entry behind those with the same number or a smaller one.
pub fn put_stable<T>(list: &mut Vec<(i128, T)>, key: i128, value: T)
    ensures
        keyed(final(list)@) == insert_stable(keyed(old(list)@), key as int, value),
{
    let ghost all = keyed(list@);
    let mut at: usize = list.len();
    assert(all.take(at as int) == all);
    assert(insert_stable(all, key as int, value) == insert_stable(
        all.take(at as int),
        key as int,
        value,
    ) + all.skip(at as int));
    while at > 0 && list[at - 1].0 > key
        invariant
            at <= list@.len(),
            all == keyed(list@),
            insert_stable(all, key as int, value) == insert_stable(
                all.take(at as int),
                key as int,
                value,
            ) + all.skip(at as int),
        decreases at,
    {
        proof {
            let t = all.take(at as int);
            assert(t.drop_last() == all.take(at - 1));
            assert(t.last() == all[at - 1]);
            assert(insert_stable(t, key as int, value) == insert_stable(
                t.drop_last(),
                key as int,
                value,
            ).push(t.last()));
            assert(insert_stable(t.drop_last(), key as int, value).push(t.last()) + all.skip(
                at as int,
            ) == insert_stable(t.drop_last(), key as int, value) + all.skip(at - 1));
        }
        at -= 1;
    }
    let ghost before = list@;
    proof {
        let t = all.take(at as int);
        assert(insert_stable(t, key as int, value) == t.push((key as int, value)));
    }
    list.insert(at, (key, value));
    assert(keyed(list@) == all.take(at as int).push((key as int, value)) + all.skip(at as int));
}

} // verus!
