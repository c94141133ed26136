//! Which lines of a calendar the `icalendar` crate can fold.
//!
//! It cuts a line after 75 bytes, and what is left of it after every 74. From there the
//! cut steps back over white space, for which the place among the bytes is taken for one
//! among the characters, and out of the middle of a character. It comes to no end, or
//! panics, where it steps back to the last cut or behind the start of the line.
use vstd::prelude::*;

use crate::text;
use crate::text::Text;

verus! {

/// How many bytes a character takes.
pub open spec fn bytes_of(c: char) -> int {
    let n = c as int;
    if n < 0x80 {
        1
    } else if n < 0x800 {
        2
    } else if n < 0x1_0000 {
        3
    } else {
        4
    }
}

/// Of each byte of a text, whether a character begins there.
pub open spec fn marks(s: Text) -> Seq<bool>
    decreases s.len(),
{
    if s.len() == 0 {
        Seq::empty()
    } else {
        marks(s.drop_last()) + Seq::new(bytes_of(s.last()) as nat, |i: int| i == 0)
    }
}

/// Whether a place among the bytes is no middle of a character.
pub open spec fn between(s: Text, at: int) -> bool {
    at == marks(s).len() || 0 <= at < marks(s).len() && marks(s)[at]
}

/// A place, or the one before it where the character with that number is white space.
pub open spec fn off_space(s: Text, at: int) -> int {
    if 0 <= at < s.len() && text::white_space(s[at]) {
        at - 1
    } else {
        at
    }
}

/// Where a cut at a place comes to; below zero where it leaves the line.
pub open spec fn cut_from(s: Text, at: int) -> int
    decreases at + 2,
{
    if at < 0 || between(s, at) {
        at
    } else {
        cut_from(s, off_space(s, at - 1))
    }
}

/// Whether what is left of a line behind a cut can be cut further, first at a place.
pub open spec fn folds_from(s: Text, done: int, next: int) -> bool
    decreases marks(s).len() - done, next - done,
{
    let cut = cut_from(s, off_space(s, next));
    if marks(s).len() - done <= 75 {
        true
    } else if done < cut <= marks(s).len() {
        folds_from(s, cut, cut + 74)
    } else {
        cut == done && next - done > 74 && folds_from(s, done, done + 74)
    }
}

/// Whether a line can be folded.
pub open spec fn foldable(s: Text) -> bool {
    folds_from(s, 0, 75)
}

/// A line of at most 75 bytes can be folded.
pub proof fn law_short_lines_fold(s: Text)
    requires
        marks(s).len() <= 75,
    ensures
        foldable(s),
{
}

/// Whether a text is ASCII.
pub open spec fn ascii(s: Text) -> bool {
    forall|i: int| 0 <= i < s.len() ==> (#[trigger] s[i] as int) < 0x80
}

/// Whether a character takes one byte, is no white space and stands for itself in a line.
pub open spec fn plain_char(c: char) -> bool {
    &&& (c as int) < 0x80
    &&& !text::white_space(c)
    &&& c != '\\' && c != ',' && c != ';'
}

/// Whether all characters of a text do.
pub open spec fn plain(s: Text) -> bool {
    forall|i: int| 0 <= i < s.len() ==> plain_char(#[trigger] s[i])
}

pub proof fn lemma_plain_sum(a: Text, b: Text)
    requires
        plain(a),
        plain(b),
    ensures
        plain(a + b),
{
    let all = a + b;
    assert forall|i: int| 0 <= i < all.len() implies plain_char(#[trigger] all[i]) by {
        if i < a.len() {
            assert(all[i] == a[i]);
        } else {
            assert(all[i] == b[i - a.len()]);
        }
    }
}

proof fn lemma_ascii_marks(s: Text)
    requires
        ascii(s),
    ensures
        marks(s).len() == s.len(),
        forall|i: int| 0 <= i < s.len() ==> #[trigger] marks(s)[i],
    decreases s.len(),
{
    if s.len() > 0 {
        let front = s.drop_last();
        assert((s[s.len() - 1] as int) < 0x80);
        assert(ascii(front)) by {
            assert forall|i: int| 0 <= i < front.len() implies (#[trigger] front[i] as int)
                < 0x80 by {
                assert(front[i] == s[i]);
            }
        }
        lemma_ascii_marks(front);
        assert forall|i: int| 0 <= i < s.len() implies #[trigger] marks(s)[i] by {
            if i < front.len() {
                assert(marks(s)[i] == marks(front)[i]);
            }
        }
    }
}

proof fn lemma_ascii_from(s: Text, done: int, next: int)
    requires
        ascii(s),
        0 <= done,
        done + 74 <= next <= done + 75,
    ensures
        folds_from(s, done, next),
    decreases s.len() - done,
{
    lemma_ascii_marks(s);
    if s.len() - done > 75 {
        let at = off_space(s, next);
        assert(between(s, at));
        lemma_ascii_from(s, at, at + 74);
    }
}

/// A line in ASCII can be folded.
pub proof fn law_ascii_lines_fold(s: Text)
    requires
        ascii(s),
    ensures
        foldable(s),
{
    lemma_ascii_from(s, 0, 75);
}

/// Whether two texts are equally long and have white space at the same places, and
/// characters of as many bytes.
pub open spec fn alike(a: Text, b: Text) -> bool {
    &&& a.len() == b.len()
    &&& forall|i: int|
        #![trigger a[i]]
        #![trigger b[i]]
        0 <= i < a.len() ==> bytes_of(a[i]) == bytes_of(b[i]) && text::white_space(a[i])
            == text::white_space(b[i])
}

proof fn lemma_alike_marks(a: Text, b: Text)
    requires
        alike(a, b),
    ensures
        marks(a) == marks(b),
    decreases a.len(),
{
    if a.len() > 0 {
        let x = a.drop_last();
        let y = b.drop_last();
        assert(bytes_of(a[a.len() - 1]) == bytes_of(b[b.len() - 1]));
        assert forall|i: int|
            #![trigger x[i]]
            #![trigger y[i]]
            0 <= i < x.len() implies bytes_of(x[i]) == bytes_of(y[i]) && text::white_space(x[i])
            == text::white_space(y[i]) by {
            assert(x[i] == a[i] && y[i] == b[i]);
        }
        lemma_alike_marks(x, y);
    }
}

proof fn lemma_alike_cut(a: Text, b: Text, at: int)
    requires
        alike(a, b),
    ensures
        cut_from(a, at) == cut_from(b, at),
    decreases at + 2,
{
    lemma_alike_marks(a, b);
    if at >= 0 && !between(a, at) {
        assert(off_space(a, at - 1) == off_space(b, at - 1)) by {
            if 0 <= at - 1 < a.len() {
                assert(text::white_space(a[at - 1]) == text::white_space(b[at - 1]));
            }
        }
        lemma_alike_cut(a, b, off_space(a, at - 1));
    }
}

proof fn lemma_alike_from(a: Text, b: Text, done: int, next: int)
    requires
        alike(a, b),
    ensures
        folds_from(a, done, next) == folds_from(b, done, next),
    decreases marks(a).len() - done, next - done,
{
    lemma_alike_marks(a, b);
    if marks(a).len() - done > 75 {
        assert(off_space(a, next) == off_space(b, next)) by {
            if 0 <= next < a.len() {
                assert(text::white_space(a[next]) == text::white_space(b[next]));
            }
        }
        lemma_alike_cut(a, b, off_space(a, next));
        let cut = cut_from(a, off_space(a, next));
        if done < cut <= marks(a).len() {
            lemma_alike_from(a, b, cut, cut + 74);
        } else if cut == done && next - done > 74 {
            lemma_alike_from(a, b, done, done + 74);
        }
    }
}

/// Texts that are alike fold alike.
pub proof fn lemma_alike(a: Text, b: Text)
    requires
        alike(a, b),
    ensures
        foldable(a) == foldable(b),
{
    lemma_alike_from(a, b, 0, 75);
}

/// Texts of parts that are alike are alike.
pub proof fn lemma_alike_sum(a: Text, b: Text, c: Text, d: Text)
    requires
        alike(a, b),
        alike(c, d),
    ensures
        alike(a + c, b + d),
{
    let x = a + c;
    let y = b + d;
    assert forall|i: int|
        #![trigger x[i]]
        #![trigger y[i]]
        0 <= i < x.len() implies bytes_of(x[i]) == bytes_of(y[i]) && text::white_space(x[i])
        == text::white_space(y[i]) by {
        if i < a.len() {
            assert(x[i] == a[i] && y[i] == b[i]);
        } else {
            assert(x[i] == c[i - a.len()] && y[i] == d[i - a.len()]);
        }
    }
}

/// Plain texts of one length are alike.
pub proof fn lemma_plain_alike(a: Text, b: Text)
    requires
        plain(a),
        plain(b),
        a.len() == b.len(),
    ensures
        alike(a, b),
{
    assert forall|i: int|
        #![trigger a[i]]
        #![trigger b[i]]
        0 <= i < a.len() implies bytes_of(a[i]) == bytes_of(b[i]) && text::white_space(a[i])
        == text::white_space(b[i]) by {
        assert(plain_char(a[i]) && plain_char(b[i]));
    }
}

// ------------------------------------------------------------------ the test

pub fn width_of(c: char) -> (r: usize)
    ensures
        r == bytes_of(c),
{
    let n: u32 = c as u32;
    if n < 0x80 {
        1
    } else if n < 0x800 {
        2
    } else if n < 0x1_0000 {
        3
    } else {
        4
    }
}

fn marks_of(v: &Vec<char>) -> (r: Vec<bool>)
    ensures
        r@ == marks(v@),
{
    let mut r: Vec<bool> = Vec::new();
    let mut i: usize = 0;
    while i < v.len()
        invariant
            i <= v@.len(),
            r@ == marks(v@.take(i as int)),
        decreases v@.len() - i,
    {
        let ghost before = r@;
        let width: usize = width_of(v[i]);
        let mut j: usize = 0;
        while j < width
            invariant
                j <= width,
                r@ == before + Seq::new(j as nat, |i: int| i == 0),
            decreases width - j,
        {
            r.push(j == 0);
            j += 1;
            assert(r@ =~= before + Seq::new(j as nat, |i: int| i == 0));
        }
        assert(v@.take(i + 1).drop_last() == v@.take(i as int));
        i += 1;
    }
    assert(v@.take(v@.len() as int) == v@);
    r
}

fn step_off_space(v: &Vec<char>, at: usize) -> (r: Option<usize>)
    ensures
        match r {
            Some(r) => r == off_space(v@, at as int),
            None => off_space(v@, at as int) < 0,
        },
{
    if at < v.len() && text::is_white_space(v[at]) {
        if at == 0 {
            None
        } else {
            Some(at - 1)
        }
    } else {
        Some(at)
    }
}

/// Where a cut at a place comes to, if it does not leave the line.
fn cut_at(v: &Vec<char>, marked: &Vec<bool>, at: usize) -> (r: Option<usize>)
    requires
        marked@ == marks(v@),
    ensures
        match r {
            Some(r) => r == cut_from(v@, at as int) && r <= marked@.len(),
            None => cut_from(v@, at as int) < 0,
        },
{
    let mut here: usize = at;
    loop
        invariant
            marked@ == marks(v@),
            here <= at,
            cut_from(v@, here as int) == cut_from(v@, at as int),
        decreases here,
    {
        if here == marked.len() || (here < marked.len() && marked[here]) {
            return Some(here);
        }
        if here == 0 {
            assert(off_space(v@, -1) == -1);
            assert(cut_from(v@, -1) == -1);
            return None;
        }
        match step_off_space(v, here - 1) {
            Some(back) => {
                here = back;
            },
            None => {
                assert(cut_from(v@, off_space(v@, here - 1)) < 0);
                return None;
            },
        }
    }
}

/// Whether a line can be folded.
pub fn folds(line: &str) -> (r: bool)
    ensures
        r == foldable(line@),
{
    let v = text::chars_of(line);
    let marked = marks_of(&v);
    let all: usize = marked.len();
    let mut done: usize = 0;
    let mut first = true;
    loop
        invariant
            v@ == line@,
            marked@ == marks(v@),
            all == marked@.len(),
            done <= all,
            foldable(line@) == folds_from(
                v@,
                done as int,
                done + (if first {
                    75int
                } else {
                    74int
                }),
            ),
        decreases
                all - done,
                (if first {
                    1int
                } else {
                    0int
                }),
    {
        if all - done <= 75 {
            return true;
        }
        let next: usize = if first {
            done + 75
        } else {
            done + 74
        };
        let cut = match step_off_space(&v, next) {
            Some(at) => match cut_at(&v, &marked, at) {
                Some(cut) => cut,
                None => {
                    return false;
                },
            },
            None => {
                return false;
            },
        };
        if cut > done {
            done = cut;
            first = false;
        } else if cut == done && first {
            first = false;
        } else {
            return false;
        }
    }
}

} // verus!
