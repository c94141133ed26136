//! Text as sequences of characters: searching, splitting, trimming, ordering.
use vstd::prelude::*;

verus! {

/// `String::push` appends the character to the end of the string.
pub assume_specification[ String::push ](s: &mut String, c: char)
    ensures
        final(s)@ == old(s)@.push(c),
;

/// A string's text as plain characters.
pub type Text = Seq<char>;

/// `part` stands in `s` at position `at`.
pub open spec fn occurs_at(s: Text, part: Text, at: int) -> bool {
    &&& 0 <= at
    &&& at + part.len() <= s.len()
    &&& s.subrange(at, at + part.len()) == part
}

/// `part` stands somewhere in `s`.
pub open spec fn contains(s: Text, part: Text) -> bool {
    exists|at: int| occurs_at(s, part, at)
}

/// `at` is the first place at which `part` stands in `s`.
pub open spec fn first_at(s: Text, part: Text, at: int) -> bool {
    &&& occurs_at(s, part, at)
    &&& forall|j: int| 0 <= j < at ==> !occurs_at(s, part, j)
}

/// The first place of `part` in `s`, if there is one.
pub open spec fn find(s: Text, part: Text) -> Option<int> {
    if contains(s, part) {
        Some(choose|at: int| first_at(s, part, at))
    } else {
        None
    }
}

pub open spec fn starts_with(s: Text, prefix: Text) -> bool {
    &&& prefix.len() <= s.len()
    &&& s.subrange(0, prefix.len() as int) == prefix
}

pub open spec fn ends_with(s: Text, suffix: Text) -> bool {
    &&& suffix.len() <= s.len()
    &&& s.subrange(s.len() - suffix.len(), s.len() as int) == suffix
}

/// What follows `prefix` in `s`.
pub open spec fn after_prefix(s: Text, prefix: Text) -> Option<Text> {
    if starts_with(s, prefix) {
        Some(s.subrange(prefix.len() as int, s.len() as int))
    } else {
        None
    }
}

/// What precedes `suffix` in `s`.
pub open spec fn before_suffix(s: Text, suffix: Text) -> Option<Text> {
    if ends_with(s, suffix) {
        Some(s.subrange(0, s.len() - suffix.len()))
    } else {
        None
    }
}

/// The characters with the Unicode property White_Space.
pub open spec fn white_space(c: char) -> bool {
    let n = c as int;
    ||| 9 <= n <= 13
    ||| n == 0x20
    ||| n == 0x85
    ||| n == 0xA0
    ||| n == 0x1680
    ||| 0x2000 <= n <= 0x200A
    ||| n == 0x2028
    ||| n == 0x2029
    ||| n == 0x202F
    ||| n == 0x205F
    ||| n == 0x3000
}

pub open spec fn trimmed_end(s: Text) -> Text
    decreases s.len(),
{
    if s.len() > 0 && white_space(s.last()) {
        trimmed_end(s.drop_last())
    } else {
        s
    }
}

pub open spec fn trimmed_start(s: Text) -> Text
    decreases s.len(),
{
    if s.len() > 0 && white_space(s[0]) {
        trimmed_start(s.drop_first())
    } else {
        s
    }
}

/// `s` without white space at either end.
pub open spec fn trimmed(s: Text) -> Text {
    trimmed_end(trimmed_start(s))
}

pub open spec fn digit(c: char) -> bool {
    '0' <= c <= '9'
}

pub open spec fn lower(c: char) -> bool {
    'a' <= c <= 'z'
}

pub open spec fn upper(c: char) -> bool {
    'A' <= c <= 'Z'
}

pub open spec fn alphanumeric(c: char) -> bool {
    digit(c) || lower(c) || upper(c)
}

pub open spec fn all_alphanumeric(s: Text) -> bool {
    forall|i: int| 0 <= i < s.len() ==> alphanumeric(#[trigger] s[i])
}

/// The position of the first `c` in `s`, or the length of `s`.
pub open spec fn index_of(s: Text, c: char) -> int
    decreases s.len(),
{
    if s.len() == 0 {
        0
    } else if s[0] == c {
        0
    } else {
        1 + index_of(s.drop_first(), c)
    }
}

/// The parts of `s` between the separators `c`.
pub open spec fn split(s: Text, c: char) -> Seq<Text>
    decreases s.len(),
{
    if s.len() == 0 {
        seq![Seq::<char>::empty()]
    } else if s.last() == c {
        split(s.drop_last(), c).push(Seq::<char>::empty())
    } else {
        let front = split(s.drop_last(), c);
        front.drop_last().push(front.last().push(s.last()))
    }
}

/// The texts one after another.
pub open spec fn concat(parts: Seq<Text>) -> Text
    decreases parts.len(),
{
    if parts.len() == 0 {
        Seq::empty()
    } else {
        concat(parts.drop_last()) + parts.last()
    }
}

/// The texts one after another with `separator` between them.
pub open spec fn join(parts: Seq<Text>, separator: Text) -> Text
    decreases parts.len(),
{
    if parts.len() == 0 {
        Seq::empty()
    } else if parts.len() == 1 {
        parts[0]
    } else {
        join(parts.drop_last(), separator) + separator + parts.last()
    }
}

/// Code points compared one by one; a proper prefix comes first.
pub open spec fn precedes(a: Text, b: Text) -> bool
    decreases a.len(),
{
    if b.len() == 0 {
        false
    } else if a.len() == 0 {
        true
    } else if a[0] != b[0] {
        a[0] < b[0]
    } else {
        precedes(a.drop_first(), b.drop_first())
    }
}

/// The views of a list of strings.
pub open spec fn texts(v: Seq<String>) -> Seq<Text> {
    Seq::new(v.len(), |i: int| v[i]@)
}

/// The view of an optional string.
pub open spec fn text_of(s: Option<String>) -> Option<Text> {
    match s {
        Some(s) => Some(s@),
        None => None,
    }
}

pub fn chars_of(s: &str) -> (v: Vec<char>)
    ensures
        v@ == s@,
{
    let mut v: Vec<char> = Vec::new();
    for c in it: s.chars()
        invariant
            v@ == s@.take(it.index() as int),
            it.seq() == s@,
    {
        v.push(c);
        assert(v@ == s@.take(it.index() + 1));
    }
    assert(s@.take(s@.len() as int) == s@);
    v
}

pub fn same(a: &str, b: &str) -> (r: bool)
    ensures
        r == (a@ == b@),
{
    a.to_owned() == b.to_owned()
}

pub fn is_white_space(c: char) -> (r: bool)
    ensures
        r == white_space(c),
{
    let n: u32 = c as u32;
    (9 <= n && n <= 13) || n == 0x20 || n == 0x85 || n == 0xA0 || n == 0x1680 || (0x2000 <= n && n
        <= 0x200A) || n == 0x2028 || n == 0x2029 || n == 0x202F || n == 0x205F || n == 0x3000
}

pub fn is_digit(c: char) -> (r: bool)
    ensures
        r == digit(c),
{
    '0' <= c && c <= '9'
}

pub fn is_alphanumeric(c: char) -> (r: bool)
    ensures
        r == alphanumeric(c),
{
    ('0' <= c && c <= '9') || ('a' <= c && c <= 'z') || ('A' <= c && c <= 'Z')
}

/// The part of `s` from character `from` to character `to`.
pub fn part<'a>(s: &'a str, from: usize, to: usize) -> (r: &'a str)
    requires
        from <= to <= s@.len(),
    ensures
        r@ == s@.subrange(from as int, to as int),
{
    s.substring_char(from, to)
}

/// A character in lower case, as far as it is a Latin letter.
pub open spec fn lowered_char(c: char) -> char {
    if upper(c) {
        (c as int + 32) as char
    } else {
        c
    }
}

/// A text in lower case, as far as it holds Latin letters.
pub open spec fn lowered(s: Text) -> Text {
    Seq::new(s.len(), |i: int| lowered_char(s[i]))
}

/// A text in lower case, as far as it holds Latin letters.
pub fn to_lower(s: &str) -> (r: String)
    ensures
        r@ == lowered(s@),
{
    let v = chars_of(s);
    let mut r: String = String::new();
    let mut i: usize = 0;
    while i < v.len()
        invariant
            i <= v@.len(),
            v@ == s@,
            r@ == lowered(s@).take(i as int),
        decreases v@.len() - i,
    {
        let c: char = v[i];
        let ghost before = r@;
        if c >= 'A' && c <= 'Z' {
            r.push((c as u8 + 32) as char);
        } else {
            r.push(c);
        }
        assert(r@ == before.push(lowered_char(c)));
        i += 1;
        assert(r@ == lowered(s@).take(i as int));
    }
    assert(lowered(s@).take(s@.len() as int) == lowered(s@));
    r
}

/// Whether `p` stands in `v` at position `at`.
pub fn stands_at(v: &Vec<char>, p: &Vec<char>, at: usize) -> (r: bool)
    ensures
        r == occurs_at(v@, p@, at as int),
{
    if at > v.len() || p.len() > v.len() - at {
        return false;
    }
    let mut i: usize = 0;
    while i < p.len()
        invariant
            i <= p@.len(),
            at + p.len() <= v.len(),
            forall|j: int| 0 <= j < i ==> v@[at + j] == p@[j],
        decreases p@.len() - i,
    {
        if v[at + i] != p[i] {
            assert(v@.subrange(at as int, at + p@.len())[i as int] == v@[at + i]);
            return false;
        }
        i += 1;
    }
    assert(v@.subrange(at as int, at + p@.len()) == p@);
    true
}

/// The first place at or after `from` at which `p` stands in `v`.
pub fn find_from(v: &Vec<char>, p: &Vec<char>, from: usize) -> (r: Option<usize>)
    requires
        from <= v@.len(),
    ensures
        match r {
            Some(at) => occurs_at(v@, p@, at as int) && from <= at && forall|j: int|
                from <= j < at ==> !occurs_at(v@, p@, j),
            None => forall|j: int| from <= j ==> !occurs_at(v@, p@, j),
        },
{
    let mut at: usize = from;
    while at < v.len()
        invariant
            from <= at <= v@.len(),
            forall|j: int| from <= j < at ==> !occurs_at(v@, p@, j),
        decreases v@.len() - at,
    {
        if stands_at(v, p, at) {
            return Some(at);
        }
        at += 1;
    }
    if stands_at(v, p, at) {
        Some(at)
    } else {
        None
    }
}

/// The first place of a text is the only one that is first.
pub proof fn lemma_first_is_found(s: Text, part: Text, at: int)
    requires
        first_at(s, part, at),
    ensures
        find(s, part) == Some(at),
{
    assert(contains(s, part));
    let other = choose|at: int| first_at(s, part, at);
    assert(first_at(s, part, other));
    if other < at {
        assert(!occurs_at(s, part, other));
    } else if at < other {
        assert(!occurs_at(s, part, at));
    }
}

/// `str::find` for a text.
pub fn find_text(s: &str, part: &str) -> (r: Option<usize>)
    ensures
        match r {
            Some(at) => find(s@, part@) == Some(at as int) && at + part@.len() <= s@.len(),
            None => find(s@, part@) is None,
        },
        r is Some ==> first_at(s@, part@, r->0 as int),
{
    let v = chars_of(s);
    let p = chars_of(part);
    let r = find_from(&v, &p, 0);
    proof {
        if r is Some {
            lemma_first_is_found(s@, part@, r->0 as int);
        }
    }
    r
}

pub fn has(s: &str, part: &str) -> (r: bool)
    ensures
        r == contains(s@, part@),
{
    find_text(s, part).is_some()
}

pub fn begins(s: &str, prefix: &str) -> (r: bool)
    ensures
        r == starts_with(s@, prefix@),
{
    let v = chars_of(s);
    let p = chars_of(prefix);
    stands_at(&v, &p, 0)
}

pub fn ends(s: &str, suffix: &str) -> (r: bool)
    ensures
        r == ends_with(s@, suffix@),
{
    let v = chars_of(s);
    let p = chars_of(suffix);
    if p.len() > v.len() {
        return false;
    }
    stands_at(&v, &p, v.len() - p.len())
}

pub fn strip_prefix<'a>(s: &'a str, prefix: &str) -> (r: Option<&'a str>)
    ensures
        match r {
            Some(rest) => after_prefix(s@, prefix@) == Some(rest@),
            None => after_prefix(s@, prefix@) is None,
        },
{
    if begins(s, prefix) {
        Some(part(s, prefix.unicode_len(), s.unicode_len()))
    } else {
        None
    }
}

pub fn strip_suffix<'a>(s: &'a str, suffix: &str) -> (r: Option<&'a str>)
    ensures
        match r {
            Some(rest) => before_suffix(s@, suffix@) == Some(rest@),
            None => before_suffix(s@, suffix@) is None,
        },
{
    if ends(s, suffix) {
        Some(part(s, 0, s.unicode_len() - suffix.unicode_len()))
    } else {
        None
    }
}

pub proof fn lemma_index_of(s: Text, c: char, at: int)
    requires
        0 <= at <= s.len(),
        forall|j: int| 0 <= j < at ==> s[j] != c,
        at < s.len() ==> s[at] == c,
    ensures
        index_of(s, c) == at,
    decreases s.len(),
{
    if at > 0 {
        assert(s[0] != c);
        assert forall|j: int| 0 <= j < at - 1 implies s.drop_first()[j] != c by {
            assert(s.drop_first()[j] == s[j + 1]);
        }
        if at < s.len() {
            assert(s.drop_first()[at - 1] == s[at]);
        }
        lemma_index_of(s.drop_first(), c, at - 1);
    }
}

/// The position of the first `c`, or the number of characters.
pub fn position(s: &str, c: char) -> (at: usize)
    ensures
        at == index_of(s@, c),
        at <= s@.len(),
        forall|j: int| 0 <= j < at ==> s@[j] != c,
        at < s@.len() ==> s@[at as int] == c,
{
    let v = chars_of(s);
    let mut at: usize = 0;
    while at < v.len() && v[at] != c
        invariant
            at <= v@.len(),
            forall|j: int| 0 <= j < at ==> v@[j] != c,
        decreases v@.len() - at,
    {
        at += 1;
    }
    proof {
        lemma_index_of(v@, c, at as int);
    }
    at
}

proof fn lemma_trimmed_end(s: Text, to: int)
    requires
        0 <= to <= s.len(),
        forall|j: int| to <= j < s.len() ==> white_space(s[j]),
        to > 0 ==> !white_space(s[to - 1]),
    ensures
        trimmed_end(s) == s.take(to),
    decreases s.len(),
{
    if to < s.len() {
        lemma_trimmed_end(s.drop_last(), to);
        assert(s.drop_last().take(to) == s.take(to));
    } else {
        assert(s.take(to) == s);
    }
}

proof fn lemma_trimmed_start(s: Text, from: int)
    requires
        0 <= from <= s.len(),
        forall|j: int| 0 <= j < from ==> white_space(s[j]),
        from < s.len() ==> !white_space(s[from]),
    ensures
        trimmed_start(s) == s.skip(from),
    decreases s.len(),
{
    if from > 0 {
        assert forall|j: int| 0 <= j < from - 1 implies white_space(s.drop_first()[j]) by {
            assert(s.drop_first()[j] == s[j + 1]);
        }
        lemma_trimmed_start(s.drop_first(), from - 1);
        assert(s.drop_first().skip(from - 1) == s.skip(from));
    } else {
        assert(s.skip(0) == s);
    }
}

/// A text that neither begins nor ends with white space is its own trimming.
pub proof fn lemma_trimmed_is_same(s: Text)
    requires
        s.len() > 0,
        !white_space(s[0]),
        !white_space(s.last()),
    ensures
        trimmed(s) == s,
{
    lemma_trimmed_start(s, 0);
    assert(s.skip(0) == s);
    lemma_trimmed_end(s, s.len() as int);
    assert(s.take(s.len() as int) == s);
}

/// `str::trim`.
pub fn trim<'a>(s: &'a str) -> (r: &'a str)
    ensures
        r@ == trimmed(s@),
{
    let v = chars_of(s);
    let mut from: usize = 0;
    while from < v.len() && is_white_space(v[from])
        invariant
            from <= v@.len(),
            forall|j: int| 0 <= j < from ==> white_space(v@[j]),
        decreases v@.len() - from,
    {
        from += 1;
    }
    proof {
        lemma_trimmed_start(v@, from as int);
    }
    let mut to: usize = v.len();
    while to > from && is_white_space(v[to - 1])
        invariant
            from <= to <= v@.len(),
            forall|j: int| to <= j < v@.len() ==> white_space(v@[j]),
        decreases to,
    {
        to -= 1;
    }
    proof {
        let rest = v@.skip(from as int);
        assert forall|j: int| to - from <= j < rest.len() implies white_space(rest[j]) by {
            assert(rest[j] == v@[from + j]);
        }
        lemma_trimmed_end(rest, to - from);
        assert(rest.take(to - from) == v@.subrange(from as int, to as int));
    }
    part(s, from, to)
}

/// A text without the `c`s at its end.
pub open spec fn without_last(s: Text, c: char) -> Text
    decreases s.len(),
{
    if s.len() > 0 && s.last() == c {
        without_last(s.drop_last(), c)
    } else {
        s
    }
}

/// `str::trim_end_matches` of one character.
pub fn drop_last_of<'a>(s: &'a str, c: char) -> (r: &'a str)
    ensures
        r@ == without_last(s@, c),
{
    let v = chars_of(s);
    let mut to: usize = v.len();
    assert(v@.take(v@.len() as int) == v@);
    while to > 0 && v[to - 1] == c
        invariant
            to <= v@.len(),
            without_last(v@.take(to as int), c) == without_last(v@, c),
        decreases to,
    {
        assert(v@.take(to as int).drop_last() == v@.take(to - 1));
        to -= 1;
    }
    assert(v@.subrange(0, to as int) == v@.take(to as int));
    part(s, 0, to)
}

/// Whether a text holds nothing but ASCII letters and digits.
pub fn is_all_alphanumeric(s: &str) -> (r: bool)
    ensures
        r == all_alphanumeric(s@),
{
    let v = chars_of(s);
    let mut i: usize = 0;
    while i < v.len()
        invariant
            i <= v@.len(),
            v@ == s@,
            forall|j: int| 0 <= j < i ==> alphanumeric(#[trigger] v@[j]),
        decreases v@.len() - i,
    {
        if !is_alphanumeric(v[i]) {
            assert(!alphanumeric(s@[i as int]));
            return false;
        }
        i += 1;
    }
    true
}

fn smaller(a: char, b: char) -> (r: bool)
    ensures
        r == (a < b),
{
    (a as u32) < (b as u32)
}

/// Whether `a` comes before `b` in the order of their code points.
pub fn is_before(a: &str, b: &str) -> (r: bool)
    ensures
        r == precedes(a@, b@),
{
    let v = chars_of(a);
    let w = chars_of(b);
    let mut i: usize = 0;
    assert(v@.skip(0) == v@ && w@.skip(0) == w@);
    while i < v.len() && i < w.len()
        invariant
            i <= v@.len(),
            i <= w@.len(),
            v@ == a@,
            w@ == b@,
            precedes(v@, w@) == precedes(v@.skip(i as int), w@.skip(i as int)),
        decreases v@.len() - i,
    {
        assert(v@.skip(i as int)[0] == v@[i as int] && w@.skip(i as int)[0] == w@[i as int]);
        if v[i] != w[i] {
            return smaller(v[i], w[i]);
        }
        assert(v@.skip(i as int).drop_first() == v@.skip(i + 1));
        assert(w@.skip(i as int).drop_first() == w@.skip(i + 1));
        i += 1;
    }
    i < w.len()
}

/// The order of texts is strict, total and transitive.
pub proof fn lemma_precedes(a: Text, b: Text, c: Text)
    ensures
        !precedes(a, a),
        !(precedes(a, b) && precedes(b, a)),
        a != b ==> precedes(a, b) || precedes(b, a),
        precedes(a, b) && precedes(b, c) ==> precedes(a, c),
    decreases a.len() + b.len() + c.len(),
{
    if a.len() > 0 {
        lemma_precedes(a.drop_first(), Seq::empty(), Seq::empty());
    }
    if a.len() > 0 && b.len() > 0 {
        if a[0] == b[0] {
            if a != b {
                assert(a == seq![a[0]] + a.drop_first());
                assert(b == seq![b[0]] + b.drop_first());
            }
            lemma_precedes(a.drop_first(), b.drop_first(), if c.len() > 0 {
                c.drop_first()
            } else {
                c
            });
        }
    } else if a.len() == 0 && b.len() == 0 {
        assert(a == b);
    }
}

/// A text without the separator is its only part.
pub proof fn lemma_one_part(s: Text, c: char)
    requires
        !s.contains(c),
    ensures
        split(s, c) == seq![s],
    decreases s.len(),
{
    if s.len() > 0 {
        let front = s.drop_last();
        assert forall|i: int| 0 <= i < front.len() implies front[i] != c by {
            assert(s.contains(s[i]));
        }
        lemma_one_part(front, c);
        assert(s.contains(s.last()));
        assert(front.push(s.last()) == s);
        assert(split(s, c) =~= seq![s]);
    } else {
        assert(s == Seq::<char>::empty());
    }
}

/// `str::split` at every `c`.
pub fn split_at_each(s: &str, c: char) -> (parts: Vec<String>)
    ensures
        texts(parts@) == split(s@, c),
{
    let v = chars_of(s);
    let mut parts: Vec<String> = Vec::new();
    let mut current: String = String::new();
    let mut i: usize = 0;
    assert(texts(parts@).push(current@) == split(v@.take(0), c));
    while i < v.len()
        invariant
            i <= v@.len(),
            texts(parts@).push(current@) == split(v@.take(i as int), c),
        decreases v@.len() - i,
    {
        let ghost sofar = split(v@.take(i as int), c);
        assert(v@.take(i + 1).drop_last() == v@.take(i as int));
        assert(sofar.drop_last() == texts(parts@));
        if v[i] == c {
            let ghost before = parts@;
            parts.push(current);
            assert(texts(parts@) == sofar);
            current = String::new();
        } else {
            current.push(v[i]);
        }
        i += 1;
    }
    assert(v@.take(v@.len() as int) == v@);
    parts.push(current);
    assert(texts(parts@) == split(s@, c));
    parts
}

pub fn concat_all(parts: &Vec<String>) -> (r: String)
    ensures
        r@ == concat(texts(parts@)),
{
    let mut r: String = String::new();
    let mut i: usize = 0;
    while i < parts.len()
        invariant
            i <= parts@.len(),
            r@ == concat(texts(parts@).take(i as int)),
        decreases parts@.len() - i,
    {
        assert(texts(parts@).take(i + 1).drop_last() == texts(parts@).take(i as int));
        r.append(parts[i].as_str());
        i += 1;
    }
    assert(texts(parts@).take(parts@.len() as int) == texts(parts@));
    r
}

pub fn join_all(parts: &Vec<String>, separator: &str) -> (r: String)
    ensures
        r@ == join(texts(parts@), separator@),
{
    let mut r: String = String::new();
    let mut i: usize = 0;
    while i < parts.len()
        invariant
            i <= parts@.len(),
            r@ == join(texts(parts@).take(i as int), separator@),
        decreases parts@.len() - i,
    {
        assert(texts(parts@).take(i + 1).drop_last() == texts(parts@).take(i as int));
        if i > 0 {
            r.append(separator);
        }
        r.append(parts[i].as_str());
        i += 1;
        proof {
            if i == 1 {
                assert(r@ == texts(parts@).take(1)[0]);
            }
        }
    }
    assert(texts(parts@).take(parts@.len() as int) == texts(parts@));
    r
}

/// Whether a list of strings holds this text.
pub fn listed(list: &Vec<String>, s: &str) -> (r: bool)
    ensures
        r == texts(list@).contains(s@),
{
    let mut i: usize = 0;
    while i < list.len()
        invariant
            i <= list@.len(),
            forall|j: int| 0 <= j < i ==> list@[j]@ != s@,
        decreases list@.len() - i,
    {
        if same(list[i].as_str(), s) {
            assert(texts(list@)[i as int] == s@);
            return true;
        }
        i += 1;
    }
    assert forall|j: int| 0 <= j < texts(list@).len() implies texts(list@)[j] != s@ by {
        assert(texts(list@)[j] == list@[j]@);
    }
    false
}

pub fn copy_list(list: &Vec<String>) -> (r: Vec<String>)
    ensures
        r@ == list@,
{
    let mut r: Vec<String> = Vec::new();
    let mut i: usize = 0;
    while i < list.len()
        invariant
            i <= list@.len(),
            r@ == list@.take(i as int),
        decreases list@.len() - i,
    {
        r.push(list[i].clone());
        i += 1;
        assert(r@ == list@.take(i as int));
    }
    assert(list@.take(list@.len() as int) == list@);
    r
}

pub fn copy_text(s: &Option<String>) -> (r: Option<String>)
    ensures
        r == *s,
{
    match s {
        Some(s) => Some(s.clone()),
        None => None,
    }
}

/// Whether an optional text is this one.
pub fn is_text(s: &Option<String>, t: &str) -> (r: bool)
    ensures
        r == (text_of(*s) == Some(t@)),
{
    match s {
        Some(s) => same(s.as_str(), t),
        None => false,
    }
}

/// Whether two optional texts are the same.
pub fn same_text(a: &Option<String>, b: &Option<String>) -> (r: bool)
    ensures
        r == (text_of(*a) == text_of(*b)),
{
    match (a, b) {
        (Some(a), Some(b)) => same(a.as_str(), b.as_str()),
        (None, None) => true,
        _ => false,
    }
}

/// Whether two lists hold the same texts in the same order.
pub fn same_list(a: &Vec<String>, b: &Vec<String>) -> (r: bool)
    ensures
        r == (texts(a@) == texts(b@)),
{
    if a.len() != b.len() {
        assert(texts(a@).len() != texts(b@).len());
        return false;
    }
    let mut i: usize = 0;
    while i < a.len()
        invariant
            i <= a@.len(),
            a@.len() == b@.len(),
            forall|j: int| 0 <= j < i ==> a@[j]@ == b@[j]@,
        decreases a@.len() - i,
    {
        if !same(a[i].as_str(), b[i].as_str()) {
            assert(texts(a@)[i as int] != texts(b@)[i as int]);
            return false;
        }
        i += 1;
    }
    assert(texts(a@) == texts(b@));
    true
}

/// One decimal digit.
pub open spec fn digit_char(n: int) -> char {
    ('0' as int + n) as char
}

/// A number in decimal digits, without leading zeros.
pub open spec fn decimal(n: nat) -> Text
    decreases n,
{
    if n < 10 {
        seq![digit_char(n as int)]
    } else {
        decimal(n / 10).push(digit_char((n % 10) as int))
    }
}

/// A number in at least `width` digits.
pub open spec fn padded(n: nat, width: nat) -> Text
    decreases width,
{
    if width <= 1 {
        decimal(n)
    } else {
        padded(n / 10, (width - 1) as nat).push(digit_char((n % 10) as int))
    }
}

/// A number with a minus sign where it is negative.
pub open spec fn signed_decimal(n: int) -> Text {
    if n < 0 {
        seq!['-'] + decimal((-n) as nat)
    } else {
        decimal(n as nat)
    }
}

fn digit_of(n: u64) -> (c: char)
    requires
        n < 10,
    ensures
        c == digit_char(n as int),
{
    (48u8 + n as u8) as char
}

pub fn number(n: u64) -> (r: String)
    ensures
        r@ == decimal(n as nat),
    decreases n,
{
    if n < 10 {
        let mut r: String = String::new();
        r.push(digit_of(n));
        assert(r@ == seq![digit_char(n as int)]);
        r
    } else {
        let mut r = number(n / 10);
        r.push(digit_of(n % 10));
        r
    }
}

pub fn padded_number(n: u64, width: usize) -> (r: String)
    ensures
        r@ == padded(n as nat, width as nat),
    decreases width,
{
    if width <= 1 {
        number(n)
    } else {
        let mut r = padded_number(n / 10, width - 1);
        r.push(digit_of(n % 10));
        r
    }
}

pub fn signed_number(n: i64) -> (r: String)
    ensures
        r@ == signed_decimal(n as int),
{
    if n < 0 {
        let mut r: String = String::new();
        r.push('-');
        let up: u64 = (-(n + 1)) as u64 + 1;
        r.append(number(up).as_str());
        assert(r@ == seq!['-'] + decimal((-n) as nat));
        r
    } else {
        number(n as u64)
    }
}

/// Two texts one after the other.
pub fn glue(a: &str, b: &str) -> (r: String)
    ensures
        r@ == a@ + b@,
{
    let mut r = a.to_owned();
    r.append(b);
    r
}

/// A sorted list with one more text in its place, behind those equal to it.
pub open spec fn insert_text(s: Seq<Text>, x: Text) -> Seq<Text>
    decreases s.len(),
{
    if s.len() > 0 && precedes(x, s.last()) {
        insert_text(s.drop_last(), x).push(s.last())
    } else {
        s.push(x)
    }
}

/// The texts in the order of their code points.
pub open spec fn sorted_texts(s: Seq<Text>) -> Seq<Text>
    decreases s.len(),
{
    if s.len() == 0 {
        s
    } else {
        insert_text(sorted_texts(s.drop_last()), s.last())
    }
}

/// No text comes before one that stands in front of it.
pub open spec fn in_order(s: Seq<Text>) -> bool {
    forall|i: int, j: int| 0 <= i < j < s.len() ==> !(#[trigger] precedes(s[j], s[i]))
}

proof fn lemma_insert_text(s: Seq<Text>, x: Text)
    requires
        in_order(s),
    ensures
        in_order(insert_text(s, x)),
        insert_text(s, x).to_multiset() == s.to_multiset().insert(x),
        insert_text(s, x).len() == s.len() + 1,
        forall|k: int|
            0 <= k < insert_text(s, x).len() ==> (#[trigger] insert_text(s, x)[k]) == x || exists|
                m: int,
            |
                0 <= m < s.len() && s[m] == insert_text(s, x)[k],
    decreases s.len(),
{
    broadcast use vstd::seq_lib::group_to_multiset_ensures;

    let r = insert_text(s, x);
    if s.len() > 0 && precedes(x, s.last()) {
        let front = s.drop_last();
        assert(in_order(front)) by {
            assert forall|i: int, j: int| 0 <= i < j < front.len() implies !(#[trigger] precedes(
                front[j],
                front[i],
            )) by {
                assert(!precedes(s[j], s[i]));
            }
        }
        lemma_insert_text(front, x);
        let inner = insert_text(front, x);
        assert(s == front.push(s.last()));
        assert(r.to_multiset() =~= s.to_multiset().insert(x));
        assert forall|k: int| 0 <= k < r.len() implies (#[trigger] r[k]) == x || exists|m: int|
            0 <= m < s.len() && s[m] == r[k] by {
            if k < inner.len() {
                if inner[k] != x {
                    let m = choose|m: int| 0 <= m < front.len() && front[m] == inner[k];
                    assert(s[m] == r[k]);
                }
            } else {
                assert(s[s.len() - 1] == r[k]);
            }
        }
        assert forall|i: int, j: int| 0 <= i < j < r.len() implies !(#[trigger] precedes(
            r[j],
            r[i],
        )) by {
            if j < inner.len() {
                assert(!precedes(inner[j], inner[i]));
            } else {
                if inner[i] == x {
                    lemma_precedes(x, s.last(), x);
                } else {
                    let m = choose|m: int| 0 <= m < front.len() && front[m] == inner[i];
                    assert(!precedes(s[s.len() - 1], s[m]));
                }
            }
        }
    } else {
        assert(r == s.push(x));
        assert forall|k: int| 0 <= k < r.len() implies (#[trigger] r[k]) == x || exists|m: int|
            0 <= m < s.len() && s[m] == r[k] by {
            if k < s.len() {
                assert(s[k] == r[k]);
            }
        }
        assert forall|i: int, j: int| 0 <= i < j < r.len() implies !(#[trigger] precedes(
            r[j],
            r[i],
        )) by {
            if j < s.len() {
                assert(!precedes(s[j], s[i]));
            } else {
                let last = s.last();
                lemma_precedes(x, s[i], last);
                lemma_precedes(x, last, s[i]);
                if i < s.len() - 1 {
                    assert(!precedes(s[s.len() - 1], s[i]));
                    lemma_precedes(last, s[i], x);
                    lemma_precedes(s[i], last, x);
                    lemma_precedes(x, s[i], last);
                }
            }
        }
    }
}

/// Sorting keeps the texts and puts them in order.
pub proof fn law_sorted(s: Seq<Text>)
    ensures
        in_order(sorted_texts(s)),
        sorted_texts(s).to_multiset() == s.to_multiset(),
    decreases s.len(),
{
    broadcast use vstd::seq_lib::group_to_multiset_ensures;

    if s.len() > 0 {
        law_sorted(s.drop_last());
        lemma_insert_text(sorted_texts(s.drop_last()), s.last());
        assert(s == s.drop_last().push(s.last()));
    }
}

/// Sorting forgets the order that the texts stood in.
pub proof fn law_sorting_forgets_the_order(a: Seq<Text>, b: Seq<Text>)
    requires
        a.to_multiset() == b.to_multiset(),
    ensures
        sorted_texts(a) == sorted_texts(b),
{
    let leq = |x: Text, y: Text| !precedes(y, x);
    law_sorted(a);
    law_sorted(b);
    assert forall|x: Text| #[trigger] leq(x, x) by {
        lemma_precedes(x, x, x);
    }
    assert forall|x: Text, y: Text| #[trigger] leq(x, y) && #[trigger] leq(y, x) implies x
        == y by {
        lemma_precedes(x, y, x);
    }
    assert forall|x: Text, y: Text| #[trigger] leq(x, y) || #[trigger] leq(y, x) by {
        lemma_precedes(x, y, x);
    }
    assert forall|x: Text, y: Text, z: Text| #[trigger]
        leq(x, y) && #[trigger] leq(y, z) implies leq(x, z) by {
        lemma_precedes(x, y, z);
        lemma_precedes(z, x, y);
        lemma_precedes(y, z, x);
        lemma_precedes(z, y, x);
    }
    assert(vstd::relations::total_ordering(leq));
    assert(vstd::relations::sorted_by(sorted_texts(a), leq));
    assert(vstd::relations::sorted_by(sorted_texts(b), leq));
    vstd::seq_lib::lemma_sorted_unique(sorted_texts(a), sorted_texts(b), leq);
}

fn put_sorted(list: &mut Vec<String>, one: String)
    ensures
        texts(final(list)@) == insert_text(texts(old(list)@), one@),
{
    let ghost s = texts(list@);
    let mut at: usize = list.len();
    assert(s.take(at as int) == s);
    assert(insert_text(s, one@) == insert_text(s.take(at as int), one@) + s.skip(at as int));
    while at > 0 && is_before(one.as_str(), list[at - 1].as_str())
        invariant
            at <= list@.len(),
            s == texts(list@),
            insert_text(s, one@) == insert_text(s.take(at as int), one@) + s.skip(at as int),
        decreases at,
    {
        let ghost front = s.take(at as int);
        assert(front.last() == list@[at - 1]@);
        assert(front.drop_last() == s.take(at - 1));
        assert(insert_text(s.take(at - 1), one@).push(front.last()) + s.skip(at as int)
            == insert_text(s.take(at - 1), one@) + s.skip(at - 1));
        at -= 1;
    }
    let ghost front = s.take(at as int);
    if at > 0 {
        assert(front.last() == list@[at - 1]@);
    }
    let ghost x = one@;
    list.insert(at, one);
    assert(texts(list@) == front.push(x) + s.skip(at as int));
}

/// The texts in the order of their code points, equal ones as they stood.
pub fn sort_texts(list: &Vec<String>) -> (r: Vec<String>)
    ensures
        texts(r@) == sorted_texts(texts(list@)),
{
    let mut r: Vec<String> = Vec::new();
    let ghost all = texts(list@);
    let mut i: usize = 0;
    assert(texts(r@) == all.take(0));
    while i < list.len()
        invariant
            i <= list@.len(),
            all == texts(list@),
            texts(r@) == sorted_texts(all.take(i as int)),
        decreases list@.len() - i,
    {
        assert(all.take(i + 1).drop_last() == all.take(i as int));
        put_sorted(&mut r, list[i].clone());
        i += 1;
    }
    assert(all.take(all.len() as int) == all);
    r
}

/// Whether two lists hold the same texts, each as often, in any order.
pub fn same_bag(a: &Vec<String>, b: &Vec<String>) -> (r: bool)
    ensures
        r == (texts(a@).to_multiset() == texts(b@).to_multiset()),
{
    broadcast use vstd::seq_lib::group_to_multiset_ensures;

    let mut rest = copy_list(b);
    let ghost all = texts(a@);
    let ghost whole = texts(b@).to_multiset();
    let mut i: usize = 0;
    assert(all.take(0) =~= Seq::<Text>::empty());
    assert(all.take(0).to_multiset().add(texts(rest@).to_multiset()) =~= whole);
    while i < a.len()
        invariant
            i <= a@.len(),
            all == texts(a@),
            whole == texts(b@).to_multiset(),
            all.take(i as int).to_multiset().add(texts(rest@).to_multiset()) == whole,
        decreases a@.len() - i,
    {
        let ghost bag = texts(rest@);
        let mut at: usize = 0;
        while at < rest.len() && !same(rest[at].as_str(), a[i].as_str())
            invariant
                i < a@.len(),
                at <= rest@.len(),
                bag == texts(rest@),
                forall|j: int| 0 <= j < at ==> bag[j] != a@[i as int]@,
            decreases rest@.len() - at,
        {
            at += 1;
        }
        assert(all.take(i + 1) == all.take(i as int).push(all[i as int]));
        if at == rest.len() {
            proof {
                lemma_bag_lacks(all, i as int, bag, whole);
            }
            return false;
        }
        rest.remove(at);
        assert(texts(rest@) == bag.remove(at as int));
        proof {
            lemma_bag_moves(all, i as int, bag, at as int, whole);
        }
        i += 1;
    }
    assert(all.take(all.len() as int) == all);
    if rest.len() == 0 {
        assert(texts(rest@) =~= Seq::<Text>::empty());
        assert(all.to_multiset() =~= whole);
        true
    } else {
        proof {
            let x = texts(rest@)[0];
            assert(texts(rest@).contains(x));
            assert(texts(rest@).to_multiset().count(x) > 0);
            assert(whole.count(x) > all.to_multiset().count(x));
        }
        false
    }
}

proof fn lemma_bag_lacks(
    all: Seq<Text>,
    i: int,
    bag: Seq<Text>,
    whole: vstd::multiset::Multiset<Text>,
)
    requires
        0 <= i < all.len(),
        all.take(i).to_multiset().add(bag.to_multiset()) == whole,
        forall|j: int| 0 <= j < bag.len() ==> bag[j] != all[i],
    ensures
        all.to_multiset() != whole,
{
    broadcast use vstd::seq_lib::group_to_multiset_ensures;

    let x = all[i];
    assert(!bag.contains(x));
    assert(bag.to_multiset().count(x) == 0);
    assert(all.take(i + 1) == all.take(i).push(x));
    lemma_prefix_bag(all, i + 1, x);
}

proof fn lemma_bag_moves(
    all: Seq<Text>,
    i: int,
    bag: Seq<Text>,
    at: int,
    whole: vstd::multiset::Multiset<Text>,
)
    requires
        0 <= i < all.len(),
        0 <= at < bag.len(),
        bag[at] == all[i],
        all.take(i).to_multiset().add(bag.to_multiset()) == whole,
    ensures
        all.take(i + 1).to_multiset().add(bag.remove(at).to_multiset()) == whole,
{
    broadcast use vstd::seq_lib::group_to_multiset_ensures;

    let x = all[i];
    assert(bag.contains(x));
    assert(bag.to_multiset().count(x) > 0);
    assert(all.take(i + 1) == all.take(i).push(x));
    assert(bag.remove(at).to_multiset() =~= bag.to_multiset().remove(x));
    assert(all.take(i + 1).to_multiset().add(bag.remove(at).to_multiset()) =~= whole);
}

proof fn lemma_prefix_bag(s: Seq<Text>, n: int, x: Text)
    requires
        0 <= n <= s.len(),
    ensures
        s.take(n).to_multiset().count(x) <= s.to_multiset().count(x),
    decreases s.len() - n,
{
    broadcast use vstd::seq_lib::group_to_multiset_ensures;

    if n == s.len() {
        assert(s.take(n) == s);
    } else {
        assert(s.take(n + 1) == s.take(n).push(s[n]));
        lemma_prefix_bag(s, n + 1, x);
    }
}

/// The number that a text of decimal digits stands for.
pub open spec fn digits_value(s: Text) -> Option<nat>
    decreases s.len(),
{
    if s.len() == 0 {
        None
    } else if !digit(s.last()) {
        None
    } else if s.len() == 1 {
        Some((s[0] as int - '0' as int) as nat)
    } else {
        match digits_value(s.drop_last()) {
            Some(n) => Some(n * 10 + (s.last() as int - '0' as int) as nat),
            None => None,
        }
    }
}

pub proof fn lemma_no_digits(s: Text, i: int)
    requires
        0 <= i < s.len(),
        !digit(s[i]),
    ensures
        digits_value(s) is None,
    decreases s.len(),
{
    if i < s.len() - 1 {
        lemma_no_digits(s.drop_last(), i);
    }
}

/// The number that decimal digits stand for, where it is at most `most`.
pub fn parse_digits(v: &Vec<char>, most: u64) -> (r: Option<u64>)
    requires
        most <= 9_223_372_036_854_775_807,
    ensures
        match r {
            Some(n) => digits_value(v@) == Some(n as nat) && n <= most,
            None => digits_value(v@) is None || digits_value(v@)->0 > most,
        },
{
    if v.len() == 0 {
        return None;
    }
    let mut n: u64 = 0;
    let mut i: usize = 0;
    while i < v.len()
        invariant
            i <= v@.len(),
            n <= most,
            most <= 9_223_372_036_854_775_807,
            i == 0 ==> n == 0,
            i > 0 ==> digits_value(v@.take(i as int)) == Some(n as nat),
        decreases v@.len() - i,
    {
        let c = v[i];
        assert(v@.take(i + 1).last() == c);
        assert(v@.take(i + 1).drop_last() == v@.take(i as int));
        if !is_digit(c) {
            proof {
                lemma_no_digits(v@, i as int);
            }
            return None;
        }
        let d: u128 = (c as u32 - 48) as u128;
        let m: u128 = n as u128 * 10 + d;
        if m > most as u128 {
            proof {
                assert(digits_value(v@.take(i + 1)) == Some(m as nat));
                lemma_digits_grow(v@, i + 1);
            }
            return None;
        }
        n = m as u64;
        i += 1;
    }
    assert(v@.take(i as int) == v@);
    Some(n)
}

proof fn lemma_digits_grow(s: Text, n: int)
    requires
        1 <= n <= s.len(),
        digits_value(s.take(n)) is Some,
    ensures
        digits_value(s) is None || digits_value(s)->0 >= digits_value(s.take(n))->0,
    decreases s.len(),
{
    if n < s.len() {
        assert(s.drop_last().take(n) == s.take(n));
        lemma_digits_grow(s.drop_last(), n);
    } else {
        assert(s.take(n) == s);
    }
}

/// A text between quotes, as programmers write it.
pub uninterp spec fn quoted(s: Text) -> Text;

/// `<str as std::fmt::Debug>::fmt`: the text between quotes, with escapes. It depends
/// on the text alone.
#[verifier::external_body]
pub(crate) fn quote(s: &str) -> (r: String)
    ensures
        r@ == quoted(s@),
{
    format!("{s:?}")
}

} // verus!
