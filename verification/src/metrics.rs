//! Samples out of the text that a metrics endpoint serves.

use vstd::prelude::*;

use crate::number;
use crate::number::is_number;
use crate::text;
use crate::text::chars_of;

verus! {

// --------------------------------------------------------------------- text

/// `s` from its first character on that is no white space.
pub open spec fn trimmed_start(s: Seq<char>) -> Seq<char>
    decreases s.len(),
{
    if s.len() > 0 && text::white_space(s[0]) {
        trimmed_start(s.skip(1))
    } else {
        s
    }
}

/// `s` up to its last character that is no white space.
pub open spec fn trimmed_end(s: Seq<char>) -> Seq<char>
    decreases s.len(),
{
    if s.len() > 0 && text::white_space(s.last()) {
        trimmed_end(s.drop_last())
    } else {
        s
    }
}

/// `s` without white space at either end.
pub open spec fn trimmed(s: Seq<char>) -> Seq<char> {
    trimmed_end(trimmed_start(s))
}

/// `s` from its first character on that is no white space.
pub fn trim_start(s: &str) -> (r: &str)
    ensures
        r@ == trimmed_start(s@),
{
    let v = chars_of(s);
    let mut i: usize = 0;
    assert(v@.skip(0) =~= v@);
    while i < v.len() && v[i].is_whitespace()
        invariant
            i <= v@.len(),
            v@ == s@,
            trimmed_start(s@) == trimmed_start(v@.skip(i as int)),
        decreases v@.len() - i,
    {
        assert(v@.skip(i as int).skip(1) =~= v@.skip(i + 1));
        i = i + 1;
    }
    assert(v@.skip(i as int) =~= s@.subrange(i as int, s@.len() as int));
    s.substring_char(i, v.len())
}

/// `s` up to its last character that is no white space.
pub fn trim_end(s: &str) -> (r: &str)
    ensures
        r@ == trimmed_end(s@),
{
    let v = chars_of(s);
    let mut n: usize = v.len();
    assert(v@.take(n as int) =~= v@);
    while n > 0 && v[n - 1].is_whitespace()
        invariant
            n <= v@.len(),
            v@ == s@,
            trimmed_end(s@) == trimmed_end(v@.take(n as int)),
        decreases n,
    {
        assert(v@.take(n as int).drop_last() =~= v@.take(n - 1));
        n = n - 1;
    }
    assert(v@.take(n as int) =~= s@.subrange(0, n as int));
    s.substring_char(0, n)
}

/// `s` without white space at either end.
pub fn trim(s: &str) -> (r: &str)
    ensures
        r@ == trimmed(s@),
{
    trim_end(trim_start(s))
}

/// Where `c` occurs first.
pub open spec fn first_of(s: Seq<char>, c: char) -> Option<int>
    decreases s.len(),
{
    if s.len() == 0 {
        None
    } else {
        match first_of(s.drop_last(), c) {
            Some(i) => Some(i),
            None => if s.last() == c {
                Some(s.len() - 1)
            } else {
                None
            },
        }
    }
}

/// Where `c` occurs last.
pub open spec fn last_of(s: Seq<char>, c: char) -> Option<int>
    decreases s.len(),
{
    if s.len() == 0 {
        None
    } else if s.last() == c {
        Some(s.len() - 1)
    } else {
        last_of(s.drop_last(), c)
    }
}

proof fn lemma_first_of_prefix(s: Seq<char>, c: char, k: int)
    requires
        0 <= k <= s.len(),
        first_of(s.take(k), c) is Some,
    ensures
        first_of(s, c) == first_of(s.take(k), c),
    decreases s.len(),
{
    if k == s.len() {
        assert(s.take(k) =~= s);
    } else {
        assert(s.drop_last().take(k) =~= s.take(k));
        lemma_first_of_prefix(s.drop_last(), c, k);
    }
}

/// Where `c` occurs first.
pub fn find_first(v: &Vec<char>, c: char) -> (r: Option<usize>)
    ensures
        match r {
            Some(i) => i < v@.len() && first_of(v@, c) == Some(i as int),
            None => first_of(v@, c) is None,
        },
{
    let mut i: usize = 0;
    while i < v.len()
        invariant
            i <= v@.len(),
            first_of(v@.take(i as int), c) is None,
        decreases v@.len() - i,
    {
        assert(v@.take(i + 1).drop_last() =~= v@.take(i as int));
        if v[i] == c {
            proof {
                lemma_first_of_prefix(v@, c, i + 1);
            }
            return Some(i);
        }
        i = i + 1;
    }
    assert(v@.take(i as int) =~= v@);
    None
}

fn find_last(v: &Vec<char>, c: char) -> (r: Option<usize>)
    ensures
        match r {
            Some(i) => i < v@.len() && last_of(v@, c) == Some(i as int),
            None => last_of(v@, c) is None,
        },
{
    let mut n: usize = v.len();
    assert(v@.take(n as int) =~= v@);
    while n > 0
        invariant
            n <= v@.len(),
            last_of(v@, c) == last_of(v@.take(n as int), c),
        decreases n,
    {
        assert(v@.take(n as int).drop_last() =~= v@.take(n - 1));
        if v[n - 1] == c {
            return Some(n - 1);
        }
        n = n - 1;
    }
    None
}

// ------------------------------------------------------------------- quotes

/// How a text stands at its end: inside quotes, and right behind a backslash
/// that takes the next character's meaning away.
pub struct Quoting {
    pub in_quotes: bool,
    pub escaped: bool,
}

/// How `s` stands at its end.
pub open spec fn quoting(s: Seq<char>) -> Quoting
    decreases s.len(),
{
    if s.len() == 0 {
        Quoting { in_quotes: false, escaped: false }
    } else {
        let before = quoting(s.drop_last());
        if before.escaped {
            Quoting { in_quotes: before.in_quotes, escaped: false }
        } else if s.last() == '\\' {
            Quoting { in_quotes: before.in_quotes, escaped: true }
        } else if s.last() == '"' {
            Quoting { in_quotes: !before.in_quotes, escaped: false }
        } else {
            before
        }
    }
}

/// The character at `i` stands for itself, outside of quotes.
pub open spec fn plain_at(s: Seq<char>, i: int) -> bool {
    !quoting(s.take(i)).in_quotes && !quoting(s.take(i)).escaped
}

/// The selector of the line ends at `i`: the first white space that stands
/// outside of quotes.
pub open spec fn selector_ends(s: Seq<char>, i: int) -> bool {
    &&& 0 <= i < s.len()
    &&& text::white_space(s[i])
    &&& plain_at(s, i)
    &&& forall|j: int| 0 <= j < i ==> !(text::white_space(#[trigger] s[j]) && plain_at(s, j))
}

/// Nothing but white space follows where a selector ends.
pub open spec fn no_value(s: Seq<char>) -> bool {
    forall|i: int| #[trigger] selector_ends(s, i) ==> trimmed_start(s.skip(i)).len() == 0
}

/// Cuts a line into its selector and what follows it.
pub fn split_selector_and_value(line: &str) -> (r: Option<(&str, &str)>)
    ensures
        match r {
            Some((selector, rest)) => exists|i: int| #[trigger]
                selector_ends(line@, i) && selector@ == line@.take(i) && rest@ == trimmed_start(
                    line@.skip(i),
                ) && rest@.len() > 0,
            None => no_value(line@),
        },
{
    let v = chars_of(line);
    let mut in_quotes: bool = false;
    let mut escaped: bool = false;
    let mut i: usize = 0;
    while i < v.len()
        invariant
            i <= v@.len(),
            v@ == line@,
            quoting(line@.take(i as int)) == (Quoting { in_quotes, escaped }),
            forall|j: int|
                0 <= j < i ==> !(text::white_space(#[trigger] line@[j]) && plain_at(line@, j)),
        decreases v@.len() - i,
    {
        let ch: char = v[i];
        assert(line@.take(i + 1).drop_last() =~= line@.take(i as int));
        assert(line@.take(i + 1).last() == ch);
        assert(!text::white_space('\\') && !text::white_space('"'));
        if escaped {
            escaped = false;
        } else if ch == '\\' {
            escaped = true;
        } else if ch == '"' {
            in_quotes = !in_quotes;
        } else if ch.is_whitespace() && !in_quotes {
            assert(selector_ends(line@, i as int));
            let tail = line.substring_char(i, v.len());
            assert(tail@ =~= line@.skip(i as int));
            let rest = trim_start(tail);
            if rest.unicode_len() == 0 {
                assert forall|k: int| #[trigger] selector_ends(line@, k) implies trimmed_start(
                    line@.skip(k),
                ).len() == 0 by {
                    if k < i {
                        assert(text::white_space(line@[k]));
                    } else if k > i {
                        assert(text::white_space(line@[i as int]));
                    }
                }
                return None;
            }
            let selector = line.substring_char(0, i);
            assert(selector@ =~= line@.take(i as int));
            return Some((selector, rest));
        }
        i = i + 1;
    }
    None
}

/// What a text comes to so far: the parts that are complete, and the one that
/// is not.
pub struct Parts {
    pub done: Seq<Seq<char>>,
    pub current: Seq<char>,
}

/// The parts of `s` that commas outside of quotes divide it into.
pub open spec fn parts_of(s: Seq<char>) -> Parts
    decreases s.len(),
{
    if s.len() == 0 {
        Parts { done: Seq::empty(), current: Seq::empty() }
    } else {
        let p = parts_of(s.drop_last());
        if s.last() == ',' && plain_at(s, s.len() - 1) {
            Parts { done: p.done.push(trimmed(p.current)), current: Seq::empty() }
        } else {
            Parts { done: p.done, current: p.current.push(s.last()) }
        }
    }
}

/// All parts of `s`; the last counts only if it has a character.
pub open spec fn label_parts(s: Seq<char>) -> Seq<Seq<char>> {
    let p = parts_of(s);
    if p.current.len() > 0 {
        p.done.push(trimmed(p.current))
    } else {
        p.done
    }
}

/// What these strings say.
pub open spec fn strings_view(v: Seq<String>) -> Seq<Seq<char>> {
    Seq::new(v.len(), |i: int| v[i]@)
}

/// The parts of `text` that commas outside of quotes divide it into, without
/// white space at their ends.
pub fn split_label_parts(text: &str) -> (r: Vec<String>)
    ensures
        strings_view(r@) == label_parts(text@),
{
    let v = chars_of(text);
    let mut parts: Vec<String> = Vec::new();
    let mut current = String::new();
    let mut in_quotes: bool = false;
    let mut escaped: bool = false;
    let mut i: usize = 0;
    assert(strings_view(parts@) =~= Seq::empty());
    while i < v.len()
        invariant
            i <= v@.len(),
            v@ == text@,
            quoting(text@.take(i as int)) == (Quoting { in_quotes, escaped }),
            parts_of(text@.take(i as int)) == (Parts {
                done: strings_view(parts@),
                current: current@,
            }),
        decreases v@.len() - i,
    {
        let ch: char = v[i];
        let ghost so_far = text@.take(i + 1);
        assert(so_far.drop_last() =~= text@.take(i as int));
        assert(so_far.take(so_far.len() - 1) =~= text@.take(i as int));
        if escaped {
            current.push(ch);
            escaped = false;
        } else if ch == '\\' {
            current.push(ch);
            escaped = true;
        } else if ch == '"' {
            current.push(ch);
            in_quotes = !in_quotes;
        } else if ch == ',' && !in_quotes {
            let ghost before = parts@;
            let part: String = trim(current.as_str()).to_owned();
            parts.push(part);
            assert(strings_view(parts@) =~= strings_view(before).push(part@));
            current = String::new();
        } else {
            current.push(ch);
        }
        i = i + 1;
    }
    assert(text@.take(i as int) =~= text@);
    if current.as_str().unicode_len() > 0 {
        let ghost before = parts@;
        let part: String = trim(current.as_str()).to_owned();
        parts.push(part);
        assert(strings_view(parts@) =~= strings_view(before).push(part@));
    }
    parts
}

/// The character that a backslash and `c` stand for.
pub open spec fn unescaped_char(c: char) -> char {
    if c == 'n' {
        '\n'
    } else {
        c
    }
}

/// What `s` says when backslashes are taken away: `None` where one stands at
/// the end.
pub open spec fn unescaped(s: Seq<char>) -> Option<Seq<char>>
    decreases s.len(),
{
    if s.len() == 0 {
        Some(Seq::empty())
    } else if s[0] != '\\' {
        match unescaped(s.skip(1)) {
            Some(rest) => Some(seq![s[0]] + rest),
            None => None,
        }
    } else if s.len() == 1 {
        None
    } else {
        match unescaped(s.skip(2)) {
            Some(rest) => Some(seq![unescaped_char(s[1])] + rest),
            None => None,
        }
    }
}

/// The value that a label's text stands for: it has to stand in quotes.
pub open spec fn label_value(s: Seq<char>) -> Option<Seq<char>> {
    if s.len() >= 2 && s[0] == '"' && s.last() == '"' {
        unescaped(s.subrange(1, s.len() - 1))
    } else {
        None
    }
}

/// What a string says, if there is one.
pub open spec fn string_view(s: Option<String>) -> Option<Seq<char>> {
    match s {
        Some(v) => Some(v@),
        None => None,
    }
}

/// The value that a label's text stands for.
pub fn parse_label_value(text: &str) -> (r: Option<String>)
    ensures
        string_view(r) == label_value(text@),
{
    let v = chars_of(text);
    let n: usize = v.len();
    if n < 2 || v[0] != '"' || v[n - 1] != '"' {
        return None;
    }
    let ghost quoted = text@.subrange(1, n - 1);
    let mut value = String::new();
    let mut i: usize = 1;
    assert(quoted.skip(0) =~= quoted);
    while i < n - 1
        invariant
            1 <= i <= n - 1,
            n == v@.len(),
            v@ == text@,
            quoted == text@.subrange(1, n - 1),
            unescaped(quoted) is Some <==> unescaped(quoted.skip(i - 1)) is Some,
            unescaped(quoted.skip(i - 1)) matches Some(rest) ==> unescaped(quoted) == Some(
                value@ + rest,
            ),
        decreases n - i,
    {
        let ghost rest = quoted.skip(i - 1);
        let ch: char = v[i];
        assert(rest[0] == ch);
        assert(rest.len() == n - 1 - i);
        if ch != '\\' {
            let ghost before = value@;
            value.push(ch);
            proof {
                assert(rest.skip(1) =~= quoted.skip(i as int));
                if let Some(more) = unescaped(quoted.skip(i as int)) {
                    assert(before + (seq![ch] + more) =~= value@ + more);
                }
            }
            i = i + 1;
        } else {
            if i + 1 >= n - 1 {
                return None;
            }
            let next: char = v[i + 1];
            assert(rest[1] == next);
            let ghost before = value@;
            if next == 'n' {
                value.push('\n');
            } else {
                value.push(next);
            }
            proof {
                assert(rest.skip(2) =~= quoted.skip(i + 1));
                if let Some(more) = unescaped(quoted.skip(i + 1)) {
                    assert(before + (seq![unescaped_char(next)] + more) =~= value@ + more);
                }
            }
            i = i + 2;
        }
    }
    assert(quoted.skip(i - 1) =~= Seq::empty());
    assert(value@ + Seq::<char>::empty() =~= value@);
    Some(value)
}

// ------------------------------------------------------------------- labels

/// Texts in dictionary order of their code points, which is also that of their
/// bytes in UTF-8.
pub open spec fn before(a: Seq<char>, b: Seq<char>) -> bool
    decreases a.len(),
{
    if b.len() == 0 {
        false
    } else if a.len() == 0 {
        true
    } else if a[0] == b[0] {
        before(a.skip(1), b.skip(1))
    } else {
        a[0] < b[0]
    }
}

proof fn lemma_before_transitive(a: Seq<char>, b: Seq<char>, c: Seq<char>)
    requires
        before(a, b),
        before(b, c),
    ensures
        before(a, c),
    decreases a.len(),
{
    if a.len() > 0 && a[0] == b[0] && b[0] == c[0] {
        lemma_before_transitive(a.skip(1), b.skip(1), c.skip(1));
    }
}

proof fn lemma_before_irreflexive(a: Seq<char>)
    ensures
        !before(a, a),
    decreases a.len(),
{
    if a.len() > 0 {
        lemma_before_irreflexive(a.skip(1));
    }
}

/// How two texts stand to each other.
pub enum Standing {
    Before,
    Same,
    After,
}

fn standing(x: &str, y: &str) -> (r: Standing)
    ensures
        match r {
            Standing::Before => before(x@, y@),
            Standing::Same => x@ == y@,
            Standing::After => before(y@, x@),
        },
{
    let a = chars_of(x);
    let b = chars_of(y);
    let mut i: usize = 0;
    assert(a@.skip(0) =~= a@ && b@.skip(0) =~= b@);
    while i < a.len() && i < b.len()
        invariant
            i <= a@.len(),
            i <= b@.len(),
            a@ == x@,
            b@ == y@,
            a@.take(i as int) =~= b@.take(i as int),
            before(x@, y@) == before(a@.skip(i as int), b@.skip(i as int)),
            before(y@, x@) == before(b@.skip(i as int), a@.skip(i as int)),
        decreases a@.len() - i,
    {
        assert(a@.skip(i as int)[0] == a@[i as int]);
        assert(b@.skip(i as int)[0] == b@[i as int]);
        assert(a@.skip(i as int).skip(1) =~= a@.skip(i + 1));
        assert(b@.skip(i as int).skip(1) =~= b@.skip(i + 1));
        if a[i] < b[i] {
            return Standing::Before;
        }
        if b[i] < a[i] {
            return Standing::After;
        }
        assert(a@.take(i + 1) =~= a@.take(i as int).push(a@[i as int]));
        assert(b@.take(i + 1) =~= b@.take(i as int).push(b@[i as int]));
        i = i + 1;
    }
    if i < b.len() {
        Standing::Before
    } else if i < a.len() {
        Standing::After
    } else {
        assert(a@.take(i as int) =~= a@);
        assert(b@.take(i as int) =~= b@);
        Standing::Same
    }
}

/// The labels of a sample, each with its value, in the order of their keys.
#[derive(Debug)]
pub struct Labels {
    pub pairs: Vec<(String, String)>,
}

/// The value that `key` has among these pairs.
pub open spec fn value_at(pairs: Seq<(String, String)>, key: Seq<char>) -> Option<Seq<char>>
    decreases pairs.len(),
{
    if pairs.len() == 0 {
        None
    } else if pairs.last().0@ == key {
        Some(pairs.last().1@)
    } else {
        value_at(pairs.drop_last(), key)
    }
}

pub(crate) proof fn lemma_value_in(pairs: Seq<(String, String)>, i: int)
    requires
        keys_ascend(pairs),
        0 <= i < pairs.len(),
    ensures
        value_at(pairs, pairs[i].0@) == Some(pairs[i].1@),
    decreases pairs.len(),
{
    let n = pairs.len() - 1;
    if i < n {
        let p = pairs.drop_last();
        lemma_before_irreflexive(pairs[i].0@);
        assert(before(pairs[i].0@, pairs[n].0@));
        assert forall|a: int, b: int| 0 <= a < b < p.len() implies before(
            (#[trigger] p[a]).0@,
            (#[trigger] p[b]).0@,
        ) by {
            assert(before(pairs[a].0@, pairs[b].0@));
        }
        lemma_value_in(p, i);
    }
}

pub(crate) proof fn lemma_value_not_in(pairs: Seq<(String, String)>, key: Seq<char>)
    requires
        forall|i: int| 0 <= i < pairs.len() ==> (#[trigger] pairs[i]).0@ != key,
    ensures
        value_at(pairs, key) is None,
    decreases pairs.len(),
{
    if pairs.len() > 0 {
        let p = pairs.drop_last();
        assert(pairs[pairs.len() - 1].0@ != key);
        assert forall|i: int| 0 <= i < p.len() implies (#[trigger] p[i]).0@ != key by {
            assert(pairs[i].0@ != key);
        }
        lemma_value_not_in(p, key);
    }
}

/// The keys stand in order, none twice.
pub open spec fn keys_ascend(pairs: Seq<(String, String)>) -> bool {
    forall|i: int, j: int|
        0 <= i < j < pairs.len() ==> before((#[trigger] pairs[i]).0@, (#[trigger] pairs[j]).0@)
}

impl Labels {
    /// The keys stand in order, none twice.
    pub open spec fn well_formed(self) -> bool {
        keys_ascend(self.pairs@)
    }

    /// No labels.
    pub fn new() -> (r: Self)
        ensures
            r.well_formed(),
            r.pairs@.len() == 0,
    {
        Labels { pairs: Vec::new() }
    }

    /// Whether there are none.
    pub fn is_empty(&self) -> (r: bool)
        ensures
            r == (self.pairs@.len() == 0),
    {
        self.pairs.len() == 0
    }

    /// The value of the label `key`.
    pub fn get(&self, key: &str) -> (r: Option<&String>)
        ensures
            match r {
                Some(v) => value_at(self.pairs@, key@) == Some(v@),
                None => value_at(self.pairs@, key@) is None,
            },
    {
        let wanted: String = key.to_owned();
        let mut n: usize = self.pairs.len();
        assert(self.pairs@.take(n as int) =~= self.pairs@);
        while n > 0
            invariant
                n <= self.pairs@.len(),
                wanted@ == key@,
                value_at(self.pairs@, key@) == value_at(self.pairs@.take(n as int), key@),
            decreases n,
        {
            assert(self.pairs@.take(n as int).drop_last() =~= self.pairs@.take(n - 1));
            if self.pairs[n - 1].0 == wanted {
                return Some(&self.pairs[n - 1].1);
            }
            n = n - 1;
        }
        None
    }

    /// Gives the label `key` this value.
    pub fn insert(&mut self, key: String, value: String)
        requires
            old(self).well_formed(),
        ensures
            final(self).well_formed(),
            forall|k: Seq<char>|
                #[trigger] value_at(final(self).pairs@, k) == (if k == key@ {
                    Some(value@)
                } else {
                    value_at(old(self).pairs@, k)
                }),
    {
        let ghost was = self.pairs@;
        let mut i: usize = 0;
        while i < self.pairs.len()
            invariant
                i <= self.pairs@.len(),
                self.pairs@ == was,
                was == old(self).pairs@,
                keys_ascend(was),
                forall|j: int| 0 <= j < i ==> before((#[trigger] was[j]).0@, key@),
            ensures
                i < was.len() ==> before(key@, was[i as int].0@),
            decreases self.pairs@.len() - i,
        {
            match standing(self.pairs[i].0.as_str(), key.as_str()) {
                Standing::Before => {
                    i = i + 1;
                },
                Standing::Same => {
                    let ghost now = was.update(i as int, (key, value));
                    self.pairs.set(i, (key, value));
                    proof {
                        assert(self.pairs@ =~= now);
                        assert(keys_ascend(now)) by {
                            assert forall|a: int, b: int| 0 <= a < b < now.len() implies before(
                                (#[trigger] now[a]).0@,
                                (#[trigger] now[b]).0@,
                            ) by {
                                assert(before(was[a].0@, was[b].0@));
                            }
                        }
                        assert forall|k: Seq<char>| #[trigger] value_at(now, k) == (if k == key@ {
                            Some(value@)
                        } else {
                            value_at(was, k)
                        }) by {
                            lemma_replaced(was, now, i as int, k);
                        }
                    }
                    return;
                },
                Standing::After => {
                    break;
                },
            }
        }
        let ghost now = was.insert(i as int, (key, value));
        self.pairs.insert(i, (key, value));
        proof {
            assert(self.pairs@ =~= now);
            lemma_inserted_ascends(was, now, i as int, key, value);
            assert forall|k: Seq<char>| #[trigger] value_at(now, k) == (if k == key@ {
                Some(value@)
            } else {
                value_at(was, k)
            }) by {
                lemma_inserted(was, now, i as int, key, value, k);
            }
        }
    }
}

/// Pairs whose keys stand in order give each key the value of its one pair.
proof fn lemma_value_characterised(pairs: Seq<(String, String)>, k: Seq<char>)
    requires
        keys_ascend(pairs),
    ensures
        value_at(pairs, k) is Some <==> exists|i: int|
            0 <= i < pairs.len() && (#[trigger] pairs[i]).0@ == k,
{
    if exists|i: int| 0 <= i < pairs.len() && (#[trigger] pairs[i]).0@ == k {
        let i = choose|i: int| 0 <= i < pairs.len() && (#[trigger] pairs[i]).0@ == k;
        lemma_value_in(pairs, i);
    } else {
        lemma_value_not_in(pairs, k);
    }
}

proof fn lemma_replaced(
    was: Seq<(String, String)>,
    now: Seq<(String, String)>,
    i: int,
    k: Seq<char>,
)
    requires
        keys_ascend(was),
        keys_ascend(now),
        0 <= i < was.len(),
        now.len() == was.len(),
        now[i].0@ == was[i].0@,
        forall|j: int| 0 <= j < was.len() && j != i ==> #[trigger] now[j] == was[j],
    ensures
        value_at(now, k) == (if k == now[i].0@ {
            Some(now[i].1@)
        } else {
            value_at(was, k)
        }),
{
    lemma_value_in(now, i);
    if k != now[i].0@ {
        lemma_value_characterised(was, k);
        lemma_value_characterised(now, k);
        if value_at(was, k) is Some {
            let j = choose|j: int| 0 <= j < was.len() && (#[trigger] was[j]).0@ == k;
            lemma_value_in(was, j);
            assert(now[j] == was[j]);
            lemma_value_in(now, j);
        } else if value_at(now, k) is Some {
            let j = choose|j: int| 0 <= j < now.len() && (#[trigger] now[j]).0@ == k;
            assert(now[j] == was[j]);
        }
    }
}

proof fn lemma_inserted_ascends(
    was: Seq<(String, String)>,
    now: Seq<(String, String)>,
    i: int,
    key: String,
    value: String,
)
    requires
        keys_ascend(was),
        0 <= i <= was.len(),
        now == was.insert(i, (key, value)),
        forall|j: int| 0 <= j < i ==> before((#[trigger] was[j]).0@, key@),
        i < was.len() ==> before(key@, was[i].0@),
    ensures
        keys_ascend(now),
{
    assert forall|a: int, b: int| 0 <= a < b < now.len() implies before(
        (#[trigger] now[a]).0@,
        (#[trigger] now[b]).0@,
    ) by {
        if b < i {
            assert(before(was[a].0@, was[b].0@));
        } else if b == i {
            assert(before(was[a].0@, key@));
        } else if a > i {
            assert(before(was[a - 1].0@, was[b - 1].0@));
        } else if a < i {
            assert(before(was[a].0@, was[b - 1].0@));
        } else if b - 1 > i {
            assert(before(was[i].0@, was[b - 1].0@));
            lemma_before_transitive(key@, was[i].0@, was[b - 1].0@);
        }
    }
}

proof fn lemma_inserted(
    was: Seq<(String, String)>,
    now: Seq<(String, String)>,
    i: int,
    key: String,
    value: String,
    k: Seq<char>,
)
    requires
        keys_ascend(was),
        keys_ascend(now),
        0 <= i <= was.len(),
        now == was.insert(i, (key, value)),
    ensures
        value_at(now, k) == (if k == key@ {
            Some(value@)
        } else {
            value_at(was, k)
        }),
{
    assert(now[i] == (key, value));
    lemma_value_in(now, i);
    if k != key@ {
        lemma_value_characterised(was, k);
        lemma_value_characterised(now, k);
        if value_at(was, k) is Some {
            let j = choose|j: int| 0 <= j < was.len() && (#[trigger] was[j]).0@ == k;
            lemma_value_in(was, j);
            let l = if j < i {
                j
            } else {
                j + 1
            };
            assert(now[l] == was[j]);
            lemma_value_in(now, l);
        } else if value_at(now, k) is Some {
            let l = choose|l: int| 0 <= l < now.len() && (#[trigger] now[l]).0@ == k;
            let j = if l < i {
                l
            } else {
                l - 1
            };
            assert(was[j] == now[l]);
        }
    }
}

/// The key and the value that a part of the labels stands for.
pub open spec fn label_of(part: Seq<char>) -> Option<(Seq<char>, Seq<char>)> {
    match first_of(part, '=') {
        Some(i) => match label_value(trimmed(part.skip(i + 1))) {
            Some(v) => Some((trimmed(part.take(i)), v)),
            None => None,
        },
        None => None,
    }
}

/// Every part is a label.
pub open spec fn all_labels(parts: Seq<Seq<char>>) -> bool {
    forall|i: int| 0 <= i < parts.len() ==> label_of(#[trigger] parts[i]) is Some
}

/// The value that the last part with this key gives it.
pub open spec fn labelled(parts: Seq<Seq<char>>, key: Seq<char>) -> Option<Seq<char>>
    decreases parts.len(),
{
    if parts.len() == 0 {
        None
    } else if label_of(parts.last()) is Some && label_of(parts.last())->Some_0.0 == key {
        Some(label_of(parts.last())->Some_0.1)
    } else {
        labelled(parts.drop_last(), key)
    }
}

/// `l` has exactly the labels of these parts.
pub open spec fn has_labels(l: Labels, parts: Seq<Seq<char>>) -> bool {
    &&& l.well_formed()
    &&& forall|k: Seq<char>| #[trigger] value_at(l.pairs@, k) == labelled(parts, k)
}

fn parse_label(part: &str) -> (r: Option<(String, String)>)
    ensures
        match r {
            Some((key, value)) => label_of(part@) == Some((key@, value@)),
            None => label_of(part@) is None,
        },
{
    let v = chars_of(part);
    let at: usize = match find_first(&v, '=') {
        Some(i) => i,
        None => {
            return None;
        },
    };
    let left = part.substring_char(0, at);
    let right = part.substring_char(at + 1, v.len());
    assert(left@ =~= part@.take(at as int));
    assert(right@ =~= part@.skip(at + 1));
    match parse_label_value(trim(right)) {
        Some(value) => Some((trim(left).to_owned(), value)),
        None => None,
    }
}

/// The labels that stand between the braces of a selector, or `None` where a
/// part of them is none.
pub fn parse_labels(text: &str) -> (r: Option<Labels>)
    ensures
        match r {
            Some(l) => all_labels(label_parts(text@)) && has_labels(l, label_parts(text@)),
            None => !all_labels(label_parts(text@)),
        },
{
    let parts = split_label_parts(text);
    let ghost said = strings_view(parts@);
    let mut labels = Labels::new();
    let mut i: usize = 0;
    assert forall|k: Seq<char>| #[trigger] value_at(labels.pairs@, k) == labelled(
        said.take(0),
        k,
    ) by {}
    while i < parts.len()
        invariant
            i <= parts@.len(),
            said == strings_view(parts@),
            said == label_parts(text@),
            has_labels(labels, said.take(i as int)),
            forall|j: int| 0 <= j < i ==> label_of(#[trigger] said[j]) is Some,
        decreases parts@.len() - i,
    {
        assert(said[i as int] == parts@[i as int]@);
        match parse_label(parts[i].as_str()) {
            Some((key, value)) => {
                let ghost k0 = key@;
                let ghost v0 = value@;
                let ghost was = labels.pairs@;
                labels.insert(key, value);
                assert(said.take(i + 1).drop_last() =~= said.take(i as int));
                assert forall|k: Seq<char>| #[trigger] value_at(labels.pairs@, k) == labelled(
                    said.take(i + 1),
                    k,
                ) by {
                    assert(value_at(was, k) == labelled(said.take(i as int), k));
                }
            },
            None => {
                assert(label_of(said[i as int]) is None);
                return None;
            },
        }
        i = i + 1;
    }
    assert(said.take(i as int) =~= said);
    Some(labels)
}

/// Where the braces of a selector stand, if it has a pair of them in order.
pub open spec fn braces(s: Seq<char>) -> Option<(int, int)> {
    match (first_of(s, '{'), last_of(s, '}')) {
        (Some(a), Some(b)) => if b > a {
            Some((a, b))
        } else {
            None
        },
        _ => None,
    }
}

/// What a selector stands for, as a name and the parts of its labels.
pub open spec fn selected(s: Seq<char>) -> Option<(Seq<char>, Seq<Seq<char>>)> {
    if first_of(s, '{') is None {
        Some((s, Seq::empty()))
    } else {
        match braces(s) {
            None => None,
            Some((a, b)) => {
                let parts = label_parts(s.subrange(a + 1, b));
                if all_labels(parts) {
                    Some((s.take(a), parts))
                } else {
                    None
                }
            },
        }
    }
}

/// The name and the labels that a selector stands for.
pub fn parse_selector(selector: &str) -> (r: Option<(String, Labels)>)
    ensures
        match r {
            Some((name, labels)) => selected(selector@) matches Some((n, parts)) && name@ == n
                && has_labels(labels, parts),
            None => selected(selector@) is None,
        },
{
    let v = chars_of(selector);
    let start: usize = match find_first(&v, '{') {
        Some(i) => i,
        None => {
            return Some((selector.to_owned(), Labels::new()));
        },
    };
    let end: usize = match find_last(&v, '}') {
        Some(i) => i,
        None => {
            return None;
        },
    };
    if end <= start {
        return None;
    }
    let name = selector.substring_char(0, start);
    assert(name@ =~= selector@.take(start as int));
    match parse_labels(selector.substring_char(start + 1, end)) {
        Some(labels) => Some((name.to_owned(), labels)),
        None => None,
    }
}

// ------------------------------------------------------------------ samples

/// A sample: its name, its labels, and its value, which is a number, as it was
/// written.
#[derive(Debug)]
pub struct MetricsSample {
    pub name: String,
    pub labels: Labels,
    pub value: String,
    /// Milliseconds since scraping started.
    pub offset_ms: u64,
    /// Milliseconds since the epoch.
    pub unix_ms: u64,
}

/// `s` up to its first white space.
pub open spec fn first_word(s: Seq<char>) -> Seq<char>
    decreases s.len(),
{
    if s.len() == 0 || text::white_space(s[0]) {
        Seq::empty()
    } else {
        seq![s[0]] + first_word(s.skip(1))
    }
}

/// What a line says: a name, the parts of the labels, and a value.
pub struct SampleView {
    pub name: Seq<char>,
    pub parts: Seq<Seq<char>>,
    pub value: Seq<char>,
}

/// The line is cut at `i`, and has a value behind it.
pub open spec fn cut_at(line: Seq<char>, i: int) -> bool {
    selector_ends(line, i) && trimmed_start(line.skip(i)).len() > 0
}

/// What a line without white space at its ends says when it is cut at `i`: its
/// value has to be a number.
pub open spec fn sample_at(line: Seq<char>, i: int) -> Option<SampleView> {
    let value = first_word(trimmed_start(line.skip(i)));
    match selected(line.take(i)) {
        Some((name, parts)) => if number::number(value) {
            Some(SampleView { name, parts, value })
        } else {
            None
        },
        None => None,
    }
}

/// What a line says, if it is a sample: not a comment, nor empty, nor one that
/// has no value.
pub open spec fn sample_of(line: Seq<char>) -> Option<SampleView> {
    let l = trimmed(line);
    if l.len() == 0 || l[0] == '#' {
        None
    } else if exists|i: int| #[trigger] cut_at(l, i) {
        sample_at(l, choose|i: int| #[trigger] cut_at(l, i))
    } else {
        None
    }
}

/// `m` is what `s` says.
pub open spec fn says(m: MetricsSample, s: SampleView, offset_ms: u64, unix_ms: u64) -> bool {
    &&& m.name@ == s.name
    &&& has_labels(m.labels, s.parts)
    &&& m.value@ == s.value
    &&& m.offset_ms == offset_ms
    &&& m.unix_ms == unix_ms
}

/// `s` up to its first white space.
pub fn take_word(s: &str) -> (r: &str)
    ensures
        r@ == first_word(s@),
{
    let v = chars_of(s);
    let mut i: usize = 0;
    assert(v@.skip(0) =~= v@);
    assert(v@.take(0) + first_word(v@) =~= first_word(v@));
    while i < v.len() && !v[i].is_whitespace()
        invariant
            i <= v@.len(),
            v@ == s@,
            first_word(s@) == v@.take(i as int) + first_word(v@.skip(i as int)),
        decreases v@.len() - i,
    {
        let ghost rest = v@.skip(i as int);
        assert(rest.skip(1) =~= v@.skip(i + 1));
        assert(v@.take(i as int) + (seq![rest[0]] + first_word(v@.skip(i + 1))) =~= v@.take(i + 1)
            + first_word(v@.skip(i + 1)));
        i = i + 1;
    }
    assert(v@.take(i as int) + Seq::<char>::empty() =~= v@.take(i as int));
    assert(s@.subrange(0, i as int) =~= v@.take(i as int));
    s.substring_char(0, i)
}

/// The sample that a line stands for, if it is one.
pub fn parse_sample_line(line: &str, offset_ms: u64, unix_ms: u64) -> (r: Option<MetricsSample>)
    ensures
        match r {
            Some(m) => sample_of(line@) matches Some(s) && says(m, s, offset_ms, unix_ms),
            None => sample_of(line@) is None,
        },
{
    let line = trim(line);
    if line.unicode_len() == 0 || line.get_char(0) == '#' {
        return None;
    }
    let ghost l = line@;
    match split_selector_and_value(line) {
        None => {
            assert forall|i: int| !(#[trigger] cut_at(l, i)) by {}
            None
        },
        Some((selector, rest)) => {
            proof {
                let i = choose|i: int| #[trigger]
                    selector_ends(l, i) && selector@ == l.take(i) && rest@ == trimmed_start(
                        l.skip(i),
                    ) && rest@.len() > 0;
                assert(cut_at(l, i));
                let j = choose|j: int| #[trigger] cut_at(l, j);
                lemma_one_end(l, i, j);
            }
            let value = take_word(rest);
            if !is_number(value) {
                return None;
            }
            match parse_selector(selector) {
                None => None,
                Some((name, labels)) => Some(
                    MetricsSample { name, labels, value: value.to_owned(), offset_ms, unix_ms },
                ),
            }
        },
    }
}

/// A selector ends at one place.
pub(crate) proof fn lemma_one_end(l: Seq<char>, i: int, j: int)
    requires
        selector_ends(l, i),
        selector_ends(l, j),
    ensures
        i == j,
{
    if i < j {
        assert(text::white_space(l[i]) && plain_at(l, i));
    } else if j < i {
        assert(text::white_space(l[j]) && plain_at(l, j));
    }
}

/// A line that a line feed ended, without the carriage return that stood before
/// the feed.
pub open spec fn without_return(line: Seq<char>) -> Seq<char> {
    if line.len() > 0 && line.last() == '\r' {
        line.drop_last()
    } else {
        line
    }
}

/// The lines of a text: a line feed, or a carriage return and a line feed, ends
/// a line, and the last line needs no end.
pub open spec fn lines_of(s: Seq<char>) -> Seq<Seq<char>>
    decreases s.len(),
{
    if s.len() == 0 {
        Seq::empty()
    } else {
        match first_of(s, '\n') {
            Some(i) => if 0 <= i < s.len() {
                seq![without_return(s.take(i))] + lines_of(s.skip(i + 1))
            } else {
                seq![s]
            },
            None => seq![s],
        }
    }
}

/// The samples among these lines.
pub open spec fn samples_of(lines: Seq<Seq<char>>) -> Seq<SampleView>
    decreases lines.len(),
{
    if lines.len() == 0 {
        Seq::empty()
    } else {
        match sample_of(lines.last()) {
            Some(s) => samples_of(lines.drop_last()).push(s),
            None => samples_of(lines.drop_last()),
        }
    }
}

pub(crate) proof fn lemma_first_of_none(s: Seq<char>, c: char)
    requires
        forall|k: int| 0 <= k < s.len() ==> s[k] != c,
    ensures
        first_of(s, c) is None,
    decreases s.len(),
{
    if s.len() > 0 {
        lemma_first_of_none(s.drop_last(), c);
    }
}

pub(crate) proof fn lemma_first_of_found(s: Seq<char>, c: char, i: int)
    requires
        0 <= i < s.len(),
        s[i] == c,
        forall|k: int| 0 <= k < i ==> s[k] != c,
    ensures
        first_of(s, c) == Some(i),
{
    lemma_first_of_none(s.take(i), c);
    assert(s.take(i + 1).drop_last() =~= s.take(i));
    lemma_first_of_prefix(s, c, i + 1);
}

fn drop_return(line: String) -> (r: String)
    ensures
        r@ == without_return(line@),
{
    let n: usize = line.as_str().unicode_len();
    if n > 0 && line.as_str().get_char(n - 1) == '\r' {
        let kept = line.as_str().substring_char(0, n - 1);
        assert(kept@ =~= line@.drop_last());
        kept.to_owned()
    } else {
        line
    }
}

/// The lines of a text.
pub fn split_lines(s: &str) -> (r: Vec<String>)
    ensures
        strings_view(r@) == lines_of(s@),
{
    let v = chars_of(s);
    let n: usize = v.len();
    let mut lines: Vec<String> = Vec::new();
    let mut from: usize = 0;
    assert(strings_view(lines@) + lines_of(v@.skip(0)) =~= lines_of(v@)) by {
        assert(v@.skip(0) =~= v@);
    }
    while from < n
        invariant
            from <= n,
            n == v@.len(),
            lines_of(v@) == strings_view(lines@) + lines_of(v@.skip(from as int)),
        decreases n - from,
    {
        let ghost rest = v@.skip(from as int);
        let ghost before = strings_view(lines@);
        let mut line = String::new();
        let mut end: usize = from;
        assert(line@ =~= v@.subrange(from as int, end as int));
        while end < n && v[end] != '\n'
            invariant
                from <= end <= n,
                n == v@.len(),
                line@ == v@.subrange(from as int, end as int),
                forall|k: int| from <= k < end ==> v@[k] != '\n',
            decreases n - end,
        {
            line.push(v[end]);
            end = end + 1;
            assert(line@ =~= v@.subrange(from as int, end as int));
        }
        assert(forall|k: int| 0 <= k < end - from ==> rest[k] != '\n');
        if end < n {
            proof {
                lemma_first_of_found(rest, '\n', end - from);
                assert(rest.take(end - from) =~= line@);
                assert(rest.skip(end - from + 1) =~= v@.skip(end + 1));
            }
            let ghost said = without_return(line@);
            lines.push(drop_return(line));
            from = end + 1;
            assert(strings_view(lines@) =~= before.push(said));
            assert(before.push(said) + lines_of(v@.skip(from as int)) =~= before + (seq![said]
                + lines_of(v@.skip(from as int))));
        } else {
            proof {
                lemma_first_of_none(rest, '\n');
                assert(rest =~= line@);
            }
            lines.push(line);
            from = n;
            assert(strings_view(lines@) =~= before.push(rest));
            assert(v@.skip(n as int) =~= Seq::empty());
            assert(before.push(rest) + Seq::<Seq<char>>::empty() =~= before + seq![rest]);
        }
    }
    assert(v@.skip(from as int) =~= Seq::empty());
    assert(strings_view(lines@) + Seq::<Seq<char>>::empty() =~= strings_view(lines@));
    lines
}

/// The samples in a text, line by line.
pub fn parse_samples(text: &str, offset_ms: u64, unix_ms: u64) -> (r: Vec<MetricsSample>)
    ensures
        r@.len() == samples_of(lines_of(text@)).len(),
        forall|i: int|
            0 <= i < r@.len() ==> says(
                #[trigger] r@[i],
                samples_of(lines_of(text@))[i],
                offset_ms,
                unix_ms,
            ),
{
    let lines = split_lines(text);
    let ghost said = strings_view(lines@);
    let mut out: Vec<MetricsSample> = Vec::new();
    let mut i: usize = 0;
    while i < lines.len()
        invariant
            i <= lines@.len(),
            said == strings_view(lines@),
            out@.len() == samples_of(said.take(i as int)).len(),
            forall|j: int|
                0 <= j < out@.len() ==> says(
                    #[trigger] out@[j],
                    samples_of(said.take(i as int))[j],
                    offset_ms,
                    unix_ms,
                ),
        decreases lines@.len() - i,
    {
        assert(said.take(i + 1).drop_last() =~= said.take(i as int));
        assert(said[i as int] == lines@[i as int]@);
        if let Some(m) = parse_sample_line(lines[i].as_str(), offset_ms, unix_ms) {
            out.push(m);
        }
        i = i + 1;
    }
    assert(said.take(i as int) =~= said);
    out
}

proof fn lemma_return_is_trimmed(l: Seq<char>)
    requires
        l.len() > 0,
        l.last() == '\r',
    ensures
        trimmed(l.drop_last()) == trimmed(l),
    decreases l.len(),
{
    if text::white_space(l[0]) {
        if l.len() > 1 {
            lemma_return_is_trimmed(l.skip(1));
            assert(l.skip(1).drop_last() =~= l.drop_last().skip(1));
        } else {
            assert(l.skip(1) =~= l.drop_last());
        }
    }
}

pub(crate) proof fn lemma_samples_join(a: Seq<Seq<char>>, b: Seq<Seq<char>>)
    ensures
        samples_of(a + b) == samples_of(a) + samples_of(b),
    decreases b.len(),
{
    if b.len() == 0 {
        assert(a + b =~= a);
        assert(samples_of(a) + samples_of(b) =~= samples_of(a));
    } else {
        lemma_samples_join(a, b.drop_last());
        assert((a + b).drop_last() =~= a + b.drop_last());
        assert(samples_of(a + b) =~= samples_of(a) + samples_of(b));
    }
}

pub(crate) proof fn lemma_sample_alone(line: Seq<char>)
    ensures
        samples_of(seq![line]) == match sample_of(line) {
            Some(s) => seq![s],
            None => Seq::empty(),
        },
{
    assert(seq![line].drop_last() =~= Seq::empty());
    assert(samples_of(Seq::empty()) =~= Seq::empty());
    assert(samples_of(seq![line]) =~= match sample_of(line) {
        Some(s) => seq![s],
        None => Seq::empty(),
    });
}

/// What a text says, it says line by line: the samples of two texts that a line
/// feed joins are those of the one, followed by those of the other.
pub proof fn lemma_texts_join(a: Seq<char>, b: Seq<char>)
    ensures
        samples_of(lines_of(a + seq!['\n'] + b)) == samples_of(lines_of(a)) + samples_of(
            lines_of(b),
        ),
    decreases a.len(),
{
    let s = a + seq!['\n'] + b;
    let later = samples_of(lines_of(b));
    match first_of(a, '\n') {
        Some(i) => {
            lemma_first_of_bounds(a, '\n');
            assert(s.take(a.len() as int) =~= a);
            lemma_first_of_prefix(s, '\n', a.len() as int);
            let line = seq![without_return(a.take(i))];
            let rest = a.skip(i + 1);
            assert(s.take(i) =~= a.take(i));
            assert(s.skip(i + 1) =~= rest + seq!['\n'] + b);
            lemma_texts_join(rest, b);
            lemma_samples_join(line, lines_of(rest));
            lemma_samples_join(line, lines_of(rest + seq!['\n'] + b));
            assert(samples_of(line) + (samples_of(lines_of(rest)) + later) =~= samples_of(line)
                + samples_of(lines_of(rest)) + later);
        },
        None => {
            lemma_first_of_bounds(a, '\n');
            assert(s[a.len() as int] == '\n');
            lemma_first_of_found(s, '\n', a.len() as int);
            let line = without_return(a);
            assert(s.take(a.len() as int) =~= a);
            assert(s.skip(a.len() as int + 1) =~= b);
            lemma_samples_join(seq![line], lines_of(b));
            lemma_sample_alone(line);
            lemma_sample_alone(a);
            if a.len() == 0 {
                assert(samples_of(lines_of(a)) =~= Seq::empty());
            } else if a.last() == '\r' {
                lemma_return_is_trimmed(a);
            }
        },
    }
}

pub(crate) proof fn lemma_first_of_bounds(s: Seq<char>, c: char)
    ensures
        match first_of(s, c) {
            Some(i) => 0 <= i < s.len(),
            None => forall|k: int| 0 <= k < s.len() ==> s[k] != c,
        },
    decreases s.len(),
{
    if s.len() > 0 {
        lemma_first_of_bounds(s.drop_last(), c);
        if first_of(s, c) is None {
            assert forall|k: int| 0 <= k < s.len() implies s[k] != c by {
                if k < s.len() - 1 {
                    assert(s.drop_last()[k] == s[k]);
                }
            }
        }
    }
}

// ------------------------------------------------------------------ options

/// What the options ask of the scraper.
#[derive(Clone, Copy, Debug, PartialEq, Eq, Structural)]
pub enum Scraping {
    /// Scrape.
    On,
    /// Do not scrape.
    Off,
    /// An endpoint was named but no place to write to.
    NoOutput,
}

/// What the options ask of the scraper, by whether an endpoint and whether an
/// output were named.
pub fn scraping(has_url: bool, has_output: bool) -> (r: Scraping)
    ensures
        r == (if !has_url {
            Scraping::Off
        } else if has_output {
            Scraping::On
        } else {
            Scraping::NoOutput
        }),
{
    if !has_url {
        Scraping::Off
    } else if has_output {
        Scraping::On
    } else {
        Scraping::NoOutput
    }
}

} // verus!
