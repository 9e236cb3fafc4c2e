//! What is read of a text of metrics: what was written comes back.

use vstd::prelude::*;

use crate::metrics;
use crate::metrics::{Labels, MetricsSample, Parts, Quoting, SampleView};
use crate::number;
use crate::text;

verus! {

// ------------------------------------------------------------------ trimming

/// Nothing but white space.
pub open spec fn all_white(s: Seq<char>) -> bool {
    forall|i: int| 0 <= i < s.len() ==> text::white_space(#[trigger] s[i])
}

/// No white space at all.
pub open spec fn no_white(s: Seq<char>) -> bool {
    forall|i: int| 0 <= i < s.len() ==> !text::white_space(#[trigger] s[i])
}

/// None of these characters.
pub open spec fn lacks(s: Seq<char>, c: char) -> bool {
    forall|i: int| 0 <= i < s.len() ==> #[trigger] s[i] != c
}

pub(crate) proof fn lemma_trimmed_start(s: Seq<char>)
    ensures
        metrics::trimmed_start(s).len() <= s.len(),
        metrics::trimmed_start(s) == s.skip(s.len() - metrics::trimmed_start(s).len()),
        all_white(s.take(s.len() - metrics::trimmed_start(s).len())),
        metrics::trimmed_start(s).len() > 0 ==> !text::white_space(metrics::trimmed_start(s)[0]),
    decreases s.len(),
{
    let t = metrics::trimmed_start(s);
    if s.len() > 0 && text::white_space(s[0]) {
        let u = s.skip(1);
        lemma_trimmed_start(u);
        assert(u.skip(u.len() - t.len()) =~= s.skip(s.len() - t.len()));
        let w = s.take(s.len() - t.len());
        assert forall|i: int| 0 <= i < w.len() implies text::white_space(#[trigger] w[i]) by {
            if i > 0 {
                assert(w[i] == u.take(u.len() - t.len())[i - 1]);
            }
        }
    } else {
        assert(s.skip(0) =~= s);
    }
}

pub(crate) proof fn lemma_trimmed_end(s: Seq<char>)
    ensures
        metrics::trimmed_end(s).len() <= s.len(),
        metrics::trimmed_end(s) == s.take(metrics::trimmed_end(s).len() as int),
        all_white(s.skip(metrics::trimmed_end(s).len() as int)),
        metrics::trimmed_end(s).len() > 0 ==> !text::white_space(metrics::trimmed_end(s).last()),
    decreases s.len(),
{
    let t = metrics::trimmed_end(s);
    if s.len() > 0 && text::white_space(s.last()) {
        let u = s.drop_last();
        lemma_trimmed_end(u);
        assert(u.take(t.len() as int) =~= s.take(t.len() as int));
        let w = s.skip(t.len() as int);
        assert forall|i: int| 0 <= i < w.len() implies text::white_space(#[trigger] w[i]) by {
            if i < w.len() - 1 {
                assert(w[i] == u.skip(t.len() as int)[i]);
            }
        }
    } else {
        assert(s.take(s.len() as int) =~= s);
    }
}

/// `t` is `s` without the white space at both ends.
pub open spec fn trims(s: Seq<char>, t: Seq<char>, n: int) -> bool {
    &&& 0 <= n <= n + t.len() <= s.len()
    &&& t == s.subrange(n, n + t.len())
    &&& all_white(s.take(n))
    &&& all_white(s.skip(n + t.len()))
    &&& t.len() > 0 ==> !text::white_space(t[0]) && !text::white_space(t.last())
}

pub(crate) proof fn lemma_trims(s: Seq<char>)
    ensures
        exists|n: int| #[trigger] trims(s, metrics::trimmed(s), n),
{
    let a = metrics::trimmed_start(s);
    let c = metrics::trimmed(s);
    lemma_trimmed_start(s);
    lemma_trimmed_end(a);
    let n = s.len() - a.len();
    assert(c =~= s.subrange(n, n + c.len()));
    let w = s.skip(n + c.len());
    assert forall|i: int| 0 <= i < w.len() implies text::white_space(#[trigger] w[i]) by {
        assert(w[i] == a.skip(c.len() as int)[i]);
    }
    if c.len() > 0 {
        assert(c[0] == a[0]);
    }
    assert(trims(s, c, n));
}

/// Trimming takes away white space, all of it, and nothing else: at the start, at the
/// end, or at both.
pub proof fn lemma_trim(s: &str, a: &str, b: &str, c: &str)
    requires
        call_ensures(metrics::trim_start, (s,), a),
        call_ensures(metrics::trim_end, (s,), b),
        call_ensures(metrics::trim, (s,), c),
    ensures
        a@.len() <= s@.len(),
        a@ == s@.skip(s@.len() - a@.len()),
        all_white(s@.take(s@.len() - a@.len())),
        a@.len() > 0 ==> !text::white_space(a@[0]),
        b@.len() <= s@.len(),
        b@ == s@.take(b@.len() as int),
        all_white(s@.skip(b@.len() as int)),
        b@.len() > 0 ==> !text::white_space(b@.last()),
        exists|n: int| #[trigger] trims(s@, c@, n),
{
    lemma_trimmed_start(s@);
    lemma_trimmed_end(s@);
    lemma_trims(s@);
}

/// A text that starts and ends with something is not changed by trimming.
proof fn lemma_untrimmed(s: Seq<char>)
    requires
        s.len() > 0 ==> !text::white_space(s[0]) && !text::white_space(s.last()),
    ensures
        metrics::trimmed(s) == s,
        metrics::trimmed_start(s) == s,
        metrics::trimmed_end(s) == s,
{
}

/// The first word ends where white space starts.
pub proof fn lemma_word(s: &str, r: &str)
    requires
        call_ensures(metrics::take_word, (s,), r),
    ensures
        r@.len() <= s@.len(),
        r@ == s@.take(r@.len() as int),
        no_white(r@),
        r@.len() < s@.len() ==> text::white_space(s@[r@.len() as int]),
{
    lemma_first_word(s@);
}

proof fn lemma_first_word(s: Seq<char>)
    ensures
        metrics::first_word(s).len() <= s.len(),
        metrics::first_word(s) == s.take(metrics::first_word(s).len() as int),
        no_white(metrics::first_word(s)),
        metrics::first_word(s).len() < s.len() ==> text::white_space(
            s[metrics::first_word(s).len() as int],
        ),
    decreases s.len(),
{
    let w = metrics::first_word(s);
    if s.len() == 0 || text::white_space(s[0]) {
        assert(s.take(0) =~= w);
    } else {
        let u = s.skip(1);
        let v = metrics::first_word(u);
        lemma_first_word(u);
        assert(w =~= s.take(w.len() as int)) by {
            assert forall|i: int| 0 <= i < w.len() implies w[i] == s[i] by {
                if i > 0 {
                    assert(w[i] == v[i - 1]);
                    assert(v[i - 1] == u[i - 1]);
                }
            }
        }
        assert forall|i: int| 0 <= i < w.len() implies !text::white_space(#[trigger] w[i]) by {
            if i > 0 {
                assert(w[i] == v[i - 1]);
            }
        }
        if w.len() < s.len() {
            assert(s[w.len() as int] == u[v.len() as int]);
        }
    }
}

/// A word that white space or nothing follows is the first one.
pub(crate) proof fn lemma_word_is_first(w: Seq<char>, tail: Seq<char>)
    requires
        no_white(w),
        tail.len() > 0 ==> text::white_space(tail[0]),
    ensures
        metrics::first_word(w + tail) == w,
{
    let s = w + tail;
    let f = metrics::first_word(s);
    lemma_first_word(s);
    if f.len() < w.len() {
        assert(s[f.len() as int] == w[f.len() as int]);
    }
    if f.len() > w.len() {
        assert(f[w.len() as int] == s[w.len() as int]);
        assert(s[w.len() as int] == tail[0]);
    }
    assert(s.take(w.len() as int) =~= w);
}

/// The first place of a character.
pub proof fn lemma_found(v: Vec<char>, c: char, r: Option<usize>)
    requires
        call_ensures(metrics::find_first, (&v, c), r),
    ensures
        r matches Some(i) ==> i < v@.len() && v@[i as int] == c && lacks(v@.take(i as int), c),
        r is None ==> lacks(v@, c),
{
    metrics::lemma_first_of_bounds(v@, c);
    if let Some(i) = r {
        lemma_first_of_says(v@, c);
    }
}

proof fn lemma_first_of_says(s: Seq<char>, c: char)
    ensures
        metrics::first_of(s, c) matches Some(i) ==> 0 <= i < s.len() && s[i] == c && lacks(
            s.take(i),
            c,
        ),
        metrics::first_of(s, c) is None ==> lacks(s, c),
    decreases s.len(),
{
    metrics::lemma_first_of_bounds(s, c);
    if s.len() > 0 {
        let p = s.drop_last();
        lemma_first_of_says(p, c);
        if let Some(i) = metrics::first_of(p, c) {
            assert(p.take(i) =~= s.take(i));
        } else if s.last() == c {
            assert(s.take(s.len() - 1) =~= p);
        }
    }
}

proof fn lemma_last_of_found(s: Seq<char>, c: char)
    requires
        s.len() > 0,
        s.last() == c,
    ensures
        metrics::last_of(s, c) == Some(s.len() - 1),
{
}

// --------------------------------------------------------------------- lines

/// A text is cut where its lines end: the first line comes first, without its line
/// feed and the carriage return before it, and then the lines of the rest.
pub proof fn lemma_lines(
    line: Seq<char>,
    rest: &str,
    whole: &str,
    r: Vec<String>,
    all: Vec<String>,
)
    requires
        lacks(line, '\n'),
        whole@ == line + seq!['\n'] + rest@,
        call_ensures(metrics::split_lines, (rest,), r),
        call_ensures(metrics::split_lines, (whole,), all),
    ensures
        all@.len() == r@.len() + 1,
        line.len() > 0 && line.last() == '\r' ==> all@[0]@ == line.drop_last(),
        !(line.len() > 0 && line.last() == '\r') ==> all@[0]@ == line,
        forall|i: int| 0 <= i < r@.len() ==> #[trigger] all@[i + 1]@ == r@[i]@,
{
    let s = whole@;
    let n = line.len() as int;
    assert forall|k: int| 0 <= k < n implies s[k] != '\n' by {
        assert(s[k] == line[k]);
    }
    metrics::lemma_first_of_found(s, '\n', n);
    assert(s.take(n) =~= line);
    assert(s.skip(n + 1) =~= rest@);
    let a = metrics::strings_view(all@);
    let b = metrics::strings_view(r@);
    assert(a.len() == all@.len() && b.len() == r@.len());
    assert(a[0] == all@[0]@);
    assert forall|i: int| 0 <= i < r@.len() implies #[trigger] all@[i + 1]@ == r@[i]@ by {
        assert(a[i + 1] == b[i]);
    }
}

/// A text without a line feed is one line, and no line where it is empty.
pub proof fn lemma_last_line(line: &str, r: Vec<String>)
    requires
        lacks(line@, '\n'),
        call_ensures(metrics::split_lines, (line,), r),
    ensures
        line@.len() == 0 ==> r@.len() == 0,
        line@.len() > 0 ==> r@.len() == 1 && r@[0]@ == line@,
{
    metrics::lemma_first_of_none(line@, '\n');
    assert(metrics::strings_view(r@).len() == r@.len());
    if line@.len() > 0 {
        assert(metrics::strings_view(r@)[0] == r@[0]@);
    }
}

// ------------------------------------------------------------------- escapes

/// A character of a label's value, as it is written.
pub open spec fn escaped_char(c: char) -> Seq<char> {
    if c == '\\' {
        seq!['\\', '\\']
    } else if c == '"' {
        seq!['\\', '"']
    } else if c == '\n' {
        seq!['\\', 'n']
    } else {
        seq![c]
    }
}

/// A label's value, as it is written.
pub open spec fn escaped(v: Seq<char>) -> Seq<char>
    decreases v.len(),
{
    if v.len() == 0 {
        Seq::empty()
    } else {
        escaped(v.drop_last()) + escaped_char(v.last())
    }
}

proof fn lemma_escaped_front(v: Seq<char>)
    requires
        v.len() > 0,
    ensures
        escaped(v) == escaped_char(v[0]) + escaped(v.skip(1)),
    decreases v.len(),
{
    if v.len() == 1 {
        assert(v.drop_last() =~= Seq::<char>::empty());
        assert(v.skip(1) =~= Seq::<char>::empty());
        assert(escaped(v) =~= escaped_char(v[0]) + escaped(v.skip(1)));
    } else {
        let p = v.drop_last();
        lemma_escaped_front(p);
        assert(p.skip(1) =~= v.skip(1).drop_last());
        assert(v.skip(1).last() == v.last());
        assert(escaped(v) =~= escaped_char(v[0]) + (escaped(v.skip(1).drop_last()) + escaped_char(
            v.last(),
        )));
    }
}

proof fn lemma_unescaped(v: Seq<char>)
    ensures
        metrics::unescaped(escaped(v)) == Some(v),
    decreases v.len(),
{
    if v.len() > 0 {
        lemma_escaped_front(v);
        let t = v.skip(1);
        lemma_unescaped(t);
        let s = escaped(v);
        let c = escaped_char(v[0]);
        assert(s.skip(c.len() as int) =~= escaped(t));
        assert(s[0] == c[0]);
        assert(seq![v[0]] + t =~= v);
        if c.len() == 2 {
            assert(s[1] == c[1]);
        }
    }
}

/// A label's value comes back as it was written, between quotes.
pub proof fn lemma_value_comes_back(v: Seq<char>, t: &str, r: Option<String>)
    requires
        t@ == seq!['"'] + escaped(v) + seq!['"'],
        call_ensures(metrics::parse_label_value, (t,), r),
    ensures
        r matches Some(s) && s@ == v,
{
    lemma_unescaped(v);
    assert(t@.subrange(1, t@.len() - 1) =~= escaped(v));
}

/// `t` is `body` between quotes.
pub open spec fn quoted(t: Seq<char>, body: Seq<char>) -> bool {
    t == seq!['"'] + body + seq!['"']
}

/// How a label's value is read, character by character: what stands behind a backslash
/// is taken for itself, but for an `n`, which is a line feed. A value that is not
/// between quotes, or ends in a backslash that nothing follows, is none.
pub proof fn lemma_value_read(
    t: &str,
    r: Option<String>,
    c: char,
    rest: Seq<char>,
    u: &str,
    s: Option<String>,
)
    requires
        call_ensures(metrics::parse_label_value, (t,), r),
        call_ensures(metrics::parse_label_value, (u,), s),
        quoted(u@, rest),
    ensures
        t@.len() < 2 || t@[0] != '"' || t@.last() != '"' ==> r is None,
        quoted(t@, Seq::empty()) ==> r is Some && r->Some_0@.len() == 0,
        quoted(t@, seq!['\\']) ==> r is None,
        quoted(t@, seq![c] + rest) && c != '\\' ==> (r is Some <==> s is Some) && (r is Some
            ==> r->Some_0@ == seq![c] + s->Some_0@),
        quoted(t@, seq!['\\', c] + rest) ==> (r is Some <==> s is Some) && (r is Some
            ==> r->Some_0@ == seq![if c == 'n' { '\n' } else { c }] + s->Some_0@),
{
    let b = t@.subrange(1, t@.len() - 1);
    assert(u@.subrange(1, u@.len() - 1) =~= rest);
    if quoted(t@, Seq::empty()) {
        assert(b =~= Seq::<char>::empty());
    }
    if quoted(t@, seq!['\\']) {
        assert(b =~= seq!['\\']);
    }
    if quoted(t@, seq![c] + rest) {
        assert(b =~= seq![c] + rest);
        assert(b.skip(1) =~= rest);
    }
    if quoted(t@, seq!['\\', c] + rest) {
        assert(b =~= seq!['\\', c] + rest);
        assert(b.skip(2) =~= rest);
        assert(b[1] == c);
    }
}

// -------------------------------------------------------------------- labels

/// A label's name: nothing in it that has a meaning of its own.
pub open spec fn plain_name(k: Seq<char>) -> bool {
    &&& no_white(k)
    &&& lacks(k, '"')
    &&& lacks(k, '\\')
    &&& lacks(k, ',')
    &&& lacks(k, '=')
    &&& lacks(k, '{')
}

/// A label, as it is written.
pub open spec fn written_label(k: Seq<char>, v: Seq<char>) -> Seq<char> {
    k + seq!['=', '"'] + escaped(v) + seq!['"']
}

/// Labels, as they are written: with commas between them.
pub open spec fn written(labels: Seq<(Seq<char>, Seq<char>)>) -> Seq<char>
    decreases labels.len(),
{
    if labels.len() == 0 {
        Seq::empty()
    } else if labels.len() == 1 {
        written_label(labels[0].0, labels[0].1)
    } else {
        written(labels.drop_last()) + seq![','] + written_label(labels.last().0, labels.last().1)
    }
}

/// All of the names are plain ones.
pub open spec fn plain_names(labels: Seq<(Seq<char>, Seq<char>)>) -> bool {
    forall|i: int| 0 <= i < labels.len() ==> plain_name((#[trigger] labels[i]).0)
}

/// Where a text stands outside quotes, there is no white space in it.
spec fn unbroken(s: Seq<char>) -> bool {
    forall|j: int|
        0 <= j < s.len() ==> !(text::white_space(#[trigger] s[j]) && metrics::plain_at(s, j))
}

spec fn outside() -> Quoting {
    Quoting { in_quotes: false, escaped: false }
}

spec fn inside() -> Quoting {
    Quoting { in_quotes: true, escaped: false }
}

proof fn lemma_push(s: Seq<char>, c: char)
    ensures
        metrics::quoting(s.push(c)) == ({
            let before = metrics::quoting(s);
            if before.escaped {
                Quoting { in_quotes: before.in_quotes, escaped: false }
            } else if c == '\\' {
                Quoting { in_quotes: before.in_quotes, escaped: true }
            } else if c == '"' {
                Quoting { in_quotes: !before.in_quotes, escaped: false }
            } else {
                before
            }
        }),
        metrics::parts_of(s.push(c)) == ({
            let p = metrics::parts_of(s);
            if c == ',' && metrics::quoting(s) == outside() {
                Parts {
                    done: p.done.push(metrics::trimmed(p.current)),
                    current: Seq::empty(),
                }
            } else {
                Parts { done: p.done, current: p.current.push(c) }
            }
        }),
        unbroken(s) && !(text::white_space(c) && metrics::quoting(s) == outside()) ==> unbroken(
            s.push(c),
        ),
{
    let t = s.push(c);
    assert(t.drop_last() =~= s);
    assert(t.take(t.len() - 1) =~= s);
    if unbroken(s) && !(text::white_space(c) && metrics::quoting(s) == outside()) {
        assert forall|j: int| 0 <= j < t.len() implies !(text::white_space(#[trigger] t[j])
            && metrics::plain_at(t, j)) by {
            if j < s.len() {
                assert(t.take(j) =~= s.take(j));
                assert(t[j] == s[j]);
            }
        }
    }
}

proof fn lemma_plain_appended(s: Seq<char>, k: Seq<char>)
    requires
        metrics::quoting(s) == outside(),
        lacks(k, '"'),
        lacks(k, '\\'),
        lacks(k, ','),
        no_white(k),
    ensures
        metrics::quoting(s + k) == outside(),
        metrics::parts_of(s + k) == (Parts {
            done: metrics::parts_of(s).done,
            current: metrics::parts_of(s).current + k,
        }),
        unbroken(s) ==> unbroken(s + k),
    decreases k.len(),
{
    if k.len() == 0 {
        assert(s + k =~= s);
        assert(metrics::parts_of(s).current + k =~= metrics::parts_of(s).current);
    } else {
        let p = k.drop_last();
        let c = k.last();
        assert(c == k[k.len() - 1]);
        assert forall|i: int| 0 <= i < p.len() implies #[trigger] p[i] != '"' && p[i] != '\\'
            && p[i] != ',' && !text::white_space(p[i]) by {
            assert(p[i] == k[i]);
        }
        lemma_plain_appended(s, p);
        lemma_push(s + p, c);
        assert((s + p).push(c) =~= s + k);
        assert((metrics::parts_of(s).current + p).push(c) =~= metrics::parts_of(s).current + k);
    }
}

proof fn lemma_value_appended(s: Seq<char>, v: Seq<char>)
    requires
        metrics::quoting(s) == inside(),
    ensures
        metrics::quoting(s + escaped(v)) == inside(),
        metrics::parts_of(s + escaped(v)) == (Parts {
            done: metrics::parts_of(s).done,
            current: metrics::parts_of(s).current + escaped(v),
        }),
        unbroken(s) ==> unbroken(s + escaped(v)),
    decreases v.len(),
{
    let cur = metrics::parts_of(s).current;
    if v.len() == 0 {
        assert(s + escaped(v) =~= s);
        assert(cur + escaped(v) =~= cur);
    } else {
        let p = escaped(v.drop_last());
        let c = escaped_char(v.last());
        lemma_value_appended(s, v.drop_last());
        lemma_push(s + p, c[0]);
        if c.len() == 1 {
            assert((s + p).push(c[0]) =~= s + escaped(v));
            assert((cur + p).push(c[0]) =~= cur + escaped(v));
        } else {
            lemma_push((s + p).push(c[0]), c[1]);
            assert((s + p).push(c[0]).push(c[1]) =~= s + escaped(v));
            assert((cur + p).push(c[0]).push(c[1]) =~= cur + escaped(v));
        }
    }
}

proof fn lemma_label_appended(s: Seq<char>, k: Seq<char>, v: Seq<char>)
    requires
        metrics::quoting(s) == outside(),
        plain_name(k),
    ensures
        metrics::quoting(s + written_label(k, v)) == outside(),
        metrics::parts_of(s + written_label(k, v)) == (Parts {
            done: metrics::parts_of(s).done,
            current: metrics::parts_of(s).current + written_label(k, v),
        }),
        unbroken(s) ==> unbroken(s + written_label(k, v)),
{
    let cur = metrics::parts_of(s).current;
    let e = seq!['='];
    lemma_plain_appended(s, k);
    lemma_plain_appended(s + k, e);
    let a = s + k + e;
    lemma_push(a, '"');
    let b = a.push('"');
    lemma_value_appended(b, v);
    let d = b + escaped(v);
    lemma_push(d, '"');
    assert(d.push('"') =~= s + written_label(k, v));
    assert((((cur + k) + e).push('"') + escaped(v)).push('"') =~= cur + written_label(k, v));
}

proof fn lemma_label_text(k: Seq<char>, v: Seq<char>)
    requires
        plain_name(k),
    ensures
        metrics::trimmed(written_label(k, v)) == written_label(k, v),
        metrics::label_of(written_label(k, v)) == Some((k, v)),
{
    let t = written_label(k, v);
    let n = k.len() as int;
    assert(t.last() == '"');
    assert(t[0] == if n > 0 { k[0] } else { '=' });
    lemma_untrimmed(t);
    assert forall|i: int| 0 <= i < n implies t[i] != '=' by {
        assert(t[i] == k[i]);
    }
    assert(t[n] == '=');
    metrics::lemma_first_of_found(t, '=', n);
    assert(t.take(n) =~= k);
    lemma_untrimmed(k);
    let q = seq!['"'] + escaped(v) + seq!['"'];
    assert(t.skip(n + 1) =~= q);
    assert(q[0] == '"' && q.last() == '"');
    lemma_untrimmed(q);
    assert(q.subrange(1, q.len() - 1) =~= escaped(v));
    lemma_unescaped(v);
}

/// The labels, each as it is written.
spec fn texts(labels: Seq<(Seq<char>, Seq<char>)>) -> Seq<Seq<char>> {
    Seq::new(labels.len(), |i: int| written_label(labels[i].0, labels[i].1))
}

proof fn lemma_written(s: Seq<char>, labels: Seq<(Seq<char>, Seq<char>)>)
    requires
        plain_names(labels),
        metrics::quoting(s) == outside(),
        metrics::parts_of(s).current.len() == 0,
    ensures
        metrics::quoting(s + written(labels)) == outside(),
        unbroken(s) ==> unbroken(s + written(labels)),
        labels.len() > 0 ==> metrics::parts_of(s + written(labels)) == (Parts {
            done: metrics::parts_of(s).done + texts(labels.drop_last()),
            current: written_label(labels.last().0, labels.last().1),
        }),
    decreases labels.len(),
{
    if labels.len() == 0 {
        assert(s + written(labels) =~= s);
    } else {
        let (k, v) = labels.last();
        assert(plain_name(labels[labels.len() - 1].0));
        if labels.len() == 1 {
            lemma_label_appended(s, k, v);
            assert(texts(labels.drop_last()) =~= Seq::<Seq<char>>::empty());
            assert(metrics::parts_of(s).done + texts(labels.drop_last())
                =~= metrics::parts_of(s).done);
            assert(metrics::parts_of(s).current + written_label(k, v) =~= written_label(k, v));
        } else {
            let p = labels.drop_last();
            assert forall|i: int| 0 <= i < p.len() implies plain_name((#[trigger] p[i]).0) by {
                assert(p[i] == labels[i]);
            }
            lemma_written(s, p);
            let a = s + written(p);
            lemma_push(a, ',');
            let b = a.push(',');
            lemma_label_appended(b, k, v);
            assert(b + written_label(k, v) =~= s + written(labels));
            assert(plain_name(p[p.len() - 1].0));
            lemma_label_text(p.last().0, p.last().1);
            assert(texts(p) =~= texts(p.drop_last()).push(
                written_label(p.last().0, p.last().1),
            ));
            assert((metrics::parts_of(s).done + texts(p.drop_last())).push(
                written_label(p.last().0, p.last().1),
            ) =~= metrics::parts_of(s).done + texts(p));
            assert(Seq::<char>::empty() + written_label(k, v) =~= written_label(k, v));
        }
    }
}

proof fn lemma_parts_written(labels: Seq<(Seq<char>, Seq<char>)>)
    requires
        plain_names(labels),
    ensures
        metrics::label_parts(written(labels)) == texts(labels),
{
    let none = Seq::<char>::empty();
    assert(none + written(labels) =~= written(labels));
    lemma_written(none, labels);
    if labels.len() == 0 {
        assert(texts(labels) =~= metrics::label_parts(written(labels)));
    } else {
        let (k, v) = labels.last();
        assert(plain_name(labels[labels.len() - 1].0));
        lemma_label_text(k, v);
        assert(metrics::parts_of(none).done + texts(labels.drop_last())
            =~= texts(labels.drop_last()));
        assert(texts(labels) =~= texts(labels.drop_last()).push(written_label(k, v)));
    }
}

/// The value that stands last under a name.
pub open spec fn last_value(labels: Seq<(Seq<char>, Seq<char>)>, k: Seq<char>) -> Option<Seq<char>>
    decreases labels.len(),
{
    if labels.len() == 0 {
        None
    } else if labels.last().0 == k {
        Some(labels.last().1)
    } else {
        last_value(labels.drop_last(), k)
    }
}

proof fn lemma_labelled(labels: Seq<(Seq<char>, Seq<char>)>, k: Seq<char>)
    requires
        plain_names(labels),
    ensures
        metrics::all_labels(texts(labels)),
        metrics::labelled(texts(labels), k) == last_value(labels, k),
    decreases labels.len(),
{
    assert forall|i: int| 0 <= i < texts(labels).len() implies metrics::label_of(
        #[trigger] texts(labels)[i],
    ) is Some by {
        assert(plain_name(labels[i].0));
        lemma_label_text(labels[i].0, labels[i].1);
    }
    if labels.len() > 0 {
        let p = labels.drop_last();
        assert forall|i: int| 0 <= i < p.len() implies plain_name((#[trigger] p[i]).0) by {
            assert(p[i] == labels[i]);
        }
        lemma_labelled(p, k);
        assert(texts(labels).drop_last() =~= texts(p));
        assert(plain_name(labels[labels.len() - 1].0));
        lemma_label_text(labels.last().0, labels.last().1);
    }
}

/// What is looked up in labels is what was written last under that name.
pub open spec fn labels_say(l: Labels, labels: Seq<(Seq<char>, Seq<char>)>) -> bool {
    forall|k: Seq<char>| #[trigger] metrics::value_at(l.pairs@, k) == last_value(labels, k)
}

/// Labels come back as they were written: the parts one by one, and the value that
/// stands last under each name, whatever is in it.
pub proof fn lemma_labels_come_back(
    labels: Seq<(Seq<char>, Seq<char>)>,
    t: &str,
    parts: Vec<String>,
    r: Option<Labels>,
)
    requires
        plain_names(labels),
        t@ == written(labels),
        call_ensures(metrics::split_label_parts, (t,), parts),
        call_ensures(metrics::parse_labels, (t,), r),
    ensures
        parts@.len() == labels.len(),
        forall|i: int|
            0 <= i < labels.len() ==> #[trigger] parts@[i]@ == written_label(
                labels[i].0,
                labels[i].1,
            ),
        r matches Some(l) && labels_say(l, labels),
{
    lemma_parts_written(labels);
    let v = metrics::strings_view(parts@);
    assert(v.len() == parts@.len());
    assert forall|i: int| 0 <= i < labels.len() implies #[trigger] parts@[i]@ == written_label(
        labels[i].0,
        labels[i].1,
    ) by {
        assert(v[i] == texts(labels)[i]);
    }
    lemma_labelled(labels, Seq::empty());
    if let Some(l) = r {
        assert forall|k: Seq<char>| #[trigger] metrics::value_at(l.pairs@, k) == last_value(
            labels,
            k,
        ) by {
            lemma_labelled(labels, k);
        }
    }
}

/// A label, with white space round its name and its value.
pub open spec fn padded_label(
    k: Seq<char>,
    v: Seq<char>,
    w: (Seq<char>, Seq<char>, Seq<char>, Seq<char>),
) -> Seq<char> {
    w.0 + k + w.1 + seq!['='] + w.2 + seq!['"'] + escaped(v) + seq!['"'] + w.3
}

proof fn lemma_blanks_appended(s: Seq<char>, w: Seq<char>)
    requires
        metrics::quoting(s) == outside(),
        all_white(w),
    ensures
        metrics::quoting(s + w) == outside(),
        metrics::parts_of(s + w) == (Parts {
            done: metrics::parts_of(s).done,
            current: metrics::parts_of(s).current + w,
        }),
    decreases w.len(),
{
    if w.len() == 0 {
        assert(s + w =~= s);
        assert(metrics::parts_of(s).current + w =~= metrics::parts_of(s).current);
    } else {
        let p = w.drop_last();
        assert forall|i: int| 0 <= i < p.len() implies text::white_space(#[trigger] p[i]) by {
            assert(p[i] == w[i]);
        }
        lemma_blanks_appended(s, p);
        assert(text::white_space(w[w.len() - 1]));
        lemma_push(s + p, w.last());
        assert((s + p).push(w.last()) =~= s + w);
        assert((metrics::parts_of(s).current + p).push(w.last()) =~= metrics::parts_of(s).current
            + w);
    }
}

/// A text in white space is trimmed to the text.
proof fn lemma_padding_goes(a: Seq<char>, s: Seq<char>, b: Seq<char>)
    requires
        all_white(a),
        all_white(b),
        s.len() > 0 ==> !text::white_space(s[0]) && !text::white_space(s.last()),
    ensures
        s.len() > 0 ==> metrics::trimmed(a + s + b) == s,
        s.len() == 0 ==> metrics::trimmed(a + s + b).len() == 0,
{
    let t = a + s + b;
    lemma_trims(t);
    let r = metrics::trimmed(t);
    let n = choose|n: int| #[trigger] trims(t, r, n);
    if r.len() > 0 {
        assert(r[0] == t[n]);
        assert(r.last() == t[n + r.len() - 1]);
        if n < a.len() {
            assert(t[n] == a[n]);
        }
        if n >= a.len() + s.len() {
            assert(t[n] == b[n - a.len() - s.len()]);
        }
        if n + r.len() - 1 >= a.len() + s.len() {
            assert(t[n + r.len() - 1] == b[n + r.len() - 1 - a.len() - s.len()]);
        }
    }
    if s.len() > 0 {
        let i = a.len() as int;
        let j = a.len() + s.len() - 1;
        assert(t[i] == s[0]);
        assert(t[j] == s.last());
        if n > i {
            assert(t.take(n)[i] == t[i]);
        }
        if n + r.len() <= j {
            assert(t.skip(n + r.len())[j - n - r.len()] == t[j]);
        }
        assert(r =~= s);
    }
}

/// White space round a label, its name and its value is not a part of them.
pub proof fn lemma_padded_label_comes_back(
    k: Seq<char>,
    v: Seq<char>,
    w: (Seq<char>, Seq<char>, Seq<char>, Seq<char>),
    t: &str,
    r: Option<Labels>,
)
    requires
        plain_name(k),
        k.len() > 0,
        all_white(w.0),
        all_white(w.1),
        all_white(w.2),
        all_white(w.3),
        t@ == padded_label(k, v, w),
        call_ensures(metrics::parse_labels, (t,), r),
    ensures
        r matches Some(l) && labels_say(l, seq![(k, v)]),
{
    let none = Seq::<char>::empty();
    let q = seq!['"'] + escaped(v) + seq!['"'];
    let name = w.0 + k + w.1;
    let value = w.2 + q + w.3;
    let core = k + w.1 + seq!['='] + w.2 + q;
    assert(t@ =~= w.0 + core + w.3);
    assert(core[0] == k[0]);
    assert(core.last() == '"');
    lemma_padding_goes(w.0, core, w.3);
    lemma_padded_parts(k, v, w);
    let parts = metrics::label_parts(t@);
    assert(parts =~= seq![core]);
    let inner = k + w.1;
    let rest = w.2 + q;
    let n = inner.len() as int;
    assert forall|i: int| 0 <= i < n implies core[i] != '=' by {
        if i < k.len() {
            assert(core[i] == k[i]);
        } else {
            assert(core[i] == w.1[i - k.len()]);
        }
    }
    assert(core[n] == '=');
    metrics::lemma_first_of_found(core, '=', n);
    assert(core.take(n) =~= none + k + w.1);
    assert(core.skip(n + 1) =~= w.2 + q + none);
    assert(k.last() == k[k.len() - 1]);
    lemma_padding_goes(none, k, w.1);
    assert(q[0] == '"' && q.last() == '"');
    lemma_padding_goes(w.2, q, none);
    assert(q.subrange(1, q.len() - 1) =~= escaped(v));
    lemma_unescaped(v);
    assert(metrics::label_of(core) == Some((k, v)));
    assert(metrics::all_labels(parts));
    if let Some(l) = r {
        let one = seq![(k, v)];
        assert forall|x: Seq<char>| #[trigger] metrics::value_at(l.pairs@, x) == last_value(
            one,
            x,
        ) by {
            assert(parts.last() == core);
            assert(parts.drop_last() =~= Seq::<Seq<char>>::empty());
            assert(one.drop_last() =~= Seq::<(Seq<char>, Seq<char>)>::empty());
            reveal_with_fuel(metrics::labelled, 2);
            reveal_with_fuel(last_value, 2);
        }
    }
}

proof fn lemma_padded_parts(
    k: Seq<char>,
    v: Seq<char>,
    w: (Seq<char>, Seq<char>, Seq<char>, Seq<char>),
)
    requires
        plain_name(k),
        all_white(w.0),
        all_white(w.1),
        all_white(w.2),
        all_white(w.3),
    ensures
        metrics::label_parts(padded_label(k, v, w)) == seq![
            metrics::trimmed(padded_label(k, v, w)),
        ],
{
    let none = Seq::<char>::empty();
    let a = none + w.0;
    lemma_blanks_appended(none, w.0);
    lemma_plain_appended(a, k);
    let b = a + k;
    lemma_blanks_appended(b, w.1);
    let c = b + w.1;
    let e = seq!['='];
    lemma_plain_appended(c, e);
    let d = c + e;
    lemma_blanks_appended(d, w.2);
    let f = d + w.2;
    lemma_push(f, '"');
    let g = f.push('"');
    lemma_value_appended(g, v);
    let h = g + escaped(v);
    lemma_push(h, '"');
    let i = h.push('"');
    lemma_blanks_appended(i, w.3);
    let t = padded_label(k, v, w);
    assert(i + w.3 =~= t);
    let p = metrics::parts_of(t);
    assert(p.current =~= t);
    assert(p.done =~= Seq::<Seq<char>>::empty());
    assert(t.len() > 0);
    assert(metrics::label_parts(t) =~= seq![metrics::trimmed(t)]);
}

/// One label that is none spoils all of them.
pub proof fn lemma_one_bad_label(
    labels: Seq<(Seq<char>, Seq<char>)>,
    bad: Seq<char>,
    t: &str,
    r: Option<Labels>,
)
    requires
        plain_names(labels),
        labels.len() > 0,
        plain_name(bad),
        bad.len() > 0,
        t@ == written(labels) + seq![','] + bad,
        call_ensures(metrics::parse_labels, (t,), r),
    ensures
        r is None,
{
    let none = Seq::<char>::empty();
    let s = written(labels);
    assert(none + s =~= s);
    lemma_written(none, labels);
    lemma_push(s, ',');
    let u = s.push(',');
    lemma_plain_appended(u, bad);
    assert(u + bad =~= t@);
    assert(none + bad =~= bad);
    let p = metrics::label_parts(t@);
    assert(bad.last() == bad[bad.len() - 1]);
    lemma_untrimmed(bad);
    assert(p.last() == bad);
    metrics::lemma_first_of_none(bad, '=');
    assert(metrics::label_of(p[p.len() - 1]) is None);
}

/// A label without an equals sign, or with a value that is none, is none, and no label
/// is read of a text that has such a one.
pub proof fn lemma_bad_label(t: &str, r: Option<Labels>)
    requires
        call_ensures(metrics::parse_labels, (t,), r),
        t@.len() > 0,
        lacks(t@, ','),
        lacks(t@, '"') || lacks(t@, '='),
        lacks(t@, '\\'),
    ensures
        r is None,
{
    lemma_one_part(t@);
    let p = metrics::label_parts(t@);
    assert(p.len() == 1);
    let u = metrics::trimmed(t@);
    assert(p[0] == u);
    lemma_trimmed_start(t@);
    let a = metrics::trimmed_start(t@);
    lemma_trimmed_end(a);
    assert forall|i: int| 0 <= i < u.len() implies t@.contains(#[trigger] u[i]) by {
        assert(u[i] == a[i]);
        assert(a[i] == t@[i + (t@.len() - a.len())]);
    }
    lemma_first_of_says(u, '=');
    if let Some(i) = metrics::first_of(u, '=') {
        assert(t@.contains(u[i]));
        let w = u.skip(i + 1);
        let x = metrics::trimmed(w);
        lemma_trimmed_start(w);
        let b = metrics::trimmed_start(w);
        lemma_trimmed_end(b);
        if x.len() > 0 {
            assert(x[0] == b[0]);
            assert(b[0] == w[w.len() - b.len()]);
            assert(w[w.len() - b.len()] == u[i + 1 + (w.len() - b.len())]);
            assert(t@.contains(u[i + 1 + (w.len() - b.len())]));
        }
        assert(metrics::label_of(u) is None);
    }
    assert(metrics::label_of(p[0]) is None);
}

proof fn lemma_one_part(s: Seq<char>)
    requires
        lacks(s, ','),
    ensures
        metrics::parts_of(s).done.len() == 0,
        metrics::parts_of(s).current == s,
    decreases s.len(),
{
    if s.len() > 0 {
        let p = s.drop_last();
        assert forall|i: int| 0 <= i < p.len() implies #[trigger] p[i] != ',' by {
            assert(p[i] == s[i]);
        }
        lemma_one_part(p);
        assert(s.last() == s[s.len() - 1]);
        assert(p.push(s.last()) =~= s);
    }
}

/// What was put under a name is found there, and what stands under other names stays.
pub proof fn lemma_labels(x: &mut Labels, key: String, value: String)
    requires
        old(x).well_formed(),
        call_ensures(Labels::insert, (x, key, value), ()),
    ensures
        final(x).well_formed(),
        metrics::value_at(final(x).pairs@, key@) == Some(value@),
        forall|k: Seq<char>|
            k != key@ ==> #[trigger] metrics::value_at(final(x).pairs@, k) == metrics::value_at(
                old(x).pairs@,
                k,
            ),
{
}

/// A name is looked up by what stands under it, and labels are empty where nothing
/// stands in them.
pub proof fn lemma_label_found(
    l: Labels,
    key: &str,
    i: int,
    r: Option<&String>,
    none: bool,
    fresh: Labels,
)
    requires
        l.well_formed(),
        call_ensures(Labels::get, (&l, key), r),
        call_ensures(Labels::is_empty, (&l,), none),
        call_ensures(Labels::new, (), fresh),
        0 <= i < l.pairs@.len(),
    ensures
        l.pairs@[i].0@ == key@ ==> r is Some && r->Some_0@ == l.pairs@[i].1@,
        r matches Some(v) ==> exists|j: int|
            0 <= j < l.pairs@.len() && (#[trigger] l.pairs@[j]).0@ == key@ && l.pairs@[j].1@ == v@,
        !none,
        fresh.pairs@.len() == 0,
{
    metrics::lemma_value_in(l.pairs@, i);
    if exists|j: int| 0 <= j < l.pairs@.len() && (#[trigger] l.pairs@[j]).0@ == key@ {
        let j = choose|j: int| 0 <= j < l.pairs@.len() && (#[trigger] l.pairs@[j]).0@ == key@;
        metrics::lemma_value_in(l.pairs@, j);
    } else {
        metrics::lemma_value_not_in(l.pairs@, key@);
    }
}

/// Names stand in the order of their characters: a name before its extensions, and
/// else by the first character in which they differ.
pub proof fn lemma_name_order(a: Seq<char>, b: Seq<char>, n: int)
    requires
        0 <= n <= a.len(),
        n <= b.len(),
        a.take(n) == b.take(n),
        n < a.len() && n < b.len() ==> a[n] != b[n],
    ensures
        n == a.len() || n == b.len() ==> (metrics::before(a, b) <==> a.len() < b.len()),
        n < a.len() && n < b.len() ==> (metrics::before(a, b) <==> a[n] < b[n]),
    decreases n,
{
    if n > 0 {
        assert(a.take(n)[0] == a[0] && b.take(n)[0] == b[0]);
        assert(a.skip(1).take(n - 1) =~= a.take(n).skip(1));
        assert(b.skip(1).take(n - 1) =~= b.take(n).skip(1));
        lemma_name_order(a.skip(1), b.skip(1), n - 1);
    }
}

// ------------------------------------------------------------------- samples

/// A selector, as it is written: a name, and its labels in braces where there are any.
pub open spec fn written_selector(
    name: Seq<char>,
    labels: Option<Seq<(Seq<char>, Seq<char>)>>,
) -> Seq<char> {
    match labels {
        None => name,
        Some(l) => name + seq!['{'] + written(l) + seq!['}'],
    }
}

/// The labels of a selector that may have none.
pub open spec fn labels_or_none(labels: Option<Seq<(Seq<char>, Seq<char>)>>) -> Seq<
    (Seq<char>, Seq<char>),
> {
    match labels {
        None => Seq::empty(),
        Some(l) => l,
    }
}

proof fn lemma_selector(name: Seq<char>, labels: Option<Seq<(Seq<char>, Seq<char>)>>)
    requires
        plain_name(name),
        plain_names(labels_or_none(labels)),
    ensures
        metrics::selected(written_selector(name, labels)) == Some(
            (name, texts(labels_or_none(labels))),
        ),
        metrics::quoting(written_selector(name, labels)) == outside(),
        unbroken(written_selector(name, labels)),
{
    let none = Seq::<char>::empty();
    let s = written_selector(name, labels);
    assert(none + name =~= name);
    assert(unbroken(none));
    lemma_plain_appended(none, name);
    match labels {
        None => {
            metrics::lemma_first_of_none(name, '{');
            assert(texts(labels_or_none(labels)) =~= Seq::<Seq<char>>::empty());
        },
        Some(l) => {
            lemma_push(name, '{');
            let a = name.push('{');
            lemma_written_after(a, l);
            lemma_push(a + written(l), '}');
            assert((a + written(l)).push('}') =~= s);
            lemma_braced(name, l);
        },
    }
}

proof fn lemma_braced(name: Seq<char>, l: Seq<(Seq<char>, Seq<char>)>)
    requires
        plain_name(name),
        plain_names(l),
    ensures
        metrics::selected(written_selector(name, Some(l))) == Some((name, texts(l))),
{
    let n = name.len() as int;
    let w = written(l);
    lemma_parts_written(l);
    lemma_labelled(l, Seq::empty());
    lemma_between(name, w);
    let s = written_selector(name, Some(l));
    assert(metrics::braces(s) == Some((n, s.len() - 1)));
}

proof fn lemma_between(name: Seq<char>, w: Seq<char>)
    requires
        lacks(name, '{'),
    ensures
        ({
            let s = name + seq!['{'] + w + seq!['}'];
            let n = name.len() as int;
            &&& metrics::first_of(s, '{') == Some(n)
            &&& metrics::last_of(s, '}') == Some(s.len() - 1)
            &&& s.subrange(n + 1, s.len() - 1) == w
            &&& s.take(n) == name
            &&& s.len() > n + 1
        }),
{
    let s = name + seq!['{'] + w + seq!['}'];
    let n = name.len() as int;
    assert forall|i: int| 0 <= i < n implies s[i] != '{' by {
        assert(s[i] == name[i]);
    }
    assert(s[n] == '{');
    metrics::lemma_first_of_found(s, '{', n);
    assert(s.last() == '}');
    lemma_last_of_found(s, '}');
    assert(s.subrange(n + 1, s.len() - 1) =~= w);
    assert(s.take(n) =~= name);
}

proof fn lemma_written_after(s: Seq<char>, labels: Seq<(Seq<char>, Seq<char>)>)
    requires
        plain_names(labels),
        metrics::quoting(s) == outside(),
    ensures
        metrics::quoting(s + written(labels)) == outside(),
        unbroken(s) ==> unbroken(s + written(labels)),
    decreases labels.len(),
{
    if labels.len() == 0 {
        assert(s + written(labels) =~= s);
    } else {
        let (k, v) = labels.last();
        assert(plain_name(labels[labels.len() - 1].0));
        if labels.len() == 1 {
            lemma_label_appended(s, k, v);
        } else {
            let p = labels.drop_last();
            assert forall|i: int| 0 <= i < p.len() implies plain_name((#[trigger] p[i]).0) by {
                assert(p[i] == labels[i]);
            }
            lemma_written_after(s, p);
            let a = s + written(p);
            lemma_push(a, ',');
            lemma_label_appended(a.push(','), k, v);
            assert(a.push(',') + written_label(k, v) =~= s + written(labels));
        }
    }
}

/// A selector comes back as it was written.
pub proof fn lemma_selector_comes_back(
    name: Seq<char>,
    labels: Option<Seq<(Seq<char>, Seq<char>)>>,
    t: &str,
    r: Option<(String, Labels)>,
)
    requires
        plain_name(name),
        plain_names(labels_or_none(labels)),
        t@ == written_selector(name, labels),
        call_ensures(metrics::parse_selector, (t,), r),
    ensures
        r matches Some((n, l)) && n@ == name && labels_say(l, labels_or_none(labels)),
{
    lemma_selector(name, labels);
    if let Some((n, l)) = r {
        lemma_labels_say(l, labels_or_none(labels));
    }
}

proof fn lemma_labels_say(l: Labels, labels: Seq<(Seq<char>, Seq<char>)>)
    requires
        plain_names(labels),
        metrics::has_labels(l, texts(labels)),
    ensures
        labels_say(l, labels),
{
    assert forall|k: Seq<char>| #[trigger] metrics::value_at(l.pairs@, k) == last_value(
        labels,
        k,
    ) by {
        lemma_labelled(labels, k);
    }
}

/// A brace that is opened and not closed behind that spoils a selector.
pub proof fn lemma_open_brace(t: &str, n: int, r: Option<(String, Labels)>)
    requires
        call_ensures(metrics::parse_selector, (t,), r),
        0 <= n < t@.len(),
        t@[n] == '{',
        lacks(t@.take(n), '{'),
        lacks(t@.skip(n), '}'),
    ensures
        r is None,
{
    let s = t@;
    assert forall|k: int| 0 <= k < n implies s[k] != '{' by {
        assert(s.take(n)[k] == s[k]);
    }
    metrics::lemma_first_of_found(s, '{', n);
    lemma_last_of_says(s, '}');
    if let Some(b) = metrics::last_of(s, '}') {
        if b >= n {
            assert(s.skip(n)[b - n] == s[b]);
        }
    }
}

proof fn lemma_last_of_says(s: Seq<char>, c: char)
    ensures
        metrics::last_of(s, c) matches Some(i) ==> 0 <= i < s.len() && s[i] == c,
    decreases s.len(),
{
    if s.len() > 0 && s.last() != c {
        lemma_last_of_says(s.drop_last(), c);
    }
}

proof fn lemma_last_of_behind(s: Seq<char>, junk: Seq<char>, c: char)
    requires
        lacks(junk, c),
    ensures
        metrics::last_of(s + junk, c) == metrics::last_of(s, c),
    decreases junk.len(),
{
    if junk.len() == 0 {
        assert(s + junk =~= s);
    } else {
        let p = junk.drop_last();
        assert forall|i: int| 0 <= i < p.len() implies #[trigger] p[i] != c by {
            assert(p[i] == junk[i]);
        }
        lemma_last_of_behind(s, p, c);
        assert((s + junk).drop_last() =~= s + p);
        assert((s + junk).last() == junk[junk.len() - 1]);
    }
}

/// What stands behind the last brace of a selector is left out.
pub proof fn lemma_behind_braces(
    name: Seq<char>,
    labels: Seq<(Seq<char>, Seq<char>)>,
    junk: Seq<char>,
    t: &str,
    r: Option<(String, Labels)>,
)
    requires
        plain_name(name),
        plain_names(labels),
        lacks(junk, '}'),
        t@ == written_selector(name, Some(labels)) + junk,
        call_ensures(metrics::parse_selector, (t,), r),
    ensures
        r matches Some((n, l)) && n@ == name && labels_say(l, labels),
{
    let s = written_selector(name, Some(labels));
    let n = name.len() as int;
    let w = written(labels);
    lemma_between(name, w);
    lemma_last_of_behind(s, junk, '}');
    assert forall|k: int| 0 <= k < n implies t@[k] != '{' by {
        assert(t@[k] == name[k]);
    }
    assert(t@[n] == '{');
    metrics::lemma_first_of_found(t@, '{', n);
    assert(t@.subrange(n + 1, s.len() - 1) =~= s.subrange(n + 1, s.len() - 1));
    assert(t@.take(n) =~= name);
    lemma_parts_written(labels);
    lemma_labelled(labels, Seq::empty());
    assert(metrics::selected(t@) == Some((name, texts(labels))));
    if let Some((m, l)) = r {
        lemma_labels_say(l, labels);
    }
}

/// A sample, as it is written: the selector, a space, the value, and what follows it.
pub open spec fn written_sample(
    name: Seq<char>,
    labels: Option<Seq<(Seq<char>, Seq<char>)>>,
    value: Seq<char>,
    tail: Seq<char>,
) -> Seq<char> {
    written_selector(name, labels) + seq![' '] + value + tail
}

proof fn lemma_cut(s: Seq<char>, rest: Seq<char>, value: Seq<char>, tail: Seq<char>)
    requires
        metrics::quoting(s) == outside(),
        unbroken(s),
        value.len() > 0,
        no_white(value),
        tail.len() > 0 ==> text::white_space(tail[0]),
        rest == seq![' '] + value + tail,
    ensures
        metrics::selector_ends(s + rest, s.len() as int),
        (s + rest).take(s.len() as int) == s,
        (s + rest).skip(s.len() as int) == rest,
        metrics::trimmed_start(rest) == value + tail,
        metrics::first_word(value + tail) == value,
{
    let l = s + rest;
    let n = s.len() as int;
    assert(l.take(n) =~= s);
    assert(l.skip(n) =~= rest);
    assert(l[n] == ' ');
    assert forall|j: int| 0 <= j < n implies !(text::white_space(#[trigger] l[j])
        && metrics::plain_at(l, j)) by {
        assert(l.take(j) =~= s.take(j));
        assert(l[j] == s[j]);
    }
    assert(rest[0] == ' ');
    assert(rest.skip(1) =~= value + tail);
    assert((value + tail)[0] == value[0]);
    reveal_with_fuel(metrics::trimmed_start, 3);
    lemma_word_is_first(value, tail);
}

/// A sample comes back as it was written: its name, the value of each of its labels,
/// its value, and the times that it was scraped at. One whose value is no number is
/// none.
pub proof fn lemma_sample_comes_back(
    name: Seq<char>,
    labels: Option<Seq<(Seq<char>, Seq<char>)>>,
    value: &str,
    tail: Seq<char>,
    line: &str,
    offset_ms: u64,
    unix_ms: u64,
    is_number: bool,
    r: Option<MetricsSample>,
    cut: Option<(&str, &str)>,
)
    requires
        plain_name(name),
        name.len() > 0,
        name[0] != '#',
        plain_names(labels_or_none(labels)),
        value@.len() > 0,
        no_white(value@),
        tail.len() > 0 ==> text::white_space(tail[0]) && !text::white_space(tail.last()),
        line@ == written_sample(name, labels, value@, tail),
        call_ensures(number::is_number, (value,), is_number),
        call_ensures(metrics::split_selector_and_value, (line,), cut),
        call_ensures(metrics::parse_sample_line, (line, offset_ms, unix_ms), r),
    ensures
        cut matches Some((a, b)) && a@ == written_selector(name, labels) && b@ == value@ + tail,
        r is Some <==> is_number,
        r matches Some(m) ==> m.name@ == name && m.value@ == value@ && m.offset_ms == offset_ms
            && m.unix_ms == unix_ms && labels_say(m.labels, labels_or_none(labels)),
{
    let s = written_selector(name, labels);
    let rest = seq![' '] + value@ + tail;
    let l = s + rest;
    let n = s.len() as int;
    assert(line@ =~= l);
    lemma_selector(name, labels);
    lemma_cut(s, rest, value@, tail);
    assert(metrics::cut_at(l, n));
    assert(l[0] == name[0]) by {
        assert(s[0] == name[0]);
    }
    assert(l.last() == if tail.len() > 0 { tail.last() } else { value@.last() });
    assert(value@.last() == value@[value@.len() - 1]);
    lemma_untrimmed(l);
    let i = choose|i: int| #[trigger] metrics::cut_at(l, i);
    metrics::lemma_one_end(l, i, n);
    if let Some((a, b)) = cut {
        let j = choose|j: int| #[trigger]
            metrics::selector_ends(l, j) && a@ == l.take(j) && b@ == metrics::trimmed_start(
                l.skip(j),
            ) && b@.len() > 0;
        metrics::lemma_one_end(l, j, n);
    } else {
        assert(metrics::selector_ends(line@, n));
        assert(metrics::trimmed_start(line@.skip(n)).len() > 0);
        assert(metrics::no_value(line@));
    }
    if let Some(m) = r {
        lemma_labels_say(m.labels, labels_or_none(labels));
    }
}

proof fn lemma_escape_outside(a: Seq<char>, c: char, b: Seq<char>)
    requires
        plain_name(a),
        plain_name(b),
    ensures
        metrics::quoting(a + seq!['\\', c] + b) == outside(),
        unbroken(a + seq!['\\', c] + b),
        metrics::parts_of(a + seq!['\\', c] + b) == (Parts {
            done: Seq::empty(),
            current: a + seq!['\\', c] + b,
        }),
{
    let none = Seq::<char>::empty();
    assert(none + a =~= a);
    assert(unbroken(none));
    lemma_plain_appended(none, a);
    lemma_push(a, '\\');
    let d = a.push('\\');
    lemma_push(d, c);
    let e = d.push(c);
    lemma_plain_appended(e, b);
    assert(e + b =~= a + seq!['\\', c] + b);
    assert(a.push('\\').push(c) + b =~= a + seq!['\\', c] + b);
}

/// What stands behind a backslash cuts nothing, outside quotes too: no white space
/// there ends a selector, and no comma there ends a label.
pub proof fn lemma_escaped_outside(
    a: Seq<char>,
    c: char,
    b: Seq<char>,
    value: Seq<char>,
    line: &str,
    cut: Option<(&str, &str)>,
    labels: &str,
    parts: Vec<String>,
)
    requires
        plain_name(a),
        plain_name(b),
        value.len() > 0,
        no_white(value),
        line@ == a + seq!['\\', c] + b + seq![' '] + value,
        call_ensures(metrics::split_selector_and_value, (line,), cut),
        labels@ == a + seq!['\\', c] + b,
        call_ensures(metrics::split_label_parts, (labels,), parts),
    ensures
        cut matches Some((x, y)) && x@ == a + seq!['\\', c] + b && y@ == value,
        parts@.len() == 1,
        exists|n: int| #[trigger] trims(labels@, parts@[0]@, n),
{
    let s = a + seq!['\\', c] + b;
    let none = Seq::<char>::empty();
    let rest = seq![' '] + value + none;
    lemma_escape_outside(a, c, b);
    assert(line@ =~= s + rest);
    lemma_cut(s, rest, value, none);
    assert(value + none =~= value);
    let n = s.len() as int;
    assert(metrics::selector_ends(line@, n));
    assert(metrics::trimmed_start(line@.skip(n)).len() > 0);
    if let Some((x, y)) = cut {
        let j = choose|j: int| #[trigger]
            metrics::selector_ends(line@, j) && x@ == line@.take(j) && y@
                == metrics::trimmed_start(line@.skip(j)) && y@.len() > 0;
        metrics::lemma_one_end(line@, j, n);
    } else {
        assert(metrics::no_value(line@));
    }
    let v = metrics::strings_view(parts@);
    assert(v.len() == parts@.len());
    assert(metrics::label_parts(labels@) =~= seq![metrics::trimmed(labels@)]);
    assert(v[0] == parts@[0]@);
    lemma_trims(labels@);
}

/// A comment is no sample, and neither is a line of white space.
pub proof fn lemma_no_sample(line: &str, t: &str, offset_ms: u64, unix_ms: u64, r: Option<MetricsSample>)
    requires
        call_ensures(metrics::trim, (line,), t),
        call_ensures(metrics::parse_sample_line, (line, offset_ms, unix_ms), r),
        t@.len() == 0 || t@[0] == '#' || no_white(t@),
    ensures
        r is None,
{
    let l = t@;
    if no_white(l) && exists|i: int| #[trigger] metrics::cut_at(l, i) {
        let i = choose|i: int| #[trigger] metrics::cut_at(l, i);
        assert(text::white_space(l[i]));
    }
}

/// Two samples say the same.
pub open spec fn alike(a: MetricsSample, b: MetricsSample) -> bool {
    &&& a.name@ == b.name@
    &&& a.value@ == b.value@
    &&& a.offset_ms == b.offset_ms
    &&& a.unix_ms == b.unix_ms
    &&& forall|k: Seq<char>|
        #[trigger] metrics::value_at(a.labels.pairs@, k) == metrics::value_at(b.labels.pairs@, k)
}

/// The samples of a text are those of its lines, in the order of the lines.
pub proof fn lemma_scrape(
    line: &str,
    rest: &str,
    whole: &str,
    offset_ms: u64,
    unix_ms: u64,
    first: Option<MetricsSample>,
    others: Vec<MetricsSample>,
    all: Vec<MetricsSample>,
)
    requires
        lacks(line@, '\n'),
        whole@ == line@ + seq!['\n'] + rest@,
        call_ensures(metrics::parse_sample_line, (line, offset_ms, unix_ms), first),
        call_ensures(metrics::parse_samples, (rest, offset_ms, unix_ms), others),
        call_ensures(metrics::parse_samples, (whole, offset_ms, unix_ms), all),
    ensures
        first is None ==> all@.len() == others@.len() && forall|i: int|
            0 <= i < others@.len() ==> alike(#[trigger] all@[i], others@[i]),
        first matches Some(m) ==> all@.len() == others@.len() + 1 && alike(all@[0], m) && forall|
            i: int,
        |
            0 <= i < others@.len() ==> alike(#[trigger] all@[i + 1], others@[i]),
{
    let a = metrics::samples_of(metrics::lines_of(whole@));
    let b = metrics::samples_of(metrics::lines_of(rest@));
    metrics::lemma_texts_join(line@, rest@);
    metrics::lemma_first_of_none(line@, '\n');
    let mine = metrics::samples_of(metrics::lines_of(line@));
    if line@.len() == 0 {
        assert(metrics::sample_of(line@) is None);
        assert(mine =~= Seq::<SampleView>::empty());
    } else {
        metrics::lemma_sample_alone(line@);
    }
    match first {
        None => {
            assert(a =~= b);
        },
        Some(m) => {
            assert(a[0] == mine[0]);
            assert forall|i: int| 0 <= i < others@.len() implies alike(
                #[trigger] all@[i + 1],
                others@[i],
            ) by {
                assert(a[i + 1] == b[i]);
            }
        },
    }
}

} // verus!
