use vstd::prelude::*;
use vstd::std_specs::iter::IteratorSpec;

use crate::schematic::{decimal, is_digit, is_digit_char, lemma_decimal_nonneg, run_value};

verus! {

/// Whitespace in the sense of Unicode's `White_Space` property, as `str::trim` uses it.
pub open spec fn is_blank(c: char) -> bool {
    ||| c == ' '
    ||| ('\u{9}' <= c && c <= '\u{d}')
    ||| c == '\u{85}'
    ||| c == '\u{a0}'
    ||| c == '\u{1680}'
    ||| ('\u{2000}' <= c && c <= '\u{200a}')
    ||| c == '\u{2028}'
    ||| c == '\u{2029}'
    ||| c == '\u{202f}'
    ||| c == '\u{205f}'
    ||| c == '\u{3000}'
}

/// The first index at or after `i` that holds no blank (or the length).
pub open spec fn skip_blank_fwd(s: Seq<char>, i: int) -> int
    decreases s.len() - i,
{
    if 0 <= i < s.len() && is_blank(s[i]) {
        skip_blank_fwd(s, i + 1)
    } else {
        i
    }
}

/// The smallest `j` in `lo..=hi` such that `s[j..hi]` is all blank.
pub open spec fn skip_blank_back(s: Seq<char>, lo: int, hi: int) -> int
    decreases hi - lo,
{
    if lo < hi && is_blank(s[hi - 1]) {
        skip_blank_back(s, lo, hi - 1)
    } else {
        hi
    }
}

pub open spec fn trim_start_of(s: Seq<char>) -> int {
    skip_blank_fwd(s, 0)
}

pub open spec fn trim_end_of(s: Seq<char>) -> int {
    skip_blank_back(s, trim_start_of(s), s.len() as int)
}

/// `s` without its leading and trailing whitespace.
pub open spec fn trimmed(s: Seq<char>) -> Seq<char> {
    s.subrange(trim_start_of(s), trim_end_of(s))
}

/// `s` cut at every `sep`; `k` separators give `k + 1` pieces.
pub open spec fn split_on(s: Seq<char>, sep: char) -> Seq<Seq<char>>
    decreases s.len(),
{
    if s.len() == 0 {
        seq![Seq::empty()]
    } else {
        let init = split_on(s.drop_last(), sep);
        if s.last() == sep {
            init.push(Seq::empty())
        } else {
            init.update(init.len() - 1, init.last().push(s.last()))
        }
    }
}

pub open spec fn split_lines(s: Seq<char>) -> Seq<Seq<char>> {
    split_on(s, '\n')
}

/// The words of `s`: its maximal runs of non-blank characters, as `(done, current)` while
/// `s` is read from the left.
pub open spec fn word_split(s: Seq<char>) -> (Seq<Seq<char>>, Seq<char>)
    decreases s.len(),
{
    if s.len() == 0 {
        (Seq::empty(), Seq::empty())
    } else {
        let (done, cur) = word_split(s.drop_last());
        if is_blank(s.last()) {
            if cur.len() > 0 {
                (done.push(cur), Seq::empty())
            } else {
                (done, Seq::empty())
            }
        } else {
            (done, cur.push(s.last()))
        }
    }
}

/// The maximal runs of non-blank characters of `s`, left to right.
pub open spec fn words(s: Seq<char>) -> Seq<Seq<char>> {
    let (done, cur) = word_split(s);
    if cur.len() > 0 {
        done.push(cur)
    } else {
        done
    }
}

/// `w` is a non-empty run of decimal digits whose value is at most `bound`.
pub open spec fn is_number(w: Seq<char>, bound: int) -> bool {
    &&& w.len() > 0
    &&& forall|i: int| 0 <= i < w.len() ==> is_digit(#[trigger] w[i])
    &&& decimal(w, 0, w.len() as int) <= bound
}

pub open spec fn number_of(w: Seq<char>) -> int {
    decimal(w, 0, w.len() as int)
}

/// A line without the `'\r'` of a `"\r\n"` separator.
pub open spec fn strip_cr(l: Seq<char>) -> Seq<char> {
    if l.len() > 0 && l.last() == '\r' {
        l.drop_last()
    } else {
        l
    }
}

/// The lines of a text: trimmed, cut at `'\n'`, each without a trailing `'\r'`.
pub open spec fn lines_of(s: Seq<char>) -> Seq<Seq<char>> {
    split_lines(trimmed(s)).map_values(|l: Seq<char>| strip_cr(l))
}

pub open spec fn views(rows: Seq<Vec<char>>) -> Seq<Seq<char>> {
    rows.map_values(|r: Vec<char>| r@)
}

pub proof fn lemma_split_on_nonempty(s: Seq<char>, sep: char)
    ensures
        split_on(s, sep).len() >= 1,
    decreases s.len(),
{
    if s.len() > 0 {
        lemma_split_on_nonempty(s.drop_last(), sep);
    }
}

pub proof fn lemma_skip_blank_fwd(s: Seq<char>, i: int)
    requires
        0 <= i <= s.len(),
    ensures
        i <= skip_blank_fwd(s, i) <= s.len(),
        skip_blank_fwd(s, i) < s.len() ==> !is_blank(s[skip_blank_fwd(s, i)]),
    decreases s.len() - i,
{
    if i < s.len() && is_blank(s[i]) {
        lemma_skip_blank_fwd(s, i + 1);
    }
}

pub proof fn lemma_first_line(t: Seq<char>)
    requires
        t.len() > 0,
        t[0] != '\n',
    ensures
        split_lines(t)[0].len() >= 1,
        split_lines(t)[0][0] == t[0],
    decreases t.len(),
{
    let p = t.drop_last();
    lemma_split_on_nonempty(p, '\n');
    if p.len() > 0 {
        lemma_first_line(p);
    }
}

/// The characters of `s`, in order.
pub fn chars_of(s: &str) -> (r: Vec<char>)
    ensures
        r@ == s@,
{
    let mut out: Vec<char> = Vec::new();
    let mut it = s.chars();
    loop
        invariant
            out@ + it.remaining() == s@,
            it.obeys_prophetic_iter_laws(),
            it.decrease() is Some,
        ensures
            out@ == s@,
        decreases it.decrease()->0,
    {
        match it.next() {
            Some(c) => out.push(c),
            None => break,
        }
    }
    out
}

pub fn is_blank_char(c: char) -> (r: bool)
    ensures
        r == is_blank(c),
{
    c == ' ' || ('\u{9}' <= c && c <= '\u{d}') || c == '\u{85}' || c == '\u{a0}' || c == '\u{1680}'
        || ('\u{2000}' <= c && c <= '\u{200a}') || c == '\u{2028}' || c == '\u{2029}' || c
        == '\u{202f}' || c == '\u{205f}' || c == '\u{3000}'
}

/// The bounds of `s` without its leading and trailing whitespace.
pub fn trim_bounds(s: &Vec<char>) -> (r: (usize, usize))
    ensures
        r.0 == trim_start_of(s@),
        r.1 == trim_end_of(s@),
        r.0 <= r.1 <= s@.len(),
{
    let n = s.len();
    let mut lo: usize = 0;
    while lo < n && is_blank_char(s[lo])
        invariant
            lo <= n == s@.len(),
            skip_blank_fwd(s@, lo as int) == trim_start_of(s@),
        decreases n - lo,
    {
        lo = lo + 1;
    }
    let mut hi: usize = n;
    while hi > lo && is_blank_char(s[hi - 1])
        invariant
            lo <= hi <= n == s@.len(),
            lo == trim_start_of(s@),
            skip_blank_back(s@, lo as int, hi as int) == trim_end_of(s@),
        decreases hi,
    {
        hi = hi - 1;
    }
    (lo, hi)
}

fn strip_cr_of(l: Vec<char>) -> (r: Vec<char>)
    ensures
        r@ == strip_cr(l@),
{
    let mut l = l;
    if l.len() > 0 && l[l.len() - 1] == '\r' {
        l.pop();
    }
    l
}

/// The lines of `text`: see `lines_of`.
pub fn lines(text: &str) -> (r: Vec<Vec<char>>)
    ensures
        views(r@) == lines_of(text@),
        r@.len() >= 1,
        (r@[0]@.len() == 0) == (trimmed(text@).len() == 0),
{
    let s = chars_of(text);
    let (lo, hi) = trim_bounds(&s);
    let ghost t = trimmed(s@);
    let mut rows: Vec<Vec<char>> = Vec::new();
    let mut cur: Vec<char> = Vec::new();
    let mut i: usize = lo;
    while i < hi
        invariant
            lo <= i <= hi <= s@.len(),
            t == s@.subrange(lo as int, hi as int),
            split_lines(t.take(i - lo)).len() == rows@.len() + 1,
            views(rows@) == split_lines(t.take(i - lo)).drop_last().map_values(
                |l: Seq<char>| strip_cr(l),
            ),
            cur@ == split_lines(t.take(i - lo)).last(),
        decreases hi - i,
    {
        let ghost p = t.take(i - lo);
        let ghost q = t.take(i + 1 - lo);
        assert(q.drop_last() =~= p);
        assert(q.last() == s@[i as int]);
        proof {
            lemma_split_on_nonempty(p, '\n');
        }
        let c = s[i];
        if c == '\n' {
            let line = strip_cr_of(cur);
            let ghost old_rows = views(rows@);
            rows.push(line);
            assert(views(rows@).drop_last() =~= old_rows);
            assert(split_lines(q).drop_last() =~= split_lines(p));
            assert forall|k: int| 0 <= k < views(rows@).len() implies #[trigger] views(rows@)[k]
                == strip_cr(split_lines(p)[k]) by {
                if k < old_rows.len() {
                    assert(views(rows@)[k] == old_rows[k]);
                }
            }
            assert(views(rows@) =~= split_lines(q).drop_last().map_values(
                |l: Seq<char>| strip_cr(l),
            ));
            cur = Vec::new();
            assert(cur@ =~= split_lines(q).last());
        } else {
            cur.push(c);
            assert(split_lines(q).drop_last() =~= split_lines(p).drop_last());
        }
        i = i + 1;
    }
    assert(t.take(hi - lo) =~= t);
    proof {
        lemma_split_on_nonempty(t, '\n');
    }
    let line = strip_cr_of(cur);
    let ghost old_rows = views(rows@);
    rows.push(line);
    assert(views(rows@).drop_last() =~= old_rows);
    assert forall|k: int| 0 <= k < views(rows@).len() implies #[trigger] views(rows@)[k]
        == strip_cr(split_lines(t)[k]) by {
        if k < old_rows.len() {
            assert(views(rows@)[k] == old_rows[k]);
        }
    }
    assert(views(rows@) =~= split_lines(t).map_values(|l: Seq<char>| strip_cr(l)));
    proof {
        assert(views(rows@)[0] == rows@[0]@);
        if t.len() > 0 {
            lemma_skip_blank_fwd(s@, 0);
            assert(t[0] == s@[lo as int]);
            lemma_first_line(t);
        } else {
            assert(t =~= Seq::<char>::empty());
            assert(split_lines(t) =~= seq![Seq::<char>::empty()]);
        }
    }
    rows
}

/// `s` cut at every `sep`.
pub fn split_at_char(s: &Vec<char>, sep: char) -> (r: Vec<Vec<char>>)
    ensures
        views(r@) == split_on(s@, sep),
{
    let mut parts: Vec<Vec<char>> = Vec::new();
    let mut cur: Vec<char> = Vec::new();
    let mut i: usize = 0;
    while i < s.len()
        invariant
            i <= s@.len(),
            split_on(s@.take(i as int), sep).len() == parts@.len() + 1,
            views(parts@) == split_on(s@.take(i as int), sep).drop_last(),
            cur@ == split_on(s@.take(i as int), sep).last(),
        decreases s@.len() - i,
    {
        let ghost p = s@.take(i as int);
        let ghost q = s@.take(i + 1);
        assert(q.drop_last() =~= p);
        proof {
            lemma_split_on_nonempty(p, sep);
        }
        let c = s[i];
        if c == sep {
            let ghost old_parts = views(parts@);
            parts.push(cur);
            assert(views(parts@) =~= old_parts.push(split_on(p, sep).last()));
            assert(views(parts@) =~= split_on(q, sep).drop_last());
            cur = Vec::new();
            assert(cur@ =~= split_on(q, sep).last());
        } else {
            cur.push(c);
            assert(split_on(q, sep).drop_last() =~= split_on(p, sep).drop_last());
        }
        i = i + 1;
    }
    assert(s@.take(i as int) =~= s@);
    proof {
        lemma_split_on_nonempty(s@, sep);
    }
    let ghost old_parts = views(parts@);
    parts.push(cur);
    assert(views(parts@) =~= old_parts.push(split_on(s@, sep).last()));
    assert(views(parts@) =~= split_on(s@, sep));
    parts
}

/// The words of `s`.
pub fn split_words(s: &Vec<char>) -> (r: Vec<Vec<char>>)
    ensures
        views(r@) == words(s@),
{
    let mut done: Vec<Vec<char>> = Vec::new();
    let mut cur: Vec<char> = Vec::new();
    let mut i: usize = 0;
    while i < s.len()
        invariant
            i <= s@.len(),
            (views(done@), cur@) == word_split(s@.take(i as int)),
        decreases s@.len() - i,
    {
        let ghost q = s@.take(i + 1);
        assert(q.drop_last() =~= s@.take(i as int));
        let c = s[i];
        if is_blank_char(c) {
            if cur.len() > 0 {
                let ghost old_done = views(done@);
                let ghost old_cur = cur@;
                done.push(cur);
                assert(views(done@) =~= old_done.push(old_cur));
                cur = Vec::new();
                assert(cur@ =~= Seq::<char>::empty());
            } else {
                cur = Vec::new();
                assert(cur@ =~= Seq::<char>::empty());
            }
        } else {
            cur.push(c);
        }
        i = i + 1;
    }
    assert(s@.take(i as int) =~= s@);
    if cur.len() > 0 {
        let ghost old_done = views(done@);
        let ghost old_cur = cur@;
        done.push(cur);
        assert(views(done@) =~= old_done.push(old_cur));
    }
    done
}

/// The value of the digits `w`, where `w` is a number no larger than `bound`.
pub fn parse_number(w: &Vec<char>, bound: u64) -> (r: Option<u64>)
    ensures
        r == (if is_number(w@, bound as int) {
            Some(number_of(w@) as u64)
        } else {
            None::<u64>
        }),
        r matches Some(v) ==> v as int == number_of(w@),
{
    if w.len() == 0 {
        return None;
    }
    let mut i: usize = 0;
    while i < w.len()
        invariant
            i <= w@.len(),
            forall|j: int| 0 <= j < i ==> is_digit(#[trigger] w@[j]),
        decreases w@.len() - i,
    {
        if !is_digit_char(w[i]) {
            return None;
        }
        i = i + 1;
    }
    proof {
        lemma_decimal_nonneg(w@, 0, w@.len() as int);
    }
    match run_value(w, 0, w.len()) {
        Some(v) => if v <= bound {
            Some(v)
        } else {
            None
        },
        None => None,
    }
}

/// Whether `a` and `b` hold the same characters.
pub fn same_chars(a: &Vec<char>, b: &Vec<char>) -> (r: bool)
    ensures
        r == (a@ == b@),
{
    if a.len() != b.len() {
        return false;
    }
    let mut i: usize = 0;
    while i < a.len()
        invariant
            i <= a@.len() == b@.len(),
            forall|j: int| 0 <= j < i ==> #[trigger] a@[j] == b@[j],
        decreases a@.len() - i,
    {
        if a[i] != b[i] {
            return false;
        }
        i = i + 1;
    }
    assert(a@ =~= b@);
    true
}

} // verus!
