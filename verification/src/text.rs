use vstd::prelude::*;
use crate::decimal::chars_of;

verus! {

/// The characters with the Unicode `White_Space` property, which is what
/// `char::is_whitespace` and `str::trim` go by.
pub open spec fn is_whitespace(c: char) -> bool {
    ||| '\t' <= c && c <= '\r'
    ||| c == ' '
    ||| c == '\u{85}'
    ||| c == '\u{a0}'
    ||| c == '\u{1680}'
    ||| '\u{2000}' <= c && c <= '\u{200a}'
    ||| c == '\u{2028}'
    ||| c == '\u{2029}'
    ||| c == '\u{202f}'
    ||| c == '\u{205f}'
    ||| c == '\u{3000}'
}

/// `s` without its leading whitespace.
pub open spec fn trim_start(s: Seq<char>) -> Seq<char>
    decreases s.len(),
{
    if s.len() > 0 && is_whitespace(s[0]) {
        trim_start(s.drop_first())
    } else {
        s
    }
}

/// `s` without its trailing whitespace.
pub open spec fn trim_end(s: Seq<char>) -> Seq<char>
    decreases s.len(),
{
    if s.len() > 0 && is_whitespace(s.last()) {
        trim_end(s.drop_last())
    } else {
        s
    }
}

/// `s` without leading and trailing whitespace, as `str::trim` gives it.
pub open spec fn trimmed(s: Seq<char>) -> Seq<char> {
    trim_end(trim_start(s))
}

/// The pieces of `s` between occurrences of `sep`, as `str::split(sep)`
/// yields them: each separator ends one piece and starts the next, so there
/// is always one piece more than there are separators.
pub open spec fn fields(s: Seq<char>, sep: char) -> Seq<Seq<char>>
    decreases s.len(),
{
    if s.len() == 0 {
        seq![Seq::<char>::empty()]
    } else {
        let f = fields(s.drop_last(), sep);
        if s.last() == sep {
            f.push(Seq::<char>::empty())
        } else {
            f.update(f.len() - 1, f.last().push(s.last()))
        }
    }
}

/// There is always at least one piece.
pub proof fn lemma_fields_nonempty(s: Seq<char>, sep: char)
    ensures
        fields(s, sep).len() >= 1,
    decreases s.len(),
{
    if s.len() > 0 {
        lemma_fields_nonempty(s.drop_last(), sep);
    }
}

/// The pieces joined back together with `sep` between them.
pub open spec fn joined(pieces: Seq<Seq<char>>, sep: char) -> Seq<char>
    decreases pieces.len(),
{
    if pieces.len() <= 1 {
        if pieces.len() == 1 {
            pieces[0]
        } else {
            Seq::<char>::empty()
        }
    } else {
        joined(pieces.drop_last(), sep).push(sep) + pieces.last()
    }
}

/// Splitting loses nothing and keeps the separator out of the pieces:
/// no piece holds `sep`, and joining the pieces with `sep` gives `s` back.
pub proof fn lemma_fields_join(s: Seq<char>, sep: char)
    ensures
        joined(fields(s, sep), sep) == s,
        forall|i: int, j: int|
            0 <= i < fields(s, sep).len() && 0 <= j < fields(s, sep)[i].len() ==> #[trigger] fields(
                s,
                sep,
            )[i][j] != sep,
    decreases s.len(),
{
    let f = fields(s, sep);
    if s.len() == 0 {
        assert(f =~= seq![Seq::<char>::empty()]);
        assert(joined(f, sep) =~= s);
    } else {
        let e = s.drop_last();
        let c = s.last();
        lemma_fields_join(e, sep);
        lemma_fields_nonempty(e, sep);
        let g = fields(e, sep);
        if c == sep {
            assert(f == g.push(Seq::<char>::empty()));
            assert(f.drop_last() =~= g);
            assert(joined(f, sep) =~= e.push(sep) + Seq::<char>::empty());
            assert(joined(f, sep) =~= s);
            assert forall|i: int, j: int|
                0 <= i < f.len() && 0 <= j < f[i].len() implies #[trigger] f[i][j] != sep by {
                assert(f[i] == g[i]);
            }
        } else {
            let last = g.last().push(c);
            assert(f == g.update(g.len() - 1, last));
            if g.len() == 1 {
                assert(joined(g, sep) == g[0]);
                assert(joined(f, sep) == f[0]);
                assert(joined(f, sep) =~= s);
            } else {
                assert(f.drop_last() =~= g.drop_last());
                assert(joined(f, sep) == joined(g.drop_last(), sep).push(sep) + last);
                assert(joined(g, sep) == joined(g.drop_last(), sep).push(sep) + g.last());
                assert(joined(f, sep) =~= joined(g, sep).push(c));
                assert(joined(f, sep) =~= s);
            }
            assert forall|i: int, j: int|
                0 <= i < f.len() && 0 <= j < f[i].len() implies #[trigger] f[i][j] != sep by {
                if i < f.len() - 1 {
                    assert(f[i] == g[i]);
                } else if j < last.len() - 1 {
                    assert(f[i][j] == g.last()[j]);
                }
            }
        }
    }
}

/// Whether `c` is a whitespace character (`char::is_whitespace`).
pub fn is_whitespace_char(c: char) -> (r: bool)
    ensures
        r == is_whitespace(c),
{
    ('\t' <= c && c <= '\r') || c == ' ' || c == '\u{85}' || c == '\u{a0}' || c == '\u{1680}' || ('\u{2000}' <= c
        && c <= '\u{200a}') || c == '\u{2028}' || c == '\u{2029}' || c == '\u{202f}' || c == '\u{205f}' || c
        == '\u{3000}'
}

proof fn lemma_trim_start_skip(s: Seq<char>, a: int)
    requires
        0 <= a <= s.len(),
        forall|j: int| 0 <= j < a ==> is_whitespace(#[trigger] s[j]),
        a == s.len() || !is_whitespace(s[a]),
    ensures
        trim_start(s) == s.skip(a),
    decreases a,
{
    if a == 0 {
        assert(s.skip(0) =~= s);
    } else {
        let t = s.drop_first();
        assert forall|j: int| 0 <= j < a - 1 implies is_whitespace(#[trigger] t[j]) by {
            assert(t[j] == s[j + 1]);
        }
        if a < s.len() {
            assert(t[a - 1] == s[a]);
        }
        lemma_trim_start_skip(t, a - 1);
        assert(t.skip(a - 1) =~= s.skip(a));
    }
}

proof fn lemma_trim_end_take(s: Seq<char>, b: int)
    requires
        0 <= b <= s.len(),
        forall|j: int| b <= j < s.len() ==> is_whitespace(#[trigger] s[j]),
        b == 0 || !is_whitespace(s[b - 1]),
    ensures
        trim_end(s) == s.take(b),
    decreases s.len(),
{
    if b == s.len() {
        assert(s.take(b) =~= s);
    } else {
        let t = s.drop_last();
        assert forall|j: int| b <= j < t.len() implies is_whitespace(#[trigger] t[j]) by {
            assert(t[j] == s[j]);
        }
        if b > 0 {
            assert(t[b - 1] == s[b - 1]);
        }
        lemma_trim_end_take(t, b);
        assert(t.take(b) =~= s.take(b));
    }
}

/// The bounds `(a, b)` of the trimmed part of `s`: `s[a..b]` is `s` without
/// its leading and trailing whitespace.
pub fn trim_bounds(s: &[char]) -> (r: (usize, usize))
    ensures
        r.0 <= r.1 <= s.len(),
        s@.subrange(r.0 as int, r.1 as int) == trimmed(s@),
{
    let len = s.len();
    let mut a: usize = 0;
    while a < len && is_whitespace_char(s[a])
        invariant
            a <= len,
            len == s.len(),
            forall|j: int| 0 <= j < a ==> is_whitespace(#[trigger] s@[j]),
        decreases len - a,
    {
        a = a + 1;
    }
    proof {
        lemma_trim_start_skip(s@, a as int);
    }
    let ghost t = s@.skip(a as int);
    let mut b: usize = len;
    while b > a && is_whitespace_char(s[b - 1])
        invariant
            a <= b <= len,
            len == s.len(),
            t == s@.skip(a as int),
            forall|j: int| b <= j < len ==> is_whitespace(#[trigger] s@[j]),
        decreases b,
    {
        b = b - 1;
    }
    proof {
        assert forall|j: int| b - a <= j < t.len() implies is_whitespace(#[trigger] t[j]) by {
            assert(t[j] == s@[j + a]);
        }
        if b > a {
            assert(t[b - a - 1] == s@[b - 1]);
        }
        lemma_trim_end_take(t, b - a);
        assert(t.take(b - a) =~= s@.subrange(a as int, b as int));
    }
    (a, b)
}

proof fn lemma_leading_whitespace(s: Seq<char>, a: int) -> (r: int)
    requires
        0 <= a <= s.len(),
        forall|i: int| 0 <= i < a ==> is_whitespace(#[trigger] s[i]),
    ensures
        a <= r <= s.len(),
        forall|i: int| 0 <= i < r ==> is_whitespace(#[trigger] s[i]),
        r == s.len() || !is_whitespace(s[r]),
    decreases s.len() - a,
{
    if a < s.len() && is_whitespace(s[a]) {
        lemma_leading_whitespace(s, a + 1)
    } else {
        a
    }
}

proof fn lemma_trailing_whitespace(s: Seq<char>, lo: int, b: int) -> (r: int)
    requires
        0 <= lo <= b <= s.len(),
        forall|i: int| b <= i < s.len() ==> is_whitespace(#[trigger] s[i]),
    ensures
        lo <= r <= b,
        forall|i: int| r <= i < s.len() ==> is_whitespace(#[trigger] s[i]),
        r == lo || !is_whitespace(s[r - 1]),
    decreases b - lo,
{
    if b > lo && is_whitespace(s[b - 1]) {
        lemma_trailing_whitespace(s, lo, b - 1)
    } else {
        b
    }
}

/// Trimming keeps exactly the middle of `s`: `s` is some whitespace, then
/// `trimmed(s)`, then some whitespace; and a non-empty `trimmed(s)` neither
/// starts nor ends with whitespace. No other character is removed.
pub proof fn lemma_trimmed_shape(s: Seq<char>)
    ensures
        exists|a: int, b: int|
            {
                &&& 0 <= a <= b <= s.len()
                &&& s.subrange(a, b) == trimmed(s)
                &&& forall|i: int| 0 <= i < a ==> is_whitespace(#[trigger] s[i])
                &&& forall|i: int| b <= i < s.len() ==> is_whitespace(#[trigger] s[i])
                &&& a < b ==> !is_whitespace(s[a]) && !is_whitespace(s[b - 1])
            },
{
    let a = lemma_leading_whitespace(s, 0);
    lemma_trim_start_skip(s, a);
    let t = s.skip(a);
    let b = lemma_trailing_whitespace(s, a, s.len() as int);
    assert forall|j: int| b - a <= j < t.len() implies is_whitespace(#[trigger] t[j]) by {
        assert(t[j] == s[j + a]);
    }
    if b > a {
        assert(t[b - a - 1] == s[b - 1]);
    }
    lemma_trim_end_take(t, b - a);
    assert(t.take(b - a) =~= s.subrange(a, b));
}

/// Whether two character slices hold the same text.
pub fn same_chars(x: &[char], y: &[char]) -> (r: bool)
    ensures
        r == (x@ == y@),
{
    if x.len() != y.len() {
        return false;
    }
    let mut i: usize = 0;
    while i < x.len()
        invariant
            i <= x.len(),
            x.len() == y.len(),
            forall|j: int| 0 <= j < i ==> x@[j] == y@[j],
        decreases x.len() - i,
    {
        if x[i] != y[i] {
            return false;
        }
        i = i + 1;
    }
    assert(x@ =~= y@);
    true
}

/// Whether two strings hold the same text.
pub fn same_text(x: &str, y: &str) -> (r: bool)
    ensures
        r == (x@ == y@),
{
    let xc = chars_of(x);
    let yc = chars_of(y);
    same_chars(xc.as_slice(), yc.as_slice())
}

/// The bounds of the pieces of `s` between occurrences of `sep`:
/// `s[r[i].0..r[i].1]` is the `i`-th piece that `str::split(sep)` yields.
pub fn field_bounds(s: &[char], sep: char) -> (r: Vec<(usize, usize)>)
    ensures
        r.len() == fields(s@, sep).len(),
        forall|i: int|
            #![trigger r[i]]
            0 <= i < r.len() ==> {
                &&& r[i].0 <= r[i].1 <= s.len()
                &&& s@.subrange(r[i].0 as int, r[i].1 as int) == fields(s@, sep)[i]
            },
{
    let len = s.len();
    let mut r: Vec<(usize, usize)> = Vec::new();
    let mut start: usize = 0;
    let mut i: usize = 0;
    assert(fields(s@.take(0), sep) =~= seq![Seq::<char>::empty()]);
    while i < len
        invariant
            start <= i <= len,
            len == s.len(),
            fields(s@.take(i as int), sep).len() == r.len() + 1,
            forall|j: int|
                #![trigger r[j]]
                0 <= j < r.len() ==> {
                    &&& r[j].0 <= r[j].1 <= i
                    &&& s@.subrange(r[j].0 as int, r[j].1 as int) == fields(s@.take(i as int), sep)[j]
                },
            fields(s@.take(i as int), sep).last() == s@.subrange(start as int, i as int),
        decreases len - i,
    {
        let ghost prev = fields(s@.take(i as int), sep);
        assert(s@.take(i + 1).drop_last() =~= s@.take(i as int));
        assert(s@.take(i + 1).last() == s@[i as int]);
        if s[i] == sep {
            r.push((start, i));
            start = i + 1;
            assert(s@.subrange(start as int, i + 1) =~= Seq::<char>::empty());
        } else {
            assert(s@.subrange(start as int, i + 1) =~= s@.subrange(start as int, i as int).push(s@[i as int]));
        }
        i = i + 1;
    }
    r.push((start, len));
    assert(s@.take(len as int) =~= s@);
    r
}

/// The absolute bounds of the trimmed text of `s[lo..hi]`.
pub fn trimmed_bounds(s: &[char], lo: usize, hi: usize) -> (r: (usize, usize))
    requires
        lo <= hi <= s.len(),
    ensures
        lo <= r.0 <= r.1 <= hi,
        s@.subrange(r.0 as int, r.1 as int) == trimmed(s@.subrange(lo as int, hi as int)),
{
    let piece = &s[lo..hi];
    assert(piece@ =~= s@.subrange(lo as int, hi as int));
    let (a, b) = trim_bounds(piece);
    assert(piece@.subrange(a as int, b as int) =~= s@.subrange(lo + a, lo + b));
    (lo + a, lo + b)
}

/// Whether `line`, trimmed, is exactly `tag` (`line.trim() == tag`).
pub fn is_tag_line(line: &str, tag: &str) -> (r: bool)
    ensures
        r == (trimmed(line@) == tag@),
{
    let chars = chars_of(line);
    let tag_chars = chars_of(tag);
    let (a, b) = trim_bounds(chars.as_slice());
    let body = &chars.as_slice()[a..b];
    assert(body@ =~= chars@.subrange(a as int, b as int));
    same_chars(body, tag_chars.as_slice())
}

} // verus!
