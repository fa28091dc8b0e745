//! White space, words, lines and substrings.

use crate::text;
use crate::text::{chars_of, space, text_of};
use vstd::prelude::*;

verus! {

// --------------------------------------------------------------- white space

/// How many leading characters of `s` are white space (`want`), or are not
/// (`!want`).
pub open spec fn span(s: Seq<char>, want: bool) -> nat
    decreases s.len(),
{
    if s.len() == 0 || text::is_space(s[0]) != want {
        0
    } else {
        1 + span(s.drop_first(), want)
    }
}

/// `span` is the length of the longest such prefix.
pub proof fn span_is_longest(s: Seq<char>, want: bool)
    ensures
        span(s, want) <= s.len(),
        forall|i: int| 0 <= i < span(s, want) ==> text::is_space(#[trigger] s[i]) == want,
        span(s, want) < s.len() ==> text::is_space(s[span(s, want) as int]) != want,
    decreases s.len(),
{
    if s.len() > 0 && text::is_space(s[0]) == want {
        span_is_longest(s.drop_first(), want);
        assert forall|i: int| 0 <= i < span(s, want) implies text::is_space(#[trigger] s[i]) == want by {
            if i > 0 {
                assert(s[i] == s.drop_first()[i - 1]);
            }
        }
    }
}

/// The position behind the run of (non-)space that starts at `from`.
fn span_end(cs: &Vec<char>, from: usize, want: bool) -> (to: usize)
    requires
        from <= cs@.len(),
    ensures
        to == from + span(cs@.skip(from as int), want),
        from <= to <= cs@.len(),
{
    let mut i: usize = from;
    while i < cs.len() && space(cs[i]) == want
        invariant
            from <= i <= cs@.len(),
            from + span(cs@.skip(from as int), want) == i + span(cs@.skip(i as int), want),
        decreases cs@.len() - i,
    {
        proof {
            assert(cs@.skip(i as int).drop_first() =~= cs@.skip(i + 1));
        }
        i += 1;
    }
    i
}

/// Whether a text holds nothing but white space.
pub open spec fn blank(s: Seq<char>) -> bool {
    forall|i: int| 0 <= i < s.len() ==> text::is_space(#[trigger] s[i])
}

/// Whether a text holds nothing but white space.
pub fn is_blank(s: &str) -> (r: bool)
    ensures
        r == blank(s@),
{
    let cs = chars_of(s);
    let mut i: usize = 0;
    while i < cs.len()
        invariant
            cs@ == s@,
            i <= cs@.len(),
            forall|j: int| 0 <= j < i ==> text::is_space(#[trigger] s@[j]),
        decreases cs@.len() - i,
    {
        if !space(cs[i]) {
            assert(!text::is_space(s@[i as int]));
            return false;
        }
        i += 1;
    }
    true
}

/// `s` without the white space at its end.
pub open spec fn trimmed_end(s: Seq<char>) -> Seq<char>
    decreases s.len(),
{
    if s.len() > 0 && text::is_space(s.last()) {
        trimmed_end(s.drop_last())
    } else {
        s
    }
}

/// `s` without the white space at its two ends.
pub open spec fn trimmed(s: Seq<char>) -> Seq<char> {
    trimmed_end(s.skip(span(s, true) as int))
}

/// How much of `cs[from..]` is left when the white space at its end is gone.
fn end_without_space(cs: &Vec<char>, from: usize) -> (to: usize)
    requires
        from <= cs@.len(),
    ensures
        from <= to <= cs@.len(),
        cs@.subrange(from as int, to as int) == trimmed_end(cs@.skip(from as int)),
{
    let mut n: usize = cs.len();
    proof {
        assert(cs@.subrange(from as int, n as int) =~= cs@.skip(from as int));
    }
    while n > from && space(cs[n - 1])
        invariant
            from <= n <= cs@.len(),
            trimmed_end(cs@.subrange(from as int, n as int)) == trimmed_end(cs@.skip(from as int)),
        decreases n,
    {
        proof {
            assert(cs@.subrange(from as int, n as int).drop_last() =~= cs@.subrange(
                from as int,
                n - 1,
            ));
        }
        n -= 1;
    }
    n
}

/// Drops the white space at the end.
pub fn trim_end(s: &str) -> (r: String)
    ensures
        r@ == trimmed_end(s@),
{
    let cs = chars_of(s);
    let n = end_without_space(&cs, 0);
    proof {
        assert(cs@.skip(0) =~= cs@);
    }
    text_of(&cs, 0, n)
}

/// Drops the white space at the two ends.
pub fn trim(s: &str) -> (r: String)
    ensures
        r@ == trimmed(s@),
{
    let cs = chars_of(s);
    let k = span_end(&cs, 0, true);
    proof {
        assert(cs@.skip(0) =~= cs@);
    }
    let n = end_without_space(&cs, k);
    text_of(&cs, k, n)
}

// --------------------------------------------------------------------- words

/// The maximal runs of characters that are not white space, in order.
pub open spec fn words_of(s: Seq<char>) -> Seq<Seq<char>>
    decreases s.len(),
{
    let t = s.skip(span(s, true) as int);
    let n = span(t, false);
    if t.len() == 0 {
        Seq::empty()
    } else {
        proof {
            span_is_longest(s, true);
            span_is_longest(t, false);
        }
        seq![t.take(n as int)] + words_of(t.skip(n as int))
    }
}

/// The words of a text.
pub fn words(s: &str) -> (r: Vec<String>)
    ensures
        text::texts(r@) == words_of(s@),
{
    let cs = chars_of(s);
    let mut out: Vec<String> = Vec::new();
    let mut i: usize = 0;
    proof {
        assert(cs@.skip(0) =~= cs@);
        assert(text::texts(out@) + words_of(s@) =~= words_of(s@));
    }
    while i < cs.len()
        invariant
            cs@ == s@,
            i <= cs@.len(),
            text::texts(out@) + words_of(cs@.skip(i as int)) == words_of(s@),
        decreases cs@.len() - i,
    {
        let j = span_end(&cs, i, true);
        let k = span_end(&cs, j, false);
        let ghost u = cs@.skip(i as int);
        let ghost t = cs@.skip(j as int);
        proof {
            assert(u.skip(span(u, true) as int) =~= t);
            span_is_longest(u, true);
            span_is_longest(t, false);
            assert(t.skip(k - j) =~= cs@.skip(k as int));
        }
        if j < k {
            let w = text_of(&cs, j, k);
            let ghost before = text::texts(out@);
            out.push(w);
            proof {
                assert(t.take(k - j) =~= cs@.subrange(j as int, k as int));
                assert(text::texts(out@) =~= before.push(w@));
                assert(text::texts(out@) + words_of(cs@.skip(k as int)) =~= before + (seq![w@]
                    + words_of(cs@.skip(k as int))));
            }
        } else {
            proof {
                assert(t.len() == 0);
                assert(words_of(u) =~= Seq::<Seq<char>>::empty());
                let e = cs@.skip(k as int);
                assert(e.skip(span(e, true) as int) =~= e);
                assert(words_of(e) =~= Seq::<Seq<char>>::empty());
            }
        }
        i = k;
    }
    proof {
        let e = cs@.skip(i as int);
        assert(e.len() == 0);
        assert(e.skip(span(e, true) as int) =~= e);
        assert(words_of(e) =~= Seq::<Seq<char>>::empty());
        assert(text::texts(out@) + words_of(e) =~= text::texts(out@));
    }
    out
}

/// Each word is not empty, holds no white space, and its characters are those
/// of the text.
pub proof fn words_are_solid(s: Seq<char>)
    ensures
        forall|i: int| 0 <= i < words_of(s).len() ==> (#[trigger] words_of(s)[i]).len() > 0,
        forall|i: int, j: int|
            0 <= i < words_of(s).len() && 0 <= j < words_of(s)[i].len() ==> !text::is_space(
                #[trigger] words_of(s)[i][j],
            ) && s.contains(words_of(s)[i][j]),
    decreases s.len(),
{
    let t = s.skip(span(s, true) as int);
    let n = span(t, false);
    span_is_longest(s, true);
    span_is_longest(t, false);
    if t.len() > 0 {
        let u = t.skip(n as int);
        words_are_solid(u);
        assert forall|i: int, j: int|
            0 <= i < words_of(s).len() && 0 <= j < words_of(s)[i].len() implies !text::is_space(
            #[trigger] words_of(s)[i][j],
        ) && s.contains(words_of(s)[i][j]) by {
            if i == 0 {
                assert(words_of(s)[0][j] == t[j]);
                assert(t[j] == s[j + span(s, true)]);
            } else {
                assert(words_of(s)[i] == words_of(u)[i - 1]);
                let c = words_of(u)[i - 1][j];
                assert(u.contains(c));
                let k = choose|k: int| 0 <= k < u.len() && u[k] == c;
                assert(s[k + n + span(s, true)] == c);
            }
        }
        assert forall|i: int| 0 <= i < words_of(s).len() implies (#[trigger] words_of(s)[i]).len()
            > 0 by {
            if i > 0 {
                assert(words_of(s)[i] == words_of(u)[i - 1]);
            }
        }
    }
}

// ------------------------------------------------------------------- joining

/// The parts in order, with `sep` between neighbours.
pub open spec fn joined(parts: Seq<Seq<char>>, sep: Seq<char>) -> Seq<char>
    decreases parts.len(),
{
    if parts.len() == 0 {
        Seq::empty()
    } else if parts.len() == 1 {
        parts[0]
    } else {
        joined(parts.drop_last(), sep) + sep + parts.last()
    }
}

/// Joins the parts with `sep` between neighbours.
pub fn join(parts: &Vec<String>, sep: &str) -> (r: String)
    ensures
        r@ == joined(text::texts(parts@), sep@),
{
    let mut out = String::new();
    let mut i: usize = 0;
    let ghost ts = text::texts(parts@);
    while i < parts.len()
        invariant
            ts == text::texts(parts@),
            i <= parts@.len(),
            out@ == joined(ts.take(i as int), sep@),
        decreases parts@.len() - i,
    {
        if i > 0 {
            out.append(sep);
        }
        out.append(parts[i].as_str());
        proof {
            let p = ts.take(i + 1);
            assert(p.drop_last() =~= ts.take(i as int));
            assert(p.last() == ts[i as int]);
        }
        i += 1;
    }
    proof {
        assert(ts.take(i as int) =~= ts);
    }
    out
}

/// The words of a text with one space between neighbours.
pub open spec fn single_spaced(s: Seq<char>) -> Seq<char> {
    joined(words_of(s), " "@)
}

/// Collapses all white space to single spaces.
pub fn single_space(s: &str) -> (r: String)
    ensures
        r@ == single_spaced(s@),
{
    let w = words(s);
    join(&w, " ")
}

/// A join of parts without the character `c`, by a separator without it, has
/// no `c`.
pub proof fn joined_avoids(parts: Seq<Seq<char>>, sep: Seq<char>, c: char)
    requires
        !sep.contains(c),
        forall|i: int| 0 <= i < parts.len() ==> !(#[trigger] parts[i]).contains(c),
    ensures
        !joined(parts, sep).contains(c),
    decreases parts.len(),
{
    if parts.len() > 1 {
        joined_avoids(parts.drop_last(), sep, c);
        assert(!parts.last().contains(c));
        let head = joined(parts.drop_last(), sep);
        let all = head + sep + parts.last();
        assert forall|k: int| 0 <= k < all.len() implies all[k] != c by {
            if k < head.len() {
                assert(head[k] != c);
            } else if k < head.len() + sep.len() {
                assert(sep[k - head.len()] != c);
            } else {
                assert(parts.last()[k - head.len() - sep.len()] != c);
            }
        }
    }
}

/// White space between two texts separates their words.
pub proof fn words_apart(a: Seq<char>, w: Seq<char>, b: Seq<char>)
    requires
        blank(w),
        w.len() > 0,
    ensures
        words_of(a + w + b) == words_of(a) + words_of(b),
    decreases a.len(),
{
    let s = a + w + b;
    let k = span(a, true) as int;
    let t = a.skip(k);
    let n = span(t, false) as int;
    span_is_longest(a, true);
    span_is_longest(t, false);
    if t.len() == 0 {
        spaces_in_front(a + w, b);
        assert(words_of(a) + words_of(b) =~= words_of(b));
    } else {
        let u = t.skip(n);
        words_apart(u, w, b);
        span_of_append(a, w + b, true);
        assert(a + (w + b) =~= s);
        assert(s.skip(k) =~= t + (w + b));
        if n < t.len() {
            span_of_append(t, w + b, false);
        } else {
            assert(text::is_space(w[0]));
            span_stops(t, w + b, false);
        }
        assert(span(t + (w + b), false) == n);
        assert((t + (w + b)).take(n) =~= t.take(n));
        assert((t + (w + b)).skip(n) =~= u + w + b);
        assert(words_of(s) =~= seq![t.take(n)] + (words_of(u) + words_of(b)));
        assert(words_of(a) + words_of(b) =~= seq![t.take(n)] + (words_of(u) + words_of(b)));
    }
}

/// A space between two texts separates their words.
pub proof fn words_of_two(a: Seq<char>, b: Seq<char>)
    ensures
        words_of(a + " "@ + b) == words_of(a) + words_of(b),
{
    reveal_strlit(" ");
    words_apart(a, " "@, b);
}

/// What follows does not matter to a run that ends before.
proof fn span_of_append(a: Seq<char>, b: Seq<char>, want: bool)
    requires
        span(a, want) < a.len(),
    ensures
        span(a + b, want) == span(a, want),
    decreases a.len(),
{
    if text::is_space(a[0]) == want {
        span_of_append(a.drop_first(), b, want);
        assert((a + b).drop_first() =~= a.drop_first() + b);
    }
}

/// A run over all of `a` ends where `b` starts, if `b` starts otherwise.
proof fn span_stops(a: Seq<char>, b: Seq<char>, want: bool)
    requires
        span(a, want) == a.len(),
        b.len() > 0,
        text::is_space(b[0]) != want,
    ensures
        span(a + b, want) == a.len(),
    decreases a.len(),
{
    if a.len() > 0 {
        span_stops(a.drop_first(), b, want);
        assert((a + b).drop_first() =~= a.drop_first() + b);
    } else {
        assert(a + b =~= b);
    }
}

/// Blank text in front of a text does not change its words.
proof fn spaces_in_front(a: Seq<char>, b: Seq<char>)
    requires
        blank(a),
    ensures
        words_of(a + b) == words_of(b),
    decreases a.len(),
{
    if a.len() == 0 {
        assert(a + b =~= b);
    } else {
        let a1 = a.drop_first();
        spaces_in_front(a1, b);
        assert(text::is_space(a[0]));
        assert((a + b).drop_first() =~= a1 + b);
        span_is_longest(a1 + b, true);
        let k = span(a1 + b, true) as int;
        assert((a + b).skip(k + 1) =~= (a1 + b).skip(k));
    }
}

/// Whether a text is a word: not empty, and without white space.
pub open spec fn solid(w: Seq<char>) -> bool {
    w.len() > 0 && forall|i: int| 0 <= i < w.len() ==> !text::is_space(#[trigger] w[i])
}

/// The words of a word are the word itself.
pub proof fn words_of_word(w: Seq<char>)
    requires
        solid(w),
    ensures
        words_of(w) == seq![w],
{
    span_is_longest(w, true);
    assert(span(w, true) == 0) by {
        if span(w, true) > 0 {
            assert(text::is_space(w[0]));
        }
    }
    assert(w.skip(0) =~= w);
    span_is_longest(w, false);
    let n = span(w, false) as int;
    assert(n == w.len()) by {
        if n < w.len() {
            assert(text::is_space(w[n]));
        }
    }
    assert(w.take(n) =~= w);
    let e = w.skip(n);
    assert(e.skip(span(e, true) as int) =~= e);
    assert(words_of(e) =~= Seq::<Seq<char>>::empty());
    assert(words_of(w) =~= seq![w]);
}

/// Words that are joined by single spaces are found again.
pub proof fn words_of_joined(parts: Seq<Seq<char>>)
    requires
        forall|i: int| 0 <= i < parts.len() ==> solid(#[trigger] parts[i]),
    ensures
        words_of(joined(parts, " "@)) == parts,
    decreases parts.len(),
{
    if parts.len() == 0 {
        let e = Seq::<char>::empty();
        assert(e.skip(span(e, true) as int) =~= e);
        assert(words_of(e) =~= parts);
    } else if parts.len() == 1 {
        assert(solid(parts[0]));
        words_of_word(parts[0]);
        assert(seq![parts[0]] =~= parts);
    } else {
        let init = parts.drop_last();
        assert forall|i: int| 0 <= i < init.len() implies solid(#[trigger] init[i]) by {
            assert(init[i] == parts[i]);
        }
        words_of_joined(init);
        assert(solid(parts[parts.len() - 1]));
        words_of_word(parts.last());
        words_of_two(joined(init, " "@), parts.last());
        assert(init + seq![parts.last()] =~= parts);
    }
}

/// Collapsing white space twice is collapsing it once.
pub proof fn single_spacing_is_final(s: Seq<char>)
    ensures
        single_spaced(single_spaced(s)) == single_spaced(s),
{
    words_are_solid(s);
    let ws = words_of(s);
    assert forall|i: int| 0 <= i < ws.len() implies solid(#[trigger] ws[i]) by {
        assert forall|j: int| 0 <= j < ws[i].len() implies !text::is_space(#[trigger] ws[i][j]) by {
            assert(!text::is_space(words_of(s)[i][j]));
        }
    }
    words_of_joined(ws);
}

/// Each character that is not white space stands in a word.
pub proof fn words_hold_the_rest(s: Seq<char>, i: int)
    requires
        0 <= i < s.len(),
        !text::is_space(s[i]),
    ensures
        exists|k: int| 0 <= k < words_of(s).len() && (#[trigger] words_of(s)[k]).contains(s[i]),
    decreases s.len(),
{
    let k = span(s, true) as int;
    let t = s.skip(k);
    let n = span(t, false) as int;
    span_is_longest(s, true);
    span_is_longest(t, false);
    assert(i >= k) by {
        if i < k {
            assert(text::is_space(s[i]));
        }
    }
    assert(t[i - k] == s[i]);
    let u = t.skip(n);
    let ws = words_of(s);
    assert(ws == seq![t.take(n)] + words_of(u));
    if i - k < n {
        assert(ws[0][i - k] == s[i]);
        assert(ws[0].contains(s[i]));
    } else {
        assert(u[i - k - n] == s[i]);
        words_hold_the_rest(u, i - k - n);
        let j = choose|j: int|
            0 <= j < words_of(u).len() && (#[trigger] words_of(u)[j]).contains(s[i]);
        assert(ws[j + 1] == words_of(u)[j]);
        assert(ws[j + 1].contains(s[i]));
    }
}

/// Joining two lists is joining what they give.
pub proof fn joined_of_two(a: Seq<Seq<char>>, b: Seq<Seq<char>>, sep: Seq<char>)
    ensures
        joined(a + b, sep) == (if a.len() == 0 {
            joined(b, sep)
        } else if b.len() == 0 {
            joined(a, sep)
        } else {
            joined(a, sep) + sep + joined(b, sep)
        }),
    decreases b.len(),
{
    if a.len() == 0 {
        assert(a + b =~= b);
    } else if b.len() == 0 {
        assert(a + b =~= a);
    } else {
        let init = b.drop_last();
        joined_of_two(a, init, sep);
        assert((a + b).drop_last() =~= a + init);
        assert((a + b).last() == b.last());
        if b.len() > 1 {
            assert(joined(a, sep) + sep + joined(init, sep) + sep + b.last() =~= joined(a, sep)
                + sep + (joined(init, sep) + sep + b.last()));
        } else {
            assert(a + init =~= a);
        }
    }
}

/// Whether a text has no white space but single spaces, and none at its ends.
pub open spec fn tidy(s: Seq<char>) -> bool {
    &&& forall|i: int| 0 <= i < s.len() && text::is_space(#[trigger] s[i]) ==> s[i] == ' '
    &&& forall|i: int|
        0 < i < s.len() ==> !(text::is_space(#[trigger] s[i]) && text::is_space(s[i - 1]))
    &&& s.len() > 0 ==> !text::is_space(s[0]) && !text::is_space(s[s.len() - 1])
}

proof fn joined_is_tidy(parts: Seq<Seq<char>>)
    requires
        forall|i: int| 0 <= i < parts.len() ==> solid(#[trigger] parts[i]),
    ensures
        tidy(joined(parts, " "@)),
        parts.len() > 0 ==> joined(parts, " "@).len() > 0,
    decreases parts.len(),
{
    reveal_strlit(" ");
    if parts.len() > 0 {
        let w = parts[parts.len() - 1];
        assert(solid(w));
        if parts.len() > 1 {
            let init = parts.drop_last();
            assert forall|i: int| 0 <= i < init.len() implies solid(#[trigger] init[i]) by {
                assert(init[i] == parts[i]);
            }
            joined_is_tidy(init);
            let a = joined(init, " "@);
            let all = a + " "@ + w;
            let n = a.len() as int;
            assert forall|i: int| 0 <= i < all.len() && text::is_space(
                #[trigger] all[i],
            ) implies all[i] == ' ' by {
                if i < n {
                    assert(all[i] == a[i]);
                } else if i > n {
                    assert(all[i] == w[i - n - 1]);
                }
            }
            assert forall|i: int| 0 < i < all.len() implies !(text::is_space(#[trigger] all[i])
                && text::is_space(all[i - 1])) by {
                if i < n {
                    assert(all[i] == a[i] && all[i - 1] == a[i - 1]);
                } else if i == n {
                    assert(all[i - 1] == a[n - 1]);
                } else {
                    assert(all[i] == w[i - n - 1]);
                }
            }
            assert(all[0] == a[0]);
            assert(all[all.len() - 1] == w[w.len() - 1]);
        }
    }
}

/// A text with its white space collapsed is tidy.
pub proof fn single_spaced_is_tidy(s: Seq<char>)
    ensures
        tidy(single_spaced(s)),
{
    words_are_solid(s);
    let ws = words_of(s);
    assert forall|i: int| 0 <= i < ws.len() implies solid(#[trigger] ws[i]) by {
        assert forall|j: int| 0 <= j < ws[i].len() implies !text::is_space(#[trigger] ws[i][j]) by {
            assert(!text::is_space(words_of(s)[i][j]));
        }
    }
    joined_is_tidy(ws);
}

/// Collapsing the white space of a tidy text changes nothing.
pub proof fn tidy_texts_stay(s: Seq<char>)
    requires
        tidy(s),
    ensures
        single_spaced(s) == s,
    decreases s.len(),
{
    reveal_strlit(" ");
    let k = next_at(s, ' ', 0) as int;
    next_at_is_first(s, ' ', 0);
    if s.len() == 0 {
        assert(s.skip(span(s, true) as int) =~= s);
        assert(words_of(s) =~= Seq::<Seq<char>>::empty());
    } else if k == s.len() {
        assert forall|i: int| 0 <= i < s.len() implies !text::is_space(#[trigger] s[i]) by {
            if text::is_space(s[i]) {
                assert(s[i] == ' ');
            }
        }
        words_of_word(s);
    } else {
        let a = s.take(k);
        let b = s.skip(k + 1);
        assert(text::is_space(s[k]));
        assert(k > 0 && k < s.len() - 1);
        assert(s =~= a + " "@ + b);
        assert forall|i: int| 0 <= i < a.len() implies !text::is_space(#[trigger] a[i]) by {
            assert(a[i] == s[i]);
        }
        words_of_word(a);
        assert(!text::is_space(s[k + 1])) by {
            assert(text::is_space(s[k + 1 - 1]));
        }
        assert(tidy(b)) by {
            assert forall|i: int| 0 <= i < b.len() && text::is_space(#[trigger] b[i]) implies b[i]
                == ' ' by {
                assert(b[i] == s[i + k + 1]);
            }
            assert forall|i: int| 0 < i < b.len() implies !(text::is_space(#[trigger] b[i])
                && text::is_space(b[i - 1])) by {
                assert(b[i] == s[i + k + 1]);
                assert(b[i - 1] == s[i + k + 1 - 1]);
            }
        }
        tidy_texts_stay(b);
        words_of_two(a, b);
        joined_of_two(words_of(a), words_of(b), " "@);
        assert(words_of(b).len() > 0) by {
            if words_of(b).len() == 0 {
                assert(single_spaced(b).len() == 0);
            }
        }
        assert(joined(words_of(a), " "@) == a);
    }
}

proof fn span_ignores_case(s: Seq<char>, want: bool)
    ensures
        span(text::ascii_lower(s), want) == span(s, want),
    decreases s.len(),
{
    if s.len() > 0 {
        let t = text::ascii_lower(s);
        let c = s[0];
        if 'A' <= c <= 'Z' {
            assert(text::small(c) as u32 == c as u32 + 32);
        }
        assert(t[0] == text::small(c));
        span_ignores_case(s.drop_first(), want);
        assert(t.drop_first() =~= text::ascii_lower(s.drop_first()));
    }
}

/// Making the capital letters of a text small makes those of its words small.
pub proof fn words_of_lower(s: Seq<char>)
    ensures
        words_of(text::ascii_lower(s)) == words_of(s).map_values(
            |w: Seq<char>| text::ascii_lower(w),
        ),
    decreases s.len(),
{
    let f = |w: Seq<char>| text::ascii_lower(w);
    let l = text::ascii_lower(s);
    let k = span(s, true) as int;
    let t = s.skip(k);
    let n = span(t, false) as int;
    span_is_longest(s, true);
    span_is_longest(t, false);
    span_ignores_case(s, true);
    span_ignores_case(t, false);
    assert(l.skip(k) =~= text::ascii_lower(t));
    if t.len() > 0 {
        let u = t.skip(n);
        words_of_lower(u);
        assert(text::ascii_lower(t).take(n) =~= text::ascii_lower(t.take(n)));
        assert(text::ascii_lower(t).skip(n) =~= text::ascii_lower(u));
        assert(words_of(l) =~= words_of(s).map_values(f));
    } else {
        assert(words_of(l) =~= words_of(s).map_values(f));
    }
}

// --------------------------------------------------------------------- lines

/// The position of the first `c` at or behind `from`, or the length of `s`.
pub open spec fn next_at(s: Seq<char>, c: char, from: nat) -> nat
    decreases s.len() - from,
{
    if from >= s.len() {
        s.len()
    } else if s[from as int] == c {
        from
    } else {
        next_at(s, c, from + 1)
    }
}

/// `next_at` names the first occurrence.
pub proof fn next_at_is_first(s: Seq<char>, c: char, from: nat)
    requires
        from <= s.len(),
    ensures
        from <= next_at(s, c, from) <= s.len(),
        next_at(s, c, from) < s.len() ==> s[next_at(s, c, from) as int] == c,
        forall|i: int| from <= i < next_at(s, c, from) ==> s[i] != c,
    decreases s.len() - from,
{
    if from < s.len() && s[from as int] != c {
        next_at_is_first(s, c, from + 1);
    }
}

/// The position of the first `c` at or behind `from`, or the length.
pub fn position(cs: &Vec<char>, c: char, from: usize) -> (r: usize)
    requires
        from <= cs@.len(),
    ensures
        r == next_at(cs@, c, from as nat),
        from <= r <= cs@.len(),
{
    let mut i: usize = from;
    while i < cs.len() && cs[i] != c
        invariant
            from <= i <= cs@.len(),
            next_at(cs@, c, from as nat) == next_at(cs@, c, i as nat),
        decreases cs@.len() - i,
    {
        i += 1;
    }
    i
}

/// The line that ends before the line feed at `end`: a carriage return right
/// before the line feed belongs to the line ending.
pub open spec fn line_before(s: Seq<char>, from: int, end: int) -> Seq<char> {
    if from < end && s[end - 1] == '\r' {
        s.subrange(from, end - 1)
    } else {
        s.subrange(from, end)
    }
}

/// The lines of `s` from position `from` on; a last line needs no line feed.
pub open spec fn lines_from(s: Seq<char>, from: nat) -> Seq<Seq<char>>
    decreases s.len() - from,
{
    if from >= s.len() {
        Seq::empty()
    } else {
        proof {
            next_at_is_first(s, '\n', from);
        }
        let end = next_at(s, '\n', from);
        if end == s.len() {
            seq![s.skip(from as int)]
        } else {
            seq![line_before(s, from as int, end as int)] + lines_from(s, end + 1)
        }
    }
}

/// The lines of a text.
pub fn lines(s: &str) -> (r: Vec<String>)
    ensures
        text::texts(r@) == lines_from(s@, 0),
{
    let cs = chars_of(s);
    let mut out: Vec<String> = Vec::new();
    let mut from: usize = 0;
    proof {
        assert(text::texts(out@) + lines_from(s@, 0) =~= lines_from(s@, 0));
    }
    while from < cs.len()
        invariant
            cs@ == s@,
            from <= cs@.len(),
            text::texts(out@) + lines_from(s@, from as nat) == lines_from(s@, 0),
        decreases cs@.len() - from,
    {
        let end = position(&cs, '\n', from);
        let ghost before = text::texts(out@);
        if end == cs.len() {
            let line = text_of(&cs, from, end);
            out.push(line);
            proof {
                assert(line@ =~= s@.skip(from as int));
                assert(text::texts(out@) =~= before.push(line@));
                assert(text::texts(out@) + lines_from(s@, end as nat) =~= before + seq![line@]);
            }
            from = end;
        } else {
            let stop = if from < end && cs[end - 1] == '\r' {
                end - 1
            } else {
                end
            };
            let line = text_of(&cs, from, stop);
            out.push(line);
            proof {
                assert(text::texts(out@) =~= before.push(line@));
                let rest = lines_from(s@, (end + 1) as nat);
                assert(text::texts(out@) + rest =~= before + (seq![line@] + rest));
            }
            from = end + 1;
        }
    }
    proof {
        assert(text::texts(out@) + lines_from(s@, from as nat) =~= text::texts(out@));
    }
    out
}

// ---------------------------------------------------------------- substrings

/// Whether `t` stands in `s` at position `i`.
pub open spec fn stands_at(s: Seq<char>, t: Seq<char>, i: int) -> bool {
    0 <= i && i + t.len() <= s.len() && s.subrange(i, i + t.len()) == t
}

/// Whether `t` stands anywhere in `s`.
pub open spec fn has_text(s: Seq<char>, t: Seq<char>) -> bool {
    exists|i: int| stands_at(s, t, i)
}

/// Whether `t` stands in `s` at position `i`.
pub fn matches_at(s: &Vec<char>, t: &Vec<char>, i: usize) -> (r: bool)
    requires
        i <= s@.len(),
    ensures
        r == stands_at(s@, t@, i as int),
{
    if t.len() > s.len() - i {
        return false;
    }
    let n = s.len();
    let mut k: usize = 0;
    while k < t.len()
        invariant
            n == s@.len(),
            i + t@.len() <= n,
            k <= t@.len(),
            forall|j: int| 0 <= j < k ==> s@[i + j] == t@[j],
        decreases t@.len() - k,
    {
        if s[i + k] != t[k] {
            proof {
                assert(s@.subrange(i as int, i + t@.len())[k as int] == s@[i + k]);
            }
            return false;
        }
        k += 1;
    }
    proof {
        assert(s@.subrange(i as int, i + t@.len()) =~= t@);
    }
    true
}

/// The first position at or behind `from` where `t` stands in `s`.
pub open spec fn find_from(s: Seq<char>, t: Seq<char>, from: nat) -> Option<nat>
    decreases s.len() - from,
{
    if from + t.len() > s.len() {
        None
    } else if stands_at(s, t, from as int) {
        Some(from)
    } else if from == s.len() {
        None
    } else {
        find_from(s, t, from + 1)
    }
}

/// `find_from` names the first such position, if there is one.
pub proof fn find_from_is_first(s: Seq<char>, t: Seq<char>, from: nat)
    ensures
        match find_from(s, t, from) {
            Some(p) => from <= p && stands_at(s, t, p as int) && forall|q: int|
                from <= q < p ==> !#[trigger] stands_at(s, t, q),
            None => forall|q: int| from <= q ==> !#[trigger] stands_at(s, t, q),
        },
    decreases s.len() - from,
{
    if from + t.len() <= s.len() && !stands_at(s, t, from as int) && from < s.len() {
        find_from_is_first(s, t, from + 1);
        assert forall|q: int|
            from <= q && (find_from(s, t, from) matches Some(p) ==> q < p) implies !#[trigger] stands_at(
            s,
            t,
            q,
        ) by {
            if q > from {
            }
        }
    }
}

/// Finds the first position at or behind `from` where `t` stands in `s`.
pub fn find(s: &Vec<char>, t: &Vec<char>, from: usize) -> (r: Option<usize>)
    requires
        from <= s@.len(),
    ensures
        (match r {
            Some(p) => Some(p as nat),
            None => None,
        }) == find_from(s@, t@, from as nat),
        r matches Some(p) ==> from <= p && p + t@.len() <= s@.len(),
{
    let mut i: usize = from;
    loop
        invariant
            from <= i <= s@.len(),
            find_from(s@, t@, from as nat) == find_from(s@, t@, i as nat),
        decreases s@.len() - i,
    {
        if matches_at(s, t, i) {
            return Some(i);
        }
        if i == s.len() {
            return None;
        }
        i += 1;
    }
}

/// Whether `t` stands anywhere in `s`.
pub fn contains_text(s: &str, t: &str) -> (r: bool)
    ensures
        r == has_text(s@, t@),
{
    let a = chars_of(s);
    let b = chars_of(t);
    proof {
        find_from_is_first(s@, t@, 0);
    }
    match find(&a, &b, 0) {
        Some(p) => {
            assert(stands_at(s@, t@, p as int));
            true
        },
        None => {
            assert forall|q: int| !#[trigger] stands_at(s@, t@, q) by {
                if q >= 0 {
                }
            }
            false
        },
    }
}

// ------------------------------------------------------------------------ laws

/// A blank text has no words.
pub proof fn blank_texts_have_no_words(s: Seq<char>)
    requires
        forall|i: int| 0 <= i < s.len() ==> text::is_space(#[trigger] s[i]),
    ensures
        words_of(s).len() == 0,
{
    span_is_longest(s, true);
}

proof fn trimmed_end_is_prefix(s: Seq<char>)
    ensures
        trimmed_end(s).len() <= s.len(),
        trimmed_end(s) == s.take(trimmed_end(s).len() as int),
        forall|i: int| trimmed_end(s).len() <= i < s.len() ==> text::is_space(#[trigger] s[i]),
        trimmed_end(s).len() > 0 ==> !text::is_space(s[trimmed_end(s).len() - 1]),
    decreases s.len(),
{
    if s.len() > 0 && text::is_space(s.last()) {
        let t = s.drop_last();
        trimmed_end_is_prefix(t);
        assert(t.take(trimmed_end(t).len() as int) =~= s.take(trimmed_end(t).len() as int));
        assert forall|i: int| trimmed_end(s).len() <= i < s.len() implies text::is_space(
            #[trigger] s[i],
        ) by {
            if i < t.len() {
                assert(text::is_space(t[i]));
            }
        }
    } else {
        assert(s.take(s.len() as int) =~= s);
    }
}

/// Trimming the end of a text takes white space away and nothing else, and all
/// of the white space that stands there.
pub proof fn trimming_the_end_takes_spaces(s: Seq<char>)
    ensures
        exists|b: Seq<char>| #[trigger] blank(b) && s == trimmed_end(s) + b,
        trimmed_end(s).len() > 0 ==> !text::is_space(trimmed_end(s)[trimmed_end(s).len() - 1]),
{
    trimmed_end_is_prefix(s);
    let n = trimmed_end(s).len() as int;
    let b = s.skip(n);
    assert forall|i: int| 0 <= i < b.len() implies text::is_space(#[trigger] b[i]) by {
        assert(text::is_space(s[n + i]));
    }
    assert(blank(b));
    assert(s =~= trimmed_end(s) + b);
}

/// Trimming a text takes white space away at its ends and nothing else, and all
/// of the white space that stands there.
pub proof fn trimming_takes_spaces(s: Seq<char>)
    ensures
        exists|a: Seq<char>, b: Seq<char>| #[trigger]
            blank(a) && #[trigger] blank(b) && s == a + trimmed(s) + b,
        trimmed(s).len() > 0 ==> !text::is_space(trimmed(s)[0]) && !text::is_space(
            trimmed(s)[trimmed(s).len() - 1],
        ),
{
    span_is_longest(s, true);
    let k = span(s, true) as int;
    let t = s.skip(k);
    trimming_the_end_takes_spaces(t);
    trimmed_end_is_prefix(t);
    let b = choose|b: Seq<char>| #[trigger] blank(b) && t == trimmed_end(t) + b;
    let a = s.take(k);
    assert(blank(a));
    assert(s =~= a + t);
    assert(a + (trimmed(s) + b) =~= a + trimmed(s) + b);
    if trimmed(s).len() > 0 {
        assert(trimmed(s)[0] == s[k]);
    }
}

proof fn lines_of_the_rest(s: Seq<char>, from: nat, k: nat)
    requires
        k <= from <= s.len(),
    ensures
        lines_from(s, from) == lines_from(s.skip(k as int), (from - k) as nat),
    decreases s.len() - from,
{
    let t = s.skip(k as int);
    let f = (from - k) as nat;
    if from < s.len() {
        next_at_is_first(s, '\n', from);
        next_at_is_first(t, '\n', f);
        let e = next_at(s, '\n', from) as int;
        let g = next_at(t, '\n', f) as int;
        if e < g + k {
            assert(t[e - k] == s[e]);
        }
        if g + k < e {
            assert(t[g] == s[g + k]);
        }
        assert(e == g + k);
        if e < s.len() {
            lines_of_the_rest(s, (e + 1) as nat, k);
            assert(line_before(s, from as int, e) =~= line_before(t, f as int, g));
        } else {
            assert(s.skip(from as int) =~= t.skip(f as int));
        }
    }
}

/// A text ends a line at each line feed: its first line is what stands before the
/// first one, but for a carriage return at its end, and its other lines are those
/// of what stands behind.
pub proof fn lines_end_at_line_feeds(a: Seq<char>, b: Seq<char>)
    requires
        !a.contains('\n'),
    ensures
        lines_from(a + seq!['\n'] + b, 0) == seq![
            if a.len() > 0 && a[a.len() - 1] == '\r' {
                a.drop_last()
            } else {
                a
            },
        ] + lines_from(b, 0),
{
    let s = a + seq!['\n'] + b;
    let n = a.len();
    next_at_is_first(s, '\n', 0);
    let e = next_at(s, '\n', 0) as int;
    assert(s[n as int] == '\n');
    if e < n {
        assert(s[e] == a[e]);
        assert(a.contains(a[e]));
    }
    assert(e == n);
    lines_of_the_rest(s, n + 1, n + 1);
    assert(s.skip(n as int + 1) =~= b);
    if n > 0 {
        assert(s[n - 1] == a[n - 1]);
        assert(s.subrange(0, n - 1) =~= a.drop_last());
    }
    assert(s.subrange(0, n as int) =~= a);
    assert(lines_from(s, 0) =~= seq![line_before(s, 0, n as int)] + lines_from(b, 0));
}

/// A text without a line feed is one line, or none if it is empty.
pub proof fn last_lines_need_no_line_feed(a: Seq<char>)
    requires
        !a.contains('\n'),
    ensures
        lines_from(a, 0) == (if a.len() == 0 {
            Seq::empty()
        } else {
            seq![a]
        }),
{
    next_at_is_first(a, '\n', 0);
    let e = next_at(a, '\n', 0) as int;
    if e < a.len() {
        assert(a.contains(a[e]));
    }
    assert(a.skip(0) =~= a);
}

/// A text stands in every text that goes on before and behind it, and where one
/// stands in another, the other goes on before and behind it.
pub proof fn texts_stand_in_what_goes_round_them(s: Seq<char>, t: Seq<char>)
    ensures
        has_text(s, t) <==> exists|a: Seq<char>, b: Seq<char>| s == #[trigger] (a + t + b),
{
    if has_text(s, t) {
        let i = choose|i: int| stands_at(s, t, i);
        assert(s =~= s.take(i) + t + s.skip(i + t.len()));
    }
    if exists|a: Seq<char>, b: Seq<char>| s == #[trigger] (a + t + b) {
        let (a, b) = choose|a: Seq<char>, b: Seq<char>| s == #[trigger] (a + t + b);
        assert(s.subrange(a.len() as int, a.len() as int + t.len()) =~= t);
        assert(stands_at(s, t, a.len() as int));
    }
}

/// Joining one part more adds the separator and the part.
pub proof fn joining_one_more(parts: Seq<Seq<char>>, part: Seq<char>, sep: Seq<char>)
    ensures
        joined(Seq::empty(), sep).len() == 0,
        joined(seq![part], sep) == part,
        parts.len() > 0 ==> joined(parts.push(part), sep) == joined(parts, sep) + sep + part,
{
    assert(parts.push(part).drop_last() =~= parts);
}

} // verus!
