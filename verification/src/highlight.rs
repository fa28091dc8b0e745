//! Marking search terms in a line.
//!
//! Terms are looked for in the lowercase form of the line, and the matches are
//! carried over to the line itself by their byte offsets. The two differ where
//! a character and its lowercase form take different numbers of bytes; a match
//! is then widened to whole characters.

use crate::paint;
use crate::paint::{paint, Ink};
use crate::text;
use crate::text::{byte_offset, chars_of, cut_at, text_of};
use crate::words;
use crate::words::find;
use vstd::prelude::*;

verus! {

// --------------------------------------------------------------------- matches

/// Where `t` stands in `s`, from `from` on, each match behind the one before.
pub open spec fn occurrences(s: Seq<char>, t: Seq<char>, from: nat) -> Seq<nat>
    decreases s.len() - from,
{
    if t.len() == 0 || from > s.len() {
        Seq::empty()
    } else {
        proof {
            words::find_from_is_first(s, t, from);
        }
        match words::find_from(s, t, from) {
            Some(p) => seq![p] + occurrences(s, t, p + t.len()),
            None => Seq::empty(),
        }
    }
}

/// Whether one of the matches of length `len` covers position `i`.
pub open spec fn covers(starts: Seq<nat>, len: nat, i: int) -> bool {
    exists|k: int| 0 <= k < starts.len() && #[trigger] starts[k] <= i < starts[k] + len
}

/// Whether a match of one of the terms covers position `i`.
pub open spec fn is_marked(s: Seq<char>, terms: Seq<Seq<char>>, i: int) -> bool {
    exists|k: int|
        0 <= k < terms.len() && covers(
            occurrences(s, #[trigger] terms[k], 0),
            terms[k].len(),
            i,
        )
}

/// Which positions the matches cover.
pub open spec fn marks(s: Seq<char>, terms: Seq<Seq<char>>) -> Seq<bool> {
    Seq::new(s.len(), |i: int| is_marked(s, terms, i))
}

proof fn covers_of_push(starts: Seq<nat>, p: nat, len: nat, i: int)
    ensures
        covers(starts.push(p), len, i) <==> covers(starts, len, i) || p <= i < p + len,
{
    let all = starts.push(p);
    if covers(starts, len, i) {
        let k = choose|k: int|
            0 <= k < starts.len() && #[trigger] starts[k] <= i < starts[k] + len;
        assert(all[k] <= i < all[k] + len);
    }
    if p <= i < p + len {
        assert(all[starts.len() as int] <= i);
    }
    if covers(all, len, i) && !(p <= i < p + len) {
        let k = choose|k: int| 0 <= k < all.len() && #[trigger] all[k] <= i < all[k] + len;
        assert(starts[k] <= i < starts[k] + len);
    }
}

proof fn marked_by_push(s: Seq<char>, terms: Seq<Seq<char>>, t: Seq<char>, i: int)
    ensures
        is_marked(s, terms.push(t), i) <==> is_marked(s, terms, i) || covers(
            occurrences(s, t, 0),
            t.len(),
            i,
        ),
{
    let all = terms.push(t);
    if is_marked(s, terms, i) {
        let k = choose|k: int|
            0 <= k < terms.len() && covers(
                occurrences(s, #[trigger] terms[k], 0),
                terms[k].len(),
                i,
            );
        assert(covers(occurrences(s, all[k], 0), all[k].len(), i));
    }
    if covers(occurrences(s, t, 0), t.len(), i) {
        assert(covers(
            occurrences(s, all[terms.len() as int], 0),
            all[terms.len() as int].len(),
            i,
        ));
    }
    if is_marked(s, all, i) && !covers(occurrences(s, t, 0), t.len(), i) {
        let k = choose|k: int|
            0 <= k < all.len() && covers(occurrences(s, #[trigger] all[k], 0), all[k].len(), i);
        assert(covers(occurrences(s, terms[k], 0), terms[k].len(), i));
    }
}

fn mark_range(out: &mut Vec<bool>, lo: usize, hi: usize)
    requires
        lo <= hi <= old(out)@.len(),
    ensures
        final(out)@.len() == old(out)@.len(),
        forall|i: int|
            0 <= i < final(out)@.len() ==> #[trigger] final(out)@[i] == (old(out)@[i] || lo <= i
                < hi),
{
    let mut i: usize = lo;
    while i < hi
        invariant
            lo <= i <= hi <= out@.len(),
            out@.len() == old(out)@.len(),
            forall|j: int|
                0 <= j < out@.len() ==> #[trigger] out@[j] == (old(out)@[j] || lo <= j < i),
        decreases hi - i,
    {
        out.set(i, true);
        i += 1;
    }
}

/// Marks the matches of one term.
fn mark_term(out: &mut Vec<bool>, s: &Vec<char>, t: &Vec<char>)
    requires
        old(out)@.len() == s@.len(),
    ensures
        final(out)@.len() == s@.len(),
        forall|i: int|
            0 <= i < s@.len() ==> #[trigger] final(out)@[i] == (old(out)@[i] || covers(
                occurrences(s@, t@, 0),
                t@.len(),
                i,
            )),
{
    if t.len() == 0 {
        return ;
    }
    let ghost len = t@.len();
    let ghost all = occurrences(s@, t@, 0);
    let ghost mut done: Seq<nat> = Seq::empty();
    let mut start: usize = 0;
    proof {
        assert(done + all =~= all);
    }
    while start <= s.len()
        invariant
            start <= s@.len(),
            len == t@.len(),
            len > 0,
            out@.len() == s@.len(),
            all == occurrences(s@, t@, 0),
            all == done + occurrences(s@, t@, start as nat),
            forall|i: int|
                0 <= i < s@.len() ==> #[trigger] out@[i] == (old(out)@[i] || covers(done, len, i)),
        decreases s@.len() - start,
    {
        match find(s, t, start) {
            Some(p) => {
                let ghost before = done;
                let end = p + t.len();
                mark_range(out, p, end);
                proof {
                    done = before.push(p as nat);
                    let rest = occurrences(s@, t@, end as nat);
                    assert(all =~= done + rest);
                    assert forall|i: int| 0 <= i < s@.len() implies #[trigger] out@[i] == (
                    old(out)@[i] || covers(done, len, i)) by {
                        covers_of_push(before, p as nat, len, i);
                    }
                }
                start = end;
            },
            None => {
                proof {
                    assert(all =~= done);
                }
                return ;
            },
        }
    }
}

fn marks_of(s: &Vec<char>, terms: &Vec<String>) -> (r: Vec<bool>)
    ensures
        r@ == marks(s@, text::texts(terms@)),
{
    let ghost all = text::texts(terms@);
    let mut out: Vec<bool> = Vec::new();
    let mut k: usize = 0;
    while k < s.len()
        invariant
            k <= s@.len(),
            out@.len() == k,
            forall|i: int| 0 <= i < k ==> !#[trigger] out@[i],
        decreases s@.len() - k,
    {
        out.push(false);
        k += 1;
    }
    let mut j: usize = 0;
    while j < terms.len()
        invariant
            all == text::texts(terms@),
            j <= terms@.len(),
            out@.len() == s@.len(),
            forall|i: int|
                0 <= i < s@.len() ==> #[trigger] out@[i] == is_marked(s@, all.take(j as int), i),
        decreases terms@.len() - j,
    {
        let t = chars_of(terms[j].as_str());
        mark_term(&mut out, s, &t);
        proof {
            assert(all.take(j + 1) =~= all.take(j as int).push(t@));
            assert forall|i: int| 0 <= i < s@.len() implies #[trigger] out@[i] == is_marked(
                s@,
                all.take(j + 1),
                i,
            ) by {
                marked_by_push(s@, all.take(j as int), t@, i);
            }
        }
        j += 1;
    }
    proof {
        assert(all.take(j as int) =~= all);
        assert(out@ =~= marks(s@, all));
    }
    out
}

// ------------------------------------------------------------------------ runs

/// The maximal runs of marked positions, as start and end.
pub open spec fn runs(m: Seq<bool>) -> Seq<(nat, nat)>
    decreases m.len(),
{
    if m.len() == 0 {
        Seq::empty()
    } else {
        let before = runs(m.drop_last());
        let n = (m.len() - 1) as nat;
        if !m.last() {
            before
        } else if before.len() > 0 && before.last().1 == n {
            before.drop_last().push((before.last().0, m.len()))
        } else {
            before.push((n, m.len()))
        }
    }
}

/// The runs stand in order, with a gap between neighbours, and cover exactly
/// what is marked.
pub proof fn runs_cover_the_marks(m: Seq<bool>)
    ensures
        forall|k: int|
            0 <= k < runs(m).len() ==> (#[trigger] runs(m)[k]).0 < runs(m)[k].1 <= m.len(),
        forall|k: int, l: int|
            0 <= k < l < runs(m).len() ==> (#[trigger] runs(m)[k]).1 < (#[trigger] runs(m)[l]).0,
        forall|i: int|
            0 <= i < m.len() ==> (#[trigger] m[i] <==> exists|k: int|
                0 <= k < runs(m).len() && (#[trigger] runs(m)[k]).0 <= i < runs(m)[k].1),
    decreases m.len(),
{
    if m.len() > 0 {
        let d = m.drop_last();
        runs_cover_the_marks(d);
        let rd = runs(d);
        let rm = runs(m);
        let n = m.len() - 1;
        let extends = m.last() && rd.len() > 0 && rd.last().1 == n;
        assert(rm.len() >= rd.len());
        assert forall|k: int| 0 <= k < rd.len() implies (#[trigger] rm[k]).0 == rd[k].0 && (rm[k].1
            == rd[k].1 || (extends && k == rd.len() - 1 && rm[k].1 == m.len())) by {}
        assert forall|i: int| 0 <= i < m.len() implies (#[trigger] m[i] <==> exists|k: int|
            0 <= k < rm.len() && (#[trigger] rm[k]).0 <= i < rm[k].1) by {
            if i < n {
                assert(d[i] == m[i]);
                if m[i] {
                    let k = choose|k: int|
                        0 <= k < rd.len() && (#[trigger] rd[k]).0 <= i < rd[k].1;
                    assert(rm[k].0 <= i < rm[k].1);
                }
                if exists|k: int| 0 <= k < rm.len() && (#[trigger] rm[k]).0 <= i < rm[k].1 {
                    let k = choose|k: int|
                        0 <= k < rm.len() && (#[trigger] rm[k]).0 <= i < rm[k].1;
                    assert(k < rd.len());
                    assert(rd[k].0 <= i < rd[k].1);
                }
            } else {
                if m[i] {
                    let k = rm.len() - 1;
                    assert(rm[k].0 <= i < rm[k].1);
                }
                if exists|k: int| 0 <= k < rm.len() && (#[trigger] rm[k]).0 <= i < rm[k].1 {
                    let k = choose|k: int|
                        0 <= k < rm.len() && (#[trigger] rm[k]).0 <= i < rm[k].1;
                    if !m[i] {
                        assert(rd[k].1 <= d.len());
                    }
                }
            }
        }
    }
}

fn runs_of(m: &Vec<bool>) -> (r: Vec<(usize, usize)>)
    ensures
        r@.len() == runs(m@).len(),
        forall|k: int|
            0 <= k < r@.len() ==> (#[trigger] r@[k]).0 == runs(m@)[k].0 && r@[k].1 == runs(m@)[k].1,
{
    let mut out: Vec<(usize, usize)> = Vec::new();
    let mut i: usize = 0;
    while i < m.len()
        invariant
            i <= m@.len(),
            out@.len() == runs(m@.take(i as int)).len(),
            forall|k: int|
                0 <= k < out@.len() ==> (#[trigger] out@[k]).0 == runs(m@.take(i as int))[k].0
                    && out@[k].1 == runs(m@.take(i as int))[k].1,
        decreases m@.len() - i,
    {
        proof {
            assert(m@.take(i + 1).drop_last() =~= m@.take(i as int));
            assert(m@.take(i + 1).last() == m@[i as int]);
        }
        if m[i] {
            let n = out.len();
            if n > 0 && out[n - 1].1 == i {
                let a = out[n - 1].0;
                out.set(n - 1, (a, i + 1));
            } else {
                out.push((i, i + 1));
            }
        }
        i += 1;
    }
    proof {
        assert(m@.take(i as int) =~= m@);
    }
    out
}

// -------------------------------------------------------------------- painting

/// The first position of `line` at or behind byte `b`.
pub open spec fn ceiling(line: Seq<char>, b: nat) -> nat {
    let k = text::cut(line, b);
    if text::byte_len(line.take(k as int)) == b {
        k
    } else {
        k + 1
    }
}

/// A piece of a line, in color or not.
pub open spec fn piece(s: Seq<char>, colored: bool) -> Seq<char> {
    if colored {
        paint::painted(Ink::BoldYellow, s)
    } else {
        s
    }
}

/// `line` from `cursor` on, with the runs from the `k`-th on in color. A run
/// goes from the character that holds its first byte to the one that holds its
/// last; one that starts in what was painted before is passed over. `None` if a
/// run ends behind the line.
pub open spec fn paint_runs(
    line: Seq<char>,
    lc: Seq<char>,
    rs: Seq<(nat, nat)>,
    k: nat,
    cursor: nat,
    colored: bool,
) -> Option<Seq<char>>
    decreases rs.len() - k,
{
    if k >= rs.len() {
        Some(line.skip(cursor as int))
    } else {
        let a = text::byte_len(lc.take(rs[k as int].0 as int));
        let b = text::byte_len(lc.take(rs[k as int].1 as int));
        let from = text::cut(line, a);
        let to = ceiling(line, b);
        if from < cursor {
            paint_runs(line, lc, rs, k + 1, cursor, colored)
        } else if b > text::byte_len(line) {
            None
        } else {
            match paint_runs(line, lc, rs, k + 1, to, colored) {
                Some(rest) => Some(
                    line.subrange(cursor as int, from as int) + piece(
                        line.subrange(from as int, to as int),
                        colored,
                    ) + rest,
                ),
                None => None,
            }
        }
    }
}

/// `line` with the matches of the terms in color, where `lc` is its lowercase
/// form.
pub open spec fn highlighted(line: Seq<char>, lc: Seq<char>, terms: Seq<Seq<char>>) -> Option<
    Seq<char>,
> {
    paint_runs(line, lc, runs(marks(lc, terms)), 0, 0, true)
}

proof fn ceiling_is_in_line(line: Seq<char>, a: nat, b: nat)
    requires
        a <= b <= text::byte_len(line),
    ensures
        text::cut(line, a) <= ceiling(line, b) <= line.len(),
        text::byte_len(line.take(ceiling(line, b) as int)) >= b,
{
    text::cut_is_longest_fit(line, a);
    text::cut_is_longest_fit(line, b);
    let ka = text::cut(line, a) as int;
    let kb = text::cut(line, b) as int;
    if kb == line.len() {
        assert(line.take(kb) =~= line);
    }
    if ka > kb {
        text::byte_len_grows(line, kb + 1, ka);
    }
}

/// Marks the matches of the terms in a line, given its lowercase form; `None`
/// if a match ends behind the line.
pub fn highlight_in(line: &str, lc: &str, terms: &Vec<String>) -> (r: Option<String>)
    ensures
        text::opt_text(r) == highlighted(line@, lc@, text::texts(terms@)),
{
    let cs = chars_of(line);
    let lcs = chars_of(lc);
    let ms = marks_of(&lcs, terms);
    let rs = runs_of(&ms);
    let ghost rv = runs(marks(lc@, text::texts(terms@)));
    let len = cs.len();
    let size = byte_offset(&cs, len);
    proof {
        assert(cs@.take(cs@.len() as int) =~= line@);
        runs_cover_the_marks(marks(lc@, text::texts(terms@)));
    }
    let ghost whole = paint_runs(line@, lc@, rv, 0, 0, true);
    let mut out = String::new();
    let mut cursor: usize = 0;
    let mut k: usize = 0;
    proof {
        let rest = paint_runs(line@, lc@, rv, 0, 0, true);
        if rest is Some {
            assert(out@ + rest->0 =~= rest->0);
        }
    }
    while k < rs.len()
        invariant
            whole == highlighted(line@, lc@, text::texts(terms@)),
            cs@ == line@,
            len == cs@.len(),
            lcs@ == lc@,
            size == text::byte_len(line@),
            rs@.len() == rv.len(),
            forall|j: int|
                0 <= j < rs@.len() ==> (#[trigger] rs@[j]).0 == rv[j].0 && rs@[j].1 == rv[j].1,
            forall|j: int|
                0 <= j < rv.len() ==> (#[trigger] rv[j]).0 < rv[j].1 && rv[j].1 <= lc@.len(),
            k <= rs@.len(),
            cursor <= cs@.len(),
            whole == (match paint_runs(line@, lc@, rv, k as nat, cursor as nat, true) {
                Some(rest) => Some(out@ + rest),
                None => None,
            }),
        decreases rs@.len() - k,
    {
        let (i, j) = rs[k];
        assert(rs@[k as int].0 == rv[k as int].0);
        let a = byte_offset(&lcs, i);
        let b = byte_offset(&lcs, j);
        let from = cut_at(&cs, a);
        proof {
            text::byte_len_grows(lc@, i as int, j as int);
        }
        if from >= cursor {
            if b > size {
                return None;
            }
            let low = cut_at(&cs, b);
            proof {
                ceiling_is_in_line(line@, a as nat, b as nat);
            }
            let to = if byte_offset(&cs, low) == b {
                low
            } else {
                low + 1
            };
            let ghost before = out@;
            let plain = text_of(&cs, cursor, from);
            let found = paint(Ink::BoldYellow, text_of(&cs, from, to).as_str());
            out.append(plain.as_str());
            out.append(found.as_str());
            proof {
                let rest = paint_runs(line@, lc@, rv, (k + 1) as nat, to as nat, true);
                if rest is Some {
                    assert(before + (plain@ + found@ + rest->0) =~= out@ + rest->0);
                }
            }
            cursor = to;
        }
        k += 1;
    }
    let tail = text_of(&cs, cursor, len);
    proof {
        assert(tail@ =~= line@.skip(cursor as int));
    }
    out.append(tail.as_str());
    Some(out)
}

/// Marks the matches of the terms in a line; `None` if a match ends behind the
/// line, which happens only where the lowercase form of the line is longer.
pub fn highlight(line: &str, terms: &Vec<String>) -> (r: Option<String>)
    ensures
        text::opt_text(r) == highlighted(line@, text::lower(line@), text::texts(terms@)),
{
    let lc = line.to_lowercase();
    highlight_in(line, lc.as_str(), terms)
}

// ------------------------------------------------------------------------ laws

proof fn plain_runs_keep_the_line(
    line: Seq<char>,
    lc: Seq<char>,
    rs: Seq<(nat, nat)>,
    k: nat,
    cursor: nat,
)
    requires
        cursor <= line.len(),
        forall|j: int| 0 <= j < rs.len() ==> (#[trigger] rs[j]).0 < rs[j].1 <= lc.len(),
    ensures
        match paint_runs(line, lc, rs, k, cursor, true) {
            Some(_) => paint_runs(line, lc, rs, k, cursor, false) == Some(
                line.skip(cursor as int),
            ),
            None => paint_runs(line, lc, rs, k, cursor, false) is None,
        },
    decreases rs.len() - k,
{
    if k < rs.len() {
        let r = rs[k as int];
        let a = text::byte_len(lc.take(r.0 as int));
        let b = text::byte_len(lc.take(r.1 as int));
        let from = text::cut(line, a);
        let to = ceiling(line, b);
        text::byte_len_grows(lc, r.0 as int, r.1 as int);
        if from < cursor {
            plain_runs_keep_the_line(line, lc, rs, k + 1, cursor);
        } else if b <= text::byte_len(line) {
            ceiling_is_in_line(line, a, b);
            plain_runs_keep_the_line(line, lc, rs, k + 1, to);
            assert(line.subrange(cursor as int, from as int) + line.subrange(from as int, to as int)
                + line.skip(to as int) =~= line.skip(cursor as int));
        }
    }
}

/// Apart from the escape codes, a line with its matches marked is the line.
pub proof fn highlighting_keeps_the_text(line: Seq<char>, lc: Seq<char>, terms: Seq<Seq<char>>)
    requires
        highlighted(line, lc, terms) is Some,
    ensures
        paint_runs(line, lc, runs(marks(lc, terms)), 0, 0, false) == Some(line),
{
    runs_cover_the_marks(marks(lc, terms));
    plain_runs_keep_the_line(line, lc, runs(marks(lc, terms)), 0, 0);
    assert(line.skip(0) =~= line);
}

proof fn short_runs_are_painted(
    line: Seq<char>,
    lc: Seq<char>,
    rs: Seq<(nat, nat)>,
    k: nat,
    cursor: nat,
)
    requires
        text::byte_len(lc) <= text::byte_len(line),
        forall|j: int| 0 <= j < rs.len() ==> (#[trigger] rs[j]).0 < rs[j].1 <= lc.len(),
    ensures
        paint_runs(line, lc, rs, k, cursor, true) is Some,
    decreases rs.len() - k,
{
    if k < rs.len() {
        let r = rs[k as int];
        let b = text::byte_len(lc.take(r.1 as int));
        text::byte_len_grows(lc, r.1 as int, lc.len() as int);
        assert(lc.take(lc.len() as int) =~= lc);
        short_runs_are_painted(line, lc, rs, k + 1, cursor);
        short_runs_are_painted(line, lc, rs, k + 1, ceiling(line, b));
    }
}

/// A line whose lowercase form is no longer than the line can always be marked.
pub proof fn ordinary_lines_are_highlighted(line: Seq<char>, lc: Seq<char>, terms: Seq<Seq<char>>)
    requires
        text::byte_len(lc) <= text::byte_len(line),
    ensures
        highlighted(line, lc, terms) is Some,
{
    runs_cover_the_marks(marks(lc, terms));
    short_runs_are_painted(line, lc, runs(marks(lc, terms)), 0, 0);
}

proof fn ascii_takes_a_byte_each(s: Seq<char>)
    requires
        text::is_ascii(s),
    ensures
        text::byte_len(s) == s.len(),
    decreases s.len(),
{
    if s.len() > 0 {
        let t = s.drop_first();
        assert forall|i: int| 0 <= i < t.len() implies (#[trigger] t[i] as u32) < 0x80 by {
            assert(t[i] == s[i + 1]);
        }
        ascii_takes_a_byte_each(t);
        assert((s[0] as u32) < 0x80);
    }
}

/// The matches in an ASCII line can always be marked, and those of a line that
/// differs in the case of ASCII letters alone stand in the same places.
pub proof fn ascii_case_does_not_matter(line: Seq<char>, other: Seq<char>, terms: Seq<Seq<char>>)
    requires
        text::is_ascii(line),
        text::is_ascii(other),
        text::ascii_lower(line) == text::ascii_lower(other),
    ensures
        highlighted(line, text::lower(line), terms) is Some,
        marks(text::lower(line), terms) == marks(text::lower(other), terms),
{
    let lc = text::ascii_lower(line);
    small_letters_are_ascii(line);
    ascii_takes_a_byte_each(line);
    ascii_takes_a_byte_each(lc);
    ordinary_lines_are_highlighted(line, lc, terms);
}

/// A line in which no term occurs is left as it is.
pub proof fn lines_without_a_match_stay(line: Seq<char>, lc: Seq<char>, terms: Seq<Seq<char>>)
    requires
        forall|k: int|
            0 <= k < terms.len() ==> (#[trigger] terms[k]).len() == 0 || !words::has_text(
                lc,
                terms[k],
            ),
    ensures
        highlighted(line, lc, terms) == Some(line),
{
    let m = marks(lc, terms);
    assert forall|i: int| 0 <= i < m.len() implies !m[i] by {
        assert forall|k: int| 0 <= k < terms.len() implies !covers(
            occurrences(lc, #[trigger] terms[k], 0),
            terms[k].len(),
            i,
        ) by {
            let t = terms[k];
            words::find_from_is_first(lc, t, 0);
            if t.len() > 0 {
                match words::find_from(lc, t, 0) {
                    Some(p) => {
                        assert(words::stands_at(lc, t, p as int));
                        assert(words::has_text(lc, t));
                    },
                    None => {},
                }
            }
        }
    }
    runs_cover_the_marks(m);
    if runs(m).len() > 0 {
        let r = runs(m)[0];
        assert(r.0 <= r.0 < r.1);
        assert(m[r.0 as int]);
    }
    assert(line.skip(0) =~= line);
}

proof fn occurrences_stand(s: Seq<char>, t: Seq<char>, from: nat, k: int)
    requires
        0 <= k < occurrences(s, t, from).len(),
    ensures
        words::stands_at(s, t, occurrences(s, t, from)[k] as int),
        t.len() > 0,
    decreases s.len() - from,
{
    words::find_from_is_first(s, t, from);
    let p = words::find_from(s, t, from)->0;
    if k > 0 {
        occurrences_stand(s, t, p + t.len(), k - 1);
    }
}

/// Only matches are marked: a marked position lies in one of the terms, standing
/// in the line.
pub proof fn only_matches_are_marked(lc: Seq<char>, terms: Seq<Seq<char>>, i: int)
    requires
        0 <= i < lc.len(),
        marks(lc, terms)[i],
    ensures
        exists|k: int, a: Seq<char>, b: Seq<char>|
            0 <= k < terms.len() && lc == #[trigger] (a + terms[k] + b) && a.len() <= i < a.len()
                + terms[k].len(),
{
    let k = choose|k: int|
        0 <= k < terms.len() && covers(
            occurrences(lc, #[trigger] terms[k], 0),
            terms[k].len(),
            i,
        );
    let t = terms[k];
    let starts = occurrences(lc, t, 0);
    let l = choose|l: int| 0 <= l < starts.len() && #[trigger] starts[l] <= i < starts[l] + t.len();
    occurrences_stand(lc, t, 0, l);
    let p = starts[l] as int;
    assert(lc =~= lc.take(p) + t + lc.skip(p + t.len()));
}

proof fn every_occurrence_is_covered(s: Seq<char>, t: Seq<char>, from: nat, p: nat)
    requires
        t.len() > 0,
        from <= p,
        words::stands_at(s, t, p as int),
    ensures
        covers(occurrences(s, t, from), t.len(), p as int),
        occurrences(s, t, from).contains(p) || exists|q: int|
            #[trigger] words::stands_at(s, t, q) && q < p < q + t.len(),
    decreases s.len() - from,
{
    words::find_from_is_first(s, t, from);
    assert(words::find_from(s, t, from) is Some);
    let q = words::find_from(s, t, from)->0;
    let all = occurrences(s, t, from);
    let rest = occurrences(s, t, q + t.len());
    assert(all == seq![q] + rest);
    assert(all[0] == q);
    assert(q <= p);
    if p >= q + t.len() {
        every_occurrence_is_covered(s, t, q + t.len(), p);
        let k = choose|k: int| 0 <= k < rest.len() && #[trigger] rest[k] <= p < rest[k] + t.len();
        assert(all[k + 1] == rest[k]);
        if rest.contains(p) {
            let l = choose|l: int| 0 <= l < rest.len() && rest[l] == p;
            assert(all[l + 1] == p);
        }
    }
}

/// Every match is marked: where a term stands in the line its first character is
/// marked, and all of it is unless the term stands a little before it too and the
/// two overlap.
pub proof fn every_match_is_marked(
    terms: Seq<Seq<char>>,
    k: int,
    a: Seq<char>,
    b: Seq<char>,
    i: int,
)
    requires
        0 <= k < terms.len(),
        terms[k].len() > 0,
        a.len() <= i < a.len() + terms[k].len(),
    ensures
        ({
            let lc = a + terms[k] + b;
            let m = marks(lc, terms);
            &&& m.len() == lc.len()
            &&& m[a.len() as int]
            &&& m[i] || exists|q: int|
                #[trigger] words::stands_at(lc, terms[k], q) && q < a.len() < q + terms[k].len()
        }),
{
    let t = terms[k];
    let lc = a + t + b;
    let p = a.len();
    let starts = occurrences(lc, t, 0);
    assert(lc.subrange(p as int, (p + t.len()) as int) =~= t);
    assert(words::stands_at(lc, t, p as int));
    every_occurrence_is_covered(lc, t, 0, p);
    assert(covers(occurrences(lc, terms[k], 0), terms[k].len(), p as int));
    assert(is_marked(lc, terms, p as int));
    if starts.contains(p) {
        let l = choose|l: int| 0 <= l < starts.len() && starts[l] == p;
        assert(starts[l] <= i < starts[l] + t.len());
        assert(covers(occurrences(lc, terms[k], 0), terms[k].len(), i));
        assert(is_marked(lc, terms, i));
    }
}

/// The first `k` characters of a line, with the color switched on before each
/// marked stretch of it and off behind it.
pub open spec fn inked(line: Seq<char>, m: Seq<bool>, k: int) -> Seq<char>
    decreases k,
{
    if k <= 0 {
        Seq::empty()
    } else {
        let i = k - 1;
        let on = if m[i] && (i == 0 || !m[i - 1]) {
            "\u{1b}[1;33m"@
        } else {
            Seq::empty()
        };
        let off = if m[i] && (k == m.len() || !m[k]) {
            "\u{1b}[0m"@
        } else {
            Seq::empty()
        };
        inked(line, m, i) + on + seq![line[i]] + off
    }
}

proof fn unmarked_stretches_stay(line: Seq<char>, m: Seq<bool>, i: int, j: int)
    requires
        0 <= i <= j <= line.len(),
        m.len() == line.len(),
        forall|x: int| i <= x < j ==> !#[trigger] m[x],
    ensures
        inked(line, m, j) == inked(line, m, i) + line.subrange(i, j),
    decreases j - i,
{
    if i < j {
        unmarked_stretches_stay(line, m, i, j - 1);
        assert(!m[j - 1]);
        assert(line.subrange(i, j) =~= line.subrange(i, j - 1) + seq![line[j - 1]]);
        assert(inked(line, m, j) =~= inked(line, m, i) + line.subrange(i, j));
    } else {
        assert(inked(line, m, j) =~= inked(line, m, i) + line.subrange(i, j));
    }
}

proof fn marked_stretches_start(line: Seq<char>, m: Seq<bool>, i: int, j: int)
    requires
        0 <= i < j <= line.len(),
        m.len() == line.len(),
        i == 0 || !m[i - 1],
        forall|x: int| i <= x <= j && x < m.len() ==> #[trigger] m[x],
        j < m.len(),
    ensures
        inked(line, m, j) == inked(line, m, i) + "\u{1b}[1;33m"@ + line.subrange(i, j),
    decreases j - i,
{
    assert(m[j - 1] && m[j]);
    if i + 1 < j {
        marked_stretches_start(line, m, i, j - 1);
        assert(m[j - 2]);
        assert(line.subrange(i, j) =~= line.subrange(i, j - 1) + seq![line[j - 1]]);
    } else {
        assert(line.subrange(i, j) =~= seq![line[i]]);
    }
    assert(inked(line, m, j) =~= inked(line, m, i) + "\u{1b}[1;33m"@ + line.subrange(i, j));
}

proof fn marked_stretches_are_painted(line: Seq<char>, m: Seq<bool>, i: int, j: int)
    requires
        0 <= i < j <= line.len(),
        m.len() == line.len(),
        i == 0 || !m[i - 1],
        j == m.len() || !m[j],
        forall|x: int| i <= x < j ==> #[trigger] m[x],
    ensures
        inked(line, m, j) == inked(line, m, i) + paint::painted(
            Ink::BoldYellow,
            line.subrange(i, j),
        ),
{
    assert(m[j - 1]);
    if i + 1 < j {
        marked_stretches_start(line, m, i, j - 1);
        assert(m[j - 2]);
        assert(line.subrange(i, j) =~= line.subrange(i, j - 1) + seq![line[j - 1]]);
    } else {
        assert(line.subrange(i, j) =~= seq![line[i]]);
    }
    assert(inked(line, m, j) =~= inked(line, m, i) + paint::painted(
        Ink::BoldYellow,
        line.subrange(i, j),
    ));
}

/// Whether the characters of two texts start at the same bytes.
pub open spec fn same_offsets(line: Seq<char>, lc: Seq<char>) -> bool {
    &&& line.len() == lc.len()
    &&& forall|i: int|
        0 <= i <= line.len() ==> text::byte_len(#[trigger] line.take(i)) == text::byte_len(
            lc.take(i),
        )
}

proof fn offsets_are_positions(line: Seq<char>, lc: Seq<char>, i: int)
    requires
        same_offsets(line, lc),
        0 <= i <= line.len(),
    ensures
        text::byte_len(lc.take(i)) <= text::byte_len(line),
        text::cut(line, text::byte_len(lc.take(i))) == i,
        ceiling(line, text::byte_len(lc.take(i))) == i,
{
    let b = text::byte_len(lc.take(i));
    assert(text::byte_len(line.take(i)) == b);
    text::byte_len_grows(line, i, line.len() as int);
    assert(line.take(line.len() as int) =~= line);
    text::cut_is_longest_fit(line, b);
    let k = text::cut(line, b) as int;
    if k < i {
        text::byte_len_grows(line, k + 1, i);
    }
    if k > i {
        text::byte_len_grows(line, i, k);
    }
}

proof fn runs_are_inked(line: Seq<char>, lc: Seq<char>, m: Seq<bool>, k: nat, cursor: nat)
    requires
        same_offsets(line, lc),
        m.len() == line.len(),
        k <= runs(m).len(),
        cursor == (if k == 0 {
            0
        } else {
            runs(m)[k - 1].1
        }),
    ensures
        paint_runs(line, lc, runs(m), k, cursor, true) is Some,
        inked(line, m, cursor as int) + paint_runs(line, lc, runs(m), k, cursor, true)->0
            == inked(line, m, line.len() as int),
    decreases runs(m).len() - k,
{
    let rs = runs(m);
    let n = line.len() as int;
    runs_cover_the_marks(m);
    if k > 0 {
        assert(rs[k - 1].1 <= m.len());
    }
    if k == rs.len() {
        assert forall|x: int| cursor <= x < n implies !#[trigger] m[x] by {
            if m[x] {
                let l = choose|l: int| 0 <= l < rs.len() && (#[trigger] rs[l]).0 <= x < rs[l].1;
                if l < k - 1 {
                    assert(rs[l].1 < rs[k - 1].0);
                }
            }
        }
        unmarked_stretches_stay(line, m, cursor as int, n);
        assert(line.skip(cursor as int) =~= line.subrange(cursor as int, n));
    } else {
        let r = rs[k as int];
        let from = r.0 as int;
        let to = r.1 as int;
        if k > 0 {
            assert(rs[k - 1].1 < rs[k as int].0);
        }
        offsets_are_positions(line, lc, from);
        offsets_are_positions(line, lc, to);
        assert forall|x: int| cursor <= x < from implies !#[trigger] m[x] by {
            if m[x] {
                let l = choose|l: int| 0 <= l < rs.len() && (#[trigger] rs[l]).0 <= x < rs[l].1;
                if l < k - 1 {
                    assert(rs[l].1 < rs[k - 1].0);
                } else if l > k {
                    assert(rs[k as int].1 < rs[l].0);
                }
            }
        }
        assert forall|x: int| from <= x < to implies #[trigger] m[x] by {
            assert(rs[k as int].0 <= x < rs[k as int].1);
        }
        if to < n && m[to] {
            let l = choose|l: int| 0 <= l < rs.len() && (#[trigger] rs[l]).0 <= to < rs[l].1;
            if l < k {
                assert(rs[l].1 < rs[k as int].0);
            } else if l > k {
                assert(rs[k as int].1 < rs[l].0);
            }
        }
        if from > 0 && m[from - 1] {
            let l = choose|l: int| 0 <= l < rs.len() && (#[trigger] rs[l]).0 <= from - 1 < rs[l].1;
            if l < k {
                assert(rs[l].1 < rs[k as int].0);
            } else if l > k {
                assert(rs[k as int].1 < rs[l].0);
            }
        }
        unmarked_stretches_stay(line, m, cursor as int, from);
        marked_stretches_are_painted(line, m, from, to);
        runs_are_inked(line, lc, m, k + 1, to as nat);
        let rest = paint_runs(line, lc, rs, k + 1, to as nat, true)->0;
        let plain = line.subrange(cursor as int, from);
        let found = paint::painted(Ink::BoldYellow, line.subrange(from, to));
        assert(paint_runs(line, lc, rs, k, cursor, true) == Some(plain + found + rest));
        assert(inked(line, m, cursor as int) + (plain + found + rest) =~= inked(
            line,
            m,
            cursor as int,
        ) + plain + found + rest);
    }
}

/// Where the characters of a line and of its lowercase form start at the same
/// bytes, the line is shown whole with exactly the marked stretches in color.
pub proof fn marked_stretches_are_colored(line: Seq<char>, lc: Seq<char>, terms: Seq<Seq<char>>)
    requires
        same_offsets(line, lc),
    ensures
        highlighted(line, lc, terms) == Some(inked(line, marks(lc, terms), line.len() as int)),
{
    let m = marks(lc, terms);
    runs_are_inked(line, lc, m, 0, 0);
    assert(inked(line, m, 0) =~= Seq::<char>::empty());
    let r = paint_runs(line, lc, runs(m), 0, 0, true)->0;
    assert(inked(line, m, 0) + r =~= r);
}

proof fn small_letters_are_ascii(s: Seq<char>)
    requires
        text::is_ascii(s),
    ensures
        text::is_ascii(text::ascii_lower(s)),
{
    let lc = text::ascii_lower(s);
    assert forall|i: int| 0 <= i < lc.len() implies (#[trigger] lc[i] as u32) < 0x80 by {
        assert((s[i] as u32) < 0x80);
        if 'A' <= s[i] <= 'Z' {
            assert(text::small(s[i]) as u32 == s[i] as u32 + 32);
        }
    }
}

/// An ASCII line is shown whole with exactly the marked stretches in color.
pub proof fn ascii_lines_show_their_matches(line: Seq<char>, terms: Seq<Seq<char>>)
    requires
        text::is_ascii(line),
    ensures
        highlighted(line, text::lower(line), terms) == Some(
            inked(line, marks(text::lower(line), terms), line.len() as int),
        ),
{
    let lc = text::ascii_lower(line);
    small_letters_are_ascii(line);
    assert forall|i: int| 0 <= i <= line.len() implies text::byte_len(#[trigger] line.take(i))
        == text::byte_len(lc.take(i)) by {
        let a = line.take(i);
        let b = lc.take(i);
        assert forall|j: int| 0 <= j < a.len() implies (#[trigger] a[j] as u32) < 0x80 by {
            assert(a[j] == line[j]);
        }
        assert forall|j: int| 0 <= j < b.len() implies (#[trigger] b[j] as u32) < 0x80 by {
            assert(b[j] == lc[j]);
        }
        ascii_takes_a_byte_each(a);
        ascii_takes_a_byte_each(b);
    }
    marked_stretches_are_colored(line, lc, terms);
}

/// Whatever the characters of a line and of its lowercase form take, the first
/// match is shown in color: from the character that holds its first byte to the
/// one that holds its last, with the start of the line before it as it is.
pub proof fn the_first_match_is_colored(
    line: Seq<char>,
    lc: Seq<char>,
    terms: Seq<Seq<char>>,
    p: int,
    q: int,
    from: int,
    to: int,
)
    requires
        highlighted(line, lc, terms) is Some,
        0 <= p < q <= lc.len(),
        forall|i: int| 0 <= i < p ==> !#[trigger] marks(lc, terms)[i],
        forall|i: int| p <= i < q ==> #[trigger] marks(lc, terms)[i],
        q == lc.len() || !marks(lc, terms)[q],
        0 <= from < line.len(),
        text::byte_len(line.take(from)) <= text::byte_len(lc.take(p)) < text::byte_len(
            line.take(from + 1),
        ),
        0 < to <= line.len(),
        text::byte_len(line.take(to - 1)) < text::byte_len(lc.take(q)) <= text::byte_len(
            line.take(to),
        ),
    ensures
        exists|rest: Seq<char>|
            highlighted(line, lc, terms)->0 == #[trigger] (line.take(from) + "\u{1b}[1;33m"@
                + line.subrange(from, to) + "\u{1b}[0m"@ + rest),
{
    let m = marks(lc, terms);
    let rs = runs(m);
    runs_cover_the_marks(m);
    assert(m[p]);
    let l = choose|l: int| 0 <= l < rs.len() && (#[trigger] rs[l]).0 <= p < rs[l].1;
    if l > 0 {
        assert(rs[0].1 < rs[l].0);
    }
    let r = rs[0];
    assert(r.0 <= r.0 < r.1);
    assert(m[r.0 as int]);
    assert(r.0 == p);
    if r.1 > q {
        assert(rs[0].0 <= q < rs[0].1);
        assert(m[q]);
    } else if r.1 < q {
        assert(m[r.1 as int]);
        let x = choose|x: int| 0 <= x < rs.len() && (#[trigger] rs[x]).0 <= r.1 < rs[x].1;
        if x > 0 {
            assert(rs[0].1 < rs[x].0);
        }
    }
    let a = text::byte_len(lc.take(p));
    let b = text::byte_len(lc.take(q));
    text::cut_is_longest_fit(line, a);
    text::cut_is_longest_fit(line, b);
    let i = text::cut(line, a) as int;
    if i < from {
        text::byte_len_grows(line, i + 1, from);
    } else if i > from {
        text::byte_len_grows(line, from + 1, i);
    }
    let j = text::cut(line, b) as int;
    if j < to - 1 {
        text::byte_len_grows(line, j + 1, to - 1);
    } else if j > to {
        text::byte_len_grows(line, to, j);
    } else if j == to {
        text::byte_len_grows(line, to - 1, to);
    }
    assert(ceiling(line, b) == to);
    let rest = paint_runs(line, lc, rs, 1, to as nat, true);
    assert(line.subrange(0, from) =~= line.take(from));
    assert(highlighted(line, lc, terms)->0 =~= line.take(from) + "\u{1b}[1;33m"@ + line.subrange(
        from,
        to,
    ) + "\u{1b}[0m"@ + rest->0);
}

} // verus!
