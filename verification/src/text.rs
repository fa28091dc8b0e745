//! Text as sequences of characters, and how many bytes it takes in UTF-8.

use vstd::prelude::*;

verus! {

/// Specifies `String::push`: the character is appended at the end.
pub assume_specification[ String::push ](s: &mut String, c: char)
    ensures
        final(s)@ == old(s)@.push(c),
;

/// Whether a text holds ASCII characters only.
pub open spec fn is_ascii(s: Seq<char>) -> bool {
    forall|i: int| 0 <= i < s.len() ==> (#[trigger] s[i] as u32) < 0x80
}

/// A character with the capital letters of ASCII made small.
pub open spec fn small(c: char) -> char {
    if 'A' <= c <= 'Z' {
        ((c as u32) + 32) as char
    } else {
        c
    }
}

/// A text with the capital letters of ASCII made small.
pub open spec fn ascii_lower(s: Seq<char>) -> Seq<char> {
    s.map_values(|c: char| small(c))
}

/// The lowercase form of a text, as `str::to_lowercase` computes it.
pub uninterp spec fn lowercase(s: Seq<char>) -> Seq<char>;

/// Specifies `str::to_lowercase`: the result depends on the text alone; in an
/// ASCII text the capital letters become small and nothing else changes.
pub assume_specification[ str::to_lowercase ](s: &str) -> (r: String)
    ensures
        r@ == (if is_ascii(s@) {
            ascii_lower(s@)
        } else {
            lowercase(s@)
        }),
;

/// The lowercase form of a text.
pub open spec fn lower(s: Seq<char>) -> Seq<char> {
    if is_ascii(s) {
        ascii_lower(s)
    } else {
        lowercase(s)
    }
}

/// The marker that ends a shortened text.
pub const ELLIPSIS: char = '\u{2026}';

// ---------------------------------------------------------------- characters

/// The characters with the Unicode property White_Space.
pub open spec fn is_space(c: char) -> bool {
    ||| '\u{9}' <= c <= '\u{d}'
    ||| c == '\u{20}'
    ||| c == '\u{85}'
    ||| c == '\u{a0}'
    ||| c == '\u{1680}'
    ||| '\u{2000}' <= c <= '\u{200a}'
    ||| c == '\u{2028}'
    ||| c == '\u{2029}'
    ||| c == '\u{202f}'
    ||| c == '\u{205f}'
    ||| c == '\u{3000}'
}

/// Whether `c` is white space.
pub fn space(c: char) -> (r: bool)
    ensures
        r == is_space(c),
{
    ('\u{9}' <= c && c <= '\u{d}') || c == '\u{20}' || c == '\u{85}' || c == '\u{a0}' || c
        == '\u{1680}' || ('\u{2000}' <= c && c <= '\u{200a}') || c == '\u{2028}' || c == '\u{2029}'
        || c == '\u{202f}' || c == '\u{205f}' || c == '\u{3000}'
}

/// How many bytes the UTF-8 encoding of `c` takes.
pub open spec fn width(c: char) -> nat {
    if (c as u32) < 0x80 {
        1
    } else if (c as u32) < 0x800 {
        2
    } else if (c as u32) < 0x10000 {
        3
    } else {
        4
    }
}

fn width_of(c: char) -> (r: u128)
    ensures
        r == width(c),
        1 <= r <= 4,
{
    let u: u32 = c as u32;
    if u < 0x80 {
        1
    } else if u < 0x800 {
        2
    } else if u < 0x10000 {
        3
    } else {
        4
    }
}

/// How many bytes the UTF-8 encoding of `s` takes.
pub open spec fn byte_len(s: Seq<char>) -> nat
    decreases s.len(),
{
    if s.len() == 0 {
        0
    } else {
        width(s[0]) + byte_len(s.drop_first())
    }
}

/// `byte_len` is the length of the UTF-8 encoding.
pub proof fn byte_len_is_encoded_len(s: Seq<char>)
    ensures
        byte_len(s) == vstd::utf8::encode_utf8(s).len(),
    decreases s.len(),
{
    if s.len() > 0 {
        byte_len_is_encoded_len(s.drop_first());
        vstd::utf8::char_is_scalar(s[0]);
    }
}

// ------------------------------------------------------------- plain helpers

/// The contents of a list of strings.
pub open spec fn texts(v: Seq<String>) -> Seq<Seq<char>> {
    v.map_values(|s: String| s@)
}

/// The content of an optional string.
pub open spec fn opt_text(o: Option<String>) -> Option<Seq<char>> {
    match o {
        Some(s) => Some(s@),
        None => None,
    }
}

/// The text that an optional text slice holds.
pub open spec fn opt_str(o: Option<&str>) -> Option<Seq<char>> {
    match o {
        Some(s) => Some(s@),
        None => None,
    }
}

/// The characters of `s`.
pub fn chars_of(s: &str) -> (r: Vec<char>)
    ensures
        r@ == s@,
{
    let mut out: Vec<char> = Vec::new();
    for c in it: s.chars()
        invariant
            it.seq() == s@,
            out@ == s@.take(it.index()),
    {
        out.push(c);
    }
    out
}

/// The text of `cs[lo..hi]`.
pub fn text_of(cs: &Vec<char>, lo: usize, hi: usize) -> (r: String)
    requires
        lo <= hi <= cs@.len(),
    ensures
        r@ == cs@.subrange(lo as int, hi as int),
{
    let mut out = String::new();
    let mut i: usize = lo;
    while i < hi
        invariant
            lo <= i <= hi <= cs@.len(),
            out@ == cs@.subrange(lo as int, i as int),
        decreases hi - i,
    {
        out.push(cs[i]);
        i += 1;
    }
    out
}

/// Whether two texts are equal.
pub fn same(a: &str, b: &str) -> (r: bool)
    ensures
        r == (a@ == b@),
{
    let x = a.as_bytes();
    let y = b.as_bytes();
    proof {
        vstd::utf8::encode_utf8_decode_utf8(a@);
        vstd::utf8::encode_utf8_decode_utf8(b@);
    }
    if x.len() != y.len() {
        return false;
    }
    let mut i: usize = 0;
    while i < x.len()
        invariant
            x@ == vstd::utf8::encode_utf8(a@),
            y@ == vstd::utf8::encode_utf8(b@),
            x@.len() == y@.len(),
            i <= x@.len(),
            forall|j: int| 0 <= j < i ==> x@[j] == y@[j],
        decreases x@.len() - i,
    {
        if x[i] != y[i] {
            return false;
        }
        i += 1;
    }
    assert(x@ =~= y@);
    true
}

/// `a` followed by `b`.
pub fn concat(a: &str, b: &str) -> (r: String)
    ensures
        r@ == a@ + b@,
{
    let mut out = a.to_owned();
    out.append(b);
    out
}

// -------------------------------------------------------------------- widths

/// How many leading characters of `s` fit in `max` bytes of UTF-8.
pub open spec fn cut(s: Seq<char>, max: nat) -> nat
    decreases s.len(),
{
    if s.len() == 0 || width(s[0]) > max {
        0
    } else {
        1 + cut(s.drop_first(), (max - width(s[0])) as nat)
    }
}

/// `cut(s, max)` characters fit in `max` bytes, and one more would not.
pub proof fn cut_is_longest_fit(s: Seq<char>, max: nat)
    ensures
        cut(s, max) <= s.len(),
        byte_len(s.take(cut(s, max) as int)) <= max,
        cut(s, max) < s.len() ==> byte_len(s.take(cut(s, max) as int + 1)) > max,
        (cut(s, max) == s.len()) == (byte_len(s) <= max),
    decreases s.len(),
{
    let k = cut(s, max);
    if s.len() == 0 {
        assert(s.take(0) =~= s);
    } else if width(s[0]) > max {
        assert(s.take(1).drop_first() =~= Seq::<char>::empty());
        assert(s.take(0) =~= Seq::<char>::empty());
        assert(byte_len(s) >= width(s[0]));
        assert(byte_len(s.take(1)) == width(s[0]) + byte_len(s.take(1).drop_first()));
    } else {
        let rest = (max - width(s[0])) as nat;
        cut_is_longest_fit(s.drop_first(), rest);
        assert(s.take(k as int).drop_first() =~= s.drop_first().take(k - 1));
        if k < s.len() {
            assert(s.take(k as int + 1).drop_first() =~= s.drop_first().take(k as int));
        }
    }
}

/// Taking more characters takes at least as many bytes.
pub proof fn byte_len_grows(s: Seq<char>, i: int, j: int)
    requires
        0 <= i <= j <= s.len(),
    ensures
        byte_len(s.take(i)) <= byte_len(s.take(j)),
        i < j ==> byte_len(s.take(i)) < byte_len(s.take(j)),
    decreases s.len(),
{
    if i == 0 {
        assert(s.take(0) =~= Seq::<char>::empty());
        if j > 0 {
            assert(s.take(j)[0] == s[0]);
        }
    } else {
        byte_len_grows(s.drop_first(), i - 1, j - 1);
        assert(s.take(i).drop_first() =~= s.drop_first().take(i - 1));
        assert(s.take(j).drop_first() =~= s.drop_first().take(j - 1));
    }
}

/// The byte length of a concatenation is the sum of the byte lengths.
pub proof fn byte_len_adds(a: Seq<char>, b: Seq<char>)
    ensures
        byte_len(a + b) == byte_len(a) + byte_len(b),
    decreases a.len(),
{
    if a.len() == 0 {
        assert(a + b =~= b);
    } else {
        byte_len_adds(a.drop_first(), b);
        assert((a + b).drop_first() =~= a.drop_first() + b);
    }
}

/// How many leading characters of `cs` fit in `max` bytes of UTF-8.
pub fn cut_at(cs: &Vec<char>, max: u128) -> (r: usize)
    ensures
        r == cut(cs@, max as nat),
        r <= cs@.len(),
{
    let mut i: usize = 0;
    let mut left: u128 = max;
    proof {
        assert(cs@.skip(0) =~= cs@);
    }
    while i < cs.len() && width_of(cs[i]) <= left
        invariant
            i <= cs@.len(),
            cut(cs@, max as nat) == i + cut(cs@.skip(i as int), left as nat),
        decreases cs@.len() - i,
    {
        proof {
            assert(cs@.skip(i as int).drop_first() =~= cs@.skip(i + 1));
        }
        left -= width_of(cs[i]);
        i += 1;
    }
    i
}

/// The byte length of the first `n` characters.
pub fn byte_offset(cs: &Vec<char>, n: usize) -> (r: u128)
    requires
        n <= cs@.len(),
    ensures
        r == byte_len(cs@.take(n as int)),
{
    let mut i: usize = 0;
    let mut total: u128 = 0;
    proof {
        assert(cs@.take(0) =~= Seq::<char>::empty());
    }
    while i < n
        invariant
            i <= n <= cs@.len(),
            total == byte_len(cs@.take(i as int)),
            total <= 4 * i,
        decreases n - i,
    {
        proof {
            let one = seq![cs@[i as int]];
            assert(cs@.take(i + 1) =~= cs@.take(i as int) + one);
            byte_len_adds(cs@.take(i as int), one);
            assert(one.drop_first() =~= Seq::<char>::empty());
            assert(byte_len(one) == width(one[0]) + byte_len(one.drop_first()));
        }
        total += width_of(cs[i]);
        i += 1;
    }
    total
}

/// `s` if it takes at most `max` bytes; else its longest prefix that does,
/// with an ellipsis behind it.
pub open spec fn truncated(s: Seq<char>, max: nat) -> Seq<char> {
    if byte_len(s) <= max {
        s
    } else {
        s.take(cut(s, max) as int).push(ELLIPSIS)
    }
}

/// `s` if it has at most `max` characters; else its longest prefix of at most
/// `max` bytes, with an ellipsis behind it.
pub open spec fn clipped(s: Seq<char>, max: nat) -> Seq<char> {
    if s.len() > max {
        s.take(cut(s, max) as int).push(ELLIPSIS)
    } else {
        s
    }
}

/// Shortens a text to `max` bytes at a character boundary.
pub fn truncate(s: &str, max: usize) -> (r: String)
    ensures
        r@ == truncated(s@, max as nat),
{
    let cs = chars_of(s);
    let k = cut_at(&cs, max as u128);
    proof {
        cut_is_longest_fit(s@, max as nat);
    }
    if k == cs.len() {
        s.to_owned()
    } else {
        let mut out = text_of(&cs, 0, k);
        out.push(ELLIPSIS);
        out
    }
}

/// Shortens a text of more than `max` characters to `max` bytes.
pub fn clip(s: &str, max: usize) -> (r: String)
    ensures
        r@ == clipped(s@, max as nat),
{
    let cs = chars_of(s);
    if cs.len() > max {
        let k = cut_at(&cs, max as u128);
        let mut out = text_of(&cs, 0, k);
        out.push(ELLIPSIS);
        out
    } else {
        s.to_owned()
    }
}

proof fn cut_of_shortened(s: Seq<char>, max: nat)
    ensures
        ({
            let k = cut(s, max) as int;
            let t = s.take(k).push(ELLIPSIS);
            &&& k <= s.len()
            &&& byte_len(t) > max ==> t.take(cut(t, max) as int).push(ELLIPSIS) == t
        }),
{
    cut_is_longest_fit(s, max);
    let k = cut(s, max) as int;
    let t = s.take(k).push(ELLIPSIS);
    if byte_len(t) > max {
        cut_is_longest_fit(t, max);
        let c = cut(t, max) as int;
        if c < k {
            byte_len_grows(t, c + 1, k);
            assert(t.take(k) =~= s.take(k));
        }
        assert(c == k);
        assert(t.take(c) =~= s.take(k));
    }
}

/// Truncating a text twice is truncating it once.
pub proof fn truncating_is_final(s: Seq<char>, max: nat)
    ensures
        truncated(truncated(s, max), max) == truncated(s, max),
{
    cut_of_shortened(s, max);
}

/// A text takes at least one byte for each character.
pub proof fn byte_len_counts(s: Seq<char>)
    ensures
        byte_len(s) >= s.len(),
    decreases s.len(),
{
    if s.len() > 0 {
        byte_len_counts(s.drop_first());
    }
}

/// A clipped text has at most one character more than the bound, and clipping
/// it again changes nothing.
pub proof fn clipping_is_final(s: Seq<char>, max: nat)
    ensures
        clipped(s, max).len() <= max + 1,
        clipped(clipped(s, max), max) == clipped(s, max),
{
    cut_of_shortened(s, max);
    cut_is_longest_fit(s, max);
    byte_len_counts(s.take(cut(s, max) as int));
    byte_len_counts(clipped(s, max));
}

/// A truncated text takes at most three bytes more than the bound.
pub proof fn truncated_is_bounded(s: Seq<char>, max: nat)
    ensures
        byte_len(truncated(s, max)) <= max + 3,
{
    cut_is_longest_fit(s, max);
    let k = cut(s, max) as int;
    let tail = seq![ELLIPSIS];
    assert(s.take(k).push(ELLIPSIS) =~= s.take(k) + tail);
    byte_len_adds(s.take(k), tail);
    assert(tail.drop_first() =~= Seq::<char>::empty());
    assert(byte_len(tail) == width(tail[0]) + byte_len(tail.drop_first()));
}

/// Whether `r` is what is kept of `s` in `max` bytes: all of it if it fits, else
/// its longest prefix that does, and an ellipsis.
pub open spec fn is_cut_to_fit(s: Seq<char>, r: Seq<char>, max: nat) -> bool {
    exists|k: int|
        0 <= k < s.len() && r == (#[trigger] s.take(k)).push('\u{2026}')
            && vstd::utf8::encode_utf8(s.take(k)).len() <= max < vstd::utf8::encode_utf8(
            s.take(k + 1),
        ).len()
}

/// A text that fits in the bytes is kept whole; of a longer one the longest
/// prefix that fits is kept, with an ellipsis behind it.
pub proof fn truncating_keeps_what_fits(s: Seq<char>, max: nat)
    ensures
        vstd::utf8::encode_utf8(s).len() <= max ==> truncated(s, max) == s,
        vstd::utf8::encode_utf8(s).len() > max ==> is_cut_to_fit(s, truncated(s, max), max),
{
    byte_len_is_encoded_len(s);
    cut_is_longest_fit(s, max);
    let k = cut(s, max) as int;
    byte_len_is_encoded_len(s.take(k));
    if k < s.len() {
        byte_len_is_encoded_len(s.take(k + 1));
    }
}

/// A text of few enough characters is kept whole; of a longer one the longest
/// prefix that takes as few bytes is kept, with an ellipsis behind it.
pub proof fn clipping_keeps_what_fits(s: Seq<char>, max: nat)
    ensures
        s.len() <= max ==> clipped(s, max) == s,
        s.len() > max ==> is_cut_to_fit(s, clipped(s, max), max),
{
    cut_is_longest_fit(s, max);
    byte_len_counts(s);
    let k = cut(s, max) as int;
    byte_len_is_encoded_len(s.take(k));
    if k < s.len() {
        byte_len_is_encoded_len(s.take(k + 1));
    }
}

/// The contents of a list of texts are the contents of each of them, in order;
/// that of an optional text is its content where there is one.
pub proof fn contents_are_those_of_each(v: Seq<String>, o: Option<String>, p: Option<&str>, i: int)
    ensures
        texts(v).len() == v.len(),
        0 <= i < v.len() ==> texts(v)[i] == v[i]@,
        opt_text(o) is Some <==> o is Some,
        o is Some ==> opt_text(o)->0 == o->0@,
        opt_str(p) is Some <==> p is Some,
        p is Some ==> opt_str(p)->0 == p->0@,
{
}

} // verus!
