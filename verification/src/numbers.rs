//! Numbers as text: decimal integers, and binary fractions with a fixed number
//! of decimals.

use crate::text::chars_of;
use vstd::prelude::*;

verus! {

// ------------------------------------------------------------------- writing

/// The decimal digit for `d < 10`.
pub open spec fn digit(d: nat) -> char {
    (48 + d) as char
}

/// The decimal digits of `n`, without leading zeros.
pub open spec fn digits(n: nat) -> Seq<char>
    decreases n,
{
    if n < 10 {
        seq![digit(n)]
    } else {
        digits(n / 10).push(digit(n % 10))
    }
}

/// `n` in decimal, with a minus sign if it is negative.
pub open spec fn decimal(n: int) -> Seq<char> {
    if n < 0 {
        seq!['-'] + digits((-n) as nat)
    } else {
        digits(n as nat)
    }
}

fn push_digits(out: &mut String, n: u128)
    ensures
        final(out)@ == old(out)@ + digits(n as nat),
    decreases n,
{
    if n >= 10 {
        push_digits(out, n / 10);
    }
    let d: u8 = (n % 10) as u8;
    out.push((48 + d) as char);
    proof {
        if n < 10 {
            assert(out@ =~= old(out)@ + digits(n as nat));
        } else {
            assert(out@ =~= old(out)@ + digits((n / 10) as nat).push(digit((n % 10) as nat)));
        }
    }
}

/// `n` in decimal.
pub fn unsigned_text(n: u128) -> (r: String)
    ensures
        r@ == decimal(n as int),
{
    let mut out = String::new();
    push_digits(&mut out, n);
    proof {
        assert(out@ =~= digits(n as nat));
    }
    out
}

/// `n` in decimal.
pub fn signed_text(n: i64) -> (r: String)
    ensures
        r@ == decimal(n as int),
{
    if n < 0 {
        let mut out = String::new();
        out.push('-');
        let m: i128 = -(n as i128);
        push_digits(&mut out, m as u128);
        proof {
            assert(out@ =~= seq!['-'] + digits((-n) as nat));
        }
        out
    } else {
        unsigned_text(n as u128)
    }
}

// ------------------------------------------------------------------- reading

/// Whether `c` is an ASCII digit.
pub open spec fn is_digit(c: char) -> bool {
    '0' <= c <= '9'
}

/// Whether `s` holds ASCII digits only.
pub open spec fn all_digits(s: Seq<char>) -> bool {
    forall|i: int| 0 <= i < s.len() ==> is_digit(#[trigger] s[i])
}

/// The number that a run of decimal digits denotes.
pub open spec fn value(s: Seq<char>) -> nat
    decreases s.len(),
{
    if s.len() == 0 {
        0
    } else {
        value(s.drop_last()) * 10 + (s.last() as u32 - 48) as nat
    }
}

/// The number that one or more decimal digits denote.
pub open spec fn magnitude(s: Seq<char>) -> Option<int> {
    if s.len() > 0 && all_digits(s) {
        Some(value(s) as int)
    } else {
        None
    }
}

/// The number that an optional sign and one or more decimal digits denote.
pub open spec fn int_of(s: Seq<char>) -> Option<int> {
    if s.len() > 0 && s[0] == '-' {
        match magnitude(s.drop_first()) {
            Some(v) => Some(-v),
            None => None,
        }
    } else if s.len() > 0 && s[0] == '+' {
        magnitude(s.drop_first())
    } else {
        magnitude(s)
    }
}

/// The number that `s` denotes, if it lies in `lo..=hi`.
pub open spec fn int_within(s: Seq<char>, lo: int, hi: int) -> Option<int> {
    match int_of(s) {
        Some(v) => if lo <= v <= hi {
            Some(v)
        } else {
            None
        },
        None => None,
    }
}

proof fn value_of_prefix(s: Seq<char>, k: int)
    requires
        0 <= k <= s.len(),
        all_digits(s),
    ensures
        value(s.take(k)) <= value(s),
    decreases s.len() - k,
{
    if k == s.len() {
        assert(s.take(k) =~= s);
    } else {
        value_of_prefix(s, k + 1);
        assert(s.take(k + 1).drop_last() =~= s.take(k));
        assert(is_digit(s[k]));
    }
}

/// Reads the digits of `cs[from..]`; gives up above `limit`.
fn read_digits(cs: &Vec<char>, from: usize, limit: i128) -> (r: Option<i128>)
    requires
        from <= cs@.len(),
        0 <= limit <= 0x1_0000_0000_0000_0000,
    ensures
        r == (match magnitude(cs@.skip(from as int)) {
            Some(v) => if v <= limit {
                Some(v as i128)
            } else {
                None
            },
            None => None,
        }),
{
    let ghost t = cs@.skip(from as int);
    if from == cs.len() {
        return None;
    }
    let mut v: i128 = 0;
    let mut i: usize = from;
    proof {
        assert(t.take(0) =~= Seq::<char>::empty());
    }
    while i < cs.len()
        invariant
            t == cs@.skip(from as int),
            from <= i <= cs@.len(),
            0 <= v <= limit <= 0x1_0000_0000_0000_0000,
            v == value(t.take(i - from)),
            forall|j: int| 0 <= j < i - from ==> is_digit(#[trigger] t[j]),
        decreases cs@.len() - i,
    {
        let c = cs[i];
        assert(c == t[i - from]);
        if !('0' <= c && c <= '9') {
            assert(!is_digit(t[i - from]));
            return None;
        }
        let d: u32 = c as u32 - 48;
        v = v * 10 + d as i128;
        proof {
            let p = t.take(i - from + 1);
            assert(p.drop_last() =~= t.take(i - from));
            assert(p.last() == c);
        }
        if v > limit {
            proof {
                if all_digits(t) {
                    value_of_prefix(t, i - from + 1);
                }
            }
            return None;
        }
        i += 1;
    }
    proof {
        assert(t.take(i - from) =~= t);
    }
    Some(v)
}

/// Reads a decimal `i64`: an optional sign, then digits only.
pub fn parse_i64(s: &str) -> (r: Option<i64>)
    ensures
        r == (match int_within(s@, i64::MIN as int, i64::MAX as int) {
            Some(v) => Some(v as i64),
            None => None,
        }),
{
    let cs = chars_of(s);
    if cs.len() > 0 && cs[0] == '-' {
        proof {
            assert(cs@.skip(1) =~= s@.drop_first());
        }
        match read_digits(&cs, 1, 0x8000_0000_0000_0000) {
            Some(v) => Some((-v) as i64),
            None => None,
        }
    } else if cs.len() > 0 && cs[0] == '+' {
        proof {
            assert(cs@.skip(1) =~= s@.drop_first());
        }
        match read_digits(&cs, 1, 0x7fff_ffff_ffff_ffff) {
            Some(v) => Some(v as i64),
            None => None,
        }
    } else {
        proof {
            assert(cs@.skip(0) =~= s@);
        }
        match read_digits(&cs, 0, 0x7fff_ffff_ffff_ffff) {
            Some(v) => Some(v as i64),
            None => None,
        }
    }
}

/// Reads a decimal `i32`: an optional sign, then digits only.
pub fn parse_i32(s: &str) -> (r: Option<i32>)
    ensures
        r == (match int_within(s@, i32::MIN as int, i32::MAX as int) {
            Some(v) => Some(v as i32),
            None => None,
        }),
{
    match parse_i64(s) {
        Some(v) => if i32::MIN as i64 <= v && v <= i32::MAX as i64 {
            Some(v as i32)
        } else {
            None
        },
        None => None,
    }
}

proof fn digits_are_read_back(n: nat)
    ensures
        digits(n).len() > 0,
        all_digits(digits(n)),
        value(digits(n)) == n,
    decreases n,
{
    if n < 10 {
        let s = digits(n);
        assert(s.drop_last() =~= Seq::<char>::empty());
        assert(value(s.drop_last()) == 0);
        assert(s.last() as u32 == 48 + n);
        assert(value(s) == value(s.drop_last()) * 10 + (s.last() as u32 - 48) as nat);
    } else {
        digits_are_read_back(n / 10);
        let s = digits(n);
        assert(s.drop_last() =~= digits(n / 10));
        assert(s.last() as u32 == 48 + n % 10);
        assert(value(s) == value(s.drop_last()) * 10 + (s.last() as u32 - 48) as nat);
        assert forall|i: int| 0 <= i < s.len() implies is_digit(#[trigger] s[i]) by {
            if i < s.len() - 1 {
                assert(s[i] == digits(n / 10)[i]);
            }
        }
    }
}

/// Reading a number back from its decimal text gives the number.
pub proof fn decimal_is_read_back(n: int)
    ensures
        int_of(decimal(n)) == Some(n),
{
    if n < 0 {
        digits_are_read_back((-n) as nat);
        assert(decimal(n).drop_first() =~= digits((-n) as nat));
    } else {
        digits_are_read_back(n as nat);
        let s = digits(n as nat);
        assert(is_digit(s[0]));
    }
}

// ----------------------------------------------------------- binary fractions

/// `x / u`, rounded to the nearest integer, a tie to the even one.
pub open spec fn half_even(x: nat, u: nat) -> nat
    recommends
        u > 0,
{
    let q = x / u;
    let r = x % u;
    if 2 * r < u {
        q
    } else if 2 * r > u {
        q + 1
    } else {
        q + q % 2
    }
}

/// The distance between neighbouring binary numbers of 53 digits at `b`.
pub open spec fn ulp(b: nat) -> nat
    decreases b,
{
    if b < 0x20_0000_0000_0000 {
        1
    } else {
        2 * ulp(b / 2)
    }
}

/// The nearest binary number of 53 digits, a tie to the even one.
pub open spec fn double(b: nat) -> nat {
    half_even(b, ulp(b)) * ulp(b)
}

/// The double-precision number nearest to `b`, divided by `unit` and written with
/// `places` decimals, a tie to the even last digit.
pub open spec fn fixed(b: nat, unit: nat, places: nat) -> Seq<char> {
    let scale = vstd::arithmetic::power::pow(10, places) as nat;
    let n = half_even(double(b) * scale, unit);
    if places == 0 {
        digits(n)
    } else {
        digits(n / scale).push('.') + zero_filled(n % scale, places)
    }
}

/// `n` in decimal, with zeros in front up to `places` digits.
pub open spec fn zero_filled(n: nat, places: nat) -> Seq<char>
    decreases places,
{
    if places == 0 {
        Seq::empty()
    } else {
        zero_filled(n / 10, (places - 1) as nat).push(digit(n % 10))
    }
}

fn round_half_even(x: u128, u: u128) -> (r: u128)
    requires
        u > 0,
        x <= 0x1_0000_0000_0000_0000_0000_0000,
        u <= 0x1_0000_0000_0000_0000,
    ensures
        r == half_even(x as nat, u as nat),
        r <= x / u + 1,
{
    let q: u128 = x / u;
    let m: u128 = x % u;
    proof {
        assert(q <= x) by (nonlinear_arith)
            requires
                q == x / u,
                u > 0,
        ;
    }
    if 2 * m < u {
        q
    } else if 2 * m > u {
        q + 1
    } else {
        q + q % 2
    }
}

fn ulp_of(b: u64) -> (r: u128)
    ensures
        r == ulp(b as nat),
        1 <= r <= 4096,
        b < 0x20_0000_0000_0000 ==> r == 1,
        b >= 0x20_0000_0000_0000 ==> 0x10_0000_0000_0000 * r <= b,
    decreases b,
{
    proof {
        ulp_bounds(b as nat);
    }
    if b < 0x20_0000_0000_0000 {
        1
    } else {
        2 * ulp_of(b / 2)
    }
}

proof fn ulp_bounds(b: nat)
    ensures
        ulp(b) >= 1,
        b >= 0x20_0000_0000_0000 ==> 0x10_0000_0000_0000 * ulp(b) <= b,
    decreases b,
{
    if b >= 0x20_0000_0000_0000 {
        ulp_bounds(b / 2);
    }
}

fn double_of(b: u64) -> (r: u128)
    ensures
        r == double(b as nat),
        r <= 0x1_0000_0000_0000_1000,
{
    let u = ulp_of(b);
    let q = round_half_even(b as u128, u);
    proof {
        assert(q * u <= b + u) by (nonlinear_arith)
            requires
                q <= (b as u128) / u + 1,
                u > 0,
        ;
    }
    q * u
}

fn push_zero_filled(out: &mut String, n: u128, places: u32)
    ensures
        final(out)@ == old(out)@ + zero_filled(n as nat, places as nat),
    decreases places,
{
    if places > 0 {
        push_zero_filled(out, n / 10, places - 1);
        let d: u8 = (n % 10) as u8;
        out.push((48 + d) as char);
        proof {
            assert(out@ =~= old(out)@ + zero_filled((n / 10) as nat, (places - 1) as nat).push(
                digit((n % 10) as nat),
            ));
        }
    } else {
        proof {
            assert(out@ =~= old(out)@ + zero_filled(n as nat, 0));
        }
    }
}

/// The double-precision number nearest to `b`, divided by `unit` and written with
/// `places` decimals.
pub fn fixed_text(b: u64, unit: u64, places: u32) -> (r: String)
    requires
        unit > 0,
        places <= 2,
    ensures
        r@ == fixed(b as nat, unit as nat, places as nat),
{
    let scale: u128 = if places == 0 {
        1
    } else if places == 1 {
        10
    } else {
        100
    };
    proof {
        reveal_with_fuel(vstd::arithmetic::power::pow, 3);
        assert(scale == vstd::arithmetic::power::pow(10, places as nat));
    }
    let d = double_of(b);
    let n = round_half_even(d * scale, unit as u128);
    let mut out = String::new();
    if places == 0 {
        push_digits(&mut out, n);
        proof {
            assert(out@ =~= digits(n as nat));
        }
    } else {
        push_digits(&mut out, n / scale);
        out.push('.');
        push_zero_filled(&mut out, n % scale, places);
        proof {
            assert(out@ =~= digits((n / scale) as nat).push('.') + zero_filled(
                (n % scale) as nat,
                places as nat,
            ));
        }
    }
    out
}

// ------------------------------------------------------------------------ laws

/// Rounding gives the nearest number, and of two that are as near the even one.
pub proof fn rounding_is_to_the_nearest(x: nat, u: nat)
    requires
        u > 0,
    ensures
        2 * (half_even(x, u) * u - x) <= u,
        2 * (x - half_even(x, u) * u) <= u,
        2 * (half_even(x, u) * u - x) == u || 2 * (x - half_even(x, u) * u) == u ==> half_even(x, u)
            % 2 == 0,
{
    let q = x / u;
    let r = x % u;
    assert(x == q * u + r && r < u) by (nonlinear_arith)
        requires
            u > 0,
            q == x / u,
            r == x % u,
    ;
    assert((q + 1) * u == q * u + u) by (nonlinear_arith);
}

/// A number of at most 53 binary digits is a double-precision number itself.
pub proof fn small_numbers_are_exact(b: nat)
    requires
        b < 0x20_0000_0000_0000,
    ensures
        double(b) == b,
{
    assert(b / 1 == b && b % 1 == 0);
    assert(ulp(b) == 1);
    assert(half_even(b, 1) == b);
    assert(b * 1 == b);
}

proof fn filled_digits_are_read_back(n: nat, places: nat)
    requires
        places <= 2,
        places == 0 ==> n < 1,
        places == 1 ==> n < 10,
        places == 2 ==> n < 100,
    ensures
        zero_filled(n, places).len() == places,
        all_digits(zero_filled(n, places)),
        value(zero_filled(n, places)) == n,
    decreases places,
{
    if places > 0 {
        let p = (places - 1) as nat;
        filled_digits_are_read_back(n / 10, p);
        let s = zero_filled(n, places);
        let t = zero_filled(n / 10, p);
        let c = digit(n % 10);
        assert(s == t.push(c));
        assert(c as u32 == 48 + n % 10);
        assert(s.drop_last() =~= t);
        assert forall|i: int| 0 <= i < s.len() implies is_digit(#[trigger] s[i]) by {
            if i < t.len() {
                assert(s[i] == t[i]);
            }
        }
    }
}

/// A number with decimals reads as the quotient, rounded to the nearest that so
/// many decimals can write.
pub proof fn decimals_read_as_the_quotient(b: nat, unit: nat, places: nat)
    requires
        unit > 0,
        b < 0x20_0000_0000_0000,
        1 <= places <= 2,
    ensures
        ({
            let scale: nat = if places == 1 {
                10
            } else {
                100
            };
            exists|whole: Seq<char>, part: Seq<char>|
                fixed(b, unit, places) == #[trigger] (whole + seq!['.'] + part) && part.len()
                    == places && all_digits(whole) && all_digits(part) && whole.len() > 0
                    && value(whole) * scale + value(part) == half_even(b * scale, unit)
        }),
{
    reveal_with_fuel(vstd::arithmetic::power::pow, 3);
    let scale: nat = if places == 1 {
        10
    } else {
        100
    };
    assert(vstd::arithmetic::power::pow(10, places) == scale);
    small_numbers_are_exact(b);
    let n = half_even(b * scale, unit);
    let whole = digits(n / scale);
    let part = zero_filled(n % scale, places);
    digits_are_read_back(n / scale);
    filled_digits_are_read_back(n % scale, places);
    assert(fixed(b, unit, places) =~= whole + seq!['.'] + part);
}

/// A number without decimals reads as the quotient, rounded to the nearest.
pub proof fn whole_numbers_read_as_the_quotient(b: nat, unit: nat)
    requires
        unit > 0,
        b < 0x20_0000_0000_0000,
    ensures
        fixed(b, unit, 0) == decimal(half_even(b, unit) as int),
{
    reveal_with_fuel(vstd::arithmetic::power::pow, 2);
    small_numbers_are_exact(b);
    assert(vstd::arithmetic::power::pow(10, 0) == 1);
    assert(double(b) * 1 == b);
}

/// A greater number keeps its first 53 binary digits: the spacing of the
/// double-precision numbers at `b` is the one at which `b` takes 53 digits, and the
/// one that stands for `b` is nearest to it.
pub proof fn great_numbers_keep_their_first_digits(b: nat)
    requires
        b >= 0x10_0000_0000_0000,
    ensures
        ulp(b) > 0,
        0x10_0000_0000_0000 * ulp(b) <= b < 0x20_0000_0000_0000 * ulp(b),
        2 * (double(b) - b) <= ulp(b),
        2 * (b - double(b)) <= ulp(b),
        double(b) % ulp(b) == 0,
    decreases b,
{
    if b >= 0x20_0000_0000_0000 {
        great_numbers_keep_their_first_digits(b / 2);
    }
    rounding_is_to_the_nearest(b, ulp(b));
    vstd::arithmetic::div_mod::lemma_mod_multiples_basic(half_even(b, ulp(b)) as int, ulp(b) as int);
}

/// A number is read digit by digit, with a sign in front or none.
pub proof fn numbers_are_read_digit_by_digit(s: Seq<char>, c: char)
    requires
        forall|i: int| 0 <= i < s.len() ==> '0' <= #[trigger] s[i] <= '9',
        '0' <= c <= '9',
    ensures
        int_of(seq![c]) == Some((c as u32 - '0' as u32) as int),
        s.len() > 0 ==> int_of(s) is Some && int_of(s.push(c)) == Some(
            int_of(s)->0 * 10 + (c as u32 - '0' as u32),
        ),
        s.len() > 0 ==> int_of(seq!['-'] + s) == Some(-int_of(s)->0),
        s.len() > 0 ==> int_of(seq!['+'] + s) == int_of(s),
{
    let one = seq![c];
    assert(one.drop_last() =~= Seq::<char>::empty());
    assert(value(one) == value(one.drop_last()) * 10 + (one.last() as u32 - 48) as nat);
    assert(value(Seq::<char>::empty()) == 0);
    assert(s.push(c).drop_last() =~= s);
    assert((seq!['-'] + s).drop_first() =~= s);
    assert((seq!['+'] + s).drop_first() =~= s);
    if s.len() > 0 {
        assert('0' <= s[0] <= '9');
        assert(s.push(c)[0] == s[0]);
    }
}

/// A text with anything else in it is no number, nor is a sign alone or an empty
/// text.
pub proof fn other_texts_are_no_numbers(s: Seq<char>, i: int)
    requires
        0 <= i < s.len(),
        s[i] < '0' || '9' < s[i],
        i > 0 || s[i] != '-' && s[i] != '+',
    ensures
        int_of(s) is None,
        int_of(Seq::empty()) is None,
        int_of(seq!['-']) is None,
        int_of(seq!['+']) is None,
{
    assert(!is_digit(s[i]));
    if i > 0 {
        assert(s.drop_first()[i - 1] == s[i]);
    }
    assert(seq!['-'].drop_first().len() == 0);
    assert(seq!['+'].drop_first().len() == 0);
}

/// A number is taken exactly where it lies within its bounds.
pub proof fn numbers_are_taken_within_their_bounds(s: Seq<char>, lo: int, hi: int)
    ensures
        int_within(s, lo, hi) is Some <==> int_of(s) is Some && lo <= int_of(s)->0 <= hi,
        int_within(s, lo, hi) is Some ==> int_within(s, lo, hi) == int_of(s),
{
}

proof fn digits_start_well(n: nat)
    ensures
        digits(n).len() > 0,
        n > 0 ==> '1' <= digits(n)[0] <= '9',
    decreases n,
{
    if n >= 10 {
        digits_start_well(n / 10);
        assert(digits(n)[0] == digits(n / 10)[0]);
    } else {
        assert(digits(n)[0] as u32 == 48 + n);
    }
}

/// A number is written without zeros in front, and with a sign only where it is
/// negative.
pub proof fn numbers_are_written_plainly(n: int)
    ensures
        n > 0 ==> '1' <= decimal(n)[0] <= '9',
        n < 0 ==> decimal(n).len() > 1 && decimal(n)[0] == '-' && '1' <= decimal(n)[1] <= '9',
        decimal(0) == seq!['0'],
{
    if n > 0 {
        digits_start_well(n as nat);
    }
    if n < 0 {
        digits_start_well((-n) as nat);
        assert(decimal(n)[1] == digits((-n) as nat)[0]);
    }
    assert(digit(0) as u32 == 48);
}

} // verus!
