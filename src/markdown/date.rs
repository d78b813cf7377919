//! Calendar dates as written in a document header: `YYYY-MM-DD`, parsed
//! leniently and printed zero-padded.

use crate::text::{chars_of, is_space, lemma_split_on_nonempty, lemma_split_without_sep, push_char, split_chars, split_on, trim, trim_bounds};
use vstd::prelude::*;

verus! {

/// A date as year, month and day. Month and day are not checked against the
/// calendar: `1970-01-00` is a value of this type.
#[derive(Debug, Clone, Copy, PartialEq, Eq, Structural)]
pub struct Date(pub u16, pub u8, pub u8);

/// Why a date field could not be read as a number.
#[derive(Debug, Clone, Copy, PartialEq, Eq, Structural)]
pub enum DateError {
    /// A present field holds no character (as in `2020-`).
    Empty,
    /// A field holds a character other than an ASCII digit.
    InvalidDigit,
    /// A field's value does not fit its width.
    Overflow,
}

pub open spec fn is_digit(c: char) -> bool {
    '0' <= c && c <= '9'
}

pub open spec fn all_digits(s: Seq<char>) -> bool {
    forall|i: int| 0 <= i < s.len() ==> is_digit(#[trigger] s[i])
}

pub open spec fn digit_value(c: char) -> nat {
    (c as u32 - '0' as u32) as nat
}

/// The number that a run of decimal digits denotes.
pub open spec fn value_of(s: Seq<char>) -> nat
    decreases s.len(),
{
    if s.len() == 0 {
        0
    } else {
        value_of(s.drop_last()) * 10 + digit_value(s.last())
    }
}

/// A date field read as a number no larger than `max`.
pub open spec fn field_value(s: Seq<char>, max: nat) -> Result<nat, DateError> {
    if s.len() == 0 {
        Err(DateError::Empty)
    } else if !all_digits(s) {
        Err(DateError::InvalidDigit)
    } else if value_of(s) > max {
        Err(DateError::Overflow)
    } else {
        Ok(value_of(s))
    }
}

/// The `k`-th field, or `0` where there are fewer fields.
pub open spec fn field_or_zero(fields: Seq<Seq<char>>, k: int) -> Seq<char> {
    if k < fields.len() {
        fields[k]
    } else {
        seq!['0']
    }
}

/// What `Date::parse` gives for the text `s`: the trimmed text split at `-`,
/// the first three fields read as year, month and day, a missing one read as
/// zero and any later one ignored.
pub open spec fn parse_date(s: Seq<char>) -> Result<Date, DateError> {
    let f = split_on(trim(s), '-');
    match field_value(field_or_zero(f, 0), 0xffff) {
        Err(e) => Err(e),
        Ok(y) => match field_value(field_or_zero(f, 1), 0xff) {
            Err(e) => Err(e),
            Ok(m) => match field_value(field_or_zero(f, 2), 0xff) {
                Err(e) => Err(e),
                Ok(d) => Ok(Date(y as u16, m as u8, d as u8)),
            },
        },
    }
}

pub open spec fn digit_char(d: nat) -> char {
    ((d + '0' as u32) as u8) as char
}

/// The decimal digits of `n`, without leading zeros.
pub open spec fn decimal(n: nat) -> Seq<char>
    decreases n,
{
    if n < 10 {
        seq![digit_char(n)]
    } else {
        decimal(n / 10).push(digit_char(n % 10))
    }
}

/// The decimal digits of `n`, zero-padded on the left to at least `w` digits.
pub open spec fn padded(n: nat, w: nat) -> Seq<char>
    decreases w,
{
    if w <= 1 {
        decimal(n)
    } else {
        padded(n / 10, (w - 1) as nat).push(digit_char(n % 10))
    }
}

/// The text of a date: `YYYY-MM-DD`, each field zero-padded.
pub open spec fn date_text(d: Date) -> Seq<char> {
    padded(d.0 as nat, 4) + seq!['-'] + padded(d.1 as nat, 2) + seq!['-'] + padded(d.2 as nat, 2)
}

/// Whether `s` is a date in the form that `date_text` writes: four, two and
/// two digits, separated by `-`.
pub open spec fn is_canonical_date(s: Seq<char>) -> bool {
    &&& s.len() == 10
    &&& s[4] == '-' && s[7] == '-'
    &&& all_digits(s.subrange(0, 4))
    &&& all_digits(s.subrange(5, 7))
    &&& all_digits(s.subrange(8, 10))
}

proof fn lemma_value_prefix(s: Seq<char>, i: int)
    requires
        0 <= i <= s.len(),
    ensures
        value_of(s.subrange(0, i)) <= value_of(s),
    decreases s.len() - i,
{
    if i < s.len() {
        lemma_value_prefix(s.drop_last(), i);
        assert(s.drop_last().subrange(0, i) =~= s.subrange(0, i));
    } else {
        assert(s.subrange(0, i) =~= s);
    }
}

proof fn lemma_digit_round_trip(c: char)
    requires
        is_digit(c),
    ensures
        digit_char(digit_value(c)) == c,
        digit_value(c) < 10,
{
}

/// A run of `w` digits is what `padded` writes for its value at width `w`.
proof fn lemma_padded_of_digits(s: Seq<char>)
    requires
        s.len() >= 1,
        all_digits(s),
    ensures
        padded(value_of(s), s.len()) == s,
    decreases s.len(),
{
    let d = digit_value(s.last());
    lemma_digit_round_trip(s.last());
    if s.len() == 1 {
        assert(s.drop_last() =~= Seq::<char>::empty());
        assert(value_of(s.drop_last()) == 0);
        assert(value_of(s) == d);
        assert(decimal(d) =~= s);
    } else {
        let a = value_of(s.drop_last());
        lemma_padded_of_digits(s.drop_last());
        assert((a * 10 + d) / 10 == a && (a * 10 + d) % 10 == d) by (nonlinear_arith)
            requires
                d < 10,
        ;
        assert(s.drop_last().push(s.last()) =~= s);
    }
}

/// The digits of `v[lo..hi]` read as a number no larger than `max`.
fn parse_field(v: &[char], lo: usize, hi: usize, max: u32) -> (r: Result<u32, DateError>)
    requires
        lo <= hi <= v@.len(),
        max <= 0xffff,
    ensures
        r matches Ok(n) ==> field_value(v@.subrange(lo as int, hi as int), max as nat) == Ok::<nat, DateError>(n as nat),
        r matches Err(e) ==> field_value(v@.subrange(lo as int, hi as int), max as nat) == Err::<nat, DateError>(e),
{
    let ghost s = v@.subrange(lo as int, hi as int);
    if lo == hi {
        return Err(DateError::Empty);
    }
    let mut i: usize = lo;
    while i < hi
        invariant
            lo <= i <= hi <= v@.len(),
            s == v@.subrange(lo as int, hi as int),
            forall|k: int| 0 <= k < i - lo ==> is_digit(#[trigger] s[k]),
        decreases hi - i,
    {
        if !('0' <= v[i] && v[i] <= '9') {
            assert(!is_digit(s[i - lo]));
            return Err(DateError::InvalidDigit);
        }
        i += 1;
    }
    assert(all_digits(s));
    let mut acc: u32 = 0;
    let mut j: usize = lo;
    assert(s.subrange(0, 0) =~= Seq::<char>::empty());
    while j < hi
        invariant
            lo <= j <= hi <= v@.len(),
            s == v@.subrange(lo as int, hi as int),
            all_digits(s),
            max <= 0xffff,
            acc <= max,
            acc as nat == value_of(s.subrange(0, j - lo)),
        decreases hi - j,
    {
        let c = v[j];
        assert(c == s[j - lo]);
        let d = (c as u32) - ('0' as u32);
        assert(s.subrange(0, j - lo + 1).drop_last() =~= s.subrange(0, j - lo));
        acc = acc * 10 + d;
        j += 1;
        if acc > max {
            proof {
                lemma_value_prefix(s, j - lo);
            }
            return Err(DateError::Overflow);
        }
    }
    assert(s.subrange(0, j - lo) =~= s);
    Ok(acc)
}

/// Appends the decimal digits of `n`.
fn push_decimal(out: &mut String, n: u32)
    ensures
        final(out)@ == old(out)@ + decimal(n as nat),
    decreases n,
{
    if n >= 10 {
        push_decimal(out, n / 10);
    }
    let d = n % 10;
    push_char(out, ((d + ('0' as u32)) as u8) as char);
    assert(final(out)@ =~= old(out)@ + decimal(n as nat));
}

/// Appends the digits of `n`, zero-padded to at least `w` digits.
fn push_padded(out: &mut String, n: u32, w: u32)
    ensures
        final(out)@ == old(out)@ + padded(n as nat, w as nat),
    decreases w,
{
    if w <= 1 {
        push_decimal(out, n);
    } else {
        push_padded(out, n / 10, w - 1);
        let d = n % 10;
        push_char(out, ((d + ('0' as u32)) as u8) as char);
        assert(final(out)@ =~= old(out)@ + padded(n as nat, w as nat));
    }
}

impl Date {
    /// Reads a date from `input`: surrounding whitespace is trimmed, the rest
    /// is split at `-`, and the first three fields are read as year, month and
    /// day. A missing field counts as zero; a present one must be a run of
    /// digits whose value fits the field.
    pub fn parse(input: &str) -> (r: Result<Date, DateError>)
        ensures
            r == parse_date(input@),
    {
        let v = chars_of(input);
        let (a, b) = trim_bounds(&v, 0);
        assert(v@.subrange(0, v@.len() as int) =~= v@);
        let fields = split_chars(&v[a..b], '-');
        let ghost f = split_on(trim(v@), '-');
        assert(v@.subrange(a as int, b as int) == trim(input@));
        proof {
            lemma_split_on_nonempty(trim(v@), '-');
        }
        let zero: Vec<char> = vec!['0'];
        let y = {
            let fv: &Vec<char> = &fields[0];
            assert(fv@ == f[0]);
            assert(fv@.subrange(0, fv@.len() as int) =~= fv@);
            match parse_field(fv.as_slice(), 0, fv.len(), 0xffff) {
                Ok(n) => n,
                Err(e) => return Err(e),
            }
        };
        let m = {
            let fv: &Vec<char> = if fields.len() > 1 { &fields[1] } else { &zero };
            assert(fv@ == field_or_zero(f, 1));
            assert(fv@.subrange(0, fv@.len() as int) =~= fv@);
            match parse_field(fv.as_slice(), 0, fv.len(), 0xff) {
                Ok(n) => n,
                Err(e) => return Err(e),
            }
        };
        let d = {
            let fv: &Vec<char> = if fields.len() > 2 { &fields[2] } else { &zero };
            assert(fv@ == field_or_zero(f, 2));
            assert(fv@.subrange(0, fv@.len() as int) =~= fv@);
            match parse_field(fv.as_slice(), 0, fv.len(), 0xff) {
                Ok(n) => n,
                Err(e) => return Err(e),
            }
        };
        Ok(Date(y as u16, m as u8, d as u8))
    }

    /// The date as `YYYY-MM-DD`, each field zero-padded.
    pub fn to_string(&self) -> (r: String)
        ensures
            r@ == date_text(*self),
    {
        let mut out = String::new();
        push_padded(&mut out, self.0 as u32, 4);
        push_char(&mut out, '-');
        push_padded(&mut out, self.1 as u32, 2);
        push_char(&mut out, '-');
        push_padded(&mut out, self.2 as u32, 2);
        assert(out@ =~= date_text(*self));
        out
    }
}

impl core::str::FromStr for Date {
    type Err = DateError;

    fn from_str(input: &str) -> Result<Date, DateError> {
        Date::parse(input)
    }
}

pub open spec fn pow10(n: nat) -> nat
    decreases n,
{
    if n == 0 {
        1
    } else {
        10 * pow10((n - 1) as nat)
    }
}

proof fn lemma_value_bound(s: Seq<char>)
    requires
        all_digits(s),
    ensures
        value_of(s) < pow10(s.len()),
    decreases s.len(),
{
    if s.len() > 0 {
        let t = s.drop_last();
        assert(all_digits(t)) by {
            assert forall|i: int| 0 <= i < t.len() implies is_digit(#[trigger] t[i]) by {
                assert(t[i] == s[i]);
            }
        }
        lemma_value_bound(t);
        let a = value_of(t);
        let d = digit_value(s.last());
        let p = pow10((s.len() - 1) as nat);
        assert(is_digit(s[s.len() - 1]));
        assert(a * 10 + d < 10 * p) by (nonlinear_arith)
            requires
                a < p,
                d < 10,
        ;
    }
}

proof fn lemma_no_space(s: Seq<char>)
    requires
        s.len() > 0,
        !is_space(s[0]),
        !is_space(s.last()),
    ensures
        trim(s) == s,
{
}

proof fn lemma_split_after_sep(p: Seq<char>, a: Seq<char>, sep: char)
    requires
        forall|i: int| 0 <= i < a.len() ==> a[i] != sep,
    ensures
        split_on(p + seq![sep] + a, sep) == split_on(p, sep).push(a),
    decreases a.len(),
{
    let t = p + seq![sep] + a;
    if a.len() == 0 {
        assert(t.drop_last() =~= p);
        assert(a =~= Seq::<char>::empty());
    } else {
        lemma_split_after_sep(p, a.drop_last(), sep);
        assert(t.drop_last() =~= p + seq![sep] + a.drop_last());
        let r = split_on(p, sep).push(a.drop_last());
        assert(t.last() == a.last());
        assert(a.drop_last().push(a.last()) =~= a);
        assert(r.update(r.len() - 1, r.last().push(a.last())) =~= split_on(p, sep).push(a));
    }
}

proof fn lemma_digit_field(a: Seq<char>, max: nat)
    requires
        a.len() >= 1,
        all_digits(a),
        pow10(a.len()) <= max + 1,
    ensures
        field_value(a, max) == Ok::<nat, DateError>(value_of(a)),
        padded(value_of(a), a.len()) == a,
{
    lemma_value_bound(a);
    lemma_padded_of_digits(a);
}

/// Printing a date read from a text already in `YYYY-MM-DD` form gives back
/// that text.
pub proof fn lemma_date_round_trip(s: Seq<char>)
    requires
        is_canonical_date(s),
    ensures
        parse_date(s) matches Ok(d) && date_text(d) == s,
{
    let y = s.subrange(0, 4);
    let m = s.subrange(5, 7);
    let d = s.subrange(8, 10);
    assert(is_digit(y[0]) && is_digit(d[1]));
    lemma_no_space(s);
    assert forall|i: int| 0 <= i < y.len() implies y[i] != '-' by {
        assert(is_digit(y[i]));
    }
    assert forall|i: int| 0 <= i < m.len() implies m[i] != '-' by {
        assert(is_digit(m[i]));
    }
    assert forall|i: int| 0 <= i < d.len() implies d[i] != '-' by {
        assert(is_digit(d[i]));
    }
    lemma_split_without_sep(y, '-');
    lemma_split_after_sep(y, m, '-');
    lemma_split_after_sep(y + seq!['-'] + m, d, '-');
    assert(s =~= y + seq!['-'] + m + seq!['-'] + d);
    let f = split_on(s, '-');
    assert(f =~= seq![y, m, d]);
    assert(pow10(0) == 1);
    assert(pow10(1) == 10);
    assert(pow10(2) == 100);
    assert(pow10(3) == 1000);
    assert(pow10(4) == 10000);
    lemma_digit_field(y, 0xffff);
    lemma_digit_field(m, 0xff);
    lemma_digit_field(d, 0xff);
    assert(date_text(Date(value_of(y) as u16, value_of(m) as u8, value_of(d) as u8)) =~= s);
}

} // verus!
