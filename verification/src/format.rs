use vstd::prelude::*;

use std::time::Duration;

use crate::int_text::{digits_value, is_digit};

verus! {

/// Appends a character to a string.
#[verifier::external_body]
pub(crate) fn string_push(s: &mut String, c: char)
    ensures
        final(s)@ == old(s)@.push(c),
{
    s.push(c)
}

/// The whole seconds of a duration.
pub uninterp spec fn whole_secs(d: Duration) -> u64;

/// The whole milliseconds of the fractional part of a duration.
pub uninterp spec fn subsec_millis_of(d: Duration) -> u32;

/// The whole seconds of a duration (`Duration::as_secs`).
#[verifier::external_body]
fn duration_as_secs(d: &Duration) -> (s: u64)
    ensures
        s == whole_secs(*d),
{
    d.as_secs()
}

/// The fractional part of a duration in whole milliseconds
/// (`Duration::subsec_millis`), which is below a thousand.
#[verifier::external_body]
fn duration_subsec_millis(d: &Duration) -> (ms: u32)
    ensures
        ms == subsec_millis_of(*d),
        ms < 1000,
{
    d.subsec_millis()
}

/// The character of decimal digit `d`.
pub open spec fn digit_char(d: nat) -> char {
    seq!['0', '1', '2', '3', '4', '5', '6', '7', '8', '9'][d as int]
}

/// The decimal digits of `n`, most significant first, without leading zeros.
pub open spec fn decimal(n: nat) -> Seq<char>
    decreases n,
{
    if n < 10 {
        seq![digit_char(n)]
    } else {
        decimal(n / 10).push(digit_char(n % 10))
    }
}

/// `digit_char(d)` is the ASCII digit of value `d`.
proof fn lemma_digit_char(d: nat)
    requires
        d < 10,
    ensures
        is_digit(digit_char(d)),
        digit_char(d) as int - '0' as int == d,
{
    assert(d == 0 || d == 1 || d == 2 || d == 3 || d == 4 || d == 5 || d == 6 || d == 7 || d == 8 || d == 9);
}

/// `decimal(n)` spells `n`: it is one or more decimal digits whose value is
/// `n`, and it starts with `0` only where `n` is 0 (reading it back as an
/// unsigned integer gives `n`).
pub proof fn lemma_decimal_spells(n: nat)
    ensures
        decimal(n).len() >= 1,
        forall|i: int| 0 <= i < decimal(n).len() ==> is_digit(#[trigger] decimal(n)[i]),
        digits_value(decimal(n)) == n,
        decimal(n)[0] == '0' ==> n == 0,
    decreases n,
{
    if n < 10 {
        lemma_digit_char(n);
        assert(decimal(n) == seq![digit_char(n)]);
        assert(decimal(n).drop_last() =~= Seq::<char>::empty());
        assert(digits_value(Seq::<char>::empty()) == 0);
        assert(decimal(n).last() == digit_char(n));
        assert(digits_value(decimal(n)) == digits_value(decimal(n).drop_last()) * 10 + ((decimal(n).last() as int)
            - ('0' as int)) as nat);
    } else {
        let m = n / 10;
        lemma_decimal_spells(m);
        lemma_digit_char(n % 10);
        let d = decimal(n);
        assert(d == decimal(m).push(digit_char(n % 10)));
        assert(d.drop_last() =~= decimal(m));
        assert(d[0] == decimal(m)[0]);
        assert(d.last() == digit_char(n % 10));
        assert(digits_value(d) == digits_value(d.drop_last()) * 10 + ((d.last() as int) - ('0' as int)) as nat);
        assert(m * 10 + n % 10 == n) by (nonlinear_arith)
            requires
                m == n / 10,
        ;
        assert forall|i: int| 0 <= i < d.len() implies is_digit(#[trigger] d[i]) by {
            if i < d.len() - 1 {
                assert(d[i] == decimal(m)[i]);
            }
        }
    }
}

/// The three fractional digits of `ms` thousandths.
pub open spec fn millis_fraction(ms: nat) -> Seq<char> {
    seq![digit_char(ms / 100), digit_char((ms / 10) % 10), digit_char(ms % 10)]
}

/// `secs` seconds and `ms` milliseconds as a decimal number of seconds:
/// whole where `ms` is zero, else with three fractional digits.
pub open spec fn seconds_text(secs: nat, ms: nat) -> Seq<char> {
    if ms == 0 {
        decimal(secs)
    } else {
        decimal(secs) + seq!['.'] + millis_fraction(ms)
    }
}

/// How a duration of `total_secs` whole seconds and `ms` milliseconds reads:
/// only milliseconds below a second, else seconds, minutes, hours and days,
/// starting at the largest unit that is not zero.
pub open spec fn duration_text(total_secs: nat, ms: nat) -> Seq<char> {
    let m = total_secs / 60;
    let h = m / 60;
    let d = h / 24;
    let hh = h % 24;
    let mm = m % 60;
    let ss = total_secs % 60;
    let sec_part = seconds_text(ss, ms) + seq!['s'];
    if d == 0 && hh == 0 && mm == 0 && ss == 0 {
        decimal(ms) + seq!['m', 's']
    } else if d == 0 && hh == 0 && mm == 0 {
        sec_part
    } else if d == 0 && hh == 0 {
        decimal(mm) + seq!['m', ' '] + sec_part
    } else if d == 0 {
        decimal(hh) + seq!['h', ' '] + decimal(mm) + seq!['m', ' '] + sec_part
    } else {
        decimal(d) + seq!['d', ' '] + decimal(hh) + seq!['h', ' '] + decimal(mm) + seq!['m', ' '] + sec_part
    }
}

/// A duration under a second reads as its milliseconds in decimal and `ms`:
/// the text before `ms` is one or more digits, with no leading zero unless it
/// is `0`, whose value is the number of milliseconds.
pub proof fn lemma_sub_second_reads_millis(ms: nat)
    requires
        ms < 1000,
    ensures
        ({
            let t = duration_text(0, ms);
            let digits = t.take(t.len() - 2);
            &&& t.len() >= 3
            &&& t.skip(t.len() - 2) == seq!['m', 's']
            &&& forall|i: int| 0 <= i < digits.len() ==> is_digit(#[trigger] digits[i])
            &&& digits_value(digits) == ms
            &&& digits[0] == '0' ==> ms == 0
        }),
{
    lemma_decimal_spells(ms);
    let t = duration_text(0, ms);
    assert(t == decimal(ms) + seq!['m', 's']);
    assert(t.take(t.len() - 2) =~= decimal(ms));
    assert(t.skip(t.len() - 2) =~= seq!['m', 's']);
}

fn digit(d: u64) -> (c: char)
    requires
        d < 10,
    ensures
        c == digit_char(d as nat),
{
    if d == 0 {
        '0'
    } else if d == 1 {
        '1'
    } else if d == 2 {
        '2'
    } else if d == 3 {
        '3'
    } else if d == 4 {
        '4'
    } else if d == 5 {
        '5'
    } else if d == 6 {
        '6'
    } else if d == 7 {
        '7'
    } else if d == 8 {
        '8'
    } else {
        '9'
    }
}

/// Appends the decimal digits of `n`.
pub(crate) fn push_decimal(out: &mut String, n: u64)
    ensures
        final(out)@ == old(out)@ + decimal(n as nat),
    decreases n,
{
    if n < 10 {
        string_push(out, digit(n));
        assert(decimal(n as nat) == seq![digit_char(n as nat)]);
    } else {
        push_decimal(out, n / 10);
        string_push(out, digit(n % 10));
        assert(old(out)@ + decimal(n as nat) =~= old(out)@ + decimal((n / 10) as nat) + seq![digit_char((n % 10) as nat)]);
    }
}

fn push_str_chars(out: &mut String, a: char, b: char)
    ensures
        final(out)@ == old(out)@ + seq![a, b],
{
    string_push(out, a);
    string_push(out, b);
    assert(final(out)@ =~= old(out)@ + seq![a, b]);
}

fn push_seconds(out: &mut String, secs: u64, ms: u64)
    requires
        ms < 1000,
    ensures
        final(out)@ == old(out)@ + seconds_text(secs as nat, ms as nat) + seq!['s'],
{
    push_decimal(out, secs);
    if ms != 0 {
        string_push(out, '.');
        string_push(out, digit(ms / 100));
        string_push(out, digit((ms / 10) % 10));
        string_push(out, digit(ms % 10));
    }
    string_push(out, 's');
    assert(final(out)@ =~= old(out)@ + seconds_text(secs as nat, ms as nat) + seq!['s']);
}

/// Formats a duration of `secs` whole seconds and `millis` milliseconds, e.g.
/// `15ms`, `1.015s`, `15m 15.015s`, `15h 15m 15.015s` or `15d 15h 15m 15.015s`.
pub fn format_duration(secs: u64, millis: u32) -> (text: String)
    requires
        millis < 1000,
    ensures
        text@ == duration_text(secs as nat, millis as nat),
{
    let s = secs;
    let m = s / 60;
    let h = m / 60;
    let d = h / 24;
    let ms = millis as u64;
    let hh = h % 24;
    let mm = m % 60;
    let ss = s % 60;
    let mut out = String::new();
    if d == 0 && hh == 0 && mm == 0 && ss == 0 {
        push_decimal(&mut out, ms);
        push_str_chars(&mut out, 'm', 's');
    } else if d == 0 && hh == 0 && mm == 0 {
        push_seconds(&mut out, ss, ms);
    } else if d == 0 && hh == 0 {
        push_decimal(&mut out, mm);
        push_str_chars(&mut out, 'm', ' ');
        push_seconds(&mut out, ss, ms);
    } else if d == 0 {
        push_decimal(&mut out, hh);
        push_str_chars(&mut out, 'h', ' ');
        push_decimal(&mut out, mm);
        push_str_chars(&mut out, 'm', ' ');
        push_seconds(&mut out, ss, ms);
    } else {
        push_decimal(&mut out, d);
        push_str_chars(&mut out, 'd', ' ');
        push_decimal(&mut out, hh);
        push_str_chars(&mut out, 'h', ' ');
        push_decimal(&mut out, mm);
        push_str_chars(&mut out, 'm', ' ');
        push_seconds(&mut out, ss, ms);
    }
    out
}

/// A duration that reads in days, hours, minutes, seconds and milliseconds.
pub struct FormattedDuration(pub Duration);

impl FormattedDuration {
    /// The duration as text, as `format_duration` writes its whole seconds and milliseconds.
    pub fn to_string(&self) -> (text: String)
        ensures
            text@ == duration_text(whole_secs(self.0) as nat, subsec_millis_of(self.0) as nat),
    {
        let secs = duration_as_secs(&self.0);
        let millis = duration_subsec_millis(&self.0);
        format_duration(secs, millis)
    }
}

} // verus!
