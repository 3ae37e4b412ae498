use vstd::prelude::*;

use crate::int_text::is_digit;
use crate::text::str_chars;

verus! {

/// `c` in ASCII lower case.
pub open spec fn ascii_lower(c: char) -> char {
    if 'A' <= c <= 'Z' {
        ((c as int) + 32) as char
    } else {
        c
    }
}

/// The number of decimal digits at the start of `s`.
pub open spec fn digit_run(s: Seq<char>) -> nat
    decreases s.len(),
{
    if s.len() > 0 && is_digit(s[0]) {
        1 + digit_run(s.drop_first())
    } else {
        0
    }
}

/// The length of an optional `+` or `-` sign at the start of `s`.
pub open spec fn sign_len(s: Seq<char>) -> int {
    if s.len() > 0 && (s[0] == '+' || s[0] == '-') {
        1
    } else {
        0
    }
}

/// `s` is, ignoring ASCII case, the word `w`.
pub open spec fn is_word(s: Seq<char>, w: Seq<char>) -> bool {
    s.len() == w.len() && forall|i: int| 0 <= i < s.len() ==> ascii_lower(#[trigger] s[i]) == w[i]
}

/// `s` is `inf`, `infinity` or `nan`, ignoring ASCII case.
pub open spec fn special_float_word(s: Seq<char>) -> bool {
    ||| is_word(s, seq!['i', 'n', 'f'])
    ||| is_word(s, seq!['i', 'n', 'f', 'i', 'n', 'i', 't', 'y'])
    ||| is_word(s, seq!['n', 'a', 'n'])
}

/// `r` is an exponent: `e` or `E`, an optional sign, then one or more digits.
pub open spec fn exponent_ok(r: Seq<char>) -> bool {
    &&& r.len() > 0
    &&& (r[0] == 'e' || r[0] == 'E')
    &&& ({
        let t = r.skip(1);
        let u = t.skip(sign_len(t));
        u.len() > 0 && digit_run(u) == u.len()
    })
}

/// `b` is a decimal number: digits, an optional `.` and digits, at least one
/// digit in all, then an optional exponent.
pub open spec fn decimal_number_ok(b: Seq<char>) -> bool {
    let a = digit_run(b) as int;
    let has_dot = a < b.len() && b[a] == '.';
    let f = if has_dot {
        digit_run(b.skip(a + 1)) as int
    } else {
        0
    };
    let p = if has_dot {
        a + 1 + f
    } else {
        a
    };
    &&& a + f > 0
    &&& (p == b.len() || exponent_ok(b.skip(p)))
}

/// `s` is the text of a floating point number as `f32::from_str` reads it:
/// an optional sign, then `inf`, `infinity` or `nan` in any ASCII case, or a decimal number.
pub open spec fn float_text_ok(s: Seq<char>) -> bool {
    let b = s.skip(sign_len(s));
    special_float_word(b) || decimal_number_ok(b)
}

proof fn lemma_digit_run_step(s: Seq<char>, j: int)
    requires
        0 <= j <= s.len(),
    ensures
        digit_run(s.skip(j)) == if j < s.len() && is_digit(s[j]) {
            1 + digit_run(s.skip(j + 1))
        } else {
            0
        },
{
    if j < s.len() {
        assert(s.skip(j).drop_first() =~= s.skip(j + 1));
    }
}

proof fn lemma_digit_run_bound(s: Seq<char>)
    ensures
        digit_run(s) <= s.len(),
    decreases s.len(),
{
    if s.len() > 0 && is_digit(s[0]) {
        lemma_digit_run_bound(s.drop_first());
    }
}

/// The length of the run of digits starting at `i`.
fn digits_from(s: &[char], i: usize) -> (j: usize)
    requires
        i <= s@.len(),
    ensures
        i <= j <= s@.len(),
        j - i == digit_run(s@.skip(i as int)),
        j == s@.len() || !is_digit(s@[j as int]),
{
    let mut j: usize = i;
    while j < s.len() && '0' <= s[j] && s[j] <= '9'
        invariant
            i <= j <= s@.len(),
            digit_run(s@.skip(i as int)) == (j - i) + digit_run(s@.skip(j as int)),
        decreases s@.len() - j,
    {
        proof {
            lemma_digit_run_step(s@, j as int);
        }
        j += 1;
    }
    proof {
        lemma_digit_run_step(s@, j as int);
    }
    j
}

fn lower_char(c: char) -> (d: char)
    ensures
        d == ascii_lower(c),
{
    if 'A' <= c && c <= 'Z' {
        ((c as u32 + 32) as u8) as char
    } else {
        c
    }
}

/// `s` from `i` on is, ignoring ASCII case, the word `w`.
fn rest_is_word(s: &[char], i: usize, w: &[char]) -> (b: bool)
    requires
        i <= s@.len(),
    ensures
        b == is_word(s@.skip(i as int), w@),
{
    let n = s.len();
    if n - i != w.len() {
        return false;
    }
    let mut k: usize = 0;
    while k < w.len()
        invariant
            n == s@.len(),
            i <= s@.len(),
            s@.len() - i == w@.len(),
            k <= w@.len(),
            forall|m: int| 0 <= m < k ==> ascii_lower(#[trigger] s@.skip(i as int)[m]) == w@[m],
        decreases w@.len() - k,
    {
        if lower_char(s[i + k]) != w[k] {
            assert(ascii_lower(s@.skip(i as int)[k as int]) != w@[k as int]);
            return false;
        }
        k += 1;
    }
    true
}

fn exponent_from(s: &[char], p: usize) -> (b: bool)
    requires
        p < s@.len(),
    ensures
        b == exponent_ok(s@.skip(p as int)),
{
    let ghost r = s@.skip(p as int);
    if s[p] != 'e' && s[p] != 'E' {
        return false;
    }
    let mut q: usize = p + 1;
    proof {
        assert(r.skip(1) =~= s@.skip(q as int));
    }
    if q < s.len() && (s[q] == '+' || s[q] == '-') {
        q += 1;
    }
    proof {
        let t = r.skip(1);
        assert(t.skip(sign_len(t)) =~= s@.skip(q as int));
    }
    if q == s.len() {
        return false;
    }
    let e = digits_from(s, q);
    e == s.len()
}

/// Whether `text` is the text of a floating point number as `f32::from_str` reads it.
pub fn is_float_text(text: &[char]) -> (b: bool)
    ensures
        b == float_text_ok(text@),
{
    let s = text;
    let mut i: usize = 0;
    if s.len() > 0 && (s[0] == '+' || s[0] == '-') {
        i = 1;
    }
    let ghost b = s@.skip(sign_len(s@));
    assert(b =~= s@.skip(i as int));
    if rest_is_word(s, i, &['i', 'n', 'f']) || rest_is_word(s, i, &['i', 'n', 'f', 'i', 'n', 'i', 't', 'y'])
        || rest_is_word(s, i, &['n', 'a', 'n']) {
        proof {
            let w1: Seq<char> = seq!['i', 'n', 'f'];
            let w2: Seq<char> = seq!['i', 'n', 'f', 'i', 'n', 'i', 't', 'y'];
            let w3: Seq<char> = seq!['n', 'a', 'n'];
            assert(['i', 'n', 'f']@ == w1);
            assert(['i', 'n', 'f', 'i', 'n', 'i', 't', 'y']@ == w2);
            assert(['n', 'a', 'n']@ == w3);
        }
        return true;
    }
    proof {
        let w1: Seq<char> = seq!['i', 'n', 'f'];
        let w2: Seq<char> = seq!['i', 'n', 'f', 'i', 'n', 'i', 't', 'y'];
        let w3: Seq<char> = seq!['n', 'a', 'n'];
        assert(['i', 'n', 'f']@ == w1);
        assert(['i', 'n', 'f', 'i', 'n', 'i', 't', 'y']@ == w2);
        assert(['n', 'a', 'n']@ == w3);
        assert(!special_float_word(b));
    }
    let a_end = digits_from(s, i);
    let ghost a = digit_run(b) as int;
    assert(a_end - i == a);
    let mut p: usize = a_end;
    let mut digits: usize = a_end - i;
    if a_end < s.len() && s[a_end] == '.' {
        assert(b[a] == s@[a_end as int]);
        let f_end = digits_from(s, a_end + 1);
        proof {
            assert(b.skip(a + 1) =~= s@.skip(a_end + 1));
        }
        digits = digits + (f_end - (a_end + 1));
        p = f_end;
    } else {
        proof {
            if a < b.len() {
                assert(b[a] == s@[a_end as int]);
            }
        }
    }
    if digits == 0 {
        return false;
    }
    if p == s.len() {
        assert(p - i == b.len());
        return true;
    }
    proof {
        assert(b.skip(p - i) =~= s@.skip(p as int));
    }
    exponent_from(s, p)
}

/// Whether `text` is the text of a floating point number as `f32::from_str` reads it.
pub fn is_float_str(text: &str) -> (b: bool)
    ensures
        b == float_text_ok(text@),
{
    let chars = str_chars(text);
    is_float_text(chars.as_slice())
}

} // verus!
