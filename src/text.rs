//! Recognising the numeric tokens of the CUBE format: unsigned 8-bit
//! integers and the decimal floating-point syntax that `f32` accepts.
use vstd::prelude::*;

verus! {

pub open spec fn is_digit(c: char) -> bool {
    '0' <= c && c <= '9'
}

pub open spec fn is_sign(c: char) -> bool {
    c == '+' || c == '-'
}

pub open spec fn is_exp_marker(c: char) -> bool {
    c == 'e' || c == 'E'
}

/// `c` is the lower-case ASCII letter `l` or its upper-case form.
pub open spec fn same_letter(c: char, l: char) -> bool {
    c == l || (c as u32) == (l as u32) - 32
}

/// `s` spells the lower-case word `w`, ignoring ASCII case.
pub open spec fn spells(s: Seq<char>, w: Seq<char>) -> bool {
    s.len() == w.len() && forall|i: int| 0 <= i < s.len() ==> same_letter(s[i], w[i])
}

/// `t` drops one leading sign from `s`, if there is one.
pub open spec fn unsigned_part(s: Seq<char>) -> Seq<char> {
    if s.len() > 0 && is_sign(s[0]) {
        s.drop_first()
    } else {
        s
    }
}

/// Digits with at most one `.`, and at least one digit.
pub open spec fn is_mantissa(t: Seq<char>) -> bool {
    &&& forall|i: int| 0 <= i < t.len() ==> is_digit(t[i]) || t[i] == '.'
    &&& forall|i: int, j: int| 0 <= i < j < t.len() ==> !(t[i] == '.' && t[j] == '.')
    &&& exists|i: int| 0 <= i < t.len() && is_digit(t[i])
}

/// An optional sign followed by one or more digits.
pub open spec fn is_exponent(t: Seq<char>) -> bool {
    let d = unsigned_part(t);
    d.len() > 0 && forall|i: int| 0 <= i < d.len() ==> is_digit(d[i])
}

/// A mantissa, optionally followed by `e` or `E` and an exponent.
pub open spec fn is_decimal(u: Seq<char>) -> bool {
    ||| is_mantissa(u)
    ||| exists|p: int|
        0 <= p < u.len() && is_exp_marker(u[p]) && is_mantissa(u.take(p)) && is_exponent(
            u.skip(p + 1),
        )
}

/// The text syntax of a floating-point number: an optional sign, then
/// `inf`, `infinity` or `nan` in any case, or a decimal number with an
/// optional exponent. Whitespace is not part of a number.
pub open spec fn is_float_text(s: Seq<char>) -> bool {
    let u = unsigned_part(s);
    ||| spells(u, seq!['i', 'n', 'f'])
    ||| spells(u, seq!['i', 'n', 'f', 'i', 'n', 'i', 't', 'y'])
    ||| spells(u, seq!['n', 'a', 'n'])
    ||| is_decimal(u)
}

/// The characters that the text of a number may hold.
pub open spec fn is_number_char(c: char) -> bool {
    ||| is_digit(c)
    ||| c == '.'
    ||| is_sign(c)
    ||| is_exp_marker(c)
    ||| same_letter(c, 'i')
    ||| same_letter(c, 'n')
    ||| same_letter(c, 'f')
    ||| same_letter(c, 't')
    ||| same_letter(c, 'y')
    ||| same_letter(c, 'a')
}

proof fn lemma_mantissa_chars(t: Seq<char>)
    requires
        is_mantissa(t),
    ensures
        t.len() > 0,
        forall|i: int| 0 <= i < t.len() ==> is_number_char(#[trigger] t[i]),
{
}

proof fn lemma_exponent_chars(t: Seq<char>)
    requires
        is_exponent(t),
    ensures
        forall|i: int| 0 <= i < t.len() ==> is_number_char(#[trigger] t[i]),
{
    let d = unsigned_part(t);
    assert forall|i: int| 0 <= i < t.len() implies is_number_char(#[trigger] t[i]) by {
        if t.len() > 0 && is_sign(t[0]) && i > 0 {
            assert(t[i] == d[i - 1]);
        }
    }
}

/// The text of a number is not empty and holds only the characters of numbers.
pub proof fn lemma_float_text_chars(s: Seq<char>)
    requires
        is_float_text(s),
    ensures
        s.len() > 0,
        forall|i: int| 0 <= i < s.len() ==> is_number_char(#[trigger] s[i]),
{
    let u = unsigned_part(s);
    let signed = s.len() > 0 && is_sign(s[0]);
    assert(u.len() > 0 && forall|i: int| 0 <= i < u.len() ==> is_number_char(#[trigger] u[i])) by {
        if spells(u, seq!['i', 'n', 'f']) {
            assert forall|i: int| 0 <= i < u.len() implies is_number_char(#[trigger] u[i]) by {
                assert(same_letter(u[i], seq!['i', 'n', 'f'][i]));
            }
        } else if spells(u, seq!['i', 'n', 'f', 'i', 'n', 'i', 't', 'y']) {
            assert forall|i: int| 0 <= i < u.len() implies is_number_char(#[trigger] u[i]) by {
                assert(same_letter(u[i], seq!['i', 'n', 'f', 'i', 'n', 'i', 't', 'y'][i]));
            }
        } else if spells(u, seq!['n', 'a', 'n']) {
            assert forall|i: int| 0 <= i < u.len() implies is_number_char(#[trigger] u[i]) by {
                assert(same_letter(u[i], seq!['n', 'a', 'n'][i]));
            }
        } else if is_mantissa(u) {
            lemma_mantissa_chars(u);
        } else {
            let p = choose|p: int|
                0 <= p < u.len() && is_exp_marker(u[p]) && is_mantissa(u.take(p)) && is_exponent(
                    u.skip(p + 1),
                );
            lemma_mantissa_chars(u.take(p));
            lemma_exponent_chars(u.skip(p + 1));
            assert forall|i: int| 0 <= i < u.len() implies is_number_char(#[trigger] u[i]) by {
                if i < p {
                    assert(u[i] == u.take(p)[i]);
                } else if i > p {
                    assert(u[i] == u.skip(p + 1)[i - p - 1]);
                }
            }
        }
    }
    assert forall|i: int| 0 <= i < s.len() implies is_number_char(#[trigger] s[i]) by {
        if signed && i > 0 {
            assert(s[i] == u[i - 1]);
        } else if !signed {
            assert(s[i] == u[i]);
        }
    }
}

/// Value of a sequence of decimal digits.
pub open spec fn digits_value(s: Seq<char>) -> nat
    decreases s.len(),
{
    if s.len() == 0 {
        0
    } else {
        digits_value(s.drop_last()) * 10 + ((s.last() as u32) - ('0' as u32)) as nat
    }
}

/// The text syntax of an unsigned 8-bit integer: an optional `+`, then one or
/// more decimal digits whose value is at most 255.
pub open spec fn u8_of_text(s: Seq<char>) -> Option<u8> {
    let d = without_plus(s);
    if d.len() > 0 && all_digits(d) && digits_value(d) <= 255 {
        Some(digits_value(d) as u8)
    } else {
        None
    }
}

/// `s` without one leading `+`, if it has one.
pub open spec fn without_plus(s: Seq<char>) -> Seq<char> {
    if s.len() > 0 && s[0] == '+' {
        s.drop_first()
    } else {
        s
    }
}

pub open spec fn all_digits(d: Seq<char>) -> bool {
    forall|i: int| 0 <= i < d.len() ==> is_digit(d[i])
}

fn char_is_digit(c: char) -> (r: bool)
    ensures
        r == is_digit(c),
{
    '0' <= c && c <= '9'
}

/// Whether `s[lo..hi]` spells the lower-case word `w`, ignoring ASCII case.
fn spells_range(s: &Vec<char>, lo: usize, hi: usize, w: &[char]) -> (r: bool)
    requires
        lo <= hi <= s@.len(),
        forall|i: int| 0 <= i < w@.len() ==> 'a' <= #[trigger] w@[i] <= 'z',
    ensures
        r == spells(s@.subrange(lo as int, hi as int), w@),
{
    if hi - lo != w.len() {
        return false;
    }
    let mut i: usize = 0;
    while i < w.len()
        invariant
            lo <= hi <= s@.len(),
            hi - lo == w@.len(),
            0 <= i <= w@.len(),
            forall|j: int| 0 <= j < w@.len() ==> 'a' <= #[trigger] w@[j] <= 'z',
            forall|j: int| 0 <= j < i ==> same_letter(s@[lo + j], w@[j]),
        decreases w@.len() - i,
    {
        let c = s[lo + i];
        let l = w[i];
        if !(c == l || (c as u32) == (l as u32) - 32) {
            return false;
        }
        i = i + 1;
    }
    true
}

/// Whether `s[lo..hi]` is a mantissa.
fn mantissa_range(s: &Vec<char>, lo: usize, hi: usize) -> (r: bool)
    requires
        lo <= hi <= s@.len(),
    ensures
        r == is_mantissa(s@.subrange(lo as int, hi as int)),
{
    let ghost t = s@.subrange(lo as int, hi as int);
    let mut seen_dot = false;
    let mut seen_digit = false;
    let mut dot_at: usize = 0;
    let mut digit_at: usize = 0;
    let mut i: usize = lo;
    while i < hi
        invariant
            lo <= i <= hi <= s@.len(),
            t == s@.subrange(lo as int, hi as int),
            forall|j: int| lo <= j < i ==> is_digit(s@[j]) || s@[j] == '.',
            seen_dot <==> exists|j: int| lo <= j < i && s@[j] == '.',
            seen_dot ==> lo <= dot_at < i && s@[dot_at as int] == '.',
            forall|j: int, k: int| lo <= j < k < i ==> !(s@[j] == '.' && s@[k] == '.'),
            seen_digit ==> lo <= digit_at < i && is_digit(s@[digit_at as int]),
            !seen_digit ==> forall|j: int| lo <= j < i ==> !is_digit(s@[j]),
        decreases hi - i,
    {
        let c = s[i];
        if c == '.' {
            if seen_dot {
                assert(!(t[dot_at - lo] == '.' && t[i - lo] == '.') ==> false);
                return false;
            }
            seen_dot = true;
            dot_at = i;
        } else if char_is_digit(c) {
            seen_digit = true;
            digit_at = i;
        } else {
            assert(!(is_digit(t[i - lo]) || t[i - lo] == '.'));
            return false;
        }
        i = i + 1;
    }
    if seen_digit {
        assert(is_digit(t[digit_at - lo]));
        true
    } else {
        false
    }
}

/// Whether `s[lo..hi]` is an exponent: an optional sign and one or more digits.
fn exponent_range(s: &Vec<char>, lo: usize, hi: usize) -> (r: bool)
    requires
        lo <= hi <= s@.len(),
    ensures
        r == is_exponent(s@.subrange(lo as int, hi as int)),
{
    let ghost t = s@.subrange(lo as int, hi as int);
    let start: usize = if lo < hi && (s[lo] == '+' || s[lo] == '-') {
        lo + 1
    } else {
        lo
    };
    assert(unsigned_part(t) =~= s@.subrange(start as int, hi as int));
    if start == hi {
        return false;
    }
    let mut i: usize = start;
    while i < hi
        invariant
            start <= i <= hi <= s@.len(),
            t == s@.subrange(lo as int, hi as int),
            unsigned_part(t) =~= s@.subrange(start as int, hi as int),
            forall|j: int| start <= j < i ==> is_digit(s@[j]),
        decreases hi - i,
    {
        if !char_is_digit(s[i]) {
            proof {
                let d = unsigned_part(t);
                assert(d[i - start] == s@[i as int]);
                assert(!is_digit(d[i - start]));
            }
            return false;
        }
        i = i + 1;
    }
    true
}

/// Whether `s` is the text of a floating-point number.
pub fn is_float_literal(s: &Vec<char>) -> (r: bool)
    ensures
        r == is_float_text(s@),
{
    let n = s.len();
    let lo: usize = if n > 0 && (s[0] == '+' || s[0] == '-') {
        1
    } else {
        0
    };
    let ghost u = unsigned_part(s@);
    assert(u =~= s@.subrange(lo as int, n as int));
    let inf: [char; 3] = ['i', 'n', 'f'];
    let infinity: [char; 8] = ['i', 'n', 'f', 'i', 'n', 'i', 't', 'y'];
    let nan: [char; 3] = ['n', 'a', 'n'];
    assert(inf@ =~= seq!['i', 'n', 'f']);
    assert(infinity@ =~= seq!['i', 'n', 'f', 'i', 'n', 'i', 't', 'y']);
    assert(nan@ =~= seq!['n', 'a', 'n']);
    if spells_range(s, lo, n, &inf) || spells_range(s, lo, n, &infinity) || spells_range(
        s,
        lo,
        n,
        &nan,
    ) {
        return true;
    }
    // The exponent starts at the first `e`; a mantissa holds none.
    let mut p: usize = lo;
    while p < n && !(s[p] == 'e' || s[p] == 'E')
        invariant
            lo <= p <= n == s@.len(),
            forall|j: int| lo <= j < p ==> !is_exp_marker(s@[j]),
        decreases n - p,
    {
        p = p + 1;
    }
    if p == n {
        let r = mantissa_range(s, lo, n);
        proof {
            if !r {
                assert forall|q: int|
                    0 <= q < u.len() && #[trigger] is_exp_marker(u[q]) implies !is_mantissa(
                    u.take(q),
                ) || !is_exponent(u.skip(q + 1)) by {
                    assert(u[q] == s@[lo + q]);
                }
            }
        }
        r
    } else {
        let m = mantissa_range(s, lo, p);
        let e = exponent_range(s, p + 1, n);
        proof {
            let pp = (p - lo) as int;
            assert(u.take(pp) =~= s@.subrange(lo as int, p as int));
            assert(u.skip(pp + 1) =~= s@.subrange(p + 1, n as int));
            assert(is_exp_marker(u[pp]));
            assert(!is_mantissa(u)) by {
                assert(!(is_digit(u[pp]) || u[pp] == '.'));
            }
            assert forall|q: int|
                0 <= q < u.len() && #[trigger] is_exp_marker(u[q]) && q != pp implies !is_mantissa(
                u.take(q),
            ) by {
                if q > pp {
                    assert(u.take(q)[pp] == u[pp]);
                } else {
                    assert(u[q] == s@[lo + q]);
                }
            }
        }
        m && e
    }
}

/// Parses the text of an unsigned 8-bit integer.
pub fn parse_u8(s: &Vec<char>) -> (r: Option<u8>)
    ensures
        r == u8_of_text(s@),
{
    let n = s.len();
    let lo: usize = if n > 0 && s[0] == '+' {
        1
    } else {
        0
    };
    let ghost d = without_plus(s@);
    assert(d =~= s@.subrange(lo as int, n as int));
    if lo == n {
        return None;
    }
    let mut value: u32 = 0;
    let mut i: usize = lo;
    while i < n
        invariant
            lo < n == s@.len(),
            lo <= i <= n,
            d == without_plus(s@),
            d =~= s@.subrange(lo as int, n as int),
            forall|j: int| lo <= j < i ==> is_digit(s@[j]),
            value == digits_value(s@.subrange(lo as int, i as int)),
            value <= 255,
        decreases n - i,
    {
        let c = s[i];
        if !char_is_digit(c) {
            assert(d[i - lo] == s@[i as int]);
            assert(!is_digit(d[i - lo]));
            assert(!all_digits(d));
            return None;
        }
        assert(s@.subrange(lo as int, i + 1).drop_last() =~= s@.subrange(lo as int, i as int));
        let next: u32 = value * 10 + ((c as u32) - ('0' as u32));
        if next > 255 {
            proof {
                assert(d.take(i + 1 - lo) =~= s@.subrange(lo as int, i + 1));
                if all_digits(d) {
                    lemma_digits_value_grows(d, (i + 1 - lo) as int);
                    assert(digits_value(d) > 255);
                }
                assert(u8_of_text(s@) is None);
            }
            return None;
        }
        value = next;
        i = i + 1;
    }
    Some(value as u8)
}

/// The value of a prefix of digits never exceeds the value of the whole.
proof fn lemma_digits_value_grows(d: Seq<char>, k: int)
    requires
        0 <= k <= d.len(),
        forall|i: int| 0 <= i < d.len() ==> is_digit(d[i]),
    ensures
        digits_value(d.take(k)) <= digits_value(d),
    decreases d.len() - k,
{
    if k < d.len() {
        lemma_digits_value_grows(d, k + 1);
        assert(d.take(k + 1).drop_last() =~= d.take(k));
    } else {
        assert(d.take(k) =~= d);
    }
}

} // verus!
