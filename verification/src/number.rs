use vstd::prelude::*;

use crate::text::{chars_of, find_char, index_of, lemma_index_of, slice_chars};

verus! {

/// An ASCII decimal digit.
pub open spec fn is_digit(c: char) -> bool {
    '0' <= c && c <= '9'
}

/// The value of one decimal digit.
pub open spec fn digit_value(c: char) -> int {
    c as int - '0' as int
}

/// Every character of `s` is a decimal digit.
pub open spec fn all_digits(s: Seq<char>) -> bool {
    forall|i: int| 0 <= i < s.len() ==> is_digit(#[trigger] s[i])
}

/// The number that the digits `s` write in base ten, most significant first.
pub open spec fn digits_value(s: Seq<char>) -> int
    decreases s.len(),
{
    if s.len() == 0 {
        0
    } else {
        digits_value(s.drop_last()) * 10 + digit_value(s.last())
    }
}

/// What `str::parse::<i32>` gives for the text `s`: an optional `+` or `-`,
/// then one or more decimal digits whose value, with its sign, fits in an
/// `i32`; anything else (empty text, a lone sign, another character, a value
/// out of range) is refused.
pub open spec fn decimal_i32(s: Seq<char>) -> Option<i32> {
    let negative = s.len() > 0 && s[0] == '-';
    let digits = if s.len() > 0 && (s[0] == '-' || s[0] == '+') {
        s.drop_first()
    } else {
        s
    };
    let value = if negative {
        -digits_value(digits)
    } else {
        digits_value(digits)
    };
    if digits.len() > 0 && all_digits(digits) && i32::MIN <= value <= i32::MAX {
        Some(value as i32)
    } else {
        None
    }
}

/// The value of a run of digits grows as digits are added to it.
pub proof fn lemma_digits_value_prefix(s: Seq<char>, k: int)
    requires
        all_digits(s),
        0 <= k <= s.len(),
    ensures
        0 <= digits_value(s.take(k)) <= digits_value(s),
    decreases s.len(),
{
    if k < s.len() {
        assert(all_digits(s.drop_last()));
        assert(s.drop_last().take(k) =~= s.take(k));
        lemma_digits_value_prefix(s.drop_last(), k);
        assert(is_digit(s[s.len() - 1]));
    } else {
        assert(s.take(k) =~= s);
        if s.len() > 0 {
            assert(all_digits(s.drop_last()));
            lemma_digits_value_prefix(s.drop_last(), k - 1);
            assert(s.drop_last().take(k - 1) =~= s.drop_last());
            assert(is_digit(s[s.len() - 1]));
        }
    }
}

/// Reads a decimal `i32` from `chars`, as `str::parse::<i32>` does.
pub fn parse_i32_chars(chars: &Vec<char>) -> (r: Option<i32>)
    ensures
        r == decimal_i32(chars@),
{
    let n = chars.len();
    let mut i: usize = 0;
    let mut negative = false;
    if n > 0 && (chars[0] == '-' || chars[0] == '+') {
        negative = chars[0] == '-';
        i = 1;
    }
    let ghost digits = if n > 0 && (chars@[0] == '-' || chars@[0] == '+') {
        chars@.drop_first()
    } else {
        chars@
    };
    assert(digits =~= chars@.subrange(i as int, n as int));
    assert(n > 0 ==> negative == (chars@[0] == '-'));
    if i == n {
        return None;
    }
    let start = i;
    let mut acc: i64 = 0;
    while i < n
        invariant
            n == chars@.len(),
            1 <= n,
            start <= i <= n,
            digits == chars@.subrange(start as int, n as int),
            digits == (if n > 0 && (chars@[0] == '-' || chars@[0] == '+') {
                chars@.drop_first()
            } else {
                chars@
            }),
            negative == (chars@[0] == '-'),
            all_digits(digits.take(i - start)),
            acc == digits_value(digits.take(i - start)),
            0 <= acc <= 2147483648,
        decreases n - i,
    {
        let c = chars[i];
        let ghost k = i - start;
        assert(digits[k] == c);
        if !('0' <= c && c <= '9') {
            assert(!all_digits(digits));
            return None;
        }
        let d = (c as u32 - '0' as u32) as i64;
        acc = acc * 10 + d;
        i = i + 1;
        assert(digits.take(k + 1).drop_last() =~= digits.take(k));
        assert(all_digits(digits.take(k + 1))) by {
            assert forall|j: int| 0 <= j < k + 1 implies is_digit(#[trigger] digits.take(k + 1)[j]) by {
                if j < k {
                    assert(digits.take(k + 1)[j] == digits.take(k)[j]);
                }
            }
        }
        if acc > 2147483648 {
            proof {
                if all_digits(digits) {
                    lemma_digits_value_prefix(digits, k + 1);
                }
            }
            return None;
        }
    }
    assert(digits.take(n - start) =~= digits);
    let v: i64 = if negative {
        -acc
    } else {
        acc
    };
    if v > 2147483647 {
        return None;
    }
    Some(v as i32)
}

/// Reads a decimal `i32` from `s`, as `str::parse::<i32>` does.
pub fn parse_i32(s: &str) -> (r: Option<i32>)
    ensures
        r == decimal_i32(s@),
{
    let chars = chars_of(s);
    parse_i32_chars(&chars)
}

/// `s` without one leading `+` or `-`.
pub open spec fn sign_stripped(s: Seq<char>) -> Seq<char> {
    if s.len() > 0 && (s[0] == '+' || s[0] == '-') {
        s.drop_first()
    } else {
        s
    }
}

/// `s` is the word whose lower-case letters are `lower` and upper-case
/// letters `upper`, each letter in either case.
pub open spec fn word_in_any_case(s: Seq<char>, lower: Seq<char>, upper: Seq<char>) -> bool {
    &&& s.len() == lower.len()
    &&& lower.len() == upper.len()
    &&& forall|i: int| 0 <= i < s.len() ==> #[trigger] s[i] == lower[i] || s[i] == upper[i]
}

/// `inf`, `infinity` or `nan`, in any case.
pub open spec fn special_float(s: Seq<char>) -> bool {
    ||| word_in_any_case(s, seq!['i', 'n', 'f'], seq!['I', 'N', 'F'])
    ||| word_in_any_case(
        s,
        seq!['i', 'n', 'f', 'i', 'n', 'i', 't', 'y'],
        seq!['I', 'N', 'F', 'I', 'N', 'I', 'T', 'Y'],
    )
    ||| word_in_any_case(s, seq!['n', 'a', 'n'], seq!['N', 'A', 'N'])
}

/// An exponent marker, `e` or `E`.
pub open spec fn is_exp_marker(c: char) -> bool {
    c == 'e' || c == 'E'
}

/// Position of the first exponent marker of `s`.
pub open spec fn exp_index(s: Seq<char>) -> Option<int>
    decreases s.len(),
{
    if s.len() == 0 {
        None
    } else {
        match exp_index(s.drop_last()) {
            Some(k) => Some(k),
            None => if is_exp_marker(s.last()) {
                Some(s.len() - 1)
            } else {
                None
            },
        }
    }
}

/// Digits with at most one `.` among them and at least one digit:
/// `Digit+`, `Digit+ '.' Digit*` or `Digit* '.' Digit+`.
pub open spec fn mantissa_ok(m: Seq<char>) -> bool {
    match index_of(m, '.') {
        None => m.len() > 0 && all_digits(m),
        Some(p) => m.len() >= 2 && all_digits(m.take(p)) && all_digits(m.skip(p + 1)),
    }
}

/// What follows an exponent marker: `Sign? Digit+`.
pub open spec fn exponent_ok(x: Seq<char>) -> bool {
    sign_stripped(x).len() > 0 && all_digits(sign_stripped(x))
}

/// The texts that `str::parse::<f64>` accepts, by the grammar its
/// documentation gives (letters in any case):
/// `Sign? ('inf' | 'infinity' | 'nan' | Number)`, where
/// `Number ::= (Digit+ | Digit+ '.' Digit* | Digit* '.' Digit+) Exp?` and
/// `Exp ::= 'e' Sign? Digit+`.
pub open spec fn float_literal(s: Seq<char>) -> bool {
    let b = sign_stripped(s);
    ||| special_float(b)
    ||| match exp_index(b) {
        None => mantissa_ok(b),
        Some(e) => mantissa_ok(b.take(e)) && exponent_ok(b.skip(e + 1)),
    }
}

proof fn lemma_exp_index(s: Seq<char>)
    ensures
        exp_index(s) matches Some(k) ==> 0 <= k < s.len() && is_exp_marker(s[k]) && forall|j: int|
            0 <= j < k ==> !is_exp_marker(s[j]),
        exp_index(s) is None ==> forall|j: int| 0 <= j < s.len() ==> !is_exp_marker(s[j]),
    decreases s.len(),
{
    if s.len() > 0 {
        lemma_exp_index(s.drop_last());
        assert forall|j: int| 0 <= j < s.len() - 1 implies s[j] == s.drop_last()[j] by {}
    }
}

/// Whether every character is a decimal digit.
fn digits_only(v: &Vec<char>) -> (b: bool)
    ensures
        b == all_digits(v@),
{
    let n = v.len();
    let mut i: usize = 0;
    while i < n
        invariant
            n == v@.len(),
            i <= n,
            forall|j: int| 0 <= j < i ==> is_digit(#[trigger] v@[j]),
        decreases n - i,
    {
        if !('0' <= v[i] && v[i] <= '9') {
            assert(!is_digit(v@[i as int]));
            return false;
        }
        i = i + 1;
    }
    true
}

/// Whether `v` is the word `lower`/`upper` in any case.
fn is_word_in_any_case(v: &Vec<char>, lower: &Vec<char>, upper: &Vec<char>) -> (b: bool)
    ensures
        b == word_in_any_case(v@, lower@, upper@),
{
    let n = v.len();
    if n != lower.len() || n != upper.len() {
        return false;
    }
    let mut i: usize = 0;
    while i < n
        invariant
            n == v@.len(),
            n == lower@.len(),
            n == upper@.len(),
            i <= n,
            forall|j: int| 0 <= j < i ==> #[trigger] v@[j] == lower@[j] || v@[j] == upper@[j],
        decreases n - i,
    {
        if v[i] != lower[i] && v[i] != upper[i] {
            return false;
        }
        i = i + 1;
    }
    true
}

/// Position of the first exponent marker in `v`.
fn find_exp_marker(v: &Vec<char>) -> (r: Option<usize>)
    ensures
        r is None <==> exp_index(v@) is None,
        r matches Some(i) ==> exp_index(v@) == Some(i as int),
{
    proof {
        lemma_exp_index(v@);
    }
    let n = v.len();
    let mut i: usize = 0;
    while i < n
        invariant
            n == v@.len(),
            i <= n,
            forall|j: int| 0 <= j < i ==> !is_exp_marker(#[trigger] v@[j]),
            exp_index(v@) matches Some(k) ==> 0 <= k < v@.len() && is_exp_marker(v@[k])
                && forall|j: int| 0 <= j < k ==> !is_exp_marker(v@[j]),
            exp_index(v@) is None ==> forall|j: int| 0 <= j < v@.len() ==> !is_exp_marker(v@[j]),
        decreases n - i,
    {
        if v[i] == 'e' || v[i] == 'E' {
            proof {
                if let Some(k) = exp_index(v@) {
                    if k < i {
                        assert(!is_exp_marker(v@[k]));
                    }
                    if k > i {
                        assert(!is_exp_marker(v@[i as int]));
                    }
                } else {
                    assert(!is_exp_marker(v@[i as int]));
                }
            }
            return Some(i);
        }
        i = i + 1;
    }
    proof {
        if let Some(k) = exp_index(v@) {
            assert(!is_exp_marker(v@[k]));
        }
    }
    None
}

/// Whether `m` is a mantissa, as `mantissa_ok` says.
fn is_mantissa(m: &Vec<char>) -> (b: bool)
    ensures
        b == mantissa_ok(m@),
{
    let n = m.len();
    match find_char(m, '.') {
        None => n > 0 && digits_only(m),
        Some(p) => {
            proof {
                lemma_index_of(m@, '.');
            }
            if n < 2 {
                return false;
            }
            let int_part = slice_chars(m, 0, p);
            let frac_part = slice_chars(m, p + 1, n);
            assert(int_part@ =~= m@.take(p as int));
            assert(frac_part@ =~= m@.skip(p + 1));
            digits_only(&int_part) && digits_only(&frac_part)
        },
    }
}

/// Whether `x` is what may follow an exponent marker.
fn is_exponent(x: &Vec<char>) -> (b: bool)
    ensures
        b == exponent_ok(x@),
{
    let n = x.len();
    let start: usize = if n > 0 && (x[0] == '+' || x[0] == '-') {
        1
    } else {
        0
    };
    let d = slice_chars(x, start, n);
    assert(d@ =~= sign_stripped(x@));
    d.len() > 0 && digits_only(&d)
}

/// Whether `s` is a text that `str::parse::<f64>` accepts, as
/// `float_literal` says.
pub fn is_float_literal(s: &str) -> (b: bool)
    ensures
        b == float_literal(s@),
{
    let v = chars_of(s);
    let n = v.len();
    let start: usize = if n > 0 && (v[0] == '+' || v[0] == '-') {
        1
    } else {
        0
    };
    let body = slice_chars(&v, start, n);
    assert(body@ =~= sign_stripped(s@));
    let inf_l = vec!['i', 'n', 'f'];
    let inf_u = vec!['I', 'N', 'F'];
    let infinity_l = vec!['i', 'n', 'f', 'i', 'n', 'i', 't', 'y'];
    let infinity_u = vec!['I', 'N', 'F', 'I', 'N', 'I', 'T', 'Y'];
    let nan_l = vec!['n', 'a', 'n'];
    let nan_u = vec!['N', 'A', 'N'];
    assert(inf_l@ =~= seq!['i', 'n', 'f']);
    assert(inf_u@ =~= seq!['I', 'N', 'F']);
    assert(infinity_l@ =~= seq!['i', 'n', 'f', 'i', 'n', 'i', 't', 'y']);
    assert(infinity_u@ =~= seq!['I', 'N', 'F', 'I', 'N', 'I', 'T', 'Y']);
    assert(nan_l@ =~= seq!['n', 'a', 'n']);
    assert(nan_u@ =~= seq!['N', 'A', 'N']);
    let special = is_word_in_any_case(&body, &inf_l, &inf_u) || is_word_in_any_case(
        &body,
        &infinity_l,
        &infinity_u,
    ) || is_word_in_any_case(&body, &nan_l, &nan_u);
    if special {
        return true;
    }
    let bn = body.len();
    match find_exp_marker(&body) {
        None => is_mantissa(&body),
        Some(e) => {
            proof {
                lemma_exp_index(body@);
            }
            let mant = slice_chars(&body, 0, e);
            let exp = slice_chars(&body, e + 1, bn);
            assert(mant@ =~= body@.take(e as int));
            assert(exp@ =~= body@.skip(e + 1));
            is_mantissa(&mant) && is_exponent(&exp)
        },
    }
}

/// Law: numbers written in decimal digits are texts that `str::parse::<f64>`
/// accepts: one or more digits; digits with one `.` among or beside them (at
/// least one digit in all), also with a leading `-`; and digits with an
/// exponent of digits.
pub proof fn lemma_decimals_are_float_literals(a: Seq<char>, b: Seq<char>)
    requires
        forall|i: int| 0 <= i < a.len() ==> '0' <= #[trigger] a[i] && a[i] <= '9',
        forall|i: int| 0 <= i < b.len() ==> '0' <= #[trigger] b[i] && b[i] <= '9',
    ensures
        a.len() > 0 ==> float_literal(a),
        a.len() + b.len() > 0 ==> float_literal(a + seq!['.'] + b),
        a.len() + b.len() > 0 ==> float_literal(seq!['-'] + a + seq!['.'] + b),
        a.len() > 0 && b.len() > 0 ==> float_literal(a + seq!['e'] + b),
{
    assert(all_digits(a));
    assert(all_digits(b));
    if a.len() > 0 {
        lemma_index_of(a, '.');
        lemma_exp_index(a);
        if let Some(k) = index_of(a, '.') {
            assert(is_digit(a[k]));
        }
        if let Some(k) = exp_index(a) {
            assert(is_digit(a[k]));
        }
        assert(sign_stripped(a) == a);
        assert(mantissa_ok(a));
    }
    if a.len() + b.len() > 0 {
        let s = a + seq!['.'] + b;
        lemma_index_of(s, '.');
        lemma_exp_index(s);
        assert(s[a.len() as int] == '.');
        if let Some(k) = index_of(s, '.') {
            if k < a.len() {
                assert(s[k] == a[k]);
                assert(is_digit(a[k]));
            }
        }
        assert forall|j: int| 0 <= j < s.len() implies !is_exp_marker(#[trigger] s[j]) by {
            if j < a.len() {
                assert(s[j] == a[j]);
                assert(is_digit(a[j]));
            } else if j > a.len() {
                assert(s[j] == b[j - a.len() - 1]);
                assert(is_digit(b[j - a.len() - 1]));
            }
        }
        if let Some(k) = exp_index(s) {
            assert(!is_exp_marker(s[k]));
        }
        assert(index_of(s, '.') == Some(a.len() as int));
        assert(s.take(a.len() as int) =~= a);
        assert(s.skip(a.len() + 1int) =~= b);
        if a.len() > 0 {
            assert(s[0] == a[0]);
            assert(is_digit(a[0]));
        }
        assert(sign_stripped(s) == s);
        assert(mantissa_ok(s));
        let t = seq!['-'] + s;
        assert(t.drop_first() =~= s);
        assert(sign_stripped(t) == s);
        assert(t =~= seq!['-'] + a + seq!['.'] + b);
        assert(t[0] == '-');
        assert(float_literal(t));
    }
    if a.len() > 0 && b.len() > 0 {
        let s = a + seq!['e'] + b;
        lemma_exp_index(s);
        lemma_index_of(a, '.');
        assert(s[a.len() as int] == 'e');
        if let Some(k) = exp_index(s) {
            if k < a.len() {
                assert(s[k] == a[k]);
                assert(is_digit(a[k]));
            }
        }
        assert(exp_index(s) == Some(a.len() as int));
        assert(s.take(a.len() as int) =~= a);
        assert(s.skip(a.len() + 1int) =~= b);
        if let Some(k) = index_of(a, '.') {
            assert(is_digit(a[k]));
        }
        assert(s[0] == a[0]);
        assert(is_digit(a[0]));
        assert(sign_stripped(s) == s);
        assert(is_digit(b[0]));
        assert(sign_stripped(b) == b);
    }
}

} // verus!
