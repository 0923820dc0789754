//! Implicit typing of plain scalars, checked against `resolve_spec`.
use vstd::prelude::*;
use crate::charseq::{
    all_digits, copy_range, decimal_value, digit_value, find_first, lemma_split_nonempty, pieces,
    split_char, split_on, unsigned_digits,
};
use crate::node::ScalarValue;
use crate::resolve_spec::{
    all_radix_digits, digit_run, exponent_ok, false_word_11, false_word_12, float_scalar,
    float_syntax, null_word, number_syntax, parse_int, parse_radix, radix_digit, radix_value,
    resolve_model, same_letter, sexagesimal_groups_ok, sexagesimal_int, sexagesimal_total,
    signed_value, strip_commas, timestamp_like, true_word_11, true_word_12, word_ci,
};
use crate::text::{chars_are, chars_of, is_ascii_digit, string_from_chars, trim_chars, trimmed};
use crate::version::YamlVersion;

verus! {

proof fn lemma_radix_value_mono(d: Seq<char>, radix: nat, k: int)
    requires
        0 <= k <= d.len(),
        radix >= 1,
    ensures
        radix_value(d.take(k), radix) <= radix_value(d, radix),
    decreases d.len() - k,
{
    if k < d.len() {
        lemma_radix_value_mono(d, radix, k + 1);
        assert(d.take(k + 1).drop_last() =~= d.take(k));
        let v = radix_value(d.take(k), radix);
        assert(v * radix >= v) by (nonlinear_arith)
            requires
                radix >= 1,
        ;
    } else {
        assert(d.take(k) =~= d);
    }
}

/// The value of an ASCII digit.
fn digit_of(c: char) -> (r: u32)
    requires
        '0' <= c <= '9',
    ensures
        r == digit_value(c),
        r < 10,
{
    if c == '0' {
        0
    } else if c == '1' {
        1
    } else if c == '2' {
        2
    } else if c == '3' {
        3
    } else if c == '4' {
        4
    } else if c == '5' {
        5
    } else if c == '6' {
        6
    } else if c == '7' {
        7
    } else if c == '8' {
        8
    } else {
        9
    }
}

/// Whether `c` is a digit of base `radix`.
fn is_radix_digit(c: char, radix: u32) -> (r: bool)
    requires
        radix <= 10,
    ensures
        r == radix_digit(c, radix as nat),
{
    '0' <= c && c <= '9' && digit_of(c) < radix
}

/// Reads an unsigned number in base `radix` as `u64::from_str_radix` does.
fn parse_u64_radix(s: &Vec<char>, radix: u64) -> (r: Option<u64>)
    requires
        2 <= radix <= 10,
    ensures
        match r {
            Some(v) => parse_radix(s@, radix as nat, u64::MAX as nat) == Some(v as nat),
            None => parse_radix(s@, radix as nat, u64::MAX as nat) is None,
        },
{
    let start: usize = if s.len() > 0 && s[0] == '+' {
        1
    } else {
        0
    };
    let ghost d = unsigned_digits(s@);
    assert(d =~= s@.skip(start as int));
    if start >= s.len() {
        assert(d.len() == 0);
        return None;
    }
    let mut acc: u64 = 0;
    let mut i = start;
    assert(d.take(0) =~= Seq::<char>::empty());
    while i < s.len()
        invariant
            2 <= radix <= 10,
            start <= i <= s@.len(),
            d == s@.skip(start as int),
            d == unsigned_digits(s@),
            d.len() > 0,
            all_radix_digits(d.take(i - start), radix as nat),
            acc == radix_value(d.take(i - start), radix as nat),
        decreases s@.len() - i,
    {
        let c = s[i];
        let ghost k = (i - start) as int;
        assert(d[k] == c);
        if !is_radix_digit(c, radix as u32) {
            assert(!radix_digit(d[k], radix as nat));
            return None;
        }
        let dv: u64 = digit_of(c) as u64;
        proof {
            assert(d.take(k + 1).drop_last() =~= d.take(k));
            assert(d.take(k + 1).last() == c);
            lemma_radix_value_mono(d, radix as nat, k + 1);
        }
        match acc.checked_mul(radix) {
            None => {
                assert(radix_value(d.take(k + 1), radix as nat) >= acc * radix) by (nonlinear_arith)
                    requires
                        radix_value(d.take(k + 1), radix as nat) == acc * radix + (dv as nat),
                ;
                return None;
            },
            Some(m) => match m.checked_add(dv) {
                None => {
                    return None;
                },
                Some(a) => {
                    acc = a;
                },
            },
        }
        i = i + 1;
        assert(all_radix_digits(d.take(i - start), radix as nat));
    }
    assert(d.take(i - start) =~= d);
    Some(acc)
}

/// A magnitude with a sign as `i64`, including `-2^63`.
pub fn to_signed(value: u64, negative: bool) -> (r: Option<i64>)
    ensures
        match r {
            Some(v) => signed_value(value as nat, negative) == Some(v as int),
            None => signed_value(value as nat, negative) is None,
        },
{
    if negative {
        if value == 0x8000_0000_0000_0000u64 {
            Some(i64::MIN)
        } else if value <= 0x7fff_ffff_ffff_ffffu64 {
            Some(-(value as i64))
        } else {
            None
        }
    } else if value <= 0x7fff_ffff_ffff_ffffu64 {
        Some(value as i64)
    } else {
        None
    }
}

fn all_radix_exec(s: &Vec<char>, radix: u32) -> (r: bool)
    requires
        radix <= 10,
    ensures
        r == all_radix_digits(s@, radix as nat),
{
    let mut i: usize = 0;
    while i < s.len()
        invariant
            radix <= 10,
            i <= s@.len(),
            forall|k: int| 0 <= k < i ==> radix_digit(#[trigger] s@[k], radix as nat),
        decreases s@.len() - i,
    {
        let c = s[i];
        if !is_radix_digit(c, radix) {
            return false;
        }
        i = i + 1;
    }
    true
}

/// Reads a YAML integer as `parse_int` describes.
pub fn parse_int_exec(t: &Vec<char>, version: YamlVersion) -> (r: Option<i64>)
    ensures
        match r {
            Some(v) => parse_int(t@, version) == Some(v as int),
            None => parse_int(t@, version) is None,
        },
{
    let negative = t.len() > 0 && t[0] == '-';
    let signed = negative || (t.len() > 0 && t[0] == '+');
    let digits = if signed {
        copy_range(t, 1, t.len())
    } else {
        copy_range(t, 0, t.len())
    };
    assert(digits@ =~= (if signed {
        t@.drop_first()
    } else {
        t@
    }));
    if digits.len() > 1 && digits[0] == '0' {
        let rest = copy_range(&digits, 1, digits.len());
        assert(rest@ =~= digits@.drop_first());
        if version == YamlVersion::Version12 && digits[1] == 'o' {
            let oct = copy_range(&digits, 2, digits.len());
            assert(oct@ =~= digits@.skip(2));
            return match parse_u64_radix(&oct, 8) {
                Some(v) => to_signed(v, negative),
                None => None,
            };
        }
        if version == YamlVersion::Version11 && all_radix_exec(&rest, 8) {
            return match parse_u64_radix(&rest, 8) {
                Some(v) => to_signed(v, negative),
                None => None,
            };
        }
        return None;
    }
    if all_radix_exec(&digits, 10) {
        assert(crate::charseq::all_digits(digits@) == all_radix_digits(digits@, 10));
        match parse_u64_radix(&digits, 10) {
            Some(v) => to_signed(v, negative),
            None => None,
        }
    } else {
        assert(crate::charseq::all_digits(digits@) == all_radix_digits(digits@, 10));
        None
    }
}

/// Whether `t` has a character equal to `a` or `b`.
fn has_char(t: &Vec<char>, a: char, b: char) -> (r: bool)
    ensures
        r == (crate::charseq::first_of(t@, a, b) < t@.len()),
        crate::charseq::first_of(t@, a, b) <= t@.len(),
{
    find_first(t, a, b) < t.len()
}

proof fn lemma_decimal_is_radix(d: Seq<char>)
    ensures
        decimal_value(d) == radix_value(d, 10),
    decreases d.len(),
{
    if d.len() > 0 {
        lemma_decimal_is_radix(d.drop_last());
    }
}

/// Reads a YAML 1.1 sexagesimal integer as `sexagesimal_int` describes.
pub fn parse_sexagesimal_int(t: &Vec<char>) -> (r: Option<i64>)
    ensures
        match r {
            Some(v) => sexagesimal_int(t@) == Some(v as int),
            None => sexagesimal_int(t@) is None,
        },
{
    if !has_char(t, ':', ':') || has_char(t, '.', 'e') || has_char(t, 'E', 'E') {
        return None;
    }
    let negative = t.len() > 0 && t[0] == '-';
    let rest = if negative || (t.len() > 0 && t[0] == '+') {
        copy_range(t, 1, t.len())
    } else {
        copy_range(t, 0, t.len())
    };
    assert(rest@ =~= (if negative || (t@.len() > 0 && t@[0] == '+') {
        t@.drop_first()
    } else {
        t@
    }));
    let parts = split_on(&rest, ':');
    let ghost ps = split_char(rest@, ':');
    if parts.len() < 2 {
        return None;
    }
    let mut value: i64 = 0;
    let mut k: usize = 0;
    assert(ps.take(0) =~= Seq::<Seq<char>>::empty());
    while k < parts.len()
        invariant
            pieces(parts@) == ps,
            ps == split_char(rest@, ':'),
            ps.len() >= 2,
            negative == (t@.len() > 0 && t@[0] == '-'),
            rest@ == (if negative || (t@.len() > 0 && t@[0] == '+') {
                t@.drop_first()
            } else {
                t@
            }),
            crate::charseq::first_of(t@, ':', ':') < t@.len(),
            !(crate::charseq::first_of(t@, '.', 'e') < t@.len()),
            !(crate::charseq::first_of(t@, 'E', 'E') < t@.len()),
            k <= parts@.len(),
            sexagesimal_groups_ok(ps.take(k as int)),
            value == sexagesimal_total(ps.take(k as int)),
        decreases parts@.len() - k,
    {
        let part = &parts[k];
        assert(part@ == ps[k as int]);
        if part.len() == 0 || !all_radix_exec(part, 10) {
            assert(!sexagesimal_groups_ok(ps)) by {
                assert(crate::charseq::all_digits(ps[k as int]) == all_radix_digits(ps[k as int], 10));
            }
            return None;
        }
        proof {
            lemma_decimal_is_radix(part@);
        }
        let d = match parse_u64_radix(part, 10) {
            Some(d) => d,
            None => {
                // the group alone exceeds u64, so the total exceeds i64
                proof {
                    lemma_total_ge_group(ps, k as int);
                }
                return None;
            },
        };
        if k > 0 && d >= 60 {
            assert(!sexagesimal_groups_ok(ps)) by {
                assert(ps[k as int] == part@);
            }
            return None;
        }
        proof {
            assert(ps.take(k + 1).drop_last() =~= ps.take(k as int));
            assert(ps.take(k + 1).last() == ps[k as int]);
            lemma_total_mono(ps, k + 1);
            assert(sexagesimal_groups_ok(ps.take(k + 1))) by {
                assert forall|j: int| 0 <= j < k + 1 implies (#[trigger] ps.take(k + 1)[j]).len() > 0
                    && crate::charseq::all_digits(ps.take(k + 1)[j]) && (j > 0 ==> decimal_value(
                    ps.take(k + 1)[j],
                ) < 60) by {
                    if j < k {
                        assert(ps.take(k + 1)[j] == ps.take(k as int)[j]);
                    } else {
                        assert(crate::charseq::all_digits(ps[k as int]) == all_radix_digits(ps[k as int], 10));
                    }
                }
            }
        }
        if value > 0x7fff_ffff_ffff_ffffi64 / 60 {
            proof {
                assert(sexagesimal_total(ps.take(k + 1)) > 0x7fff_ffff_ffff_ffff) by (nonlinear_arith)
                    requires
                        sexagesimal_total(ps.take(k + 1)) == value * 60 + (d as nat),
                        value > 0x7fff_ffff_ffff_ffffi64 / 60,
                ;
            }
            return None;
        }
        let m = value * 60;
        if d > (0x7fff_ffff_ffff_ffffi64 - m) as u64 {
            assert(sexagesimal_total(ps.take(k + 1)) == m + (d as nat));
            return None;
        }
        value = m + (d as i64);
        k = k + 1;
    }
    assert(ps.take(parts@.len() as int) =~= ps);
    if negative {
        Some(-value)
    } else {
        Some(value)
    }
}

proof fn lemma_total_mono(ps: Seq<Seq<char>>, k: int)
    requires
        0 <= k <= ps.len(),
    ensures
        sexagesimal_total(ps.take(k)) <= sexagesimal_total(ps),
    decreases ps.len() - k,
{
    if k < ps.len() {
        lemma_total_mono(ps, k + 1);
        assert(ps.take(k + 1).drop_last() =~= ps.take(k));
    } else {
        assert(ps.take(k) =~= ps);
    }
}

proof fn lemma_total_ge_group(ps: Seq<Seq<char>>, k: int)
    requires
        0 <= k < ps.len(),
    ensures
        sexagesimal_total(ps) >= decimal_value(ps[k]),
{
    lemma_total_mono(ps, k + 1);
    assert(ps.take(k + 1).drop_last() =~= ps.take(k));
    assert(ps.take(k + 1).last() == ps[k]);
}

/// Length of the digit run of `s` from `k`.
fn digit_run_exec(s: &Vec<char>, k: usize) -> (r: usize)
    requires
        k <= s@.len(),
    ensures
        r == digit_run(s@, k as int),
        k + r <= s@.len(),
{
    let mut i = k;
    while i < s.len() && is_ascii_digit(s[i])
        invariant
            k <= i <= s@.len(),
            digit_run(s@, k as int) == (i - k) + digit_run(s@, i as int),
        decreases s@.len() - i,
    {
        i = i + 1;
    }
    i - k
}

/// Whether the characters of `s` from `start` spell `word` (lower case) in any letter case;
/// `upper` is `word` in upper case.
fn word_ci_exec(s: &Vec<char>, start: usize, word: &str, upper: &str) -> (r: bool)
    requires
        start <= s@.len(),
        word@.len() == upper@.len(),
        forall|k: int| 0 <= k < word@.len() ==> 'a' <= #[trigger] word@[k] <= 'z',
        forall|k: int|
            0 <= k < word@.len() ==> (#[trigger] upper@[k]) as int + 32 == word@[k] as int,
    ensures
        r == word_ci(s@.skip(start as int), word@),
{
    let w = chars_of(word);
    let u = chars_of(upper);
    let sl = s.len();
    if s.len() - start != w.len() {
        return false;
    }
    let mut i: usize = 0;
    while i < w.len()
        invariant
            sl == s@.len(),
            u@ == upper@,
            w@.len() == u@.len(),
            forall|k: int| 0 <= k < w@.len() ==> 'a' <= #[trigger] w@[k] <= 'z',
            forall|k: int| 0 <= k < w@.len() ==> (#[trigger] u@[k]) as int + 32 == w@[k] as int,
            start <= s@.len(),
            s@.len() - start == w@.len(),
            w@ == word@,
            i <= w@.len(),
            forall|k: int| 0 <= k < i ==> same_letter(#[trigger] s@.skip(start as int)[k], w@[k]),
        decreases w@.len() - i,
    {
        let c = s[start + i];
        let x = w[i];
        let y = u[i];
        assert(s@.skip(start as int)[i as int] == c);
        assert(u@[i as int] as int + 32 == w@[i as int] as int);
        if !(c == x || ('A' <= c && c <= 'Z' && c == y)) {
            return false;
        }
        i = i + 1;
    }
    true
}

/// Whether `s` reads as a double.
pub fn float_syntax_exec(s: &Vec<char>) -> (r: bool)
    ensures
        r == float_syntax(s@),
{
    let start: usize = if s.len() > 0 && (s[0] == '+' || s[0] == '-') {
        1
    } else {
        0
    };
    let body = copy_range(s, start, s.len());
    assert(body@ =~= (if s@.len() > 0 && (s@[0] == '+' || s@[0] == '-') {
        s@.drop_first()
    } else {
        s@
    }));
    assert(body@.skip(0) =~= body@);
    proof {
        reveal_strlit("inf");
        reveal_strlit("INF");
        reveal_strlit("infinity");
        reveal_strlit("INFINITY");
        reveal_strlit("nan");
        reveal_strlit("NAN");
    }
    if word_ci_exec(&body, 0, "inf", "INF") || word_ci_exec(&body, 0, "infinity", "INFINITY")
        || word_ci_exec(&body, 0, "nan", "NAN") {
        return true;
    }
    let n = body.len();
    let a = digit_run_exec(&body, 0);
    let has_dot = a < n && body[a] == '.';
    let f = if has_dot {
        digit_run_exec(&body, a + 1)
    } else {
        0
    };
    let p = if has_dot {
        a + 1 + f
    } else {
        a
    };
    if a + f == 0 {
        return false;
    }
    if p == n {
        return true;
    }
    if !(body[p] == 'e' || body[p] == 'E') {
        return false;
    }
    let q = p + 1;
    let q2 = if q < n && (body[q] == '+' || body[q] == '-') {
        q + 1
    } else {
        q
    };
    let e = digit_run_exec(&body, q2);
    e > 0 && q2 + e == n
}

/// `s` without its commas.
fn strip_commas_exec(s: &Vec<char>) -> (r: Vec<char>)
    ensures
        r@ == strip_commas(s@),
{
    let mut r: Vec<char> = Vec::new();
    let mut i: usize = 0;
    assert(s@.take(0) =~= Seq::<char>::empty());
    while i < s.len()
        invariant
            i <= s@.len(),
            r@ == strip_commas(s@.take(i as int)),
        decreases s@.len() - i,
    {
        assert(s@.take(i + 1).drop_last() =~= s@.take(i as int));
        assert(s@.take(i + 1).last() == s@[i as int]);
        if s[i] != ',' {
            r.push(s[i]);
        }
        i = i + 1;
    }
    assert(s@.take(s@.len() as int) =~= s@);
    r
}

/// Whether `t` is a float scalar as `float_scalar` describes.
pub fn parse_float_exec(t: &Vec<char>) -> (r: bool)
    ensures
        r == float_scalar(t@),
{
    let marked = has_char(t, '.', 'e') || has_char(t, 'E', 'E') || (t.len() > 0 && (t[0] == '+'
        || t[0] == '-'));
    if !marked {
        return false;
    }
    let value = strip_commas_exec(t);
    float_syntax_exec(&value)
}

/// Whether `t` looks like a `YYYY-MM-DD` timestamp.
pub fn looks_like_timestamp(t: &Vec<char>) -> (r: bool)
    ensures
        r == timestamp_like(t@),
{
    if t.len() < 10 || t[4] != '-' || t[7] != '-' {
        return false;
    }
    let mut i: usize = 0;
    while i < t.len()
        invariant
            i <= t@.len(),
            forall|k: int| 0 <= k < i && k != 4 && k != 7 ==> crate::text::ascii_digit(#[trigger] t@[k]),
        decreases t@.len() - i,
    {
        if i != 4 && i != 7 && !is_ascii_digit(t[i]) {
            return false;
        }
        i = i + 1;
    }
    true
}

/// Resolves a plain scalar under `version` as `resolve_model` describes; `sexagesimal_float`
/// tells whether the trimmed text is a YAML 1.1 sexagesimal float.
pub fn resolve_scalar(text: &str, version: YamlVersion, sexagesimal_float: bool) -> (r: ScalarValue)
    ensures
        r@ == resolve_model(text@, version, sexagesimal_float),
{
    let t = trim_chars(&chars_of(text));
    if t.len() == 0 {
        return ScalarValue::Null;
    }
    if version == YamlVersion::Version12 {
        if chars_are(&t, "true") || chars_are(&t, "True") || chars_are(&t, "TRUE") {
            return ScalarValue::Bool(true);
        }
        if chars_are(&t, "false") || chars_are(&t, "False") || chars_are(&t, "FALSE") {
            return ScalarValue::Bool(false);
        }
    } else {
        if chars_are(&t, "y") || chars_are(&t, "Y") || chars_are(&t, "yes") || chars_are(&t, "Yes")
            || chars_are(&t, "YES") || chars_are(&t, "true") || chars_are(&t, "True") || chars_are(
            &t,
            "TRUE",
        ) || chars_are(&t, "on") || chars_are(&t, "On") || chars_are(&t, "ON") {
            return ScalarValue::Bool(true);
        }
        if chars_are(&t, "n") || chars_are(&t, "N") || chars_are(&t, "no") || chars_are(&t, "No")
            || chars_are(&t, "NO") || chars_are(&t, "false") || chars_are(&t, "False")
            || chars_are(&t, "FALSE") || chars_are(&t, "off") || chars_are(&t, "Off") || chars_are(
            &t,
            "OFF",
        ) {
            return ScalarValue::Bool(false);
        }
    }
    if chars_are(&t, "~") || chars_are(&t, "null") || chars_are(&t, "Null") || chars_are(
        &t,
        "NULL",
    ) {
        return ScalarValue::Null;
    }
    if version == YamlVersion::Version11 {
        if let Some(v) = parse_sexagesimal_int(&t) {
            return ScalarValue::Int(v);
        }
        if sexagesimal_float {
            return ScalarValue::Float(string_from_chars(strip_commas_exec(&t).as_slice()));
        }
    }
    if let Some(v) = parse_int_exec(&t, version) {
        return ScalarValue::Int(v);
    }
    if parse_float_exec(&t) {
        return ScalarValue::Float(string_from_chars(strip_commas_exec(&t).as_slice()));
    }
    if looks_like_timestamp(&t) {
        return ScalarValue::Timestamp(string_from_chars(t.as_slice()));
    }
    ScalarValue::String(string_from_chars(t.as_slice()))
}

} // verus!
