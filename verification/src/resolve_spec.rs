//! How a plain scalar's text resolves to a typed value under YAML 1.1 or 1.2.
use vstd::prelude::*;
use crate::charseq::{all_digits, decimal_value, digit_value, first_of, split_char, unsigned_digits};
use crate::text::{ascii_digit, leading_ws, trailing_ws, trimmed, unicode_whitespace};
use crate::version::YamlVersion;

verus! {

/// A resolved scalar by its contents. A float keeps the text it is read from (commas removed,
/// `h:m:s` for a sexagesimal float); its numeric value is that text read as a double.
pub enum ScalarModel {
    Null,
    Bool(bool),
    Int(int),
    Float(Seq<char>),
    Str(Seq<char>),
    Timestamp(Seq<char>),
}

pub open spec fn radix_digit(c: char, radix: nat) -> bool {
    '0' <= c && (c as int) - ('0' as int) < radix
}

pub open spec fn all_radix_digits(d: Seq<char>, radix: nat) -> bool {
    forall|i: int| 0 <= i < d.len() ==> radix_digit(#[trigger] d[i], radix)
}

/// Value of a digit string in base `radix`.
pub open spec fn radix_value(d: Seq<char>, radix: nat) -> nat
    decreases d.len(),
{
    if d.len() == 0 {
        0
    } else {
        radix_value(d.drop_last(), radix) * radix + digit_value(d.last())
    }
}

/// What `u64::from_str_radix` (or `str::parse` for `radix` 10) gives: an optional `+`, then
/// one or more digits of the radix, with a value of at most `max`.
pub open spec fn parse_radix(s: Seq<char>, radix: nat, max: nat) -> Option<nat> {
    let d = unsigned_digits(s);
    if d.len() > 0 && all_radix_digits(d, radix) && radix_value(d, radix) <= max {
        Some(radix_value(d, radix))
    } else {
        None
    }
}

/// A magnitude with a sign, when the result fits in `i64` (including `-2^63`).
pub open spec fn signed_value(value: nat, negative: bool) -> Option<int> {
    let v: int = if negative {
        -value
    } else {
        value as int
    };
    if i64::MIN <= v <= i64::MAX {
        Some(v)
    } else {
        None
    }
}

pub open spec fn starts_with(s: Seq<char>, p: Seq<char>) -> bool {
    p.len() <= s.len() && s.take(p.len() as int) == p
}

/// A YAML integer: optional sign, then `0o` octal (1.2), `0`-prefixed octal (1.1) or decimal
/// digits; a leading zero followed by anything else is no integer.
pub open spec fn parse_int(t: Seq<char>, version: YamlVersion) -> Option<int> {
    let negative = t.len() > 0 && t[0] == '-';
    let signed = negative || (t.len() > 0 && t[0] == '+');
    let digits = if signed {
        t.drop_first()
    } else {
        t
    };
    if digits.len() > 1 && digits[0] == '0' {
        let rest = digits.drop_first();
        if version == YamlVersion::Version12 && digits[1] == 'o' {
            match parse_radix(digits.skip(2), 8, u64::MAX as nat) {
                Some(v) => signed_value(v, negative),
                None => None,
            }
        } else if version == YamlVersion::Version11 && all_radix_digits(rest, 8) {
            match parse_radix(rest, 8, u64::MAX as nat) {
                Some(v) => signed_value(v, negative),
                None => None,
            }
        } else {
            None
        }
    } else if all_digits(digits) {
        match parse_radix(digits, 10, u64::MAX as nat) {
            Some(v) => signed_value(v, negative),
            None => None,
        }
    } else {
        None
    }
}

/// Value of `h:m:s` digit groups read in base 60.
pub open spec fn sexagesimal_total(parts: Seq<Seq<char>>) -> nat
    decreases parts.len(),
{
    if parts.len() == 0 {
        0
    } else {
        sexagesimal_total(parts.drop_last()) * 60 + decimal_value(parts.last())
    }
}

pub open spec fn sexagesimal_groups_ok(parts: Seq<Seq<char>>) -> bool {
    forall|k: int|
        0 <= k < parts.len() ==> (#[trigger] parts[k]).len() > 0 && all_digits(parts[k]) && (k
            > 0 ==> decimal_value(parts[k]) < 60)
}

/// A YAML 1.1 sexagesimal integer such as `1:20:30` or `-1:30`: at least two groups of digits,
/// every group after the first below 60, no `.`, `e` or `E`, and a value that fits in `i64`.
pub open spec fn sexagesimal_int(t: Seq<char>) -> Option<int> {
    if first_of(t, ':', ':') == t.len() || first_of(t, '.', 'e') < t.len() || first_of(t, 'E', 'E')
        < t.len() {
        None
    } else {
        let negative = t.len() > 0 && t[0] == '-';
        let rest = if negative || (t.len() > 0 && t[0] == '+') {
            t.drop_first()
        } else {
            t
        };
        let parts = split_char(rest, ':');
        if parts.len() >= 2 && sexagesimal_groups_ok(parts) && sexagesimal_total(parts)
            <= i64::MAX {
            Some(
                if negative {
                    -sexagesimal_total(parts)
                } else {
                    sexagesimal_total(parts) as int
                },
            )
        } else {
            None
        }
    }
}

/// Length of the run of ASCII digits of `s` starting at `k`.
pub open spec fn digit_run(s: Seq<char>, k: int) -> int
    decreases s.len() - k,
{
    if k < 0 || k >= s.len() || !ascii_digit(s[k]) {
        0
    } else {
        1 + digit_run(s, k + 1)
    }
}

/// `c` is the lower-case ASCII letter `w`, in either case.
pub open spec fn same_letter(c: char, w: char) -> bool {
    c == w || ('A' <= c <= 'Z' && (c as int) + 32 == w as int)
}

pub open spec fn word_ci(s: Seq<char>, word: Seq<char>) -> bool {
    s.len() == word.len() && forall|i: int| 0 <= i < s.len() ==> same_letter(#[trigger] s[i], word[i])
}

/// `e`/`E`, an optional sign and at least one digit, ending the text.
pub open spec fn exponent_ok(s: Seq<char>, q: int) -> bool {
    let q2 = if q < s.len() && (s[q] == '+' || s[q] == '-') {
        q + 1
    } else {
        q
    };
    let e = digit_run(s, q2);
    e > 0 && q2 + e == s.len()
}

/// `Digit+`, `Digit+ '.' Digit*` or `Digit* '.' Digit+`, then an optional exponent.
pub open spec fn number_syntax(s: Seq<char>) -> bool {
    let a = digit_run(s, 0);
    let has_dot = a < s.len() && s[a] == '.';
    let f = if has_dot {
        digit_run(s, a + 1)
    } else {
        0
    };
    let p = if has_dot {
        a + 1 + f
    } else {
        a
    };
    &&& a + f > 0
    &&& (p == s.len() || (p < s.len() && (s[p] == 'e' || s[p] == 'E') && exponent_ok(s, p + 1)))
}

/// The strings that read as a double (the grammar `f64::from_str` documents): an optional sign,
/// then `inf`, `infinity` or `nan` in any case, or a decimal number.
pub open spec fn float_syntax(s: Seq<char>) -> bool {
    let body = if s.len() > 0 && (s[0] == '+' || s[0] == '-') {
        s.drop_first()
    } else {
        s
    };
    word_ci(body, "inf"@) || word_ci(body, "infinity"@) || word_ci(body, "nan"@) || number_syntax(
        body,
    )
}

/// `s` without its commas.
pub open spec fn strip_commas(s: Seq<char>) -> Seq<char>
    decreases s.len(),
{
    if s.len() == 0 {
        s
    } else if s.last() == ',' {
        strip_commas(s.drop_last())
    } else {
        strip_commas(s.drop_last()).push(s.last())
    }
}

/// A float scalar: it has a `.`, `e` or `E` or starts with a sign, and without its commas it
/// reads as a double.
pub open spec fn float_scalar(t: Seq<char>) -> bool {
    (first_of(t, '.', 'e') < t.len() || first_of(t, 'E', 'E') < t.len() || (t.len() > 0 && (t[0]
        == '+' || t[0] == '-'))) && float_syntax(strip_commas(t))
}

/// `YYYY-MM-DD...`: at least ten characters, `-` at positions 4 and 7, digits elsewhere.
pub open spec fn timestamp_like(t: Seq<char>) -> bool {
    t.len() >= 10 && t[4] == '-' && t[7] == '-' && forall|i: int|
        0 <= i < t.len() && i != 4 && i != 7 ==> ascii_digit(#[trigger] t[i])
}

pub open spec fn true_word_12(t: Seq<char>) -> bool {
    t == "true"@ || t == "True"@ || t == "TRUE"@
}

pub open spec fn false_word_12(t: Seq<char>) -> bool {
    t == "false"@ || t == "False"@ || t == "FALSE"@
}

pub open spec fn true_word_11(t: Seq<char>) -> bool {
    t == "y"@ || t == "Y"@ || t == "yes"@ || t == "Yes"@ || t == "YES"@ || true_word_12(t) || t
        == "on"@ || t == "On"@ || t == "ON"@
}

pub open spec fn false_word_11(t: Seq<char>) -> bool {
    t == "n"@ || t == "N"@ || t == "no"@ || t == "No"@ || t == "NO"@ || false_word_12(t) || t
        == "off"@ || t == "Off"@ || t == "OFF"@
}

pub open spec fn null_word(t: Seq<char>) -> bool {
    t == "~"@ || t == "null"@ || t == "Null"@ || t == "NULL"@
}

/// The value of a plain scalar under `version`, tried in this order: empty is null, booleans,
/// null words, (1.1 only) sexagesimal integers and floats, integers, floats, timestamps, and
/// otherwise the string itself; the text is trimmed first. `sexagesimal_float` tells whether
/// the trimmed text reads as a YAML 1.1 sexagesimal float, a question about double values.
pub open spec fn resolve_model(text: Seq<char>, version: YamlVersion, sexagesimal_float: bool) -> ScalarModel {
    let t = trimmed(text);
    if t.len() == 0 {
        ScalarModel::Null
    } else if version == YamlVersion::Version12 && true_word_12(t) {
        ScalarModel::Bool(true)
    } else if version == YamlVersion::Version12 && false_word_12(t) {
        ScalarModel::Bool(false)
    } else if version == YamlVersion::Version11 && true_word_11(t) {
        ScalarModel::Bool(true)
    } else if version == YamlVersion::Version11 && false_word_11(t) {
        ScalarModel::Bool(false)
    } else if null_word(t) {
        ScalarModel::Null
    } else if version == YamlVersion::Version11 && sexagesimal_int(t) is Some {
        ScalarModel::Int(sexagesimal_int(t)->0)
    } else if version == YamlVersion::Version11 && sexagesimal_float {
        ScalarModel::Float(strip_commas(t))
    } else if parse_int(t, version) is Some {
        ScalarModel::Int(parse_int(t, version)->0)
    } else if float_scalar(t) {
        ScalarModel::Float(strip_commas(t))
    } else if timestamp_like(t) {
        ScalarModel::Timestamp(t)
    } else {
        ScalarModel::Str(t)
    }
}

/// A word with no whitespace at either end is its own trimmed text.
proof fn lemma_trimmed_word(s: Seq<char>)
    requires
        s.len() > 0,
        !unicode_whitespace(s[0]),
        !unicode_whitespace(s.last()),
    ensures
        trimmed(s) == s,
{
    assert(leading_ws(s) == 0);
    assert(trailing_ws(s) == 0);
    assert(s.subrange(0, s.len() as int) =~= s);
}

/// Under either YAML version, the null words `~`, `null`, `Null`, `NULL` and the empty text
/// resolve to null, whatever is said of sexagesimal floats.
pub proof fn null_words_resolve_to_null(version: YamlVersion, sexagesimal_float: bool)
    ensures
        resolve_model(""@, version, sexagesimal_float) == ScalarModel::Null,
        resolve_model("~"@, version, sexagesimal_float) == ScalarModel::Null,
        resolve_model("null"@, version, sexagesimal_float) == ScalarModel::Null,
        resolve_model("Null"@, version, sexagesimal_float) == ScalarModel::Null,
        resolve_model("NULL"@, version, sexagesimal_float) == ScalarModel::Null,
{
    reveal_strlit("");
    reveal_strlit("~");
    reveal_strlit("null");
    reveal_strlit("Null");
    reveal_strlit("NULL");
    reveal_strlit("true");
    reveal_strlit("True");
    reveal_strlit("TRUE");
    reveal_strlit("false");
    reveal_strlit("False");
    reveal_strlit("FALSE");
    reveal_strlit("y");
    reveal_strlit("Y");
    reveal_strlit("yes");
    reveal_strlit("Yes");
    reveal_strlit("YES");
    reveal_strlit("on");
    reveal_strlit("On");
    reveal_strlit("ON");
    reveal_strlit("n");
    reveal_strlit("N");
    reveal_strlit("no");
    reveal_strlit("No");
    reveal_strlit("NO");
    reveal_strlit("off");
    reveal_strlit("Off");
    reveal_strlit("OFF");
    assert(trimmed(""@) =~= Seq::<char>::empty());
    lemma_trimmed_word("~"@);
    lemma_trimmed_word("null"@);
    lemma_trimmed_word("Null"@);
    lemma_trimmed_word("NULL"@);
    assert(!true_word_11("null"@) && !false_word_11("null"@)) by {
        assert("null"@[0] == 'n' && "null"@[1] == 'u');
    }
    assert(!true_word_11("Null"@) && !false_word_11("Null"@)) by {
        assert("Null"@[0] == 'N' && "Null"@[1] == 'u');
    }
    assert(!true_word_11("NULL"@) && !false_word_11("NULL"@)) by {
        assert("NULL"@[0] == 'N' && "NULL"@[1] == 'U');
    }
    assert(!true_word_11("~"@) && !false_word_11("~"@)) by {
        assert("~"@[0] == '~');
    }
}

/// Under either YAML version, `true`, `True` and `TRUE` resolve to true and `false`, `False`
/// and `FALSE` to false.
pub proof fn bool_words_resolve_to_bools(version: YamlVersion, sexagesimal_float: bool)
    ensures
        resolve_model("true"@, version, sexagesimal_float) == ScalarModel::Bool(true),
        resolve_model("True"@, version, sexagesimal_float) == ScalarModel::Bool(true),
        resolve_model("TRUE"@, version, sexagesimal_float) == ScalarModel::Bool(true),
        resolve_model("false"@, version, sexagesimal_float) == ScalarModel::Bool(false),
        resolve_model("False"@, version, sexagesimal_float) == ScalarModel::Bool(false),
        resolve_model("FALSE"@, version, sexagesimal_float) == ScalarModel::Bool(false),
{
    reveal_strlit("true");
    reveal_strlit("True");
    reveal_strlit("TRUE");
    reveal_strlit("false");
    reveal_strlit("False");
    reveal_strlit("FALSE");
    lemma_trimmed_word("true"@);
    lemma_trimmed_word("True"@);
    lemma_trimmed_word("TRUE"@);
    lemma_trimmed_word("false"@);
    lemma_trimmed_word("False"@);
    lemma_trimmed_word("FALSE"@);
    assert(!true_word_12("false"@) && !true_word_12("False"@) && !true_word_12("FALSE"@)) by {
        assert("false"@.len() == 5 && "False"@.len() == 5 && "FALSE"@.len() == 5);
    }
    assert(!true_word_11("false"@) && !true_word_11("False"@) && !true_word_11("FALSE"@)) by {
        reveal_strlit("y");
        reveal_strlit("Y");
        reveal_strlit("yes");
        reveal_strlit("Yes");
        reveal_strlit("YES");
        reveal_strlit("on");
        reveal_strlit("On");
        reveal_strlit("ON");
        assert("false"@.len() == 5);
    }
}

proof fn lemma_radix_decimal(d: Seq<char>)
    ensures
        radix_value(d, 10) == decimal_value(d),
    decreases d.len(),
{
    if d.len() > 0 {
        lemma_radix_decimal(d.drop_last());
    }
}

proof fn lemma_no_colon(t: Seq<char>)
    requires
        all_digits(t),
    ensures
        first_of(t, ':', ':') == t.len(),
    decreases t.len(),
{
    if t.len() > 0 {
        assert(ascii_digit(t[0]));
        assert forall|i: int| 0 <= i < t.drop_first().len() implies ascii_digit(#[trigger] t.drop_first()[i]) by {
            assert(t.drop_first()[i] == t[i + 1]);
        }
        lemma_no_colon(t.drop_first());
    }
}

/// A decimal numeral (ASCII digits, no leading zero unless it is `0` itself, a value that fits
/// in `i64`) resolves to that integer under either version, unless the caller reports the text
/// as a YAML 1.1 sexagesimal float.
pub proof fn decimal_numerals_resolve_to_ints(t: Seq<char>, version: YamlVersion, sexagesimal_float: bool)
    requires
        t.len() > 0,
        forall|i: int| 0 <= i < t.len() ==> '0' <= #[trigger] t[i] <= '9',
        t.len() == 1 || t[0] != '0',
        decimal_value(t) <= i64::MAX,
        !sexagesimal_float,
    ensures
        resolve_model(t, version, sexagesimal_float) == ScalarModel::Int(decimal_value(t) as int),
{
    assert(all_digits(t));
    lemma_trimmed_word(t);
    reveal_strlit("~");
    reveal_strlit("null");
    reveal_strlit("Null");
    reveal_strlit("NULL");
    reveal_strlit("true");
    reveal_strlit("True");
    reveal_strlit("TRUE");
    reveal_strlit("false");
    reveal_strlit("False");
    reveal_strlit("FALSE");
    reveal_strlit("y");
    reveal_strlit("Y");
    reveal_strlit("yes");
    reveal_strlit("Yes");
    reveal_strlit("YES");
    reveal_strlit("on");
    reveal_strlit("On");
    reveal_strlit("ON");
    reveal_strlit("n");
    reveal_strlit("N");
    reveal_strlit("no");
    reveal_strlit("No");
    reveal_strlit("NO");
    reveal_strlit("off");
    reveal_strlit("Off");
    reveal_strlit("OFF");
    let c = t[0];
    assert('0' <= c <= '9');
    assert(!true_word_11(t) && !false_word_11(t) && !null_word(t)) by {
        if true_word_11(t) || false_word_11(t) || null_word(t) {
            assert(t[0] == 'y' || t[0] == 'Y' || t[0] == 't' || t[0] == 'T' || t[0] == 'o' || t[0] == 'O' || t[0] == 'n'
                || t[0] == 'N' || t[0] == 'f' || t[0] == 'F' || t[0] == '~');
        }
    }
    lemma_no_colon(t);
    lemma_radix_decimal(t);
    assert(unsigned_digits(t) == t);
    assert(all_radix_digits(t, 10));
    assert(parse_int(t, version) == Some(decimal_value(t) as int));
}

/// Under YAML 1.1 the words `y`, `yes`, `on` (in their usual cases) and `true` resolve to true
/// and `n`, `no`, `off` and `false` to false.
pub proof fn yaml11_bool_words(sexagesimal_float: bool)
    ensures
        resolve_model("y"@, YamlVersion::Version11, sexagesimal_float) == ScalarModel::Bool(true),
        resolve_model("yes"@, YamlVersion::Version11, sexagesimal_float) == ScalarModel::Bool(true),
        resolve_model("Yes"@, YamlVersion::Version11, sexagesimal_float) == ScalarModel::Bool(true),
        resolve_model("YES"@, YamlVersion::Version11, sexagesimal_float) == ScalarModel::Bool(true),
        resolve_model("on"@, YamlVersion::Version11, sexagesimal_float) == ScalarModel::Bool(true),
        resolve_model("On"@, YamlVersion::Version11, sexagesimal_float) == ScalarModel::Bool(true),
        resolve_model("ON"@, YamlVersion::Version11, sexagesimal_float) == ScalarModel::Bool(true),
        resolve_model("n"@, YamlVersion::Version11, sexagesimal_float) == ScalarModel::Bool(false),
        resolve_model("no"@, YamlVersion::Version11, sexagesimal_float) == ScalarModel::Bool(false),
        resolve_model("No"@, YamlVersion::Version11, sexagesimal_float) == ScalarModel::Bool(false),
        resolve_model("NO"@, YamlVersion::Version11, sexagesimal_float) == ScalarModel::Bool(false),
        resolve_model("off"@, YamlVersion::Version11, sexagesimal_float) == ScalarModel::Bool(false),
        resolve_model("Off"@, YamlVersion::Version11, sexagesimal_float) == ScalarModel::Bool(false),
        resolve_model("OFF"@, YamlVersion::Version11, sexagesimal_float) == ScalarModel::Bool(false),
{
    reveal_strlit("y");
    reveal_strlit("Y");
    reveal_strlit("yes");
    reveal_strlit("Yes");
    reveal_strlit("YES");
    reveal_strlit("on");
    reveal_strlit("On");
    reveal_strlit("ON");
    reveal_strlit("n");
    reveal_strlit("N");
    reveal_strlit("no");
    reveal_strlit("No");
    reveal_strlit("NO");
    reveal_strlit("off");
    reveal_strlit("Off");
    reveal_strlit("OFF");
    reveal_strlit("true");
    reveal_strlit("True");
    reveal_strlit("TRUE");
    lemma_trimmed_word("y"@);
    lemma_trimmed_word("yes"@);
    lemma_trimmed_word("Yes"@);
    lemma_trimmed_word("YES"@);
    lemma_trimmed_word("on"@);
    lemma_trimmed_word("On"@);
    lemma_trimmed_word("ON"@);
    lemma_trimmed_word("n"@);
    lemma_trimmed_word("no"@);
    lemma_trimmed_word("No"@);
    lemma_trimmed_word("NO"@);
    lemma_trimmed_word("off"@);
    lemma_trimmed_word("Off"@);
    lemma_trimmed_word("OFF"@);
    assert(!true_word_11("n"@) && !true_word_11("no"@) && !true_word_11("No"@) && !true_word_11("NO"@)) by {
        assert("n"@[0] == 'n' && "no"@[0] == 'n' && "No"@[0] == 'N' && "NO"@[0] == 'N');
        assert("no"@[1] == 'o' && "No"@[1] == 'o' && "NO"@[1] == 'O');
        assert("on"@[0] == 'o' && "On"@[0] == 'O' && "ON"@[0] == 'O');
    }
    assert(!true_word_11("off"@) && !true_word_11("Off"@) && !true_word_11("OFF"@)) by {
        assert("off"@[0] == 'o' && "off"@[1] == 'f' && "Off"@[1] == 'f' && "OFF"@[1] == 'F');
        assert("yes"@[0] == 'y' && "Yes"@[0] == 'Y' && "YES"@[0] == 'Y');
    }
}

/// A lower-case word of letters other than the keywords resolves to itself as a string under
/// YAML 1.2; in particular the YAML 1.1 boolean words `yes`, `no`, `on`, `off`, `y` and `n`
/// are plain strings under YAML 1.2.
pub proof fn yaml12_keeps_yaml11_words_as_strings(sexagesimal_float: bool)
    ensures
        resolve_model("yes"@, YamlVersion::Version12, sexagesimal_float) == ScalarModel::Str("yes"@),
        resolve_model("no"@, YamlVersion::Version12, sexagesimal_float) == ScalarModel::Str("no"@),
        resolve_model("on"@, YamlVersion::Version12, sexagesimal_float) == ScalarModel::Str("on"@),
        resolve_model("off"@, YamlVersion::Version12, sexagesimal_float) == ScalarModel::Str("off"@),
        resolve_model("y"@, YamlVersion::Version12, sexagesimal_float) == ScalarModel::Str("y"@),
        resolve_model("n"@, YamlVersion::Version12, sexagesimal_float) == ScalarModel::Str("n"@),
{
    lemma_letters_stay_strings("yes"@, sexagesimal_float);
    lemma_letters_stay_strings("no"@, sexagesimal_float);
    lemma_letters_stay_strings("on"@, sexagesimal_float);
    lemma_letters_stay_strings("off"@, sexagesimal_float);
    lemma_letters_stay_strings("y"@, sexagesimal_float);
    lemma_letters_stay_strings("n"@, sexagesimal_float);
}

/// A short word of lower-case letters that is not `e`-bearing number syntax, not a 1.2
/// keyword, and not `inf` or `nan`, is a string under YAML 1.2.
proof fn lemma_letters_stay_strings(t: Seq<char>, sexagesimal_float: bool)
    requires
        t == "yes"@ || t == "no"@ || t == "on"@ || t == "off"@ || t == "y"@ || t == "n"@,
    ensures
        resolve_model(t, YamlVersion::Version12, sexagesimal_float) == ScalarModel::Str(t),
{
    reveal_strlit("yes");
    reveal_strlit("no");
    reveal_strlit("on");
    reveal_strlit("off");
    reveal_strlit("y");
    reveal_strlit("n");
    reveal_strlit("true");
    reveal_strlit("True");
    reveal_strlit("TRUE");
    reveal_strlit("false");
    reveal_strlit("False");
    reveal_strlit("FALSE");
    reveal_strlit("~");
    reveal_strlit("null");
    reveal_strlit("Null");
    reveal_strlit("NULL");
    reveal_strlit("inf");
    reveal_strlit("infinity");
    reveal_strlit("nan");
    lemma_trimmed_word(t);
    assert(forall|i: int| 0 <= i < t.len() ==> 'a' <= #[trigger] t[i] <= 'z');
    assert(!true_word_12(t) && !false_word_12(t) && !null_word(t)) by {
        if true_word_12(t) || false_word_12(t) || null_word(t) {
            assert(t[0] == 't' || t[0] == 'T' || t[0] == 'f' || t[0] == 'F' || t[0] == '~' || t[0] == 'N' || (t[0]
                == 'n' && t.len() == 4));
        }
    }
    assert(!ascii_digit(t[0]));
    assert(!all_digits(t));
    assert(parse_int(t, YamlVersion::Version12) is None);
    reveal_with_fuel(strip_commas, 4);
    assert(strip_commas(t) =~= t);
    assert(digit_run(t, 0) == 0);
    assert(!number_syntax(t));
    assert(!word_ci(t, "inf"@)) by {
        if t.len() == 3 {
            assert(!same_letter(t[0], 'i'));
        }
    }
    assert(!word_ci(t, "nan"@)) by {
        if t.len() == 3 {
            assert(!same_letter(t[0], 'n'));
        }
    }
    assert(!word_ci(t, "infinity"@));
    assert(!float_syntax(t));
    assert(!float_scalar(t));
    assert(!timestamp_like(t));
}

/// A `-` followed by a decimal numeral (no leading zero unless it is `0`, a magnitude of at
/// most 2^63) resolves to the negated integer under either version, unless the caller reports
/// the text as a YAML 1.1 sexagesimal float.
pub proof fn negative_numerals_resolve_to_negative_ints(d: Seq<char>, version: YamlVersion, sexagesimal_float: bool)
    requires
        d.len() > 0,
        forall|i: int| 0 <= i < d.len() ==> '0' <= #[trigger] d[i] <= '9',
        d.len() == 1 || d[0] != '0',
        decimal_value(d) <= i64::MAX + 1,
        !sexagesimal_float,
    ensures
        resolve_model(seq!['-'] + d, version, sexagesimal_float) == ScalarModel::Int(-(decimal_value(d) as int)),
{
    let t = seq!['-'] + d;
    assert(all_digits(d));
    assert(t[0] == '-');
    assert(t.last() == d.last());
    lemma_trimmed_word(t);
    reveal_strlit("~");
    reveal_strlit("null");
    reveal_strlit("Null");
    reveal_strlit("NULL");
    reveal_strlit("true");
    reveal_strlit("True");
    reveal_strlit("TRUE");
    reveal_strlit("false");
    reveal_strlit("False");
    reveal_strlit("FALSE");
    reveal_strlit("y");
    reveal_strlit("Y");
    reveal_strlit("yes");
    reveal_strlit("Yes");
    reveal_strlit("YES");
    reveal_strlit("on");
    reveal_strlit("On");
    reveal_strlit("ON");
    reveal_strlit("n");
    reveal_strlit("N");
    reveal_strlit("no");
    reveal_strlit("No");
    reveal_strlit("NO");
    reveal_strlit("off");
    reveal_strlit("Off");
    reveal_strlit("OFF");
    assert(!true_word_11(t) && !false_word_11(t) && !null_word(t));
    assert(t.drop_first() =~= d);
    lemma_no_colon(d);
    assert(first_of(t, ':', ':') == t.len());
    lemma_radix_decimal(d);
    assert(unsigned_digits(d) == d);
    assert(all_radix_digits(d, 10));
    assert(parse_int(t, version) == Some(-(decimal_value(d) as int)));
}

} // verus!
