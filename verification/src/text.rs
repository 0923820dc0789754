//! Character-level helpers shared by the lexer and the validators.
use vstd::prelude::*;
use vstd::string::StringSliceAdditionalSpecFns;

verus! {

/// The characters of `s`, in order.
pub fn chars_of(s: &str) -> (out: Vec<char>)
    ensures
        out@ == s@,
{
    let mut out: Vec<char> = Vec::new();
    for c in it: s.chars()
        invariant
            out@ == it.seq().take(it.index() as int),
    {
        out.push(c);
    }
    out
}

/// Number of bytes of the UTF-8 encoding of `c` (what `char::len_utf8` returns).
pub open spec fn char_width(c: char) -> nat {
    vstd::utf8::encode_scalar(c as u32).len()
}

pub fn char_len_utf8(c: char) -> (n: usize)
    ensures
        n == char_width(c),
{
    let v = c as u32;
    if v < 0x80 {
        1
    } else if v < 0x800 {
        2
    } else if v < 0x10000 && !(0xD800 <= v && v <= 0xDFFF) {
        3
    } else {
        // a `char` never lies in the surrogate range, so this is the 4-byte case
        4
    }
}

/// UTF-8 byte length of a character sequence.
pub open spec fn byte_len(s: Seq<char>) -> nat
    decreases s.len(),
{
    if s.len() == 0 {
        0
    } else {
        char_width(s[0]) + byte_len(s.drop_first())
    }
}

pub proof fn lemma_byte_len_encode(s: Seq<char>)
    ensures
        byte_len(s) == vstd::utf8::encode_utf8(s).len(),
    decreases s.len(),
{
    if s.len() > 0 {
        lemma_byte_len_encode(s.drop_first());

    }
}

pub proof fn lemma_byte_len_push(s: Seq<char>, c: char)
    ensures
        byte_len(s.push(c)) == byte_len(s) + char_width(c),
    decreases s.len(),
{
    if s.len() > 0 {
        lemma_byte_len_push(s.drop_first(), c);
        assert(s.push(c).drop_first() =~= s.drop_first().push(c));
    } else {
        assert(s.push(c).drop_first() =~= Seq::<char>::empty());
        assert(byte_len(Seq::<char>::empty()) == 0);
        assert(s.push(c)[0] == c);
    }
}

pub proof fn lemma_byte_len_mono(s: Seq<char>, i: int, j: int)
    requires
        0 <= i <= j <= s.len(),
    ensures
        byte_len(s.take(i)) <= byte_len(s.take(j)),
    decreases j - i,
{
    if i < j {
        lemma_byte_len_mono(s, i, j - 1);
        assert(s.take(j) =~= s.take(j - 1).push(s[j - 1]));
        lemma_byte_len_push(s.take(j - 1), s[j - 1]);
    }
}

/// Byte offset of every character position of `s`, plus the total length at the end.
pub fn byte_offsets(s: &str, chars: &Vec<char>) -> (offs: Vec<usize>)
    requires
        chars@ == s@,
    ensures
        offs@.len() == chars@.len() + 1,
        forall|i: int| 0 <= i <= chars@.len() ==> #[trigger] offs@[i] == byte_len(chars@.take(i)),
{
    proof {
        lemma_byte_len_encode(s@);
        assert(s.spec_bytes() == vstd::utf8::encode_utf8(s@));
        assert(chars@.take(chars@.len() as int) =~= chars@);
    }
    let total = s.as_bytes().len();
    let mut offs: Vec<usize> = Vec::new();
    let mut acc: usize = 0;
    let mut i: usize = 0;
    offs.push(0);
    assert(chars@.take(0) =~= Seq::<char>::empty());
    while i < chars.len()
        invariant
            i <= chars@.len(),
            total == byte_len(chars@),
            acc == byte_len(chars@.take(i as int)),
            offs@.len() == i + 1,
            forall|k: int| 0 <= k <= i ==> #[trigger] offs@[k] == byte_len(chars@.take(k)),
        decreases chars@.len() - i,
    {
        let w = char_len_utf8(chars[i]);
        proof {
            assert(chars@.take(i + 1) =~= chars@.take(i as int).push(chars@[i as int]));
            lemma_byte_len_push(chars@.take(i as int), chars@[i as int]);
            lemma_byte_len_mono(chars@, i + 1, chars@.len() as int);
            assert(chars@.take(chars@.len() as int) =~= chars@);
        }
        acc = acc + w;
        i = i + 1;
        offs.push(acc);
    }
    offs
}


/// A character sequence never has more characters than bytes.
pub proof fn lemma_len_le_byte_len(s: Seq<char>)
    ensures
        s.len() <= byte_len(s),
    decreases s.len(),
{
    if s.len() > 0 {
        lemma_len_le_byte_len(s.drop_first());
        lemma_char_width_pos(s[0]);
    }
}

/// Strict growth of byte offsets with the character position.
pub proof fn lemma_byte_len_strict(s: Seq<char>, i: int, j: int)
    requires
        0 <= i < j <= s.len(),
    ensures
        byte_len(s.take(i)) < byte_len(s.take(j)),
    decreases j - i,
{
    lemma_byte_len_mono(s, i, j - 1);
    assert(s.take(j) =~= s.take(j - 1).push(s[j - 1]));
    lemma_byte_len_push(s.take(j - 1), s[j - 1]);
    lemma_char_width_pos(s[j - 1]);
}

pub proof fn lemma_char_width_pos(c: char)
    ensures
        1 <= char_width(c) <= 4,
{
}

/// Number of `'\n'` characters in `s`.
pub open spec fn newline_count(s: Seq<char>) -> nat
    decreases s.len(),
{
    if s.len() == 0 {
        0
    } else {
        (if s.last() == '\n' { 1nat } else { 0nat }) + newline_count(s.drop_last())
    }
}

/// Index just past the last `'\n'` strictly before position `k`, or 0 when there is none.
pub open spec fn line_start_of(s: Seq<char>, k: int) -> int
    decreases k,
{
    if k <= 0 {
        0
    } else if s[k - 1] == '\n' {
        k
    } else {
        line_start_of(s, k - 1)
    }
}

/// Index of the first `'\n'` at or after position `k`, or `s.len()` when there is none.
pub open spec fn line_end_of(s: Seq<char>, k: int) -> int
    decreases s.len() - k,
{
    if k >= s.len() {
        s.len() as int
    } else if s[k] == '\n' {
        k
    } else {
        line_end_of(s, k + 1)
    }
}

pub proof fn lemma_line_start_bounds(s: Seq<char>, k: int)
    requires
        0 <= k <= s.len(),
    ensures
        0 <= line_start_of(s, k) <= k,
    decreases k,
{
    if k > 0 && s[k - 1] != '\n' {
        lemma_line_start_bounds(s, k - 1);
    }
}

pub proof fn lemma_line_end_bounds(s: Seq<char>, k: int)
    requires
        0 <= k <= s.len(),
    ensures
        k <= line_end_of(s, k) <= s.len(),
    decreases s.len() - k,
{
    if k < s.len() && s[k] != '\n' {
        lemma_line_end_bounds(s, k + 1);
    }
}

/// Line start of position `k`, found by scanning backwards.
pub fn find_line_start(s: &Vec<char>, k: usize) -> (r: usize)
    requires
        k <= s@.len(),
    ensures
        r == line_start_of(s@, k as int),
{
    let mut i = k;
    while i > 0 && s[i - 1] != '\n'
        invariant
            i <= k <= s@.len(),
            line_start_of(s@, i as int) == line_start_of(s@, k as int),
        decreases i,
    {
        i = i - 1;
    }
    i
}

/// Line end of position `k`, found by scanning forwards.
pub fn find_line_end(s: &Vec<char>, k: usize) -> (r: usize)
    requires
        k <= s@.len(),
    ensures
        r == line_end_of(s@, k as int),
{
    let mut i = k;
    while i < s.len() && s[i] != '\n'
        invariant
            k <= i <= s@.len(),
            line_end_of(s@, i as int) == line_end_of(s@, k as int),
        decreases s@.len() - i,
    {
        i = i + 1;
    }
    i
}

/// Counts the `'\n'` characters among the first `k`.
pub fn count_newlines(s: &Vec<char>, k: usize) -> (n: usize)
    requires
        k <= s@.len(),
    ensures
        n == newline_count(s@.take(k as int)),
        n <= k,
{
    let mut n: usize = 0;
    let mut i: usize = 0;
    assert(s@.take(0) =~= Seq::<char>::empty());
    while i < k
        invariant
            i <= k <= s@.len(),
            n == newline_count(s@.take(i as int)),
            n <= i,
        decreases k - i,
    {
        assert(s@.take(i + 1).drop_last() =~= s@.take(i as int));
        if s[i] == '\n' {
            n = n + 1;
        }
        i = i + 1;
    }
    n
}

/// A `String` holding exactly the given characters.
#[verifier::external_body]
pub fn string_from_chars(v: &[char]) -> (s: String)
    ensures
        s@ == v@,
{
    v.iter().collect()
}

/// The Unicode `White_Space` property, which `char::is_whitespace` tests: U+0009 to U+000D,
/// U+0020, U+0085, U+00A0, U+1680, U+2000 to U+200A, U+2028, U+2029, U+202F, U+205F and U+3000.
pub open spec fn unicode_whitespace(c: char) -> bool {
    ('\u{9}' <= c && c <= '\u{d}') || c == ' ' || c == '\u{85}' || c == '\u{a0}' || c
        == '\u{1680}' || ('\u{2000}' <= c && c <= '\u{200a}') || c == '\u{2028}' || c
        == '\u{2029}' || c == '\u{202f}' || c == '\u{205f}' || c == '\u{3000}'
}

/// `char::is_alphanumeric`: the Unicode `Alphabetic` or `Numeric` property.
pub uninterp spec fn unicode_alphanumeric(c: char) -> bool;

/// Whether `c` is Unicode whitespace (what `char::is_whitespace` answers).
pub fn is_whitespace(c: char) -> (b: bool)
    ensures
        b == unicode_whitespace(c),
{
    ('\u{9}' <= c && c <= '\u{d}') || c == ' ' || c == '\u{85}' || c == '\u{a0}' || c
        == '\u{1680}' || ('\u{2000}' <= c && c <= '\u{200a}') || c == '\u{2028}' || c
        == '\u{2029}' || c == '\u{202f}' || c == '\u{205f}' || c == '\u{3000}'
}

/// Calls `char::is_alphanumeric`; the result is named by `unicode_alphanumeric`.
#[verifier::external_body]
pub fn is_alphanumeric(c: char) -> (b: bool)
    ensures
        b == unicode_alphanumeric(c),
{
    c.is_alphanumeric()
}

/// Number of whitespace characters at the start of `s`.
pub open spec fn leading_ws(s: Seq<char>) -> int
    decreases s.len(),
{
    if s.len() == 0 {
        0
    } else if unicode_whitespace(s[0]) {
        1 + leading_ws(s.drop_first())
    } else {
        0
    }
}

/// Number of whitespace characters at the end of `s`.
pub open spec fn trailing_ws(s: Seq<char>) -> int
    decreases s.len(),
{
    if s.len() == 0 {
        0
    } else if unicode_whitespace(s.last()) {
        1 + trailing_ws(s.drop_last())
    } else {
        0
    }
}

/// `s` without leading and trailing whitespace, as `str::trim` leaves it.
pub open spec fn trimmed(s: Seq<char>) -> Seq<char> {
    if leading_ws(s) >= s.len() {
        Seq::empty()
    } else {
        s.subrange(leading_ws(s), s.len() - trailing_ws(s))
    }
}

proof fn lemma_trailing_ws_bound(s: Seq<char>)
    ensures
        0 <= trailing_ws(s) <= s.len(),
    decreases s.len(),
{
    if s.len() > 0 {
        lemma_trailing_ws_bound(s.drop_last());
    }
}

/// The characters of `s` without leading and trailing whitespace.
pub fn trim_chars(s: &Vec<char>) -> (r: Vec<char>)
    ensures
        r@ == trimmed(s@),
{
    let mut lo: usize = 0;
    assert(s@.skip(0) =~= s@);
    while lo < s.len() && is_whitespace(s[lo])
        invariant
            lo <= s@.len(),
            leading_ws(s@) == lo + leading_ws(s@.skip(lo as int)),
        decreases s@.len() - lo,
    {
        assert(s@.skip(lo as int).drop_first() =~= s@.skip(lo + 1));
        lo = lo + 1;
    }
    if lo == s.len() {
        assert(s@.skip(lo as int).len() == 0);
        return Vec::new();
    }
    assert(s@.skip(lo as int)[0] == s@[lo as int]);
    assert(leading_ws(s@) == lo);
    let mut hi: usize = s.len();
    assert(s@.take(hi as int) =~= s@);
    while hi > lo && is_whitespace(s[hi - 1])
        invariant
            lo < s@.len(),
            lo < hi <= s@.len(),
            !unicode_whitespace(s@[lo as int]),
            trailing_ws(s@) == (s@.len() - hi) + trailing_ws(s@.take(hi as int)),
        decreases hi,
    {
        assert(s@.take(hi as int).drop_last() =~= s@.take(hi - 1));
        hi = hi - 1;
    }
    proof {
        lemma_trailing_ws_bound(s@.take(hi as int));
        assert(hi > lo);
        assert(s@.take(hi as int).last() == s@[hi - 1]);
        assert(trailing_ws(s@.take(hi as int)) == 0);
    }
    let mut r: Vec<char> = Vec::new();
    let mut i = lo;
    while i < hi
        invariant
            lo <= i <= hi <= s@.len(),
            r@ == s@.subrange(lo as int, i as int),
        decreases hi - i,
    {
        r.push(s[i]);
        i = i + 1;
        assert(r@ =~= s@.subrange(lo as int, i as int));
    }
    r
}

/// Whether two character vectors hold the same characters.
pub fn same_chars(x: &Vec<char>, y: &Vec<char>) -> (r: bool)
    ensures
        r == (x@ == y@),
{
    if x.len() != y.len() {
        return false;
    }
    let mut i: usize = 0;
    while i < x.len()
        invariant
            x@.len() == y@.len(),
            i <= x@.len(),
            forall|k: int| 0 <= k < i ==> x@[k] == y@[k],
        decreases x@.len() - i,
    {
        if x[i] != y[i] {
            return false;
        }
        i = i + 1;
    }
    assert(x@ =~= y@);
    true
}

/// Whether `v` holds exactly the characters of `t`.
pub fn chars_are(v: &Vec<char>, t: &str) -> (r: bool)
    ensures
        r == (v@ == t@),
{
    let w = chars_of(t);
    same_chars(v, &w)
}

/// Whether two strings hold the same characters.
pub fn same_text(a: &str, b: &str) -> (r: bool)
    ensures
        r == (a@ == b@),
{
    let x = chars_of(a);
    chars_are(&x, b)
}

/// The ASCII digit for a value below ten.
pub open spec fn digit_char(d: nat) -> char {
    if d == 0 {
        '0'
    } else if d == 1 {
        '1'
    } else if d == 2 {
        '2'
    } else if d == 3 {
        '3'
    } else if d == 4 {
        '4'
    } else if d == 5 {
        '5'
    } else if d == 6 {
        '6'
    } else if d == 7 {
        '7'
    } else if d == 8 {
        '8'
    } else {
        '9'
    }
}

/// The decimal spelling of `n`, without leading zeros.
pub open spec fn decimal_text(n: nat) -> Seq<char>
    decreases n,
{
    if n < 10 {
        seq![digit_char(n)]
    } else {
        decimal_text(n / 10).push(digit_char(n % 10))
    }
}

pub(crate) fn digit_exec(d: usize) -> (c: char)
    requires
        d < 10,
    ensures
        c == digit_char(d as nat),
{
    if d == 0 {
        '0'
    } else if d == 1 {
        '1'
    } else if d == 2 {
        '2'
    } else if d == 3 {
        '3'
    } else if d == 4 {
        '4'
    } else if d == 5 {
        '5'
    } else if d == 6 {
        '6'
    } else if d == 7 {
        '7'
    } else if d == 8 {
        '8'
    } else {
        '9'
    }
}

/// The decimal digits of `n` (what `u64::to_string` spells).
pub fn decimal_u64_chars(n: u64) -> (r: Vec<char>)
    ensures
        r@ == decimal_text(n as nat),
    decreases n,
{
    if n < 10 {
        let mut v: Vec<char> = Vec::new();
        v.push(digit_exec(n as usize));
        assert(v@ =~= seq![digit_char(n as nat)]);
        v
    } else {
        let mut v = decimal_u64_chars(n / 10);
        v.push(digit_exec((n % 10) as usize));
        v
    }
}

/// The decimal digits of `n` (what `usize::to_string` spells).
pub fn decimal_chars(n: usize) -> (r: Vec<char>)
    ensures
        r@ == decimal_text(n as nat),
    decreases n,
{
    if n < 10 {
        let mut v: Vec<char> = Vec::new();
        v.push(digit_exec(n));
        assert(v@ =~= seq![digit_char(n as nat)]);
        v
    } else {
        let mut v = decimal_chars(n / 10);
        v.push(digit_exec(n % 10));
        v
    }
}

/// Appends the characters of `t` to `v`.
pub fn push_text(v: &mut Vec<char>, t: &str)
    ensures
        final(v)@ == old(v)@ + t@,
{
    let w = chars_of(t);
    let ghost start = v@;
    let mut i: usize = 0;
    while i < w.len()
        invariant
            i <= w@.len(),
            w@ == t@,
            v@ == start + w@.take(i as int),
        decreases w@.len() - i,
    {
        v.push(w[i]);
        i = i + 1;
        assert(v@ =~= start + w@.take(i as int));
    }
    assert(w@.take(w@.len() as int) =~= w@);
}

/// Appends the characters of `w` to `v`.
pub fn push_chars(v: &mut Vec<char>, w: &Vec<char>)
    ensures
        final(v)@ == old(v)@ + w@,
{
    let ghost start = v@;
    let mut i: usize = 0;
    while i < w.len()
        invariant
            i <= w@.len(),
            v@ == start + w@.take(i as int),
        decreases w@.len() - i,
    {
        v.push(w[i]);
        i = i + 1;
        assert(v@ =~= start + w@.take(i as int));
    }
    assert(w@.take(w@.len() as int) =~= w@);
}

pub open spec fn ascii_digit(c: char) -> bool {
    '0' <= c <= '9'
}

pub open spec fn ascii_alpha(c: char) -> bool {
    ('a' <= c <= 'z') || ('A' <= c <= 'Z')
}

pub open spec fn ascii_alnum(c: char) -> bool {
    ascii_digit(c) || ascii_alpha(c)
}

pub open spec fn ascii_hex(c: char) -> bool {
    ascii_digit(c) || ('a' <= c <= 'f') || ('A' <= c <= 'F')
}

pub fn is_ascii_digit(c: char) -> (b: bool)
    ensures
        b == ascii_digit(c),
{
    '0' <= c && c <= '9'
}

pub fn is_ascii_alpha(c: char) -> (b: bool)
    ensures
        b == ascii_alpha(c),
{
    ('a' <= c && c <= 'z') || ('A' <= c && c <= 'Z')
}

pub fn is_ascii_alnum(c: char) -> (b: bool)
    ensures
        b == ascii_alnum(c),
{
    is_ascii_digit(c) || is_ascii_alpha(c)
}

pub fn is_ascii_hex(c: char) -> (b: bool)
    ensures
        b == ascii_hex(c),
{
    is_ascii_digit(c) || ('a' <= c && c <= 'f') || ('A' <= c && c <= 'F')
}

} // verus!
