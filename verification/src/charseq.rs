//! Splitting, searching and number reading over character sequences.
use vstd::prelude::*;
use crate::text::{
    ascii_digit, byte_len, char_len_utf8, is_ascii_digit, lemma_byte_len_mono,
    lemma_byte_len_push, lemma_len_le_byte_len,
};

verus! {

/// The pieces of `s` between occurrences of `sep`, as `str::split` with a `char` pattern yields
/// them: there is always at least one piece, and empty pieces are kept.
pub open spec fn split_char(s: Seq<char>, sep: char) -> Seq<Seq<char>>
    decreases s.len(),
{
    if s.len() == 0 {
        seq![Seq::<char>::empty()]
    } else {
        let p = split_char(s.drop_last(), sep);
        if s.last() == sep {
            p.push(Seq::<char>::empty())
        } else {
            p.update(p.len() - 1, p.last().push(s.last()))
        }
    }
}

pub proof fn lemma_split_nonempty(s: Seq<char>, sep: char)
    ensures
        split_char(s, sep).len() >= 1,
    decreases s.len(),
{
    if s.len() > 0 {
        lemma_split_nonempty(s.drop_last(), sep);
    }
}

/// The character sequences held by a vector of character vectors.
pub open spec fn pieces(v: Seq<Vec<char>>) -> Seq<Seq<char>> {
    Seq::new(v.len(), |k: int| v[k]@)
}

/// Splits `s` at every `sep`.
pub fn split_on(s: &Vec<char>, sep: char) -> (parts: Vec<Vec<char>>)
    ensures
        pieces(parts@) == split_char(s@, sep),
{
    let mut parts: Vec<Vec<char>> = Vec::new();
    let mut cur: Vec<char> = Vec::new();
    let mut i: usize = 0;
    assert(s@.take(0) =~= Seq::<char>::empty());
    assert(pieces(parts@).push(cur@) =~= split_char(s@.take(0), sep));
    while i < s.len()
        invariant
            i <= s@.len(),
            pieces(parts@).push(cur@) == split_char(s@.take(i as int), sep),
        decreases s@.len() - i,
    {
        let c = s[i];
        let ghost before = pieces(parts@).push(cur@);
        proof {
            assert(s@.take(i + 1).drop_last() =~= s@.take(i as int));
            assert(s@.take(i + 1).last() == c);
            lemma_split_nonempty(s@.take(i as int), sep);
        }
        if c == sep {
            let done = cur;
            parts.push(done);
            cur = Vec::new();
            assert(pieces(parts@).push(cur@) =~= before.push(Seq::<char>::empty()));
        } else {
            cur.push(c);
            assert(pieces(parts@).push(cur@) =~= before.update(
                before.len() - 1,
                before.last().push(c),
            ));
        }
        i = i + 1;
    }
    assert(s@.take(s@.len() as int) =~= s@);
    let ghost before = pieces(parts@).push(cur@);
    parts.push(cur);
    assert(pieces(parts@) =~= before);
    parts
}

/// Position of the first character of `s` equal to `a` or `b`, or `s.len()` when there is none.
pub open spec fn first_of(s: Seq<char>, a: char, b: char) -> int
    decreases s.len(),
{
    if s.len() == 0 {
        0
    } else if s[0] == a || s[0] == b {
        0
    } else {
        1 + first_of(s.drop_first(), a, b)
    }
}

pub fn find_first(s: &Vec<char>, a: char, b: char) -> (r: usize)
    ensures
        r == first_of(s@, a, b),
        r <= s@.len(),
{
    let mut i: usize = 0;
    assert(s@.skip(0) =~= s@);
    while i < s.len() && s[i] != a && s[i] != b
        invariant
            i <= s@.len(),
            first_of(s@, a, b) == i + first_of(s@.skip(i as int), a, b),
        decreases s@.len() - i,
    {
        assert(s@.skip(i as int).drop_first() =~= s@.skip(i + 1));
        i = i + 1;
    }
    if i == s.len() {
        assert(s@.skip(i as int).len() == 0);
    }
    i
}

/// Position of the last character of `s` equal to `a` or `b`, or -1 when there is none.
pub open spec fn last_of(s: Seq<char>, a: char, b: char) -> int
    decreases s.len(),
{
    if s.len() == 0 {
        -1
    } else if s.last() == a || s.last() == b {
        s.len() - 1
    } else {
        last_of(s.drop_last(), a, b)
    }
}

pub fn find_last(s: &Vec<char>, a: char, b: char) -> (r: Option<usize>)
    ensures
        match r {
            Some(p) => p == last_of(s@, a, b) && p < s@.len(),
            None => last_of(s@, a, b) == -1,
        },
{
    let mut i = s.len();
    assert(s@.take(i as int) =~= s@);
    while i > 0 && s[i - 1] != a && s[i - 1] != b
        invariant
            i <= s@.len(),
            last_of(s@.take(i as int), a, b) == last_of(s@, a, b),
        decreases i,
    {
        assert(s@.take(i as int).drop_last() =~= s@.take(i - 1));
        i = i - 1;
    }
    if i == 0 {
        None
    } else {
        Some(i - 1)
    }
}

/// Number of non-overlapping occurrences of `cc` in `s`, taken from the left (what
/// `str::matches` counts for a two-character pattern).
pub open spec fn double_count(s: Seq<char>, c: char) -> nat
    decreases s.len(),
{
    if s.len() < 2 {
        0
    } else if s[0] == c && s[1] == c {
        1 + double_count(s.skip(2), c)
    } else {
        double_count(s.skip(1), c)
    }
}

pub fn count_doubles(s: &Vec<char>, c: char) -> (n: usize)
    ensures
        n == double_count(s@, c),
{
    let mut i: usize = 0;
    let mut n: usize = 0;
    assert(s@.skip(0) =~= s@);
    while s.len() - i >= 2
        invariant
            i <= s@.len(),
            n <= i,
            n + double_count(s@.skip(i as int), c) == double_count(s@, c),
        decreases s@.len() - i,
    {
        if s[i] == c && s[i + 1] == c {
            assert(s@.skip(i as int).skip(2) =~= s@.skip(i + 2));
            n = n + 1;
            i = i + 2;
        } else {
            assert(s@.skip(i as int).skip(1) =~= s@.skip(i + 1));
            i = i + 1;
        }
    }
    n
}

/// Position of the first occurrence of `cc` in `s`, or `s.len()` when there is none.
pub open spec fn first_double(s: Seq<char>, c: char) -> int
    decreases s.len(),
{
    if s.len() < 2 {
        s.len() as int
    } else if s[0] == c && s[1] == c {
        0
    } else {
        1 + first_double(s.drop_first(), c)
    }
}

pub fn find_double(s: &Vec<char>, c: char) -> (r: usize)
    ensures
        r == first_double(s@, c),
        r == s@.len() || r + 2 <= s@.len(),
{
    let mut i: usize = 0;
    assert(s@.skip(0) =~= s@);
    while s.len() - i >= 2 && !(s[i] == c && s[i + 1] == c)
        invariant
            i <= s@.len(),
            first_double(s@, c) == i + first_double(s@.skip(i as int), c),
        decreases s@.len() - i,
    {
        assert(s@.skip(i as int).drop_first() =~= s@.skip(i + 1));
        i = i + 1;
    }
    if s.len() - i >= 2 {
        i
    } else {
        s.len()
    }
}

/// A copy of `s[lo..hi]`.
pub fn copy_range(s: &Vec<char>, lo: usize, hi: usize) -> (r: Vec<char>)
    requires
        lo <= hi <= s@.len(),
    ensures
        r@ == s@.subrange(lo as int, hi as int),
{
    let mut r: Vec<char> = Vec::new();
    let mut i = lo;
    while i < hi
        invariant
            lo <= i <= hi <= s@.len(),
            r@ == s@.subrange(lo as int, i as int),
        decreases hi - i,
    {
        r.push(s[i]);
        i = i + 1;
        assert(r@ =~= s@.subrange(lo as int, i as int));
    }
    r
}

/// Whether the UTF-8 encoding of `v` takes at most `n` bytes.
pub fn byte_len_at_most(v: &Vec<char>, n: usize) -> (r: bool)
    ensures
        r == (byte_len(v@) <= n),
{
    let mut acc: usize = 0;
    let mut i: usize = 0;
    assert(v@.take(0) =~= Seq::<char>::empty());
    while i < v.len()
        invariant
            i <= v@.len(),
            acc == byte_len(v@.take(i as int)),
            acc <= n,
        decreases v@.len() - i,
    {
        let w = char_len_utf8(v[i]);
        proof {
            assert(v@.take(i + 1) =~= v@.take(i as int).push(v@[i as int]));
            lemma_byte_len_push(v@.take(i as int), v@[i as int]);
        }
        if w > n - acc {
            proof {
                lemma_byte_len_mono(v@, i + 1, v@.len() as int);
                assert(v@.take(v@.len() as int) =~= v@);
            }
            return false;
        }
        acc = acc + w;
        i = i + 1;
    }
    assert(v@.take(v@.len() as int) =~= v@);
    true
}

/// Whether the UTF-8 encoding of `v` takes exactly `n` bytes.
pub fn byte_len_is(v: &Vec<char>, n: usize) -> (r: bool)
    ensures
        r == (byte_len(v@) == n),
{
    if n == 0 {
        proof {
            lemma_len_le_byte_len(v@);
            if v@.len() == 0 {
                assert(byte_len(v@) == 0);
            }
        }
        v.len() == 0
    } else {
        byte_len_at_most(v, n) && !byte_len_at_most(v, n - 1)
    }
}

/// Numeric value of an ASCII digit.
pub open spec fn digit_value(c: char) -> nat {
    (c as int - '0' as int) as nat
}

/// Decimal value of a digit string.
pub open spec fn decimal_value(d: Seq<char>) -> nat
    decreases d.len(),
{
    if d.len() == 0 {
        0
    } else {
        decimal_value(d.drop_last()) * 10 + digit_value(d.last())
    }
}

pub open spec fn all_digits(d: Seq<char>) -> bool {
    forall|i: int| 0 <= i < d.len() ==> ascii_digit(#[trigger] d[i])
}

/// The digits that `str::parse` reads for an unsigned integer type: one leading `+` may
/// precede them.
pub open spec fn unsigned_digits(s: Seq<char>) -> Seq<char> {
    if s.len() > 0 && s[0] == '+' {
        s.drop_first()
    } else {
        s
    }
}

/// What `str::parse` gives for an unsigned integer type whose largest value is `max`:
/// `None` for an empty or non-decimal string or a value above `max`.
pub open spec fn parse_unsigned(s: Seq<char>, max: nat) -> Option<nat> {
    let d = unsigned_digits(s);
    if d.len() > 0 && all_digits(d) && decimal_value(d) <= max {
        Some(decimal_value(d))
    } else {
        None
    }
}

pub open spec fn pow10(n: nat) -> nat
    decreases n,
{
    if n == 0 {
        1
    } else {
        10 * pow10((n - 1) as nat)
    }
}

proof fn lemma_pow10_small(n: nat)
    requires
        n <= 9,
    ensures
        pow10(n) <= 1_000_000_000,
{
    reveal_with_fuel(pow10, 10);
}

/// Reads a short unsigned decimal number as `str::parse` does.
pub fn parse_unsigned_exec(s: &Vec<char>, max: u32) -> (r: Option<u32>)
    requires
        s@.len() <= 9,
    ensures
        match r {
            Some(v) => parse_unsigned(s@, max as nat) == Some(v as nat),
            None => parse_unsigned(s@, max as nat) is None,
        },
{
    let start: usize = if s.len() > 0 && s[0] == '+' {
        1
    } else {
        0
    };
    let ghost d = unsigned_digits(s@);
    assert(d =~= s@.skip(start as int));
    if start >= s.len() {
        assert(d.len() == 0);
        assert(parse_unsigned(s@, max as nat) is None);
        return None;
    }
    let mut acc: u64 = 0;
    let mut i = start;
    assert(d.take(0) =~= Seq::<char>::empty());
    while i < s.len()
        invariant
            start <= i <= s@.len() <= 9,
            d == s@.skip(start as int),
            d == unsigned_digits(s@),
            all_digits(d.take(i - start)),
            acc == decimal_value(d.take(i - start)),
            acc < pow10((i - start) as nat),
        decreases s@.len() - i,
    {
        let c = s[i];
        assert(d[i - start] == c);
        if !is_ascii_digit(c) {
            assert(!all_digits(d));
            return None;
        }
        proof {
            let k = (i - start) as int;
            assert(d.take(k + 1).drop_last() =~= d.take(k));
            assert(d.take(k + 1).last() == c);
            assert(pow10((k + 1) as nat) == 10 * pow10(k as nat));
            lemma_pow10_small((k + 1) as nat);
        }
        acc = acc * 10 + (c as u64 - '0' as u64);
        i = i + 1;
        assert(all_digits(d.take(i - start)));
    }
    assert(d.take(i - start) =~= d);
    if acc <= max as u64 {
        Some(acc as u32)
    } else {
        None
    }
}

} // verus!
