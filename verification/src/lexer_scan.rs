//! The scanning steps of the lexer, each checked against its rule in `lexer_spec`.
use vstd::prelude::*;
use crate::diagnostics::ErrorKind;
use crate::lexer_spec::{
    all_hex, block_header, block_lines, block_text, chomp, content_end, hex_digit_value, hex_value,
    is_flow, is_hex_digit, name_char, name_end, next_line, plain_from, plain_stops, quoted_from,
    radix16, simple_escape, skip_spaces, skip_ws, spec_error, trailing_newlines, trim_ws_end,
    valid_scalar_value, ws_or_end, Chomping, SpecError,
};
use crate::text::{find_line_end, is_alphanumeric, is_whitespace, line_end_of};

verus! {

/// A scanning failure before it is turned into an error value.
pub struct LexFail {
    pub pos: usize,
    pub kind: ErrorKind,
    pub message: &'static str,
}

impl View for LexFail {
    type V = SpecError;

    open spec fn view(&self) -> SpecError {
        spec_error(self.pos as int, self.kind, self.message@)
    }
}

pub fn fail(pos: usize, kind: ErrorKind, message: &'static str) -> (f: LexFail)
    ensures
        f@ == spec_error(pos as int, kind, message@),
        f.pos == pos,
{
    LexFail { pos, kind, message }
}

pub fn content_end_exec(s: &Vec<char>, k: usize) -> (r: usize)
    requires
        k <= s@.len(),
    ensures
        r == content_end(s@, k as int),
        k <= r <= s@.len(),
        r == line_end_of(s@, k as int) || r + 1 == line_end_of(s@, k as int),
{
    let le = find_line_end(s, k);
    proof { crate::text::lemma_line_end_bounds(s@, k as int); }
    if le > k && s[le - 1] == '\r' { le - 1 } else { le }
}

pub fn next_line_exec(s: &Vec<char>, k: usize) -> (r: usize)
    requires
        k < s@.len(),
    ensures
        r == next_line(s@, k as int),
        k < r <= s@.len(),
{
    let le = find_line_end(s, k);
    proof { crate::text::lemma_line_end_bounds(s@, k as int); }
    if le >= s.len() { s.len() } else { le + 1 }
}

pub fn skip_spaces_exec(s: &Vec<char>, i: usize, e: usize) -> (r: usize)
    requires
        i <= e <= s@.len(),
    ensures
        r == skip_spaces(s@, i as int, e as int),
        i <= r <= e,
{
    let mut k = i;
    while k < e && s[k] == ' '
        invariant
            i <= k <= e <= s@.len(),
            skip_spaces(s@, k as int, e as int) == skip_spaces(s@, i as int, e as int),
        decreases e - k,
    {
        k = k + 1;
    }
    k
}

pub fn ws_or_end_exec(s: &Vec<char>, k: usize, ce: usize) -> (b: bool)
    requires
        ce <= s@.len(),
    ensures
        b == ws_or_end(s@, k as int, ce as int),
{
    k >= ce || is_whitespace(s[k])
}

pub fn name_end_exec(s: &Vec<char>, i: usize, ce: usize) -> (r: usize)
    requires
        i <= ce <= s@.len(),
    ensures
        r == name_end(s@, i as int, ce as int),
        i <= r <= ce,
{
    reveal(name_end);
    let mut k = i;
    while k < ce
        invariant
            i <= k <= ce <= s@.len(),
            name_end(s@, k as int, ce as int) == name_end(s@, i as int, ce as int),
        decreases ce - k,
    {
        proof { reveal(name_end); }
        let c = s[k];
        if is_alphanumeric(c) || c == '-' || c == '_' || c == ':' || c == '!' {
            k = k + 1;
        } else {
            return k;
        }
    }
    k
}

pub fn skip_ws_exec(s: &Vec<char>, i: usize, e: usize) -> (r: usize)
    requires
        i <= e <= s@.len(),
    ensures
        r == skip_ws(s@, i as int, e as int),
        i <= r <= e,
{
    reveal(skip_ws);
    let mut k = i;
    while k < e && is_whitespace(s[k])
        invariant
            i <= k <= e <= s@.len(),
            skip_ws(s@, k as int, e as int) == skip_ws(s@, i as int, e as int),
        decreases e - k,
    {
        proof { reveal(skip_ws); }
        k = k + 1;
    }
    k
}

pub fn trim_ws_end_exec(s: &Vec<char>, b: usize, e: usize) -> (r: usize)
    requires
        b <= e <= s@.len(),
    ensures
        r == trim_ws_end(s@, b as int, e as int),
        b <= r <= e,
{
    reveal(trim_ws_end);
    let mut k = e;
    while k > b && is_whitespace(s[k - 1])
        invariant
            b <= k <= e <= s@.len(),
            trim_ws_end(s@, b as int, k as int) == trim_ws_end(s@, b as int, e as int),
        decreases k - b,
    {
        proof { reveal(trim_ws_end); }
        k = k - 1;
    }
    k
}

pub open spec fn pow16(n: nat) -> nat
    decreases n,
{
    if n == 0 { 1 } else { 16 * pow16((n - 1) as nat) }
}

proof fn lemma_hex_value_bound(d: Seq<char>)
    requires
        all_hex(d),
    ensures
        0 <= hex_value(d) < pow16(d.len()),
    decreases d.len(),
{
    if d.len() > 0 {
        assert(all_hex(d.drop_last())) by {
            assert forall|i: int| 0 <= i < d.drop_last().len() implies is_hex_digit(#[trigger] d.drop_last()[i]) by {
                assert(d.drop_last()[i] == d[i]);
            }
        }
        lemma_hex_value_bound(d.drop_last());
        assert(is_hex_digit(d[d.len() - 1]));
        let h = hex_value(d.drop_last());
        let v = hex_digit_value(d.last());
        assert(0 <= v < 16);
        let p = pow16((d.len() - 1) as nat);
        assert(h * 16 + v < 16 * p) by (nonlinear_arith)
            requires 0 <= h < p, 0 <= v < 16;
    }
}

/// The value of the hexadecimal text `s[a..b]` as `from_str_radix(_, 16)` reads it.
pub fn radix16_exec(s: &Vec<char>, a: usize, b: usize) -> (r: Option<u64>)
    requires
        a <= b <= s@.len(),
        b - a <= 8,
    ensures
        r is Some <==> radix16(s@.subrange(a as int, b as int)) is Some,
        r matches Some(v) ==> v == radix16(s@.subrange(a as int, b as int))->0,
{
    let ghost text = s@.subrange(a as int, b as int);
    let mut i = a;
    if b - a > 1 && s[a] == '+' {
        i = a + 1;
    }
    let ghost d = s@.subrange(i as int, b as int);
    assert(d == (if text.len() > 1 && text[0] == '+' { text.drop_first() } else { text }));
    if i >= b {
        assert(d.len() == 0);
        assert(radix16(text) is None);
        return None;
    }
    let mut acc: u64 = 0;
    let mut k = i;
    assert(d.take(0) =~= Seq::<char>::empty());
    while k < b
        invariant
            i <= k <= b <= s@.len(),
            b - i <= 8,
            d == s@.subrange(i as int, b as int),
            text == s@.subrange(a as int, b as int),
            d == (if text.len() > 1 && text[0] == '+' { text.drop_first() } else { text }),
            d.len() > 0,
            all_hex(d.take(k - i)),
            acc == hex_value(d.take(k - i)),
        decreases b - k,
    {
        let c = s[k];
        if !(('0' <= c && c <= '9') || ('a' <= c && c <= 'f') || ('A' <= c && c <= 'F')) {
            assert(!all_hex(d)) by {
                assert(d[k - i] == c);
            }
            return None;
        }
        let v: u64 = if '0' <= c && c <= '9' {
            (c as u64) - ('0' as u64)
        } else if 'a' <= c && c <= 'f' {
            (c as u64) - ('a' as u64) + 10
        } else {
            (c as u64) - ('A' as u64) + 10
        };
        proof {
            let t = d.take(k - i);
            let t1 = d.take(k - i + 1);
            assert(t1.drop_last() =~= t);
            assert(t1.last() == c);
            assert(all_hex(t1)) by {
                assert forall|j: int| 0 <= j < t1.len() implies is_hex_digit(#[trigger] t1[j]) by {
                    if j < t.len() {
                        assert(t1[j] == t[j]);
                    }
                }
            }
            lemma_hex_value_bound(t);
            assert(pow16(8) == 4294967296) by { reveal_with_fuel(pow16, 9); }
            lemma_pow16_mono((k - i) as nat, 8);
        }
        acc = acc * 16 + v;
        k = k + 1;
    }
    assert(d.take(b - i) =~= d);
    Some(acc)
}

proof fn lemma_pow16_mono(a: nat, b: nat)
    requires
        a <= b,
    ensures
        pow16(a) <= pow16(b),
    decreases b - a,
{
    if a < b {
        lemma_pow16_mono(a, (b - 1) as nat);
    }
}

proof fn lemma_char_of_u32(c: char, v: u32)
    requires
        c as u32 == v,
    ensures
        c == (v as int) as char,
{
}

/// `char::from_u32`: the character with scalar value `v`, if `v` is one.
#[verifier::external_body]
pub fn char_from_u32(v: u32) -> (r: Option<char>)
    ensures
        r is Some <==> valid_scalar_value(v as int),
        r matches Some(c) ==> c as u32 == v,
{
    char::from_u32(v)
}

/// Scans a quoted scalar whose opening quote sits just before position `p0`.
pub fn read_quoted(s: &Vec<char>, p0: usize, ce: usize, quote: char) -> (r: Result<(Vec<char>, usize), LexFail>)
    requires
        p0 <= ce <= s@.len() <= isize::MAX,
        quote == '\'' || quote == '"',
    ensures
        match r {
            Ok((v, e)) => quoted_from(s@, p0 as int, ce as int, quote, Seq::empty()) == Ok::<(Seq<char>, int), SpecError>((v@, e as int)),
            Err(f) => quoted_from(s@, p0 as int, ce as int, quote, Seq::empty()) == Err::<(Seq<char>, int), SpecError>(f@),
        },
        r matches Err(f) ==> f.pos <= ce,
{
    reveal(quoted_from);
    let mut acc: Vec<char> = Vec::new();
    let mut p = p0;
    loop
        invariant
            p0 <= p <= ce <= s@.len() <= isize::MAX,
            quote == '\'' || quote == '"',
            quoted_from(s@, p as int, ce as int, quote, acc@) == quoted_from(s@, p0 as int, ce as int, quote, Seq::empty()),
        decreases ce - p,
    {
        proof { reveal(quoted_from); }
        if p >= ce {
            return Err(fail(p, ErrorKind::InvalidScalar, "unterminated quoted scalar"));
        }
        let ch = s[p];
        if ch == quote {
            if quote == '\'' && p + 1 < ce && s[p + 1] == '\'' {
                acc.push('\'');
                p = p + 2;
                continue;
            }
            return Ok((acc, p + 1));
        }
        if quote == '"' && ch == '\\' {
            if p + 1 >= ce {
                return Err(fail(p, ErrorKind::InvalidScalar, "unterminated escape sequence"));
            }
            let e = s[p + 1];
            if e == 'x' || e == 'X' {
                if p + 4 <= ce {
                    match radix16_exec(s, p + 2, p + 4) {
                        Some(v) => {
                            proof {
                                let t = s@.subrange(p + 2, p + 4);
                                let d = if t.len() > 1 && t[0] == '+' { t.drop_first() } else { t };
                                lemma_hex_value_bound(d);
                                assert(pow16(2) == 256) by { reveal_with_fuel(pow16, 3); }
                                lemma_pow16_mono(d.len(), 2);
                            }
                            let c = (v as u8) as char;
                            acc.push(c);
                            p = p + 4;
                            continue;
                        }
                        None => {}
                    }
                }
                return Err(fail(p, ErrorKind::InvalidScalar, "invalid hexadecimal escape"));
            }
            if e == 'u' || e == 'U' {
                let w: usize = if e == 'u' { 4 } else { 8 };
                if p + 2 + w <= ce {
                    match radix16_exec(s, p + 2, p + 2 + w) {
                        Some(v) => {
                            proof {
                                let t = s@.subrange(p + 2, p + 2 + w);
                                let d = if t.len() > 1 && t[0] == '+' { t.drop_first() } else { t };
                                lemma_hex_value_bound(d);
                                assert(pow16(8) == 4294967296) by { reveal_with_fuel(pow16, 9); }
                                lemma_pow16_mono(d.len(), 8);
                            }
                            assert(v < 4294967296);
                            let vv = v as u32;
                            assert(vv as int == v as int);
                            match char_from_u32(vv) {
                                Some(c) => {
                                    proof { lemma_char_of_u32(c, vv); }
                                    acc.push(c);
                                    p = p + 2 + w;
                                    continue;
                                }
                                None => {}
                            }
                        }
                        None => {}
                    }
                }
                return Err(fail(p, ErrorKind::InvalidScalar, "invalid unicode escape"));
            }
            let c = if e == 'n' {
                '\n'
            } else if e == 'r' {
                '\r'
            } else if e == 't' {
                '\t'
            } else if e == '0' {
                '\0'
            } else {
                e
            };
            acc.push(c);
            p = p + 2;
            continue;
        }
        acc.push(ch);
        p = p + 1;
    }
}

/// Scans a plain scalar starting at `col` of the line `[ls, ce)`: one past its last
/// non-whitespace character, and the stop position.
pub fn read_plain(s: &Vec<char>, ls: usize, ce: usize, col: usize) -> (r: (usize, usize))
    requires
        ls <= col <= ce <= s@.len(),
    ensures
        (r.0 as int, r.1 as int) == plain_from(s@, ls as int, ce as int, col as int, col as int),
        col <= r.0 <= r.1 <= ce,
{
    reveal(plain_from);
    let mut content = col;
    let mut i = col;
    while i < ce
        invariant
            ls <= col <= content <= i <= ce <= s@.len(),
            plain_from(s@, ls as int, ce as int, i as int, content as int) == plain_from(s@, ls as int, ce as int, col as int, col as int),
        decreases ce - i,
    {
        proof { reveal(plain_from); }
        let ch = s[i];
        if ch == '#' && (i == ls || is_whitespace(s[i - 1])) {
            return (content, i);
        }
        if ch == '{' || ch == '}' || ch == '[' || ch == ']' || ch == ',' {
            return (content, i);
        }
        if ch == ':' && ws_or_end_exec(s, i + 1, ce) {
            return (content, i);
        }
        if !is_whitespace(ch) {
            content = i + 1;
        }
        i = i + 1;
    }
    (content, i)
}

/// Parses a block scalar header from position `q0`.
pub fn read_block_header(s: &Vec<char>, q0: usize, ce: usize) -> (r: Result<(Chomping, Option<usize>), LexFail>)
    requires
        q0 <= ce <= s@.len(),
    ensures
        match r {
            Ok(h) => block_header(s@, q0 as int, ce as int, Chomping::Clip, None) == Ok::<(Chomping, Option<usize>), SpecError>(h),
            Err(f) => block_header(s@, q0 as int, ce as int, Chomping::Clip, None) == Err::<(Chomping, Option<usize>), SpecError>(f@),
        },
        r matches Ok((_, Some(n))) ==> 1 <= n <= 9,
        r matches Err(f) ==> f.pos <= ce,
{
    let mut q = q0;
    let mut chomping = Chomping::Clip;
    let mut explicit: Option<usize> = None;
    while q < ce
        invariant
            q0 <= q <= ce <= s@.len(),
            block_header(s@, q as int, ce as int, chomping, explicit) == block_header(s@, q0 as int, ce as int, Chomping::Clip, None),
            explicit matches Some(n) ==> 1 <= n <= 9,
        decreases ce - q,
    {
        let c = s[q];
        if c == '+' {
            chomping = Chomping::Keep;
        } else if c == '-' {
            chomping = Chomping::Strip;
        } else if '1' <= c && c <= '9' {
            explicit = Some(((c as u32) - ('0' as u32)) as usize);
        } else if c == ' ' || c == '\t' || c == '#' {
            return Ok((chomping, explicit));
        } else {
            return Err(fail(q, ErrorKind::InvalidScalar, "invalid block scalar header"));
        }
        q = q + 1;
    }
    Ok((chomping, explicit))
}

pub open spec fn lines_in(lines: Seq<(usize, usize)>, n: int) -> bool {
    forall|i: int| 0 <= i < lines.len() ==> #[trigger] lines[i].0 <= lines[i].1 && lines[i].1 <= n
}

pub open spec fn pairs_view(v: Seq<(usize, usize)>) -> Seq<(int, int)> {
    v.map_values(|p: (usize, usize)| (p.0 as int, p.1 as int))
}

/// Collects the lines of a block scalar starting at `start`.
pub fn read_block_lines(s: &Vec<char>, start: usize, indent: usize, base0: Option<usize>) -> (r: (Vec<(usize, usize)>, Option<usize>, usize))
    requires
        start <= s@.len() < usize::MAX,
        indent < s@.len() + 1,
        base0 matches Some(b) ==> b <= indent + 9,
    ensures
        ({
            let spec_r = block_lines(s@, start as int, indent as int, match base0 { Some(b) => Some(b as int), None => None }, Seq::empty());
            &&& pairs_view(r.0@) == spec_r.0
            &&& (match r.1 { Some(b) => Some(b as int), None => None::<int> }) == spec_r.1
            &&& r.2 as int == spec_r.2
        }),
        start <= r.2 <= s@.len(),
        lines_in(r.0@, s@.len() as int),
        r.1 matches Some(b) ==> b <= s@.len() + 9,
{
    let mut lines: Vec<(usize, usize)> = Vec::new();
    let mut base = base0;
    let mut cur = start;
    assert(pairs_view(lines@) =~= Seq::<(int, int)>::empty());
    while cur < s.len()
        invariant
            start <= cur <= s@.len() < usize::MAX,
            indent < s@.len() + 1,
            base matches Some(b) ==> b <= s@.len() + 9,
            lines_in(lines@, s@.len() as int),
            block_lines(s@, cur as int, indent as int, match base { Some(b) => Some(b as int), None => None }, pairs_view(lines@))
                == block_lines(s@, start as int, indent as int, match base0 { Some(b) => Some(b as int), None => None }, Seq::empty()),
        decreases s@.len() - cur,
    {
        let ce = content_end_exec(s, cur);
        let leading = skip_spaces_exec(s, cur, ce) - cur;
        let blank = cur + leading == ce;
        if !blank {
            match base {
                Some(bi) => {
                    if leading < bi {
                        return (lines, base, cur);
                    }
                }
                None => {
                    if leading <= indent {
                        return (lines, base, cur);
                    }
                    base = Some(leading);
                }
            }
        }
        let nx = next_line_exec(s, cur);
        proof {
            assert(pairs_view(lines@.push((cur, ce))) =~= pairs_view(lines@).push((cur as int, ce as int)));
        }
        let ghost old_lines = lines@;
        lines.push((cur, ce));
        assert(lines_in(lines@, s@.len() as int)) by {
            assert forall|i: int| 0 <= i < lines@.len() implies #[trigger] lines@[i].0 <= lines@[i].1 && lines@[i].1 <= s@.len() by {
                if i < old_lines.len() {
                    assert(lines@[i] == old_lines[i]);
                }
            }
        }
        cur = nx;
    }
    (lines, base, cur)
}

/// The text of the collected lines of a block scalar with `bi` columns removed.
pub fn block_text_exec(s: &Vec<char>, lines: &Vec<(usize, usize)>, bi: usize) -> (v: Vec<char>)
    requires
        lines_in(lines@, s@.len() as int),
    ensures
        v@ == block_text(s@, pairs_view(lines@), bi as int),
{
    let mut v: Vec<char> = Vec::new();
    let mut i: usize = 0;
    assert(pairs_view(lines@).take(0) =~= Seq::<(int, int)>::empty());
    while i < lines.len()
        invariant
            i <= lines@.len(),
            lines_in(lines@, s@.len() as int),
            v@ == block_text(s@, pairs_view(lines@).take(i as int), bi as int),
        decreases lines@.len() - i,
    {
        let (a, b) = lines[i];
        let ghost before = v@;
        if b - a <= bi {
            v.push('\n');
        } else {
            let mut k = a + bi;
            while k < b
                invariant
                    a + bi <= k <= b <= s@.len(),
                    v@ == before + s@.subrange(a + bi, k as int),
                decreases b - k,
            {
                v.push(s[k]);
                k = k + 1;
                assert(v@ =~= before + s@.subrange(a + bi, k as int));
            }
            v.push('\n');
        }
        proof {
            let pv = pairs_view(lines@);
            assert(pv.take(i + 1).drop_last() =~= pv.take(i as int));
            assert(pv.take(i + 1).last() == (a as int, b as int));
            if b - a <= bi {
                assert(v@ =~= before + seq!['\n']);
            } else {
                assert(v@ =~= before + s@.subrange(a + bi, b as int).push('\n'));
            }
        }
        i = i + 1;
    }
    assert(pairs_view(lines@).take(lines@.len() as int) =~= pairs_view(lines@));
    v
}

proof fn lemma_trailing(v: Seq<char>, k: int)
    requires
        0 <= k <= v.len(),
        forall|i: int| k <= i < v.len() ==> v[i] == '\n',
        k == 0 || v[k - 1] != '\n',
    ensures
        trailing_newlines(v) == v.len() - k,
    decreases v.len(),
{
    if v.len() > k {
        let w = v.drop_last();
        assert forall|i: int| k <= i < w.len() implies w[i] == '\n' by {
            assert(w[i] == v[i]);
        }
        if k > 0 {
            assert(w[k - 1] == v[k - 1]);
        }
        lemma_trailing(w, k);
    }
}

/// Applies a chomping indicator.
pub fn chomp_exec(v: &mut Vec<char>, c: Chomping)
    ensures
        final(v)@ == chomp(old(v)@, c),
{
    let n = v.len();
    let mut k = n;
    while k > 0 && v[k - 1] == '\n'
        invariant
            k <= n == v@.len(),
            forall|i: int| k <= i < n ==> v@[i] == '\n',
        decreases k,
    {
        k = k - 1;
    }
    proof { lemma_trailing(v@, k as int); }
    match c {
        Chomping::Strip => {
            v.truncate(k);
        }
        Chomping::Clip => {
            if n - k > 1 {
                v.truncate(k + 1);
            }
        }
        Chomping::Keep => {}
    }
    assert(final(v)@ =~= chomp(old(v)@, c));
}

} // verus!
