//! Validators for the `format` keyword values that schemas may use: `email`, `date-time`,
//! `date`, `uri`, `ipv4`, `ipv6` and `uuid`. Each is a pragmatic structural check, not a full
//! RFC grammar; `format_spec` states exactly what each accepts.
use vstd::prelude::*;
use crate::charseq::{
    all_digits, byte_len_at_most, byte_len_is, copy_range, count_doubles, find_double,
    find_first, find_last, parse_unsigned, parse_unsigned_exec, pieces, split_char,
    split_on,
};
use crate::format_spec::{
    all_email_local, all_groups_ok, all_hex_chars, clock_ok, date_ok, date_time_ok,
    days_in_month, email_local_char, email_ok, hex_group_ok, hostname_ok, ipv4_ok, ipv6_ok,
    label_ok, leap_year, octet_ok, offset_ok, scheme_char, side_groups, time_body, time_ok,
    u32_max, uri_ok, uuid_ok, uuid_part_ok,
};
use crate::text::{
    ascii_hex, chars_of, is_ascii_alnum, same_text, is_ascii_alpha, is_ascii_digit, is_ascii_hex,
    is_whitespace, lemma_len_le_byte_len, unicode_whitespace,
};

verus! {

/// A supported `format` keyword value.
#[derive(Clone, Copy, Debug, PartialEq, Eq, Structural)]
pub enum Format {
    /// `local@domain`, loosely checked (no quoting or comments).
    Email,
    /// An RFC 3339 date-time with a required offset, e.g. `2024-01-15T10:30:00Z`.
    DateTime,
    /// An RFC 3339 full-date that exists in the calendar, e.g. `2024-01-15`.
    Date,
    /// `scheme:` followed by a non-empty rest.
    Uri,
    /// Dotted-decimal IPv4 without leading zeros.
    Ipv4,
    /// Colon-separated IPv6, with `::` compression but no IPv4 tail.
    Ipv6,
    /// An 8-4-4-4-12 hyphenated hex UUID.
    Uuid,
}

/// The keyword spelling of each format.
pub open spec fn format_name(f: Format) -> Seq<char> {
    match f {
        Format::Email => "email"@,
        Format::DateTime => "date-time"@,
        Format::Date => "date"@,
        Format::Uri => "uri"@,
        Format::Ipv4 => "ipv4"@,
        Format::Ipv6 => "ipv6"@,
        Format::Uuid => "uuid"@,
    }
}

/// The format a keyword spelling names, if any.
pub open spec fn format_named(name: Seq<char>) -> Option<Format> {
    if name == "email"@ {
        Some(Format::Email)
    } else if name == "date-time"@ {
        Some(Format::DateTime)
    } else if name == "date"@ {
        Some(Format::Date)
    } else if name == "uri"@ {
        Some(Format::Uri)
    } else if name == "ipv4"@ {
        Some(Format::Ipv4)
    } else if name == "ipv6"@ {
        Some(Format::Ipv6)
    } else if name == "uuid"@ {
        Some(Format::Uuid)
    } else {
        None
    }
}

/// Whether a value, given by its characters, satisfies a format.
pub open spec fn format_accepts(f: Format, s: Seq<char>) -> bool {
    match f {
        Format::Email => email_ok(s),
        Format::DateTime => date_time_ok(s),
        Format::Date => date_ok(s),
        Format::Uri => uri_ok(s),
        Format::Ipv4 => ipv4_ok(s),
        Format::Ipv6 => ipv6_ok(s),
        Format::Uuid => uuid_ok(s),
    }
}

/// Every format's spelling names that format again.
pub proof fn lemma_from_name_of_name(f: Format)
    ensures
        format_named(format_name(f)) == Some(f),
{
    reveal_strlit("email");
    reveal_strlit("date-time");
    reveal_strlit("date");
    reveal_strlit("uri");
    reveal_strlit("ipv4");
    reveal_strlit("ipv6");
    reveal_strlit("uuid");
    assert("email"@.len() == 5);
    assert("date-time"@.len() == 9);
    assert("date"@.len() == 4);
    assert("uri"@.len() == 3);
    assert("ipv4"@.len() == 4);
    assert("ipv6"@.len() == 4);
    assert("uuid"@.len() == 4);
    assert("ipv6"@[3] != "ipv4"@[3]);
    assert("ipv6"@[0] != "date"@[0]);
    assert("uuid"@[0] != "date"@[0]);
    assert("uuid"@[0] != "ipv4"@[0]);
    assert("uuid"@[0] != "ipv6"@[0]);
    assert("ipv4"@[0] != "date"@[0]);
}

impl Format {
    /// Maps a schema's `format` string to a supported validator, or `None` for a format that
    /// has no validator here.
    pub fn from_name(name: &str) -> (r: Option<Format>)
        ensures
            r == format_named(name@),
    {
        if same_text(name, "email") {
            Some(Format::Email)
        } else if same_text(name, "date-time") {
            Some(Format::DateTime)
        } else if same_text(name, "date") {
            Some(Format::Date)
        } else if same_text(name, "uri") {
            Some(Format::Uri)
        } else if same_text(name, "ipv4") {
            Some(Format::Ipv4)
        } else if same_text(name, "ipv6") {
            Some(Format::Ipv6)
        } else if same_text(name, "uuid") {
            Some(Format::Uuid)
        } else {
            None
        }
    }

    /// The `format` keyword's spelling.
    pub fn name(self) -> (r: &'static str)
        ensures
            r@ == format_name(self),
    {
        match self {
            Format::Email => "email",
            Format::DateTime => "date-time",
            Format::Date => "date",
            Format::Uri => "uri",
            Format::Ipv4 => "ipv4",
            Format::Ipv6 => "ipv6",
            Format::Uuid => "uuid",
        }
    }

    /// Whether `value` satisfies this format.
    pub fn is_match(self, value: &str) -> (r: bool)
        ensures
            r == format_accepts(self, value@),
    {
        let s = chars_of(value);
        match self {
            Format::Email => is_email(&s),
            Format::DateTime => is_date_time(&s),
            Format::Date => is_date(&s),
            Format::Uri => is_uri(&s),
            Format::Ipv4 => is_ipv4(&s),
            Format::Ipv6 => is_ipv6(&s),
            Format::Uuid => is_uuid(&s),
        }
    }
}

fn all_email_local_exec(s: &Vec<char>) -> (r: bool)
    ensures
        r == all_email_local(s@),
{
    let mut i: usize = 0;
    while i < s.len()
        invariant
            i <= s@.len(),
            forall|k: int| 0 <= k < i ==> email_local_char(#[trigger] s@[k]),
        decreases s@.len() - i,
    {
        let c = s[i];
        if !(is_ascii_alnum(c) || c == '.' || c == '_' || c == '%' || c == '+' || c == '-') {
            assert(!email_local_char(s@[i as int]));
            return false;
        }
        i = i + 1;
    }
    true
}

fn is_email(s: &Vec<char>) -> (r: bool)
    ensures
        r == email_ok(s@),
{
    if s.len() == 0 {
        return false;
    }
    let at = find_first(s, '@', '@');
    if at >= s.len() {
        return false;
    }
    let local = copy_range(s, 0, at);
    let domain = copy_range(s, at + 1, s.len());
    assert(local@ =~= s@.take(at as int));
    assert(domain@ =~= s@.skip(at + 1));
    if local.len() == 0 || !byte_len_at_most(&local, 64) {
        return false;
    }
    if local[0] == '.' || local[local.len() - 1] == '.' {
        return false;
    }
    if find_double(&local, '.') < local.len() {
        return false;
    }
    if !all_email_local_exec(&local) {
        return false;
    }
    is_hostname(&domain)
}

fn label_ok_exec(l: &Vec<char>) -> (r: bool)
    ensures
        r == label_ok(l@),
{
    if l.len() == 0 || !byte_len_at_most(l, 63) {
        return false;
    }
    if l[0] == '-' || l[l.len() - 1] == '-' {
        return false;
    }
    let mut i: usize = 0;
    while i < l.len()
        invariant
            i <= l@.len(),
            forall|k: int| 0 <= k < i ==> (crate::text::ascii_alnum(#[trigger] l@[k]) || l@[k]
                == '-'),
        decreases l@.len() - i,
    {
        if !(is_ascii_alnum(l[i]) || l[i] == '-') {
            return false;
        }
        i = i + 1;
    }
    true
}

fn is_hostname(s: &Vec<char>) -> (r: bool)
    ensures
        r == hostname_ok(s@),
{
    if s.len() == 0 || !byte_len_at_most(s, 253) || find_first(s, '.', '.') >= s.len() {
        return false;
    }
    if s[0] == '.' || s[s.len() - 1] == '.' {
        return false;
    }
    let labels = split_on(s, '.');
    let ghost ls = split_char(s@, '.');
    let mut k: usize = 0;
    while k < labels.len()
        invariant
            pieces(labels@) == ls,
            ls == split_char(s@, '.'),
            k <= labels@.len(),
            forall|j: int| 0 <= j < k ==> label_ok(#[trigger] ls[j]),
        decreases labels@.len() - k,
    {
        assert(ls[k as int] == labels@[k as int]@);
        if !label_ok_exec(&labels[k]) {
            return false;
        }
        k = k + 1;
    }
    true
}

fn is_leap_year(year: u32) -> (r: bool)
    ensures
        r == leap_year(year as nat),
{
    (year % 4 == 0 && year % 100 != 0) || year % 400 == 0
}

fn days_in_month_exec(year: u32, month: u32) -> (r: u32)
    ensures
        r == days_in_month(year as nat, month as nat),
{
    if month == 1 || month == 3 || month == 5 || month == 7 || month == 8 || month == 10
        || month == 12 {
        31
    } else if month == 4 || month == 6 || month == 9 || month == 11 {
        30
    } else if month == 2 {
        if is_leap_year(year) {
            29
        } else {
            28
        }
    } else {
        0
    }
}

/// Reads a piece whose byte length is `n` (at most 9) as a `u32`.
fn parse_sized(p: &Vec<char>, n: usize) -> (r: Option<u32>)
    requires
        n <= 9,
    ensures
        match r {
            Some(v) => crate::text::byte_len(p@) == n && all_digits(p@) && parse_unsigned(p@, u32_max()) == Some(
                v as nat,
            ),
            None => crate::text::byte_len(p@) != n || !all_digits(p@) || parse_unsigned(p@, u32_max()) is None,
        },
{
    if !byte_len_is(p, n) || !all_digits_exec(p) {
        return None;
    }
    proof {
        lemma_len_le_byte_len(p@);
    }
    parse_unsigned_exec(p, u32::MAX)
}

fn is_date(s: &Vec<char>) -> (r: bool)
    ensures
        r == date_ok(s@),
{
    let parts = split_on(s, '-');
    if parts.len() != 3 {
        return false;
    }
    assert(parts@[0]@ == split_char(s@, '-')[0]);
    assert(parts@[1]@ == split_char(s@, '-')[1]);
    assert(parts@[2]@ == split_char(s@, '-')[2]);
    let y = parse_sized(&parts[0], 4);
    let m = parse_sized(&parts[1], 2);
    let d = parse_sized(&parts[2], 2);
    match (y, m, d) {
        (Some(year), Some(month), Some(day)) => {
            if month < 1 || month > 12 {
                return false;
            }
            let dim = days_in_month_exec(year, month);
            1 <= day && day <= dim
        },
        _ => false,
    }
}

fn all_digits_exec(s: &Vec<char>) -> (r: bool)
    ensures
        r == all_digits(s@),
{
    let mut i: usize = 0;
    while i < s.len()
        invariant
            i <= s@.len(),
            forall|k: int| 0 <= k < i ==> crate::text::ascii_digit(#[trigger] s@[k]),
        decreases s@.len() - i,
    {
        if !is_ascii_digit(s[i]) {
            return false;
        }
        i = i + 1;
    }
    true
}

fn is_valid_offset(tz: &Vec<char>) -> (r: bool)
    ensures
        r == offset_ok(tz@),
{
    if tz.len() != 6 || (tz[0] != '+' && tz[0] != '-') || tz[3] != ':' {
        return false;
    }
    let hh = copy_range(tz, 1, 3);
    let mm = copy_range(tz, 4, 6);
    if !all_digits_exec(&hh) || !all_digits_exec(&mm) {
        return false;
    }
    match (parse_unsigned_exec(&hh, u32::MAX), parse_unsigned_exec(&mm, u32::MAX)) {
        (Some(h), Some(m)) => h <= 23 && m <= 59,
        _ => false,
    }
}

/// The clock part of `s` once its offset is removed, as `time_body` describes.
fn split_offset(s: &Vec<char>) -> (r: Option<Vec<char>>)
    ensures
        match r {
            Some(b) => time_body(s@) == Some(b@),
            None => time_body(s@) is None,
        },
{
    if s.len() > 0 && (s[s.len() - 1] == 'Z' || s[s.len() - 1] == 'z') {
        let body = copy_range(s, 0, s.len() - 1);
        assert(body@ =~= s@.drop_last());
        return Some(body);
    }
    match find_last(s, '+', '-') {
        None => None,
        Some(p) => {
            let body = copy_range(s, 0, p);
            let tz = copy_range(s, p, s.len());
            assert(body@ =~= s@.take(p as int));
            assert(tz@ =~= s@.skip(p as int));
            if byte_len_at_most(&body, 7) {
                return None;
            }
            if !is_valid_offset(&tz) {
                return None;
            }
            Some(body)
        },
    }
}

fn is_clock(body: &Vec<char>) -> (r: bool)
    ensures
        r == clock_ok(body@),
{
    let dot = find_first(body, '.', '.');
    if dot < body.len() {
        let frac = copy_range(body, dot + 1, body.len());
        assert(frac@ =~= body@.skip(dot + 1));
        if frac.len() == 0 || !all_digits_exec(&frac) {
            return false;
        }
    }
    let hms = copy_range(body, 0, dot);
    assert(hms@ =~= body@.take(dot as int));
    let parts = split_on(&hms, ':');
    if parts.len() != 3 {
        return false;
    }
    assert(parts@[0]@ == split_char(hms@, ':')[0]);
    assert(parts@[1]@ == split_char(hms@, ':')[1]);
    assert(parts@[2]@ == split_char(hms@, ':')[2]);
    let h = parse_sized(&parts[0], 2);
    let m = parse_sized(&parts[1], 2);
    let sec = parse_sized(&parts[2], 2);
    match (h, m, sec) {
        (Some(h), Some(m), Some(sec)) => h <= 23 && m <= 59 && sec <= 60,
        _ => false,
    }
}

fn is_time(s: &Vec<char>) -> (r: bool)
    ensures
        r == time_ok(s@),
{
    match split_offset(s) {
        Some(body) => is_clock(&body),
        None => false,
    }
}

fn is_date_time(s: &Vec<char>) -> (r: bool)
    ensures
        r == date_time_ok(s@),
{
    let t = find_first(s, 'T', 't');
    if t >= s.len() {
        return false;
    }
    let date_part = copy_range(s, 0, t);
    let rest = copy_range(s, t + 1, s.len());
    assert(date_part@ =~= s@.take(t as int));
    assert(rest@ =~= s@.skip(t + 1));
    if !is_date(&date_part) {
        return false;
    }
    is_time(&rest)
}

fn is_uri(s: &Vec<char>) -> (r: bool)
    ensures
        r == uri_ok(s@),
{
    if s.len() == 0 {
        return false;
    }
    let mut i: usize = 0;
    while i < s.len()
        invariant
            i <= s@.len(),
            forall|k: int| 0 <= k < i ==> !unicode_whitespace(#[trigger] s@[k]),
        decreases s@.len() - i,
    {
        if is_whitespace(s[i]) {
            return false;
        }
        i = i + 1;
    }
    let colon = find_first(s, ':', ':');
    if colon >= s.len() || colon == 0 {
        return false;
    }
    if !is_ascii_alpha(s[0]) {
        return false;
    }
    let mut j: usize = 1;
    while j < colon
        invariant
            1 <= j <= colon < s@.len(),
            colon == crate::charseq::first_of(s@, ':', ':'),
            forall|k: int| 1 <= k < j ==> scheme_char(#[trigger] s@.take(colon as int)[k]),
        decreases colon - j,
    {
        let c = s[j];
        assert(s@.take(colon as int)[j as int] == c);
        if !(is_ascii_alnum(c) || c == '+' || c == '-' || c == '.') {
            return false;
        }
        j = j + 1;
    }
    colon + 1 < s.len()
}

fn is_ipv4_octet(p: &Vec<char>) -> (r: bool)
    ensures
        r == octet_ok(p@),
{
    if p.len() == 0 || !byte_len_at_most(p, 3) || !all_digits_exec(p) {
        return false;
    }
    proof {
        lemma_len_le_byte_len(p@);
    }
    if !byte_len_at_most(p, 1) && p[0] == '0' {
        return false;
    }
    match parse_unsigned_exec(p, 65535) {
        Some(v) => v <= 255,
        None => false,
    }
}

fn is_ipv4(s: &Vec<char>) -> (r: bool)
    ensures
        r == ipv4_ok(s@),
{
    let parts = split_on(s, '.');
    if parts.len() != 4 {
        return false;
    }
    let ghost p = split_char(s@, '.');
    let mut k: usize = 0;
    while k < 4
        invariant
            pieces(parts@) == p,
            p == split_char(s@, '.'),
            parts@.len() == 4,
            k <= 4,
            forall|j: int| 0 <= j < k ==> octet_ok(#[trigger] p[j]),
        decreases 4 - k,
    {
        assert(p[k as int] == parts@[k as int]@);
        if !is_ipv4_octet(&parts[k]) {
            return false;
        }
        k = k + 1;
    }
    true
}

fn all_hex_exec(s: &Vec<char>) -> (r: bool)
    ensures
        r == all_hex_chars(s@),
{
    let mut i: usize = 0;
    while i < s.len()
        invariant
            i <= s@.len(),
            forall|k: int| 0 <= k < i ==> ascii_hex(#[trigger] s@[k]),
        decreases s@.len() - i,
    {
        if !is_ascii_hex(s[i]) {
            return false;
        }
        i = i + 1;
    }
    true
}

fn is_hex_group(g: &Vec<char>) -> (r: bool)
    ensures
        r == hex_group_ok(g@),
{
    g.len() > 0 && byte_len_at_most(g, 4) && all_hex_exec(g)
}

/// Whether every group of a colon-separated side is a hex group; `r.1` counts the groups.
fn side_ok(side: &Vec<char>) -> (r: (bool, usize))
    ensures
        r.0 == all_groups_ok(side_groups(side@)),
        r.1 == side_groups(side@).len(),
{
    if side.len() == 0 {
        return (true, 0);
    }
    let groups = split_on(side, ':');
    let ghost gs = split_char(side@, ':');
    let mut k: usize = 0;
    while k < groups.len()
        invariant
            pieces(groups@) == gs,
            gs == side_groups(side@),
            k <= groups@.len(),
            forall|j: int| 0 <= j < k ==> hex_group_ok(#[trigger] gs[j]),
        decreases groups@.len() - k,
    {
        assert(gs[k as int] == groups@[k as int]@);
        if !is_hex_group(&groups[k]) {
            return (false, groups.len());
        }
        k = k + 1;
    }
    (true, groups.len())
}

fn is_ipv6(s: &Vec<char>) -> (r: bool)
    ensures
        r == ipv6_ok(s@),
{
    if count_doubles(s, ':') > 1 {
        return false;
    }
    let pos = find_double(s, ':');
    if pos < s.len() {
        let left = copy_range(s, 0, pos);
        let right = copy_range(s, pos + 2, s.len());
        assert(left@ =~= s@.take(pos as int));
        assert(right@ =~= s@.skip(pos + 2));
        let (lok, ln) = side_ok(&left);
        let (rok, rn) = side_ok(&right);
        ln < 8 && rn < 8 - ln && lok && rok
    } else {
        let groups = split_on(s, ':');
        if groups.len() != 8 {
            return false;
        }
        let ghost gs = split_char(s@, ':');
        let mut k: usize = 0;
        while k < 8
            invariant
                pieces(groups@) == gs,
                gs == split_char(s@, ':'),
                groups@.len() == 8,
                k <= 8,
                crate::charseq::first_double(s@, ':') == s@.len(),
                forall|j: int| 0 <= j < k ==> hex_group_ok(#[trigger] gs[j]),
            decreases 8 - k,
        {
            assert(gs[k as int] == groups@[k as int]@);
            if !is_hex_group(&groups[k]) {
                return false;
            }
            k = k + 1;
        }
        true
    }
}

fn is_uuid_part(p: &Vec<char>, n: usize) -> (r: bool)
    ensures
        r == uuid_part_ok(p@, n as nat),
{
    byte_len_is(p, n) && all_hex_exec(p)
}

fn is_uuid(s: &Vec<char>) -> (r: bool)
    ensures
        r == uuid_ok(s@),
{
    let parts = split_on(s, '-');
    if parts.len() != 5 {
        return false;
    }
    let ghost p = split_char(s@, '-');
    assert(parts@[0]@ == p[0]);
    assert(parts@[1]@ == p[1]);
    assert(parts@[2]@ == p[2]);
    assert(parts@[3]@ == p[3]);
    assert(parts@[4]@ == p[4]);
    is_uuid_part(&parts[0], 8) && is_uuid_part(&parts[1], 4) && is_uuid_part(&parts[2], 4)
        && is_uuid_part(&parts[3], 4) && is_uuid_part(&parts[4], 12)
}

} // verus!
