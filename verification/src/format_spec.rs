//! What each supported `format` keyword value accepts, stated over the characters of the value.
//!
//! Lengths that the validators compare against a bound are UTF-8 byte lengths (`byte_len`).
//! Positions are character positions; where a validator slices at a byte position, the
//! characters before that position are ASCII whenever the value can still be accepted, so the
//! two coincide.
use vstd::prelude::*;
use crate::charseq::{
    all_digits, double_count, first_double, first_of, last_of, parse_unsigned, split_char,
};
use crate::text::{ascii_alnum, ascii_alpha, ascii_hex, byte_len, unicode_whitespace};

verus! {

pub open spec fn u32_max() -> nat {
    u32::MAX as nat
}

pub open spec fn all_hex_chars(s: Seq<char>) -> bool {
    forall|i: int| 0 <= i < s.len() ==> ascii_hex(#[trigger] s[i])
}

/// Characters allowed in the local part of an email address.
pub open spec fn email_local_char(c: char) -> bool {
    ascii_alnum(c) || c == '.' || c == '_' || c == '%' || c == '+' || c == '-'
}

pub open spec fn all_email_local(s: Seq<char>) -> bool {
    forall|i: int| 0 <= i < s.len() ==> email_local_char(#[trigger] s[i])
}

/// A hostname label: 1 to 63 bytes of ASCII letters, digits and `-`, not starting or ending
/// with `-`.
pub open spec fn label_ok(l: Seq<char>) -> bool {
    &&& l.len() > 0
    &&& byte_len(l) <= 63
    &&& l[0] != '-'
    &&& l.last() != '-'
    &&& forall|i: int| 0 <= i < l.len() ==> (ascii_alnum(#[trigger] l[i]) || l[i] == '-')
}

/// A dotted hostname of at most 253 bytes with at least one dot.
pub open spec fn hostname_ok(s: Seq<char>) -> bool {
    let labels = split_char(s, '.');
    &&& s.len() > 0
    &&& byte_len(s) <= 253
    &&& first_of(s, '.', '.') < s.len()
    &&& s[0] != '.'
    &&& s.last() != '.'
    &&& forall|k: int| 0 <= k < labels.len() ==> label_ok(#[trigger] labels[k])
}

/// `local@domain`, split at the first `@`.
pub open spec fn email_ok(s: Seq<char>) -> bool {
    let at = first_of(s, '@', '@');
    let local = s.take(at);
    &&& s.len() > 0
    &&& at < s.len()
    &&& local.len() > 0
    &&& byte_len(local) <= 64
    &&& local[0] != '.'
    &&& local.last() != '.'
    &&& first_double(local, '.') == local.len()
    &&& all_email_local(local)
    &&& hostname_ok(s.skip(at + 1))
}

pub open spec fn leap_year(year: nat) -> bool {
    (year % 4 == 0 && year % 100 != 0) || year % 400 == 0
}

pub open spec fn days_in_month(year: nat, month: nat) -> nat {
    if month == 1 || month == 3 || month == 5 || month == 7 || month == 8 || month == 10
        || month == 12 {
        31
    } else if month == 4 || month == 6 || month == 9 || month == 11 {
        30
    } else if month == 2 {
        if leap_year(year) {
            29
        } else {
            28
        }
    } else {
        0
    }
}

/// `YYYY-MM-DD` in ASCII digits, a day that exists in the proleptic Gregorian calendar.
pub open spec fn date_ok(s: Seq<char>) -> bool {
    let p = split_char(s, '-');
    &&& p.len() == 3
    &&& all_digits(p[0]) && all_digits(p[1]) && all_digits(p[2])
    &&& byte_len(p[0]) == 4
    &&& byte_len(p[1]) == 2
    &&& byte_len(p[2]) == 2
    &&& match (
        parse_unsigned(p[0], u32_max()),
        parse_unsigned(p[1], u32_max()),
        parse_unsigned(p[2], u32_max()),
    ) {
        (Some(year), Some(month), Some(day)) => 1 <= month <= 12 && 1 <= day <= days_in_month(
            year,
            month,
        ),
        _ => false,
    }
}

/// `+HH:MM` or `-HH:MM` in ASCII digits with an hour up to 23 and a minute up to 59.
pub open spec fn offset_ok(tz: Seq<char>) -> bool {
    &&& tz.len() == 6
    &&& all_digits(tz.subrange(1, 3)) && all_digits(tz.subrange(4, 6))
    &&& (tz[0] == '+' || tz[0] == '-')
    &&& tz[3] == ':'
    &&& match (
        parse_unsigned(tz.subrange(1, 3), u32_max()),
        parse_unsigned(tz.subrange(4, 6), u32_max()),
    ) {
        (Some(h), Some(m)) => h <= 23 && m <= 59,
        _ => false,
    }
}

/// The clock part of a time once its offset is removed, or `None` when the time has no valid
/// offset: a final `Z`/`z`, or a `+`/`-` offset at the last sign, which must stand at byte 8
/// or later.
pub open spec fn time_body(s: Seq<char>) -> Option<Seq<char>> {
    if s.len() > 0 && (s.last() == 'Z' || s.last() == 'z') {
        Some(s.drop_last())
    } else {
        let p = last_of(s, '+', '-');
        if p >= 0 && byte_len(s.take(p)) >= 8 && offset_ok(s.skip(p)) {
            Some(s.take(p))
        } else {
            None
        }
    }
}

/// `HH:MM:SS` in ASCII digits with an optional non-empty decimal fraction; a second of 60 is
/// a leap second.
pub open spec fn clock_ok(body: Seq<char>) -> bool {
    let dot = first_of(body, '.', '.');
    let p = split_char(body.take(dot), ':');
    &&& (dot < body.len() ==> body.skip(dot + 1).len() > 0 && all_digits(body.skip(dot + 1)))
    &&& p.len() == 3
    &&& all_digits(p[0]) && all_digits(p[1]) && all_digits(p[2])
    &&& byte_len(p[0]) == 2
    &&& byte_len(p[1]) == 2
    &&& byte_len(p[2]) == 2
    &&& match (
        parse_unsigned(p[0], u32_max()),
        parse_unsigned(p[1], u32_max()),
        parse_unsigned(p[2], u32_max()),
    ) {
        (Some(h), Some(m), Some(sec)) => h <= 23 && m <= 59 && sec <= 60,
        _ => false,
    }
}

pub open spec fn time_ok(s: Seq<char>) -> bool {
    match time_body(s) {
        Some(body) => clock_ok(body),
        None => false,
    }
}

/// A date, then `T` or `t`, then a time with an offset.
pub open spec fn date_time_ok(s: Seq<char>) -> bool {
    let t = first_of(s, 'T', 't');
    &&& t < s.len()
    &&& date_ok(s.take(t))
    &&& time_ok(s.skip(t + 1))
}

pub open spec fn scheme_char(c: char) -> bool {
    ascii_alnum(c) || c == '+' || c == '-' || c == '.'
}

/// `scheme:rest` with no whitespace anywhere, a scheme that starts with an ASCII letter, and a
/// non-empty rest.
pub open spec fn uri_ok(s: Seq<char>) -> bool {
    let colon = first_of(s, ':', ':');
    let scheme = s.take(colon);
    &&& s.len() > 0
    &&& forall|i: int| 0 <= i < s.len() ==> !unicode_whitespace(#[trigger] s[i])
    &&& colon < s.len()
    &&& scheme.len() > 0
    &&& ascii_alpha(scheme[0])
    &&& forall|i: int| 1 <= i < scheme.len() ==> scheme_char(#[trigger] scheme[i])
    &&& colon + 1 < s.len()
}

/// A decimal octet from 0 to 255 without a leading zero.
pub open spec fn octet_ok(p: Seq<char>) -> bool {
    &&& p.len() > 0
    &&& byte_len(p) <= 3
    &&& all_digits(p)
    &&& !(byte_len(p) > 1 && p[0] == '0')
    &&& match parse_unsigned(p, u16::MAX as nat) {
        Some(v) => v <= 255,
        None => false,
    }
}

pub open spec fn ipv4_ok(s: Seq<char>) -> bool {
    let p = split_char(s, '.');
    &&& p.len() == 4
    &&& forall|k: int| 0 <= k < 4 ==> octet_ok(#[trigger] p[k])
}

/// One to four hex digits.
pub open spec fn hex_group_ok(g: Seq<char>) -> bool {
    g.len() > 0 && byte_len(g) <= 4 && all_hex_chars(g)
}

pub open spec fn all_groups_ok(gs: Seq<Seq<char>>) -> bool {
    forall|k: int| 0 <= k < gs.len() ==> hex_group_ok(#[trigger] gs[k])
}

/// The colon-separated groups of one side of a `::`; an empty side has none.
pub open spec fn side_groups(side: Seq<char>) -> Seq<Seq<char>> {
    if side.len() == 0 {
        Seq::empty()
    } else {
        split_char(side, ':')
    }
}

/// Eight hex groups, or fewer around one `::` that stands for the missing ones.
pub open spec fn ipv6_ok(s: Seq<char>) -> bool {
    let pos = first_double(s, ':');
    let left = side_groups(s.take(pos));
    let right = side_groups(s.skip(pos + 2));
    &&& double_count(s, ':') <= 1
    &&& if pos < s.len() {
        left.len() + right.len() < 8 && all_groups_ok(left) && all_groups_ok(right)
    } else {
        split_char(s, ':').len() == 8 && all_groups_ok(split_char(s, ':'))
    }
}

pub open spec fn uuid_part_ok(p: Seq<char>, n: nat) -> bool {
    byte_len(p) == n && all_hex_chars(p)
}

/// Five hyphen-separated hex groups of 8, 4, 4, 4 and 12 digits.
pub open spec fn uuid_ok(s: Seq<char>) -> bool {
    let p = split_char(s, '-');
    &&& p.len() == 5
    &&& uuid_part_ok(p[0], 8)
    &&& uuid_part_ok(p[1], 4)
    &&& uuid_part_ok(p[2], 4)
    &&& uuid_part_ok(p[3], 4)
    &&& uuid_part_ok(p[4], 12)
}

} // verus!
