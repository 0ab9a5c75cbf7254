//! Device and session ids: 128-bit numbers, shown and read as UUID text.

use vstd::prelude::*;
use crate::ip::digit_char;
use crate::pow::{lemma_pow16_32, pow16};

verus! {

/// The `n` low-order hex digits of `v`, most significant first, lowercase.
pub open spec fn hex_fixed(v: nat, n: nat) -> Seq<char>
    decreases n,
{
    if n == 0 {
        Seq::empty()
    } else {
        hex_fixed(v / 16, (n - 1) as nat).push(digit_char(v % 16))
    }
}

/// The hyphenated lowercase text of an id, as in
/// `67e55044-10b1-426f-9247-bb680e5fe0c8`: its 32 hex digits in groups of
/// 8, 4, 4, 4 and 12.
pub open spec fn uuid_text(id: u128) -> Seq<char> {
    let h = hex_fixed(id as nat, 32);
    h.subrange(0, 8) + seq!['-'] + h.subrange(8, 12) + seq!['-'] + h.subrange(12, 16) + seq!['-']
        + h.subrange(16, 20) + seq!['-'] + h.subrange(20, 32)
}

/// The value of the hex digit `c`, in either case.
pub open spec fn hex_digit_value(c: char) -> Option<nat> {
    let n = c as int;
    if 48 <= n <= 57 {
        Some((n - 48) as nat)
    } else if 97 <= n <= 102 {
        Some((n - 87) as nat)
    } else if 65 <= n <= 70 {
        Some((n - 55) as nat)
    } else {
        None
    }
}

/// The number that the hex digits `s` write, most significant first; `None`
/// where one of them is no hex digit.
pub open spec fn hex_number(s: Seq<char>) -> Option<nat>
    decreases s.len(),
{
    if s.len() == 0 {
        Some(0)
    } else {
        match (hex_number(s.drop_last()), hex_digit_value(s.last())) {
            (Some(h), Some(d)) => Some(h * 16 + d),
            _ => None,
        }
    }
}

/// The 32 digits of hyphenated text: 36 characters with `-` at 8, 13, 18
/// and 23 and the digits in between.
pub open spec fn hyphenated_digits(s: Seq<char>) -> Option<Seq<char>> {
    if s.len() == 36 && s[8] == '-' && s[13] == '-' && s[18] == '-' && s[23] == '-' {
        Some(
            s.subrange(0, 8) + s.subrange(9, 13) + s.subrange(14, 18) + s.subrange(19, 23)
                + s.subrange(24, 36),
        )
    } else {
        None
    }
}

/// `c` is the lowercase ASCII character `lower`, in either case.
pub open spec fn eq_ignore_ascii_case(c: char, lower: char) -> bool {
    ||| c == lower
    ||| 97 <= lower as int <= 122 && c as int == lower as int - 32
}

/// `p` is `urn:uuid:`, in any mix of cases.
pub open spec fn is_urn_prefix(p: Seq<char>) -> bool {
    let urn = seq!['u', 'r', 'n', ':', 'u', 'u', 'i', 'd', ':'];
    p.len() == 9 && forall|i: int| 0 <= i < 9 ==> eq_ignore_ascii_case(#[trigger] p[i], urn[i])
}

/// The digits of a UUID text in the forms that `Uuid::parse_str` reads: 32
/// digits alone; hyphenated (36 characters); hyphenated in braces (38); or
/// hyphenated after `urn:uuid:` (45).
pub open spec fn uuid_digits(s: Seq<char>) -> Option<Seq<char>> {
    if s.len() == 32 {
        Some(s)
    } else if s.len() == 36 {
        hyphenated_digits(s)
    } else if s.len() == 38 && s[0] == '{' && s[37] == '}' {
        hyphenated_digits(s.subrange(1, 37))
    } else if s.len() == 45 && is_urn_prefix(s.subrange(0, 9)) {
        hyphenated_digits(s.subrange(9, 45))
    } else {
        None
    }
}

/// The id that the UUID text `s` names: the big-endian value of its 32 hex
/// digits, in either case; `None` where `s` is no UUID text.
pub open spec fn uuid_parse(s: Seq<char>) -> Option<u128> {
    match uuid_digits(s) {
        Some(d) => match hex_number(d) {
            Some(v) => Some(v as u128),
            None => None,
        },
        None => None,
    }
}

/// `Uuid::from_u128(id).to_string()`: the hyphenated lowercase text of the
/// UUID whose big-endian value is `id`.
#[verifier::external_body]
pub(crate) fn uuid_to_string(id: u128) -> (s: String)
    ensures
        s@ == uuid_text(id),
{
    uuid::Uuid::from_u128(id).to_string()
}

/// `Uuid::parse_str(s)`, read as the UUID's big-endian value: it reads the
/// simple, hyphenated, braced and URN forms, hex digits in either case, as
/// `uuid_parse` states them, and refuses any other text.
#[verifier::external_body]
pub(crate) fn uuid_parse_str(s: &str) -> (r: Option<u128>)
    ensures
        r == uuid_parse(s@),
{
    match uuid::Uuid::parse_str(s) {
        Ok(u) => Some(u.as_u128()),
        Err(_) => None,
    }
}

proof fn lemma_hex_digit_value(d: nat)
    requires
        d < 16,
    ensures
        hex_digit_value(digit_char(d)) == Some(d),
{
}

/// The `n` low-order digits of `v` read back as `v` modulo `16^n`.
proof fn lemma_hex_fixed_number(v: nat, n: nat)
    ensures
        hex_fixed(v, n).len() == n,
        hex_number(hex_fixed(v, n)) == Some(v % pow16(n)),
    decreases n,
{
    if n == 0 {
        assert(v % 1 == 0);
    } else {
        let m = (n - 1) as nat;
        lemma_hex_fixed_number(v / 16, m);
        let s = hex_fixed(v, n);
        assert(s.drop_last() =~= hex_fixed(v / 16, m));
        lemma_hex_digit_value(v % 16);
        lemma_pow16_positive(m);
        vstd::arithmetic::div_mod::lemma_breakdown(v as int, 16, pow16(m) as int);
    }
}

proof fn lemma_pow16_positive(n: nat)
    ensures
        pow16(n) >= 1,
    decreases n,
{
    if n > 0 {
        lemma_pow16_positive((n - 1) as nat);
    }
}

/// The hyphenated text of an id reads back as that id.
pub proof fn lemma_uuid_text_parses(id: u128)
    ensures
        uuid_parse(uuid_text(id)) == Some(id),
{
    let h = hex_fixed(id as nat, 32);
    lemma_hex_fixed_number(id as nat, 32);
    lemma_pow16_32();
    let t = uuid_text(id);
    assert(t.len() == 36);
    assert(t[8] == '-' && t[13] == '-' && t[18] == '-' && t[23] == '-');
    assert(t.subrange(0, 8) + t.subrange(9, 13) + t.subrange(14, 18) + t.subrange(19, 23)
        + t.subrange(24, 36) =~= h);
    assert(uuid_digits(t) == Some(h));
}

} // verus!
