//! The client address of a request and the group that the request limits
//! count it in.

use vstd::prelude::*;
use vstd::string::*;

verus! {

/// An IP address: the four octets of an IPv4 address, or the eight
/// segments of an IPv6 address.
#[derive(Debug, Clone, Copy, PartialEq, Eq)]
pub enum IpAddress {
    V4([u8; 4]),
    V6([u16; 8]),
}

/// `String::push`: appends `c` to `s`.
#[verifier::external_body]
fn push_char(s: &mut String, c: char)
    ensures
        final(s)@ == old(s)@.push(c),
{
    s.push(c)
}

/// The digit of value `d` (below 16): `0`-`9`, then `a`-`f`.
pub open spec fn digit_char(d: nat) -> char {
    if d < 10 {
        (48 + d) as char
    } else {
        (87 + d) as char
    }
}

/// The digits of `n` in base `base` (2 to 16), without leading zeros.
pub open spec fn digits(n: nat, base: nat) -> Seq<char>
    decreases n,
{
    if base < 2 || n < base {
        seq![digit_char(n % base)]
    } else {
        proof {
            assert(n / base < n) by (nonlinear_arith)
                requires
                    base >= 2,
                    n >= base,
            ;
        }
        digits(n / base, base).push(digit_char(n % base))
    }
}

/// The group of `ip` as text: an IPv4 address in dotted decimal (each
/// address is a group of its own), an IPv6 address as its /64 prefix, its
/// first four segments in lowercase hex joined by `:`.
pub open spec fn spec_ip_group(ip: IpAddress) -> Seq<char> {
    match ip {
        IpAddress::V4(o) => digits(o@[0] as nat, 10) + seq!['.'] + digits(o@[1] as nat, 10) + seq![
            '.',
        ] + digits(o@[2] as nat, 10) + seq!['.'] + digits(o@[3] as nat, 10),
        IpAddress::V6(s) => digits(s@[0] as nat, 16) + seq![':'] + digits(s@[1] as nat, 16) + seq![
            ':',
        ] + digits(s@[2] as nat, 16) + seq![':'] + digits(s@[3] as nat, 16),
    }
}

fn digit(d: u32) -> (c: char)
    requires
        d < 16,
    ensures
        c == digit_char(d as nat),
{
    if d < 10 {
        ((48 + d) as u8) as char
    } else {
        ((87 + d) as u8) as char
    }
}

fn push_digits(out: &mut String, n: u32, base: u32)
    requires
        2 <= base <= 16,
    ensures
        final(out)@ == old(out)@ + digits(n as nat, base as nat),
    decreases n,
{
    if n >= base {
        assert(n / base < n) by (nonlinear_arith)
            requires
                base >= 2,
                n >= base,
        ;
        push_digits(out, n / base, base);
    }
    push_char(out, digit(n % base));
    assert(old(out)@ + digits(n as nat, base as nat) =~= final(out)@) by {
        if n >= base {
            assert(digits(n as nat, base as nat) == digits((n / base) as nat, base as nat).push(
                digit_char((n % base) as nat),
            ));
        }
    }
}

/// The request-limit group of `ip`: IPv4 addresses are grouped one by one,
/// IPv6 addresses by /64 prefix.
pub fn get_ip_group(ip: IpAddress) -> (r: String)
    ensures
        r@ == spec_ip_group(ip),
{
    let mut out = String::new();
    match ip {
        IpAddress::V4(o) => {
            push_digits(&mut out, o[0] as u32, 10);
            push_char(&mut out, '.');
            push_digits(&mut out, o[1] as u32, 10);
            push_char(&mut out, '.');
            push_digits(&mut out, o[2] as u32, 10);
            push_char(&mut out, '.');
            push_digits(&mut out, o[3] as u32, 10);
        },
        IpAddress::V6(s) => {
            push_digits(&mut out, s[0] as u32, 16);
            push_char(&mut out, ':');
            push_digits(&mut out, s[1] as u32, 16);
            push_char(&mut out, ':');
            push_digits(&mut out, s[2] as u32, 16);
            push_char(&mut out, ':');
            push_digits(&mut out, s[3] as u32, 16);
        },
    }
    assert(out@ =~= spec_ip_group(ip));
    out
}

proof fn lemma_digit_char_injective(a: nat, b: nat)
    requires
        a < 16,
        b < 16,
        digit_char(a) == digit_char(b),
    ensures
        a == b,
{
}

proof fn lemma_digits_facts(n: nat, base: nat)
    requires
        2 <= base <= 16,
    ensures
        digits(n, base).len() >= 1,
        digits(n, base).len() == 1 <==> n < base,
        forall|i: int|
            0 <= i < digits(n, base).len() ==> #[trigger] digits(n, base)[i] != '.'
                && digits(n, base)[i] != ':',
    decreases n,
{
    if n >= base {
        assert(n / base < n) by (nonlinear_arith)
            requires
                base >= 2,
                n >= base,
        ;
        lemma_digits_facts(n / base, base);
        let d = digits(n, base);
        assert forall|i: int| 0 <= i < d.len() implies #[trigger] d[i] != '.' && d[i] != ':' by {
            if i < d.len() - 1 {
                assert(d[i] == digits(n / base, base)[i]);
            }
        }
    }
}

/// Different numbers have different digits.
proof fn lemma_digits_injective(n: nat, m: nat, base: nat)
    requires
        2 <= base <= 16,
        digits(n, base) == digits(m, base),
    ensures
        n == m,
    decreases n,
{
    lemma_digits_facts(n, base);
    lemma_digits_facts(m, base);
    let d = digits(n, base);
    assert(digits(n, base).last() == digit_char(n % base));
    assert(digits(m, base).last() == digit_char(m % base));
    assert(n % base < 16 && m % base < 16) by (nonlinear_arith)
        requires
            2 <= base <= 16,
    ;
    lemma_digit_char_injective(n % base, m % base);
    if n >= base {
        assert(n / base < n) by (nonlinear_arith)
            requires
                base >= 2,
                n >= base,
        ;
        assert(d.drop_last() == digits(n / base, base));
        assert(d.drop_last() == digits(m / base, base));
        lemma_digits_injective(n / base, m / base, base);
        assert(n == (n / base) * base + n % base && m == (m / base) * base + m % base) by (nonlinear_arith)
            requires
                base >= 2,
        ;
    } else {
        assert(m < base);
        assert(n % base == n && m % base == m) by (nonlinear_arith)
            requires
                n < base,
                m < base,
        ;
    }
}

/// Text split at a separator that the first parts do not hold splits back
/// into the same parts.
proof fn lemma_split_at_separator(x1: Seq<char>, y1: Seq<char>, x2: Seq<char>, y2: Seq<char>, sep: char)
    requires
        x1 + seq![sep] + y1 == x2 + seq![sep] + y2,
        forall|i: int| 0 <= i < x1.len() ==> x1[i] != sep,
        forall|i: int| 0 <= i < x2.len() ==> x2[i] != sep,
    ensures
        x1 == x2,
        y1 == y2,
{
    let w = x1 + seq![sep] + y1;
    if x1.len() < x2.len() {
        assert(w[x1.len() as int] == sep);
        assert(w[x1.len() as int] == x2[x1.len() as int]);
    } else if x2.len() < x1.len() {
        assert(w[x2.len() as int] == sep);
        assert(w[x2.len() as int] == x1[x2.len() as int]);
    }
    assert(x1 =~= w.take(x1.len() as int));
    assert(x2 =~= (x2 + seq![sep] + y2).take(x2.len() as int));
    assert(y1 =~= w.skip(x1.len() as int + 1));
    assert(y2 =~= (x2 + seq![sep] + y2).skip(x2.len() as int + 1));
}

/// The group text of four parts joined by `sep`, split back into its parts.
proof fn lemma_split_four(
    x: (nat, nat, nat, nat),
    y: (nat, nat, nat, nat),
    base: nat,
    sep: char,
)
    requires
        2 <= base <= 16,
        sep == '.' || sep == ':',
        digits(x.0, base) + seq![sep] + digits(x.1, base) + seq![sep] + digits(x.2, base) + seq![sep]
            + digits(x.3, base) == digits(y.0, base) + seq![sep] + digits(y.1, base) + seq![sep]
            + digits(y.2, base) + seq![sep] + digits(y.3, base),
    ensures
        x == y,
{
    lemma_digits_facts(x.0, base);
    lemma_digits_facts(x.1, base);
    lemma_digits_facts(x.2, base);
    lemma_digits_facts(y.0, base);
    lemma_digits_facts(y.1, base);
    lemma_digits_facts(y.2, base);
    let (a0, a1, a2, a3) = (digits(x.0, base), digits(x.1, base), digits(x.2, base), digits(x.3, base));
    let (b0, b1, b2, b3) = (digits(y.0, base), digits(y.1, base), digits(y.2, base), digits(y.3, base));
    assert(a0 + seq![sep] + a1 + seq![sep] + a2 + seq![sep] + a3 =~= a0 + seq![sep] + (a1 + seq![sep]
        + a2 + seq![sep] + a3));
    assert(b0 + seq![sep] + b1 + seq![sep] + b2 + seq![sep] + b3 =~= b0 + seq![sep] + (b1 + seq![sep]
        + b2 + seq![sep] + b3));
    lemma_split_at_separator(a0, a1 + seq![sep] + a2 + seq![sep] + a3, b0, b1 + seq![sep] + b2
        + seq![sep] + b3, sep);
    assert(a1 + seq![sep] + a2 + seq![sep] + a3 =~= a1 + seq![sep] + (a2 + seq![sep] + a3));
    assert(b1 + seq![sep] + b2 + seq![sep] + b3 =~= b1 + seq![sep] + (b2 + seq![sep] + b3));
    lemma_split_at_separator(a1, a2 + seq![sep] + a3, b1, b2 + seq![sep] + b3, sep);
    lemma_split_at_separator(a2, a3, b2, b3, sep);
    lemma_digits_injective(x.0, y.0, base);
    lemma_digits_injective(x.1, y.1, base);
    lemma_digits_injective(x.2, y.2, base);
    lemma_digits_injective(x.3, y.3, base);
}

/// Two IPv6 addresses are in one group exactly when they share their /64
/// prefix (their first four segments); two IPv4 addresses exactly when they
/// are the same address; an IPv4 and an IPv6 address never are.
pub proof fn lemma_ip_group_identifies_prefix(a: IpAddress, b: IpAddress)
    ensures
        spec_ip_group(a) == spec_ip_group(b) <==> match (a, b) {
            (IpAddress::V4(x), IpAddress::V4(y)) => x@ == y@,
            (IpAddress::V6(x), IpAddress::V6(y)) => x@.take(4) == y@.take(4),
            _ => false,
        },
{
    match (a, b) {
        (IpAddress::V4(x), IpAddress::V4(y)) => {
            if spec_ip_group(a) == spec_ip_group(b) {
                lemma_split_four(
                    (x@[0] as nat, x@[1] as nat, x@[2] as nat, x@[3] as nat),
                    (y@[0] as nat, y@[1] as nat, y@[2] as nat, y@[3] as nat),
                    10,
                    '.',
                );
                assert(x@ =~= y@);
            }
        },
        (IpAddress::V6(x), IpAddress::V6(y)) => {
            if spec_ip_group(a) == spec_ip_group(b) {
                lemma_split_four(
                    (x@[0] as nat, x@[1] as nat, x@[2] as nat, x@[3] as nat),
                    (y@[0] as nat, y@[1] as nat, y@[2] as nat, y@[3] as nat),
                    16,
                    ':',
                );
                assert(x@.take(4) =~= y@.take(4));
            }
            if x@.take(4) == y@.take(4) {
                assert(x@[0] == x@.take(4)[0] && x@[1] == x@.take(4)[1]);
                assert(x@[2] == x@.take(4)[2] && x@[3] == x@.take(4)[3]);
            }
        },
        (IpAddress::V4(x), IpAddress::V6(y)) => {
            lemma_group_separators(a, b);
        },
        (IpAddress::V6(x), IpAddress::V4(y)) => {
            lemma_group_separators(b, a);
        },
    }
}

/// The group of an IPv4 address holds `.` and no `:`; that of an IPv6
/// address the other way round.
proof fn lemma_group_separators(a: IpAddress, b: IpAddress)
    requires
        a is V4,
        b is V6,
    ensures
        spec_ip_group(a) != spec_ip_group(b),
{
    if let (IpAddress::V4(x), IpAddress::V6(y)) = (a, b) {
        let ga = spec_ip_group(a);
        let gb = spec_ip_group(b);
        lemma_digits_facts(x@[0] as nat, 10);
        lemma_digits_facts(y@[0] as nat, 16);
        lemma_digits_facts(y@[1] as nat, 16);
        lemma_digits_facts(y@[2] as nat, 16);
        lemma_digits_facts(y@[3] as nat, 16);
        let k = digits(x@[0] as nat, 10).len() as int;
        assert(ga[k] == '.');
        let d0 = digits(y@[0] as nat, 16);
        let d1 = digits(y@[1] as nat, 16);
        let d2 = digits(y@[2] as nat, 16);
        let d3 = digits(y@[3] as nat, 16);
        assert(gb == d0 + seq![':'] + d1 + seq![':'] + d2 + seq![':'] + d3);
        assert forall|i: int| 0 <= i < gb.len() implies gb[i] != '.' by {
            let s1 = d0 + seq![':'];
            let s2 = s1 + d1;
            let s3 = s2 + seq![':'];
            let s4 = s3 + d2;
            let s5 = s4 + seq![':'];
            if i < d0.len() {
                assert(gb[i] == d0[i]);
            } else if i < s2.len() && i >= s1.len() {
                assert(gb[i] == d1[i - s1.len()]);
            } else if i < s4.len() && i >= s3.len() {
                assert(gb[i] == d2[i - s3.len()]);
            } else if i >= s5.len() {
                assert(gb[i] == d3[i - s5.len()]);
            }
        }
    }
}

/// Whether `c` is white space (has the Unicode `White_Space` property).
pub open spec fn is_whitespace(c: char) -> bool {
    ('\t' <= c && c <= '\r') || c == ' ' || c == '\u{85}' || c == '\u{a0}' || c == '\u{1680}' || (
    '\u{2000}' <= c && c <= '\u{200a}') || c == '\u{2028}' || c == '\u{2029}' || c == '\u{202f}'
        || c == '\u{205f}' || c == '\u{3000}'
}

/// The text after the last `,` of `s` (all of `s` where it has none).
pub open spec fn last_segment(s: Seq<char>) -> Seq<char>
    decreases s.len(),
{
    if s.len() == 0 || s.last() == ',' {
        Seq::empty()
    } else {
        last_segment(s.drop_last()).push(s.last())
    }
}

/// `s` without its trailing white space.
pub open spec fn trim_end(s: Seq<char>) -> Seq<char>
    decreases s.len(),
{
    if s.len() > 0 && is_whitespace(s.last()) {
        trim_end(s.drop_last())
    } else {
        s
    }
}

/// `s` without its leading white space.
pub open spec fn trim_start(s: Seq<char>) -> Seq<char>
    decreases s.len(),
{
    if s.len() > 0 && is_whitespace(s[0]) {
        trim_start(s.drop_first())
    } else {
        s
    }
}

/// The client address that an `x-forwarded-for` header names: its last
/// comma-separated component (the hop that a trusted proxy appended),
/// without surrounding white space.
pub open spec fn spec_forwarded_ip_text(header: Seq<char>) -> Seq<char> {
    trim_start(trim_end(last_segment(header)))
}

fn is_ws(c: char) -> (r: bool)
    ensures
        r == is_whitespace(c),
{
    ('\t' <= c && c <= '\r') || c == ' ' || c == '\u{85}' || c == '\u{a0}' || c == '\u{1680}' || (
    '\u{2000}' <= c && c <= '\u{200a}') || c == '\u{2028}' || c == '\u{2029}' || c == '\u{202f}'
        || c == '\u{205f}' || c == '\u{3000}'
}

/// The text of the client address that an `x-forwarded-for` header names
/// (its last comma-separated component, trimmed); the caller parses it.
pub fn forwarded_ip_text(header: &str) -> (r: String)
    ensures
        r@ == spec_forwarded_ip_text(header@),
{
    let n = header.unicode_len();
    let ghost s = header@;
    let mut i: usize = n;
    assert(s.take(n as int) =~= s);
    assert(last_segment(s) + s.subrange(n as int, n as int) =~= last_segment(s));
    while i > 0
        invariant
            i <= n,
            n == s.len(),
            s == header@,
            last_segment(s) == last_segment(s.take(i as int)) + s.subrange(i as int, n as int),
        ensures
            i <= n,
            last_segment(s) == last_segment(s.take(i as int)) + s.subrange(i as int, n as int),
            i == 0 || s[i - 1] == ',',
        decreases i,
    {
        let c = header.get_char(i - 1);
        if c == ',' {
            break;
        }
        proof {
            let t = s.take(i as int);
            assert(t.drop_last() =~= s.take(i - 1));
            assert(s.subrange(i - 1, n as int) =~= seq![c] + s.subrange(i as int, n as int));
            assert(last_segment(s.take(i - 1)).push(c) + s.subrange(i as int, n as int)
                =~= last_segment(s.take(i - 1)) + s.subrange(i - 1, n as int));
        }
        i = i - 1;
    }
    let ghost seg = s.subrange(i as int, n as int);
    proof {
        if i == 0 {
            assert(s.take(0) =~= Seq::<char>::empty());
        } else {
            assert(s.take(i as int).last() == s[i - 1]);
        }
        assert(last_segment(s) =~= seg);
    }
    let mut e: usize = n;
    while e > i
        invariant
            i <= e <= n,
            n == s.len(),
            s == header@,
            seg == s.subrange(i as int, n as int),
            trim_end(seg) == trim_end(s.subrange(i as int, e as int)),
        ensures
            i <= e <= n,
            trim_end(seg) == trim_end(s.subrange(i as int, e as int)),
            e == i || !is_whitespace(s[e - 1]),
        decreases e,
    {
        let c = header.get_char(e - 1);
        if !is_ws(c) {
            break;
        }
        assert(s.subrange(i as int, e as int).drop_last() =~= s.subrange(i as int, e - 1));
        e = e - 1;
    }
    let ghost te = s.subrange(i as int, e as int);
    assert(trim_end(seg) == te) by {
        if e > i {
            assert(te.last() == s[e - 1]);
        }
    }
    let mut b: usize = i;
    while b < e
        invariant
            i <= b <= e <= n,
            n == s.len(),
            s == header@,
            trim_start(te) == trim_start(s.subrange(b as int, e as int)),
            te == s.subrange(i as int, e as int),
        ensures
            i <= b <= e,
            trim_start(te) == trim_start(s.subrange(b as int, e as int)),
            b == e || !is_whitespace(s[b as int]),
        decreases e - b,
    {
        let c = header.get_char(b);
        if !is_ws(c) {
            break;
        }
        assert(s.subrange(b as int, e as int).drop_first() =~= s.subrange(b + 1, e as int));
        b = b + 1;
    }
    assert(trim_start(te) == s.subrange(b as int, e as int)) by {
        if b < e {
            assert(s.subrange(b as int, e as int)[0] == s[b as int]);
        }
    }
    let mut out = String::new();
    let mut k: usize = b;
    while k < e
        invariant
            b <= k <= e <= n,
            n == s.len(),
            s == header@,
            out@ == s.subrange(b as int, k as int),
        decreases e - k,
    {
        let c = header.get_char(k);
        push_char(&mut out, c);
        assert(out@ =~= s.subrange(b as int, k + 1));
        k = k + 1;
    }
    out
}

} // verus!
