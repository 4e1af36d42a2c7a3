//! IPv4 addresses and IPv4 socket addresses, with their dotted-decimal text.
//!
//! The text of an address is what `Display` writes for it: each octet in
//! decimal without leading zeros, joined by dots, and for a socket address a
//! colon and the port in decimal. Parsing accepts exactly the texts that the
//! spec functions below describe: for an address, four octets in decimal
//! without leading zeros, joined by dots; for a socket address, such an
//! address, a colon, and a port of one digit or more, leading zeros allowed,
//! at most 65535. That grammar is the one the standard library's `Ipv4Addr`
//! and `SocketAddrV4` parsers document and implement; the match is read from
//! their source and checked by the tests on examples, not proved.

use vstd::prelude::*;
use vstd::string::*;
use vstd::arithmetic::power::pow;

verus! {

// ---------------------------------------------------------------------------
// Decimal digits
// ---------------------------------------------------------------------------

/// Whether `c` is one of the ASCII digits `0` to `9`.
pub open spec fn is_digit(c: char) -> bool {
    '0' <= c && c <= '9'
}

/// The digit character for `d`, for `0 <= d < 10`.
pub open spec fn digit_char(d: int) -> char {
    (d + 48) as char
}

/// The value of the digit character `c`.
pub open spec fn digit_value(c: char) -> int {
    c as int - 48
}

/// Every character of `t` is a decimal digit.
pub open spec fn all_digits(t: Seq<char>) -> bool {
    forall|i: int| 0 <= i < t.len() ==> #[trigger] is_digit(t[i])
}

/// The number that the digit string `t` denotes in base ten (leading zeros allowed).
pub open spec fn decimal_value(t: Seq<char>) -> int
    decreases t.len(),
{
    if t.len() == 0 {
        0
    } else {
        decimal_value(t.drop_last()) * 10 + digit_value(t.last())
    }
}

/// The shortest decimal text of `n`: no leading zeros, and `"0"` for zero.
pub open spec fn decimal_text(n: nat) -> Seq<char>
    decreases n,
{
    if n < 10 {
        seq![digit_char(n as int)]
    } else {
        decimal_text(n / 10) + seq![digit_char((n % 10) as int)]
    }
}

proof fn lemma_decimal_text(n: nat)
    ensures
        all_digits(decimal_text(n)),
        decimal_text(n).len() >= 1,
        decimal_value(decimal_text(n)) == n,
        n < 10 ==> decimal_text(n).len() == 1,
        n >= 10 ==> decimal_text(n).len() >= 2,
        n < 100 ==> decimal_text(n).len() <= 2,
        n < 1000 ==> decimal_text(n).len() <= 3,
        decimal_text(n)[0] == '0' ==> n == 0,
    decreases n,
{
    let t = decimal_text(n);
    if n < 10 {
        assert(t.drop_last() =~= Seq::<char>::empty());
        assert(digit_value(digit_char(n as int)) == n);
        assert(decimal_value(t) == decimal_value(t.drop_last()) * 10 + digit_value(t.last()));
    } else {
        lemma_decimal_text(n / 10);
        assert(t.drop_last() =~= decimal_text(n / 10));
        assert(digit_value(digit_char((n % 10) as int)) == n % 10);
        assert((n / 10) * 10 + n % 10 == n);
        assert(t.last() == digit_char((n % 10) as int));
        assert(decimal_value(t) == decimal_value(t.drop_last()) * 10 + digit_value(t.last()));
        assert(t[0] == decimal_text(n / 10)[0]);
        assert forall|i: int| 0 <= i < t.len() implies #[trigger] is_digit(t[i]) by {
            if i < t.len() - 1 {
                assert(t[i] == decimal_text(n / 10)[i]);
            }
        }
    }
}

proof fn lemma_value_nonneg(t: Seq<char>)
    requires
        all_digits(t),
    ensures
        decimal_value(t) >= 0,
    decreases t.len(),
{
    if t.len() > 0 {
        lemma_all_digits_drop_last(t);
        lemma_value_nonneg(t.drop_last());
    }
}

proof fn lemma_all_digits_drop_last(t: Seq<char>)
    requires
        all_digits(t),
        t.len() > 0,
    ensures
        all_digits(t.drop_last()),
        is_digit(t.last()),
{
    assert(is_digit(t[t.len() - 1]));
    assert forall|i: int| 0 <= i < t.drop_last().len() implies #[trigger] is_digit(
        t.drop_last()[i],
    ) by {
        assert(is_digit(t[i]));
    }
}

/// A digit string with a nonzero first digit is worth at least 1, and at
/// least 10 when it has two digits or more.
proof fn lemma_value_leading(t: Seq<char>)
    requires
        all_digits(t),
        t.len() >= 1,
        t[0] != '0',
    ensures
        decimal_value(t) >= 1,
        t.len() >= 2 ==> decimal_value(t) >= 10,
    decreases t.len(),
{
    lemma_all_digits_drop_last(t);
    lemma_value_nonneg(t.drop_last());
    if t.len() == 1 {
        assert(is_digit(t[0]));
    } else {
        assert(t.drop_last()[0] == t[0]);
        lemma_value_leading(t.drop_last());
    }
}

/// A digit string without superfluous leading zeros is the shortest decimal
/// text of its value.
proof fn lemma_decimal_canonical(t: Seq<char>)
    requires
        all_digits(t),
        t.len() >= 1,
        t.len() == 1 || t[0] != '0',
    ensures
        decimal_value(t) >= 0,
        decimal_text(decimal_value(t) as nat) == t,
    decreases t.len(),
{
    lemma_all_digits_drop_last(t);
    lemma_value_nonneg(t.drop_last());
    let c = t.last();
    let d = digit_value(c);
    assert(0 <= d < 10);
    assert(digit_char(d) == c);
    if t.len() == 1 {
        assert(t.drop_last().len() == 0);
        assert(decimal_value(t) == d);
        assert(decimal_text(d as nat) =~= t);
    } else {
        let u = t.drop_last();
        assert(u[0] == t[0]);
        lemma_value_leading(u);
        lemma_decimal_canonical(u);
        let v = decimal_value(t);
        assert(v == decimal_value(u) * 10 + d);
        assert(v >= 10);
        assert(v / 10 == decimal_value(u));
        assert(v % 10 == d);
        assert(decimal_text(v as nat) == decimal_text((v / 10) as nat) + seq![digit_char(v % 10)]);
        assert(decimal_text(v as nat) =~= t);
    }
}

/// Every prefix of a digit string is worth no more than the whole.
proof fn lemma_value_prefix(t: Seq<char>, k: int)
    requires
        all_digits(t),
        0 <= k <= t.len(),
    ensures
        decimal_value(t.take(k)) <= decimal_value(t),
    decreases t.len(),
{
    if k < t.len() {
        lemma_all_digits_drop_last(t);
        lemma_value_nonneg(t.drop_last());
        assert(t.drop_last().take(k) =~= t.take(k));
        lemma_value_prefix(t.drop_last(), k);
    } else {
        assert(t.take(k) =~= t);
    }
}


/// Digit characters are the ASCII codes from `'0'` on: the digit `d` is the
/// character whose code is that of `'0'` plus `d`, and the value of a digit
/// character is its code less that of `'0'`.
pub proof fn law_digits(d: int, c: char)
    ensures
        0 <= d < 10 ==> digit_char(d) as int == '0' as int + d && is_digit(digit_char(d))
            && digit_value(digit_char(d)) == d,
        is_digit(c) ==> digit_value(c) == c as int - '0' as int && 0 <= digit_value(c) <= 9,
        is_digit(c) <==> '0' as int <= c as int <= '9' as int,
{
}

/// The value of a digit string is positional in base ten: the empty string is
/// worth 0, and a string is worth its first digit times ten to the power of
/// the number of digits after it, plus the value of those digits. So each
/// digit `t[i]` weighs `10^(|t| - 1 - i)`.
pub proof fn law_decimal_value_positional(t: Seq<char>)
    requires
        all_digits(t),
    ensures
        t.len() == 0 ==> decimal_value(t) == 0,
        t.len() > 0 ==> decimal_value(t) == (t[0] as int - '0' as int) * pow(10, (t.len() - 1) as nat)
            + decimal_value(t.drop_first()),
    decreases t.len(),
{
    reveal(pow);
    if t.len() == 1 {
        assert(t.drop_first() =~= Seq::<char>::empty());
        assert(t.drop_last() =~= Seq::<char>::empty());
        assert(pow(10, 0) == 1);
    } else if t.len() > 1 {
        lemma_all_digits_drop_last(t);
        let u = t.drop_last();
        law_decimal_value_positional(u);
        let f = t.drop_first();
        assert(all_digits(f)) by {
            assert forall|i: int| 0 <= i < f.len() implies #[trigger] is_digit(f[i]) by {
                assert(f[i] == t[i + 1]);
            }
        }
        assert(f.drop_last() =~= u.drop_first());
        assert(f.last() == t.last());
        assert(u[0] == t[0]);
        let p = pow(10, (u.len() - 1) as nat);
        assert(pow(10, (t.len() - 1) as nat) == 10 * p);
        let d0 = t[0] as int - '0' as int;
        assert(decimal_value(t) == decimal_value(u) * 10 + digit_value(t.last()));
        assert(decimal_value(f) == decimal_value(f.drop_last()) * 10 + digit_value(f.last()));
        assert(decimal_value(u) == d0 * p + decimal_value(u.drop_first()));
        assert((d0 * p + decimal_value(u.drop_first())) * 10 == d0 * (10 * p) + decimal_value(
            u.drop_first(),
        ) * 10) by (nonlinear_arith);
    }
}

/// The text written for a number is its ordinary base-ten numeral: digits
/// only, worth the number, with no leading zero unless the number is 0, and
/// as long as the number needs.
pub proof fn law_decimal_text(n: nat)
    ensures
        all_digits(decimal_text(n)),
        decimal_text(n).len() >= 1,
        decimal_value(decimal_text(n)) == n,
        decimal_text(n).len() > 1 ==> decimal_text(n)[0] != '0',
        n < 10 ==> decimal_text(n).len() == 1,
        n >= 10 ==> decimal_text(n).len() >= 2,
{
    lemma_decimal_text(n);
}

/// A base-ten numeral without superfluous leading zeros is the text written
/// for its value: the written text is the only such numeral for its number.
pub proof fn law_decimal_text_unique(t: Seq<char>, n: nat)
    requires
        all_digits(t),
        t.len() >= 1,
        t.len() == 1 || t[0] != '0',
        decimal_value(t) == n,
    ensures
        decimal_text(n) == t,
{
    lemma_decimal_canonical(t);
}

// ---------------------------------------------------------------------------
// IPv4 addresses
// ---------------------------------------------------------------------------

/// An IPv4 address, as its four octets in the order they are written.
#[derive(Clone, Copy, Debug, PartialEq, Eq, Hash)]
pub struct Ipv4Address {
    pub octets: [u8; 4],
}

/// The dotted-decimal text of `a`, such as `127.0.0.1`.
pub open spec fn ipv4_text(a: Ipv4Address) -> Seq<char> {
    decimal_text(a.octets[0] as nat) + seq!['.'] + decimal_text(a.octets[1] as nat) + seq!['.']
        + decimal_text(a.octets[2] as nat) + seq!['.'] + decimal_text(a.octets[3] as nat)
}

/// The address whose text `s` is, if there is one.
pub open spec fn ipv4_from_text(s: Seq<char>) -> Option<Ipv4Address> {
    if exists|a: Ipv4Address| ipv4_text(a) == s {
        Some(choose|a: Ipv4Address| ipv4_text(a) == s)
    } else {
        None
    }
}

/// `s` holds the decimal text of `v` from `start`, and no digit follows it.
pub open spec fn octet_at(s: Seq<char>, start: int, v: u8) -> bool {
    let t = decimal_text(v as nat);
    let end = start + t.len();
    &&& 0 <= start
    &&& end <= s.len()
    &&& s.subrange(start, end) == t
    &&& (end == s.len() || !is_digit(s[end]))
}

/// `s` begins with the text of `a`, and no digit follows it.
pub open spec fn ipv4_at(s: Seq<char>, a: Ipv4Address) -> bool {
    let t = ipv4_text(a);
    &&& t.len() <= s.len()
    &&& s.subrange(0, t.len() as int) == t
    &&& (t.len() == s.len() || !is_digit(s[t.len() as int]))
}

/// Where the text of octet `i` of `a` begins within the text of `a`.
pub open spec fn octet_start(a: Ipv4Address, i: int) -> int
    decreases i,
{
    if i <= 0 {
        0
    } else {
        octet_start(a, i - 1) + decimal_text(a.octets[i - 1] as nat).len() + 1
    }
}

proof fn lemma_octet_unique(s: Seq<char>, start: int, v: u8, w: u8)
    requires
        octet_at(s, start, v),
        octet_at(s, start, w),
    ensures
        v == w,
{
    lemma_decimal_text(v as nat);
    lemma_decimal_text(w as nat);
    let tv = decimal_text(v as nat);
    let tw = decimal_text(w as nat);
    if tv.len() < tw.len() {
        assert(s[start + tv.len()] == s.subrange(start, start + tw.len())[tv.len() as int]);
        assert(is_digit(tw[tv.len() as int]));
    } else if tw.len() < tv.len() {
        assert(s[start + tw.len()] == s.subrange(start, start + tv.len())[tw.len() as int]);
        assert(is_digit(tv[tw.len() as int]));
    }
    assert(tv == tw);
}

/// The pieces of the text of `a`: four octets, split by dots.
proof fn lemma_ipv4_text_pieces(a: Ipv4Address)
    ensures
        ipv4_text(a).len() == octet_start(a, 3) + decimal_text(a.octets[3] as nat).len(),
        forall|i: int|
            0 <= i < 4 ==> ipv4_text(a).subrange(
                octet_start(a, i),
                octet_start(a, i) + decimal_text(a.octets[i] as nat).len(),
            ) == decimal_text(a.octets[i] as nat),
        forall|i: int|
            0 <= i < 3 ==> ipv4_text(a)[octet_start(a, i) + decimal_text(a.octets[i] as nat).len()]
                == '.',
        forall|j: int|
            0 <= j < ipv4_text(a).len() ==> is_digit(#[trigger] ipv4_text(a)[j]) || ipv4_text(a)[j]
                == '.',
{
    let t = ipv4_text(a);
    let d0 = decimal_text(a.octets[0] as nat);
    let d1 = decimal_text(a.octets[1] as nat);
    let d2 = decimal_text(a.octets[2] as nat);
    let d3 = decimal_text(a.octets[3] as nat);
    lemma_decimal_text(a.octets[0] as nat);
    lemma_decimal_text(a.octets[1] as nat);
    lemma_decimal_text(a.octets[2] as nat);
    lemma_decimal_text(a.octets[3] as nat);
    let p1: int = d0.len() as int + 1;
    let p2: int = p1 + d1.len() + 1;
    let p3: int = p2 + d2.len() + 1;
    assert(octet_start(a, 0) == 0);
    assert(octet_start(a, 1) == p1);
    assert(octet_start(a, 2) == p2);
    assert(octet_start(a, 3) == p3);
    assert(t.subrange(0, d0.len() as int) =~= d0);
    assert(t.subrange(p1, p1 + d1.len()) =~= d1);
    assert(t.subrange(p2, p2 + d2.len()) =~= d2);
    assert(t.subrange(p3, p3 + d3.len()) =~= d3);
    assert forall|j: int| 0 <= j < t.len() implies is_digit(#[trigger] t[j]) || t[j] == '.' by {
        if j < d0.len() {
            assert(is_digit(d0[j]));
        } else if j == d0.len() {
        } else if j < p1 + d1.len() {
            assert(is_digit(d1[j - p1]));
        } else if j == p1 + d1.len() {
        } else if j < p2 + d2.len() {
            assert(is_digit(d2[j - p2]));
        } else if j == p2 + d2.len() {
        } else {
            assert(is_digit(d3[j - p3]));
        }
    }
}


proof fn lemma_octet_start_le(a: Ipv4Address, i: int, j: int)
    requires
        0 <= i <= j,
    ensures
        0 <= octet_start(a, i) <= octet_start(a, j),
    decreases j - i,
{
    if i < j {
        lemma_octet_start_le(a, i, j - 1);
        assert(octet_start(a, j) == octet_start(a, j - 1) + decimal_text(a.octets[j - 1] as nat).len() + 1);
    } else {
        lemma_octet_start_nonneg(a, i);
    }
}

proof fn lemma_octet_start_nonneg(a: Ipv4Address, i: int)
    ensures
        octet_start(a, i) >= 0,
    decreases i,
{
    if i > 0 {
        lemma_octet_start_nonneg(a, i - 1);
    }
}

/// Where `s` begins with the text of `a`, it holds each octet of `a` at its
/// place, with a dot after each of the first three.
proof fn lemma_ipv4_at_fields(s: Seq<char>, a: Ipv4Address)
    requires
        ipv4_at(s, a),
    ensures
        forall|i: int| 0 <= i < 4 ==> octet_at(s, #[trigger] octet_start(a, i), a.octets[i]),
        forall|i: int|
            0 <= i < 3 ==> s[#[trigger] octet_start(a, i) + decimal_text(a.octets[i] as nat).len()]
                == '.',
{
    let t = ipv4_text(a);
    lemma_ipv4_text_pieces(a);
    assert forall|i: int| 0 <= i < 4 implies octet_at(s, #[trigger] octet_start(a, i), a.octets[i]) by {
        let st = octet_start(a, i);
        let l = decimal_text(a.octets[i] as nat).len();
        if i == 0 {
            assert(st == 0);
        } else if i == 1 {
            assert(st == octet_start(a, 0) + decimal_text(a.octets[0] as nat).len() + 1);
        } else if i == 2 {
            assert(st == octet_start(a, 1) + decimal_text(a.octets[1] as nat).len() + 1);
            assert(octet_start(a, 1) >= 0);
        } else {
            assert(st == octet_start(a, 2) + decimal_text(a.octets[2] as nat).len() + 1);
            assert(octet_start(a, 2) >= 0);
        }
        assert(st >= 0);
        assert(s.subrange(st, st + l) =~= t.subrange(st, st + l));
        if i < 3 {
            assert(s[st + l] == t[st + l]);
        }
    }
    assert forall|i: int| 0 <= i < 3 implies s[#[trigger] octet_start(a, i) + decimal_text(
        a.octets[i] as nat,
    ).len()] == '.' by {
        let st = octet_start(a, i);
        assert(octet_start(a, i + 1) == st + decimal_text(a.octets[i] as nat).len() + 1);
        lemma_octet_start_le(a, i + 1, 3);
        let l = decimal_text(a.octets[i] as nat).len();
        assert(octet_at(s, st, a.octets[i]));
        assert(s[st + l] == t[st + l]);
    }
}

/// `s` begins with the text of `a` when it holds each octet of `a` at its
/// place, a dot after each of the first three, and no digit after the last.
proof fn lemma_ipv4_at_from_fields(s: Seq<char>, a: Ipv4Address)
    requires
        forall|i: int| 0 <= i < 4 ==> octet_at(s, #[trigger] octet_start(a, i), a.octets[i]),
        forall|i: int|
            0 <= i < 3 ==> s[#[trigger] octet_start(a, i) + decimal_text(a.octets[i] as nat).len()]
                == '.',
    ensures
        ipv4_at(s, a),
{
    let t = ipv4_text(a);
    lemma_ipv4_text_pieces(a);
    let d0 = decimal_text(a.octets[0] as nat);
    let d1 = decimal_text(a.octets[1] as nat);
    let d2 = decimal_text(a.octets[2] as nat);
    let d3 = decimal_text(a.octets[3] as nat);
    let p0 = octet_start(a, 0);
    let p1 = octet_start(a, 1);
    let p2 = octet_start(a, 2);
    let p3 = octet_start(a, 3);
    assert(p0 == 0);
    assert(p1 == p0 + d0.len() + 1);
    assert(p2 == p1 + d1.len() + 1);
    assert(p3 == p2 + d2.len() + 1);
    assert(octet_at(s, p0, a.octets[0]));
    assert(octet_at(s, p1, a.octets[1]));
    assert(octet_at(s, p2, a.octets[2]));
    assert(octet_at(s, p3, a.octets[3]));
    assert(s[p0 + d0.len()] == '.');
    assert(s[p1 + d1.len()] == '.');
    assert(s[p2 + d2.len()] == '.');
    assert(t.subrange(p0, p0 + d0.len()) == d0);
    assert(t.subrange(p1, p1 + d1.len()) == d1);
    assert(t.subrange(p2, p2 + d2.len()) == d2);
    assert(t.subrange(p3, p3 + d3.len()) == d3);
    assert forall|j: int| 0 <= j < t.len() implies s[j] == t[j] by {
        if j < p0 + d0.len() {
            assert(s[j] == s.subrange(p0, p0 + d0.len())[j - p0]);
            assert(t[j] == t.subrange(p0, p0 + d0.len())[j - p0]);
        } else if j == p0 + d0.len() {
        } else if j < p1 + d1.len() {
            assert(s[j] == s.subrange(p1, p1 + d1.len())[j - p1]);
            assert(t[j] == t.subrange(p1, p1 + d1.len())[j - p1]);
        } else if j == p1 + d1.len() {
        } else if j < p2 + d2.len() {
            assert(s[j] == s.subrange(p2, p2 + d2.len())[j - p2]);
            assert(t[j] == t.subrange(p2, p2 + d2.len())[j - p2]);
        } else if j == p2 + d2.len() {
        } else {
            assert(s[j] == s.subrange(p3, p3 + d3.len())[j - p3]);
            assert(t[j] == t.subrange(p3, p3 + d3.len())[j - p3]);
        }
    }
    assert(s.subrange(0, t.len() as int) =~= t);
}

/// At most one address has its text at the head of `s`.
proof fn lemma_ipv4_at_unique(s: Seq<char>, a: Ipv4Address, b: Ipv4Address)
    requires
        ipv4_at(s, a),
        ipv4_at(s, b),
    ensures
        a == b,
{
    lemma_ipv4_at_fields(s, a);
    lemma_ipv4_at_fields(s, b);
    assert(octet_start(a, 0) == 0 && octet_start(b, 0) == 0);
    assert(octet_at(s, octet_start(a, 0), a.octets[0]));
    assert(octet_at(s, octet_start(b, 0), b.octets[0]));
    lemma_octet_unique(s, 0, a.octets[0], b.octets[0]);
    assert(octet_start(a, 1) == octet_start(b, 1));
    assert(octet_at(s, octet_start(a, 1), a.octets[1]));
    assert(octet_at(s, octet_start(b, 1), b.octets[1]));
    lemma_octet_unique(s, octet_start(a, 1), a.octets[1], b.octets[1]);
    assert(octet_start(a, 2) == octet_start(b, 2));
    assert(octet_at(s, octet_start(a, 2), a.octets[2]));
    assert(octet_at(s, octet_start(b, 2), b.octets[2]));
    lemma_octet_unique(s, octet_start(a, 2), a.octets[2], b.octets[2]);
    assert(octet_start(a, 3) == octet_start(b, 3));
    assert(octet_at(s, octet_start(a, 3), a.octets[3]));
    assert(octet_at(s, octet_start(b, 3), b.octets[3]));
    lemma_octet_unique(s, octet_start(a, 3), a.octets[3], b.octets[3]);
    assert(a.octets =~= b.octets);
}

/// Two addresses with the same text are the same address.
pub proof fn lemma_ipv4_text_injective(a: Ipv4Address, b: Ipv4Address)
    requires
        ipv4_text(a) == ipv4_text(b),
    ensures
        a == b,
{
    let s = ipv4_text(a);
    assert(s.subrange(0, s.len() as int) =~= s);
    lemma_ipv4_at_unique(s, a, b);
}


/// The loop of `read_octet` stopped at the end of the digits that follow
/// `start`, or after four of them; if an octet sits at `start`, the loop read
/// exactly its digits.
proof fn lemma_octet_scan(s: Seq<char>, start: int, j: int, val: int, v: u8)
    requires
        0 <= start <= j <= s.len(),
        j - start <= 4,
        all_digits(s.subrange(start, j)),
        val == decimal_value(s.subrange(start, j)),
        j == s.len() || j - start == 4 || !is_digit(s[j]),
        octet_at(s, start, v),
    ensures
        j == start + decimal_text(v as nat).len(),
        val == v,
        1 <= j - start <= 3,
        j - start == 1 || s[start] != '0',
{
    let t = decimal_text(v as nat);
    lemma_decimal_text(v as nat);
    let e = start + t.len();
    if j < e {
        assert(s[j] == s.subrange(start, e)[j - start]);
        assert(is_digit(t[j - start]));
    }
    if j > e {
        assert(s[e] == s.subrange(start, j)[e - start]);
        assert(is_digit(s.subrange(start, j)[e - start]));
    }
    assert(j == e);
    if t.len() > 1 {
        assert(s[start] == t[0]);
    }
}

/// Reads the octet whose text begins at `start`, and returns it with the
/// position just after its last digit.
fn read_octet(s: &str, n: usize, start: usize) -> (r: Option<(u8, usize)>)
    requires
        is_ascii(s),
        n == s@.len(),
        start <= n,
    ensures
        match r {
            Some((v, end)) => octet_at(s@, start as int, v) && end == start + decimal_text(
                v as nat,
            ).len(),
            None => forall|v: u8| !octet_at(s@, start as int, v),
        },
{
    let mut j: usize = start;
    let mut val: u32 = 0;
    loop
        invariant
            is_ascii(s),
            n == s@.len(),
            start <= j <= n,
            j - start <= 4,
            all_digits(s@.subrange(start as int, j as int)),
            val == decimal_value(s@.subrange(start as int, j as int)),
            j - start <= 3 ==> val < 1000,
            j - start <= 2 ==> val < 100,
            j - start <= 1 ==> val < 10,
            j - start == 0 ==> val == 0,
        ensures
            j == n || j - start == 4 || !is_digit(s@[j as int]),
        decreases n - j,
    {
        if j >= n || j - start >= 4 {
            break;
        }
        let b = s.get_ascii(j);
        let ghost c = s@[j as int];
        assert(c <= '\u{7f}');
        if b < 48 || b > 57 {
            assert(!is_digit(c));
            break;
        }
        assert(is_digit(c) && digit_value(c) == b - 48);
        let ghost old_sub = s@.subrange(start as int, j as int);
        let ghost new_sub = s@.subrange(start as int, j + 1);
        assert(new_sub.drop_last() =~= old_sub);
        assert(new_sub.last() == c);
        assert forall|i: int| 0 <= i < new_sub.len() implies #[trigger] is_digit(new_sub[i]) by {
            if i < old_sub.len() {
                assert(new_sub[i] == old_sub[i]);
            }
        }
        val = val * 10 + (b - 48) as u32;
        j = j + 1;
    }
    let k = j - start;
    let ghost sub = s@.subrange(start as int, j as int);
    let lead_zero = k > 1 && s.get_ascii(start) == 48;
    proof {
        if k > 1 {
            assert(sub[0] == s@[start as int]);
            assert(s@[start as int] <= '\u{7f}');
        }
        assert(lead_zero == (k > 1 && sub[0] == '0'));
        if k == 0 || k > 3 || val > 255 || lead_zero {
            assert forall|v: u8| !octet_at(s@, start as int, v) by {
                if octet_at(s@, start as int, v) {
                    lemma_octet_scan(s@, start as int, j as int, val as int, v);
                }
            }
        }
    }
    if k == 0 || k > 3 || val > 255 || lead_zero {
        return None;
    }
    proof {
        lemma_decimal_canonical(sub);
        lemma_decimal_text(val as nat);
    }
    Some((val as u8, j))
}


/// Whether `s` holds `c` at position `i`; `c` is an ASCII character.
fn char_at_is(s: &str, n: usize, i: usize, c: u8) -> (r: bool)
    requires
        is_ascii(s),
        n == s@.len(),
        c < 128,
    ensures
        r == (i < n && s@[i as int] == c as char),
{
    if i >= n {
        return false;
    }
    let b = s.get_ascii(i);
    proof {
        assert(s@[i as int] <= '\u{7f}');
    }
    b == c
}

/// Reads the text of an address at the head of `s`, and returns the address
/// with the position just after its last digit.
fn scan_ipv4(s: &str, n: usize) -> (r: Option<(Ipv4Address, usize)>)
    requires
        is_ascii(s),
        n == s@.len(),
    ensures
        match r {
            Some((a, end)) => ipv4_at(s@, a) && end == ipv4_text(a).len(),
            None => forall|a: Ipv4Address| !ipv4_at(s@, a),
        },
{
    let ghost ss = s@;
    let (o0, e0) = match read_octet(s, n, 0) {
        Some(r) => r,
        None => {
            assert forall|x: Ipv4Address| !ipv4_at(ss, x) by {
                if ipv4_at(ss, x) {
                    lemma_ipv4_at_fields(ss, x);
                    assert(octet_at(ss, octet_start(x, 0), x.octets[0]));
                }
            }
            return None;
        },
    };
    // Every address whose text heads `s` agrees with what has been read so far.
    assert forall|x: Ipv4Address| ipv4_at(ss, x) implies x.octets[0] == o0 && octet_start(x, 1)
        == e0 + 1 by {
        lemma_ipv4_at_fields(ss, x);
        assert(octet_at(ss, octet_start(x, 0), x.octets[0]));
        lemma_octet_unique(ss, 0, x.octets[0], o0);
    }
    if !char_at_is(s, n, e0, 46) {
        assert forall|x: Ipv4Address| !ipv4_at(ss, x) by {
            if ipv4_at(ss, x) {
                lemma_ipv4_at_fields(ss, x);
                assert(ss[octet_start(x, 0) + decimal_text(x.octets[0] as nat).len()] == '.');
            }
        }
        return None;
    }
    let (o1, e1) = match read_octet(s, n, e0 + 1) {
        Some(r) => r,
        None => {
            assert forall|x: Ipv4Address| !ipv4_at(ss, x) by {
                if ipv4_at(ss, x) {
                    lemma_ipv4_at_fields(ss, x);
                    assert(octet_at(ss, octet_start(x, 1), x.octets[1]));
                }
            }
            return None;
        },
    };
    assert forall|x: Ipv4Address| ipv4_at(ss, x) implies x.octets[1] == o1 && octet_start(x, 2)
        == e1 + 1 by {
        lemma_ipv4_at_fields(ss, x);
        assert(octet_at(ss, octet_start(x, 1), x.octets[1]));
        lemma_octet_unique(ss, e0 + 1, x.octets[1], o1);
    }
    if !char_at_is(s, n, e1, 46) {
        assert forall|x: Ipv4Address| !ipv4_at(ss, x) by {
            if ipv4_at(ss, x) {
                lemma_ipv4_at_fields(ss, x);
                assert(ss[octet_start(x, 1) + decimal_text(x.octets[1] as nat).len()] == '.');
            }
        }
        return None;
    }
    let (o2, e2) = match read_octet(s, n, e1 + 1) {
        Some(r) => r,
        None => {
            assert forall|x: Ipv4Address| !ipv4_at(ss, x) by {
                if ipv4_at(ss, x) {
                    lemma_ipv4_at_fields(ss, x);
                    assert(octet_at(ss, octet_start(x, 2), x.octets[2]));
                }
            }
            return None;
        },
    };
    assert forall|x: Ipv4Address| ipv4_at(ss, x) implies x.octets[2] == o2 && octet_start(x, 3)
        == e2 + 1 by {
        lemma_ipv4_at_fields(ss, x);
        assert(octet_at(ss, octet_start(x, 2), x.octets[2]));
        lemma_octet_unique(ss, e1 + 1, x.octets[2], o2);
    }
    if !char_at_is(s, n, e2, 46) {
        assert forall|x: Ipv4Address| !ipv4_at(ss, x) by {
            if ipv4_at(ss, x) {
                lemma_ipv4_at_fields(ss, x);
                assert(ss[octet_start(x, 2) + decimal_text(x.octets[2] as nat).len()] == '.');
            }
        }
        return None;
    }
    let (o3, e3) = match read_octet(s, n, e2 + 1) {
        Some(r) => r,
        None => {
            assert forall|x: Ipv4Address| !ipv4_at(ss, x) by {
                if ipv4_at(ss, x) {
                    lemma_ipv4_at_fields(ss, x);
                    assert(octet_at(ss, octet_start(x, 3), x.octets[3]));
                }
            }
            return None;
        },
    };
    let a = Ipv4Address { octets: [o0, o1, o2, o3] };
    proof {
        assert(octet_start(a, 0) == 0);
        assert(octet_start(a, 1) == e0 + 1);
        assert(octet_start(a, 2) == e1 + 1);
        assert(octet_start(a, 3) == e2 + 1);
        assert(octet_at(ss, octet_start(a, 0), a.octets[0]));
        assert(octet_at(ss, octet_start(a, 1), a.octets[1]));
        assert(octet_at(ss, octet_start(a, 2), a.octets[2]));
        assert(octet_at(ss, octet_start(a, 3), a.octets[3]));
        lemma_ipv4_at_from_fields(ss, a);
        lemma_ipv4_text_pieces(a);
    }
    Some((a, e3))
}


/// The one-character text of the digit `d`.
fn digit_str(d: u8) -> (r: &'static str)
    requires
        d < 10,
    ensures
        r@ == seq![digit_char(d as int)],
{
    let r = match d {
        0 => "0",
        1 => "1",
        2 => "2",
        3 => "3",
        4 => "4",
        5 => "5",
        6 => "6",
        7 => "7",
        8 => "8",
        _ => "9",
    };
    proof {
        reveal_strlit("0");
        reveal_strlit("1");
        reveal_strlit("2");
        reveal_strlit("3");
        reveal_strlit("4");
        reveal_strlit("5");
        reveal_strlit("6");
        reveal_strlit("7");
        reveal_strlit("8");
        reveal_strlit("9");
        assert(r@ =~= seq![digit_char(d as int)]);
    }
    r
}

/// Appends the shortest decimal text of `n` to `out`.
fn push_decimal(out: &mut String, n: u16)
    ensures
        final(out)@ == old(out)@ + decimal_text(n as nat),
    decreases n,
{
    if n >= 10 {
        push_decimal(out, n / 10);
    }
    out.append(digit_str((n % 10) as u8));
    proof {
        if n >= 10 {
            assert(decimal_text(n as nat) == decimal_text((n / 10) as nat) + seq![
                digit_char((n % 10) as int),
            ]);
        } else {
            assert(n % 10 == n);
        }
        assert(final(out)@ =~= old(out)@ + decimal_text(n as nat));
    }
}

/// Appends a one-character literal to `out`.
fn push_separator(out: &mut String, dot: bool)
    ensures
        final(out)@ == old(out)@ + seq![if dot { '.' } else { ':' }],
{
    if dot {
        out.append(".");
    } else {
        out.append(":");
    }
    proof {
        reveal_strlit(".");
        reveal_strlit(":");
        assert(final(out)@ =~= old(out)@ + seq![if dot { '.' } else { ':' }]);
    }
}

proof fn lemma_ipv4_text_ascii(a: Ipv4Address, s: &str)
    requires
        s@ == ipv4_text(a),
    ensures
        is_ascii(s),
{
    lemma_ipv4_text_pieces(a);
    assert forall|i: int| 0 <= i < s@.len() implies '\0' <= #[trigger] s@[i] <= '\u{7f}' by {
        assert(is_digit(ipv4_text(a)[i]) || ipv4_text(a)[i] == '.');
    }
}

impl Ipv4Address {
    /// The address with octets `a.b.c.d`.
    pub fn new(a: u8, b: u8, c: u8, d: u8) -> (r: Ipv4Address)
        ensures
            r.octets[0] == a,
            r.octets[1] == b,
            r.octets[2] == c,
            r.octets[3] == d,
    {
        Ipv4Address { octets: [a, b, c, d] }
    }

    /// The address with the given octets, in the order they are written.
    pub fn from_octets(octets: [u8; 4]) -> (r: Ipv4Address)
        ensures
            r.octets == octets,
    {
        Ipv4Address { octets }
    }

    /// The address whose 32-bit big-endian value is `bits`: the first octet
    /// is the most significant byte.
    pub fn from_bits(bits: u32) -> (r: Ipv4Address)
        ensures
            r.octets[0] == bits / 0x100_0000,
            r.octets[1] == (bits / 0x1_0000) % 0x100,
            r.octets[2] == (bits / 0x100) % 0x100,
            r.octets[3] == bits % 0x100,
    {
        let a = (bits / 0x100_0000) as u8;
        let b = ((bits / 0x1_0000) % 0x100) as u8;
        let c = ((bits / 0x100) % 0x100) as u8;
        let d = (bits % 0x100) as u8;
        Ipv4Address { octets: [a, b, c, d] }
    }

    /// The four octets of the address.
    pub fn octets(&self) -> (r: [u8; 4])
        ensures
            r == self.octets,
    {
        self.octets
    }

    /// Parses dotted-decimal text: four octets in decimal, each without
    /// leading zeros, joined by dots, and nothing else. Returns `None` for any
    /// other text.
    pub fn parse(s: &str) -> (r: Option<Ipv4Address>)
        ensures
            r == ipv4_from_text(s@),
    {
        if !s.is_ascii() {
            proof {
                assert forall|a: Ipv4Address| ipv4_text(a) != s@ by {
                    if ipv4_text(a) == s@ {
                        lemma_ipv4_text_ascii(a, s);
                    }
                }
            }
            return None;
        }
        let n = s.unicode_len();
        match scan_ipv4(s, n) {
            None => {
                proof {
                    assert forall|a: Ipv4Address| ipv4_text(a) != s@ by {
                        if ipv4_text(a) == s@ {
                            assert(s@.subrange(0, s@.len() as int) =~= s@);
                            assert(ipv4_at(s@, a));
                        }
                    }
                }
                None
            },
            Some((a, e)) => {
                if e == n {
                    proof {
                        assert(s@.subrange(0, s@.len() as int) =~= s@);
                        assert(ipv4_text(a) == s@);
                        let c = choose|c: Ipv4Address| ipv4_text(c) == s@;
                        lemma_ipv4_text_injective(a, c);
                    }
                    Some(a)
                } else {
                    proof {
                        assert forall|b: Ipv4Address| ipv4_text(b) != s@ by {
                            if ipv4_text(b) == s@ {
                                assert(s@.subrange(0, s@.len() as int) =~= s@);
                                lemma_ipv4_at_unique(s@, a, b);
                            }
                        }
                    }
                    None
                }
            },
        }
    }

    /// The dotted-decimal text of the address, as `Display` writes it.
    pub fn to_string(&self) -> (r: String)
        ensures
            r@ == ipv4_text(*self),
    {
        let mut out = String::new();
        push_decimal(&mut out, self.octets[0] as u16);
        push_separator(&mut out, true);
        push_decimal(&mut out, self.octets[1] as u16);
        push_separator(&mut out, true);
        push_decimal(&mut out, self.octets[2] as u16);
        push_separator(&mut out, true);
        push_decimal(&mut out, self.octets[3] as u16);
        proof {
            assert(out@ =~= ipv4_text(*self));
        }
        out
    }
}

/// Parsing the text of an address gives back the address.
pub proof fn law_ipv4_parse_text(a: Ipv4Address)
    ensures
        ipv4_from_text(ipv4_text(a)) == Some(a),
{
    let s = ipv4_text(a);
    assert(exists|c: Ipv4Address| ipv4_text(c) == s);
    let c = choose|c: Ipv4Address| ipv4_text(c) == s;
    lemma_ipv4_text_injective(a, c);
}

/// What parses to an address is that address's text.
pub proof fn law_ipv4_text_of_parsed(s: Seq<char>, a: Ipv4Address)
    requires
        ipv4_from_text(s) == Some(a),
    ensures
        ipv4_text(a) == s,
{
}


// ---------------------------------------------------------------------------
// IPv4 socket addresses
// ---------------------------------------------------------------------------

/// An IPv4 address with a port: where a server listens.
#[derive(Clone, Copy, Debug, PartialEq, Eq, Hash)]
pub struct SocketAddress {
    pub ip: Ipv4Address,
    pub port: u16,
}

/// The text of `a`, as `Display` writes it, such as `127.0.0.1:8080`.
pub open spec fn socket_text(a: SocketAddress) -> Seq<char> {
    ipv4_text(a.ip) + seq![':'] + decimal_text(a.port as nat)
}

/// `t` is a port number in decimal: one digit or more, leading zeros allowed.
pub open spec fn port_text(t: Seq<char>, port: u16) -> bool {
    &&& t.len() > 0
    &&& all_digits(t)
    &&& decimal_value(t) == port
}

/// `s` is a text of `a`: the text of its IP address, a colon, and its port
/// in decimal, where the port may carry leading zeros.
pub open spec fn socket_text_for(s: Seq<char>, a: SocketAddress) -> bool {
    let p = ipv4_text(a.ip);
    &&& p.len() < s.len()
    &&& s.subrange(0, p.len() as int) == p
    &&& s[p.len() as int] == ':'
    &&& port_text(s.subrange(p.len() as int + 1, s.len() as int), a.port)
}

/// The socket address that `s` is a text of, if there is one.
pub open spec fn socket_from_text(s: Seq<char>) -> Option<SocketAddress> {
    if exists|a: SocketAddress| socket_text_for(s, a) {
        Some(choose|a: SocketAddress| socket_text_for(s, a))
    } else {
        None
    }
}

/// Where `s` is a text of a socket address, its address part heads `s`.
proof fn lemma_socket_text_ipv4_at(s: Seq<char>, a: SocketAddress)
    requires
        socket_text_for(s, a),
    ensures
        ipv4_at(s, a.ip),
{
}

/// A text names at most one socket address.
pub proof fn lemma_socket_text_unique(s: Seq<char>, a: SocketAddress, b: SocketAddress)
    requires
        socket_text_for(s, a),
        socket_text_for(s, b),
    ensures
        a == b,
{
    lemma_ipv4_at_unique(s, a.ip, b.ip);
}

/// Every character of a text of a socket address is ASCII.
proof fn lemma_socket_text_ascii(s: &str, a: SocketAddress)
    requires
        socket_text_for(s@, a),
    ensures
        is_ascii(s),
{
    let p = ipv4_text(a.ip);
    let t = s@.subrange(p.len() as int + 1, s@.len() as int);
    lemma_ipv4_text_pieces(a.ip);
    assert forall|i: int| 0 <= i < s@.len() implies '\0' <= #[trigger] s@[i] <= '\u{7f}' by {
        if i < p.len() {
            assert(s@[i] == s@.subrange(0, p.len() as int)[i]);
            assert(is_digit(p[i]) || p[i] == '.');
        } else if i > p.len() {
            assert(s@[i] == t[i - p.len() - 1]);
            assert(is_digit(t[i - p.len() - 1]));
        }
    }
}

impl SocketAddress {
    /// The socket address of `ip` and `port`.
    pub fn new(ip: Ipv4Address, port: u16) -> (r: SocketAddress)
        ensures
            r.ip == ip,
            r.port == port,
    {
        SocketAddress { ip, port }
    }

    /// The IP address.
    pub fn ip(&self) -> (r: Ipv4Address)
        ensures
            r == self.ip,
    {
        self.ip
    }

    /// The port.
    pub fn port(&self) -> (r: u16)
        ensures
            r == self.port,
    {
        self.port
    }

    /// Parses the text of an IPv4 socket address: an address in dotted
    /// decimal, a colon, and a port in decimal (one digit or more, leading
    /// zeros allowed, at most 65535). Returns `None` for any other text.
    pub fn parse(s: &str) -> (r: Option<SocketAddress>)
        ensures
            r == socket_from_text(s@),
    {
        let ghost ss = s@;
        if !s.is_ascii() {
            proof {
                assert forall|a: SocketAddress| !socket_text_for(ss, a) by {
                    if socket_text_for(ss, a) {
                        lemma_socket_text_ascii(s, a);
                    }
                }
            }
            return None;
        }
        let n = s.unicode_len();
        let (ip, e) = match scan_ipv4(s, n) {
            Some(x) => x,
            None => {
                proof {
                    assert forall|a: SocketAddress| !socket_text_for(ss, a) by {
                        if socket_text_for(ss, a) {
                            lemma_socket_text_ipv4_at(ss, a);
                        }
                    }
                }
                return None;
            },
        };
        proof {
            assert forall|a: SocketAddress| socket_text_for(ss, a) implies a.ip == ip by {
                lemma_socket_text_ipv4_at(ss, a);
                lemma_ipv4_at_unique(ss, a.ip, ip);
            }
        }
        if !char_at_is(s, n, e, 58) || e + 1 >= n {
            proof {
                assert forall|a: SocketAddress| !socket_text_for(ss, a) by {
                    if socket_text_for(ss, a) {
                        assert(a.ip == ip);
                    }
                }
            }
            return None;
        }
        let start = e + 1;
        let mut j = start;
        let mut val: u32 = 0;
        while j < n
            invariant
                is_ascii(s),
                ss == s@,
                n == ss.len(),
                e == ipv4_text(ip).len(),
                start == e + 1,
                start < n,
                ipv4_at(ss, ip),
                ss[e as int] == ':',
                start <= j <= n,
                all_digits(ss.subrange(start as int, j as int)),
                val == decimal_value(ss.subrange(start as int, j as int)),
                val <= 65535,
                forall|a: SocketAddress| socket_text_for(ss, a) ==> a.ip == ip,
            decreases n - j,
        {
            let b = s.get_ascii(j);
            let ghost c = ss[j as int];
            assert(c <= '\u{7f}');
            if b < 48 || b > 57 {
                proof {
                    assert(!is_digit(c));
                    assert forall|a: SocketAddress| !socket_text_for(ss, a) by {
                        if socket_text_for(ss, a) {
                            let t = ss.subrange(start as int, n as int);
                            assert(t[j - start] == c);
                        }
                    }
                }
                return None;
            }
            let ghost old_sub = ss.subrange(start as int, j as int);
            let ghost new_sub = ss.subrange(start as int, j + 1);
            proof {
                assert(is_digit(c) && digit_value(c) == b - 48);
                assert(new_sub.drop_last() =~= old_sub);
                assert(new_sub.last() == c);
                assert forall|i: int| 0 <= i < new_sub.len() implies #[trigger] is_digit(
                    new_sub[i],
                ) by {
                    if i < old_sub.len() {
                        assert(new_sub[i] == old_sub[i]);
                    }
                }
            }
            val = val * 10 + (b - 48) as u32;
            if val > 65535 {
                proof {
                    assert forall|a: SocketAddress| !socket_text_for(ss, a) by {
                        if socket_text_for(ss, a) {
                            let t = ss.subrange(start as int, n as int);
                            assert(t.take(j + 1 - start) =~= new_sub);
                            lemma_value_prefix(t, j + 1 - start);
                        }
                    }
                }
                return None;
            }
            j = j + 1;
        }
        let r = SocketAddress { ip, port: val as u16 };
        proof {
            assert(socket_text_for(ss, r));
            let c = choose|c: SocketAddress| socket_text_for(ss, c);
            lemma_socket_text_unique(ss, r, c);
        }
        Some(r)
    }

    /// The text of the socket address, as `Display` writes it.
    pub fn to_string(&self) -> (r: String)
        ensures
            r@ == socket_text(*self),
    {
        let mut out = self.ip.to_string();
        push_separator(&mut out, false);
        push_decimal(&mut out, self.port);
        proof {
            assert(out@ =~= socket_text(*self));
        }
        out
    }
}

/// The text that `to_string` writes is a text of the socket address.
proof fn lemma_socket_text_for_own_text(a: SocketAddress)
    ensures
        socket_text_for(socket_text(a), a),
{
    let p = ipv4_text(a.ip);
    let s = socket_text(a);
    lemma_decimal_text(a.port as nat);
    assert(s.subrange(0, p.len() as int) =~= p);
    assert(s.subrange(p.len() as int + 1, s.len() as int) =~= decimal_text(a.port as nat));
}

/// Parsing the text of a socket address gives back the socket address.
pub proof fn law_socket_parse_text(a: SocketAddress)
    ensures
        socket_from_text(socket_text(a)) == Some(a),
{
    let s = socket_text(a);
    lemma_socket_text_for_own_text(a);
    let c = choose|c: SocketAddress| socket_text_for(s, c);
    lemma_socket_text_unique(s, a, c);
}

/// Parsing a text of a socket address and writing the result back gives the
/// same text, up to leading zeros in the port.
pub proof fn law_socket_text_of_parsed(s: Seq<char>, a: SocketAddress)
    requires
        socket_from_text(s) == Some(a),
    ensures
        socket_text_for(s, a),
        socket_text_for(socket_text(a), a),
{
    lemma_socket_text_for_own_text(a);
}


/// The text of an address is its four octets, in order, each as a base-ten
/// numeral, with a dot between each two: the digits before the first dot are
/// worth the first octet, those between the first and second dots the second,
/// and so on, and nothing follows the fourth.
pub proof fn law_ipv4_text_fields(a: Ipv4Address)
    ensures
        ({
            let t = ipv4_text(a);
            let e0 = decimal_text(a.octets[0] as nat).len() as int;
            let e1 = e0 + 1 + decimal_text(a.octets[1] as nat).len();
            let e2 = e1 + 1 + decimal_text(a.octets[2] as nat).len();
            let e3 = e2 + 1 + decimal_text(a.octets[3] as nat).len();
            &&& t.len() == e3
            &&& t[e0] == '.' && t[e1] == '.' && t[e2] == '.'
            &&& all_digits(t.subrange(0, e0)) && decimal_value(t.subrange(0, e0)) == a.octets[0]
            &&& all_digits(t.subrange(e0 + 1, e1)) && decimal_value(t.subrange(e0 + 1, e1))
                == a.octets[1]
            &&& all_digits(t.subrange(e1 + 1, e2)) && decimal_value(t.subrange(e1 + 1, e2))
                == a.octets[2]
            &&& all_digits(t.subrange(e2 + 1, e3)) && decimal_value(t.subrange(e2 + 1, e3))
                == a.octets[3]
        }),
{
    lemma_ipv4_text_pieces(a);
    lemma_decimal_text(a.octets[0] as nat);
    lemma_decimal_text(a.octets[1] as nat);
    lemma_decimal_text(a.octets[2] as nat);
    lemma_decimal_text(a.octets[3] as nat);
    assert(octet_start(a, 0) == 0);
    assert(octet_start(a, 1) == octet_start(a, 0) + decimal_text(a.octets[0] as nat).len() + 1);
    assert(octet_start(a, 2) == octet_start(a, 1) + decimal_text(a.octets[1] as nat).len() + 1);
    assert(octet_start(a, 3) == octet_start(a, 2) + decimal_text(a.octets[2] as nat).len() + 1);
}

/// Parsing reads base-ten numerals: text made of four numerals without
/// superfluous leading zeros, joined by dots, parses to the address whose
/// octets are their values, in order.
pub proof fn law_ipv4_parse_fields(
    s: Seq<char>,
    a: Ipv4Address,
    t0: Seq<char>,
    t1: Seq<char>,
    t2: Seq<char>,
    t3: Seq<char>,
)
    requires
        s == t0 + seq!['.'] + t1 + seq!['.'] + t2 + seq!['.'] + t3,
        all_digits(t0) && t0.len() >= 1 && (t0.len() == 1 || t0[0] != '0')
            && decimal_value(t0) == a.octets[0],
        all_digits(t1) && t1.len() >= 1 && (t1.len() == 1 || t1[0] != '0')
            && decimal_value(t1) == a.octets[1],
        all_digits(t2) && t2.len() >= 1 && (t2.len() == 1 || t2[0] != '0')
            && decimal_value(t2) == a.octets[2],
        all_digits(t3) && t3.len() >= 1 && (t3.len() == 1 || t3[0] != '0')
            && decimal_value(t3) == a.octets[3],
    ensures
        ipv4_from_text(s) == Some(a),
{
    lemma_decimal_canonical(t0);
    lemma_decimal_canonical(t1);
    lemma_decimal_canonical(t2);
    lemma_decimal_canonical(t3);
    assert(ipv4_text(a) == s);
    law_ipv4_parse_text(a);
}

/// The text of a socket address is the text of its IP address, a colon, and
/// the port as a base-ten numeral with no leading zero unless the port is 0.
pub proof fn law_socket_text_fields(a: SocketAddress)
    ensures
        ({
            let t = socket_text(a);
            let p = ipv4_text(a.ip).len() as int;
            let rest = t.subrange(p + 1, t.len() as int);
            &&& p < t.len()
            &&& t.subrange(0, p) == ipv4_text(a.ip)
            &&& t[p] == ':'
            &&& rest.len() >= 1
            &&& all_digits(rest)
            &&& decimal_value(rest) == a.port
            &&& (rest.len() > 1 ==> rest[0] != '0')
        }),
{
    lemma_decimal_text(a.port as nat);
    let t = socket_text(a);
    let p = ipv4_text(a.ip).len() as int;
    assert(t.subrange(0, p) =~= ipv4_text(a.ip));
    assert(t.subrange(p + 1, t.len() as int) =~= decimal_text(a.port as nat));
}

/// Parsing accepts every text of a socket address: the text of an IP address,
/// a colon, and base-ten digits (leading zeros allowed) worth the port parse to
/// that address and port.
pub proof fn law_socket_parse_accepts(s: Seq<char>, a: SocketAddress, t: Seq<char>)
    requires
        s == ipv4_text(a.ip) + seq![':'] + t,
        t.len() > 0,
        all_digits(t),
        decimal_value(t) == a.port,
    ensures
        socket_from_text(s) == Some(a),
{
    let p = ipv4_text(a.ip).len() as int;
    assert(s.subrange(0, p) =~= ipv4_text(a.ip));
    assert(s.subrange(p + 1, s.len() as int) =~= t);
    assert(socket_text_for(s, a));
    let c = choose|c: SocketAddress| socket_text_for(s, c);
    lemma_socket_text_unique(s, a, c);
}

}
