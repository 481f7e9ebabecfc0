//! IP addresses as plain values, with the dotted-quad syntax of IPv4.
use vstd::prelude::*;
use crate::text::{chars_of, decimal, digit_char, lemma_decimal_no, lemma_decimal_shape, lemma_split_join, lemma_split_none, lemma_split_then_join, join_spec, lacks, lemma_lacks_concat, digit_value, is_digit, push_decimal, split_chars, split_spec, string_from_chars, views_of};

verus! {

/// An IPv4 address, octet by octet, most significant first.
#[derive(Debug, Clone, Copy, PartialEq, Eq, Structural)]
pub struct Ipv4(pub u8, pub u8, pub u8, pub u8);

/// An IPv6 address as its sixteen octets, most significant first.
#[derive(Debug, Clone, Copy)]
pub struct Ipv6(pub [u8; 16]);

/// An address of either family.
#[derive(Debug, Clone, Copy)]
pub enum IpAddress {
    V4(Ipv4),
    V6(Ipv6),
}

/// The value of a run of decimal digits, read most significant first.
pub open spec fn digits_value(p: Seq<char>) -> nat
    decreases p.len(),
{
    if p.len() == 0 {
        0
    } else {
        digits_value(p.drop_last()) * 10 + digit_value(p.last())
    }
}

/// One octet of a dotted quad: one to three digits, no leading zero, at
/// most 255.
pub open spec fn is_octet_text(p: Seq<char>) -> bool {
    &&& 1 <= p.len() <= 3
    &&& forall|i: int| 0 <= i < p.len() ==> is_digit(#[trigger] p[i])
    &&& (p.len() > 1 ==> p[0] != '0')
    &&& digits_value(p) <= 255
}

/// `str::parse::<Ipv4Addr>`: exactly four octets separated by dots.
pub open spec fn parse_ipv4_spec(s: Seq<char>) -> Option<Ipv4> {
    let parts = split_spec(s, '.');
    if parts.len() == 4 && is_octet_text(parts[0]) && is_octet_text(parts[1]) && is_octet_text(
        parts[2],
    ) && is_octet_text(parts[3]) {
        Some(
            Ipv4(
                digits_value(parts[0]) as u8,
                digits_value(parts[1]) as u8,
                digits_value(parts[2]) as u8,
                digits_value(parts[3]) as u8,
            ),
        )
    } else {
        None
    }
}

/// The dotted-quad spelling of an address (its `Display`).
pub open spec fn ipv4_text(ip: Ipv4) -> Seq<char> {
    decimal(ip.0 as nat) + seq!['.'] + decimal(ip.1 as nat) + seq!['.'] + decimal(ip.2 as nat)
        + seq!['.'] + decimal(ip.3 as nat)
}

/// Parses one octet of a dotted quad.
fn parse_octet(p: &Vec<char>) -> (r: Option<u8>)
    ensures
        r == (if is_octet_text(p@) {
            Some(digits_value(p@) as u8)
        } else {
            None::<u8>
        }),
{
    if p.len() < 1 || p.len() > 3 {
        return None;
    }
    if p.len() > 1 && p[0] == '0' {
        return None;
    }
    let mut v: u32 = 0;
    let mut i: usize = 0;
    while i < p.len()
        invariant
            1 <= p.len() <= 3,
            i <= p.len(),
            v == digits_value(p@.take(i as int)),
            v < (if i == 0 {
                1int
            } else if i == 1 {
                10int
            } else if i == 2 {
                100int
            } else {
                1000int
            }),
            forall|k: int| 0 <= k < i ==> is_digit(#[trigger] p@[k]),
        decreases p.len() - i,
    {
        let c = p[i];
        if !('0' <= c && c <= '9') {
            return None;
        }
        assert(p@.take(i + 1).drop_last() == p@.take(i as int));
        assert(p@.take(i + 1).last() == c);
        v = v * 10 + ((c as u32) - ('0' as u32));
        i = i + 1;
    }
    assert(p@.take(p.len() as int) == p@);
    if v > 255 {
        None
    } else {
        Some(v as u8)
    }
}

/// Parses an IPv4 address as `str::parse::<Ipv4Addr>` does.
pub fn parse_ipv4(s: &Vec<char>) -> (r: Option<Ipv4>)
    ensures
        r == parse_ipv4_spec(s@),
{
    let parts = split_chars(s, '.');
    assert(views_of(parts@).len() == parts@.len());
    if parts.len() != 4 {
        return None;
    }
    assert(views_of(parts@)[0] == parts@[0]@);
    assert(views_of(parts@)[1] == parts@[1]@);
    assert(views_of(parts@)[2] == parts@[2]@);
    assert(views_of(parts@)[3] == parts@[3]@);
    let a = parse_octet(&parts[0]);
    let b = parse_octet(&parts[1]);
    let c = parse_octet(&parts[2]);
    let d = parse_octet(&parts[3]);
    match (a, b, c, d) {
        (Some(a), Some(b), Some(c), Some(d)) => Some(Ipv4(a, b, c, d)),
        _ => None,
    }
}

/// Parses an IPv4 address held in a string slice.
pub fn parse_ipv4_str(s: &str) -> (r: Option<Ipv4>)
    ensures
        r == parse_ipv4_spec(s@),
{
    let cs = chars_of(s);
    parse_ipv4(&cs)
}

/// Appends the dotted-quad spelling of `ip` to `out`.
pub fn push_ipv4(out: &mut Vec<char>, ip: Ipv4)
    ensures
        final(out)@ == old(out)@ + ipv4_text(ip),
{
    let ghost start = out@;
    push_decimal(out, ip.0 as u32);
    out.push('.');
    push_decimal(out, ip.1 as u32);
    out.push('.');
    push_decimal(out, ip.2 as u32);
    out.push('.');
    push_decimal(out, ip.3 as u32);
    assert(out@ == start + ipv4_text(ip));
}

/// The dotted-quad spelling of `ip` (what `Ipv4Addr::to_string` gives).
pub fn ipv4_to_string(ip: Ipv4) -> (s: String)
    ensures
        s@ == ipv4_text(ip),
{
    let mut cs: Vec<char> = Vec::new();
    push_ipv4(&mut cs, ip);
    assert(cs@ == ipv4_text(ip));
    string_from_chars(&cs)
}

/// The digits of the decimal spelling of `n` are worth `n`.
pub proof fn lemma_digits_value_decimal(n: nat)
    ensures
        digits_value(decimal(n)) == n,
    decreases n,
{
    if n < 10 {
        let t = decimal(n);
        assert(t == seq![digit_char(n)]);
        assert(t.drop_last() == Seq::<char>::empty());
        assert(digits_value(t.drop_last()) == 0);
        assert(t.last() == digit_char(n));
        assert(digit_value(digit_char(n)) == n);
    } else {
        lemma_digits_value_decimal(n / 10);
        let t = decimal(n);
        assert(t.drop_last() == decimal(n / 10));
        assert(t.last() == digit_char(n % 10));
        assert(digit_value(digit_char(n % 10)) == n % 10);
    }
}

/// The decimal spelling of an octet is a valid octet of a dotted quad.
pub proof fn lemma_octet_text(n: u8)
    ensures
        is_octet_text(decimal(n as nat)),
        digits_value(decimal(n as nat)) == n,
{
    lemma_decimal_shape(n as nat);
    lemma_digits_value_decimal(n as nat);
}

/// Reading back the dotted-quad spelling of an address gives the address:
/// `Ipv4Addr`'s `Display` and `FromStr` are inverse.
pub proof fn lemma_ipv4_text_roundtrip(ip: Ipv4)
    ensures
        parse_ipv4_spec(ipv4_text(ip)) == Some(ip),
{
    let a = decimal(ip.0 as nat);
    let b = decimal(ip.1 as nat);
    let c = decimal(ip.2 as nat);
    let d = decimal(ip.3 as nat);
    lemma_octet_text(ip.0);
    lemma_octet_text(ip.1);
    lemma_octet_text(ip.2);
    lemma_octet_text(ip.3);
    assert('.' != '0') by {}
    lemma_decimal_no(ip.0 as nat, '.');
    lemma_decimal_no(ip.1 as nat, '.');
    lemma_decimal_no(ip.2 as nat, '.');
    lemma_decimal_no(ip.3 as nat, '.');
    lemma_split_none(a, '.');
    lemma_split_none(b, '.');
    lemma_split_none(c, '.');
    lemma_split_none(d, '.');
    let ab = a + seq!['.'] + b;
    let abc = ab + seq!['.'] + c;
    lemma_split_join(a, b, '.');
    lemma_split_join(ab, c, '.');
    lemma_split_join(abc, d, '.');
    assert(ipv4_text(ip) == abc + seq!['.'] + d);
    let parts = split_spec(ipv4_text(ip), '.');
    assert(parts == seq![a] + seq![b] + seq![c] + seq![d]);
    assert(parts[0] == a);
    assert(parts[1] == b);
    assert(parts[2] == c);
    assert(parts[3] == d);
}

/// The dotted-quad spelling holds only digits and dots: no other
/// character that is not a digit occurs in it.
pub proof fn lemma_ipv4_text_lacks(ip: Ipv4, c: char)
    requires
        !is_digit(c),
        c != '.',
    ensures
        lacks(ipv4_text(ip), c),
{
    lemma_decimal_no(ip.0 as nat, c);
    lemma_decimal_no(ip.1 as nat, c);
    lemma_decimal_no(ip.2 as nat, c);
    lemma_decimal_no(ip.3 as nat, c);
    let dot = seq!['.'];
    assert(lacks(dot, c));
    let a = decimal(ip.0 as nat);
    let b = decimal(ip.1 as nat);
    let cc = decimal(ip.2 as nat);
    let d = decimal(ip.3 as nat);
    lemma_lacks_concat(a, dot, c);
    lemma_lacks_concat(a + dot, b, c);
    lemma_lacks_concat(a + dot + b, dot, c);
    lemma_lacks_concat(a + dot + b + dot, cc, c);
    lemma_lacks_concat(a + dot + b + dot + cc, dot, c);
    lemma_lacks_concat(a + dot + b + dot + cc + dot, d, c);
}

/// A run of digits without a leading zero is the decimal spelling of its
/// value.
pub proof fn lemma_decimal_digits_value(p: Seq<char>)
    requires
        p.len() >= 1,
        forall|i: int| 0 <= i < p.len() ==> is_digit(#[trigger] p[i]),
        p.len() > 1 ==> p[0] != '0',
    ensures
        decimal(digits_value(p)) == p,
        p.len() > 1 ==> digits_value(p) >= 10,
        p[0] != '0' ==> digits_value(p) >= 1,
    decreases p.len(),
{
    let c = p.last();
    let d = digit_value(c);
    assert(is_digit(c));
    assert(digit_char(d) == c);
    if p.len() == 1 {
        assert(p.drop_last() == Seq::<char>::empty());
        assert(digits_value(p.drop_last()) == 0);
        assert(digits_value(p) == d);
        assert(decimal(d) == seq![c]);
        assert(p == seq![c]);
        if p[0] != '0' {
            assert(c != '0');
        }
    } else {
        let q = p.drop_last();
        assert(forall|i: int| 0 <= i < q.len() ==> q[i] == p[i]);
        assert(q[0] == p[0]);
        lemma_decimal_digits_value(q);
        let n = digits_value(p);
        assert(n == digits_value(q) * 10 + d);
        assert(n / 10 == digits_value(q));
        assert(n % 10 == d);
        assert(decimal(n) == decimal(n / 10).push(digit_char(n % 10)));
        assert(q.push(c) == p);
    }
}

/// An IPv4 text that reads as an address is that address's spelling:
/// there is one way to write each address, with no leading zeros.
pub proof fn lemma_ipv4_text_canonical(s: Seq<char>)
    ensures
        parse_ipv4_spec(s) matches Some(a) ==> ipv4_text(a) == s,
{
    if let Some(a) = parse_ipv4_spec(s) {
        let parts = split_spec(s, '.');
        lemma_split_then_join(s, '.');
        lemma_decimal_digits_value(parts[0]);
        lemma_decimal_digits_value(parts[1]);
        lemma_decimal_digits_value(parts[2]);
        lemma_decimal_digits_value(parts[3]);
        assert(parts.drop_last().drop_last().drop_last() == seq![parts[0]]);
        assert(parts.drop_last().drop_last().last() == parts[1]);
        assert(parts.drop_last().last() == parts[2]);
        assert(parts.last() == parts[3]);
        let p1 = parts.drop_last().drop_last().drop_last();
        let p2 = parts.drop_last().drop_last();
        let p3 = parts.drop_last();
        assert(join_spec(p1, '.') == parts[0]);
        assert(p2.drop_last() == p1);
        assert(join_spec(p2, '.') == parts[0] + seq!['.'] + parts[1]);
        assert(p3.drop_last() == p2);
        assert(join_spec(p3, '.') == parts[0] + seq!['.'] + parts[1] + seq!['.'] + parts[2]);
        assert(join_spec(parts, '.') == parts[0] + seq!['.'] + parts[1] + seq!['.'] + parts[2]
            + seq!['.'] + parts[3]);
    }
}

} // verus!
