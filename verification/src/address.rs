//! Interface addresses: the `address/prefix` syntax of the requests, and
//! the IPv4 addresses that a link's address dump lists.
use vstd::prelude::*;
use crate::ip::{lemma_ipv4_text_lacks, lemma_ipv4_text_roundtrip, ipv4_text, parse_ipv4, parse_ipv4_spec, push_ipv4, IpAddress, Ipv4, Ipv6};
use crate::outcome::NetError;
use crate::text::{
    lemma_decimal_no, lemma_parse_u8_decimal, lemma_split_join, lemma_split_none, chars_of, decimal, parse_u8, parse_u8_spec, push_decimal, split_chars, split_spec,
    string_from_chars, views_of,
};

verus! {

/// The two halves of a text `address/prefix`, before either is read.
pub struct CidrText {
    pub ip: String,
    pub prefix: String,
}

/// An address with its prefix length.
#[derive(Debug, Clone, Copy)]
pub struct Cidr {
    pub address: IpAddress,
    pub prefix_len: u8,
}

/// The halves of `s` around its one `/`, or `None` where `s` does not hold
/// exactly one.
pub open spec fn cidr_halves(s: Seq<char>) -> Option<(Seq<char>, Seq<char>)> {
    let parts = split_spec(s, '/');
    if parts.len() == 2 {
        Some((parts[0], parts[1]))
    } else {
        None
    }
}

/// Splits `address` at its one `/`; any other number of `/` is refused.
pub fn split_cidr(address: &str) -> (r: Result<CidrText, NetError>)
    ensures
        match r {
            Ok(t) => cidr_halves(address@) == Some((t.ip@, t.prefix@)),
            Err(e) => cidr_halves(address@) is None && e is NotCidr,
        },
{
    let cs = chars_of(address);
    let parts = split_chars(&cs, '/');
    assert(views_of(parts@).len() == parts@.len());
    if parts.len() != 2 {
        return Err(NetError::NotCidr);
    }
    assert(views_of(parts@)[0] == parts@[0]@);
    assert(views_of(parts@)[1] == parts@[1]@);
    let ip = string_from_chars(&parts[0]);
    let prefix = string_from_chars(&parts[1]);
    Ok(CidrText { ip, prefix })
}

/// What the halves of `address/prefix` stand for: the address is read as
/// IPv4 first, and else taken from `v6`, the reading of the same text as
/// an IPv6 address; then the prefix length is read.
pub open spec fn cidr_spec(ip: Seq<char>, prefix: Seq<char>, v6: Option<Ipv6>) -> Result<
    (IpAddress, u8),
    NetError,
> {
    let address = match parse_ipv4_spec(ip) {
        Some(a) => Some(IpAddress::V4(a)),
        None => match v6 {
            Some(b) => Some(IpAddress::V6(b)),
            None => None,
        },
    };
    match address {
        None => Err(NetError::InvalidIp),
        Some(a) => match parse_u8_spec(prefix) {
            Ok(p) => Ok((a, p)),
            Err(e) => Err(NetError::InvalidPrefix(e)),
        },
    }
}

/// The view of a read `address/prefix`.
pub open spec fn cidr_result_view(r: Result<Cidr, NetError>) -> Result<(IpAddress, u8), NetError> {
    match r {
        Ok(c) => Ok((c.address, c.prefix_len)),
        Err(e) => Err(e),
    }
}

/// Reads the halves of `address/prefix`. `v6` is the reading of `text.ip`
/// as an IPv6 address, which the caller makes; it is used only where the
/// text is not an IPv4 address.
pub fn parse_cidr_parts(text: &CidrText, v6: Option<Ipv6>) -> (r: Result<Cidr, NetError>)
    ensures
        cidr_result_view(r) == cidr_spec(text.ip@, text.prefix@, v6),
{
    let ip = chars_of(text.ip.as_str());
    let address = match parse_ipv4(&ip) {
        Some(a) => IpAddress::V4(a),
        None => match v6 {
            Some(b) => IpAddress::V6(b),
            None => {
                return Err(NetError::InvalidIp);
            },
        },
    };
    let prefix = chars_of(text.prefix.as_str());
    match parse_u8(&prefix) {
        Ok(p) => Ok(Cidr { address, prefix_len: p }),
        Err(e) => Err(NetError::InvalidPrefix(e)),
    }
}

/// The family of an address record.
#[derive(Debug, Clone, Copy, PartialEq, Eq, Structural)]
pub enum AddressFamily {
    Inet,
    Inet6,
    Other,
}

/// An attribute of an address record.
#[derive(Debug, Clone, Copy)]
pub enum AddressAttribute {
    Address(IpAddress),
    Other,
}

/// One record of an address dump.
pub struct AddressMessage {
    pub family: AddressFamily,
    pub prefix_len: u8,
    pub attributes: Vec<AddressAttribute>,
}

impl Cidr {
    /// The family of the address: `Inet` for IPv4, `Inet6` for IPv6.
    pub fn family(&self) -> (f: AddressFamily)
        ensures
            f == (match self.address {
                IpAddress::V4(_) => AddressFamily::Inet,
                IpAddress::V6(_) => AddressFamily::Inet6,
            }),
    {
        match self.address {
            IpAddress::V4(_) => AddressFamily::Inet,
            IpAddress::V6(_) => AddressFamily::Inet6,
        }
    }
}

/// `a.b.c.d/p`, the key under which an address is listed.
pub open spec fn cidr_text(ip: Ipv4, prefix_len: u8) -> Seq<char> {
    ipv4_text(ip) + seq!['/'] + decimal(prefix_len as nat)
}

/// The IPv4 addresses among `attrs`, in order, written with `prefix_len`.
pub open spec fn listed_in_attributes(attrs: Seq<AddressAttribute>, prefix_len: u8) -> Seq<
    Seq<char>,
>
    decreases attrs.len(),
{
    if attrs.len() == 0 {
        Seq::empty()
    } else {
        let init = listed_in_attributes(attrs.drop_last(), prefix_len);
        match attrs.last() {
            AddressAttribute::Address(IpAddress::V4(a)) => init.push(cidr_text(a, prefix_len)),
            _ => init,
        }
    }
}

/// The IPv4 addresses that an address dump lists, in order: those of the
/// `Inet` records only.
pub open spec fn listed_addresses(msgs: Seq<AddressMessage>) -> Seq<Seq<char>>
    decreases msgs.len(),
{
    if msgs.len() == 0 {
        Seq::empty()
    } else {
        let init = listed_addresses(msgs.drop_last());
        let m = msgs.last();
        if m.family == AddressFamily::Inet {
            init + listed_in_attributes(m.attributes@, m.prefix_len)
        } else {
            init
        }
    }
}

/// The views of a vector of strings.
pub open spec fn string_views(v: Seq<String>) -> Seq<Seq<char>> {
    v.map_values(|s: String| s@)
}

/// Whether `v` holds a string equal to `s`.
fn holds(v: &Vec<String>, s: &String) -> (r: bool)
    ensures
        r == string_views(v@).contains(s@),
{
    let mut i: usize = 0;
    while i < v.len()
        invariant
            i <= v.len(),
            forall|j: int| 0 <= j < i ==> v@[j]@ != s@,
        decreases v.len() - i,
    {
        if v[i] == *s {
            assert(string_views(v@)[i as int] == s@);
            return true;
        }
        i = i + 1;
    }
    assert forall|j: int| 0 <= j < string_views(v@).len() implies string_views(v@)[j] != s@ by {
        assert(string_views(v@)[j] == v@[j]@);
    }
    false
}

/// The text `a.b.c.d/p`.
pub fn cidr_to_string(ip: Ipv4, prefix_len: u8) -> (s: String)
    ensures
        s@ == cidr_text(ip, prefix_len),
{
    let mut cs: Vec<char> = Vec::new();
    push_ipv4(&mut cs, ip);
    cs.push('/');
    push_decimal(&mut cs, prefix_len as u32);
    assert(cs@ == cidr_text(ip, prefix_len));
    string_from_chars(&cs)
}

/// The IPv4 addresses of an address dump, each once, as `a.b.c.d/p`;
/// records of other families are passed over. In what order they come is
/// not promised.
pub fn ipv4_addresses(msgs: &Vec<AddressMessage>) -> (r: Vec<String>)
    ensures
        string_views(r@).no_duplicates(),
        forall|k: Seq<char>| string_views(r@).contains(k) <==> listed_addresses(msgs@).contains(k),
{
    let mut r: Vec<String> = Vec::new();
    assert(msgs@.take(0) == Seq::<AddressMessage>::empty());
    for i in 0..msgs.len()
        invariant
            string_views(r@).no_duplicates(),
            forall|k: Seq<char>|
                string_views(r@).contains(k) <==> listed_addresses(msgs@.take(i as int)).contains(k),
    {
        let m = &msgs[i];
        let ghost before = listed_addresses(msgs@.take(i as int));
        assert(msgs@.take(i + 1).drop_last() == msgs@.take(i as int));
        assert(msgs@.take(i + 1).last() == *m);
        if m.family == AddressFamily::Inet {
            assert(m.attributes@.take(0) == Seq::<AddressAttribute>::empty());
            assert(before + listed_in_attributes(m.attributes@.take(0), m.prefix_len) == before);
            for j in 0..m.attributes.len()
                invariant
                    string_views(r@).no_duplicates(),
                    forall|k: Seq<char>|
                        string_views(r@).contains(k) <==> (before + listed_in_attributes(
                            m.attributes@.take(j as int),
                            m.prefix_len,
                        )).contains(k),
            {
                let ghost cur = listed_in_attributes(m.attributes@.take(j as int), m.prefix_len);
                assert(m.attributes@.take(j + 1).drop_last() == m.attributes@.take(j as int));
                assert(m.attributes@.take(j + 1).last() == m.attributes@[j as int]);
                match m.attributes[j] {
                    AddressAttribute::Address(IpAddress::V4(a)) => {
                        let text = cidr_to_string(a, m.prefix_len);
                        let ghost t = text@;
                        let ghost old_views = string_views(r@);
                        let present = holds(&r, &text);
                        if !present {
                            r.push(text);
                            assert(string_views(r@) == old_views.push(t));
                        }
                        proof {
                            lemma_contains_push(before + cur, t);
                            lemma_contains_push(old_views, t);
                            assert((before + cur).push(t) == before + cur.push(t));
                            assert(listed_in_attributes(m.attributes@.take(j + 1), m.prefix_len)
                                == cur.push(t));
                            assert forall|k: Seq<char>|
                                string_views(r@).contains(k) <==> (before + cur.push(t)).contains(
                                    k,
                                ) by {
                                if present {
                                    assert(string_views(r@) == old_views);
                                    assert(old_views.contains(k) <==> (before + cur).contains(k));
                                    assert((before + cur).contains(t));
                                } else {
                                    assert(old_views.contains(k) <==> (before + cur).contains(k));
                                }
                            }
                        }
                    },
                    _ => {
                        assert(listed_in_attributes(m.attributes@.take(j + 1), m.prefix_len)
                            == cur);
                    },
                }
            }
            assert(m.attributes@.take(m.attributes.len() as int) == m.attributes@);
        }
    }
    assert(msgs@.take(msgs.len() as int) == msgs@);
    r
}

proof fn lemma_contains_push(s: Seq<Seq<char>>, t: Seq<char>)
    ensures
        forall|k: Seq<char>| s.push(t).contains(k) <==> (s.contains(k) || k == t),
{
    assert forall|k: Seq<char>| s.push(t).contains(k) <==> (s.contains(k) || k == t) by {
        if s.push(t).contains(k) {
            let i = choose|i: int| 0 <= i < s.push(t).len() && s.push(t)[i] == k;
            if i < s.len() {
                assert(s[i] == k);
            }
        }
        if s.contains(k) {
            let i = choose|i: int| 0 <= i < s.len() && s[i] == k;
            assert(s.push(t)[i] == k);
        }
        if k == t {
            assert(s.push(t)[s.len() as int] == k);
        }
    }
}

/// Every address that an address dump lists, written `a.b.c.d/p`, reads
/// back through the `address/prefix` syntax of the requests as the same
/// IPv4 address and prefix length, whatever the IPv6 reading of its first
/// half.
pub proof fn lemma_cidr_text_roundtrip(ip: Ipv4, prefix_len: u8, v6: Option<Ipv6>)
    ensures
        cidr_halves(cidr_text(ip, prefix_len)) == Some((ipv4_text(ip), decimal(prefix_len as nat))),
        cidr_spec(ipv4_text(ip), decimal(prefix_len as nat), v6) == Ok::<(IpAddress, u8), NetError>(
            (IpAddress::V4(ip), prefix_len),
        ),
{
    lemma_ipv4_text_lacks(ip, '/');
    lemma_decimal_no(prefix_len as nat, '/');
    lemma_split_none(ipv4_text(ip), '/');
    lemma_split_none(decimal(prefix_len as nat), '/');
    lemma_split_join(ipv4_text(ip), decimal(prefix_len as nat), '/');
    let parts = split_spec(cidr_text(ip, prefix_len), '/');
    assert(parts == seq![ipv4_text(ip)] + seq![decimal(prefix_len as nat)]);
    assert(parts[0] == ipv4_text(ip));
    assert(parts[1] == decimal(prefix_len as nat));
    lemma_ipv4_text_roundtrip(ip);
    lemma_parse_u8_decimal(prefix_len);
}

proof fn lemma_listed_in_attributes_texts(attrs: Seq<AddressAttribute>, prefix_len: u8)
    ensures
        forall|k: Seq<char>| #[trigger]
            listed_in_attributes(attrs, prefix_len).contains(k) ==> exists|ip: Ipv4|
                cidr_text(ip, prefix_len) == k,
    decreases attrs.len(),
{
    if attrs.len() > 0 {
        let init = listed_in_attributes(attrs.drop_last(), prefix_len);
        lemma_listed_in_attributes_texts(attrs.drop_last(), prefix_len);
        assert forall|k: Seq<char>| #[trigger]
            listed_in_attributes(attrs, prefix_len).contains(k) implies exists|ip: Ipv4|
            cidr_text(ip, prefix_len) == k by {
            let l = listed_in_attributes(attrs, prefix_len);
            let i = choose|i: int| 0 <= i < l.len() && l[i] == k;
            if i < init.len() {
                assert(init[i] == k);
                assert(init.contains(k));
            } else {
                if let AddressAttribute::Address(IpAddress::V4(a)) = attrs.last() {
                    assert(cidr_text(a, prefix_len) == k);
                }
            }
        }
    }
}

proof fn lemma_listed_texts(msgs: Seq<AddressMessage>)
    ensures
        forall|k: Seq<char>| #[trigger]
            listed_addresses(msgs).contains(k) ==> exists|ip: Ipv4, p: u8| cidr_text(ip, p) == k,
    decreases msgs.len(),
{
    if msgs.len() > 0 {
        let init = listed_addresses(msgs.drop_last());
        let m = msgs.last();
        lemma_listed_texts(msgs.drop_last());
        lemma_listed_in_attributes_texts(m.attributes@, m.prefix_len);
        assert forall|k: Seq<char>| #[trigger] listed_addresses(msgs).contains(k) implies exists|
            ip: Ipv4,
            p: u8,
        | cidr_text(ip, p) == k by {
            let l = listed_addresses(msgs);
            let i = choose|i: int| 0 <= i < l.len() && l[i] == k;
            if i < init.len() {
                assert(init[i] == k);
                assert(init.contains(k));
            } else {
                let more = listed_in_attributes(m.attributes@, m.prefix_len);
                assert(more[i - init.len()] == k);
                assert(more.contains(k));
                let ip = choose|ip: Ipv4| cidr_text(ip, m.prefix_len) == k;
                assert(cidr_text(ip, m.prefix_len) == k);
            }
        }
    }
}

/// Every address that the IPv4 address listing of a dump holds can be
/// handed back to the address requests: it splits at its `/` and reads as
/// an IPv4 address and a prefix length, which it is the spelling of.
pub proof fn lemma_listed_addresses_read_back(msgs: Seq<AddressMessage>, k: Seq<char>, v6: Option<Ipv6>)
    requires
        listed_addresses(msgs).contains(k),
    ensures
        cidr_halves(k) matches Some((a, b)) && cidr_spec(a, b, v6) matches Ok((IpAddress::V4(ip), p))
            && cidr_text(ip, p) == k,
{
    lemma_listed_texts(msgs);
    let (ip, p) = choose|ip: Ipv4, p: u8| cidr_text(ip, p) == k;
    lemma_cidr_text_roundtrip(ip, p, v6);
}

} // verus!
