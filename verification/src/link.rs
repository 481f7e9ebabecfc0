//! Network links: what a link dump says of each link, and the table of
//! links keyed by hardware address.
use vstd::prelude::*;
use crate::text::{chars_of, decimal, hex_byte, push_decimal, push_hex_byte, push_text, string_from_chars};

verus! {

/// A network link as the configuration sees it.
pub struct Link {
    pub name: String,
    pub ifindex: u32,
    pub oper_state: String,
    pub mac: String,
    pub mtu: u32,
    pub addresses: Option<Vec<String>>,
}

/// The value of a [`Link`].
pub struct LinkView {
    pub name: Seq<char>,
    pub ifindex: u32,
    pub oper_state: Seq<char>,
    pub mac: Seq<char>,
    pub mtu: u32,
    pub addresses: Option<Seq<Seq<char>>>,
}

impl View for Link {
    type V = LinkView;

    open spec fn view(&self) -> LinkView {
        LinkView {
            name: self.name@,
            ifindex: self.ifindex,
            oper_state: self.oper_state@,
            mac: self.mac@,
            mtu: self.mtu,
            addresses: match self.addresses {
                Some(v) => Some(v@.map_values(|s: String| s@)),
                None => None,
            },
        }
    }
}

/// No two of `s` share a hardware address.
pub open spec fn distinct_macs(s: Seq<LinkView>) -> bool {
    forall|i: int, j: int| 0 <= i < j < s.len() ==> s[i].mac != s[j].mac
}

/// `s` as a map from hardware address to link.
pub open spec fn keyed_by_mac(s: Seq<LinkView>) -> Map<Seq<char>, LinkView> {
    Map::new(
        |k: Seq<char>| exists|i: int| 0 <= i < s.len() && s[i].mac == k,
        |k: Seq<char>| s[choose|i: int| 0 <= i < s.len() && s[i].mac == k],
    )
}

/// Where hardware addresses are distinct, the map holds each link under
/// its own address.
proof fn lemma_keyed_at(s: Seq<LinkView>, i: int)
    requires
        distinct_macs(s),
        0 <= i < s.len(),
    ensures
        keyed_by_mac(s).contains_key(s[i].mac),
        keyed_by_mac(s)[s[i].mac] == s[i],
{
    let k = s[i].mac;
    assert(keyed_by_mac(s).dom().contains(k));
    let j = choose|j: int| 0 <= j < s.len() && s[j].mac == k;
    if j != i {
        if j < i {
            assert(s[j].mac != s[i].mac);
        } else {
            assert(s[i].mac != s[j].mac);
        }
    }
}

/// The links of a host, keyed by hardware address.
pub struct Links {
    links_by_mac: Vec<Link>,
}

impl Links {
    /// The stored links, in the order in which their addresses were first
    /// stored.
    pub closed spec fn entries(&self) -> Seq<LinkView> {
        self.links_by_mac@.map_values(|l: Link| l@)
    }

    #[verifier::type_invariant]
    closed spec fn macs_are_keys(&self) -> bool {
        distinct_macs(self.entries())
    }
}

impl View for Links {
    type V = Map<Seq<char>, LinkView>;

    open spec fn view(&self) -> Map<Seq<char>, LinkView> {
        keyed_by_mac(self.entries())
    }
}

impl Links {
    /// An empty table.
    pub fn new() -> (r: Self)
        ensures
            r@ == Map::<Seq<char>, LinkView>::empty(),
    {
        let r = Links { links_by_mac: Vec::new() };
        assert(r@ =~= Map::<Seq<char>, LinkView>::empty());
        r
    }

    /// The number of links.
    pub fn len(&self) -> (n: usize)
        ensures
            n == self@.len(),
    {
        proof {
            use_type_invariant(self);
            let s = self.entries();
            let macs = s.map_values(|l: LinkView| l.mac);
            assert(macs.no_duplicates()) by {
                assert forall|i: int, j: int|
                    0 <= i < macs.len() && 0 <= j < macs.len() && i != j implies macs[i]
                    != macs[j] by {
                    if i < j {
                        assert(s[i].mac != s[j].mac);
                    } else {
                        assert(s[j].mac != s[i].mac);
                    }
                }
            }
            macs.unique_seq_to_set();
            assert(self@.dom() =~= macs.to_set()) by {
                assert forall|k: Seq<char>| self@.dom().contains(k) implies macs.to_set().contains(
                    k,
                ) by {
                    let i = choose|i: int| 0 <= i < s.len() && s[i].mac == k;
                    assert(macs[i] == k);
                }
                assert forall|k: Seq<char>| macs.to_set().contains(k) implies self@.dom().contains(
                    k,
                ) by {
                    let i = choose|i: int| 0 <= i < macs.len() && macs[i] == k;
                    assert(s[i].mac == k);
                }
            }
        }
        self.links_by_mac.len()
    }

    /// The link stored under the hardware address `mac`.
    pub fn get(&self, mac: &String) -> (r: Option<&Link>)
        ensures
            match r {
                Some(l) => self@.contains_key(mac@) && self@[mac@] == l@,
                None => !self@.contains_key(mac@),
            },
    {
        proof {
            use_type_invariant(self);
        }
        let ghost s = self.entries();
        let mut i: usize = 0;
        while i < self.links_by_mac.len()
            invariant
                s == self.entries(),
                distinct_macs(s),
                i <= s.len(),
                s.len() == self.links_by_mac@.len(),
                forall|j: int| 0 <= j < i ==> s[j].mac != mac@,
            decreases s.len() - i,
        {
            assert(s[i as int] == self.links_by_mac@[i as int]@);
            if self.links_by_mac[i].mac == *mac {
                proof {
                    lemma_keyed_at(s, i as int);
                }
                return Some(&self.links_by_mac[i]);
            }
            i = i + 1;
        }
        assert(!self@.contains_key(mac@)) by {
            if self@.contains_key(mac@) {
                let j = choose|j: int| 0 <= j < s.len() && s[j].mac == mac@;
                assert(s[j].mac != mac@);
            }
        }
        None
    }

    /// The hardware address of a link with interface index `if_index`.
    /// Which one, where several share the index, is left open, as the walk
    /// over a hash map leaves it.
    pub fn mac_by_index(&self, if_index: u32) -> (r: Option<String>)
        ensures
            match r {
                Some(m) => self@.contains_key(m@) && self@[m@].ifindex == if_index,
                None => forall|k: Seq<char>|
                    #[trigger] self@.contains_key(k) ==> self@[k].ifindex != if_index,
            },
    {
        proof {
            use_type_invariant(self);
        }
        let ghost s = self.entries();
        let mut i: usize = 0;
        while i < self.links_by_mac.len()
            invariant
                s == self.entries(),
                distinct_macs(s),
                i <= s.len(),
                s.len() == self.links_by_mac@.len(),
                forall|j: int| 0 <= j < i ==> s[j].ifindex != if_index,
            decreases s.len() - i,
        {
            assert(s[i as int] == self.links_by_mac@[i as int]@);
            if self.links_by_mac[i].ifindex == if_index {
                proof {
                    lemma_keyed_at(s, i as int);
                }
                return Some(self.links_by_mac[i].mac.clone());
            }
            i = i + 1;
        }
        assert forall|k: Seq<char>| #[trigger] self@.contains_key(k) implies self@[k].ifindex
            != if_index by {
            let j = choose|j: int| 0 <= j < s.len() && s[j].mac == k;
            lemma_keyed_at(s, j);
        }
        None
    }

    /// Stores `link` under its hardware address, in place of any link
    /// stored there before.
    pub fn insert(&mut self, link: Link)
        ensures
            final(self)@ == old(self)@.insert(link@.mac, link@),
    {
        proof {
            use_type_invariant(&*self);
        }
        let mut v: Vec<Link> = Vec::new();
        std::mem::swap(&mut v, &mut self.links_by_mac);
        let ghost s = v@.map_values(|l: Link| l@);
        assert(s == old(self).entries());
        let ghost lv = link@;
        let mut i: usize = 0;
        while i < v.len()
            invariant
                s == v@.map_values(|l: Link| l@),
                s == old(self).entries(),
                distinct_macs(s),
                i <= s.len(),
                forall|j: int| 0 <= j < i ==> s[j].mac != lv.mac,
                lv == link@,
            decreases s.len() - i,
        {
            assert(s[i as int] == v@[i as int]@);
            if v[i].mac == link.mac {
                let ghost t = s.update(i as int, lv);
                v.set(i, link);
                assert(v@.map_values(|l: Link| l@) =~= t);
                proof {
                    assert(distinct_macs(t)) by {
                        assert forall|a: int, b: int| 0 <= a < b < t.len() implies t[a].mac
                            != t[b].mac by {
                            assert(s[a].mac != s[b].mac);
                        }
                    }
                    lemma_keyed_at(s, i as int);
                    assert forall|k: Seq<char>|
                        keyed_by_mac(t).contains_key(k) <==> keyed_by_mac(s).contains_key(
                            k,
                        ) by {
                        if keyed_by_mac(t).contains_key(k) {
                            let a = choose|a: int| 0 <= a < t.len() && t[a].mac == k;
                            assert(s[a].mac == k);
                        }
                        if keyed_by_mac(s).contains_key(k) {
                            let a = choose|a: int| 0 <= a < s.len() && s[a].mac == k;
                            assert(t[a].mac == k);
                        }
                    }
                    assert forall|k: Seq<char>| #[trigger]
                        keyed_by_mac(t).contains_key(k) implies keyed_by_mac(t)[k] == keyed_by_mac(
                        s,
                    ).insert(lv.mac, lv)[k] by {
                        let a = choose|a: int| 0 <= a < t.len() && t[a].mac == k;
                        lemma_keyed_at(t, a);
                        lemma_keyed_at(s, a);
                    }
                    assert(keyed_by_mac(t) =~= keyed_by_mac(s).insert(lv.mac, lv));
                }
                self.links_by_mac = v;
                return ;
            }
            i = i + 1;
        }
        let ghost t = s.push(lv);
        v.push(link);
        assert(v@.map_values(|l: Link| l@) =~= t);
        proof {
            assert(distinct_macs(t)) by {
                assert forall|a: int, b: int| 0 <= a < b < t.len() implies t[a].mac != t[b].mac by {
                    if b < s.len() {
                        assert(s[a].mac != s[b].mac);
                    } else {
                        assert(s[a].mac != lv.mac);
                    }
                }
            }
            assert forall|k: Seq<char>|
                keyed_by_mac(t).contains_key(k) <==> (keyed_by_mac(s).contains_key(k) || k
                    == lv.mac) by {
                if keyed_by_mac(t).contains_key(k) {
                    let a = choose|a: int| 0 <= a < t.len() && t[a].mac == k;
                    if a < s.len() {
                        assert(s[a].mac == k);
                    }
                }
                if keyed_by_mac(s).contains_key(k) {
                    let a = choose|a: int| 0 <= a < s.len() && s[a].mac == k;
                    assert(t[a].mac == k);
                }
                if k == lv.mac {
                    assert(t[s.len() as int].mac == k);
                }
            }
            assert forall|k: Seq<char>| #[trigger]
                keyed_by_mac(t).contains_key(k) implies keyed_by_mac(t)[k] == keyed_by_mac(
                s,
            ).insert(lv.mac, lv)[k] by {
                let a = choose|a: int| 0 <= a < t.len() && t[a].mac == k;
                lemma_keyed_at(t, a);
                if a < s.len() {
                    lemma_keyed_at(s, a);
                }
            }
            assert(keyed_by_mac(t) =~= keyed_by_mac(s).insert(lv.mac, lv));
        }
        self.links_by_mac = v;
    }
}

/// An attribute of a link record of a link dump. The operational state
/// comes as the name that the dump gives it (`Up`, `Down`, ...).
pub enum LinkAttribute {
    IfName(String),
    Address(Vec<u8>),
    Mtu(u32),
    OperState(String),
    Other,
}

/// The value of a [`LinkAttribute`].
pub enum LinkAttributeView {
    IfName(Seq<char>),
    Address(Seq<u8>),
    Mtu(u32),
    OperState(Seq<char>),
    Other,
}

impl View for LinkAttribute {
    type V = LinkAttributeView;

    open spec fn view(&self) -> LinkAttributeView {
        match self {
            LinkAttribute::IfName(n) => LinkAttributeView::IfName(n@),
            LinkAttribute::Address(a) => LinkAttributeView::Address(a@),
            LinkAttribute::Mtu(m) => LinkAttributeView::Mtu(*m),
            LinkAttribute::OperState(st) => LinkAttributeView::OperState(st@),
            LinkAttribute::Other => LinkAttributeView::Other,
        }
    }
}

/// One record of a link dump.
pub struct LinkMessage {
    pub index: u32,
    pub attributes: Vec<LinkAttribute>,
}

/// The values of a record's attributes.
pub open spec fn attribute_views(m: LinkMessage) -> Seq<LinkAttributeView> {
    m.attributes@.map_values(|a: LinkAttribute| a@)
}

/// `aa:bb:cc:dd:ee:ff`, lower-case hexadecimal (`{:02x}` joined by `:`).
pub open spec fn mac_text(a: Seq<u8>) -> Seq<char> {
    hex_byte(a[0]) + seq![':'] + hex_byte(a[1]) + seq![':'] + hex_byte(a[2]) + seq![':']
        + hex_byte(a[3]) + seq![':'] + hex_byte(a[4]) + seq![':'] + hex_byte(a[5])
}

/// The text `unknown`, the state of a link whose record gives none.
pub open spec fn unknown_state() -> Seq<char> {
    seq!['u', 'n', 'k', 'n', 'o', 'w', 'n']
}

/// The text `lo`, the name of the loopback link.
pub open spec fn loopback_name() -> Seq<char> {
    seq!['l', 'o']
}

/// What the attributes of a link record say, where a later attribute of a
/// kind replaces an earlier one, and a hardware address counts only when
/// it is six bytes long.
pub struct LinkFields {
    pub name: Seq<char>,
    pub mac: Seq<char>,
    pub mtu: u32,
    pub oper_state: Seq<char>,
}

/// The fields that `attrs` give, read in order.
pub open spec fn link_fields(attrs: Seq<LinkAttributeView>) -> LinkFields
    decreases attrs.len(),
{
    if attrs.len() == 0 {
        LinkFields { name: Seq::empty(), mac: Seq::empty(), mtu: 0, oper_state: unknown_state() }
    } else {
        let f = link_fields(attrs.drop_last());
        match attrs.last() {
            LinkAttributeView::IfName(n) => LinkFields {
                name: n,
                mac: f.mac,
                mtu: f.mtu,
                oper_state: f.oper_state,
            },
            LinkAttributeView::Address(a) => if a.len() == 6 {
                LinkFields { name: f.name, mac: mac_text(a), mtu: f.mtu, oper_state: f.oper_state }
            } else {
                f
            },
            LinkAttributeView::Mtu(m) => LinkFields {
                name: f.name,
                mac: f.mac,
                mtu: m,
                oper_state: f.oper_state,
            },
            LinkAttributeView::OperState(st) => LinkFields {
                name: f.name,
                mac: f.mac,
                mtu: f.mtu,
                oper_state: st,
            },
            LinkAttributeView::Other => f,
        }
    }
}

/// The link that a record describes, or `None` for the loopback link and
/// for a link without a hardware address.
pub open spec fn link_of_message(m: LinkMessage) -> Option<LinkView> {
    let f = link_fields(attribute_views(m));
    if f.name == loopback_name() || f.mac.len() == 0 {
        None
    } else {
        Some(
            LinkView {
                name: f.name,
                ifindex: m.index,
                oper_state: f.oper_state,
                mac: f.mac,
                mtu: f.mtu,
                addresses: None,
            },
        )
    }
}

/// The view of an optional link.
pub open spec fn link_option_view(o: Option<Link>) -> Option<LinkView> {
    match o {
        Some(l) => Some(l@),
        None => None,
    }
}

/// The text of a six-byte hardware address.
pub fn mac_to_string(a: &Vec<u8>) -> (s: String)
    requires
        a@.len() == 6,
    ensures
        s@ == mac_text(a@),
{
    let mut cs: Vec<char> = Vec::new();
    push_hex_byte(&mut cs, a[0]);
    cs.push(':');
    push_hex_byte(&mut cs, a[1]);
    cs.push(':');
    push_hex_byte(&mut cs, a[2]);
    cs.push(':');
    push_hex_byte(&mut cs, a[3]);
    cs.push(':');
    push_hex_byte(&mut cs, a[4]);
    cs.push(':');
    push_hex_byte(&mut cs, a[5]);
    assert(cs@ == mac_text(a@));
    string_from_chars(&cs)
}

/// Whether `name` is `lo`.
fn is_loopback(name: &String) -> (r: bool)
    ensures
        r == (name@ == loopback_name()),
{
    let cs = chars_of(name.as_str());
    let r = cs.len() == 2 && cs[0] == 'l' && cs[1] == 'o';
    if cs.len() == 2 {
        assert(r == (cs@ =~= loopback_name()));
    }
    r
}

/// The link that a record of a link dump describes; the loopback link
/// and links without a hardware address are passed over.
pub fn link_from_message(m: &LinkMessage) -> (r: Option<Link>)
    ensures
        link_option_view(r) == link_of_message(*m),
{
    let ghost attrs = attribute_views(*m);
    let mut name = String::new();
    let mut mac = String::new();
    let mut mtu: u32 = 0;
    let unknown = vec!['u', 'n', 'k', 'n', 'o', 'w', 'n'];
    let mut oper_state = string_from_chars(&unknown);
    assert(attrs.take(0) == Seq::<LinkAttributeView>::empty());
    for i in 0..m.attributes.len()
        invariant
            attrs == attribute_views(*m),
            link_fields(attrs.take(i as int)) == (LinkFields {
                name: name@,
                mac: mac@,
                mtu: mtu,
                oper_state: oper_state@,
            }),
    {
        assert(attrs.take(i + 1).drop_last() == attrs.take(i as int));
        assert(attrs.take(i + 1).last() == m.attributes@[i as int]@);
        match &m.attributes[i] {
            LinkAttribute::IfName(n) => {
                name = n.clone();
            },
            LinkAttribute::Address(a) => {
                if a.len() == 6 {
                    mac = mac_to_string(a);
                }
            },
            LinkAttribute::Mtu(v) => {
                mtu = *v;
            },
            LinkAttribute::OperState(st) => {
                oper_state = st.clone();
            },
            LinkAttribute::Other => {},
        }
    }
    assert(attrs.take(m.attributes.len() as int) == attrs);
    if is_loopback(&name) || mac.as_str().is_empty() {
        return None;
    }
    Some(Link { name, ifindex: m.index, oper_state, mac, mtu, addresses: None })
}

/// The links that a link dump describes, keyed by hardware address, where
/// a later record replaces an earlier one with the same address.
pub open spec fn links_of_messages(msgs: Seq<LinkMessage>) -> Map<Seq<char>, LinkView>
    decreases msgs.len(),
{
    if msgs.len() == 0 {
        Map::empty()
    } else {
        let init = links_of_messages(msgs.drop_last());
        match link_of_message(msgs.last()) {
            Some(l) => init.insert(l.mac, l),
            None => init,
        }
    }
}

impl Links {
    /// The table of the links that a link dump describes.
    pub fn from_messages(msgs: &Vec<LinkMessage>) -> (r: Links)
        ensures
            r@ == links_of_messages(msgs@),
    {
        let mut links = Links::new();
        assert(msgs@.take(0) == Seq::<LinkMessage>::empty());
        for i in 0..msgs.len()
            invariant
                links@ == links_of_messages(msgs@.take(i as int)),
        {
            assert(msgs@.take(i + 1).drop_last() == msgs@.take(i as int));
            assert(msgs@.take(i + 1).last() == msgs@[i as int]);
            match link_from_message(&msgs[i]) {
                Some(l) => {
                    links.insert(l);
                },
                None => {},
            }
        }
        assert(msgs@.take(msgs.len() as int) == msgs@);
        links
    }
}

/// Why a link could not be found.
#[derive(Debug)]
pub enum LinkLookupError {
    /// No link in the table has the interface index.
    NotFound,
    /// The kernel's record of the link gives no name.
    NameMissing,
    /// The kernel knows no link with this interface index.
    IndexNotFound(u32),
    /// The kernel knows no link of this name.
    NameNotFound(String),
}

/// How a failed lookup reads.
pub open spec fn link_lookup_error_text(e: LinkLookupError) -> Seq<char> {
    match e {
        LinkLookupError::NotFound => "not found"@,
        LinkLookupError::NameMissing => "Link name not found"@,
        LinkLookupError::IndexNotFound(i) => "Link with index "@ + decimal(i as nat) + " not found"@,
        LinkLookupError::NameNotFound(n) => "Link '"@ + n@ + "' not found"@,
    }
}

impl LinkLookupError {
    /// How this failed lookup reads.
    pub fn message(&self) -> (s: String)
        ensures
            s@ == link_lookup_error_text(*self),
    {
        let mut out: Vec<char> = Vec::new();
        match self {
            LinkLookupError::NotFound => push_text(&mut out, "not found"),
            LinkLookupError::NameMissing => push_text(&mut out, "Link name not found"),
            LinkLookupError::IndexNotFound(i) => {
                push_text(&mut out, "Link with index ");
                push_decimal(&mut out, *i);
                push_text(&mut out, " not found");
            },
            LinkLookupError::NameNotFound(n) => {
                push_text(&mut out, "Link '");
                push_text(&mut out, n.as_str());
                push_text(&mut out, "' not found");
            },
        }
        assert(out@ == link_lookup_error_text(*self));
        string_from_chars(&out)
    }
}

/// The hardware address of a link of `links` with interface index
/// `if_index`.
pub fn get_link_mac_by_index(links: &Links, if_index: u32) -> (r: Result<String, LinkLookupError>)
    ensures
        match r {
            Ok(m) => links@.contains_key(m@) && links@[m@].ifindex == if_index,
            Err(e) => e is NotFound && forall|k: Seq<char>|
                #[trigger] links@.contains_key(k) ==> links@[k].ifindex != if_index,
        },
{
    match links.mac_by_index(if_index) {
        Some(m) => Ok(m),
        None => Err(LinkLookupError::NotFound),
    }
}

/// The first name among `attrs`.
pub open spec fn first_name(attrs: Seq<LinkAttributeView>) -> Option<Seq<char>>
    decreases attrs.len(),
{
    if attrs.len() == 0 {
        None
    } else {
        match attrs[0] {
            LinkAttributeView::IfName(n) => Some(n),
            _ => first_name(attrs.drop_first()),
        }
    }
}

/// The name of link `if_index`, from the first record of the kernel's
/// answer to a query for that index (`None` where there is none).
pub fn link_name_from_reply(if_index: u32, reply: &Option<LinkMessage>) -> (r: Result<
    String,
    LinkLookupError,
>)
    ensures
        match reply {
            None => r matches Err(LinkLookupError::IndexNotFound(i)) && i == if_index,
            Some(m) => match first_name(attribute_views(*m)) {
                Some(n) => r matches Ok(s) && s@ == n,
                None => r matches Err(LinkLookupError::NameMissing),
            },
        },
{
    match reply {
        None => Err(LinkLookupError::IndexNotFound(if_index)),
        Some(m) => {
            let ghost attrs = attribute_views(*m);
            let mut i: usize = 0;
            assert(attrs.skip(0) == attrs);
            #[verifier::loop_isolation(false)]
            while i < m.attributes.len()
                invariant
                    attrs == attribute_views(*m),
                    i <= attrs.len(),
                    first_name(attrs) == first_name(attrs.skip(i as int)),
                decreases attrs.len() - i,
            {
                let ghost rest = attrs.skip(i as int);
                assert(rest[0] == m.attributes@[i as int]@);
                assert(rest.drop_first() == attrs.skip(i + 1));
                match &m.attributes[i] {
                    LinkAttribute::IfName(n) => {
                        return Ok(n.clone());
                    },
                    _ => {},
                }
                i = i + 1;
            }
            assert(attrs.skip(i as int).len() == 0);
            Err(LinkLookupError::NameMissing)
        },
    }
}

/// The interface index of link `name`, from the first record of the
/// kernel's answer to a query for that name (`None` where there is none).
pub fn link_index_from_reply(name: &str, reply: &Option<LinkMessage>) -> (r: Result<
    u32,
    LinkLookupError,
>)
    ensures
        match reply {
            None => r matches Err(LinkLookupError::NameNotFound(n)) && n@ == name@,
            Some(m) => r == Ok::<u32, LinkLookupError>(m.index),
        },
{
    match reply {
        None => Err(LinkLookupError::NameNotFound(name.to_string())),
        Some(m) => Ok(m.index),
    }
}

/// Each link of a table is stored under its own hardware address.
pub proof fn lemma_links_keyed_by_own_mac(links: &Links)
    ensures
        forall|k: Seq<char>| #[trigger] links@.contains_key(k) ==> links@[k].mac == k,
{
    assert forall|k: Seq<char>| #[trigger] links@.contains_key(k) implies links@[k].mac == k by {
        let s = links.entries();
        let i = choose|i: int| 0 <= i < s.len() && s[i].mac == k;
    }
}

proof fn lemma_mac_text_len(a: Seq<u8>)
    ensures
        mac_text(a).len() == 17,
{
}

proof fn lemma_link_fields_mac(attrs: Seq<LinkAttributeView>)
    ensures
        link_fields(attrs).mac.len() == 0 || link_fields(attrs).mac.len() == 17,
    decreases attrs.len(),
{
    if attrs.len() > 0 {
        lemma_link_fields_mac(attrs.drop_last());
        if let LinkAttributeView::Address(a) = attrs.last() {
            lemma_mac_text_len(a);
        }
    }
}

/// The table built from a link dump holds no loopback link; each link in
/// it is stored under its own hardware address, which is written as six
/// two-digit hexadecimal bytes (17 characters), and has no addresses yet.
pub proof fn lemma_links_of_messages(msgs: Seq<LinkMessage>)
    ensures
        forall|k: Seq<char>| #[trigger]
            links_of_messages(msgs).contains_key(k) ==> {
                let l = links_of_messages(msgs)[k];
                &&& l.mac == k
                &&& l.name != loopback_name()
                &&& l.mac.len() == 17
                &&& l.addresses is None
            },
    decreases msgs.len(),
{
    if msgs.len() > 0 {
        lemma_links_of_messages(msgs.drop_last());
        lemma_link_fields_mac(attribute_views(msgs.last()));
    }
}

/// `x` is a hardware address of six bytes.
pub open spec fn is_hw_address(x: LinkAttributeView) -> bool {
    x matches LinkAttributeView::Address(b) && b.len() == 6
}

proof fn lemma_link_fields_last_address(attrs: Seq<LinkAttributeView>, j: int, a: Seq<u8>)
    requires
        0 <= j < attrs.len(),
        attrs[j] == LinkAttributeView::Address(a),
        a.len() == 6,
        forall|k: int| j < k < attrs.len() ==> !is_hw_address(#[trigger] attrs[k]),
    ensures
        link_fields(attrs).mac == mac_text(a),
    decreases attrs.len(),
{
    if j < attrs.len() - 1 {
        let init = attrs.drop_last();
        assert forall|k: int| j < k < init.len() implies !is_hw_address(#[trigger] init[k]) by {
            assert(init[k] == attrs[k]);
        }
        lemma_link_fields_last_address(init, j, a);
        assert(!is_hw_address(attrs[attrs.len() - 1]));
    }
}

proof fn lemma_link_fields_name(attrs: Seq<LinkAttributeView>)
    requires
        forall|k: int| 0 <= k < attrs.len() ==> #[trigger] attrs[k] != LinkAttributeView::IfName(
            seq!['l', 'o'],
        ),
    ensures
        link_fields(attrs).name != seq!['l', 'o'],
    decreases attrs.len(),
{
    if attrs.len() == 0 {
        assert(Seq::<char>::empty().len() != seq!['l', 'o'].len());
    } else {
        let init = attrs.drop_last();
        assert forall|k: int| 0 <= k < init.len() implies #[trigger] init[k]
            != LinkAttributeView::IfName(seq!['l', 'o']) by {
            assert(init[k] == attrs[k]);
        }
        lemma_link_fields_name(init);
        assert(attrs.last() == attrs[attrs.len() - 1]);
    }
}

proof fn lemma_record_link_kept(msgs: Seq<LinkMessage>, i: int)
    requires
        0 <= i < msgs.len(),
        link_of_message(msgs[i]) is Some,
    ensures
        links_of_messages(msgs).contains_key(link_of_message(msgs[i])->0.mac),
    decreases msgs.len(),
{
    if i < msgs.len() - 1 {
        let init = msgs.drop_last();
        assert(init[i] == msgs[i]);
        lemma_record_link_kept(init, i);
    }
}

/// Every record of a link dump that carries a six-byte hardware address and
/// is not named `lo` leaves a link in the table under that address, whatever
/// its operational state, MTU or other attributes: the last six-byte address
/// of the record is the one that counts.
pub proof fn lemma_dump_keeps_every_hardware_link(
    msgs: Seq<LinkMessage>,
    i: int,
    j: int,
    a: Seq<u8>,
)
    requires
        0 <= i < msgs.len(),
        0 <= j < msgs[i].attributes@.len(),
        msgs[i].attributes@[j]@ == LinkAttributeView::Address(a),
        a.len() == 6,
        forall|k: int|
            j < k < msgs[i].attributes@.len() ==> !is_hw_address(#[trigger] msgs[i].attributes@[k]@),
        forall|k: int|
            0 <= k < msgs[i].attributes@.len() ==> #[trigger] msgs[i].attributes@[k]@
                != LinkAttributeView::IfName(seq!['l', 'o']),
    ensures
        links_of_messages(msgs).contains_key(mac_text(a)),
        links_of_messages(msgs)[mac_text(a)].mac == mac_text(a),
{
    let attrs = attribute_views(msgs[i]);
    assert(attrs[j] == LinkAttributeView::Address(a));
    assert forall|k: int| j < k < attrs.len() implies !is_hw_address(#[trigger] attrs[k]) by {
        assert(attrs[k] == msgs[i].attributes@[k]@);
    }
    assert forall|k: int| 0 <= k < attrs.len() implies #[trigger] attrs[k]
        != LinkAttributeView::IfName(seq!['l', 'o']) by {
        assert(attrs[k] == msgs[i].attributes@[k]@);
    }
    lemma_link_fields_last_address(attrs, j, a);
    lemma_link_fields_name(attrs);
    lemma_mac_text_len(a);
    assert(loopback_name() == seq!['l', 'o']);
    lemma_record_link_kept(msgs, i);
    lemma_links_of_messages(msgs);
}

} // verus!
