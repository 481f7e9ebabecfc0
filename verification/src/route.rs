//! IPv4 routes: finding a gateway in a route dump, and the default route
//! that a [`Route`] asks for.
use vstd::prelude::*;
use crate::ip::{lemma_ipv4_text_roundtrip, ipv4_text, ipv4_to_string, parse_ipv4_spec, parse_ipv4_str, Ipv4};
use crate::outcome::NetError;
use crate::text::{decimal, push_decimal, push_text, string_from_chars};

verus! {

/// A default route through gateway `gw` on link `if_index`, in routing
/// table `table`.
pub struct Route {
    pub table: u32,
    pub if_index: u32,
    pub gw: String,
}

/// The address of a route attribute; only IPv4 addresses are told apart.
#[derive(Debug, Clone, Copy, PartialEq, Eq, Structural)]
pub enum RouteAddress {
    Inet(Ipv4),
    Other,
}

/// An attribute of a route record.
#[derive(Debug, Clone, Copy, PartialEq, Eq, Structural)]
pub enum RouteAttribute {
    Gateway(RouteAddress),
    Oif(u32),
    Other,
}

/// One record of an IPv4 route dump.
pub struct RouteMessage {
    pub destination_prefix_length: u8,
    pub attributes: Vec<RouteAttribute>,
}

/// The text of an IPv4 route address, `None` for any other.
pub open spec fn route_address_text(a: RouteAddress) -> Option<Seq<char>> {
    match a {
        RouteAddress::Inet(ip) => Some(ipv4_text(ip)),
        RouteAddress::Other => None,
    }
}

/// The text of an IPv4 route address, `None` for any other.
pub fn ipv4_from_route_address(a: &RouteAddress) -> (r: Option<String>)
    ensures
        match r {
            Some(s) => route_address_text(*a) == Some(s@),
            None => route_address_text(*a) is None,
        },
{
    match a {
        RouteAddress::Inet(ip) => Some(ipv4_to_string(*ip)),
        RouteAddress::Other => None,
    }
}

/// The first IPv4 gateway among `attrs`.
pub open spec fn first_gateway(attrs: Seq<RouteAttribute>) -> Option<Seq<char>>
    decreases attrs.len(),
{
    if attrs.len() == 0 {
        None
    } else {
        match attrs[0] {
            RouteAttribute::Gateway(a) => match route_address_text(a) {
                Some(t) => Some(t),
                None => first_gateway(attrs.drop_first()),
            },
            _ => first_gateway(attrs.drop_first()),
        }
    }
}

/// `attrs` name `if_index` as output interface.
pub open spec fn goes_out(attrs: Seq<RouteAttribute>, if_index: u32) -> bool {
    exists|i: int| 0 <= i < attrs.len() && attrs[i] == RouteAttribute::Oif(if_index)
}

/// The gateway that a route record offers to a search: none where the
/// search wants default routes and this is not one, or wants a link that
/// the route does not go out of.
pub open spec fn offered_gateway(m: RouteMessage, default_only: bool, link: Option<u32>) -> Option<
    Seq<char>,
> {
    if default_only && m.destination_prefix_length != 0 {
        None
    } else if link matches Some(i) && !goes_out(m.attributes@, i) {
        None
    } else {
        first_gateway(m.attributes@)
    }
}

/// The gateway of the first route of `routes` that offers one.
pub open spec fn find_gateway_spec(
    routes: Seq<RouteMessage>,
    default_only: bool,
    link: Option<u32>,
) -> Option<Seq<char>>
    decreases routes.len(),
{
    if routes.len() == 0 {
        None
    } else {
        match offered_gateway(routes[0], default_only, link) {
            Some(t) => Some(t),
            None => find_gateway_spec(routes.drop_first(), default_only, link),
        }
    }
}

/// Whether `attrs` name `if_index` as output interface.
fn goes_out_exec(attrs: &Vec<RouteAttribute>, if_index: u32) -> (r: bool)
    ensures
        r == goes_out(attrs@, if_index),
{
    let mut i: usize = 0;
    while i < attrs.len()
        invariant
            i <= attrs.len(),
            forall|j: int| 0 <= j < i ==> attrs@[j] != RouteAttribute::Oif(if_index),
        decreases attrs.len() - i,
    {
        match attrs[i] {
            RouteAttribute::Oif(x) => {
                if x == if_index {
                    return true;
                }
            },
            _ => {},
        }
        i = i + 1;
    }
    false
}

/// The first IPv4 gateway among `attrs`.
fn first_gateway_exec(attrs: &Vec<RouteAttribute>) -> (r: Option<String>)
    ensures
        match r {
            Some(s) => first_gateway(attrs@) == Some(s@),
            None => first_gateway(attrs@) is None,
        },
{
    let mut i: usize = 0;
    assert(attrs@.skip(0) == attrs@);
    while i < attrs.len()
        invariant
            i <= attrs.len(),
            first_gateway(attrs@) == first_gateway(attrs@.skip(i as int)),
        decreases attrs.len() - i,
    {
        let ghost rest = attrs@.skip(i as int);
        assert(rest[0] == attrs@[i as int]);
        assert(rest.drop_first() == attrs@.skip(i + 1));
        match &attrs[i] {
            RouteAttribute::Gateway(a) => {
                match ipv4_from_route_address(a) {
                    Some(t) => {
                        return Some(t);
                    },
                    None => {},
                }
            },
            _ => {},
        }
        i = i + 1;
    }
    assert(attrs@.skip(i as int).len() == 0);
    None
}

/// The gateway of the first route of `routes` that offers one to a
/// search for default routes only (`default_only`) and for routes out of
/// link `link` only (where it is given).
pub fn find_gateway(routes: &Vec<RouteMessage>, default_only: bool, link: Option<u32>) -> (r:
    Option<String>)
    ensures
        match r {
            Some(s) => find_gateway_spec(routes@, default_only, link) == Some(s@),
            None => find_gateway_spec(routes@, default_only, link) is None,
        },
{
    let mut i: usize = 0;
    assert(routes@.skip(0) == routes@);
    while i < routes.len()
        invariant
            i <= routes.len(),
            find_gateway_spec(routes@, default_only, link) == find_gateway_spec(
                routes@.skip(i as int),
                default_only,
                link,
            ),
        decreases routes.len() - i,
    {
        let ghost rest = routes@.skip(i as int);
        assert(rest[0] == routes@[i as int]);
        assert(rest.drop_first() == routes@.skip(i + 1));
        let m = &routes[i];
        let eligible = if default_only && m.destination_prefix_length != 0 {
            false
        } else {
            match link {
                Some(idx) => goes_out_exec(&m.attributes, idx),
                None => true,
            }
        };
        if eligible {
            match first_gateway_exec(&m.attributes) {
                Some(t) => {
                    return Some(t);
                },
                None => {},
            }
        }
        i = i + 1;
    }
    assert(routes@.skip(i as int).len() == 0);
    None
}

/// Why no gateway was found.
#[derive(Debug, Clone, Copy, PartialEq, Eq, Structural)]
pub enum GatewayError {
    /// No default route has an IPv4 gateway.
    DefaultNotFound,
    /// No default route out of this link has an IPv4 gateway.
    DefaultNotFoundForLink(u32),
    /// No route out of this link has an IPv4 gateway.
    NotFoundForLink(u32),
}

/// How a failed search reads.
pub open spec fn gateway_error_text(e: GatewayError) -> Seq<char> {
    match e {
        GatewayError::DefaultNotFound => "Default gateway not found"@,
        GatewayError::DefaultNotFoundForLink(i) => "Default gateway not found for link "@ + decimal(
            i as nat,
        ),
        GatewayError::NotFoundForLink(i) => "Gateway not found for link "@ + decimal(i as nat),
    }
}

impl GatewayError {
    /// How this failed search reads.
    pub fn message(&self) -> (s: String)
        ensures
            s@ == gateway_error_text(*self),
    {
        let mut out: Vec<char> = Vec::new();
        match self {
            GatewayError::DefaultNotFound => push_text(&mut out, "Default gateway not found"),
            GatewayError::DefaultNotFoundForLink(i) => {
                push_text(&mut out, "Default gateway not found for link ");
                push_decimal(&mut out, *i);
            },
            GatewayError::NotFoundForLink(i) => {
                push_text(&mut out, "Gateway not found for link ");
                push_decimal(&mut out, *i);
            },
        }
        assert(out@ == gateway_error_text(*self));
        string_from_chars(&out)
    }
}

/// The gateway of the first default route (prefix length 0) of an IPv4
/// route dump that has an IPv4 gateway.
pub fn get_default_ipv4_gateway(routes: &Vec<RouteMessage>) -> (r: Result<String, GatewayError>)
    ensures
        match find_gateway_spec(routes@, true, None) {
            Some(t) => r matches Ok(s) && s@ == t,
            None => r == Err::<String, GatewayError>(GatewayError::DefaultNotFound),
        },
{
    match find_gateway(routes, true, None) {
        Some(t) => Ok(t),
        None => Err(GatewayError::DefaultNotFound),
    }
}

/// The gateway of the first default route out of link `if_index` that has
/// an IPv4 gateway.
pub fn get_default_ipv4_gateway_by_link(routes: &Vec<RouteMessage>, if_index: u32) -> (r: Result<
    String,
    GatewayError,
>)
    ensures
        match find_gateway_spec(routes@, true, Some(if_index)) {
            Some(t) => r matches Ok(s) && s@ == t,
            None => r == Err::<String, GatewayError>(
                GatewayError::DefaultNotFoundForLink(if_index),
            ),
        },
{
    match find_gateway(routes, true, Some(if_index)) {
        Some(t) => Ok(t),
        None => Err(GatewayError::DefaultNotFoundForLink(if_index)),
    }
}

/// The gateway of the first route out of link `if_index`, default or not,
/// that has an IPv4 gateway.
pub fn get_ipv4_gateway_by_link(routes: &Vec<RouteMessage>, if_index: u32) -> (r: Result<
    String,
    GatewayError,
>)
    ensures
        match find_gateway_spec(routes@, false, Some(if_index)) {
            Some(t) => r matches Ok(s) && s@ == t,
            None => r == Err::<String, GatewayError>(GatewayError::NotFoundForLink(if_index)),
        },
{
    match find_gateway(routes, false, Some(if_index)) {
        Some(t) => Ok(t),
        None => Err(GatewayError::NotFoundForLink(if_index)),
    }
}

/// The route that a [`Route`] asks the kernel to add or delete: the IPv4
/// default route `0.0.0.0/0` through the gateway, out of the link, in the
/// table.
#[derive(Debug, Clone, Copy, PartialEq, Eq, Structural)]
pub struct RouteRequest {
    pub destination: Ipv4,
    pub destination_prefix_length: u8,
    pub gateway: Ipv4,
    pub output_interface: u32,
    pub table: u32,
}

/// What `route` asks for, or why it asks for nothing: its gateway must be
/// an IPv4 address.
pub open spec fn route_request_spec(route: Route) -> Result<RouteRequest, NetError> {
    match parse_ipv4_spec(route.gw@) {
        Some(gw) => Ok(
            RouteRequest {
                destination: Ipv4(0, 0, 0, 0),
                destination_prefix_length: 0,
                gateway: gw,
                output_interface: route.if_index,
                table: route.table,
            },
        ),
        None => Err(NetError::InvalidIpv4),
    }
}

impl Route {
    /// The route that this one asks the kernel to add or delete.
    pub fn request(&self) -> (r: Result<RouteRequest, NetError>)
        ensures
            match route_request_spec(*self) {
                Ok(q) => r == Ok::<RouteRequest, NetError>(q),
                Err(_) => r matches Err(NetError::InvalidIpv4),
            },
    {
        match parse_ipv4_str(self.gw.as_str()) {
            Some(gw) => Ok(
                RouteRequest {
                    destination: Ipv4(0, 0, 0, 0),
                    destination_prefix_length: 0,
                    gateway: gw,
                    output_interface: self.if_index,
                    table: self.table,
                },
            ),
            None => Err(NetError::InvalidIpv4),
        }
    }
}

proof fn lemma_first_gateway_reads(attrs: Seq<RouteAttribute>)
    ensures
        first_gateway(attrs) matches Some(t) ==> parse_ipv4_spec(t) matches Some(ip) && ipv4_text(ip) == t,
    decreases attrs.len(),
{
    if attrs.len() > 0 {
        lemma_first_gateway_reads(attrs.drop_first());
        if let RouteAttribute::Gateway(RouteAddress::Inet(ip)) = attrs[0] {
            lemma_ipv4_text_roundtrip(ip);
        }
    }
}

/// A gateway that a search of a route dump finds reads as an IPv4 address
/// of which it is the spelling, so that a [`Route`] through it asks for a
/// route to that address.
pub proof fn lemma_found_gateway_reads(
    routes: Seq<RouteMessage>,
    default_only: bool,
    link: Option<u32>,
)
    ensures
        find_gateway_spec(routes, default_only, link) matches Some(t) ==> parse_ipv4_spec(t) matches Some(ip)
            && ipv4_text(ip) == t,
    decreases routes.len(),
{
    if routes.len() > 0 {
        lemma_found_gateway_reads(routes.drop_first(), default_only, link);
        lemma_first_gateway_reads(routes[0].attributes@);
    }
}

/// A route serves a search: it is a default route (prefix length 0) where
/// the search wants default routes only, and it names the link as output
/// interface where the search wants a link; nothing else about the route
/// matters.
pub open spec fn serves(m: RouteMessage, default_only: bool, link: Option<u32>) -> bool {
    &&& default_only ==> m.destination_prefix_length == 0
    &&& link matches Some(x) ==> exists|t: int|
        0 <= t < m.attributes@.len() && m.attributes@[t] == RouteAttribute::Oif(x)
}

/// `attrs` hold an IPv4 gateway, at position `j`.
pub open spec fn inet_gateway_at(attrs: Seq<RouteAttribute>, j: int, ip: Ipv4) -> bool {
    0 <= j < attrs.len() && attrs[j] == RouteAttribute::Gateway(RouteAddress::Inet(ip))
}

proof fn lemma_first_gateway_raw(attrs: Seq<RouteAttribute>)
    ensures
        first_gateway(attrs) is Some <==> exists|j: int, ip: Ipv4| inet_gateway_at(attrs, j, ip),
        first_gateway(attrs) matches Some(t) ==> exists|j: int, ip: Ipv4|
            inet_gateway_at(attrs, j, ip) && ipv4_text(ip) == t,
    decreases attrs.len(),
{
    if attrs.len() > 0 {
        let rest = attrs.drop_first();
        lemma_first_gateway_raw(rest);
        if exists|j: int, ip: Ipv4| inet_gateway_at(rest, j, ip) {
            let (j, ip) = choose|j: int, ip: Ipv4| inet_gateway_at(rest, j, ip);
            assert(inet_gateway_at(attrs, j + 1, ip));
        }
        if first_gateway(rest) is Some {
            let t = first_gateway(rest)->0;
            let (j, ip) = choose|j: int, ip: Ipv4| inet_gateway_at(rest, j, ip) && ipv4_text(ip) == t;
            assert(inet_gateway_at(attrs, j + 1, ip));
        }
        if let RouteAttribute::Gateway(RouteAddress::Inet(ip)) = attrs[0] {
            assert(inet_gateway_at(attrs, 0, ip));
        }
        if exists|j: int, ip: Ipv4| inet_gateway_at(attrs, j, ip) {
            let (j, ip) = choose|j: int, ip: Ipv4| inet_gateway_at(attrs, j, ip);
            if j > 0 {
                assert(inet_gateway_at(rest, j - 1, ip));
            }
        }
    }
}

proof fn lemma_offered_raw(m: RouteMessage, default_only: bool, link: Option<u32>)
    ensures
        offered_gateway(m, default_only, link) == (if serves(m, default_only, link) {
            first_gateway(m.attributes@)
        } else {
            None
        }),
{
}

/// A search of a route dump finds a gateway as soon as some route serves it
/// and holds an IPv4 gateway, whatever its prefix length where the search
/// does not want default routes only; and what it finds is the gateway of
/// a route that serves it and holds that gateway, with no earlier route
/// that serves it and holds an IPv4 gateway.
pub proof fn lemma_gateway_search(
    routes: Seq<RouteMessage>,
    default_only: bool,
    link: Option<u32>,
    k: int,
    j: int,
    ip: Ipv4,
)
    ensures
        0 <= k < routes.len() && serves(routes[k], default_only, link) && inet_gateway_at(
            routes[k].attributes@,
            j,
            ip,
        ) ==> find_gateway_spec(routes, default_only, link) is Some,
        find_gateway_spec(routes, default_only, link) matches Some(t) ==> exists|
            k2: int,
            j2: int,
            ip2: Ipv4,
        |
            0 <= k2 < routes.len() && serves(routes[k2], default_only, link) && inet_gateway_at(
                routes[k2].attributes@,
                j2,
                ip2,
            ) && ipv4_text(ip2) == t && forall|k3: int, j3: int, ip3: Ipv4|
                0 <= k3 < k2 && serves(routes[k3], default_only, link) ==> !inet_gateway_at(
                    routes[k3].attributes@,
                    j3,
                    ip3,
                ),
    decreases routes.len(),
{
    if routes.len() > 0 {
        let rest = routes.drop_first();
        lemma_offered_raw(routes[0], default_only, link);
        lemma_first_gateway_raw(routes[0].attributes@);
        if 0 < k < routes.len() {
            assert(rest[k - 1] == routes[k]);
        }
        lemma_gateway_search(rest, default_only, link, k - 1, j, ip);
        if 0 <= k < routes.len() && serves(routes[k], default_only, link) && inet_gateway_at(
            routes[k].attributes@,
            j,
            ip,
        ) {
            if k == 0 {
                assert(first_gateway(routes[0].attributes@) is Some);
            }
        }
        if let Some(t) = find_gateway_spec(routes, default_only, link) {
            if offered_gateway(routes[0], default_only, link) is Some {
                let (j2, ip2) = choose|j2: int, ip2: Ipv4|
                    inet_gateway_at(routes[0].attributes@, j2, ip2) && ipv4_text(ip2) == t;
                assert(0 <= 0 < routes.len() && serves(routes[0], default_only, link)
                    && inet_gateway_at(routes[0].attributes@, j2, ip2) && ipv4_text(ip2) == t);
            } else {
                let (k2, j2, ip2) = choose|k2: int, j2: int, ip2: Ipv4|
                    0 <= k2 < rest.len() && serves(rest[k2], default_only, link) && inet_gateway_at(
                        rest[k2].attributes@,
                        j2,
                        ip2,
                    ) && ipv4_text(ip2) == t && forall|k3: int, j3: int, ip3: Ipv4|
                        0 <= k3 < k2 && serves(rest[k3], default_only, link) ==> !inet_gateway_at(
                            rest[k3].attributes@,
                            j3,
                            ip3,
                        );
                assert(routes[k2 + 1] == rest[k2]);
                assert forall|k3: int, j3: int, ip3: Ipv4|
                    0 <= k3 < k2 + 1 && serves(routes[k3], default_only, link) implies !inet_gateway_at(
                    routes[k3].attributes@,
                    j3,
                    ip3,
                ) by {
                    if k3 > 0 {
                        assert(routes[k3] == rest[k3 - 1]);
                    }
                }
            }
        }
    }
}

} // verus!
