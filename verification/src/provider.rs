//! The cloud environment that the configuration works in: which cloud,
//! and what it has learnt of the host's links, addresses, routes and rules.
use vstd::prelude::*;
use vstd::hash_map::{HashMapWithView, StringHashMap};
use crate::link::{LinkView, Links};
use crate::route::Route;
use crate::rule::RoutingPolicyRule;

verus! {

/// The cloud that the host runs in, as the configuration detects it.
#[derive(Debug, Clone, Copy, PartialEq, Eq, Structural)]
pub enum CloudKind {
    Azure,
    AWS,
    GCP,
    /// A cloud that no provider serves.
    Unknown,
}

/// The metadata provider that serves a cloud.
#[derive(Debug, Clone, Copy, PartialEq, Eq, Structural)]
pub enum Provider {
    Azure,
    Aws,
    Gcp,
}

/// The provider that serves `kind`, where one does.
pub open spec fn provider_for(kind: CloudKind) -> Option<Provider> {
    match kind {
        CloudKind::Azure => Some(Provider::Azure),
        CloudKind::AWS => Some(Provider::Aws),
        CloudKind::GCP => Some(Provider::Gcp),
        CloudKind::Unknown => None,
    }
}

/// What the configuration knows of the host in a cloud.
pub struct Environment {
    pub kind: CloudKind,
    pub provider: Provider,
    pub links: Links,
    pub route_table: u32,
    pub addresses_by_mac: StringHashMap<StringHashMap<bool>>,
    pub routes_by_index: HashMapWithView<u32, Route>,
    pub routing_rules_by_address_from: StringHashMap<RoutingPolicyRule>,
    pub routing_rules_by_address_to: StringHashMap<RoutingPolicyRule>,
}

impl Environment {
    /// A fresh environment for the cloud `kind`, whose routing tables are
    /// numbered from `table_base`; `None` where no provider serves `kind`.
    pub fn new(kind: CloudKind, table_base: u32) -> (r: Option<Self>)
        ensures
            match provider_for(kind) {
                None => r is None,
                Some(p) => r matches Some(env) && {
                    &&& env.kind == kind
                    &&& env.provider == p
                    &&& env.route_table == table_base
                    &&& env.links@ == Map::<Seq<char>, LinkView>::empty()
                    &&& env.addresses_by_mac@ == Map::<Seq<char>, StringHashMap<bool>>::empty()
                    &&& env.routes_by_index@ == Map::<u32, Route>::empty()
                    &&& env.routing_rules_by_address_from@ == Map::<
                        Seq<char>,
                        RoutingPolicyRule,
                    >::empty()
                    &&& env.routing_rules_by_address_to@ == Map::<
                        Seq<char>,
                        RoutingPolicyRule,
                    >::empty()
                },
            },
    {
        let provider = match kind {
            CloudKind::Azure => Provider::Azure,
            CloudKind::AWS => Provider::Aws,
            CloudKind::GCP => Provider::Gcp,
            CloudKind::Unknown => {
                return None;
            },
        };
        Some(
            Environment {
                kind,
                provider,
                links: Links::new(),
                route_table: table_base,
                addresses_by_mac: StringHashMap::new(),
                routes_by_index: HashMapWithView::new(),
                routing_rules_by_address_from: StringHashMap::new(),
                routing_rules_by_address_to: StringHashMap::new(),
            },
        )
    }
}

} // verus!
