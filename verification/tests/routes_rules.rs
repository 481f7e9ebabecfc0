use cloud_netconfig::ip::Ipv4;
use cloud_netconfig::outcome::NetError;
use cloud_netconfig::provider::{CloudKind, Environment, Provider};
use cloud_netconfig::route::{
    get_default_ipv4_gateway, get_default_ipv4_gateway_by_link, get_ipv4_gateway_by_link,
    ipv4_from_route_address, GatewayError, Route, RouteAddress, RouteAttribute, RouteMessage,
    RouteRequest,
};
use cloud_netconfig::rule::{
    rule_add_step, rule_exists, RoutingPolicyRule, RuleAddAction, RuleAddEvent, RuleAddRequest,
    RuleAddress, RuleAttribute, RuleDeleteRequest, RuleMessage,
};

fn route(prefix: u8, attributes: Vec<RouteAttribute>) -> RouteMessage {
    RouteMessage { destination_prefix_length: prefix, attributes }
}

fn gw(a: u8, b: u8, c: u8, d: u8) -> RouteAttribute {
    RouteAttribute::Gateway(RouteAddress::Inet(Ipv4(a, b, c, d)))
}

fn dump() -> Vec<RouteMessage> {
    vec![
        route(24, vec![RouteAttribute::Oif(2), gw(10, 0, 0, 254)]),
        route(0, vec![RouteAttribute::Oif(3), RouteAttribute::Gateway(RouteAddress::Other)]),
        route(0, vec![RouteAttribute::Oif(3), gw(10, 1, 0, 1), gw(10, 1, 0, 2)]),
        route(0, vec![gw(10, 2, 0, 1), RouteAttribute::Oif(2)]),
    ]
}

#[test]
fn route_address_text() {
    assert_eq!(ipv4_from_route_address(&RouteAddress::Inet(Ipv4(10, 0, 0, 1))), Some("10.0.0.1".to_string()));
    assert_eq!(ipv4_from_route_address(&RouteAddress::Other), None);
}

#[test]
fn default_gateway_is_first_default_route_with_ipv4_gateway() {
    assert_eq!(get_default_ipv4_gateway(&dump()).unwrap(), "10.1.0.1");
    assert_eq!(get_default_ipv4_gateway(&vec![route(24, vec![gw(1, 1, 1, 1)])]), Err(GatewayError::DefaultNotFound));
}

#[test]
fn default_gateway_by_link() {
    assert_eq!(get_default_ipv4_gateway_by_link(&dump(), 2).unwrap(), "10.2.0.1");
    assert_eq!(get_default_ipv4_gateway_by_link(&dump(), 3).unwrap(), "10.1.0.1");
    assert_eq!(get_default_ipv4_gateway_by_link(&dump(), 5), Err(GatewayError::DefaultNotFoundForLink(5)));
}

#[test]
fn gateway_by_link_takes_any_route() {
    assert_eq!(get_ipv4_gateway_by_link(&dump(), 2).unwrap(), "10.0.0.254");
    assert_eq!(get_ipv4_gateway_by_link(&vec![], 2), Err(GatewayError::NotFoundForLink(2)));
}

#[test]
fn route_request_reads_gateway() {
    let r = Route { table: 10000, if_index: 3, gw: "10.1.0.1".to_string() };
    assert_eq!(
        r.request().unwrap(),
        RouteRequest {
            destination: Ipv4(0, 0, 0, 0),
            destination_prefix_length: 0,
            gateway: Ipv4(10, 1, 0, 1),
            output_interface: 3,
            table: 10000,
        }
    );
    let bad = Route { table: 1, if_index: 1, gw: "fe80::1".to_string() };
    assert!(matches!(bad.request(), Err(NetError::InvalidIpv4)));
}

fn rule(from: Option<&str>, to: Option<&str>, table: u32) -> RoutingPolicyRule {
    RoutingPolicyRule { from: from.map(|s| s.to_string()), to: to.map(|s| s.to_string()), table }
}

fn v4(text: &str) -> RuleAddress {
    RuleAddress::V4(cloud_netconfig::ip::parse_ipv4_str(text).unwrap())
}

fn rule_msg(table: u8, attributes: Vec<RuleAttribute>) -> RuleMessage {
    RuleMessage { table, attributes }
}

#[test]
fn rule_exists_compares_table_source_destination() {
    let msgs = vec![
        rule_msg(100, vec![RuleAttribute::Source(v4("10.0.0.5"))]),
        rule_msg(101, vec![RuleAttribute::Destination(v4("10.0.0.6")), RuleAttribute::Other]),
    ];
    assert!(rule_exists(&rule(Some("10.0.0.5"), None, 100), &msgs));
    assert!(!rule_exists(&rule(Some("10.0.0.5"), None, 101), &msgs));
    assert!(!rule_exists(&rule(Some("10.0.0.5"), Some("1.1.1.1"), 100), &msgs));
    assert!(rule_exists(&rule(None, Some("10.0.0.6"), 101), &msgs));
    assert!(!rule_exists(&rule(None, None, 101), &msgs));
    assert!(!rule_exists(&rule(None, None, 100), &vec![]));
}

#[test]
fn rule_exists_uses_last_source() {
    let msgs = vec![rule_msg(
        7,
        vec![RuleAttribute::Source(v4("1.1.1.1")), RuleAttribute::Source(v4("2.2.2.2"))],
    )];
    assert!(rule_exists(&rule(Some("2.2.2.2"), None, 7), &msgs));
    assert!(!rule_exists(&rule(Some("1.1.1.1"), None, 7), &msgs));
}

#[test]
fn rule_with_large_table_is_never_found() {
    let msgs = vec![rule_msg(0, vec![]), rule_msg(255, vec![])];
    assert!(!rule_exists(&rule(None, None, 9999), &msgs));
    assert!(rule_exists(&rule(None, None, 255), &msgs));
}

#[test]
fn rule_requests() {
    let r = rule(Some("10.0.0.5"), Some("10.0.0.9"), 9999);
    assert_eq!(
        r.add_request().unwrap(),
        RuleAddRequest { table: 9999, source: Some(Ipv4(10, 0, 0, 5)), destination: Some(Ipv4(10, 0, 0, 9)) }
    );
    assert_eq!(
        r.delete_request().unwrap(),
        RuleDeleteRequest {
            header_table: 0,
            table_attribute: Some(9999),
            source: Some(Ipv4(10, 0, 0, 5)),
            destination: Some(Ipv4(10, 0, 0, 9)),
        }
    );
    let small = rule(None, Some("10.0.0.9"), 200);
    assert_eq!(
        small.delete_request().unwrap(),
        RuleDeleteRequest { header_table: 200, table_attribute: None, source: None, destination: Some(Ipv4(10, 0, 0, 9)) }
    );
    assert!(matches!(rule(Some("x"), Some("also bad"), 1).add_request(), Err(NetError::InvalidIpv4)));
    assert!(matches!(rule(None, Some("10.0.0"), 1).delete_request(), Err(NetError::InvalidIpv4)));
}

#[test]
fn rule_add_course() {
    let r = rule(Some("10.0.0.5"), None, 9999);
    assert!(matches!(rule_add_step(&r, RuleAddEvent::Started), RuleAddAction::CountLinks));
    assert!(matches!(rule_add_step(&r, RuleAddEvent::LinksCounted(1)), RuleAddAction::Finish(Ok(()))));
    assert!(matches!(rule_add_step(&r, RuleAddEvent::LinksCounted(2)), RuleAddAction::CheckExistence));
    assert!(matches!(rule_add_step(&r, RuleAddEvent::ExistenceChecked(true)), RuleAddAction::Finish(Ok(()))));
    match rule_add_step(&r, RuleAddEvent::ExistenceChecked(false)) {
        RuleAddAction::SendAdd(q) => assert_eq!(q.source, Some(Ipv4(10, 0, 0, 5))),
        _ => panic!("expected an add"),
    }
    assert!(matches!(
        rule_add_step(&rule(Some("bad"), None, 1), RuleAddEvent::ExistenceChecked(false)),
        RuleAddAction::Finish(Err(NetError::InvalidIpv4))
    ));
    assert!(matches!(
        rule_add_step(&r, RuleAddEvent::AddAnswered(Err("EEXIST".to_string()))),
        RuleAddAction::Finish(Ok(()))
    ));
    assert!(matches!(
        rule_add_step(&r, RuleAddEvent::AddAnswered(Err("Operation not permitted".to_string()))),
        RuleAddAction::Finish(Err(NetError::AddFailed(_, _)))
    ));
}

#[test]
fn added_rule_is_found_again() {
    let r = rule(Some("10.0.0.5"), Some("10.0.0.6"), 100);
    let q = r.add_request().unwrap();
    let installed = rule_msg(
        q.table as u8,
        vec![
            RuleAttribute::Source(RuleAddress::V4(q.source.unwrap())),
            RuleAttribute::Destination(RuleAddress::V4(q.destination.unwrap())),
        ],
    );
    assert!(rule_exists(&r, &vec![installed]));
}

#[test]
fn environment_for_each_cloud() {
    let e = Environment::new(CloudKind::Azure, 9999).unwrap();
    assert_eq!(e.provider, Provider::Azure);
    assert_eq!(e.route_table, 9999);
    assert_eq!(e.links.len(), 0);
    assert_eq!(Environment::new(CloudKind::AWS, 1).unwrap().provider, Provider::Aws);
    assert_eq!(Environment::new(CloudKind::GCP, 1).unwrap().provider, Provider::Gcp);
    assert!(Environment::new(CloudKind::Unknown, 1).is_none());
}

#[test]
fn found_gateway_makes_a_route_request() {
    let found = get_default_ipv4_gateway(&dump()).unwrap();
    let r = Route { table: 9999, if_index: 3, gw: found };
    assert_eq!(r.request().unwrap().gateway, Ipv4(10, 1, 0, 1));
}

#[test]
fn rule_with_ipv6_source_matches_its_text() {
    let msgs = vec![rule_msg(5, vec![RuleAttribute::Source(RuleAddress::V6("fd00::1".to_string()))])];
    assert!(rule_exists(&rule(Some("fd00::1"), None, 5), &msgs));
    assert!(!rule_exists(&rule(Some("fd00::2"), None, 5), &msgs));
}

#[test]
fn gateway_messages() {
    assert_eq!(GatewayError::DefaultNotFound.message(), "Default gateway not found");
    assert_eq!(GatewayError::DefaultNotFoundForLink(3).message(), "Default gateway not found for link 3");
    assert_eq!(GatewayError::NotFoundForLink(0).message(), "Gateway not found for link 0");
}
