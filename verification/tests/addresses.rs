use cloud_netconfig::address::{
    ipv4_addresses, parse_cidr_parts, split_cidr, AddressAttribute, AddressFamily, AddressMessage,
    Cidr,
};
use cloud_netconfig::ip::{IpAddress, Ipv4, Ipv6};
use cloud_netconfig::outcome::{is_already_exists, settle_add, AddTarget, NetError};
use cloud_netconfig::text::IntError;

fn read(address: &str, v6: Option<Ipv6>) -> Result<Cidr, NetError> {
    let text = split_cidr(address)?;
    parse_cidr_parts(&text, v6)
}

#[test]
fn split_cidr_needs_exactly_one_slash() {
    let t = split_cidr("10.0.0.5/24").unwrap();
    assert_eq!(t.ip, "10.0.0.5");
    assert_eq!(t.prefix, "24");
    assert!(matches!(split_cidr("10.0.0.5"), Err(NetError::NotCidr)));
    assert!(matches!(split_cidr("10.0.0.5/24/1"), Err(NetError::NotCidr)));
    let t = split_cidr("/").unwrap();
    assert_eq!(t.ip, "");
    assert_eq!(t.prefix, "");
}

#[test]
fn ipv4_cidr_is_read() {
    let c = read("10.0.0.5/24", None).unwrap();
    assert!(matches!(c.address, IpAddress::V4(Ipv4(10, 0, 0, 5))));
    assert_eq!(c.prefix_len, 24);
    assert_eq!(c.family(), AddressFamily::Inet);
}

#[test]
fn ipv6_reading_is_used_when_not_ipv4() {
    let mut octets = [0u8; 16];
    octets[0] = 0xfe;
    octets[1] = 0x80;
    octets[15] = 1;
    let c = read("fe80::1/64", Some(Ipv6(octets))).unwrap();
    match c.address {
        IpAddress::V6(Ipv6(o)) => assert_eq!(o, octets),
        other => panic!("unexpected {other:?}"),
    }
    assert_eq!(c.prefix_len, 64);
    assert_eq!(c.family(), AddressFamily::Inet6);
}

#[test]
fn ipv4_reading_wins_over_ipv6_reading() {
    let c = read("1.2.3.4/8", Some(Ipv6([0; 16]))).unwrap();
    assert!(matches!(c.address, IpAddress::V4(Ipv4(1, 2, 3, 4))));
}

#[test]
fn invalid_address_is_reported_before_prefix() {
    assert!(matches!(read("nonsense/xx", None), Err(NetError::InvalidIp)));
    assert!(matches!(read("10.0.0.1/xx", None), Err(NetError::InvalidPrefix(IntError::InvalidDigit))));
    assert!(matches!(read("10.0.0.1/256", None), Err(NetError::InvalidPrefix(IntError::PosOverflow))));
    assert!(matches!(read("10.0.0.1/", None), Err(NetError::InvalidPrefix(IntError::Empty))));
}

#[test]
fn address_listing_keeps_ipv4_of_inet_records() {
    let msgs = vec![
        AddressMessage {
            family: AddressFamily::Inet,
            prefix_len: 24,
            attributes: vec![
                AddressAttribute::Other,
                AddressAttribute::Address(IpAddress::V4(Ipv4(10, 0, 0, 5))),
                AddressAttribute::Address(IpAddress::V4(Ipv4(10, 0, 0, 6))),
            ],
        },
        AddressMessage {
            family: AddressFamily::Inet6,
            prefix_len: 64,
            attributes: vec![AddressAttribute::Address(IpAddress::V4(Ipv4(9, 9, 9, 9)))],
        },
        AddressMessage {
            family: AddressFamily::Inet,
            prefix_len: 32,
            attributes: vec![
                AddressAttribute::Address(IpAddress::V6(Ipv6([1; 16]))),
                AddressAttribute::Address(IpAddress::V4(Ipv4(10, 0, 0, 5))),
            ],
        },
    ];
    let mut listed = ipv4_addresses(&msgs);
    listed.sort();
    assert_eq!(listed, vec!["10.0.0.5/24", "10.0.0.5/32", "10.0.0.6/24"]);
}

#[test]
fn listed_addresses_read_back() {
    let msgs = vec![AddressMessage {
        family: AddressFamily::Inet,
        prefix_len: 7,
        attributes: vec![AddressAttribute::Address(IpAddress::V4(Ipv4(172, 16, 0, 10)))],
    }];
    let listed = ipv4_addresses(&msgs);
    assert_eq!(listed, vec!["172.16.0.10/7"]);
    let c = read("172.16.0.10/7", None).unwrap();
    assert!(matches!(c.address, IpAddress::V4(Ipv4(172, 16, 0, 10))));
    assert_eq!(c.prefix_len, 7);
}

#[test]
fn empty_dump_lists_nothing() {
    assert!(ipv4_addresses(&Vec::new()).is_empty());
}

#[test]
fn repeated_address_is_listed_once() {
    let m = || AddressMessage {
        family: AddressFamily::Inet,
        prefix_len: 16,
        attributes: vec![AddressAttribute::Address(IpAddress::V4(Ipv4(10, 1, 2, 3)))],
    };
    assert_eq!(ipv4_addresses(&vec![m(), m()]), vec!["10.1.2.3/16"]);
}

#[test]
fn already_exists_texts() {
    assert!(is_already_exists("File exists (os error 17)"));
    assert!(is_already_exists("Received a netlink error message EEXIST"));
    assert!(!is_already_exists("Permission denied"));
    assert!(!is_already_exists("file exists"));
    assert!(!is_already_exists(""));
}

#[test]
fn settle_add_judges_answers() {
    assert!(settle_add(AddTarget::Address, Ok(())).is_ok());
    assert!(settle_add(AddTarget::Route, Err("File exists".to_string())).is_ok());
    match settle_add(AddTarget::Route, Err("No such device".to_string())) {
        Err(NetError::AddFailed(t, d)) => {
            assert_eq!(t, AddTarget::Route);
            assert_eq!(d, "No such device");
        }
        other => panic!("unexpected {other:?}"),
    }
}

#[test]
fn error_messages() {
    assert_eq!(NetError::NotCidr.message(), "Invalid address format, expected CIDR notation");
    assert_eq!(NetError::InvalidIp.message(), "invalid IP address syntax");
    assert_eq!(NetError::InvalidIpv4.message(), "invalid IPv4 address syntax");
    assert_eq!(NetError::InvalidPrefix(IntError::Empty).message(), "cannot parse integer from empty string");
    assert_eq!(NetError::InvalidPrefix(IntError::InvalidDigit).message(), "invalid digit found in string");
    assert_eq!(NetError::InvalidPrefix(IntError::PosOverflow).message(), "number too large to fit in target type");
    assert_eq!(
        NetError::AddFailed(AddTarget::RoutingPolicyRule, "Permission denied".to_string()).message(),
        "Failed to add routing policy rule: Permission denied"
    );
    assert_eq!(NetError::AddFailed(AddTarget::Address, "x".to_string()).message(), "Failed to add address: x");
    assert_eq!(NetError::AddFailed(AddTarget::Route, "".to_string()).message(), "Failed to add route: ");
}

#[test]
fn int_error_messages_match_std() {
    assert_eq!(NetError::InvalidPrefix(IntError::Empty).message(), "".parse::<u8>().unwrap_err().to_string());
    assert_eq!(NetError::InvalidPrefix(IntError::InvalidDigit).message(), "x".parse::<u8>().unwrap_err().to_string());
    assert_eq!(NetError::InvalidPrefix(IntError::PosOverflow).message(), "300".parse::<u8>().unwrap_err().to_string());
}
