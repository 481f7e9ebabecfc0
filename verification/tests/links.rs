use cloud_netconfig::link::{
    get_link_mac_by_index, link_from_message, link_index_from_reply, link_name_from_reply,
    mac_to_string, Link, LinkAttribute, LinkLookupError, LinkMessage, Links,
};

fn link_msg(index: u32, attributes: Vec<LinkAttribute>) -> LinkMessage {
    LinkMessage { index, attributes }
}

fn eth(index: u32, name: &str, mac: [u8; 6]) -> LinkMessage {
    link_msg(
        index,
        vec![
            LinkAttribute::IfName(name.to_string()),
            LinkAttribute::Address(mac.to_vec()),
            LinkAttribute::Mtu(1500),
            LinkAttribute::OperState("Up".to_string()),
        ],
    )
}

fn plain_link(name: &str, ifindex: u32, mac: &str) -> Link {
    Link {
        name: name.to_string(),
        ifindex,
        oper_state: "Up".to_string(),
        mac: mac.to_string(),
        mtu: 1500,
        addresses: None,
    }
}

#[test]
fn mac_text_is_lower_hex_with_colons() {
    assert_eq!(mac_to_string(&vec![0x02, 0x42, 0xac, 0x11, 0x00, 0x02]), "02:42:ac:11:00:02");
    assert_eq!(mac_to_string(&vec![0xff, 0xee, 0x0a, 0xb0, 0x01, 0x10]), "ff:ee:0a:b0:01:10");
}

#[test]
fn link_record_is_read() {
    let l = link_from_message(&eth(3, "eth0", [0, 0x0d, 0x3a, 1, 2, 0xff])).unwrap();
    assert_eq!(l.name, "eth0");
    assert_eq!(l.ifindex, 3);
    assert_eq!(l.mac, "00:0d:3a:01:02:ff");
    assert_eq!(l.mtu, 1500);
    assert_eq!(l.oper_state, "Up");
    assert!(l.addresses.is_none());
}

#[test]
fn link_record_defaults_and_later_attributes() {
    let l = link_from_message(&link_msg(
        7,
        vec![
            LinkAttribute::IfName("first".to_string()),
            LinkAttribute::Address(vec![1, 2, 3, 4, 5, 6]),
            LinkAttribute::Address(vec![9, 9, 9, 9]),
            LinkAttribute::IfName("eth1".to_string()),
            LinkAttribute::Other,
        ],
    ))
    .unwrap();
    assert_eq!(l.name, "eth1");
    assert_eq!(l.mac, "01:02:03:04:05:06");
    assert_eq!(l.mtu, 0);
    assert_eq!(l.oper_state, "unknown");
}

#[test]
fn loopback_and_links_without_mac_are_skipped() {
    assert!(link_from_message(&eth(1, "lo", [0; 6])).is_none());
    assert!(link_from_message(&link_msg(2, vec![LinkAttribute::IfName("tun0".to_string())])).is_none());
    assert!(link_from_message(&link_msg(
        2,
        vec![LinkAttribute::IfName("gre0".to_string()), LinkAttribute::Address(vec![0, 0, 0, 0])]
    ))
    .is_none());
    assert!(link_from_message(&eth(9, "lo0", [1, 1, 1, 1, 1, 1])).is_some());
}

#[test]
fn links_from_dump_are_keyed_by_mac() {
    let msgs = vec![
        eth(1, "lo", [0; 6]),
        eth(2, "eth0", [1, 2, 3, 4, 5, 6]),
        eth(3, "eth1", [1, 2, 3, 4, 5, 7]),
        eth(4, "eth2", [1, 2, 3, 4, 5, 6]),
    ];
    let links = Links::from_messages(&msgs);
    assert_eq!(links.len(), 2);
    let a = links.get(&"01:02:03:04:05:06".to_string()).unwrap();
    assert_eq!(a.name, "eth2");
    assert_eq!(a.ifindex, 4);
    assert_eq!(links.get(&"01:02:03:04:05:07".to_string()).unwrap().name, "eth1");
    assert!(links.get(&"00:00:00:00:00:00".to_string()).is_none());
}

#[test]
fn links_new_is_empty() {
    let links = Links::new();
    assert_eq!(links.len(), 0);
    assert!(links.mac_by_index(1).is_none());
}

#[test]
fn insert_replaces_same_mac() {
    let mut links = Links::new();
    links.insert(plain_link("eth0", 2, "aa"));
    links.insert(plain_link("eth1", 3, "bb"));
    links.insert(plain_link("eth9", 9, "aa"));
    assert_eq!(links.len(), 2);
    assert_eq!(links.get(&"aa".to_string()).unwrap().name, "eth9");
    assert_eq!(links.get(&"bb".to_string()).unwrap().ifindex, 3);
}

#[test]
fn mac_by_index_finds_link() {
    let mut links = Links::new();
    links.insert(plain_link("eth0", 2, "aa"));
    links.insert(plain_link("eth1", 3, "bb"));
    assert_eq!(links.mac_by_index(3), Some("bb".to_string()));
    assert_eq!(get_link_mac_by_index(&links, 2).unwrap(), "aa");
    assert!(matches!(get_link_mac_by_index(&links, 4), Err(LinkLookupError::NotFound)));
}

#[test]
fn link_name_from_reply_cases() {
    let reply = Some(link_msg(
        5,
        vec![
            LinkAttribute::Mtu(9000),
            LinkAttribute::IfName("eth3".to_string()),
            LinkAttribute::IfName("later".to_string()),
        ],
    ));
    assert_eq!(link_name_from_reply(5, &reply).unwrap(), "eth3");
    assert!(matches!(
        link_name_from_reply(5, &Some(link_msg(5, vec![LinkAttribute::Mtu(1)]))),
        Err(LinkLookupError::NameMissing)
    ));
    assert!(matches!(link_name_from_reply(8, &None), Err(LinkLookupError::IndexNotFound(8))));
}

#[test]
fn link_index_from_reply_cases() {
    assert_eq!(link_index_from_reply("eth0", &Some(link_msg(4, vec![]))).unwrap(), 4);
    match link_index_from_reply("eth7", &None) {
        Err(LinkLookupError::NameNotFound(n)) => assert_eq!(n, "eth7"),
        other => panic!("unexpected {other:?}"),
    }
}

#[test]
fn lookup_messages() {
    assert_eq!(LinkLookupError::NotFound.message(), "not found");
    assert_eq!(LinkLookupError::NameMissing.message(), "Link name not found");
    assert_eq!(LinkLookupError::IndexNotFound(42).message(), "Link with index 42 not found");
    assert_eq!(LinkLookupError::NameNotFound("eth9".to_string()).message(), "Link 'eth9' not found");
}
