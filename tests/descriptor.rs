use nullnet_proxy::{segment_networks, vlan_setup_request, Ipv4Cidr, IpAddress, OvsVlan, AGENT_PORT};

fn v4(a: u8, b: u8, c: u8, d: u8) -> u32 {
    u32::from_be_bytes([a, b, c, d])
}

fn vlan_for_tests() -> OvsVlan {
    OvsVlan {
        id: 10,
        ports: vec![
            Ipv4Cidr::new(v4(8, 8, 8, 8), 24).unwrap(),
            Ipv4Cidr::new(v4(16, 16, 16, 16), 8).unwrap(),
        ],
    }
}

fn text(bytes: Vec<u8>) -> String {
    String::from_utf8(bytes).unwrap()
}

#[test]
fn test_serialize_and_deserialize_vlan() {
    let vlan_setup_request = vlan_for_tests();
    let encoded = text(vlan_setup_request.encode());

    let table: toml::Table = toml::from_str(&encoded).unwrap();
    assert_eq!(table.len(), 2);
    assert_eq!(table["id"].as_integer(), Some(10));
    let ports: Vec<&str> = table["ports"]
        .as_array()
        .unwrap()
        .iter()
        .map(|p| p.as_str().unwrap())
        .collect();
    assert_eq!(ports, vec!["8.8.8.8/24", "16.16.16.16/8"]);

    let decoded: Vec<Ipv4Cidr> = ports
        .iter()
        .map(|p| {
            let net: ipnetwork::Ipv4Network = p.parse().unwrap();
            Ipv4Cidr::new(u32::from(net.ip()), net.prefix()).unwrap()
        })
        .collect();
    assert_eq!(decoded, vlan_setup_request.ports);

    let back = OvsVlan::decode(encoded.as_bytes()).unwrap();
    assert_eq!(back.id, vlan_setup_request.id);
    assert_eq!(back.ports, vlan_setup_request.ports);
}

#[test]
fn test_toml_string_vlan() {
    let vlan_setup_request = vlan_for_tests();

    assert_eq!(
        text(vlan_setup_request.encode()),
        "id = 10\n\
             ports = [\"8.8.8.8/24\", \"16.16.16.16/8\"]\n"
    );
}

#[test]
fn encoding_matches_the_toml_crate() {
    let mut table = toml::Table::new();
    table.insert("id".to_string(), toml::Value::Integer(10));
    table.insert(
        "ports".to_string(),
        toml::Value::Array(vec![
            toml::Value::String("8.8.8.8/24".to_string()),
            toml::Value::String("16.16.16.16/8".to_string()),
        ]),
    );
    assert_eq!(text(vlan_for_tests().encode()), toml::to_string(&table).unwrap());
}

#[test]
fn encoding_is_deterministic() {
    assert_eq!(vlan_for_tests().encode(), vlan_for_tests().encode());
}

#[test]
fn encoding_of_empty_and_single_port_lists() {
    let empty = OvsVlan { id: 0, ports: vec![] };
    assert_eq!(text(empty.encode()), "id = 0\nports = []\n");
    let one = OvsVlan { id: 65535, ports: vec![Ipv4Cidr::new(v4(10, 255, 255, 1), 24).unwrap()] };
    assert_eq!(text(one.encode()), "id = 65535\nports = [\"10.255.255.1/24\"]\n");
}

#[test]
fn network_text_is_cidr_notation() {
    let n = Ipv4Cidr::new(v4(192, 168, 1, 130), 32).unwrap();
    assert_eq!(text(n.to_text()), "192.168.1.130/32");
    let z = Ipv4Cidr::new(0, 0).unwrap();
    assert_eq!(text(z.to_text()), "0.0.0.0/0");
}

#[test]
fn network_prefix_longer_than_32_is_rejected() {
    assert_eq!(Ipv4Cidr::new(v4(8, 8, 8, 8), 33), Err(nullnet_proxy::NetworkError::InvalidPrefix));
    let n = Ipv4Cidr::new(v4(8, 8, 8, 8), 32).unwrap();
    assert_eq!((n.addr, n.prefix), (v4(8, 8, 8, 8), 32));
}

#[test]
fn segment_101_networks() {
    let (local, remote) = segment_networks(101);
    assert_eq!(text(local.to_text()), "10.0.101.2/24");
    assert_eq!(text(remote.to_text()), "10.0.101.1/24");
}

#[test]
fn segment_networks_use_both_identifier_bytes() {
    let (local, remote) = segment_networks(0x1234);
    assert_eq!(text(local.to_text()), "10.18.52.2/24");
    assert_eq!(text(remote.to_text()), "10.18.52.1/24");
}

#[test]
fn setup_request_goes_to_the_agent_port() {
    let (local, _) = segment_networks(101);
    let d = vlan_setup_request(IpAddress::V4(v4(192, 168, 1, 130)), 101, vec![local]);
    assert_eq!(d.to.ip, IpAddress::V4(v4(192, 168, 1, 130)));
    assert_eq!(d.to.port, AGENT_PORT);
    assert_eq!(AGENT_PORT, 9998);
    assert_eq!(text(d.payload), "id = 101\nports = [\"10.0.101.2/24\"]\n");
}

#[test]
fn decode_reads_the_documented_example() {
    let d = OvsVlan::decode(b"id = 10\nports = [\"8.8.8.8/24\", \"16.16.16.16/8\"]\n").unwrap();
    assert_eq!(d.id, 10);
    assert_eq!(
        d.ports,
        vec![
            Ipv4Cidr::new(v4(8, 8, 8, 8), 24).unwrap(),
            Ipv4Cidr::new(v4(16, 16, 16, 16), 8).unwrap(),
        ]
    );
}

#[test]
fn decode_round_trips_edge_descriptors() {
    for v in [
        OvsVlan { id: 0, ports: vec![] },
        OvsVlan { id: 65535, ports: vec![Ipv4Cidr::new(u32::MAX, 32).unwrap()] },
        OvsVlan {
            id: 101,
            ports: vec![
                Ipv4Cidr::new(v4(10, 0, 101, 2), 24).unwrap(),
                Ipv4Cidr::new(v4(10, 0, 101, 1), 24).unwrap(),
                Ipv4Cidr::new(0, 0).unwrap(),
            ],
        },
    ] {
        let back = OvsVlan::decode(&v.encode()).unwrap();
        assert_eq!(back.id, v.id);
        assert_eq!(back.ports, v.ports);
    }
}

#[test]
fn decode_rejects_other_text() {
    for bad in [
        "",
        "id = 10\nports = []",
        "id = 010\nports = []\n",
        "id = 70000\nports = []\n",
        "id=10\nports = []\n",
        "id = 10\nports = [\"8.8.8.8/33\"]\n",
        "id = 10\nports = [\"8.8.8.256/24\"]\n",
        "id = 10\nports = [\"8.8.8.8/24\",\"1.1.1.1/8\"]\n",
        "id = 10\nports = [\"08.8.8.8/24\"]\n",
        "id = 10\nports = []\n\n",
    ] {
        assert!(OvsVlan::decode(bad.as_bytes()).is_none(), "accepted {bad:?}");
    }
}
