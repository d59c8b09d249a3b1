use nullnet_proxy::{
    endpoint_from_reply, endpoint_from_response, service_from_host, ClientRequest, Endpoint,
    IpAddress, NullnetProxy, ProvisionError, SegmentAllocator, Service, UpstreamStep,
    BASE_SEGMENT, LOCAL_AGENT_V4, SERVICE_HOST_V4,
};

fn v4(a: u8, b: u8, c: u8, d: u8) -> u32 {
    u32::from_be_bytes([a, b, c, d])
}

fn req(ip: u32, service: &str) -> ClientRequest {
    ClientRequest::new(IpAddress::V4(ip), Service::new(service.to_string()))
}

#[test]
fn segment_identifiers_increase_from_the_base() {
    let mut a = SegmentAllocator::new(100);
    assert_eq!(a.allocate(), Ok(101));
    assert_eq!(a.allocate(), Ok(102));
    assert_eq!(a.allocate(), Ok(103));
    assert_eq!(a.last_issued(), 103);
}

#[test]
fn segment_space_exhaustion_does_not_wrap() {
    let mut a = SegmentAllocator::new(65534);
    assert_eq!(a.allocate(), Ok(65535));
    assert_eq!(a.allocate(), Err(ProvisionError::Exhausted));
    assert_eq!(a.last_issued(), 65535);
}

#[test]
fn default_registry_addresses() {
    assert_eq!(SERVICE_HOST_V4, v4(192, 168, 1, 104));
    assert_eq!(LOCAL_AGENT_V4, v4(192, 168, 1, 130));
    assert_eq!(BASE_SEGMENT, 100);
    let proxy = NullnetProxy::new();
    let host = proxy.service_host(&Service::new("directory.com".to_string()));
    assert_eq!(host, Some(Endpoint::new(IpAddress::V4(v4(192, 168, 1, 104)), 8080)));
    assert_eq!(proxy.service_host(&Service::new("nope.com".to_string())), None);
}

#[test]
fn first_request_plans_segment_101() {
    let mut proxy = NullnetProxy::new();
    let client = req(v4(172, 16, 0, 9), "color.com");
    let plan = match proxy.get_or_add_upstream(&client) {
        UpstreamStep::Provision(plan) => plan,
        _ => panic!("expected a provisioning plan"),
    };
    assert_eq!(plan.vlan_id, 101);
    assert_eq!(plan.local.to, Endpoint::new(IpAddress::V4(v4(192, 168, 1, 130)), 9998));
    assert_eq!(
        String::from_utf8(plan.local.payload.clone()).unwrap(),
        "id = 101\nports = [\"10.0.101.2/24\"]\n"
    );
    assert_eq!(plan.remote.to, Endpoint::new(IpAddress::V4(v4(192, 168, 1, 104)), 9998));
    assert_eq!(
        String::from_utf8(plan.remote.payload.clone()).unwrap(),
        "id = 101\nports = [\"10.0.101.1/24\"]\n"
    );
    assert_eq!(plan.upstream, Endpoint::new(IpAddress::V4(v4(10, 0, 101, 1)), 3001));

    // a concurrent request for the same identity waits
    assert!(matches!(proxy.get_or_add_upstream(&client), UpstreamStep::Wait));
    let done = proxy.finish_upstream(&client, plan.upstream, true);
    assert_eq!(done, Ok(Endpoint::new(IpAddress::V4(v4(10, 0, 101, 1)), 3001)));

    match proxy.get_or_add_upstream(&client) {
        UpstreamStep::Ready(e) => assert_eq!(e, plan.upstream),
        _ => panic!("expected the cached endpoint"),
    }

    // another client gets the next segment
    match proxy.get_or_add_upstream(&req(v4(172, 16, 0, 10), "directory.com")) {
        UpstreamStep::Provision(p) => {
            assert_eq!(p.vlan_id, 102);
            assert_eq!(p.upstream, Endpoint::new(IpAddress::V4(v4(10, 0, 102, 1)), 8080));
        },
        _ => panic!("expected a provisioning plan"),
    }
}

#[test]
fn unknown_service_fails_without_caching() {
    let mut proxy = NullnetProxy::new();
    let client = req(1, "unknown.example");
    assert!(matches!(
        proxy.get_or_add_upstream(&client),
        UpstreamStep::Failed(ProvisionError::UnknownService)
    ));
    assert!(matches!(
        proxy.get_or_add_upstream(&client),
        UpstreamStep::Failed(ProvisionError::UnknownService)
    ));
}

#[test]
fn failed_send_leaves_identity_unresolved() {
    let mut proxy = NullnetProxy::new();
    let client = req(1, "color.com");
    let plan = match proxy.get_or_add_upstream(&client) {
        UpstreamStep::Provision(plan) => plan,
        _ => panic!("expected a provisioning plan"),
    };
    assert_eq!(proxy.finish_upstream(&client, plan.upstream, false), Err(ProvisionError::Transport));
    match proxy.get_or_add_upstream(&client) {
        UpstreamStep::Provision(p) => assert_eq!(p.vlan_id, 102),
        _ => panic!("expected a new provisioning plan"),
    }
}

#[test]
fn exhausted_segments_fail_the_resolution() {
    let services = vec![(Service::new("s".to_string()), Endpoint::new(IpAddress::V4(7), 80))];
    let mut proxy = NullnetProxy::with_services(services, 65535, IpAddress::V4(1), true);
    assert!(matches!(
        proxy.get_or_add_upstream(&req(1, "s")),
        UpstreamStep::Failed(ProvisionError::Exhausted)
    ));
}

#[test]
fn reply_with_valid_address_and_port() {
    assert_eq!(
        endpoint_from_response("10.0.101.1", 3001),
        Ok(Endpoint::new(IpAddress::V4(v4(10, 0, 101, 1)), 3001))
    );
    assert_eq!(
        endpoint_from_response("::1", 8080),
        Ok(Endpoint::new(IpAddress::V6(1), 8080))
    );
}

#[test]
fn reply_with_unparseable_address_fails() {
    assert_eq!(endpoint_from_response("not-an-ip", 3001), Err(ProvisionError::Parse));
    assert_eq!(endpoint_from_reply(None, 3001), Err(ProvisionError::Parse));
}

#[test]
fn reply_with_port_outside_16_bits_fails() {
    assert_eq!(endpoint_from_response("10.0.0.1", 65536), Err(ProvisionError::Parse));
    assert_eq!(
        endpoint_from_reply(Some(IpAddress::V4(1)), 65535),
        Ok(Endpoint::new(IpAddress::V4(1), 65535))
    );
}

#[test]
fn host_header_without_proxy_port() {
    assert_eq!(service_from_host("color.com:7777", 7777), Some("color.com".to_string()));
    assert_eq!(service_from_host("color.com:8080", 7777), None);
    assert_eq!(service_from_host("color.com", 7777), None);
    assert_eq!(service_from_host(":7777", 7777), Some(String::new()));
    assert_eq!(service_from_host("7777", 7777), None);
}
