use nullnet_proxy::{
    ClientRequest, Endpoint, IpAddress, Lookup, ProvisionError, Service, UpstreamCache,
};

fn req(ip: u32, service: &str) -> ClientRequest {
    ClientRequest::new(IpAddress::V4(ip), Service::new(service.to_string()))
}

fn ep(port: u16) -> Endpoint {
    Endpoint::new(IpAddress::V4(0x0a00_6501), port)
}

#[test]
fn first_resolution_provisions_once_then_hits() {
    let mut cache = UpstreamCache::new(true);
    let mut calls = 0;
    let r = cache.resolve_or_provision(&req(1, "color.com"), || {
        calls += 1;
        Ok(ep(3001))
    });
    assert_eq!(r, Ok(ep(3001)));
    assert_eq!(calls, 1);
    for _ in 0..3 {
        let again = cache.resolve_or_provision(&req(1, "color.com"), || {
            calls += 1;
            Ok(ep(9999))
        });
        assert_eq!(again, Ok(ep(3001)));
    }
    assert_eq!(calls, 1);
    assert_eq!(cache.lookup(&req(1, "color.com")), Some(ep(3001)));
}

#[test]
fn cached_identity_does_not_provision() {
    let mut cache = UpstreamCache::new(false);
    assert_eq!(cache.begin(&req(7, "a")), Lookup::Provision);
    assert_eq!(cache.complete(&req(7, "a"), Ok(ep(80))), Ok(ep(80)));
    assert_eq!(cache.begin(&req(7, "a")), Lookup::Cached(ep(80)));
    let mut calls = 0;
    let r = cache.resolve_or_provision(&req(7, "a"), || {
        calls += 1;
        Ok(ep(81))
    });
    assert_eq!(r, Ok(ep(80)));
    assert_eq!(calls, 0);
}

#[test]
fn identities_differ_by_client_and_by_service() {
    let mut cache = UpstreamCache::new(true);
    assert_eq!(cache.resolve_or_provision(&req(1, "a"), || Ok(ep(1))), Ok(ep(1)));
    assert_eq!(cache.resolve_or_provision(&req(2, "a"), || Ok(ep(2))), Ok(ep(2)));
    assert_eq!(cache.resolve_or_provision(&req(1, "b"), || Ok(ep(3))), Ok(ep(3)));
    assert_eq!(cache.lookup(&req(1, "a")), Some(ep(1)));
    assert_eq!(cache.lookup(&req(2, "a")), Some(ep(2)));
    assert_eq!(cache.lookup(&req(1, "b")), Some(ep(3)));
    assert_eq!(cache.lookup(&req(2, "b")), None);
}

#[test]
fn single_flight_collapses_concurrent_misses() {
    let mut cache = UpstreamCache::new(true);
    let r = req(5, "directory.com");
    assert_eq!(cache.begin(&r), Lookup::Provision);
    for _ in 0..4 {
        assert_eq!(cache.begin(&r), Lookup::Wait);
    }
    assert_eq!(cache.resolve_or_provision(&r, || Ok(ep(1))), Err(ProvisionError::InFlight));
    assert_eq!(cache.complete(&r, Ok(ep(8080))), Ok(ep(8080)));
    for _ in 0..4 {
        assert_eq!(cache.begin(&r), Lookup::Cached(ep(8080)));
    }
}

#[test]
fn single_flight_keeps_the_first_endpoint() {
    let mut cache = UpstreamCache::new(true);
    let r = req(5, "s");
    assert_eq!(cache.complete(&r, Ok(ep(1))), Ok(ep(1)));
    assert_eq!(cache.complete(&r, Ok(ep(2))), Ok(ep(1)));
    assert_eq!(cache.lookup(&r), Some(ep(1)));
}

#[test]
fn racing_mode_provisions_each_miss_and_last_write_wins() {
    let mut cache = UpstreamCache::new(false);
    assert!(!cache.single_flight());
    let r = req(5, "directory.com");
    for _ in 0..3 {
        assert_eq!(cache.begin(&r), Lookup::Provision);
    }
    assert_eq!(cache.complete(&r, Ok(ep(1))), Ok(ep(1)));
    assert_eq!(cache.complete(&r, Ok(ep(2))), Ok(ep(2)));
    assert_eq!(cache.lookup(&r), Some(ep(2)));
}

#[test]
fn failed_provisioning_leaves_cache_unchanged() {
    let mut cache = UpstreamCache::new(true);
    let r = req(9, "color.com");
    let out = cache.resolve_or_provision(&r, || Err(ProvisionError::Parse));
    assert_eq!(out, Err(ProvisionError::Parse));
    assert_eq!(cache.lookup(&r), None);
    // the identity is released: the next request may provision again
    assert_eq!(cache.begin(&r), Lookup::Provision);
    assert_eq!(cache.complete(&r, Err(ProvisionError::Transport)), Err(ProvisionError::Transport));
    assert_eq!(cache.lookup(&r), None);
}
