//! Resolution of inbound requests to dynamically provisioned upstream endpoints.
//!
//! A request is identified by the client's address and the service it asks
//! for. The first request for an identity provisions an endpoint (through a
//! control-plane reply or through a freshly allocated network segment); later
//! requests for the same identity reuse the cached endpoint.

mod identity;
mod cache;
mod network;
mod segment;
mod decoding;
mod rpc;
mod proxy;

pub use identity::{ClientRequest, Endpoint, IpAddress, RequestKey, Service};
pub use cache::{
    begin_many, begin_spec, complete_spec, lemma_cached_lookup_is_silent,
    lemma_failed_provision_keeps_cache, lemma_first_lookup_provisions_then_hits, lemma_racing_mode,
    lemma_single_flight, lemma_single_flight_entries_are_stable, Lookup, ProvisionError,
    UpstreamCache,
};
pub use network::{cidr_text, decimal, push_decimal, v4, Ipv4Cidr, NetworkError};
pub use segment::{
    allocate_spec, allocations, descriptor_text, lemma_allocations_increase, list_separator,
    list_tail, quoted, quoted_list, segment_host, segment_networks, OvsVlan, SegmentAllocator,
};
pub use rpc::{
    endpoint_from_reply, endpoint_from_response, ip_from_text, port_suffix, reply_spec,
    service_from_host, service_from_host_spec,
};
pub use proxy::{
    plan_for, registry_lookup, vlan_setup_request, Datagram, NullnetProxy, SegmentPlan,
    UpstreamStep, AGENT_PORT, BASE_SEGMENT, LOCAL_AGENT_V4, SERVICE_HOST_V4,
};
pub use decoding::{
    all_valid, closing, descriptor_of, digits_value, is_digit, lemma_descriptor_round_trip,
    lemma_descriptor_text_injective, ports_key,
};
