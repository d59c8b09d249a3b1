use vstd::prelude::*;
use crate::cache::{begin_spec, complete_spec, Lookup, ProvisionError, UpstreamCache};
use crate::identity::{ClientRequest, Endpoint, IpAddress, Service};
use crate::network::Ipv4Cidr;
use crate::segment::{
    allocate_spec, descriptor_text, segment_host, segment_networks, OvsVlan, SegmentAllocator,
};

verus! {

/// The port on which network-virtualization agents take segment requests.
pub const AGENT_PORT: u16 = 9998;

/// The last segment identifier taken as issued at startup.
pub const BASE_SEGMENT: u16 = 100;

/// This machine's agent address, 192.168.1.130.
pub const LOCAL_AGENT_V4: u32 = 3232235906;

/// The service host of the default registry, 192.168.1.104.
pub const SERVICE_HOST_V4: u32 = 3232235880;

/// The registered host endpoint of the first service named `name` at or
/// after position `i`.
pub open spec fn registry_lookup(
    services: Seq<(Seq<char>, Endpoint)>,
    name: Seq<char>,
    i: int,
) -> Option<Endpoint>
    decreases services.len() - i,
{
    if i < 0 || i >= services.len() {
        None
    } else if services[i].0 == name {
        Some(services[i].1)
    } else {
        registry_lookup(services, name, i + 1)
    }
}

/// A datagram to send: where, and what.
pub struct Datagram {
    pub to: Endpoint,
    pub payload: Vec<u8>,
}

/// The request that makes `to`'s agent create `ports` on segment `vlan_id`.
pub fn vlan_setup_request(to: IpAddress, vlan_id: u16, vlan_ports: Vec<Ipv4Cidr>) -> (r: Datagram)
    requires
        forall|i: int| 0 <= i < vlan_ports@.len() ==> (#[trigger] vlan_ports@[i]).wf(),
    ensures
        r.to == (Endpoint { ip: to, port: AGENT_PORT }),
        r.payload@ == descriptor_text(vlan_id, vlan_ports@),
{
    let ovs_vlan = OvsVlan { id: vlan_id, ports: vlan_ports };
    Datagram { to: Endpoint { ip: to, port: AGENT_PORT }, payload: ovs_vlan.encode() }
}

/// What provisioning a new segment takes: one request to this machine's
/// agent, one to the target host's agent, and the endpoint that results.
pub struct SegmentPlan {
    pub vlan_id: u16,
    pub local: Datagram,
    pub remote: Datagram,
    pub upstream: Endpoint,
}

/// `plan` provisions segment `id` between `local_agent` and the service
/// registered at `host`.
pub open spec fn plan_for(plan: SegmentPlan, id: u16, local_agent: IpAddress, host: Endpoint) -> bool {
    &&& plan.vlan_id == id
    &&& plan.local.to == (Endpoint { ip: local_agent, port: AGENT_PORT })
    &&& plan.local.payload@ == descriptor_text(
        id,
        seq![Ipv4Cidr { addr: segment_host(id, 2), prefix: 24 }],
    )
    &&& plan.remote.to == (Endpoint { ip: host.ip, port: AGENT_PORT })
    &&& plan.remote.payload@ == descriptor_text(
        id,
        seq![Ipv4Cidr { addr: segment_host(id, 1), prefix: 24 }],
    )
    &&& plan.upstream == (Endpoint { ip: IpAddress::V4(segment_host(id, 1)), port: host.port })
}

/// What the caller of `get_or_add_upstream` does next.
pub enum UpstreamStep {
    /// Forward to this endpoint.
    Ready(Endpoint),
    /// Another caller is provisioning this identity: ask again later.
    Wait,
    /// Resolution failed; the cache is as it was.
    Failed(ProvisionError),
    /// Send both requests of the plan, then report with `finish_upstream`.
    Provision(SegmentPlan),
}

/// The resolver that provisions a dedicated segment per identity.
pub struct NullnetProxy {
    /// The available services and their host machine endpoints.
    services: Vec<(Service, Endpoint)>,
    /// Endpoints provisioned so far, by client address and service.
    connections: UpstreamCache,
    /// The last segment identifier issued.
    last_registered_vlan: SegmentAllocator,
    /// This machine's agent address.
    local_agent: IpAddress,
}

impl NullnetProxy {
    pub closed spec fn services(&self) -> Seq<(Seq<char>, Endpoint)> {
        self.services@.map_values(|e: (Service, Endpoint)| (e.0@, e.1))
    }

    pub closed spec fn connections(&self) -> UpstreamCache {
        self.connections
    }

    pub closed spec fn last_vlan(&self) -> u16 {
        self.last_registered_vlan.last_id()
    }

    pub closed spec fn local_agent(&self) -> IpAddress {
        self.local_agent
    }

    pub open spec fn wf(&self) -> bool {
        self.connections().wf()
    }

    /// A resolver over the given registry. Segments are issued from
    /// `base_segment + 1` on.
    pub fn with_services(
        services: Vec<(Service, Endpoint)>,
        base_segment: u16,
        local_agent: IpAddress,
        single_flight: bool,
    ) -> (r: NullnetProxy)
        ensures
            r.wf(),
            r.services() == services@.map_values(|e: (Service, Endpoint)| (e.0@, e.1)),
            r.connections().resolved() == Map::<(IpAddress, Seq<char>), Endpoint>::empty(),
            r.connections().in_flight() == Set::<(IpAddress, Seq<char>)>::empty(),
            r.connections().is_single_flight() == single_flight,
            r.last_vlan() == base_segment,
            r.local_agent() == local_agent,
    {
        NullnetProxy {
            services,
            connections: UpstreamCache::new(single_flight),
            last_registered_vlan: SegmentAllocator::new(base_segment),
            local_agent,
        }
    }

    /// The default deployment: `color.com` and `directory.com` on
    /// 192.168.1.104 (ports 3001 and 8080), this machine's agent on
    /// 192.168.1.130, segments from 101 on, single-flight resolution.
    pub fn new() -> (r: NullnetProxy)
        ensures
            r.wf(),
            r.services() == seq![
                ("color.com"@, Endpoint { ip: IpAddress::V4(SERVICE_HOST_V4), port: 3001 }),
                ("directory.com"@, Endpoint { ip: IpAddress::V4(SERVICE_HOST_V4), port: 8080 }),
            ],
            r.connections().resolved() == Map::<(IpAddress, Seq<char>), Endpoint>::empty(),
            r.connections().in_flight() == Set::<(IpAddress, Seq<char>)>::empty(),
            r.connections().is_single_flight(),
            r.last_vlan() == BASE_SEGMENT,
            r.local_agent() == IpAddress::V4(LOCAL_AGENT_V4),
    {
        let mut services: Vec<(Service, Endpoint)> = Vec::new();
        services.push(
            (
                Service::new(String::from_str("color.com")),
                Endpoint { ip: IpAddress::V4(SERVICE_HOST_V4), port: 3001 },
            ),
        );
        services.push(
            (
                Service::new(String::from_str("directory.com")),
                Endpoint { ip: IpAddress::V4(SERVICE_HOST_V4), port: 8080 },
            ),
        );
        let r = NullnetProxy::with_services(
            services,
            BASE_SEGMENT,
            IpAddress::V4(LOCAL_AGENT_V4),
            true,
        );
        assert(r.services() =~= seq![
            ("color.com"@, Endpoint { ip: IpAddress::V4(SERVICE_HOST_V4), port: 3001 }),
            ("directory.com"@, Endpoint { ip: IpAddress::V4(SERVICE_HOST_V4), port: 8080 }),
        ]);
        r
    }

    /// The host endpoint registered for `service`.
    pub fn service_host(&self, service: &Service) -> (r: Option<Endpoint>)
        ensures
            r == registry_lookup(self.services(), service@, 0),
    {
        let mut i: usize = 0;
        while i < self.services.len()
            invariant
                i <= self.services@.len(),
                registry_lookup(self.services(), service@, 0) == registry_lookup(
                    self.services(),
                    service@,
                    i as int,
                ),
            decreases self.services@.len() - i,
        {
            if self.services[i].0.same_as(service) {
                return Some(self.services[i].1);
            }
            i += 1;
        }
        None
    }

    /// Resolves `client_req`: a cached endpoint is returned at once; on a
    /// miss a new segment is allocated and the plan to provision it is
    /// returned. An unknown service or an exhausted segment space fails the
    /// resolution and leaves the cache as it was.
    pub fn get_or_add_upstream(&mut self, client_req: &ClientRequest) -> (r: UpstreamStep)
        requires
            old(self).wf(),
        ensures
            final(self).wf(),
            final(self).services() == old(self).services(),
            final(self).local_agent() == old(self).local_agent(),
            final(self).connections().is_single_flight() == old(self).connections().is_single_flight(),
            ({
                let c = old(self).connections();
                let (m1, p1, l) = begin_spec(
                    c.resolved(),
                    c.in_flight(),
                    c.is_single_flight(),
                    client_req@,
                );
                let host = registry_lookup(old(self).services(), client_req@.1, 0);
                let (last, id) = allocate_spec(old(self).last_vlan());
                let c2 = final(self).connections();
                match l {
                    Lookup::Cached(ep) => r == UpstreamStep::Ready(ep) && c2.resolved() == c.resolved()
                        && c2.in_flight() == c.in_flight() && final(self).last_vlan()
                        == old(self).last_vlan(),
                    Lookup::Wait => r == UpstreamStep::Wait && c2.resolved() == c.resolved()
                        && c2.in_flight() == c.in_flight() && final(self).last_vlan()
                        == old(self).last_vlan(),
                    Lookup::Provision => match host {
                        None => r == UpstreamStep::Failed(ProvisionError::UnknownService)
                            && c2.resolved() == c.resolved() && c2.in_flight() == p1.remove(
                            client_req@,
                        ) && final(self).last_vlan() == old(self).last_vlan(),
                        Some(h) => final(self).last_vlan() == last && match id {
                            Err(e) => r == UpstreamStep::Failed(e) && c2.resolved()
                                == c.resolved() && c2.in_flight() == p1.remove(client_req@),
                            Ok(vlan) => c2.resolved() == c.resolved() && c2.in_flight() == p1
                                && (r matches UpstreamStep::Provision(plan) && plan_for(
                                plan,
                                vlan,
                                old(self).local_agent(),
                                h,
                            )),
                        },
                    },
                }
            }),
    {
        match self.connections.begin(client_req) {
            Lookup::Cached(ep) => UpstreamStep::Ready(ep),
            Lookup::Wait => UpstreamStep::Wait,
            Lookup::Provision => {
                let host = match self.service_host(&client_req.service) {
                    Some(h) => h,
                    None => {
                        let _ = self.connections.complete(
                            client_req,
                            Err(ProvisionError::UnknownService),
                        );
                        return UpstreamStep::Failed(ProvisionError::UnknownService);
                    },
                };
                let vlan_id = match self.last_registered_vlan.allocate() {
                    Ok(id) => id,
                    Err(e) => {
                        let _ = self.connections.complete(client_req, Err(e));
                        return UpstreamStep::Failed(e);
                    },
                };
                let (local_net, remote_net) = segment_networks(vlan_id);
                let mut local_ports: Vec<Ipv4Cidr> = Vec::new();
                local_ports.push(local_net);
                let mut remote_ports: Vec<Ipv4Cidr> = Vec::new();
                remote_ports.push(remote_net);
                assert(local_ports@ =~= seq![local_net]);
                assert(remote_ports@ =~= seq![remote_net]);
                let local = vlan_setup_request(self.local_agent, vlan_id, local_ports);
                let remote = vlan_setup_request(host.ip, vlan_id, remote_ports);
                let upstream = Endpoint { ip: IpAddress::V4(remote_net.addr), port: host.port };
                UpstreamStep::Provision(SegmentPlan { vlan_id, local, remote, upstream })
            },
        }
    }

    /// Records how the plan for `client_req` went: when both requests were
    /// sent, `upstream` is cached and returned; otherwise the resolution
    /// fails and the cache is as it was.
    pub fn finish_upstream(&mut self, client_req: &ClientRequest, upstream: Endpoint, sent: bool) -> (r:
        Result<Endpoint, ProvisionError>)
        requires
            old(self).wf(),
        ensures
            final(self).wf(),
            final(self).services() == old(self).services(),
            final(self).local_agent() == old(self).local_agent(),
            final(self).last_vlan() == old(self).last_vlan(),
            final(self).connections().is_single_flight() == old(self).connections().is_single_flight(),
            (final(self).connections().resolved(), final(self).connections().in_flight(), r)
                == complete_spec(
                old(self).connections().resolved(),
                old(self).connections().in_flight(),
                old(self).connections().is_single_flight(),
                client_req@,
                if sent {
                    Ok(upstream)
                } else {
                    Err(ProvisionError::Transport)
                },
            ),
    {
        let outcome = if sent {
            Ok(upstream)
        } else {
            Err(ProvisionError::Transport)
        };
        self.connections.complete(client_req, outcome)
    }
}

} // verus!
