use vstd::prelude::*;

verus! {

/// An IP address held as plain integers (big-endian octet order).
#[derive(PartialEq, Eq, Structural, Clone, Copy, Debug, Hash)]
pub enum IpAddress {
    V4(u32),
    V6(u128),
}

/// Where the proxy engine forwards traffic: an address and a port.
#[derive(PartialEq, Eq, Structural, Clone, Copy, Debug, Hash)]
pub struct Endpoint {
    pub ip: IpAddress,
    pub port: u16,
}

impl Endpoint {
    pub fn new(ip: IpAddress, port: u16) -> (r: Endpoint)
        ensures
            r.ip == ip,
            r.port == port,
    {
        Endpoint { ip, port }
    }
}

/// The name of a requested service (a host name, a path or an opaque label).
#[derive(Debug, Hash)]
pub struct Service(String);

impl Service {
    pub fn new(name: String) -> (r: Service)
        ensures
            r@ == name@,
    {
        Service(name)
    }

    pub fn name(&self) -> (r: &str)
        ensures
            r@ == self@,
    {
        self.0.as_str()
    }

    pub fn same_as(&self, other: &Service) -> (r: bool)
        ensures
            r == (self@ == other@),
    {
        self.0 == other.0
    }

    pub fn duplicate(&self) -> (r: Service)
        ensures
            r@ == self@,
    {
        Service(self.0.clone())
    }
}

impl View for Service {
    type V = Seq<char>;

    closed spec fn view(&self) -> Seq<char> {
        self.0@
    }
}

/// What a request identity means: the client address and the service name.
pub type RequestKey = (IpAddress, Seq<char>);

/// The identity of an inbound request: who asks, and for which service.
#[derive(Debug, Hash)]
pub struct ClientRequest {
    pub client_ip: IpAddress,
    pub service: Service,
}

impl View for ClientRequest {
    type V = RequestKey;

    open spec fn view(&self) -> RequestKey {
        (self.client_ip, self.service@)
    }
}

impl ClientRequest {
    pub fn new(client_ip: IpAddress, service: Service) -> (r: ClientRequest)
        ensures
            r@ == (client_ip, service@),
    {
        ClientRequest { client_ip, service }
    }

    /// Structural equality over both fields.
    pub fn same_as(&self, other: &ClientRequest) -> (r: bool)
        ensures
            r == (self@ == other@),
    {
        self.client_ip == other.client_ip && self.service.same_as(&other.service)
    }

    pub fn duplicate(&self) -> (r: ClientRequest)
        ensures
            r@ == self@,
    {
        ClientRequest { client_ip: self.client_ip, service: self.service.duplicate() }
    }
}

} // verus!
