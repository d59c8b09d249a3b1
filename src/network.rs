use vstd::prelude::*;

verus! {

/// An IPv4 network in CIDR form: an address (big-endian) and a prefix length.
#[derive(PartialEq, Eq, Structural, Clone, Copy, Debug, Hash)]
pub struct Ipv4Cidr {
    pub addr: u32,
    pub prefix: u8,
}

/// Why a network could not be formed.
#[derive(PartialEq, Eq, Structural, Clone, Copy, Debug)]
pub enum NetworkError {
    /// The prefix is longer than 32 bits.
    InvalidPrefix,
}

/// The address `a.b.c.d` as an integer.
pub open spec fn v4(a: nat, b: nat, c: nat, d: nat) -> nat {
    a * 16777216 + b * 65536 + c * 256 + d
}

/// The decimal digits of `n`, in ASCII, without leading zeros.
pub open spec fn decimal(n: nat) -> Seq<u8>
    decreases n,
{
    if n < 10 {
        seq![(48 + n) as u8]
    } else {
        decimal(n / 10) + seq![(48 + n % 10) as u8]
    }
}

/// CIDR notation: the four octets in decimal separated by dots, a slash and
/// the prefix length in decimal (`10.0.101.1/24`).
pub open spec fn cidr_text(addr: u32, prefix: u8) -> Seq<u8> {
    let a = addr as nat;
    decimal(a / 16777216) + (seq![46u8] + (decimal((a / 65536) % 256) + (seq![46u8] + (decimal(
        (a / 256) % 256,
    ) + (seq![46u8] + (decimal(a % 256) + (seq![47u8] + decimal(prefix as nat))))))))
}

#[verifier::external_type_specification]
#[verifier::external_body]
pub struct ExIpNetworkError(ipnetwork::IpNetworkError);

/// Relies on `ipnetwork::Ipv4Network::new`: it accepts exactly the prefixes
/// of at most 32 bits and keeps the address and the prefix as given.
#[verifier::external_body]
fn checked_network(addr: u32, prefix: u8) -> (r: Result<Ipv4Cidr, ipnetwork::IpNetworkError>)
    ensures
        r is Ok <==> prefix <= 32,
        r matches Ok(n) ==> n.addr == addr && n.prefix == prefix,
{
    match ipnetwork::Ipv4Network::new(core::net::Ipv4Addr::from(addr), prefix) {
        Ok(net) => Ok(Ipv4Cidr { addr: u32::from(net.ip()), prefix: net.prefix() }),
        Err(e) => Err(e),
    }
}

/// Relies on `ipnetwork`'s `Display` for `Ipv4Network`, which writes the
/// address in dotted decimal, a slash and the prefix.
#[verifier::external_body]
fn network_text(n: &Ipv4Cidr) -> (r: Vec<u8>)
    requires
        n.prefix <= 32,
    ensures
        r@ == cidr_text(n.addr, n.prefix),
{
    match ipnetwork::Ipv4Network::new(core::net::Ipv4Addr::from(n.addr), n.prefix) {
        Ok(net) => net.to_string().into_bytes(),
        Err(_) => Vec::new(),
    }
}

impl Ipv4Cidr {
    pub open spec fn wf(&self) -> bool {
        self.prefix <= 32
    }

    /// The network of `addr` with a `prefix`-bit mask; fails when the prefix
    /// is longer than 32 bits.
    pub fn new(addr: u32, prefix: u8) -> (r: Result<Ipv4Cidr, NetworkError>)
        ensures
            r is Ok <==> prefix <= 32,
            r matches Ok(n) ==> n.addr == addr && n.prefix == prefix && n.wf(),
            r is Err ==> r == Err::<Ipv4Cidr, NetworkError>(NetworkError::InvalidPrefix),
    {
        match checked_network(addr, prefix) {
            Ok(n) => Ok(n),
            Err(_) => Err(NetworkError::InvalidPrefix),
        }
    }

    /// The network in CIDR notation, as ASCII bytes.
    pub fn to_text(&self) -> (r: Vec<u8>)
        requires
            self.wf(),
        ensures
            r@ == cidr_text(self.addr, self.prefix),
    {
        network_text(self)
    }
}

/// Appends the decimal digits of `n` to `out`.
pub fn push_decimal(out: &mut Vec<u8>, n: u64)
    ensures
        final(out)@ == old(out)@ + decimal(n as nat),
    decreases n,
{
    if n >= 10 {
        push_decimal(out, n / 10);
    }
    out.push((48 + n % 10) as u8);
    proof {
        if n < 10 {
            assert(n % 10 == n);
        }
    }
    assert(out@ =~= old(out)@ + decimal(n as nat));
}

} // verus!
