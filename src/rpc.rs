use vstd::prelude::*;
use crate::cache::ProvisionError;
use crate::identity::{Endpoint, IpAddress};
use crate::network::decimal;

verus! {

/// The address that `text` denotes in the standard textual forms of IPv4
/// and IPv6 addresses, if it denotes one.
pub uninterp spec fn ip_from_text(s: Seq<char>) -> Option<IpAddress>;

/// Relies on `core::net::IpAddr`'s `FromStr`: whether and to what the text
/// parses depends on the text alone.
#[verifier::external_body]
fn parse_ip(text: &str) -> (r: Option<IpAddress>)
    ensures
        r == ip_from_text(text@),
{
    match text.parse::<core::net::IpAddr>() {
        Ok(core::net::IpAddr::V4(a)) => Some(IpAddress::V4(u32::from(a))),
        Ok(core::net::IpAddr::V6(a)) => Some(IpAddress::V6(u128::from(a))),
        Err(_) => None,
    }
}

/// The endpoint that a control-plane reply assigns: the parsed address and
/// the port, which must fit in 16 bits.
pub open spec fn reply_spec(ip: Option<IpAddress>, port: u32) -> Result<Endpoint, ProvisionError> {
    match ip {
        None => Err(ProvisionError::Parse),
        Some(a) => if port <= u16::MAX {
            Ok(Endpoint { ip: a, port: port as u16 })
        } else {
            Err(ProvisionError::Parse)
        },
    }
}

/// The endpoint of a reply whose address is already parsed (`None` when
/// it did not parse).
pub fn endpoint_from_reply(ip: Option<IpAddress>, port: u32) -> (r: Result<Endpoint, ProvisionError>)
    ensures
        r == reply_spec(ip, port),
{
    match ip {
        None => Err(ProvisionError::Parse),
        Some(a) => if port <= 65535 {
            Ok(Endpoint { ip: a, port: port as u16 })
        } else {
            Err(ProvisionError::Parse)
        },
    }
}

/// The endpoint of a control-plane reply given as address text and port.
pub fn endpoint_from_response(ip_text: &str, port: u32) -> (r: Result<Endpoint, ProvisionError>)
    ensures
        r == reply_spec(ip_from_text(ip_text@), port),
{
    let ip = parse_ip(ip_text);
    endpoint_from_reply(ip, port)
}

/// `:` followed by the decimal digits of `port`.
pub open spec fn port_suffix(port: u16) -> Seq<char> {
    seq![':'] + decimal(port as nat).map_values(|b: u8| b as char)
}

/// The service named by a `Host` header that addresses the proxy on
/// `proxy_port`: the header without its `:<port>` suffix, or `None` when it
/// does not end with that suffix.
pub open spec fn service_from_host_spec(host: Seq<char>, proxy_port: u16) -> Option<Seq<char>> {
    let sfx = port_suffix(proxy_port);
    if sfx.len() <= host.len() && host.subrange(host.len() - sfx.len(), host.len() as int) == sfx {
        Some(host.subrange(0, host.len() - sfx.len()))
    } else {
        None
    }
}

pub fn service_from_host(host: &str, proxy_port: u16) -> (r: Option<String>)
    ensures
        r matches Some(s) ==> service_from_host_spec(host@, proxy_port) == Some(s@),
        r is None ==> service_from_host_spec(host@, proxy_port) is None,
{
    let mut digits: Vec<u8> = Vec::new();
    crate::network::push_decimal(&mut digits, proxy_port as u64);
    let ghost sfx = port_suffix(proxy_port);
    assert(digits@ == decimal(proxy_port as nat));
    let n = host.unicode_len();
    if digits.len() >= n {
        return None;
    }
    let sl = digits.len() + 1;
    let cut = n - sl;
    assert(sfx.len() == sl);
    if host.get_char(cut) != ':' {
        proof {
            assert(host@.subrange(cut as int, n as int)[0] != sfx[0]);
        }
        return None;
    }
    let mut j: usize = 0;
    while j < digits.len()
        invariant
            sfx == port_suffix(proxy_port),
            sfx.len() == sl,
            n == host@.len(),
            sl == digits@.len() + 1,
            cut + sl == n,
            digits@ == decimal(proxy_port as nat),
            j <= digits@.len(),
            host@[cut as int] == ':',
            forall|m: int| 0 <= m < j ==> host@[cut + 1 + m] == (digits@[m] as char),
        decreases digits@.len() - j,
    {
        if host.get_char(cut + 1 + j) != (digits[j] as char) {
            proof {
                assert(sfx[j + 1] == (digits@[j as int] as char));
                assert(host@.subrange(cut as int, n as int)[j + 1] != sfx[j + 1]);
            }
            return None;
        }
        j += 1;
    }
    assert forall|m: int| 0 <= m < sl implies host@.subrange(cut as int, n as int)[m] == sfx[m] by {
        if m > 0 {
            assert(host@[cut + 1 + (m - 1)] == (digits@[m - 1] as char));
        }
    }
    assert(host@.subrange(cut as int, n as int) =~= sfx);
    let name = host.substring_char(0, cut);
    Some(String::from_str(name))
}

} // verus!
