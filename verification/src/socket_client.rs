//! Connection-establishment decision logic: direct vs. SOCKS-proxied
//! vs. NAT64-assisted connections, address-family selection for UDP
//! binds, and offline proxy-target validation.
//!
//! Everything here is a pure decision on plain values; the caller
//! performs the actual socket I/O the decisions call for and hands the
//! outcomes (probe results, resolved address lists) back in.

use vstd::prelude::*;
use vstd::string::StringExecFns;
use tokio_socks::IntoTargetAddr;
use crate::addr::check_port;
use crate::addr::check_port_spec;
use crate::addr::dec_str;

verus! {

/// An IP address as plain values: a dotted quad, or the 128 bits of an
/// IPv6 address.
#[derive(Debug, Clone, Copy, PartialEq, Eq, Structural)]
pub enum IpRepr {
    V4(u8, u8, u8, u8),
    V6(u128),
}

/// A resolved socket address.
#[derive(Debug, Clone, Copy, PartialEq, Eq, Structural)]
pub struct SockAddrRepr {
    pub ip: IpRepr,
    pub port: u16,
}

impl SockAddrRepr {
    /// Is this an IPv4 address?
    pub fn is_ipv4(&self) -> (r: bool)
        ensures
            r == (self.ip is V4),
    {
        match self.ip {
            IpRepr::V4(_, _, _, _) => true,
            IpRepr::V6(_) => false,
        }
    }
}

/// How the peer is reached, per the process-wide configuration.
#[derive(Debug, Clone, Copy, PartialEq, Eq, Structural)]
pub enum NetworkType {
    Direct,
    ProxySocks,
}

/// SOCKS proxy credentials.
#[derive(Debug, Clone)]
pub struct SocksConfig {
    pub proxy: String,
    pub username: String,
    pub password: String,
}

/// A snapshot of the configuration this logic consults, passed
/// explicitly into every decision.
#[derive(Debug, Clone)]
pub struct NetConfig {
    pub socks: Option<SocksConfig>,
}

impl NetConfig {
    /// The network type the configuration implies: proxied exactly when
    /// SOCKS credentials are configured.
    pub fn get_network_type(&self) -> (r: NetworkType)
        ensures
            r is ProxySocks <==> self.socks is Some,
    {
        if self.socks.is_some() {
            NetworkType::ProxySocks
        } else {
            NetworkType::Direct
        }
    }
}

/// A connection target: an already-resolved socket address, or an
/// unresolved `host:port` string.
#[derive(Debug, Clone)]
pub enum TargetDesc {
    Resolved(SockAddrRepr),
    Unresolved(String),
}

impl TargetDesc {
    /// The capability query distinguishing the two forms without I/O.
    pub fn resolve(&self) -> (r: Option<&SockAddrRepr>)
        ensures
            match *self {
                TargetDesc::Resolved(a) => r matches Some(p) && *p == a,
                TargetDesc::Unresolved(_) => r is None,
            },
    {
        match self {
            TargetDesc::Resolved(a) => Some(a),
            TargetDesc::Unresolved(_) => None,
        }
    }
}

/// An unresolved target is assumed IPv4; a resolved one shows its
/// family.
pub fn is_ipv4(target: &TargetDesc) -> (r: bool)
    ensures
        r == match *target {
            TargetDesc::Resolved(a) => a.ip is V4,
            TargetDesc::Unresolved(_) => true,
        },
{
    match target {
        TargetDesc::Resolved(a) => a.is_ipv4(),
        TargetDesc::Unresolved(_) => true,
    }
}

/// Errors of the decision logic.
#[derive(Debug, Clone, Copy, PartialEq, Eq, Structural)]
pub enum SocketError {
    /// Neither the probe nor resolution produced an address.
    NoAddressFound,
    /// NAT64 synthesis resolved to no IPv6 address.
    NoIpv6Found,
}

/// The NAT64 synthesis query name for a resolved IPv4 peer:
/// `a.b.c.d.nip.io:port`.
pub open spec fn nat64_query_spec(a: SockAddrRepr) -> Seq<char> {
    match a.ip {
        IpRepr::V4(x0, x1, x2, x3) => dec_str(x0 as nat) + seq!['.'] + dec_str(x1 as nat)
            + seq!['.'] + dec_str(x2 as nat) + seq!['.'] + dec_str(x3 as nat) + seq![
            '.',
            'n',
            'i',
            'p',
            '.',
            'i',
            'o',
            ':',
        ] + dec_str(a.port as nat),
        IpRepr::V6(_) => Seq::empty(),
    }
}

/// Build the NAT64 synthesis query name for an IPv4 peer.
pub fn nat64_query_host(a: &SockAddrRepr) -> (r: String)
    requires
        a.ip is V4,
    ensures
        r@ == nat64_query_spec(*a),
{
    let mut out = String::new();
    match a.ip {
        IpRepr::V4(x0, x1, x2, x3) => {
            crate::addr::push_u64_dec(x0 as u64, &mut out);
            out.append(".");
            crate::addr::push_u64_dec(x1 as u64, &mut out);
            out.append(".");
            crate::addr::push_u64_dec(x2 as u64, &mut out);
            out.append(".");
            crate::addr::push_u64_dec(x3 as u64, &mut out);
            out.append(".nip.io:");
            crate::addr::push_u64_dec(a.port as u64, &mut out);
        },
        IpRepr::V6(_) => {
        },
    }
    proof {
        reveal_strlit(".");
        reveal_strlit(".nip.io:");
        assert(out@ =~= nat64_query_spec(*a));
    }
    out
}

/// The decision taken before any socket is opened.
#[derive(Debug, Clone)]
pub enum ConnectPlan {
    /// Hand the whole connection to the SOCKS collaborator; it resolves
    /// the target itself.
    ViaProxy(SocksConfig),
    /// Resolve `query_host`, pick the first IPv6 result
    /// (`pick_nat64_addr`), and connect to it from `local`.
    Nat64 { query_host: String, local: SockAddrRepr },
    /// Connect directly to the target with the optional local bind.
    Direct,
}

/// Decide how to establish a stream to `target`.  A configured SOCKS
/// proxy short-circuits everything else — in particular, NAT64
/// synthesis never happens through a proxy.  Without a proxy, NAT64
/// synthesis is used exactly when the target is already resolved to an
/// IPv4 address while the requested local bind is IPv6; otherwise the
/// connection is direct.
pub fn connect_plan(config: NetConfig, target: &TargetDesc, local: Option<SockAddrRepr>) -> (r:
    ConnectPlan)
    ensures
        ({
            match config.socks {
                Some(c) => r matches ConnectPlan::ViaProxy(c2) && c2 == c,
                None => match (*target, local) {
                    (TargetDesc::Resolved(a), Some(l)) => if l.ip is V6 && a.ip is V4 {
                        r matches ConnectPlan::Nat64 { query_host, local: l2 } && l2 == l
                            && query_host@ == nat64_query_spec(a)
                    } else {
                        r is Direct
                    },
                    _ => r is Direct,
                },
            }
        }),
{
    match config.socks {
        Some(conf) => ConnectPlan::ViaProxy(conf),
        None => {
            if let TargetDesc::Resolved(a) = target {
                if let Some(l) = local {
                    let v6_local = !l.is_ipv4();
                    if v6_local && a.is_ipv4() {
                        let q = nat64_query_host(a);
                        return ConnectPlan::Nat64 { query_host: q, local: l };
                    }
                }
            }
            ConnectPlan::Direct
        },
    }
}

/// The first IPv6 address of a resolved list, in resolution order.
pub open spec fn first_v6(s: Seq<SockAddrRepr>) -> Option<SockAddrRepr>
    decreases s.len(),
{
    if s.len() == 0 {
        None
    } else if s[0].ip is V6 {
        Some(s[0])
    } else {
        first_v6(s.skip(1))
    }
}

/// Select the NAT64 result: the first IPv6 address the synthesis name
/// resolved to, or the error when there is none.
pub fn pick_nat64_addr(addrs: &Vec<SockAddrRepr>) -> (r: Result<SockAddrRepr, SocketError>)
    ensures
        first_v6(addrs@) matches Some(a) ==> r == Ok::<SockAddrRepr, SocketError>(a),
        first_v6(addrs@) is None ==> r == Err::<SockAddrRepr, SocketError>(
            SocketError::NoIpv6Found,
        ),
{
    let n = addrs.len();
    let mut i: usize = 0;
    proof {
        assert(addrs@.skip(0) =~= addrs@);
    }
    loop
        invariant
            0 <= i <= n == addrs@.len(),
            first_v6(addrs@) == first_v6(addrs@.skip(i as int)),
        decreases n - i,
    {
        if i == n {
            return Err(SocketError::NoIpv6Found);
        }
        let a = addrs[i];
        proof {
            assert(addrs@.skip(i as int)[0] == addrs@[i as int]);
            assert(addrs@.skip(i as int).skip(1) =~= addrs@.skip(i as int + 1));
        }
        if let IpRepr::V6(_) = a.ip {
            return Ok(a);
        }
        i = i + 1;
    }
}

/// The probe-then-resolve fallback chain: take the probed peer address
/// when the probe succeeded, else the first resolved address, else
/// report that no address was found.
pub fn probe_result(peer: Option<SockAddrRepr>, resolved: &Vec<SockAddrRepr>) -> (r: Result<
    SockAddrRepr,
    SocketError,
>)
    ensures
        peer matches Some(a) ==> r == Ok::<SockAddrRepr, SocketError>(a),
        peer is None && resolved@.len() > 0 ==> r == Ok::<SockAddrRepr, SocketError>(resolved@[0]),
        peer is None && resolved@.len() == 0 ==> r == Err::<SockAddrRepr, SocketError>(
            SocketError::NoAddressFound,
        ),
{
    match peer {
        Some(a) => Ok(a),
        None => {
            if resolved.len() > 0 {
                Ok(resolved[0])
            } else {
                Err(SocketError::NoAddressFound)
            }
        },
    }
}

/// The wildcard local bind address of the requested family, port 0.
pub open spec fn any_listen_spec(ipv4: bool) -> SockAddrRepr {
    if ipv4 {
        (SockAddrRepr { ip: IpRepr::V4(0, 0, 0, 0), port: 0 })
    } else {
        (SockAddrRepr { ip: IpRepr::V6(0), port: 0 })
    }
}

/// The wildcard local bind address of the requested family, port 0.
pub fn get_any_listen_addr(ipv4: bool) -> (r: SockAddrRepr)
    ensures
        r == any_listen_spec(ipv4),
{
    if ipv4 {
        SockAddrRepr { ip: IpRepr::V4(0, 0, 0, 0), port: 0 }
    } else {
        SockAddrRepr { ip: IpRepr::V6(0), port: 0 }
    }
}

/// Target and local address family for a new UDP socket.  Direct
/// network type: the probed peer address decides the family, so the
/// local bind matches the peer.  Proxied: the proxy is the last hop, so
/// IPv4 is assumed and the target stays unresolved for the proxy to
/// resolve.  The caller probes first when the network type is direct
/// and hands the result in.
pub fn new_udp_for_plan(network: NetworkType, target: &str, probed: Option<SockAddrRepr>) -> (r: (
    bool,
    TargetDesc,
))
    requires
        network is Direct ==> probed is Some,
    ensures
        ({
            match network {
                NetworkType::Direct => match probed {
                    Some(a) => r.0 == (a.ip is V4) && r.1 == TargetDesc::Resolved(a),
                    None => true,
                },
                NetworkType::ProxySocks => r.0 == true && match r.1 {
                    TargetDesc::Unresolved(t) => t@ == target@,
                    _ => false,
                },
            }
        }),
{
    match network {
        NetworkType::Direct => {
            let a = probed.unwrap();
            (a.is_ipv4(), TargetDesc::Resolved(a))
        },
        NetworkType::ProxySocks => (true, TargetDesc::Unresolved(target.to_owned())),
    }
}

/// How to bind the local UDP socket the plan calls for.
#[derive(Debug, Clone)]
pub enum UdpBindPlan {
    /// Bind a plain local UDP socket on this address.
    Plain(SockAddrRepr),
    /// Bind through the SOCKS proxy with these credentials, from this
    /// local address.
    ViaProxy(SocksConfig, SockAddrRepr),
}

/// Decide how to bind the UDP socket: through the proxy exactly when
/// one is configured, always on the wildcard address whose family
/// matched the peer (`ipv4`).
pub fn new_udp_plan(config: NetConfig, ipv4: bool) -> (r: UdpBindPlan)
    ensures
        ({
            match config.socks {
                None => r matches UdpBindPlan::Plain(l) && l == any_listen_spec(ipv4),
                Some(c) => r matches UdpBindPlan::ViaProxy(c2, l) && c2 == c && l
                    == any_listen_spec(ipv4),
            }
        }),
{
    let local = get_any_listen_addr(ipv4);
    match config.socks {
        None => UdpBindPlan::Plain(local),
        Some(conf) => UdpBindPlan::ViaProxy(conf, local),
    }
}

/// Address-family rebinding is only ever needed on a direct
/// connection; a proxy is the last hop and never requires it.
pub fn rebind_udp_needed(network: NetworkType) -> (r: bool)
    ensures
        r <==> network is Direct,
{
    match network {
        NetworkType::Direct => true,
        NetworkType::ProxySocks => false,
    }
}

/// What tokio_socks's target-address parse does to a host string:
/// `None` when the string parses as a proxy target, otherwise the text
/// of the parse error.
pub uninterp spec fn proxy_target_check(s: Seq<char>) -> Option<Seq<char>>;

/// Relies on tokio_socks's `IntoTargetAddr` impl for `&str`: it parses
/// the string as a socket address or `host:port` pair, succeeding or
/// failing (with a fixed error text) as a function of the string alone.
#[verifier::external_body]
fn proxy_target_error(host: &str) -> (r: Option<String>)
    ensures
        match r {
            None => proxy_target_check(host@) is None,
            Some(e) => proxy_target_check(host@) matches Some(t) && e@ == t,
        },
{
    match host.into_target_addr() {
        Ok(_) => None,
        Err(e) => Some(e.to_string()),
    }
}

/// Offline proxy-target validation: the empty string when `host`
/// parses as a proxy target address, otherwise the parser's reason.
/// No network I/O takes place.
pub fn test_if_valid_server_for_proxy_(host: &str) -> (r: String)
    ensures
        proxy_target_check(host@) is None ==> r@ == Seq::<char>::empty(),
        proxy_target_check(host@) matches Some(t) ==> r@ == t,
{
    match proxy_target_error(host) {
        None => String::new(),
        Some(e) => e,
    }
}

/// The outcome of pre-flight server validation.
#[derive(Debug, Clone)]
pub enum ServerValidation {
    /// Validation finished offline; the message is empty on success.
    Checked(String),
    /// The host must be resolved to finish validating; the caller
    /// reports the resolver's error text, or an empty string.
    NeedResolve(String),
}

/// Validate a server string before connecting.  With a proxied network
/// type and `test_with_proxy`, only offline proxy-target parsing of
/// the normalized host is needed; otherwise the normalized host must
/// be resolved by the caller.
pub fn test_if_valid_server(host: &str, test_with_proxy: bool, network: NetworkType) -> (r:
    ServerValidation)
    ensures
        ({
            let h = check_port_spec(host@, 0);
            if test_with_proxy && network is ProxySocks {
                r matches ServerValidation::Checked(msg) && (proxy_target_check(h) is None
                    ==> msg@ == Seq::<char>::empty()) && (proxy_target_check(h) matches Some(t)
                    ==> msg@ == t)
            } else {
                r matches ServerValidation::NeedResolve(h2) && h2@ == h
            }
        }),
{
    let h = check_port(host, 0);
    if test_with_proxy {
        if let NetworkType::ProxySocks = network {
            return ServerValidation::Checked(test_if_valid_server_for_proxy_(h.as_str()));
        }
    }
    ServerValidation::NeedResolve(h)
}

} // verus!
