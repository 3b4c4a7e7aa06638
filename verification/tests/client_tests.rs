use hbb_common::socket_client::{
    connect_plan, get_any_listen_addr, is_ipv4, new_udp_for_plan, new_udp_plan, pick_nat64_addr,
    probe_result, rebind_udp_needed, test_if_valid_server, test_if_valid_server_for_proxy_,
    ConnectPlan, IpRepr, NetConfig, NetworkType, ServerValidation, SockAddrRepr, SocketError,
    SocksConfig, TargetDesc, UdpBindPlan,
};

fn v4(a: u8, b: u8, c: u8, d: u8, port: u16) -> SockAddrRepr {
    SockAddrRepr {
        ip: IpRepr::V4(a, b, c, d),
        port,
    }
}

fn v6(bits: u128, port: u16) -> SockAddrRepr {
    SockAddrRepr {
        ip: IpRepr::V6(bits),
        port,
    }
}

fn socks_config() -> NetConfig {
    NetConfig {
        socks: Some(SocksConfig {
            proxy: "127.0.0.1:1080".to_owned(),
            username: "user".to_owned(),
            password: "pass".to_owned(),
        }),
    }
}

#[test]
fn network_type_follows_socks_presence() {
    assert_eq!(socks_config().get_network_type(), NetworkType::ProxySocks);
    assert_eq!(
        NetConfig { socks: None }.get_network_type(),
        NetworkType::Direct
    );
}

#[test]
fn proxy_short_circuits_nat64() {
    // Even with a resolved IPv4 target and an IPv6 local bind — the one
    // situation that otherwise triggers NAT64 synthesis — a configured
    // SOCKS proxy decides the plan, and no synthesis name is built.
    let target = TargetDesc::Resolved(v4(10, 0, 0, 1, 21116));
    let local = Some(v6(1, 0));
    match connect_plan(socks_config(), &target, local) {
        ConnectPlan::ViaProxy(c) => assert_eq!(c.proxy, "127.0.0.1:1080"),
        ConnectPlan::Nat64 { .. } => panic!("NAT64 synthesis through a proxy"),
        ConnectPlan::Direct => panic!("proxy ignored"),
    }
}

#[test]
fn nat64_applies_for_v6_local_v4_target() {
    let target = TargetDesc::Resolved(v4(10, 0, 0, 1, 21116));
    let local = Some(v6(1, 0));
    match connect_plan(NetConfig { socks: None }, &target, local) {
        ConnectPlan::Nat64 { query_host, local } => {
            assert_eq!(query_host, "10.0.0.1.nip.io:21116");
            assert_eq!(local, v6(1, 0));
        }
        _ => panic!("expected NAT64 synthesis"),
    }
}

#[test]
fn direct_without_proxy_or_family_mismatch() {
    let cfg = NetConfig { socks: None };
    let t1 = TargetDesc::Resolved(v4(10, 0, 0, 1, 1));
    assert!(matches!(
        connect_plan(cfg.clone(), &t1, None),
        ConnectPlan::Direct
    ));
    assert!(matches!(
        connect_plan(cfg.clone(), &t1, Some(v4(0, 0, 0, 0, 0))),
        ConnectPlan::Direct
    ));
    let t2 = TargetDesc::Unresolved("example.com:80".to_owned());
    assert!(matches!(
        connect_plan(cfg.clone(), &t2, Some(v6(1, 0))),
        ConnectPlan::Direct
    ));
    let t3 = TargetDesc::Resolved(v6(2, 3));
    assert!(matches!(
        connect_plan(cfg, &t3, Some(v6(1, 0))),
        ConnectPlan::Direct
    ));
}

#[test]
fn pick_nat64_addr_takes_first_ipv6() {
    let addrs = vec![v4(1, 2, 3, 4, 5), v6(10, 6), v6(11, 7)];
    assert_eq!(pick_nat64_addr(&addrs), Ok(v6(10, 6)));
    let none = vec![v4(1, 2, 3, 4, 5)];
    assert_eq!(pick_nat64_addr(&none), Err(SocketError::NoIpv6Found));
    assert_eq!(pick_nat64_addr(&vec![]), Err(SocketError::NoIpv6Found));
}

#[test]
fn probe_fallback_chain() {
    let probed = v4(9, 9, 9, 9, 1);
    let resolved = vec![v6(4, 2), v4(8, 8, 8, 8, 3)];
    assert_eq!(probe_result(Some(probed), &resolved), Ok(probed));
    assert_eq!(probe_result(None, &resolved), Ok(v6(4, 2)));
    assert_eq!(
        probe_result(None, &vec![]),
        Err(SocketError::NoAddressFound)
    );
}

#[test]
fn udp_family_matches_probed_peer() {
    // A peer reachable only over IPv4 probes to a V4 address, so the
    // local bind is the V4 wildcard even though a V6 one exists too.
    let (ipv4, target) = new_udp_for_plan(
        NetworkType::Direct,
        "peer.example:21116",
        Some(v4(10, 1, 2, 3, 21116)),
    );
    assert!(ipv4);
    assert!(matches!(target, TargetDesc::Resolved(a) if a == v4(10, 1, 2, 3, 21116)));
    match new_udp_plan(NetConfig { socks: None }, ipv4) {
        UdpBindPlan::Plain(l) => assert_eq!(l, v4(0, 0, 0, 0, 0)),
        _ => panic!("no proxy configured"),
    }
}

#[test]
fn udp_family_v6_peer() {
    let (ipv4, _) = new_udp_for_plan(NetworkType::Direct, "x", Some(v6(77, 21116)));
    assert!(!ipv4);
    match new_udp_plan(NetConfig { socks: None }, ipv4) {
        UdpBindPlan::Plain(l) => assert_eq!(l, v6(0, 0)),
        _ => panic!("no proxy configured"),
    }
}

#[test]
fn udp_proxied_assumes_ipv4_and_unresolved_target() {
    let (ipv4, target) =
        new_udp_for_plan(NetworkType::ProxySocks, "peer.example:21116", None);
    assert!(ipv4);
    assert!(matches!(target, TargetDesc::Unresolved(s) if s == "peer.example:21116"));
    match new_udp_plan(socks_config(), ipv4) {
        UdpBindPlan::ViaProxy(c, l) => {
            assert_eq!(c.username, "user");
            assert_eq!(l, v4(0, 0, 0, 0, 0));
        }
        _ => panic!("proxy configured"),
    }
}

#[test]
fn rebind_only_when_direct() {
    assert!(rebind_udp_needed(NetworkType::Direct));
    assert!(!rebind_udp_needed(NetworkType::ProxySocks));
}

#[test]
fn any_listen_addr_families() {
    assert_eq!(get_any_listen_addr(true), v4(0, 0, 0, 0, 0));
    assert_eq!(get_any_listen_addr(false), v6(0, 0));
}

#[test]
fn target_desc_capability_query() {
    let a = v4(1, 2, 3, 4, 5);
    let t = TargetDesc::Resolved(a);
    assert_eq!(t.resolve(), Some(&a));
    assert!(is_ipv4(&t));
    let u = TargetDesc::Unresolved("h:1".to_owned());
    assert_eq!(u.resolve(), None);
    assert!(is_ipv4(&u));
    assert!(!is_ipv4(&TargetDesc::Resolved(v6(1, 2))));
}

#[test]
fn proxy_target_validation() {
    // A well-formed host:port parses; the validator reports no reason.
    assert_eq!(test_if_valid_server_for_proxy_("example.com:80"), "");
    assert_eq!(test_if_valid_server_for_proxy_("1.2.3.4:21116"), "");
    // Without a port the parse fails and the reason is non-empty.
    assert!(!test_if_valid_server_for_proxy_("example.com").is_empty());
    assert!(!test_if_valid_server_for_proxy_("host:notaport").is_empty());
}

#[test]
fn server_validation_paths() {
    match test_if_valid_server("example.com", true, NetworkType::ProxySocks) {
        ServerValidation::Checked(msg) => assert_eq!(msg, ""),
        _ => panic!("proxy validation is offline"),
    }
    match test_if_valid_server("example.com", false, NetworkType::ProxySocks) {
        ServerValidation::NeedResolve(h) => assert_eq!(h, "example.com:0"),
        _ => panic!("resolution required"),
    }
    match test_if_valid_server("::1", true, NetworkType::Direct) {
        ServerValidation::NeedResolve(h) => assert_eq!(h, "[::1]:0"),
        _ => panic!("resolution required"),
    }
}
