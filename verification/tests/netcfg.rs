use shell_mon::netcfg::{classify_dns, looks_like_ip, target_denies, DnsClass};

#[test]
fn classifica_dns() {
    assert_eq!(classify_dns("9.9.9.9"), DnsClass::Known);
    assert_eq!(classify_dns("1.1.1.1"), DnsClass::Known);
    assert_eq!(classify_dns("192.168.15.1"), DnsClass::Local);
    assert_eq!(classify_dns("1.1.4.4"), DnsClass::UnknownPublic); // o achado real
    assert_eq!(classify_dns("8.8.8.8"), DnsClass::Known);
    assert_eq!(classify_dns("45.90.28.0"), DnsClass::UnknownPublic);
}

#[test]
fn ip_parsing() {
    assert!(looks_like_ip("1.1.4.4"));
    assert!(looks_like_ip("2606:4700:4700::1111"));
    assert!(!looks_like_ip("dns.quad9.net"));
    assert!(!looks_like_ip(""));
}

#[test]
fn firewall_target_bloqueia() {
    assert!(target_denies("DROP"));
    assert!(target_denies("REJECT"));
    assert!(target_denies("default")); // firewalld rejeita não-solicitado
    assert!(!target_denies("ACCEPT"));
}

use shell_mon::netcfg::{
    dns_servers, gateways, neighbors, zone_target, Firewall, FirewallProbe, NetAudit, trimmed,
};

#[test]
fn gateways_of_ip_route() {
    let out = "default via 192.168.15.1 dev enp2s0 proto dhcp metric 100\n\
               192.168.15.0/24 dev enp2s0 proto kernel scope link\n\
               default via 10.0.0.1\n\
               default dev wg0\n";
    assert_eq!(gateways(out), vec!["192.168.15.1 (dev enp2s0)".to_string(), "10.0.0.1".to_string()]);
}

#[test]
fn dns_from_resolvectl_then_resolv_conf() {
    let rv = "Global\n       Protocols: +LLMNR\nCurrent DNS Server: 9.9.9.9#dns.quad9.net\n       DNS Servers: 9.9.9.9#dns.quad9.net 1.1.4.4\n";
    let d = dns_servers(Some(rv), Some("nameserver 8.8.8.8\n"));
    assert_eq!(d.len(), 2);
    assert_eq!(d[0].0, "9.9.9.9");
    assert_eq!(d[0].1, DnsClass::Known);
    assert_eq!(d[1].0, "1.1.4.4");
    assert_eq!(d[1].1, DnsClass::UnknownPublic);
    let d = dns_servers(None, Some("# x\nnameserver 192.168.15.1\nnameserver dns.local\n"));
    assert_eq!(d.len(), 1);
    assert_eq!(d[0].1, DnsClass::Local);
    assert!(dns_servers(None, None).is_empty());
}

#[test]
fn neighbours_of_ip_neigh() {
    let out = "192.168.15.1 dev enp2s0 lladdr aa:bb:cc:dd:ee:ff REACHABLE\n\
               192.168.15.9 dev enp2s0 FAILED\n\
               192.168.15.7 dev enp2s0 STALE\n";
    let n = neighbors(out);
    assert_eq!(n.len(), 2);
    assert_eq!(n[0], ("192.168.15.1".to_string(), "aa:bb:cc:dd:ee:ff".to_string(), "REACHABLE".to_string()));
    assert_eq!(n[1].1, "?");
}

#[test]
fn audit_warns_unknown_dns() {
    let a = NetAudit::collect(None, None, Some("nameserver 1.1.4.4\n"), None);
    let w = a.warnings();
    assert_eq!(w.len(), 1);
    assert_eq!(w[0], "DNS não reconhecido 1.1.4.4 em uso — possivelmente entregue pelo roteador via DHCP; verifique o roteador");
}

#[test]
fn firewall_detection_and_warnings() {
    let listing = "public (active)\n  target: ACCEPT\n  icmp-block-inversion: no\n";
    assert_eq!(zone_target(listing), Some("ACCEPT".to_string()));
    assert_eq!(trimmed(" public\n"), "public");
    let p = FirewallProbe {
        state: Some("running\n".into()),
        default_zone: Some("public\n".into()),
        zone_listing: Some(listing.into()),
        ufw: None,
        nftables: None,
        iptables: None,
        has_firewall_cmd: true,
        has_ufw: false,
    };
    let f = Firewall::detect(&p);
    assert_eq!(f.backend, "firewalld");
    assert!(f.active);
    assert_eq!(f.default_zone.as_deref(), Some("public"));
    assert_eq!(f.deny_incoming(), Some(false));
    assert_eq!(f.warnings(), vec!["Firewall: zona 'public' aceita entrada (ACCEPT) — máquina exposta na rede".to_string()]);
    let q = FirewallProbe {
        state: None,
        default_zone: None,
        zone_listing: None,
        ufw: Some("inactive\n".into()),
        nftables: Some("active\n".into()),
        iptables: None,
        has_firewall_cmd: false,
        has_ufw: true,
    };
    let g = Firewall::detect(&q);
    assert_eq!(g.backend, "nftables");
    assert!(g.warnings().is_empty());
    let r = FirewallProbe { nftables: None, ..q };
    let h = Firewall::detect(&r);
    assert_eq!(h.backend, "ufw (parado)");
    assert!(!h.active);
    assert_eq!(h.warnings(), vec!["Firewall inativo — entrada da rede não está sendo filtrada".to_string()]);
}
