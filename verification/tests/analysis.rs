use shell_mon::analysis::{zone, Zone};

#[test]
fn zonas_basicas() {
    assert_eq!(zone("127.0.0.1"), Zone::Loopback);
    assert_eq!(zone("::1"), Zone::Loopback);
    assert_eq!(zone("0.0.0.0"), Zone::Any);
    assert_eq!(zone("*"), Zone::Any);
    assert_eq!(zone("192.168.15.126"), Zone::Lan);
    assert_eq!(zone("10.0.0.5"), Zone::Lan);
    assert_eq!(zone("172.16.0.1"), Zone::Lan);
    assert_eq!(zone("172.32.0.1"), Zone::Public);
    assert_eq!(zone("100.124.145.122"), Zone::Lan); // tailscale/CGNAT
    assert_eq!(zone("8.8.8.8"), Zone::Public);
    assert_eq!(zone("142.250.79.206"), Zone::Public);
}

#[test]
fn zonas_com_interface() {
    assert_eq!(zone("192.168.15.126%enp2s0"), Zone::Lan);
    assert_eq!(zone("fe80::1%wlan0"), Zone::LinkLocal);
}

#[test]
fn zonas_ipv6() {
    assert_eq!(zone("fd7a:115c:a1e0::1"), Zone::Lan);
    assert_eq!(zone("2606:4700:4700::1111"), Zone::Public);
}

use shell_mon::analysis::{browser_ancestor, parse_proc_stat, Ancestry};

#[test]
fn proc_stat_and_walk() {
    let st = parse_proc_stat("1234 (Web Content (x)) S 1200 1234 1200 0 -1").unwrap();
    assert_eq!(st.0, "Web Content (x)");
    assert_eq!(st.1, 1200);
    assert!(parse_proc_stat("garbage").is_none());
    let mut w = Ancestry::new(1234);
    assert_eq!(w.next_pid(), Some(1234));
    w.feed(Some(("Web Content".to_string(), 1200)));
    assert_eq!(w.next_pid(), Some(1200));
    w.feed(Some(("firefox".to_string(), 1)));
    assert_eq!(w.next_pid(), Some(1));
    w.feed(Some(("systemd".to_string(), 0)));
    assert_eq!(w.next_pid(), None);
    let chain = w.into_chain();
    assert_eq!(chain.len(), 3);
    assert_eq!(browser_ancestor(&chain), Some("firefox".to_string()));
    assert_eq!(browser_ancestor(&vec!["bash".to_string()]), None);
    assert_eq!(browser_ancestor(&vec!["Brave-Browser".to_string()]), Some("Brave-Browser".to_string()));
}

#[test]
fn walk_stops_when_unreadable_or_too_deep() {
    let mut w = Ancestry::new(5);
    w.feed(None);
    assert_eq!(w.next_pid(), None);
    let mut d = Ancestry::new(1000);
    let mut n = 0;
    while let Some(p) = d.next_pid() {
        d.feed(Some(("loop".to_string(), p + 1)));
        n += 1;
    }
    assert_eq!(n, 64);
}

#[test]
fn zone_labels_and_edges() {
    assert_eq!(Zone::Lan.label(), "rede local");
    assert_eq!(zone(""), Zone::Any);
    assert_eq!(zone("169.254.1.1"), Zone::LinkLocal);
    assert_eq!(zone("FE80::1"), Zone::LinkLocal);
    assert_eq!(zone("172.31.255.255"), Zone::Lan);
    assert_eq!(zone("100.63.0.1"), Zone::Public);
    assert_eq!(zone("localhost"), Zone::Public);
}

#[test]
fn interface_suffix_keeps_zone() {
    for a in ["8.8.8.8", "10.0.0.5", "127.0.0.1", "fe80::1", "fd00::2", "0.0.0.0"] {
        assert_eq!(zone(&format!("{a}%eth0")), zone(a));
    }
}

#[test]
fn link_local_covers_fe80_slash_10() {
    assert_eq!(zone("febf::1"), Zone::LinkLocal);
    assert_eq!(zone("fe90::1"), Zone::LinkLocal);
    assert_eq!(zone("FEA0::1"), Zone::LinkLocal);
    assert_eq!(zone("fec0::1"), Zone::Public);
    assert_eq!(zone("fe8::1"), Zone::Public);
    assert_eq!(zone("fc00::1"), Zone::Lan);
    assert_eq!(zone("fd::1"), Zone::Public);
}
