use shell_mon::triage::{classify, count_via_browser, label, public_ips};
use shell_mon::socket::Socket;

fn sock(state: &str, netid: &str, la: &str, lp: &str, pa: &str, pp: &str) -> Socket {
    Socket {
        netid: netid.into(),
        state: state.into(),
        recv_q: 0,
        send_q: 0,
        local_addr: la.into(),
        local_port: lp.into(),
        peer_addr: pa.into(),
        peer_port: pp.into(),
        process: String::new(),
        pid: None,
    }
}

#[test]
fn triage_sorts_the_listing() {
    let socks = vec![
        sock("LISTEN", "tcp", "0.0.0.0", "22", "0.0.0.0", "*"),
        sock("LISTEN", "tcp", "127.0.0.1", "631", "0.0.0.0", "*"),
        sock("ESTAB", "tcp", "192.168.0.10", "22", "192.168.0.5", "51234"),
        sock("ESTAB", "tcp", "192.168.0.10", "55000", "8.8.8.8", "443"),
        sock("ESTAB", "tcp", "192.168.0.10", "55001", "192.168.0.1", "80"),
        sock("ESTAB", "tcp", "192.168.0.10", "55002", "1.1.1.1", "443"),
        sock("ESTAB", "tcp", "192.168.0.10", "55003", "8.8.8.8", "443"),
        sock("LISTEN", "u_str", "@x", "1", "*", "0"),
    ];
    let t = classify(&socks);
    assert_eq!(t.exposed, vec![0]);
    assert_eq!(t.inbound_lan, vec![2]);
    assert_eq!(t.out_public, vec![3, 5, 6]);
    assert_eq!(t.out_lan, vec![4]);
    assert_eq!(public_ips(&socks, &t.out_public), vec!["1.1.1.1".to_string(), "8.8.8.8".to_string()]);
    let mut b = socks[3].clone();
    b.pid = Some(9);
    let socks2 = vec![b.clone()];
    assert_eq!(count_via_browser(&socks2, &vec![0], &[9]), 1);
    assert_eq!(count_via_browser(&socks2, &vec![0], &[8]), 0);
}

#[test]
fn triage_label() {
    let mut s = sock("ESTAB", "tcp", "10.0.0.2", "1", "8.8.8.8", "443");
    s.process = "curl".into();
    s.pid = Some(12);
    assert_eq!(label(&s, &vec![]), "curl(pid 12)");
    let chain: Vec<String> = ["curl", "bash", "firefox", "systemd", "init"].iter().map(|x| x.to_string()).collect();
    assert_eq!(label(&s, &chain), "curl(pid 12)  ⚠ via NAVEGADOR (curl ← bash ← firefox ← systemd)");
    let anon = sock("ESTAB", "tcp", "10.0.0.2", "1", "8.8.8.8", "443");
    assert_eq!(label(&anon, &vec![]), "?(pid -)");
}
