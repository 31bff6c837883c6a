use shell_mon::events::{notif_title, proc_label, snapshot, EventState, Severity};
use shell_mon::socket::Socket;

fn sock(state: &str, netid: &str, la: &str, lp: &str, pa: &str, pp: &str) -> Socket {
    Socket {
        netid: netid.into(),
        state: state.into(),
        recv_q: 0,
        send_q: 0,
        local_addr: la.into(),
        local_port: lp.into(),
        peer_addr: pa.into(),
        peer_port: pp.into(),
        process: String::new(),
        pid: None,
    }
}

#[test]
fn listener_exposto_vs_loopback() {
    let socks = vec![
        sock("LISTEN", "tcp", "0.0.0.0", "4444", "0.0.0.0", "*"),
        sock("LISTEN", "tcp", "127.0.0.1", "11434", "0.0.0.0", "*"),
    ];
    let (listeners, _) = snapshot(&socks, &[], &[]);
    assert_eq!(listeners.len(), 2);
    let exposed = listeners.iter().filter(|(_, l)| l.exposed).count();
    assert_eq!(exposed, 1); // só o 0.0.0.0:4444
}

#[test]
fn detecta_entrada_da_lan() {
    let socks = vec![
        sock("LISTEN", "tcp", "0.0.0.0", "22", "0.0.0.0", "*"),
        sock("ESTAB", "tcp", "192.168.0.10", "22", "192.168.0.5", "51234"),
        // conexão de saída para a internet não conta como entrada
        sock("ESTAB", "tcp", "192.168.0.10", "55000", "8.8.8.8", "443"),
    ];
    let (_, inbound) = snapshot(&socks, &[], &[]);
    assert_eq!(inbound.len(), 1);
}

#[test]
fn snapshot_descriptions() {
    let mut s = sock("LISTEN", "tcp", "0.0.0.0", "4444", "0.0.0.0", "*");
    s.process = "python3".into();
    s.pid = Some(78743);
    let (listeners, _) = snapshot(&[s], &[], &[]);
    assert_eq!(listeners[0].0, "tcp|0.0.0.0:4444|0.0.0.0:*");
    assert_eq!(listeners[0].1.desc, "tcp 0.0.0.0:4444 (python3, pid 78743) [todas as interfaces]");
    let l = sock("LISTEN", "tcp", "127.0.0.1", "631", "0.0.0.0", "*");
    let (listeners, _) = snapshot(&[l], &[], &[]);
    assert_eq!(listeners[0].1.desc, "tcp 127.0.0.1:631 (?, pid -) [local]");
}

#[test]
fn inbound_description_and_browser_mark() {
    let mut s = sock("ESTAB", "tcp", "192.168.0.10", "22", "192.168.0.5", "51234");
    s.process = "sshd".into();
    s.pid = Some(3772);
    let socks = vec![sock("LISTEN", "tcp", "0.0.0.0", "22", "0.0.0.0", "*"), s.clone()];
    let (_, inbound) = snapshot(&socks, &[], &[3772]);
    assert_eq!(inbound[0].1, "192.168.0.5:51234 → 192.168.0.10:22 (sshd, pid 3772 ⚠via-navegador)");
    assert_eq!(proc_label(&s, &[]), "sshd, pid 3772");
}

#[test]
fn first_look_is_baseline_then_diffs() {
    let mut st = EventState::new();
    let socks = vec![
        sock("LISTEN", "tcp", "0.0.0.0", "22", "0.0.0.0", "*"),
        sock("LISTEN", "tcp", "127.0.0.1", "631", "0.0.0.0", "*"),
    ];
    let ev = st.record(&socks, &[], &[]);
    assert_eq!(ev.len(), 1);
    assert_eq!(ev[0].kind, "SESSION_START");
    assert!(ev[0].severity == Severity::Info);
    assert_eq!(ev[0].desc, "monitorando — base: 2 listeners (1 expostos), 0 entradas da LAN");
    // Same listing again: nothing to log.
    let ev = st.record(&socks, &[], &[]);
    assert!(ev.is_empty());
    // A new exposed listener and one gone.
    let socks2 = vec![
        sock("LISTEN", "tcp", "0.0.0.0", "22", "0.0.0.0", "*"),
        sock("LISTEN", "tcp", "0.0.0.0", "4444", "0.0.0.0", "*"),
    ];
    let ev = st.record(&socks2, &[], &[]);
    assert_eq!(ev.len(), 2);
    assert_eq!(ev[0].kind, "LISTEN_NEW");
    assert!(ev[0].severity == Severity::High);
    assert_eq!(ev[1].kind, "LISTEN_GONE");
    assert!(ev[1].severity == Severity::Info);
    assert_eq!(ev[1].desc, "tcp 127.0.0.1:631 (?, pid -) [local]");
}

#[test]
fn lan_inbound_start_and_end() {
    let mut st = EventState::new();
    let base = vec![sock("LISTEN", "tcp", "0.0.0.0", "22", "0.0.0.0", "*")];
    st.record(&base, &[], &[]);
    let with = vec![
        sock("LISTEN", "tcp", "0.0.0.0", "22", "0.0.0.0", "*"),
        sock("ESTAB", "tcp", "192.168.0.10", "22", "192.168.0.5", "51234"),
    ];
    let ev = st.record(&with, &[], &[]);
    assert_eq!(ev.len(), 1);
    assert_eq!(ev[0].kind, "LAN_INBOUND");
    assert!(ev[0].severity == Severity::High);
    let ev = st.record(&base, &[], &[]);
    assert_eq!(ev.len(), 1);
    assert_eq!(ev[0].kind, "LAN_INBOUND_END");
}

#[test]
fn warn_and_titles() {
    let e = EventState::warn("DNS_SUSPECT", "DNS x");
    assert!(e.severity == Severity::High);
    assert_eq!(e.kind, "DNS_SUSPECT");
    assert_eq!(notif_title("LISTEN_NEW"), "🛡 Novo serviço escutando exposto");
    assert_eq!(notif_title("FIREWALL"), "🛡 Firewall desprotegido");
    assert_eq!(notif_title("outro"), "🛡 shell_mon");
    assert_eq!(Severity::High.tag(), "HIGH");
    assert_eq!(Severity::Info.tag(), "INFO");
}

#[test]
fn new_loopback_listener_is_informational() {
    let mut st = EventState::new();
    st.record(&[], &[], &[]);
    let ev = st.record(&[sock("LISTEN", "tcp", "127.0.0.1", "8080", "0.0.0.0", "*")], &[], &[]);
    assert_eq!(ev.len(), 1);
    assert_eq!(ev[0].kind, "LISTEN_NEW");
    assert!(ev[0].severity == Severity::Info);
    assert_eq!(ev[0].desc, "tcp 127.0.0.1:8080 (?, pid -) [local]");
}

#[test]
fn udp_exposure_logged_once_it_counts() {
    let mut st = EventState::new();
    let base = vec![sock("LISTEN", "tcp", "0.0.0.0", "22", "0.0.0.0", "*")];
    st.record(&base, &[], &[]);
    let mut with = base.clone();
    with.push(sock("UNCONN", "udp", "0.0.0.0", "5353", "0.0.0.0", "*"));
    // still in the debounce: not among the exposures that count
    assert!(st.record(&with, &[], &[]).is_empty());
    let key = "udp|0.0.0.0:5353|0.0.0.0:*".to_string();
    let ev = st.record(&with, &[key.clone()], &[]);
    assert_eq!(ev.len(), 1);
    assert_eq!(ev[0].kind, "LISTEN_NEW");
    assert!(ev[0].severity == Severity::High);
    assert_eq!(ev[0].desc, "udp 0.0.0.0:5353 (?, pid -) [todas as interfaces]");
    let ev = st.record(&base, &[], &[]);
    assert_eq!(ev.len(), 1);
    assert_eq!(ev[0].kind, "LISTEN_GONE");
}

#[test]
fn unix_sockets_are_not_followed() {
    let mut st = EventState::new();
    st.record(&[], &[], &[]);
    let ev = st.record(&[sock("LISTEN", "u_str", "*", "12345", "*", "0")], &[], &[]);
    assert!(ev.is_empty());
}

#[test]
fn log_lines_and_notifications() {
    let e = EventState::warn("DNS_SUSPECT", "DNS x");
    assert_eq!(e.line("2026-06-20 10:00:00"), "2026-06-20 10:00:00  [HIGH] DNS_SUSPECT      DNS x\n");
    let (t, b) = e.notification().unwrap();
    assert_eq!(t, "🛡 DNS suspeito na rede");
    assert_eq!(b, "DNS x");
    let mut st = EventState::new();
    let ev = st.record(&[], &[], &[]);
    assert!(ev[0].notification().is_none());
    let long = EventState::warn("A_KIND_LONGER_THAN_16", "d");
    assert_eq!(long.line("t"), "t  [HIGH] A_KIND_LONGER_THAN_16 d\n");
}

#[test]
fn two_looks_log_exactly_the_differences() {
    let mut st = EventState::new();
    let s1 = vec![
        sock("LISTEN", "tcp", "0.0.0.0", "22", "0.0.0.0", "*"),
        sock("LISTEN", "tcp", "127.0.0.1", "631", "0.0.0.0", "*"),
        sock("ESTAB", "tcp", "192.168.0.10", "22", "192.168.0.5", "1"),
    ];
    st.record(&s1, &[], &[]);
    let s2 = vec![
        sock("LISTEN", "tcp", "0.0.0.0", "22", "0.0.0.0", "*"),
        sock("LISTEN", "tcp", "127.0.0.1", "8080", "0.0.0.0", "*"),
        sock("ESTAB", "tcp", "192.168.0.10", "22", "192.168.0.6", "2"),
    ];
    let ev = st.record(&s2, &[], &[]);
    let kinds: Vec<(&str, bool)> = ev.iter().map(|e| (e.kind.as_str(), e.severity == Severity::High)).collect();
    assert_eq!(
        kinds,
        vec![("LISTEN_NEW", false), ("LISTEN_GONE", false), ("LAN_INBOUND", true), ("LAN_INBOUND_END", false)]
    );
}
