use shell_mon::socket::parse_line;

#[test]
fn parse_udp_sem_processo() {
    let s = parse_line("udp UNCONN 0 0 0.0.0.0:48958 0.0.0.0:*").unwrap();
    assert_eq!(s.netid, "udp");
    assert_eq!(s.local_port, "48958");
    assert_eq!(s.peer_addr, "0.0.0.0");
    assert!(s.process.is_empty());
    assert_eq!(s.pid, None);
}

#[test]
fn parse_tcp_com_processo() {
    let line = r#"tcp ESTAB 0 0 192.168.0.10:22 192.168.0.5:51234 users:(("sshd",pid=3772,fd=5))"#;
    let s = parse_line(line).unwrap();
    assert_eq!(s.state, "ESTAB");
    assert_eq!(s.process, "sshd");
    assert_eq!(s.pid, Some(3772));
}

#[test]
fn parse_ipv6() {
    let s = parse_line("tcp LISTEN 0 128 [::1]:631 [::]:*").unwrap();
    assert_eq!(s.local_addr, "::1");
    assert_eq!(s.local_port, "631");
    assert_eq!(s.peer_addr, "::");
}

#[test]
fn parse_interface_no_addr() {
    let s = parse_line("udp ESTAB 0 0 192.168.15.126%enp2s0:68 192.168.15.1:67").unwrap();
    assert_eq!(s.local_addr, "192.168.15.126%enp2s0");
    assert_eq!(s.local_port, "68");
}

use shell_mon::socket::{parse_output, Summary};

#[test]
fn output_lines_and_summary() {
    let out = "tcp LISTEN 0 128 0.0.0.0:22 0.0.0.0:* users:((\"sshd\",pid=1,fd=3))\n\
               tcp ESTAB 0 0 192.168.0.10:22 192.168.0.5:51234\n\
               bad line\n\
               udp UNCONN 0 0 127.0.0.1:323 0.0.0.0:*\n\
               tcp TIME-WAIT 0 0 10.0.0.2:5000 8.8.8.8:443\n";
    let s = parse_output(out);
    assert_eq!(s.len(), 4);
    assert_eq!(s[0].key(), "tcp|0.0.0.0:22|0.0.0.0:*");
    assert_eq!(s[1].local(), "192.168.0.10:22");
    assert_eq!(s[1].peer(), "192.168.0.5:51234");
    let sum = Summary::from(&s);
    assert_eq!(sum.total, 4);
    assert_eq!(sum.tcp, 3);
    assert_eq!(sum.udp, 1);
    assert_eq!(sum.estab, 1);
    assert_eq!(sum.listen, 1);
    assert_eq!(sum.time_wait, 1);
    assert_eq!(sum.exposed, 1);
    assert_eq!(sum.inbound_lan, 1);
    assert!(s[0].is_exposed());
    assert!(!s[2].is_exposed());
    assert!(s[0].is_network());
}

#[test]
fn parse_edge_cases() {
    assert!(parse_line("tcp LISTEN 0 128 [::1]:631").is_none());
    let s = parse_line("tcp ESTAB x 7 1.2.3.4:5 6.7.8.9:10 users:((\"a b\",pid=12x").unwrap();
    assert_eq!(s.recv_q, 0);
    assert_eq!(s.send_q, 7);
    assert_eq!(s.process, "a b");
    assert_eq!(s.pid, Some(12));
    let t = parse_line("u_str ESTAB 0 0 * 1234 * 5678").unwrap();
    assert_eq!(t.local_addr, "*");
    assert_eq!(t.local_port, "");
    assert!(!t.is_network());
}

#[test]
fn exposed_counts_every_non_loopback_network_listener() {
    let link = parse_output("tcp LISTEN 0 128 169.254.10.2:8080 0.0.0.0:*\n");
    let sum = Summary::from(&link);
    assert_eq!(sum.exposed, 1);
    assert!(link[0].is_exposed());
    let unix = parse_output("u_str LISTEN 0 128 *:12345 *:0\n");
    let sum = Summary::from(&unix);
    assert_eq!((sum.total, sum.listen, sum.tcp, sum.udp, sum.exposed), (1, 1, 0, 0, 0));
    assert!(!unix[0].is_exposed());
}

use shell_mon::socket::{parse_process, split_addr_port};

#[test]
fn address_and_port_split() {
    assert_eq!(split_addr_port("[::1]:631"), ("::1".to_string(), "631".to_string()));
    assert_eq!(split_addr_port("192.168.0.1%enp2s0:68"), ("192.168.0.1%enp2s0".to_string(), "68".to_string()));
    assert_eq!(split_addr_port("::1:80"), ("::1".to_string(), "80".to_string()));
    assert_eq!(split_addr_port("*"), ("*".to_string(), String::new()));
    assert_eq!(split_addr_port("0.0.0.0:*"), ("0.0.0.0".to_string(), "*".to_string()));
}

#[test]
fn process_field() {
    assert_eq!(parse_process(""), (String::new(), None));
    assert_eq!(
        parse_process("users:((\"sshd\",pid=3772,fd=5),(\"sshd\",pid=1,fd=3))"),
        ("sshd".to_string(), Some(3772))
    );
    assert_eq!(parse_process("users:((\"x\",fd=5))"), ("x".to_string(), None));
}
