use shell_mon::app::{port_num, App, Key, KeyAction, Proto, SortKey};
use shell_mon::socket::Socket;

fn sock(state: &str, netid: &str, la: &str, lp: &str, pa: &str, pp: &str) -> Socket {
    Socket {
        netid: netid.into(),
        state: state.into(),
        recv_q: 0,
        send_q: 0,
        local_addr: la.into(),
        local_port: lp.into(),
        peer_addr: pa.into(),
        peer_port: pp.into(),
        process: String::new(),
        pid: None,
    }
}

const T0: u64 = 1_000_000;

fn app_with(socks: Vec<Socket>) -> App {
    let mut a = App::new(200, true);
    a.refresh(Ok(socks), &Vec::new(), T0);
    a
}

#[test]
fn proto_and_sort_cycle() {
    assert_eq!(Proto::Net.label(), "rede");
    assert_eq!(Proto::Net.next(), Proto::Tcp);
    assert_eq!(Proto::Unix.next(), Proto::Net);
    assert!(Proto::Net.matches("tcp") && Proto::Net.matches("udp"));
    assert!(!Proto::Net.matches("u_str"));
    assert!(Proto::Unix.matches("u_str"));
    assert!(!Proto::Tcp.matches("udp"));
    let mut k = SortKey::State;
    for _ in 0..6 {
        k = k.next();
    }
    assert_eq!(k, SortKey::State);
    assert_eq!(SortKey::RecvQ.label(), "recv-q");
    assert_eq!(port_num("443"), 443);
    assert_eq!(port_num("*"), u32::MAX);
}

#[test]
fn visible_filters_and_sorts_stably() {
    let mut a = app_with(vec![
        sock("LISTEN", "tcp", "0.0.0.0", "22", "0.0.0.0", "*"),
        sock("ESTAB", "tcp", "10.0.0.2", "50000", "8.8.8.8", "443"),
        sock("ESTAB", "udp", "10.0.0.2", "68", "10.0.0.1", "67"),
        sock("ESTAB", "u_str", "x", "1", "y", "2"),
    ]);
    // default order: by state (ESTAB < LISTEN), ties by listing order; UNIX left out
    assert_eq!(a.visible_indices(), vec![1, 2, 0]);
    a.sort = SortKey::Local;
    assert_eq!(a.visible_indices(), vec![0, 2, 1]);
    a.proto = Proto::Udp;
    assert_eq!(a.visible_indices(), vec![2]);
    a.proto = Proto::Net;
    a.filter = "8.8".into();
    assert_eq!(a.visible_indices(), vec![1]);
    a.filter = "LISTEN".into(); // case-insensitive
    assert_eq!(a.visible_indices(), vec![0]);
    assert_eq!(a.visible().len(), 1);
}

#[test]
fn queues_sort_descending() {
    let mut x = sock("ESTAB", "tcp", "10.0.0.2", "1", "8.8.8.8", "443");
    x.recv_q = 5;
    let mut y = sock("ESTAB", "tcp", "10.0.0.2", "2", "8.8.8.8", "443");
    y.recv_q = 9;
    let mut a = app_with(vec![x, y]);
    a.sort = SortKey::RecvQ;
    assert_eq!(a.visible_indices(), vec![1, 0]);
}

#[test]
fn pid_filter() {
    let mut x = sock("ESTAB", "tcp", "10.0.0.2", "1", "8.8.8.8", "443");
    x.pid = Some(4242);
    let mut a = app_with(vec![x, sock("ESTAB", "tcp", "10.0.0.2", "2", "8.8.8.8", "443")]);
    a.filter = "424".into();
    assert_eq!(a.visible_indices(), vec![0]);
}

#[test]
fn selection_moves_and_clamps() {
    let mut a = app_with(vec![
        sock("LISTEN", "tcp", "0.0.0.0", "1", "0.0.0.0", "*"),
        sock("LISTEN", "tcp", "0.0.0.0", "2", "0.0.0.0", "*"),
        sock("LISTEN", "tcp", "0.0.0.0", "3", "0.0.0.0", "*"),
    ]);
    a.move_down();
    a.move_down();
    a.move_down();
    assert_eq!(a.selected, 2);
    a.move_up();
    assert_eq!(a.selected, 1);
    a.page_up(10);
    assert_eq!(a.selected, 0);
    a.page_down(10);
    assert_eq!(a.selected, 2);
    a.proto = Proto::Udp;
    a.clamp_selection();
    assert_eq!(a.selected, 0);
    assert!(a.selected_socket().is_none());
}

#[test]
fn new_connections_highlighted_then_expire() {
    let base = vec![sock("LISTEN", "tcp", "0.0.0.0", "22", "0.0.0.0", "*")];
    let mut a = app_with(base.clone());
    // first refresh: nothing is new
    assert!(!a.is_new("tcp|0.0.0.0:22|0.0.0.0:*", T0));
    let mut more = base.clone();
    more.push(sock("ESTAB", "tcp", "10.0.0.2", "22", "10.0.0.5", "5000"));
    a.refresh(Ok(more.clone()), &Vec::new(), T0 + 200);
    assert!(a.is_new("tcp|10.0.0.2:22|10.0.0.5:5000", T0 + 200));
    assert!(!a.is_new("tcp|0.0.0.0:22|0.0.0.0:*", T0 + 200));
    // without a refresh (paused) the highlight still ends after 1.5 s
    assert!(a.is_new("tcp|10.0.0.2:22|10.0.0.5:5000", T0 + 1699));
    assert!(!a.is_new("tcp|10.0.0.2:22|10.0.0.5:5000", T0 + 1700));
    a.refresh(Ok(more.clone()), &Vec::new(), T0 + 1000);
    assert!(a.is_new("tcp|10.0.0.2:22|10.0.0.5:5000", T0 + 1000));
    a.refresh(Ok(more), &Vec::new(), T0 + 1700);
    assert!(!a.is_new("tcp|10.0.0.2:22|10.0.0.5:5000", T0 + 1700));
}

#[test]
fn refresh_after_empty_one_marks_new() {
    let mut a = app_with(vec![]);
    a.refresh(Ok(vec![sock("ESTAB", "tcp", "10.0.0.2", "22", "10.0.0.5", "5000")]), &Vec::new(), T0 + 200);
    assert!(a.is_new("tcp|10.0.0.2:22|10.0.0.5:5000", T0 + 200));
}

#[test]
fn udp_exposure_debounced_tcp_immediate() {
    let mut a = app_with(vec![sock("UNCONN", "udp", "0.0.0.0", "5353", "0.0.0.0", "*")]);
    // baseline counts at once
    assert_eq!(a.summary.exposed, 1);
    let socks = vec![
        sock("UNCONN", "udp", "0.0.0.0", "5353", "0.0.0.0", "*"),
        sock("UNCONN", "udp", "0.0.0.0", "48958", "0.0.0.0", "*"),
        sock("LISTEN", "tcp", "0.0.0.0", "4444", "0.0.0.0", "*"),
    ];
    a.refresh(Ok(socks.clone()), &Vec::new(), T0 + 200);
    assert_eq!(a.summary.exposed, 2); // the new UDP one waits
    a.refresh(Ok(socks), &Vec::new(), T0 + 1800);
    assert_eq!(a.summary.exposed, 3);
}

#[test]
fn refresh_error_kept_and_rdns_requests() {
    let mut a = App::new(200, false);
    let r = a.refresh(Err("falha".to_string()), &Vec::new(), T0);
    assert!(r.is_empty());
    assert_eq!(a.last_error.as_deref(), Some("falha"));
    let r = a.refresh(
        Ok(vec![
            sock("ESTAB", "tcp", "10.0.0.2", "1", "140.82.113.25", "443"),
            sock("ESTAB", "tcp", "10.0.0.2", "2", "10.0.0.9", "443"),
        ]),
        &Vec::new(),
        T0 + 200,
    );
    assert_eq!(r, vec!["140.82.113.25".to_string()]);
    assert!(a.last_error.is_none());
    assert_eq!(a.summary.total, 2);
}

#[test]
fn browser_cache_probe_and_keep() {
    let mut x = sock("ESTAB", "tcp", "10.0.0.2", "1", "8.8.8.8", "443");
    x.pid = Some(77);
    let mut a = App::new(200, true);
    assert_eq!(a.pids_to_probe(&[x.clone()]), vec![77]);
    a.refresh(Ok(vec![x.clone()]), &vec![(77, Some("firefox".to_string()))], T0);
    assert_eq!(a.browser_of(Some(77)), Some("firefox".to_string()));
    assert_eq!(a.browser_pids(), vec![77]);
    assert!(a.pids_to_probe(&[x.clone()]).is_empty());
    a.refresh(Ok(vec![]), &Vec::new(), T0 + 200);
    assert_eq!(a.browser_of(Some(77)), None);
}

#[test]
fn keys_drive_the_state() {
    let mut a = app_with(vec![
        sock("LISTEN", "tcp", "0.0.0.0", "1", "0.0.0.0", "*"),
        sock("LISTEN", "udp", "0.0.0.0", "2", "0.0.0.0", "*"),
    ]);
    assert_eq!(a.handle_key(Key::Char('r'), false), KeyAction::Refresh);
    a.handle_key(Key::Char('/'), false);
    assert!(a.filter_mode);
    a.handle_key(Key::Char('2'), false);
    a.handle_key(Key::Char('x'), false);
    a.handle_key(Key::Backspace, false);
    assert_eq!(a.filter, "2");
    a.handle_key(Key::Enter, false);
    assert!(!a.filter_mode);
    assert_eq!(a.visible_indices(), vec![1]);
    a.handle_key(Key::Char('t'), false);
    assert_eq!(a.proto, Proto::Tcp);
    a.handle_key(Key::Char('a'), false);
    assert_eq!(a.proto, Proto::Net);
    a.handle_key(Key::Char('s'), false);
    assert_eq!(a.sort, SortKey::Local);
    a.handle_key(Key::Char('p'), false);
    assert!(a.paused);
    assert!(!a.refresh_due(T0 + 10_000));
    a.handle_key(Key::Char('c'), false);
    assert!(!a.should_quit);
    a.handle_key(Key::Char('c'), true);
    assert!(a.should_quit);
}

#[test]
fn refresh_due_after_interval() {
    let a = app_with(vec![]);
    assert!(!a.refresh_due(T0 + 100));
    assert!(a.refresh_due(T0 + 200));
}

#[test]
fn inspector_key_toggles_panel() {
    let mut a = app_with(vec![sock("LISTEN", "tcp", "0.0.0.0", "1", "0.0.0.0", "*")]);
    assert!(!a.inspector);
    assert_eq!(a.handle_key(Key::Char('i'), false), KeyAction::Nothing);
    assert!(a.inspector);
    a.handle_key(Key::Enter, false);
    assert!(!a.inspector);
    // while typing a filter, `i` is a character of the filter
    a.handle_key(Key::Char('/'), false);
    a.handle_key(Key::Char('i'), false);
    assert_eq!(a.filter, "i");
    assert!(!a.inspector);
}

#[test]
fn down_then_up_returns() {
    let mut a = app_with(vec![
        sock("LISTEN", "tcp", "0.0.0.0", "1", "0.0.0.0", "*"),
        sock("LISTEN", "tcp", "0.0.0.0", "2", "0.0.0.0", "*"),
    ]);
    a.move_down();
    a.move_up();
    assert_eq!(a.selected, 0);
    a.move_down();
    assert_eq!(a.selected, 1);
    a.move_up();
    a.move_down();
    assert_eq!(a.selected, 1);
}

#[test]
fn escape_discards_enter_applies_filter() {
    let mut a = app_with(vec![
        sock("LISTEN", "tcp", "0.0.0.0", "1", "0.0.0.0", "*"),
        sock("LISTEN", "tcp", "0.0.0.0", "2", "0.0.0.0", "*"),
    ]);
    a.selected = 1;
    a.handle_key(Key::Char('/'), false);
    a.handle_key(Key::Char('1'), false);
    a.handle_key(Key::Esc, false);
    assert!(!a.filter_mode);
    assert_eq!(a.filter, "");
    assert_eq!(a.visible_indices(), vec![0, 1]);
    a.handle_key(Key::Char('/'), false);
    a.handle_key(Key::Char(':'), false);
    a.handle_key(Key::Char('1'), false);
    a.handle_key(Key::Enter, false);
    assert!(!a.filter_mode);
    assert_eq!(a.filter, ":1");
    assert_eq!(a.visible_indices(), vec![0]);
    assert_eq!(a.selected, 0);
}

#[test]
fn filter_ignores_case_both_ways() {
    let mut a = app_with(vec![
        sock("LISTEN", "tcp", "0.0.0.0", "1", "0.0.0.0", "*"),
        sock("ESTAB", "tcp", "10.0.0.2", "2", "8.8.8.8", "443"),
    ]);
    a.filter = "listen".into();
    assert_eq!(a.visible_indices(), vec![0]);
    a.filter = "EsTaB".into();
    assert_eq!(a.visible_indices(), vec![1]);
}

#[test]
fn udp_counts_after_staying_through_the_debounce() {
    let base = vec![sock("LISTEN", "tcp", "127.0.0.1", "631", "0.0.0.0", "*")];
    let mut a = app_with(base.clone());
    let mut with = base.clone();
    with.push(sock("UNCONN", "udp", "0.0.0.0", "5353", "0.0.0.0", "*"));
    a.refresh(Ok(with.clone()), &Vec::new(), T0 + 200);
    assert_eq!(a.summary.exposed, 0);
    a.refresh(Ok(with.clone()), &Vec::new(), T0 + 1000);
    assert_eq!(a.summary.exposed, 0);
    a.refresh(Ok(with.clone()), &Vec::new(), T0 + 1700);
    assert_eq!(a.summary.exposed, 1);
    assert_eq!(a.stable, vec!["udp|0.0.0.0:5353|0.0.0.0:*".to_string()]);
    // gone once: the debounce starts again when it comes back
    a.refresh(Ok(base), &Vec::new(), T0 + 1800);
    assert_eq!(a.summary.exposed, 0);
    a.refresh(Ok(with.clone()), &Vec::new(), T0 + 2000);
    assert_eq!(a.summary.exposed, 0);
    a.refresh(Ok(with), &Vec::new(), T0 + 3500);
    assert_eq!(a.summary.exposed, 1);
}
