use shell_mon::procinfo::{
    cmdline, comm_of, cpu_ticks, cpu_ticks_checked, cpu_times, parse_io, rss_kb, total_jiffies,
    total_jiffies_checked,
};

#[test]
fn io_and_memory() {
    let io = parse_io("rchar: 1\nread_bytes: 4096\nwrite_bytes: 8192\ncancelled_write_bytes: 0\n").unwrap();
    assert_eq!(io.read_bytes, 4096);
    assert_eq!(io.write_bytes, 8192);
    assert!(parse_io("read_bytes: 1\n").is_none());
    assert_eq!(rss_kb("Name:\tx\nVmRSS:\t  12345 kB\n"), Some(12345));
    assert_eq!(rss_kb("Name:\tx\n"), None);
    assert_eq!(comm_of("firefox\n"), "firefox");
}

#[test]
fn cpu_counters() {
    let stat = "42 (a b) S 1 42 42 0 -1 4194560 100 0 0 0 7 3 0 0 20 0";
    assert_eq!(cpu_times(stat), Some((7, 3)));
    assert_eq!(cpu_ticks(stat), Some(10));
    assert_eq!(total_jiffies("cpu  10 20 30 x 40\ncpu0 1 2\n"), Some(100));
    assert_eq!(total_jiffies("intr 1\n"), None);
}

#[test]
fn command_lines() {
    assert_eq!(cmdline(Some(b"/usr/bin/python3\0-m\0http.server\0"), None), "/usr/bin/python3 -m http.server");
    assert_eq!(cmdline(Some(b""), Some("kworker/0:1")), "[kworker/0:1]");
    assert_eq!(cmdline(None, None), "?");
}

#[test]
fn command_line_invalid_utf8_is_replaced() {
    assert_eq!(cmdline(Some(b"a\xffb\0c\0"), None), "a\u{fffd}b c");
}

#[test]
fn checked_counters_refuse_overflow() {
    assert_eq!(total_jiffies_checked("cpu  10 20 30 x 40\n"), Some(100));
    assert_eq!(total_jiffies_checked("cpu 18446744073709551615 1\n"), None);
    assert_eq!(total_jiffies_checked("intr 1\n"), None);
    let stat = "42 (a b) S 1 42 42 0 -1 4194560 100 0 0 0 7 3 0 0 20 0";
    assert_eq!(cpu_ticks_checked(stat), Some(10));
    let big = "42 (a) S 1 42 42 0 -1 4194560 100 0 0 0 18446744073709551615 3 0 0 20 0";
    assert_eq!(cpu_ticks_checked(big), None);
}
