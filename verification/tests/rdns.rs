use shell_mon::rdns::{brand_from_host, brand_of, infra_brand, parse_cache_line, Resolver, CACHE_TTL_SECS};

#[test]
fn marca_do_host() {
    assert_eq!(brand_from_host("lb-140-82-113-25-iad.github.com"), "github");
    assert_eq!(brand_from_host("gru06s59-in-f14.1e100.net"), "google");
    assert_eq!(brand_from_host("whatsapp-cdn-shv-02-gru1.fbcdn.net"), "facebook");
    assert_eq!(brand_from_host("x.telegram.org"), "telegram");
    assert_eq!(brand_from_host("server.amazonaws.com"), "aws");
    // TLD de 2 níveis: a marca é o rótulo antes de com.br
    assert_eq!(brand_from_host("152-255-36-173.user.vivozap.com.br"), "vivozap");
    assert_eq!(brand_from_host("host.empresa.co.uk"), "empresa");
}

#[test]
fn cache_line_valida_e_expira() {
    let now = 2_000_000_000;
    // recente → ok
    let l = format!("140.82.113.25\tgithub\t{}", now - 10);
    assert_eq!(
        parse_cache_line(&l, now),
        Some(("140.82.113.25".into(), "github".into()))
    );
    // expirada → None
    let old = format!("1.2.3.4\tfoo\t{}", now - CACHE_TTL_SECS - 1);
    assert_eq!(parse_cache_line(&old, now), None);
    // malformada → None
    assert_eq!(parse_cache_line("lixo", now), None);
}

#[test]
fn brand_edge_cases() {
    assert_eq!(brand_from_host("localhost"), "localhost");
    assert_eq!(brand_from_host("Example.COM."), "example");
    assert_eq!(infra_brand("cloudfront.net"), Some("cloudfront"));
    assert_eq!(infra_brand("github.com"), None);
    assert_eq!(brand_of(Some("140.82.113.25   lb-140-82-113-25-iad.github.com\n")), Some("github".to_string()));
    assert_eq!(brand_of(Some("")), None);
    assert_eq!(brand_of(None), None);
}

#[test]
fn cache_line_at_ttl_edge() {
    let now = 2_000_000_000u64;
    let at = format!("1.2.3.4\tfoo\t{}", now - CACHE_TTL_SECS);
    assert!(parse_cache_line(&at, now).is_some());
    let future = format!("1.2.3.4\tfoo\t{}", now + 100);
    assert!(parse_cache_line(&future, now).is_some());
    assert_eq!(parse_cache_line("\tfoo\t1", 1), None);
}

#[test]
fn resolver_requests_once_and_remembers() {
    let mut r = Resolver::new(true, None, 0);
    assert!(r.request("8.8.8.8"));
    assert!(!r.request("8.8.8.8")); // pending: not asked twice
    assert_eq!(r.get("8.8.8.8"), None);
    r.resolved("8.8.8.8", Some("google".to_string()));
    assert_eq!(r.get("8.8.8.8"), Some("google".to_string()));
    assert!(!r.request("8.8.8.8"));
}

#[test]
fn resolver_preloads_cache_and_disabled_does_nothing() {
    let now = 2_000_000_000u64;
    let content = format!("140.82.113.25\tgithub\t{}\nlixo\n", now - 5);
    let mut r = Resolver::new(true, Some(&content), now);
    assert_eq!(r.get("140.82.113.25"), Some("github".to_string()));
    assert!(!r.request("140.82.113.25"));
    let mut off = Resolver::new(false, Some(&content), now);
    assert!(!off.request("1.1.1.1"));
    assert_eq!(off.get("140.82.113.25"), None);
}

#[test]
fn written_cache_line_reads_back() {
    let now = 2_000_000_000u64;
    let l = shell_mon::rdns::cache_line("140.82.113.25", "github", now - 10);
    assert_eq!(l, format!("140.82.113.25\tgithub\t{}", now - 10));
    assert_eq!(parse_cache_line(&l, now), Some(("140.82.113.25".into(), "github".into())));
    let old = shell_mon::rdns::cache_line("1.2.3.4", "foo", now - CACHE_TTL_SECS - 1);
    assert_eq!(parse_cache_line(&old, now), None);
}
