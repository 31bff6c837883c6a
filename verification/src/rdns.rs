//! Reverse DNS (PTR) to give remote IPs human names: `140.82.113.25 -> github`.
//!
//! The lookups themselves (`getent hosts`), the worker threads and the cache
//! file are the application's; here are the rules: how a host name becomes a
//! brand, how a cache line is read and when it expires, and the cache of
//! requested and resolved addresses.
use crate::text::{
    chars_of, lines, lines_of, lower_all, lower_seq, parse_u64, parse_u64_of, split,
    split_on, split_words, string_of, tokens, trim, trim_of, views, is_lit, slice_of, dec,
    lemma_dec_digits, is_digit, lemma_split_field, lemma_split_last_field, lead_ws, trail_ws,
    trim_start, parse_nat, lower,
};
use vstd::prelude::*;

verus! {

/// How long a cached brand stays valid, in seconds (a PTR rarely changes).
pub const CACHE_TTL_SECS: u64 = 1209600;

/// Infrastructure domains, mapped to the real brand.
pub open spec fn infra(domain: Seq<char>) -> Option<Seq<char>> {
    if domain == "1e100.net"@ || domain == "gvt1.com"@ || domain == "gvt2.com"@ || domain
        == "googleusercontent.com"@ || domain == "googlevideo.com"@ {
        Some("google"@)
    } else if domain == "fbcdn.net"@ || domain == "fbsbx.com"@ {
        Some("facebook"@)
    } else if domain == "akamaitechnologies.com"@ || domain == "akamai.net"@ {
        Some("akamai"@)
    } else if domain == "amazonaws.com"@ {
        Some("aws"@)
    } else if domain == "cloudfront.net"@ {
        Some("cloudfront"@)
    } else {
        None
    }
}

pub open spec fn opt_str(o: Option<&str>) -> Option<Seq<char>> {
    match o {
        Some(s) => Some(s@),
        None => None,
    }
}

/// Brand of an infrastructure domain (always two labels), if it is one.
pub fn infra_brand(domain: &str) -> (r: Option<&'static str>)
    ensures
        opt_str(r) == infra(domain@),
{
    let d = chars_of(domain);
    infra_brand_chars(&d)
}

fn infra_brand_chars(d: &Vec<char>) -> (r: Option<&'static str>)
    ensures
        opt_str(r) == infra(d@),
{
    if is_lit(d, "1e100.net") || is_lit(d, "gvt1.com") || is_lit(d, "gvt2.com") || is_lit(
        d,
        "googleusercontent.com",
    ) || is_lit(d, "googlevideo.com") {
        Some("google")
    } else if is_lit(d, "fbcdn.net") || is_lit(d, "fbsbx.com") {
        Some("facebook")
    } else if is_lit(d, "akamaitechnologies.com") || is_lit(d, "akamai.net") {
        Some("akamai")
    } else if is_lit(d, "amazonaws.com") {
        Some("aws")
    } else if is_lit(d, "cloudfront.net") {
        Some("cloudfront")
    } else {
        None
    }
}

/// Second-level suffixes (`com.br`, `co.uk`): there the brand is the label before.
pub open spec fn second_level(l: Seq<char>) -> bool {
    ||| l == "com"@
    ||| l == "net"@
    ||| l == "org"@
    ||| l == "gov"@
    ||| l == "edu"@
    ||| l == "co"@
    ||| l == "mil"@
    ||| l == "ac"@
    ||| l == "gob"@
    ||| l == "or"@
    ||| l == "ne"@
    ||| l == "go"@
}

fn is_second_level(l: &Vec<char>) -> (r: bool)
    ensures
        r == second_level(l@),
{
    is_lit(l, "com") || is_lit(l, "net") || is_lit(l, "org") || is_lit(l, "gov") || is_lit(l, "edu")
        || is_lit(l, "co") || is_lit(l, "mil") || is_lit(l, "ac") || is_lit(l, "gob") || is_lit(
        l,
        "or",
    ) || is_lit(l, "ne") || is_lit(l, "go")
}

/// Number of trailing dots.
pub open spec fn trail_dots(s: Seq<char>) -> nat
    decreases s.len(),
{
    if s.len() == 0 || s.last() != '.' {
        0
    } else {
        1 + trail_dots(s.drop_last())
    }
}

/// Friendly brand of a PTR host name (heuristic: the registrable domain).
pub open spec fn brand_from_host_spec(host: Seq<char>) -> Seq<char> {
    let h = lower_seq(host.take(host.len() - trail_dots(host)));
    let labels = split(h, '.');
    let n = labels.len();
    if n < 2 {
        h
    } else {
        match infra(labels[n - 2] + "."@ + labels[n - 1]) {
            Some(b) => b,
            None => if n >= 3 && second_level(labels[n - 2]) {
                labels[n - 3]
            } else {
                labels[n - 2]
            },
        }
    }
}

proof fn lemma_brand_two_labels(x: Seq<char>, d1: Seq<char>, d2: Seq<char>)
    requires
        !d1.contains('.'),
        !d2.contains('.'),
        d2.len() > 0,
        lower_seq(d1) == d1,
        lower_seq(d2) == d2,
        infra(d1 + seq!['.'] + d2) is Some,
    ensures
        brand_from_host_spec(x + seq!['.'] + d1 + seq!['.'] + d2) == infra(d1 + seq!['.'] + d2).unwrap(),
{
    let host = x + seq!['.'] + d1 + seq!['.'] + d2;
    assert(host.last() == d2.last());
    assert(d2.last() != '.') by {
        assert(d2[d2.len() - 1] == d2.last());
    }
    assert(trail_dots(host) == 0);
    assert(host.take(host.len() as int) =~= host);
    let lx = lower_seq(x);
    let h = lower_seq(host);
    assert(h =~= lx + seq!['.'] + (d1 + seq!['.'] + d2)) by {
        assert forall|i: int| 0 <= i < d1.len() implies lower(d1[i]) == d1[i] by {
            assert(lower_seq(d1)[i] == lower(d1[i]));
        }
        assert forall|i: int| 0 <= i < d2.len() implies lower(d2[i]) == d2[i] by {
            assert(lower_seq(d2)[i] == lower(d2[i]));
        }
    }
    crate::text::lemma_split_concat(lx, d1 + seq!['.'] + d2, '.');
    crate::text::lemma_split_field(d1, d2, '.');
    crate::text::lemma_split_last_field(d2, '.');
    let labels = split(h, '.');
    let m = split(lx, '.').len() as int;
    assert(labels =~= split(lx, '.') + seq![d1, d2]);
    assert(labels.len() == m + 2);
    assert(labels[m] == d1 && labels[m + 1] == d2);
    reveal_strlit(".");
    assert(labels[labels.len() - 2] + "."@ + labels[labels.len() - 1] =~= d1 + seq!['.'] + d2);
}
proof fn lemma_brand_registrable(x: Seq<char>, d1: Seq<char>, d2: Seq<char>)
    requires
        !d1.contains('.'),
        !d2.contains('.'),
        d2.len() > 0,
        lower_seq(d1) == d1,
        lower_seq(d2) == d2,
        infra(d1 + seq!['.'] + d2) is None,
        !second_level(d1),
    ensures
        brand_from_host_spec(x + seq!['.'] + d1 + seq!['.'] + d2) == d1,
{
    let host = x + seq!['.'] + d1 + seq!['.'] + d2;
    assert(host.last() == d2.last());
    assert(d2.last() != '.') by {
        assert(d2[d2.len() - 1] == d2.last());
    }
    assert(trail_dots(host) == 0);
    assert(host.take(host.len() as int) =~= host);
    let lx = lower_seq(x);
    let h = lower_seq(host);
    assert(h =~= lx + seq!['.'] + (d1 + seq!['.'] + d2)) by {
        assert forall|i: int| 0 <= i < d1.len() implies lower(d1[i]) == d1[i] by {
            assert(lower_seq(d1)[i] == lower(d1[i]));
        }
        assert forall|i: int| 0 <= i < d2.len() implies lower(d2[i]) == d2[i] by {
            assert(lower_seq(d2)[i] == lower(d2[i]));
        }
    }
    crate::text::lemma_split_concat(lx, d1 + seq!['.'] + d2, '.');
    crate::text::lemma_split_field(d1, d2, '.');
    crate::text::lemma_split_last_field(d2, '.');
    let labels = split(h, '.');
    let m = split(lx, '.').len() as int;
    assert(labels =~= split(lx, '.') + seq![d1, d2]);
    assert(labels.len() == m + 2);
    assert(labels[m] == d1 && labels[m + 1] == d2);
    reveal_strlit(".");
    assert(labels[labels.len() - 2] + "."@ + labels[labels.len() - 1] =~= d1 + seq!['.'] + d2);
}

/// Otherwise the brand is the registrable domain's own label: a host under
/// `l.t` (`lb-140-82-113-25-iad.github.com`) is `l` (`github`), unless `l`
/// is a second-level suffix or `l.t` an infrastructure domain.
#[verifier::spinoff_prover]
pub proof fn law_registrable_brand(x: Seq<char>, l: Seq<char>, t: Seq<char>)
    requires
        !l.contains('.'),
        !t.contains('.'),
        t.len() > 0,
        lower_seq(l) == l,
        lower_seq(t) == t,
        l != "com"@,
        l != "net"@,
        l != "org"@,
        l != "gov"@,
        l != "edu"@,
        l != "co"@,
        l != "mil"@,
        l != "ac"@,
        l != "gob"@,
        l != "or"@,
        l != "ne"@,
        l != "go"@,
        l + "."@ + t != "1e100.net"@,
        l + "."@ + t != "gvt1.com"@,
        l + "."@ + t != "gvt2.com"@,
        l + "."@ + t != "googleusercontent.com"@,
        l + "."@ + t != "googlevideo.com"@,
        l + "."@ + t != "fbcdn.net"@,
        l + "."@ + t != "fbsbx.com"@,
        l + "."@ + t != "akamaitechnologies.com"@,
        l + "."@ + t != "akamai.net"@,
        l + "."@ + t != "amazonaws.com"@,
        l + "."@ + t != "cloudfront.net"@,
    ensures
        brand_from_host_spec(x + "."@ + l + "."@ + t) == l,
{
    reveal_strlit(".");
    reveal_strlit("com");
    reveal_strlit("net");
    reveal_strlit("org");
    reveal_strlit("gov");
    reveal_strlit("edu");
    reveal_strlit("co");
    reveal_strlit("mil");
    reveal_strlit("ac");
    reveal_strlit("gob");
    reveal_strlit("or");
    reveal_strlit("ne");
    reveal_strlit("go");
    reveal_strlit("1e100.net");
    reveal_strlit("gvt1.com");
    reveal_strlit("gvt2.com");
    reveal_strlit("googleusercontent.com");
    reveal_strlit("googlevideo.com");
    reveal_strlit("fbcdn.net");
    reveal_strlit("fbsbx.com");
    reveal_strlit("akamaitechnologies.com");
    reveal_strlit("akamai.net");
    reveal_strlit("amazonaws.com");
    reveal_strlit("cloudfront.net");
    assert(x + "."@ + l + "."@ + t =~= x + seq!['.'] + l + seq!['.'] + t);
    assert(l + "."@ + t =~= l + seq!['.'] + t);
    lemma_brand_registrable(x, l, t);
}


#[verifier::spinoff_prover]
proof fn lemma_infra_table()
    ensures
        infra("1e100.net"@) == Some("google"@),
        infra("gvt1.com"@) == Some("google"@),
        infra("gvt2.com"@) == Some("google"@),
        infra("googleusercontent.com"@) == Some("google"@),
        infra("googlevideo.com"@) == Some("google"@),
        infra("fbcdn.net"@) == Some("facebook"@),
        infra("fbsbx.com"@) == Some("facebook"@),
        infra("akamaitechnologies.com"@) == Some("akamai"@),
        infra("akamai.net"@) == Some("akamai"@),
        infra("amazonaws.com"@) == Some("aws"@),
        infra("cloudfront.net"@) == Some("cloudfront"@),
{
    reveal_strlit("1e100.net");
    reveal_strlit("gvt1.com");
    reveal_strlit("gvt2.com");
    reveal_strlit("googleusercontent.com");
    reveal_strlit("googlevideo.com");
    reveal_strlit("fbcdn.net");
    reveal_strlit("fbsbx.com");
    reveal_strlit("akamaitechnologies.com");
    reveal_strlit("akamai.net");
    reveal_strlit("amazonaws.com");
    reveal_strlit("cloudfront.net");
    assert("gvt1.com"@.len() != "1e100.net"@.len());
    assert("gvt2.com"@.len() != "1e100.net"@.len());
    assert("googleusercontent.com"@.len() != "1e100.net"@.len());
    assert("googleusercontent.com"@.len() != "gvt1.com"@.len());
    assert("googleusercontent.com"@.len() != "gvt2.com"@.len());
    assert("googlevideo.com"@.len() != "1e100.net"@.len());
    assert("googlevideo.com"@.len() != "gvt1.com"@.len());
    assert("googlevideo.com"@.len() != "gvt2.com"@.len());
    assert("googlevideo.com"@.len() != "googleusercontent.com"@.len());
    assert("fbcdn.net"@.len() != "gvt1.com"@.len());
    assert("fbcdn.net"@.len() != "gvt2.com"@.len());
    assert("fbcdn.net"@.len() != "googleusercontent.com"@.len());
    assert("fbcdn.net"@.len() != "googlevideo.com"@.len());
    assert("fbsbx.com"@.len() != "gvt1.com"@.len());
    assert("fbsbx.com"@.len() != "gvt2.com"@.len());
    assert("fbsbx.com"@.len() != "googleusercontent.com"@.len());
    assert("fbsbx.com"@.len() != "googlevideo.com"@.len());
    assert("akamaitechnologies.com"@.len() != "1e100.net"@.len());
    assert("akamaitechnologies.com"@.len() != "gvt1.com"@.len());
    assert("akamaitechnologies.com"@.len() != "gvt2.com"@.len());
    assert("akamaitechnologies.com"@.len() != "googleusercontent.com"@.len());
    assert("akamaitechnologies.com"@.len() != "googlevideo.com"@.len());
    assert("akamaitechnologies.com"@.len() != "fbcdn.net"@.len());
    assert("akamaitechnologies.com"@.len() != "fbsbx.com"@.len());
    assert("akamai.net"@.len() != "1e100.net"@.len());
    assert("akamai.net"@.len() != "gvt1.com"@.len());
    assert("akamai.net"@.len() != "gvt2.com"@.len());
    assert("akamai.net"@.len() != "googleusercontent.com"@.len());
    assert("akamai.net"@.len() != "googlevideo.com"@.len());
    assert("akamai.net"@.len() != "fbcdn.net"@.len());
    assert("akamai.net"@.len() != "fbsbx.com"@.len());
    assert("akamai.net"@.len() != "akamaitechnologies.com"@.len());
    assert("amazonaws.com"@.len() != "1e100.net"@.len());
    assert("amazonaws.com"@.len() != "gvt1.com"@.len());
    assert("amazonaws.com"@.len() != "gvt2.com"@.len());
    assert("amazonaws.com"@.len() != "googleusercontent.com"@.len());
    assert("amazonaws.com"@.len() != "googlevideo.com"@.len());
    assert("amazonaws.com"@.len() != "fbcdn.net"@.len());
    assert("amazonaws.com"@.len() != "fbsbx.com"@.len());
    assert("amazonaws.com"@.len() != "akamaitechnologies.com"@.len());
    assert("amazonaws.com"@.len() != "akamai.net"@.len());
    assert("cloudfront.net"@.len() != "1e100.net"@.len());
    assert("cloudfront.net"@.len() != "gvt1.com"@.len());
    assert("cloudfront.net"@.len() != "gvt2.com"@.len());
    assert("cloudfront.net"@.len() != "googleusercontent.com"@.len());
    assert("cloudfront.net"@.len() != "googlevideo.com"@.len());
    assert("cloudfront.net"@.len() != "fbcdn.net"@.len());
    assert("cloudfront.net"@.len() != "fbsbx.com"@.len());
    assert("cloudfront.net"@.len() != "akamaitechnologies.com"@.len());
    assert("cloudfront.net"@.len() != "akamai.net"@.len());
    assert("cloudfront.net"@.len() != "amazonaws.com"@.len());
    assert("gvt2.com"@[3] != "gvt1.com"@[3]);
    assert("fbcdn.net"@[0] != "1e100.net"@[0]);
    assert("fbsbx.com"@[0] != "1e100.net"@[0]);
    assert("fbsbx.com"@[2] != "fbcdn.net"@[2]);
}

/// The infrastructure domains are named by their owner: any host under
/// 1e100.net, gvt1.com, gvt2.com, googleusercontent.com or googlevideo.com
/// is google; under fbcdn.net or fbsbx.com, facebook; under
/// akamaitechnologies.com or akamai.net, akamai; under amazonaws.com, aws;
/// under cloudfront.net, cloudfront.
#[verifier::rlimit(50)]
#[verifier::spinoff_prover]
pub proof fn law_infra_brands(x: Seq<char>)
    ensures
        brand_from_host_spec(x + "."@ + "1e100.net"@) == "google"@,
        brand_from_host_spec(x + "."@ + "gvt1.com"@) == "google"@,
        brand_from_host_spec(x + "."@ + "gvt2.com"@) == "google"@,
        brand_from_host_spec(x + "."@ + "googleusercontent.com"@) == "google"@,
        brand_from_host_spec(x + "."@ + "googlevideo.com"@) == "google"@,
        brand_from_host_spec(x + "."@ + "fbcdn.net"@) == "facebook"@,
        brand_from_host_spec(x + "."@ + "fbsbx.com"@) == "facebook"@,
        brand_from_host_spec(x + "."@ + "akamaitechnologies.com"@) == "akamai"@,
        brand_from_host_spec(x + "."@ + "akamai.net"@) == "akamai"@,
        brand_from_host_spec(x + "."@ + "amazonaws.com"@) == "aws"@,
        brand_from_host_spec(x + "."@ + "cloudfront.net"@) == "cloudfront"@,
{
    lemma_infra_table();
    assert(brand_from_host_spec(x + "."@ + "1e100.net"@) == "google"@) by {
        reveal_strlit(".");
        reveal_strlit("1e100.net");
        let d1 = seq!['1', 'e', '1', '0', '0'];
        let d2 = seq!['n', 'e', 't'];
        assert(x + "."@ + "1e100.net"@ =~= x + seq!['.'] + d1 + seq!['.'] + d2);
        assert(d1 + seq!['.'] + d2 =~= "1e100.net"@);
        assert(lower_seq(d1) =~= d1);
        assert(lower_seq(d2) =~= d2);
        lemma_brand_two_labels(x, d1, d2);
    }
    assert(brand_from_host_spec(x + "."@ + "gvt1.com"@) == "google"@) by {
        reveal_strlit(".");
        reveal_strlit("gvt1.com");
        let d1 = seq!['g', 'v', 't', '1'];
        let d2 = seq!['c', 'o', 'm'];
        assert(x + "."@ + "gvt1.com"@ =~= x + seq!['.'] + d1 + seq!['.'] + d2);
        assert(d1 + seq!['.'] + d2 =~= "gvt1.com"@);
        assert(lower_seq(d1) =~= d1);
        assert(lower_seq(d2) =~= d2);
        lemma_brand_two_labels(x, d1, d2);
    }
    assert(brand_from_host_spec(x + "."@ + "gvt2.com"@) == "google"@) by {
        reveal_strlit(".");
        reveal_strlit("gvt2.com");
        let d1 = seq!['g', 'v', 't', '2'];
        let d2 = seq!['c', 'o', 'm'];
        assert(x + "."@ + "gvt2.com"@ =~= x + seq!['.'] + d1 + seq!['.'] + d2);
        assert(d1 + seq!['.'] + d2 =~= "gvt2.com"@);
        assert(lower_seq(d1) =~= d1);
        assert(lower_seq(d2) =~= d2);
        lemma_brand_two_labels(x, d1, d2);
    }
    assert(brand_from_host_spec(x + "."@ + "googleusercontent.com"@) == "google"@) by {
        reveal_strlit(".");
        reveal_strlit("googleusercontent.com");
        let d1 = seq!['g', 'o', 'o', 'g', 'l', 'e', 'u', 's', 'e', 'r', 'c', 'o', 'n', 't', 'e', 'n', 't'];
        let d2 = seq!['c', 'o', 'm'];
        assert(x + "."@ + "googleusercontent.com"@ =~= x + seq!['.'] + d1 + seq!['.'] + d2);
        assert(d1 + seq!['.'] + d2 =~= "googleusercontent.com"@);
        assert(lower_seq(d1) =~= d1);
        assert(lower_seq(d2) =~= d2);
        lemma_brand_two_labels(x, d1, d2);
    }
    assert(brand_from_host_spec(x + "."@ + "googlevideo.com"@) == "google"@) by {
        reveal_strlit(".");
        reveal_strlit("googlevideo.com");
        let d1 = seq!['g', 'o', 'o', 'g', 'l', 'e', 'v', 'i', 'd', 'e', 'o'];
        let d2 = seq!['c', 'o', 'm'];
        assert(x + "."@ + "googlevideo.com"@ =~= x + seq!['.'] + d1 + seq!['.'] + d2);
        assert(d1 + seq!['.'] + d2 =~= "googlevideo.com"@);
        assert(lower_seq(d1) =~= d1);
        assert(lower_seq(d2) =~= d2);
        lemma_brand_two_labels(x, d1, d2);
    }
    assert(brand_from_host_spec(x + "."@ + "fbcdn.net"@) == "facebook"@) by {
        reveal_strlit(".");
        reveal_strlit("fbcdn.net");
        let d1 = seq!['f', 'b', 'c', 'd', 'n'];
        let d2 = seq!['n', 'e', 't'];
        assert(x + "."@ + "fbcdn.net"@ =~= x + seq!['.'] + d1 + seq!['.'] + d2);
        assert(d1 + seq!['.'] + d2 =~= "fbcdn.net"@);
        assert(lower_seq(d1) =~= d1);
        assert(lower_seq(d2) =~= d2);
        lemma_brand_two_labels(x, d1, d2);
    }
    assert(brand_from_host_spec(x + "."@ + "fbsbx.com"@) == "facebook"@) by {
        reveal_strlit(".");
        reveal_strlit("fbsbx.com");
        let d1 = seq!['f', 'b', 's', 'b', 'x'];
        let d2 = seq!['c', 'o', 'm'];
        assert(x + "."@ + "fbsbx.com"@ =~= x + seq!['.'] + d1 + seq!['.'] + d2);
        assert(d1 + seq!['.'] + d2 =~= "fbsbx.com"@);
        assert(lower_seq(d1) =~= d1);
        assert(lower_seq(d2) =~= d2);
        lemma_brand_two_labels(x, d1, d2);
    }
    assert(brand_from_host_spec(x + "."@ + "akamaitechnologies.com"@) == "akamai"@) by {
        reveal_strlit(".");
        reveal_strlit("akamaitechnologies.com");
        let d1 = seq!['a', 'k', 'a', 'm', 'a', 'i', 't', 'e', 'c', 'h', 'n', 'o', 'l', 'o', 'g', 'i', 'e', 's'];
        let d2 = seq!['c', 'o', 'm'];
        assert(x + "."@ + "akamaitechnologies.com"@ =~= x + seq!['.'] + d1 + seq!['.'] + d2);
        assert(d1 + seq!['.'] + d2 =~= "akamaitechnologies.com"@);
        assert(lower_seq(d1) =~= d1);
        assert(lower_seq(d2) =~= d2);
        lemma_brand_two_labels(x, d1, d2);
    }
    assert(brand_from_host_spec(x + "."@ + "akamai.net"@) == "akamai"@) by {
        reveal_strlit(".");
        reveal_strlit("akamai.net");
        let d1 = seq!['a', 'k', 'a', 'm', 'a', 'i'];
        let d2 = seq!['n', 'e', 't'];
        assert(x + "."@ + "akamai.net"@ =~= x + seq!['.'] + d1 + seq!['.'] + d2);
        assert(d1 + seq!['.'] + d2 =~= "akamai.net"@);
        assert(lower_seq(d1) =~= d1);
        assert(lower_seq(d2) =~= d2);
        lemma_brand_two_labels(x, d1, d2);
    }
    assert(brand_from_host_spec(x + "."@ + "amazonaws.com"@) == "aws"@) by {
        reveal_strlit(".");
        reveal_strlit("amazonaws.com");
        let d1 = seq!['a', 'm', 'a', 'z', 'o', 'n', 'a', 'w', 's'];
        let d2 = seq!['c', 'o', 'm'];
        assert(x + "."@ + "amazonaws.com"@ =~= x + seq!['.'] + d1 + seq!['.'] + d2);
        assert(d1 + seq!['.'] + d2 =~= "amazonaws.com"@);
        assert(lower_seq(d1) =~= d1);
        assert(lower_seq(d2) =~= d2);
        lemma_brand_two_labels(x, d1, d2);
    }
    assert(brand_from_host_spec(x + "."@ + "cloudfront.net"@) == "cloudfront"@) by {
        reveal_strlit(".");
        reveal_strlit("cloudfront.net");
        let d1 = seq!['c', 'l', 'o', 'u', 'd', 'f', 'r', 'o', 'n', 't'];
        let d2 = seq!['n', 'e', 't'];
        assert(x + "."@ + "cloudfront.net"@ =~= x + seq!['.'] + d1 + seq!['.'] + d2);
        assert(d1 + seq!['.'] + d2 =~= "cloudfront.net"@);
        assert(lower_seq(d1) =~= d1);
        assert(lower_seq(d2) =~= d2);
        lemma_brand_two_labels(x, d1, d2);
    }
}

proof fn lemma_brand_three_labels(x: Seq<char>, l: Seq<char>, d1: Seq<char>, d2: Seq<char>)
    requires
        !l.contains('.'),
        !d1.contains('.'),
        !d2.contains('.'),
        d2.len() > 0,
        lower_seq(l) == l,
        lower_seq(d1) == d1,
        lower_seq(d2) == d2,
        infra(d1 + seq!['.'] + d2) is None,
    ensures
        brand_from_host_spec(x + seq!['.'] + l + seq!['.'] + d1 + seq!['.'] + d2) == (if second_level(d1) {
            l
        } else {
            d1
        }),
{
    let host = x + seq!['.'] + l + seq!['.'] + d1 + seq!['.'] + d2;
    assert(host.last() == d2.last());
    assert(d2.last() != '.') by {
        assert(d2[d2.len() - 1] == d2.last());
    }
    assert(trail_dots(host) == 0);
    assert(host.take(host.len() as int) =~= host);
    let lx = lower_seq(x);
    let h = lower_seq(host);
    assert(h =~= lx + seq!['.'] + (l + seq!['.'] + (d1 + seq!['.'] + d2))) by {
        assert forall|i: int| 0 <= i < l.len() implies lower(l[i]) == l[i] by {
            assert(lower_seq(l)[i] == lower(l[i]));
        }
        assert forall|i: int| 0 <= i < d1.len() implies lower(d1[i]) == d1[i] by {
            assert(lower_seq(d1)[i] == lower(d1[i]));
        }
        assert forall|i: int| 0 <= i < d2.len() implies lower(d2[i]) == d2[i] by {
            assert(lower_seq(d2)[i] == lower(d2[i]));
        }
    }
    crate::text::lemma_split_concat(lx, l + seq!['.'] + (d1 + seq!['.'] + d2), '.');
    crate::text::lemma_split_field(l, d1 + seq!['.'] + d2, '.');
    crate::text::lemma_split_field(d1, d2, '.');
    crate::text::lemma_split_last_field(d2, '.');
    let labels = split(h, '.');
    let m = split(lx, '.').len() as int;
    assert(labels =~= split(lx, '.') + seq![l, d1, d2]);
    assert(labels[m] == l && labels[m + 1] == d1 && labels[m + 2] == d2);
    reveal_strlit(".");
    assert(labels[labels.len() - 2] + "."@ + labels[labels.len() - 1] =~= d1 + seq!['.'] + d2);
}

/// Under a second-level suffix (`com.br`, `co.uk`, `gov.xx`, ...: com, net,
/// org, gov, edu, co, mil, ac, gob, or, ne, go before the country), the
/// brand is the label before the suffix: `152-255-36-173.user.vivozap.com.br`
/// is `vivozap`.
#[verifier::rlimit(80)]
#[verifier::spinoff_prover]
pub proof fn law_second_level_brand(x: Seq<char>, l: Seq<char>, tld: Seq<char>)
    requires
        !l.contains('.'),
        !tld.contains('.'),
        tld.len() > 0,
        lower_seq(l) == l,
        lower_seq(tld) == tld,
    ensures
        brand_from_host_spec(x + "."@ + l + "."@ + "com"@ + "."@ + tld) == l,
        brand_from_host_spec(x + "."@ + l + "."@ + "net"@ + "."@ + tld) == l,
        brand_from_host_spec(x + "."@ + l + "."@ + "org"@ + "."@ + tld) == l,
        brand_from_host_spec(x + "."@ + l + "."@ + "gov"@ + "."@ + tld) == l,
        brand_from_host_spec(x + "."@ + l + "."@ + "edu"@ + "."@ + tld) == l,
        brand_from_host_spec(x + "."@ + l + "."@ + "co"@ + "."@ + tld) == l,
        brand_from_host_spec(x + "."@ + l + "."@ + "mil"@ + "."@ + tld) == l,
        brand_from_host_spec(x + "."@ + l + "."@ + "ac"@ + "."@ + tld) == l,
        brand_from_host_spec(x + "."@ + l + "."@ + "gob"@ + "."@ + tld) == l,
        brand_from_host_spec(x + "."@ + l + "."@ + "or"@ + "."@ + tld) == l,
        brand_from_host_spec(x + "."@ + l + "."@ + "ne"@ + "."@ + tld) == l,
        brand_from_host_spec(x + "."@ + l + "."@ + "go"@ + "."@ + tld) == l,
{
    assert(brand_from_host_spec(x + "."@ + l + "."@ + "com"@ + "."@ + tld) == l) by {
        reveal_strlit(".");
        reveal_strlit("com");
        let d1 = seq!['c', 'o', 'm'];
        assert(d1 =~= "com"@);
        assert(x + "."@ + l + "."@ + "com"@ + "."@ + tld =~= x + seq!['.'] + l + seq!['.'] + d1 + seq!['.'] + tld);
        assert(lower_seq(d1) =~= d1);
        assert(!d1.contains('.')) by {
            if d1.contains('.') {
                let k = choose|k: int| 0 <= k < d1.len() && d1[k] == '.';
                assert(k == 0 || k == 1 || k == 2);
            }
        }
        assert(infra(d1 + seq!['.'] + tld) is None) by {
            reveal_strlit("1e100.net");
            assert((d1 + seq!['.'] + tld)[0] != "1e100.net"@[0]);
            reveal_strlit("gvt1.com");
            assert((d1 + seq!['.'] + tld)[0] != "gvt1.com"@[0]);
            reveal_strlit("gvt2.com");
            assert((d1 + seq!['.'] + tld)[0] != "gvt2.com"@[0]);
            reveal_strlit("googleusercontent.com");
            assert((d1 + seq!['.'] + tld)[0] != "googleusercontent.com"@[0]);
            reveal_strlit("googlevideo.com");
            assert((d1 + seq!['.'] + tld)[0] != "googlevideo.com"@[0]);
            reveal_strlit("fbcdn.net");
            assert((d1 + seq!['.'] + tld)[0] != "fbcdn.net"@[0]);
            reveal_strlit("fbsbx.com");
            assert((d1 + seq!['.'] + tld)[0] != "fbsbx.com"@[0]);
            reveal_strlit("akamaitechnologies.com");
            assert((d1 + seq!['.'] + tld)[0] != "akamaitechnologies.com"@[0]);
            reveal_strlit("akamai.net");
            assert((d1 + seq!['.'] + tld)[0] != "akamai.net"@[0]);
            reveal_strlit("amazonaws.com");
            assert((d1 + seq!['.'] + tld)[0] != "amazonaws.com"@[0]);
            reveal_strlit("cloudfront.net");
            assert((d1 + seq!['.'] + tld)[1] != "cloudfront.net"@[1]);
        }
        assert(second_level(d1));
        lemma_brand_three_labels(x, l, d1, tld);
    }
    assert(brand_from_host_spec(x + "."@ + l + "."@ + "net"@ + "."@ + tld) == l) by {
        reveal_strlit(".");
        reveal_strlit("net");
        let d1 = seq!['n', 'e', 't'];
        assert(d1 =~= "net"@);
        assert(x + "."@ + l + "."@ + "net"@ + "."@ + tld =~= x + seq!['.'] + l + seq!['.'] + d1 + seq!['.'] + tld);
        assert(lower_seq(d1) =~= d1);
        assert(!d1.contains('.')) by {
            if d1.contains('.') {
                let k = choose|k: int| 0 <= k < d1.len() && d1[k] == '.';
                assert(k == 0 || k == 1 || k == 2);
            }
        }
        assert(infra(d1 + seq!['.'] + tld) is None) by {
            reveal_strlit("1e100.net");
            assert((d1 + seq!['.'] + tld)[0] != "1e100.net"@[0]);
            reveal_strlit("gvt1.com");
            assert((d1 + seq!['.'] + tld)[0] != "gvt1.com"@[0]);
            reveal_strlit("gvt2.com");
            assert((d1 + seq!['.'] + tld)[0] != "gvt2.com"@[0]);
            reveal_strlit("googleusercontent.com");
            assert((d1 + seq!['.'] + tld)[0] != "googleusercontent.com"@[0]);
            reveal_strlit("googlevideo.com");
            assert((d1 + seq!['.'] + tld)[0] != "googlevideo.com"@[0]);
            reveal_strlit("fbcdn.net");
            assert((d1 + seq!['.'] + tld)[0] != "fbcdn.net"@[0]);
            reveal_strlit("fbsbx.com");
            assert((d1 + seq!['.'] + tld)[0] != "fbsbx.com"@[0]);
            reveal_strlit("akamaitechnologies.com");
            assert((d1 + seq!['.'] + tld)[0] != "akamaitechnologies.com"@[0]);
            reveal_strlit("akamai.net");
            assert((d1 + seq!['.'] + tld)[0] != "akamai.net"@[0]);
            reveal_strlit("amazonaws.com");
            assert((d1 + seq!['.'] + tld)[0] != "amazonaws.com"@[0]);
            reveal_strlit("cloudfront.net");
            assert((d1 + seq!['.'] + tld)[0] != "cloudfront.net"@[0]);
        }
        assert(second_level(d1));
        lemma_brand_three_labels(x, l, d1, tld);
    }
    assert(brand_from_host_spec(x + "."@ + l + "."@ + "org"@ + "."@ + tld) == l) by {
        reveal_strlit(".");
        reveal_strlit("org");
        let d1 = seq!['o', 'r', 'g'];
        assert(d1 =~= "org"@);
        assert(x + "."@ + l + "."@ + "org"@ + "."@ + tld =~= x + seq!['.'] + l + seq!['.'] + d1 + seq!['.'] + tld);
        assert(lower_seq(d1) =~= d1);
        assert(!d1.contains('.')) by {
            if d1.contains('.') {
                let k = choose|k: int| 0 <= k < d1.len() && d1[k] == '.';
                assert(k == 0 || k == 1 || k == 2);
            }
        }
        assert(infra(d1 + seq!['.'] + tld) is None) by {
            reveal_strlit("1e100.net");
            assert((d1 + seq!['.'] + tld)[0] != "1e100.net"@[0]);
            reveal_strlit("gvt1.com");
            assert((d1 + seq!['.'] + tld)[0] != "gvt1.com"@[0]);
            reveal_strlit("gvt2.com");
            assert((d1 + seq!['.'] + tld)[0] != "gvt2.com"@[0]);
            reveal_strlit("googleusercontent.com");
            assert((d1 + seq!['.'] + tld)[0] != "googleusercontent.com"@[0]);
            reveal_strlit("googlevideo.com");
            assert((d1 + seq!['.'] + tld)[0] != "googlevideo.com"@[0]);
            reveal_strlit("fbcdn.net");
            assert((d1 + seq!['.'] + tld)[0] != "fbcdn.net"@[0]);
            reveal_strlit("fbsbx.com");
            assert((d1 + seq!['.'] + tld)[0] != "fbsbx.com"@[0]);
            reveal_strlit("akamaitechnologies.com");
            assert((d1 + seq!['.'] + tld)[0] != "akamaitechnologies.com"@[0]);
            reveal_strlit("akamai.net");
            assert((d1 + seq!['.'] + tld)[0] != "akamai.net"@[0]);
            reveal_strlit("amazonaws.com");
            assert((d1 + seq!['.'] + tld)[0] != "amazonaws.com"@[0]);
            reveal_strlit("cloudfront.net");
            assert((d1 + seq!['.'] + tld)[0] != "cloudfront.net"@[0]);
        }
        assert(second_level(d1));
        lemma_brand_three_labels(x, l, d1, tld);
    }
    assert(brand_from_host_spec(x + "."@ + l + "."@ + "gov"@ + "."@ + tld) == l) by {
        reveal_strlit(".");
        reveal_strlit("gov");
        let d1 = seq!['g', 'o', 'v'];
        assert(d1 =~= "gov"@);
        assert(x + "."@ + l + "."@ + "gov"@ + "."@ + tld =~= x + seq!['.'] + l + seq!['.'] + d1 + seq!['.'] + tld);
        assert(lower_seq(d1) =~= d1);
        assert(!d1.contains('.')) by {
            if d1.contains('.') {
                let k = choose|k: int| 0 <= k < d1.len() && d1[k] == '.';
                assert(k == 0 || k == 1 || k == 2);
            }
        }
        assert(infra(d1 + seq!['.'] + tld) is None) by {
            reveal_strlit("1e100.net");
            assert((d1 + seq!['.'] + tld)[0] != "1e100.net"@[0]);
            reveal_strlit("gvt1.com");
            assert((d1 + seq!['.'] + tld)[1] != "gvt1.com"@[1]);
            reveal_strlit("gvt2.com");
            assert((d1 + seq!['.'] + tld)[1] != "gvt2.com"@[1]);
            reveal_strlit("googleusercontent.com");
            assert((d1 + seq!['.'] + tld)[2] != "googleusercontent.com"@[2]);
            reveal_strlit("googlevideo.com");
            assert((d1 + seq!['.'] + tld)[2] != "googlevideo.com"@[2]);
            reveal_strlit("fbcdn.net");
            assert((d1 + seq!['.'] + tld)[0] != "fbcdn.net"@[0]);
            reveal_strlit("fbsbx.com");
            assert((d1 + seq!['.'] + tld)[0] != "fbsbx.com"@[0]);
            reveal_strlit("akamaitechnologies.com");
            assert((d1 + seq!['.'] + tld)[0] != "akamaitechnologies.com"@[0]);
            reveal_strlit("akamai.net");
            assert((d1 + seq!['.'] + tld)[0] != "akamai.net"@[0]);
            reveal_strlit("amazonaws.com");
            assert((d1 + seq!['.'] + tld)[0] != "amazonaws.com"@[0]);
            reveal_strlit("cloudfront.net");
            assert((d1 + seq!['.'] + tld)[0] != "cloudfront.net"@[0]);
        }
        assert(second_level(d1));
        lemma_brand_three_labels(x, l, d1, tld);
    }
    assert(brand_from_host_spec(x + "."@ + l + "."@ + "edu"@ + "."@ + tld) == l) by {
        reveal_strlit(".");
        reveal_strlit("edu");
        let d1 = seq!['e', 'd', 'u'];
        assert(d1 =~= "edu"@);
        assert(x + "."@ + l + "."@ + "edu"@ + "."@ + tld =~= x + seq!['.'] + l + seq!['.'] + d1 + seq!['.'] + tld);
        assert(lower_seq(d1) =~= d1);
        assert(!d1.contains('.')) by {
            if d1.contains('.') {
                let k = choose|k: int| 0 <= k < d1.len() && d1[k] == '.';
                assert(k == 0 || k == 1 || k == 2);
            }
        }
        assert(infra(d1 + seq!['.'] + tld) is None) by {
            reveal_strlit("1e100.net");
            assert((d1 + seq!['.'] + tld)[0] != "1e100.net"@[0]);
            reveal_strlit("gvt1.com");
            assert((d1 + seq!['.'] + tld)[0] != "gvt1.com"@[0]);
            reveal_strlit("gvt2.com");
            assert((d1 + seq!['.'] + tld)[0] != "gvt2.com"@[0]);
            reveal_strlit("googleusercontent.com");
            assert((d1 + seq!['.'] + tld)[0] != "googleusercontent.com"@[0]);
            reveal_strlit("googlevideo.com");
            assert((d1 + seq!['.'] + tld)[0] != "googlevideo.com"@[0]);
            reveal_strlit("fbcdn.net");
            assert((d1 + seq!['.'] + tld)[0] != "fbcdn.net"@[0]);
            reveal_strlit("fbsbx.com");
            assert((d1 + seq!['.'] + tld)[0] != "fbsbx.com"@[0]);
            reveal_strlit("akamaitechnologies.com");
            assert((d1 + seq!['.'] + tld)[0] != "akamaitechnologies.com"@[0]);
            reveal_strlit("akamai.net");
            assert((d1 + seq!['.'] + tld)[0] != "akamai.net"@[0]);
            reveal_strlit("amazonaws.com");
            assert((d1 + seq!['.'] + tld)[0] != "amazonaws.com"@[0]);
            reveal_strlit("cloudfront.net");
            assert((d1 + seq!['.'] + tld)[0] != "cloudfront.net"@[0]);
        }
        assert(second_level(d1));
        lemma_brand_three_labels(x, l, d1, tld);
    }
    assert(brand_from_host_spec(x + "."@ + l + "."@ + "co"@ + "."@ + tld) == l) by {
        reveal_strlit(".");
        reveal_strlit("co");
        let d1 = seq!['c', 'o'];
        assert(d1 =~= "co"@);
        assert(x + "."@ + l + "."@ + "co"@ + "."@ + tld =~= x + seq!['.'] + l + seq!['.'] + d1 + seq!['.'] + tld);
        assert(lower_seq(d1) =~= d1);
        assert(!d1.contains('.')) by {
            if d1.contains('.') {
                let k = choose|k: int| 0 <= k < d1.len() && d1[k] == '.';
                assert(k == 0 || k == 1);
            }
        }
        assert(infra(d1 + seq!['.'] + tld) is None) by {
            reveal_strlit("1e100.net");
            assert((d1 + seq!['.'] + tld)[0] != "1e100.net"@[0]);
            reveal_strlit("gvt1.com");
            assert((d1 + seq!['.'] + tld)[0] != "gvt1.com"@[0]);
            reveal_strlit("gvt2.com");
            assert((d1 + seq!['.'] + tld)[0] != "gvt2.com"@[0]);
            reveal_strlit("googleusercontent.com");
            assert((d1 + seq!['.'] + tld)[0] != "googleusercontent.com"@[0]);
            reveal_strlit("googlevideo.com");
            assert((d1 + seq!['.'] + tld)[0] != "googlevideo.com"@[0]);
            reveal_strlit("fbcdn.net");
            assert((d1 + seq!['.'] + tld)[0] != "fbcdn.net"@[0]);
            reveal_strlit("fbsbx.com");
            assert((d1 + seq!['.'] + tld)[0] != "fbsbx.com"@[0]);
            reveal_strlit("akamaitechnologies.com");
            assert((d1 + seq!['.'] + tld)[0] != "akamaitechnologies.com"@[0]);
            reveal_strlit("akamai.net");
            assert((d1 + seq!['.'] + tld)[0] != "akamai.net"@[0]);
            reveal_strlit("amazonaws.com");
            assert((d1 + seq!['.'] + tld)[0] != "amazonaws.com"@[0]);
            reveal_strlit("cloudfront.net");
            assert((d1 + seq!['.'] + tld)[1] != "cloudfront.net"@[1]);
        }
        assert(second_level(d1));
        lemma_brand_three_labels(x, l, d1, tld);
    }
    assert(brand_from_host_spec(x + "."@ + l + "."@ + "mil"@ + "."@ + tld) == l) by {
        reveal_strlit(".");
        reveal_strlit("mil");
        let d1 = seq!['m', 'i', 'l'];
        assert(d1 =~= "mil"@);
        assert(x + "."@ + l + "."@ + "mil"@ + "."@ + tld =~= x + seq!['.'] + l + seq!['.'] + d1 + seq!['.'] + tld);
        assert(lower_seq(d1) =~= d1);
        assert(!d1.contains('.')) by {
            if d1.contains('.') {
                let k = choose|k: int| 0 <= k < d1.len() && d1[k] == '.';
                assert(k == 0 || k == 1 || k == 2);
            }
        }
        assert(infra(d1 + seq!['.'] + tld) is None) by {
            reveal_strlit("1e100.net");
            assert((d1 + seq!['.'] + tld)[0] != "1e100.net"@[0]);
            reveal_strlit("gvt1.com");
            assert((d1 + seq!['.'] + tld)[0] != "gvt1.com"@[0]);
            reveal_strlit("gvt2.com");
            assert((d1 + seq!['.'] + tld)[0] != "gvt2.com"@[0]);
            reveal_strlit("googleusercontent.com");
            assert((d1 + seq!['.'] + tld)[0] != "googleusercontent.com"@[0]);
            reveal_strlit("googlevideo.com");
            assert((d1 + seq!['.'] + tld)[0] != "googlevideo.com"@[0]);
            reveal_strlit("fbcdn.net");
            assert((d1 + seq!['.'] + tld)[0] != "fbcdn.net"@[0]);
            reveal_strlit("fbsbx.com");
            assert((d1 + seq!['.'] + tld)[0] != "fbsbx.com"@[0]);
            reveal_strlit("akamaitechnologies.com");
            assert((d1 + seq!['.'] + tld)[0] != "akamaitechnologies.com"@[0]);
            reveal_strlit("akamai.net");
            assert((d1 + seq!['.'] + tld)[0] != "akamai.net"@[0]);
            reveal_strlit("amazonaws.com");
            assert((d1 + seq!['.'] + tld)[0] != "amazonaws.com"@[0]);
            reveal_strlit("cloudfront.net");
            assert((d1 + seq!['.'] + tld)[0] != "cloudfront.net"@[0]);
        }
        assert(second_level(d1));
        lemma_brand_three_labels(x, l, d1, tld);
    }
    assert(brand_from_host_spec(x + "."@ + l + "."@ + "ac"@ + "."@ + tld) == l) by {
        reveal_strlit(".");
        reveal_strlit("ac");
        let d1 = seq!['a', 'c'];
        assert(d1 =~= "ac"@);
        assert(x + "."@ + l + "."@ + "ac"@ + "."@ + tld =~= x + seq!['.'] + l + seq!['.'] + d1 + seq!['.'] + tld);
        assert(lower_seq(d1) =~= d1);
        assert(!d1.contains('.')) by {
            if d1.contains('.') {
                let k = choose|k: int| 0 <= k < d1.len() && d1[k] == '.';
                assert(k == 0 || k == 1);
            }
        }
        assert(infra(d1 + seq!['.'] + tld) is None) by {
            reveal_strlit("1e100.net");
            assert((d1 + seq!['.'] + tld)[0] != "1e100.net"@[0]);
            reveal_strlit("gvt1.com");
            assert((d1 + seq!['.'] + tld)[0] != "gvt1.com"@[0]);
            reveal_strlit("gvt2.com");
            assert((d1 + seq!['.'] + tld)[0] != "gvt2.com"@[0]);
            reveal_strlit("googleusercontent.com");
            assert((d1 + seq!['.'] + tld)[0] != "googleusercontent.com"@[0]);
            reveal_strlit("googlevideo.com");
            assert((d1 + seq!['.'] + tld)[0] != "googlevideo.com"@[0]);
            reveal_strlit("fbcdn.net");
            assert((d1 + seq!['.'] + tld)[0] != "fbcdn.net"@[0]);
            reveal_strlit("fbsbx.com");
            assert((d1 + seq!['.'] + tld)[0] != "fbsbx.com"@[0]);
            reveal_strlit("akamaitechnologies.com");
            assert((d1 + seq!['.'] + tld)[1] != "akamaitechnologies.com"@[1]);
            reveal_strlit("akamai.net");
            assert((d1 + seq!['.'] + tld)[1] != "akamai.net"@[1]);
            reveal_strlit("amazonaws.com");
            assert((d1 + seq!['.'] + tld)[1] != "amazonaws.com"@[1]);
            reveal_strlit("cloudfront.net");
            assert((d1 + seq!['.'] + tld)[0] != "cloudfront.net"@[0]);
        }
        assert(second_level(d1));
        lemma_brand_three_labels(x, l, d1, tld);
    }
    assert(brand_from_host_spec(x + "."@ + l + "."@ + "gob"@ + "."@ + tld) == l) by {
        reveal_strlit(".");
        reveal_strlit("gob");
        let d1 = seq!['g', 'o', 'b'];
        assert(d1 =~= "gob"@);
        assert(x + "."@ + l + "."@ + "gob"@ + "."@ + tld =~= x + seq!['.'] + l + seq!['.'] + d1 + seq!['.'] + tld);
        assert(lower_seq(d1) =~= d1);
        assert(!d1.contains('.')) by {
            if d1.contains('.') {
                let k = choose|k: int| 0 <= k < d1.len() && d1[k] == '.';
                assert(k == 0 || k == 1 || k == 2);
            }
        }
        assert(infra(d1 + seq!['.'] + tld) is None) by {
            reveal_strlit("1e100.net");
            assert((d1 + seq!['.'] + tld)[0] != "1e100.net"@[0]);
            reveal_strlit("gvt1.com");
            assert((d1 + seq!['.'] + tld)[1] != "gvt1.com"@[1]);
            reveal_strlit("gvt2.com");
            assert((d1 + seq!['.'] + tld)[1] != "gvt2.com"@[1]);
            reveal_strlit("googleusercontent.com");
            assert((d1 + seq!['.'] + tld)[2] != "googleusercontent.com"@[2]);
            reveal_strlit("googlevideo.com");
            assert((d1 + seq!['.'] + tld)[2] != "googlevideo.com"@[2]);
            reveal_strlit("fbcdn.net");
            assert((d1 + seq!['.'] + tld)[0] != "fbcdn.net"@[0]);
            reveal_strlit("fbsbx.com");
            assert((d1 + seq!['.'] + tld)[0] != "fbsbx.com"@[0]);
            reveal_strlit("akamaitechnologies.com");
            assert((d1 + seq!['.'] + tld)[0] != "akamaitechnologies.com"@[0]);
            reveal_strlit("akamai.net");
            assert((d1 + seq!['.'] + tld)[0] != "akamai.net"@[0]);
            reveal_strlit("amazonaws.com");
            assert((d1 + seq!['.'] + tld)[0] != "amazonaws.com"@[0]);
            reveal_strlit("cloudfront.net");
            assert((d1 + seq!['.'] + tld)[0] != "cloudfront.net"@[0]);
        }
        assert(second_level(d1));
        lemma_brand_three_labels(x, l, d1, tld);
    }
    assert(brand_from_host_spec(x + "."@ + l + "."@ + "or"@ + "."@ + tld) == l) by {
        reveal_strlit(".");
        reveal_strlit("or");
        let d1 = seq!['o', 'r'];
        assert(d1 =~= "or"@);
        assert(x + "."@ + l + "."@ + "or"@ + "."@ + tld =~= x + seq!['.'] + l + seq!['.'] + d1 + seq!['.'] + tld);
        assert(lower_seq(d1) =~= d1);
        assert(!d1.contains('.')) by {
            if d1.contains('.') {
                let k = choose|k: int| 0 <= k < d1.len() && d1[k] == '.';
                assert(k == 0 || k == 1);
            }
        }
        assert(infra(d1 + seq!['.'] + tld) is None) by {
            reveal_strlit("1e100.net");
            assert((d1 + seq!['.'] + tld)[0] != "1e100.net"@[0]);
            reveal_strlit("gvt1.com");
            assert((d1 + seq!['.'] + tld)[0] != "gvt1.com"@[0]);
            reveal_strlit("gvt2.com");
            assert((d1 + seq!['.'] + tld)[0] != "gvt2.com"@[0]);
            reveal_strlit("googleusercontent.com");
            assert((d1 + seq!['.'] + tld)[0] != "googleusercontent.com"@[0]);
            reveal_strlit("googlevideo.com");
            assert((d1 + seq!['.'] + tld)[0] != "googlevideo.com"@[0]);
            reveal_strlit("fbcdn.net");
            assert((d1 + seq!['.'] + tld)[0] != "fbcdn.net"@[0]);
            reveal_strlit("fbsbx.com");
            assert((d1 + seq!['.'] + tld)[0] != "fbsbx.com"@[0]);
            reveal_strlit("akamaitechnologies.com");
            assert((d1 + seq!['.'] + tld)[0] != "akamaitechnologies.com"@[0]);
            reveal_strlit("akamai.net");
            assert((d1 + seq!['.'] + tld)[0] != "akamai.net"@[0]);
            reveal_strlit("amazonaws.com");
            assert((d1 + seq!['.'] + tld)[0] != "amazonaws.com"@[0]);
            reveal_strlit("cloudfront.net");
            assert((d1 + seq!['.'] + tld)[0] != "cloudfront.net"@[0]);
        }
        assert(second_level(d1));
        lemma_brand_three_labels(x, l, d1, tld);
    }
    assert(brand_from_host_spec(x + "."@ + l + "."@ + "ne"@ + "."@ + tld) == l) by {
        reveal_strlit(".");
        reveal_strlit("ne");
        let d1 = seq!['n', 'e'];
        assert(d1 =~= "ne"@);
        assert(x + "."@ + l + "."@ + "ne"@ + "."@ + tld =~= x + seq!['.'] + l + seq!['.'] + d1 + seq!['.'] + tld);
        assert(lower_seq(d1) =~= d1);
        assert(!d1.contains('.')) by {
            if d1.contains('.') {
                let k = choose|k: int| 0 <= k < d1.len() && d1[k] == '.';
                assert(k == 0 || k == 1);
            }
        }
        assert(infra(d1 + seq!['.'] + tld) is None) by {
            reveal_strlit("1e100.net");
            assert((d1 + seq!['.'] + tld)[0] != "1e100.net"@[0]);
            reveal_strlit("gvt1.com");
            assert((d1 + seq!['.'] + tld)[0] != "gvt1.com"@[0]);
            reveal_strlit("gvt2.com");
            assert((d1 + seq!['.'] + tld)[0] != "gvt2.com"@[0]);
            reveal_strlit("googleusercontent.com");
            assert((d1 + seq!['.'] + tld)[0] != "googleusercontent.com"@[0]);
            reveal_strlit("googlevideo.com");
            assert((d1 + seq!['.'] + tld)[0] != "googlevideo.com"@[0]);
            reveal_strlit("fbcdn.net");
            assert((d1 + seq!['.'] + tld)[0] != "fbcdn.net"@[0]);
            reveal_strlit("fbsbx.com");
            assert((d1 + seq!['.'] + tld)[0] != "fbsbx.com"@[0]);
            reveal_strlit("akamaitechnologies.com");
            assert((d1 + seq!['.'] + tld)[0] != "akamaitechnologies.com"@[0]);
            reveal_strlit("akamai.net");
            assert((d1 + seq!['.'] + tld)[0] != "akamai.net"@[0]);
            reveal_strlit("amazonaws.com");
            assert((d1 + seq!['.'] + tld)[0] != "amazonaws.com"@[0]);
            reveal_strlit("cloudfront.net");
            assert((d1 + seq!['.'] + tld)[0] != "cloudfront.net"@[0]);
        }
        assert(second_level(d1));
        lemma_brand_three_labels(x, l, d1, tld);
    }
    assert(brand_from_host_spec(x + "."@ + l + "."@ + "go"@ + "."@ + tld) == l) by {
        reveal_strlit(".");
        reveal_strlit("go");
        let d1 = seq!['g', 'o'];
        assert(d1 =~= "go"@);
        assert(x + "."@ + l + "."@ + "go"@ + "."@ + tld =~= x + seq!['.'] + l + seq!['.'] + d1 + seq!['.'] + tld);
        assert(lower_seq(d1) =~= d1);
        assert(!d1.contains('.')) by {
            if d1.contains('.') {
                let k = choose|k: int| 0 <= k < d1.len() && d1[k] == '.';
                assert(k == 0 || k == 1);
            }
        }
        assert(infra(d1 + seq!['.'] + tld) is None) by {
            reveal_strlit("1e100.net");
            assert((d1 + seq!['.'] + tld)[0] != "1e100.net"@[0]);
            reveal_strlit("gvt1.com");
            assert((d1 + seq!['.'] + tld)[1] != "gvt1.com"@[1]);
            reveal_strlit("gvt2.com");
            assert((d1 + seq!['.'] + tld)[1] != "gvt2.com"@[1]);
            reveal_strlit("googleusercontent.com");
            assert((d1 + seq!['.'] + tld)[2] != "googleusercontent.com"@[2]);
            reveal_strlit("googlevideo.com");
            assert((d1 + seq!['.'] + tld)[2] != "googlevideo.com"@[2]);
            reveal_strlit("fbcdn.net");
            assert((d1 + seq!['.'] + tld)[0] != "fbcdn.net"@[0]);
            reveal_strlit("fbsbx.com");
            assert((d1 + seq!['.'] + tld)[0] != "fbsbx.com"@[0]);
            reveal_strlit("akamaitechnologies.com");
            assert((d1 + seq!['.'] + tld)[0] != "akamaitechnologies.com"@[0]);
            reveal_strlit("akamai.net");
            assert((d1 + seq!['.'] + tld)[0] != "akamai.net"@[0]);
            reveal_strlit("amazonaws.com");
            assert((d1 + seq!['.'] + tld)[0] != "amazonaws.com"@[0]);
            reveal_strlit("cloudfront.net");
            assert((d1 + seq!['.'] + tld)[0] != "cloudfront.net"@[0]);
        }
        assert(second_level(d1));
        lemma_brand_three_labels(x, l, d1, tld);
    }
}

pub fn brand_from_host(host: &str) -> (r: String)
    ensures
        r@ == brand_from_host_spec(host@),
{
    let c = chars_of(host);
    let mut j: usize = c.len();
    assert(c@.take(c.len() as int) =~= c@);
    while j > 0 && c[j - 1] == '.'
        invariant
            j <= c.len(),
            trail_dots(c@) == (c.len() - j) + trail_dots(c@.take(j as int)),
        decreases j,
    {
        assert(c@.take(j as int).drop_last() =~= c@.take(j - 1));
        j = j - 1;
    }
    let cut = slice_of(&c, 0, j);
    let h = lower_all(&cut);
    let labels = split_on(&h, '.');
    let ghost lv = views(labels@);
    let n = labels.len();
    if n < 2 {
        return string_of(&h);
    }
    assert(lv[n - 2] == labels@[n - 2]@ && lv[n - 1] == labels@[n - 1]@);
    let mut last2 = string_of(&labels[n - 2]);
    last2.append(".");
    last2.append(string_of(&labels[n - 1]).as_str());
    match infra_brand(last2.as_str()) {
        Some(b) => {
            let mut r = String::new();
            r.append(b);
            return r;
        },
        None => {},
    }
    if n >= 3 && is_second_level(&labels[n - 2]) {
        assert(lv[n - 3] == labels@[n - 3]@);
        string_of(&labels[n - 3])
    } else {
        string_of(&labels[n - 2])
    }
}

/// `(ip, brand)` of a cache line `ip\tbrand\tepoch`, while within the TTL at `now`.
pub open spec fn cache_line_spec(line: Seq<char>, now: u64) -> Option<(Seq<char>, Seq<char>)> {
    let f = split(line, '\t');
    if f.len() < 3 {
        None
    } else {
        let ip = trim(f[0]);
        let brand = trim(f[1]);
        match parse_u64(trim(f[2])) {
            Some(epoch) => if ip.len() == 0 || brand.len() == 0 || (if now >= epoch {
                now - epoch
            } else {
                0
            }) > CACHE_TTL_SECS {
                None
            } else {
                Some((ip, brand))
            },
            None => None,
        }
    }
}

pub open spec fn pair_view(o: Option<(String, String)>) -> Option<(Seq<char>, Seq<char>)> {
    match o {
        Some(p) => Some((p.0@, p.1@)),
        None => None,
    }
}

/// Reads a line of the cache file, valid until `CACHE_TTL_SECS` after its epoch.
pub fn parse_cache_line(line: &str, now: u64) -> (r: Option<(String, String)>)
    ensures
        pair_view(r) == cache_line_spec(line@, now),
{
    let c = chars_of(line);
    let f = split_on(&c, '\t');
    let ghost fv = views(f@);
    if f.len() < 3 {
        return None;
    }
    assert(fv[0] == f@[0]@ && fv[1] == f@[1]@ && fv[2] == f@[2]@);
    let ip = trim_of(&f[0]);
    let brand = trim_of(&f[1]);
    let e = trim_of(&f[2]);
    let epoch = match parse_u64_of(&e) {
        Some(v) => v,
        None => return None,
    };
    if ip.len() == 0 || brand.len() == 0 || now.saturating_sub(epoch) > CACHE_TTL_SECS {
        return None;
    }
    Some((string_of(&ip), string_of(&brand)))
}

/// Host name in the output of `getent hosts <ip>` (its second field).
pub open spec fn ptr_host(out: Seq<char>) -> Option<Seq<char>> {
    let t = tokens(out);
    if t.len() >= 2 {
        Some(t[1])
    } else {
        None
    }
}

pub open spec fn opt_string_view(o: Option<String>) -> Option<Seq<char>> {
    match o {
        Some(s) => Some(s@),
        None => None,
    }
}

/// Brand for the output of a successful `getent hosts <ip>`; `None` when the
/// lookup failed (`None`) or named no host.
pub fn brand_of(getent: Option<&str>) -> (r: Option<String>)
    ensures
        opt_string_view(r) == (match getent {
            Some(out) => match ptr_host(out@) {
                Some(h) => Some(brand_from_host_spec(h)),
                None => None,
            },
            None => None,
        }),
{
    let out = match getent {
        Some(o) => o,
        None => return None,
    };
    let c = chars_of(out);
    let t = split_words(&c);
    if t.len() < 2 {
        return None;
    }
    assert(views(t@)[1] == t@[1]@);
    let h = string_of(&t[1]);
    Some(brand_from_host(h.as_str()))
}

// ---------------------------------------------------------------------------
// The cache of the background resolver
// ---------------------------------------------------------------------------

/// Cache of the background resolver: each requested address with its brand
/// once resolved (`None` while pending or when it has no PTR).
pub struct Resolver {
    enabled: bool,
    cache: Vec<(String, Option<String>)>,
}

pub open spec fn entry_map(v: Seq<(String, Option<String>)>) -> Map<Seq<char>, Option<Seq<char>>>
    decreases v.len(),
{
    if v.len() == 0 {
        Map::empty()
    } else {
        entry_map(v.drop_last()).insert(v.last().0@, opt_string_view(v.last().1))
    }
}

pub open spec fn unique_keys(v: Seq<(String, Option<String>)>) -> bool {
    forall|i: int, j: int| 0 <= i < j < v.len() ==> (#[trigger] v[i]).0@ != (#[trigger] v[j]).0@
}

proof fn lemma_entry_map_index(v: Seq<(String, Option<String>)>, i: int)
    requires
        unique_keys(v),
        0 <= i < v.len(),
    ensures
        entry_map(v).contains_key(v[i].0@),
        entry_map(v)[v[i].0@] == opt_string_view(v[i].1),
    decreases v.len(),
{
    if i < v.len() - 1 {
        assert(v.drop_last()[i] == v[i]);
        lemma_entry_map_index(v.drop_last(), i);
    }
}

proof fn lemma_entry_map_absent(v: Seq<(String, Option<String>)>, k: Seq<char>)
    requires
        forall|i: int| 0 <= i < v.len() ==> (#[trigger] v[i]).0@ != k,
    ensures
        !entry_map(v).contains_key(k),
    decreases v.len(),
{
    if v.len() > 0 {
        assert forall|i: int| 0 <= i < v.len() - 1 implies (#[trigger] v.drop_last()[i]).0@
            != k by {
            assert(v.drop_last()[i] == v[i]);
        }
        lemma_entry_map_absent(v.drop_last(), k);
    }
}

proof fn lemma_entry_map_update(v: Seq<(String, Option<String>)>, i: int, e: (String, Option<String>))
    requires
        unique_keys(v),
        0 <= i < v.len(),
        e.0@ == v[i].0@,
    ensures
        entry_map(v.update(i, e)) == entry_map(v).insert(e.0@, opt_string_view(e.1)),
        unique_keys(v.update(i, e)),
    decreases v.len(),
{
    let w = v.update(i, e);
    if i == v.len() - 1 {
        assert(w.drop_last() =~= v.drop_last());
        assert(entry_map(w) =~= entry_map(v).insert(e.0@, opt_string_view(e.1)));
    } else {
        assert(w.drop_last() =~= v.drop_last().update(i, e));
        lemma_entry_map_update(v.drop_last(), i, e);
        assert(v.last().0@ != e.0@) by {
            assert(v[i].0@ != v[v.len() - 1].0@);
        }
        assert(entry_map(w) =~= entry_map(v).insert(e.0@, opt_string_view(e.1)));
    }
    assert forall|a: int, b: int| 0 <= a < b < w.len() implies (#[trigger] w[a]).0@ != (
    #[trigger] w[b]).0@ by {
        assert(v[a].0@ != v[b].0@);
    }
}

impl Resolver {
    pub closed spec fn wf(&self) -> bool {
        unique_keys(self.cache@)
    }

    /// Addresses requested or loaded, with their brand (`None`: pending or no PTR).
    pub closed spec fn entries(&self) -> Map<Seq<char>, Option<Seq<char>>> {
        entry_map(self.cache@)
    }

    pub closed spec fn is_enabled(&self) -> bool {
        self.enabled
    }

    fn find(&self, ip: &str) -> (r: Option<usize>)
        requires
            self.wf(),
        ensures
            r matches Some(i) ==> i < self.cache.len() && self.cache@[i as int].0@ == ip@,
            r is None ==> !self.entries().contains_key(ip@),
            r is None ==> forall|k: int| 0 <= k < self.cache@.len() ==> (#[trigger] self.cache@[k]).0@ != ip@,
    {
        let mut i: usize = 0;
        while i < self.cache.len()
            invariant
                i <= self.cache.len(),
                forall|k: int| 0 <= k < i ==> (#[trigger] self.cache@[k]).0@ != ip@,
            decreases self.cache.len() - i,
        {
            if crate::text::string_is(&self.cache[i].0, ip) {
                return Some(i);
            }
            i = i + 1;
        }
        proof {
            lemma_entry_map_absent(self.cache@, ip@);
        }
        None
    }

    fn put(&mut self, ip: &str, brand: Option<String>)
        requires
            old(self).wf(),
        ensures
            final(self).wf(),
            final(self).entries() == old(self).entries().insert(ip@, opt_string_view(brand)),
            final(self).enabled == old(self).enabled,
    {
        let key = string_of(&chars_of(ip));
        match self.find(ip) {
            Some(i) => {
                proof {
                    lemma_entry_map_update(self.cache@, i as int, (key, brand));
                }
                self.cache.set(i, (key, brand));
            },
            None => {
                let ghost before = self.cache@;
                proof {
                    lemma_entry_map_absent(before, ip@);
                }
                self.cache.push((key, brand));
                assert(self.cache@.drop_last() =~= before);
                assert forall|a: int, b: int|
                    0 <= a < b < self.cache@.len() implies (#[trigger] self.cache@[a]).0@ != (
                #[trigger] self.cache@[b]).0@ by {
                    if b == self.cache@.len() - 1 {
                        assert(before[a] == self.cache@[a]);
                        assert(before[a].0@ != ip@) by {
                            if before[a].0@ == ip@ {
                                lemma_entry_map_index(before, a);
                            }
                        }
                    } else {
                        assert(before[a] == self.cache@[a] && before[b] == self.cache@[b]);
                    }
                }
            },
        }
    }

    /// A resolver, preloaded (when enabled) with the valid lines at `now` of
    /// the cache file's content `cache_file`. A disabled one holds nothing.
    pub fn new(enabled: bool, cache_file: Option<&str>, now: u64) -> (r: Resolver)
        ensures
            r.wf(),
            r.is_enabled() == enabled,
            !enabled ==> r.entries() == Map::<Seq<char>, Option<Seq<char>>>::empty(),
            enabled ==> r.entries() == (match cache_file {
                Some(c) => cache_map(lines(c@), now),
                None => Map::empty(),
            }),
    {
        let mut r = Resolver { enabled, cache: Vec::new() };
        assert(entry_map(r.cache@) =~= Map::<Seq<char>, Option<Seq<char>>>::empty());
        if !enabled {
            return r;
        }
        if let Some(content) = cache_file {
            let c = chars_of(content);
            let ls = lines_of(&c);
            let ghost lv = views(ls@);
            let mut i: usize = 0;
            while i < ls.len()
                invariant
                    i <= ls.len(),
                    lv == views(ls@),
                    r.wf(),
                    r.enabled == enabled,
                    r.entries() == cache_map(lv.take(i as int), now),
                decreases ls.len() - i,
            {
                assert(lv.take(i + 1).drop_last() =~= lv.take(i as int));
                assert(lv.take(i + 1).last() == ls@[i as int]@);
                let line = string_of(&ls[i]);
                match parse_cache_line(line.as_str(), now) {
                    Some((ip, brand)) => {
                        r.put(ip.as_str(), Some(brand));
                    },
                    None => {},
                }
                i = i + 1;
            }
            assert(lv.take(ls.len() as int) =~= lv);
        }
        r
    }

    /// Asks for the brand of `ip`: `true` when the lookup must be started
    /// (the resolver is enabled and `ip` was neither requested nor resolved
    /// before); `ip` is then recorded as pending.
    pub fn request(&mut self, ip: &str) -> (go: bool)
        requires
            old(self).wf(),
        ensures
            requested(*old(self), *final(self), ip@, go),
    {
        if !self.enabled {
            return false;
        }
        match self.find(ip) {
            Some(i) => {
                proof {
                    lemma_entry_map_index(self.cache@, i as int);
                }
                return false;
            },
            None => {},
        }
        self.put(ip, None);
        true
    }

    /// Records the result of a lookup of `ip`.
    pub fn resolved(&mut self, ip: &str, brand: Option<String>)
        requires
            old(self).wf(),
        ensures
            recorded(*old(self), *final(self), ip@, opt_string_view(brand)),
    {
        self.put(ip, brand);
    }

    /// Brand already resolved for `ip`, if any.
    pub fn get(&self, ip: &str) -> (r: Option<String>)
        requires
            self.wf(),
        ensures
            opt_string_view(r) == brand_in(*self, ip@),
    {
        if !self.enabled {
            return None;
        }
        match self.find(ip) {
            Some(i) => {
                proof {
                    lemma_entry_map_index(self.cache@, i as int);
                }
                match &self.cache[i].1 {
                    Some(b) => Some(b.clone()),
                    None => None,
                }
            },
            None => None,
        }
    }
}

/// What a read of `ip` gives: its brand, when the resolver is enabled and
/// has one for it.
pub open spec fn brand_in(r: Resolver, ip: Seq<char>) -> Option<Seq<char>> {
    if r.is_enabled() && r.entries().contains_key(ip) {
        r.entries()[ip]
    } else {
        None
    }
}

/// `n` is `o` after a request for `ip` that answered `go`: the lookup starts
/// when the resolver is enabled and `ip` was neither requested nor resolved
/// before, and `ip` is then recorded as pending.
pub open spec fn requested(o: Resolver, n: Resolver, ip: Seq<char>, go: bool) -> bool {
    &&& n.wf()
    &&& n.is_enabled() == o.is_enabled()
    &&& go == (o.is_enabled() && !o.entries().contains_key(ip))
    &&& n.entries() == (if go {
        o.entries().insert(ip, None)
    } else {
        o.entries()
    })
}

/// `n` is `o` with the result `brand` of a lookup of `ip` recorded.
pub open spec fn recorded(o: Resolver, n: Resolver, ip: Seq<char>, brand: Option<Seq<char>>) -> bool {
    &&& n.wf()
    &&& n.is_enabled() == o.is_enabled()
    &&& n.entries() == o.entries().insert(ip, brand)
}

/// An address is looked up at most once: asking again for it, resolved or
/// still pending, starts no second lookup.
pub proof fn law_request_once(r0: Resolver, r1: Resolver, r2: Resolver, ip: Seq<char>, go1: bool, go2: bool)
    requires
        requested(r0, r1, ip, go1),
        requested(r1, r2, ip, go2),
    ensures
        !go2,
{
}

/// A read gives back what the last lookup of the address found (on an
/// enabled resolver): its brand, or nothing when it has no PTR.
pub proof fn law_read_back(r0: Resolver, r1: Resolver, ip: Seq<char>, brand: Option<Seq<char>>)
    requires
        r0.is_enabled(),
        recorded(r0, r1, ip, brand),
    ensures
        brand_in(r1, ip) == brand,
{
}

/// A request does not change what a read of any address gives.
pub proof fn law_request_keeps_reads(r0: Resolver, r1: Resolver, ip: Seq<char>, go: bool, other: Seq<char>)
    requires
        requested(r0, r1, ip, go),
    ensures
        brand_in(r1, other) == brand_in(r0, other),
{
}

/// A disabled resolver never starts a lookup and reads nothing.
pub proof fn law_disabled_is_silent(r0: Resolver, r1: Resolver, ip: Seq<char>, go: bool)
    requires
        !r0.is_enabled(),
        requested(r0, r1, ip, go),
    ensures
        !go,
        brand_in(r1, ip) is None,
{
}

/// The brands of the valid cache lines at `now`; a later line for the same
/// address replaces an earlier one.
pub open spec fn cache_map(ls: Seq<Seq<char>>, now: u64) -> Map<Seq<char>, Option<Seq<char>>>
    decreases ls.len(),
{
    if ls.len() == 0 {
        Map::empty()
    } else {
        let m = cache_map(ls.drop_last(), now);
        match cache_line_spec(ls.last(), now) {
            Some((ip, brand)) => m.insert(ip, Some(brand)),
            None => m,
        }
    }
}

/// The cache line `ip<TAB>brand<TAB>epoch` (without its end of line).
pub open spec fn cache_text(ip: Seq<char>, brand: Seq<char>, epoch: u64) -> Seq<char> {
    ip + seq!['\t'] + brand + seq!['\t'] + dec(epoch as nat)
}

/// The line that records, at `epoch`, the brand found for `ip` (the file
/// holds one per line).
pub fn cache_line(ip: &str, brand: &str, epoch: u64) -> (r: String)
    ensures
        r@ == cache_text(ip@, brand@, epoch),
{
    let mut r = String::new();
    r.append(ip);
    crate::text::push_char(&mut r, '\t');
    r.append(brand);
    crate::text::push_char(&mut r, '\t');
    crate::text::push_dec(&mut r, epoch);
    r
}

/// A cache line as `cache_line` writes it reads back as `(ip, brand)`
/// exactly while it is at most `CACHE_TTL_SECS` old (an epoch in the future
/// counts as age 0).
#[verifier::spinoff_prover]
pub proof fn law_cache_line_round_trip(ip: Seq<char>, brand: Seq<char>, epoch: u64, now: u64)
    requires
        ip.len() > 0,
        brand.len() > 0,
        !ip.contains('\t'),
        !brand.contains('\t'),
        trim(ip) == ip,
        trim(brand) == brand,
    ensures
        cache_line_spec(cache_text(ip, brand, epoch), now) == (if (if now >= epoch {
            now - epoch
        } else {
            0
        }) <= CACHE_TTL_SECS {
            Some((ip, brand))
        } else {
            None
        }),
{
    let d = dec(epoch as nat);
    lemma_dec_digits(epoch as nat);
    assert(!d.contains('\t')) by {
        if d.contains('\t') {
            let k = choose|k: int| 0 <= k < d.len() && d[k] == '\t';
            assert(is_digit(d[k]));
        }
    }
    let rest = brand + seq!['\t'] + d;
    let line = ip + seq!['\t'] + rest;
    assert(ip + seq!['\t'] + brand + seq!['\t'] + d =~= line);
    lemma_split_field(ip, rest, '\t');
    lemma_split_field(brand, d, '\t');
    lemma_split_last_field(d, '\t');
    let f = split(line, '\t');
    assert(f =~= seq![ip, brand, d]);
    // The digits hold no white space and read back as the epoch.
    assert(is_digit(d[0]) && is_digit(d[d.len() - 1]));
    assert(lead_ws(d) == 0);
    assert(d.skip(0) =~= d);
    assert(trim_start(d) == d);
    assert(trail_ws(d) == 0);
    assert(d.take(d.len() - 0) =~= d);
    assert(trim(d) == d);
    assert(d[0] != '+');
    assert(parse_nat(d) == Some(epoch as nat));
}

} // verus!
