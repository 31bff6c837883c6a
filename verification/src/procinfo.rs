//! Process information from `/proc/<pid>`: command line, disk I/O, CPU and
//! memory. The files are read by the application; here is how their content
//! is read.
use crate::text::{
    chars_of, lines, lines_of, parse_u64, parse_u64_of, slice_of, split_words, starts_with,
    starts_with_lit, string_of, tokens, trim, trim_of, views,
};
use vstd::prelude::*;

verus! {

/// Cumulative disk bytes read and written (from `/proc/<pid>/io`).
#[derive(Debug, Clone, Copy)]
pub struct Io {
    pub read_bytes: u64,
    pub write_bytes: u64,
}

/// The values of the `read_bytes:` and `write_bytes:` lines; a later line of
/// the same name replaces the value of an earlier one (an unreadable value
/// clears it).
pub open spec fn io_fields(ls: Seq<Seq<char>>) -> (Option<u64>, Option<u64>)
    decreases ls.len(),
{
    if ls.len() == 0 {
        (None, None)
    } else {
        let (r, w) = io_fields(ls.drop_last());
        let l = ls.last();
        if starts_with(l, "read_bytes:"@) {
            (parse_u64(trim(l.skip(11))), w)
        } else if starts_with(l, "write_bytes:"@) {
            (r, parse_u64(trim(l.skip(12))))
        } else {
            (r, w)
        }
    }
}

pub open spec fn io_spec(data: Seq<char>) -> Option<(u64, u64)> {
    match io_fields(lines(data)) {
        (Some(r), Some(w)) => Some((r, w)),
        _ => None,
    }
}

/// Reads the content of `/proc/<pid>/io`.
pub fn parse_io(data: &str) -> (r: Option<Io>)
    ensures
        match r {
            Some(io) => io_spec(data@) == Some((io.read_bytes, io.write_bytes)),
            None => io_spec(data@) is None,
        },
{
    let c = chars_of(data);
    let ls = lines_of(&c);
    let ghost lv = views(ls@);
    let mut read_bytes: Option<u64> = None;
    let mut write_bytes: Option<u64> = None;
    let mut i: usize = 0;
    while i < ls.len()
        invariant
            i <= ls.len(),
            lv == views(ls@),
            io_fields(lv.take(i as int)) == (read_bytes, write_bytes),
        decreases ls.len() - i,
    {
        assert(lv.take(i + 1).drop_last() =~= lv.take(i as int));
        assert(lv.take(i + 1).last() == ls@[i as int]@);
        let l = &ls[i];
        if starts_with_lit(l, "read_bytes:") {
            proof {
                reveal_strlit("read_bytes:");
            }
            let v = slice_of(l, 11, l.len());
            assert(v@ =~= l@.skip(11));
            read_bytes = parse_u64_of(&trim_of(&v));
        } else if starts_with_lit(l, "write_bytes:") {
            proof {
                reveal_strlit("write_bytes:");
            }
            let v = slice_of(l, 12, l.len());
            assert(v@ =~= l@.skip(12));
            write_bytes = parse_u64_of(&trim_of(&v));
        }
        i = i + 1;
    }
    assert(lv.take(ls.len() as int) =~= lv);
    match (read_bytes, write_bytes) {
        (Some(r), Some(w)) => Some(Io { read_bytes: r, write_bytes: w }),
        _ => None,
    }
}

/// Short name of a process, from the content of `/proc/<pid>/comm`.
pub fn comm_of(content: &str) -> (r: String)
    ensures
        r@ == trim(content@),
{
    let c = chars_of(content);
    string_of(&trim_of(&c))
}

/// Number of trailing `kB` suffixes (`str::trim_end_matches("kB")`).
pub open spec fn trail_kb(s: Seq<char>) -> nat
    decreases s.len(),
{
    if s.len() >= 2 && s[s.len() - 2] == 'k' && s[s.len() - 1] == 'B' {
        2 + trail_kb(s.take(s.len() - 2))
    } else {
        0
    }
}

/// The value on the first `VmRSS:` line, in kB (`None` when there is no such
/// line or its value does not read as a number).
pub open spec fn rss_spec(ls: Seq<Seq<char>>) -> Option<u64>
    decreases ls.len(),
{
    if ls.len() == 0 {
        None
    } else if starts_with(ls[0], "VmRSS:"@) {
        let v = trim(ls[0].skip(6));
        parse_u64(trim(v.take(v.len() - trail_kb(v))))
    } else {
        rss_spec(ls.drop_first())
    }
}

/// Resident memory in kB, from the content of `/proc/<pid>/status`.
pub fn rss_kb(data: &str) -> (r: Option<u64>)
    ensures
        r == rss_spec(lines(data@)),
{
    let c = chars_of(data);
    let ls = lines_of(&c);
    let ghost lv = views(ls@);
    let mut i: usize = 0;
    assert(lv.skip(0) =~= lv);
    while i < ls.len()
        invariant
            i <= ls.len(),
            lv == views(ls@),
            lv == lines(data@),
            rss_spec(lv) == rss_spec(lv.skip(i as int)),
        decreases ls.len() - i,
    {
        assert(lv.skip(i as int)[0] == ls@[i as int]@);
        assert(lv.skip(i as int).drop_first() =~= lv.skip(i + 1));
        let l = &ls[i];
        if starts_with_lit(l, "VmRSS:") {
            proof {
                reveal_strlit("VmRSS:");
            }
            let rest = slice_of(l, 6, l.len());
            assert(rest@ =~= l@.skip(6));
            let v = trim_of(&rest);
            let mut j: usize = v.len();
            assert(v@.take(v.len() as int) =~= v@);
            while j >= 2 && v[j - 2] == 'k' && v[j - 1] == 'B'
                invariant
                    j <= v.len(),
                    trail_kb(v@) == (v.len() - j) + trail_kb(v@.take(j as int)),
                decreases j,
            {
                assert(v@.take(j as int).take(j - 2) =~= v@.take(j - 2));
                j = j - 2;
            }
            let cut = slice_of(&v, 0, j);
            assert(cut@ =~= v@.take(v.len() - trail_kb(v@)));
            return parse_u64_of(&trim_of(&cut));
        }
        i = i + 1;
    }
    None
}

/// `utime` and `stime` (fields 14 and 15) of `/proc/<pid>/stat`, counted
/// after the last `)`.
pub open spec fn cpu_times_spec(data: Seq<char>) -> Option<(u64, u64)> {
    match crate::text::rfind_char(data, ')') {
        Some(rp) => {
            let t = tokens(data.skip(rp + 1));
            if t.len() < 13 {
                None
            } else {
                match (parse_u64(t[11]), parse_u64(t[12])) {
                    (Some(u), Some(s)) => Some((u, s)),
                    _ => None,
                }
            }
        },
        None => None,
    }
}

pub fn cpu_times(data: &str) -> (r: Option<(u64, u64)>)
    ensures
        r == cpu_times_spec(data@),
{
    let d = chars_of(data);
    let rp = match crate::text::rfind_char_in(&d, ')') {
        Some(i) => i,
        None => return None,
    };
    proof {
        crate::text::lemma_rfind_char(d@, ')');
    }
    assert(rp < d.len());
    let rest = slice_of(&d, rp + 1, d.len());
    assert(rest@ =~= d@.skip(rp + 1));
    let t = split_words(&rest);
    if t.len() < 13 {
        return None;
    }
    assert(views(t@)[11] == t@[11]@ && views(t@)[12] == t@[12]@);
    let u = match parse_u64_of(&t[11]) {
        Some(v) => v,
        None => return None,
    };
    let s = match parse_u64_of(&t[12]) {
        Some(v) => v,
        None => return None,
    };
    Some((u, s))
}

/// CPU ticks of a process (`utime + stime`), from `/proc/<pid>/stat`.
pub fn cpu_ticks(data: &str) -> (r: Option<u64>)
    requires
        cpu_times_spec(data@) matches Some((u, s)) ==> u + s <= u64::MAX,
    ensures
        r == (match cpu_times_spec(data@) {
            Some((u, s)) => Some((u + s) as u64),
            None => None,
        }),
{
    match cpu_times(data) {
        Some((u, s)) => Some(u + s),
        None => None,
    }
}

/// CPU ticks, or `None` also when `utime + stime` does not fit in a `u64`.
pub fn cpu_ticks_checked(data: &str) -> (r: Option<u64>)
    ensures
        r == (match cpu_times_spec(data@) {
            Some((u, s)) => if u + s <= u64::MAX {
                Some((u + s) as u64)
            } else {
                None
            },
            None => None,
        }),
{
    match cpu_times(data) {
        Some((u, s)) => u.checked_add(s),
        None => None,
    }
}

/// Sum of the numbers among the fields.
pub open spec fn num_sum(t: Seq<Seq<char>>) -> nat
    decreases t.len(),
{
    if t.len() == 0 {
        0
    } else {
        num_sum(t.drop_last()) + match parse_u64(t.last()) {
            Some(v) => v as nat,
            None => 0,
        }
    }
}

/// Total CPU jiffies of the system: the sum of the numbers on the first line
/// of `/proc/stat`, when it starts with `cpu`.
pub open spec fn jiffies_spec(data: Seq<char>) -> Option<nat> {
    let ls = lines(data);
    if ls.len() == 0 || !starts_with(ls[0], "cpu"@) {
        None
    } else {
        Some(num_sum(tokens(ls[0].skip(3))))
    }
}

/// Total CPU jiffies, or `None` also when the sum does not fit in a `u64`.
pub fn total_jiffies_checked(data: &str) -> (r: Option<u64>)
    ensures
        r == (match jiffies_spec(data@) {
            Some(v) => if v <= u64::MAX {
                Some(v as u64)
            } else {
                None
            },
            None => None,
        }),
{
    let c = chars_of(data);
    let ls = lines_of(&c);
    assert(views(ls@) == lines(data@));
    if ls.len() == 0 {
        return None;
    }
    assert(views(ls@)[0] == ls@[0]@);
    let l = &ls[0];
    if !starts_with_lit(l, "cpu") {
        return None;
    }
    proof {
        reveal_strlit("cpu");
    }
    let rest = slice_of(l, 3, l.len());
    assert(rest@ =~= l@.skip(3));
    let t = split_words(&rest);
    let ghost tv = views(t@);
    let mut sum: u64 = 0;
    let mut k: usize = 0;
    proof {
        lemma_num_sum_mono(tv, 0);
    }
    assert(jiffies_spec(data@) == Some(num_sum(tv)));
    while k < t.len()
        invariant
            k <= t.len(),
            tv == views(t@),
            jiffies_spec(data@) == Some(num_sum(tv)),
            sum == num_sum(tv.take(k as int)),
            forall|m: int| 0 <= m <= tv.len() ==> num_sum(#[trigger] tv.take(m)) <= num_sum(tv),
        decreases t.len() - k,
    {
        assert(tv.take(k + 1).drop_last() =~= tv.take(k as int));
        assert(tv.take(k + 1).last() == t@[k as int]@);
        assert(num_sum(tv.take(k + 1)) <= num_sum(tv));
        match parse_u64_of(&t[k]) {
            Some(v) => {
                match sum.checked_add(v) {
                    Some(s2) => {
                        sum = s2;
                    },
                    None => {
                        assert(num_sum(tv.take(k + 1)) == num_sum(tv.take(k as int)) + v);
                        assert(num_sum(tv) > u64::MAX);
                        return None;
                    },
                }
            },
            None => {},
        }
        k = k + 1;
    }
    assert(tv.take(t.len() as int) =~= tv);
    Some(sum)
}

pub fn total_jiffies(data: &str) -> (r: Option<u64>)
    requires
        jiffies_spec(data@) matches Some(v) ==> v <= u64::MAX,
    ensures
        r == (match jiffies_spec(data@) {
            Some(v) => Some(v as u64),
            None => None,
        }),
{
    total_jiffies_checked(data)
}

proof fn lemma_num_sum_mono(t: Seq<Seq<char>>, dummy: int)
    ensures
        forall|m: int| 0 <= m <= t.len() ==> num_sum(#[trigger] t.take(m)) <= num_sum(t),
    decreases t.len(),
{
    if t.len() > 0 {
        lemma_num_sum_mono(t.drop_last(), dummy);
        assert forall|m: int| 0 <= m <= t.len() implies num_sum(#[trigger] t.take(m)) <= num_sum(
            t,
        ) by {
            if m < t.len() {
                assert(t.take(m) =~= t.drop_last().take(m));
            } else {
                assert(t.take(m) =~= t);
            }
        }
    }
}

// ---------------------------------------------------------------------------
// Command line
// ---------------------------------------------------------------------------

/// What `String::from_utf8_lossy` makes of some bytes.
pub uninterp spec fn utf8_lossy(bytes: Seq<u8>) -> Seq<char>;

/// Decodes bytes as UTF-8, replacing invalid sequences (std's
/// `String::from_utf8_lossy`).
#[verifier::external_body]
fn lossy(bytes: &[u8]) -> (r: String)
    ensures
        r@ == utf8_lossy(bytes@),
{
    String::from_utf8_lossy(bytes).into_owned()
}

/// The NUL-separated pieces of `raw`, without the empty ones.
pub open spec fn nul_pieces(raw: Seq<u8>) -> Seq<Seq<u8>>
    decreases raw.len(),
{
    if raw.len() == 0 {
        seq![]
    } else {
        let n = nul_run(raw);
        if n == 0 {
            nul_pieces(raw.drop_first())
        } else if n <= raw.len() {
            seq![raw.take(n as int)] + nul_pieces(raw.skip(n as int))
        } else {
            seq![]
        }
    }
}

/// Length of the leading run of non-NUL bytes.
pub open spec fn nul_run(raw: Seq<u8>) -> nat
    decreases raw.len(),
{
    if raw.len() == 0 || raw[0] == 0 {
        0
    } else {
        1 + nul_run(raw.drop_first())
    }
}

proof fn lemma_nul_run(raw: Seq<u8>)
    ensures
        nul_run(raw) <= raw.len(),
    decreases raw.len(),
{
    if raw.len() > 0 && raw[0] != 0 {
        lemma_nul_run(raw.drop_first());
    }
}

pub open spec fn decoded(p: Seq<Seq<u8>>) -> Seq<Seq<char>> {
    p.map_values(|b: Seq<u8>| utf8_lossy(b))
}

/// Full command line of a process from the content of
/// `/proc/<pid>/cmdline` (arguments separated by NUL), falling back to the
/// name in brackets (kernel threads have no command line), or `?`.
pub open spec fn cmdline_spec(raw: Option<Seq<u8>>, comm: Option<Seq<char>>) -> Seq<char> {
    let joined = match raw {
        Some(b) => crate::text::join(decoded(nul_pieces(b)), seq![' ']),
        None => seq![],
    };
    if raw is Some && raw.unwrap().len() > 0 && trim(joined).len() > 0 {
        joined
    } else {
        match comm {
            Some(c) => "["@ + c + "]"@,
            None => "?"@,
        }
    }
}

pub open spec fn opt_bytes(o: Option<&[u8]>) -> Option<Seq<u8>> {
    match o {
        Some(b) => Some(b@),
        None => None,
    }
}

pub open spec fn opt_chars(o: Option<&str>) -> Option<Seq<char>> {
    match o {
        Some(s) => Some(s@),
        None => None,
    }
}

pub fn cmdline(raw: Option<&[u8]>, comm: Option<&str>) -> (r: String)
    ensures
        r@ == cmdline_spec(opt_bytes(raw), opt_chars(comm)),
{
    if let Some(b) = raw {
        if b.len() > 0 {
            let mut pieces: Vec<Vec<char>> = Vec::new();
            let mut i: usize = 0;
            let ghost bv = b@;
            assert(bv.skip(0) =~= bv);
            while i < b.len()
                invariant
                    i <= b.len(),
                    bv == b@,
                    views(pieces@) + decoded(nul_pieces(bv.skip(i as int))) == decoded(
                        nul_pieces(bv),
                    ),
                decreases b.len() - i,
            {
                let ghost rest = bv.skip(i as int);
                if b[i] == 0 {
                    assert(rest.drop_first() =~= bv.skip(i + 1));
                    i = i + 1;
                } else {
                    let mut j: usize = i;
                    while j < b.len() && b[j] != 0
                        invariant
                            i <= j <= b.len(),
                            bv == b@,
                            nul_run(bv.skip(i as int)) == (j - i) + nul_run(bv.skip(j as int)),
                        decreases b.len() - j,
                    {
                        assert(bv.skip(j as int).drop_first() =~= bv.skip(j + 1));
                        j = j + 1;
                    }
                    proof {
                        lemma_nul_run(rest);
                        assert(rest.take(nul_run(rest) as int) =~= bv.subrange(i as int, j as int));
                        assert(rest.skip(nul_run(rest) as int) =~= bv.skip(j as int));
                    }
                    let mut piece: Vec<u8> = Vec::new();
                    let mut k: usize = i;
                    while k < j
                        invariant
                            i <= k <= j <= b.len(),
                            bv == b@,
                            piece@ == bv.subrange(i as int, k as int),
                        decreases j - k,
                    {
                        piece.push(b[k]);
                        k = k + 1;
                        assert(piece@ =~= bv.subrange(i as int, k as int));
                    }
                    let s = lossy(piece.as_slice());
                    let ghost before = views(pieces@);
                    pieces.push(chars_of(s.as_str()));
                    proof {
                        assert(views(pieces@) =~= before.push(utf8_lossy(piece@)));
                        let tail = decoded(nul_pieces(bv.skip(j as int)));
                        assert(decoded(nul_pieces(rest)) =~= seq![utf8_lossy(piece@)] + tail);
                        assert(before.push(utf8_lossy(piece@)) + tail =~= before + (seq![
                            utf8_lossy(piece@),
                        ] + tail));
                    }
                    i = j;
                }
            }
            assert(bv.skip(i as int) =~= Seq::<u8>::empty());
            assert(views(pieces@) =~= decoded(nul_pieces(bv)));
            let joined = crate::text::join_spaced(&pieces, 0);
            assert(views(pieces@).skip(0) =~= views(pieces@));
            if trim_of(&joined).len() > 0 {
                return string_of(&joined);
            }
        }
    }
    let mut r = String::new();
    match comm {
        Some(c) => {
            r.append("[");
            r.append(c);
            r.append("]");
        },
        None => r.append("?"),
    }
    r
}

} // verus!
