//! Character-level text handling: whitespace tokens, splitting, searching,
//! trimming, ASCII case folding and decimal numbers, each with the exact
//! mathematical meaning of the corresponding `str` operation.
use vstd::prelude::*;

verus! {

broadcast use vstd::string::group_string_axioms;

// ---------------------------------------------------------------------------
// Character classes
// ---------------------------------------------------------------------------

/// Unicode `White_Space`, the set that `char::is_whitespace` (and so
/// `str::split_whitespace` and `str::trim`) uses.
pub open spec fn is_ws(c: char) -> bool {
    let u = c as u32;
    ||| 9 <= u <= 13
    ||| u == 32
    ||| u == 0x85
    ||| u == 0xA0
    ||| u == 0x1680
    ||| 0x2000 <= u <= 0x200A
    ||| u == 0x2028
    ||| u == 0x2029
    ||| u == 0x202F
    ||| u == 0x205F
    ||| u == 0x3000
}

pub fn is_whitespace(c: char) -> (b: bool)
    ensures
        b == is_ws(c),
{
    let u = c as u32;
    (9 <= u && u <= 13) || u == 32 || u == 0x85 || u == 0xA0 || u == 0x1680 || (0x2000 <= u && u
        <= 0x200A) || u == 0x2028 || u == 0x2029 || u == 0x202F || u == 0x205F || u == 0x3000
}

pub open spec fn is_digit(c: char) -> bool {
    '0' <= c <= '9'
}

pub open spec fn is_hex_digit(c: char) -> bool {
    ||| '0' <= c <= '9'
    ||| 'a' <= c <= 'f'
    ||| 'A' <= c <= 'F'
}

/// ASCII lower case of one character (`char::to_ascii_lowercase`).
pub open spec fn lower(c: char) -> char {
    if 'A' <= c <= 'Z' {
        ((c as u32) + 32) as char
    } else {
        c
    }
}

/// ASCII upper case of one character (`char::to_ascii_uppercase`).
pub open spec fn upper(c: char) -> char {
    if 'a' <= c <= 'z' {
        ((c as u32) - 32) as char
    } else {
        c
    }
}

pub open spec fn lower_seq(s: Seq<char>) -> Seq<char> {
    s.map_values(|c: char| lower(c))
}

pub open spec fn upper_seq(s: Seq<char>) -> Seq<char> {
    s.map_values(|c: char| upper(c))
}

pub fn lower_char(c: char) -> (r: char)
    ensures
        r == lower(c),
{
    if 'A' <= c && c <= 'Z' {
        let u: u8 = (c as u32 + 32) as u8;
        let r = u as char;
        assert(r == lower(c)) by {
            assert((c as u32 + 32) < 128);
        }
        r
    } else {
        c
    }
}

pub fn upper_char(c: char) -> (r: char)
    ensures
        r == upper(c),
{
    if 'a' <= c && c <= 'z' {
        let u: u8 = (c as u32 - 32) as u8;
        u as char
    } else {
        c
    }
}

// ---------------------------------------------------------------------------
// Conversions between `str`/`String` and character vectors
// ---------------------------------------------------------------------------

/// Appends one character to a `String` (std's `String::push`).
#[verifier::external_body]
pub(crate) fn push_char(s: &mut String, c: char)
    ensures
        final(s)@ == old(s)@.push(c),
{
    s.push(c);
}

/// The characters of a string slice, in order.
pub fn chars_of(s: &str) -> (v: Vec<char>)
    ensures
        v@ == s@,
{
    let mut v: Vec<char> = Vec::new();
    for c in it: s.chars()
        invariant
            v@ == it.seq().take(it.index() as int),
    {
        v.push(c);
    }
    v
}

/// A `String` holding exactly the given characters.
pub fn string_of(v: &Vec<char>) -> (s: String)
    ensures
        s@ == v@,
{
    let mut s = String::new();
    let mut i: usize = 0;
    while i < v.len()
        invariant
            i <= v.len(),
            s@ == v@.take(i as int),
        decreases v.len() - i,
    {
        push_char(&mut s, v[i]);
        i = i + 1;
        assert(s@ =~= v@.take(i as int));
    }
    assert(v@.take(v.len() as int) =~= v@);
    s
}

/// Appends the given characters to a `String`.
pub fn append_chars(s: &mut String, v: &Vec<char>)
    ensures
        final(s)@ == old(s)@ + v@,
{
    let ghost start = s@;
    let mut i: usize = 0;
    while i < v.len()
        invariant
            i <= v.len(),
            s@ == start + v@.take(i as int),
        decreases v.len() - i,
    {
        push_char(s, v[i]);
        i = i + 1;
        assert(s@ =~= start + v@.take(i as int));
    }
    assert(v@.take(v.len() as int) =~= v@);
}

/// The characters `v[lo..hi]`.
pub fn slice_of(v: &Vec<char>, lo: usize, hi: usize) -> (r: Vec<char>)
    requires
        lo <= hi <= v.len(),
    ensures
        r@ == v@.subrange(lo as int, hi as int),
{
    let mut r: Vec<char> = Vec::new();
    let mut i: usize = lo;
    while i < hi
        invariant
            lo <= i <= hi <= v.len(),
            r@ == v@.subrange(lo as int, i as int),
        decreases hi - i,
    {
        r.push(v[i]);
        i = i + 1;
        assert(r@ =~= v@.subrange(lo as int, i as int));
    }
    r
}

/// Whether two character vectors hold the same characters.
pub fn same(a: &Vec<char>, b: &Vec<char>) -> (r: bool)
    ensures
        r == (a@ == b@),
{
    if a.len() != b.len() {
        return false;
    }
    let mut i: usize = 0;
    while i < a.len()
        invariant
            a.len() == b.len(),
            i <= a.len(),
            forall|k: int| 0 <= k < i ==> a@[k] == b@[k],
        decreases a.len() - i,
    {
        if a[i] != b[i] {
            return false;
        }
        i = i + 1;
    }
    assert(a@ =~= b@);
    true
}

/// Whether the characters equal those of a string literal.
pub fn is_lit(a: &Vec<char>, lit: &str) -> (r: bool)
    ensures
        r == (a@ == lit@),
{
    let b = chars_of(lit);
    same(a, &b)
}

/// ASCII lower case of every character (`str::to_ascii_lowercase`).
pub fn lower_all(v: &Vec<char>) -> (r: Vec<char>)
    ensures
        r@ == lower_seq(v@),
{
    let mut r: Vec<char> = Vec::new();
    let mut i: usize = 0;
    while i < v.len()
        invariant
            i <= v.len(),
            r@ == lower_seq(v@.take(i as int)),
        decreases v.len() - i,
    {
        r.push(lower_char(v[i]));
        i = i + 1;
        assert(r@ =~= lower_seq(v@.take(i as int)));
    }
    assert(v@.take(v.len() as int) =~= v@);
    r
}

/// ASCII upper case of every character (`str::to_ascii_uppercase`).
pub fn upper_all(v: &Vec<char>) -> (r: Vec<char>)
    ensures
        r@ == upper_seq(v@),
{
    let mut r: Vec<char> = Vec::new();
    let mut i: usize = 0;
    while i < v.len()
        invariant
            i <= v.len(),
            r@ == upper_seq(v@.take(i as int)),
        decreases v.len() - i,
    {
        r.push(upper_char(v[i]));
        i = i + 1;
        assert(r@ =~= upper_seq(v@.take(i as int)));
    }
    assert(v@.take(v.len() as int) =~= v@);
    r
}

// ---------------------------------------------------------------------------
// Prefixes, searching
// ---------------------------------------------------------------------------

pub open spec fn starts_with(s: Seq<char>, p: Seq<char>) -> bool {
    p.len() <= s.len() && s.take(p.len() as int) == p
}

pub open spec fn matches_at(s: Seq<char>, p: Seq<char>, i: int) -> bool {
    0 <= i && i + p.len() <= s.len() && s.subrange(i, i + p.len()) == p
}

/// First position at or after `i` where `p` occurs in `s`.
pub open spec fn find_from(s: Seq<char>, p: Seq<char>, i: int) -> Option<int>
    decreases s.len() + 1 - i,
{
    if i < 0 || i + p.len() > s.len() {
        None
    } else if matches_at(s, p, i) {
        Some(i)
    } else {
        find_from(s, p, i + 1)
    }
}

/// First occurrence of `p` in `s` (`str::find` with a string pattern).
pub open spec fn find(s: Seq<char>, p: Seq<char>) -> Option<int> {
    find_from(s, p, 0)
}

/// `str::contains` with a string pattern.
pub open spec fn contains(s: Seq<char>, p: Seq<char>) -> bool {
    find(s, p) is Some
}

pub proof fn lemma_find_from_bounds(s: Seq<char>, p: Seq<char>, i: int)
    requires
        0 <= i,
    ensures
        find_from(s, p, i) matches Some(j) ==> i <= j && matches_at(s, p, j),
        find_from(s, p, i) is None ==> forall|j: int| i <= j ==> !#[trigger] matches_at(s, p, j),
    decreases s.len() + 1 - i,
{
    if i + p.len() > s.len() {
    } else if !matches_at(s, p, i) {
        lemma_find_from_bounds(s, p, i + 1);
    }
}

pub fn starts_with_lit(s: &Vec<char>, lit: &str) -> (r: bool)
    ensures
        r == starts_with(s@, lit@),
{
    let p = chars_of(lit);
    starts_with_at(s, &p, 0)
}

/// Whether `p` occurs in `s` at position `i`.
pub fn starts_with_at(s: &Vec<char>, p: &Vec<char>, i: usize) -> (r: bool)
    requires
        i <= s.len(),
    ensures
        r == matches_at(s@, p@, i as int),
        i == 0 ==> r == starts_with(s@, p@),
{
    if p.len() > s.len() - i {
        return false;
    }
    let mut k: usize = 0;
    while k < p.len()
        invariant
            i + p.len() <= s.len(),
            k <= p.len(),
            forall|m: int| 0 <= m < k ==> s@[i + m] == p@[m],
        decreases p.len() - k,
    {
        if s[i + k] != p[k] {
            assert(s@.subrange(i as int, i + p.len())[k as int] != p@[k as int]);
            return false;
        }
        k = k + 1;
    }
    assert(s@.subrange(i as int, i + p.len()) =~= p@);
    proof {
        if i == 0 {
            assert(s@.take(p.len() as int) =~= s@.subrange(0, p.len() as int));
        }
    }
    true
}

/// First occurrence of `p` in `s`.
pub fn find_seq(s: &Vec<char>, p: &Vec<char>) -> (r: Option<usize>)
    ensures
        r matches Some(i) ==> find(s@, p@) == Some(i as int),
        r is None ==> find(s@, p@) is None,
{
    if p.len() > s.len() {
        return None;
    }
    let lim = s.len() - p.len();
    let mut i: usize = 0;
    while i <= lim
        invariant
            lim == s.len() - p.len(),
            i <= lim + 1,
            find(s@, p@) == find_from(s@, p@, i as int),
        decreases lim + 1 - i,
    {
        if starts_with_at(s, p, i) {
            return Some(i);
        }
        if i == lim {
            assert(find_from(s@, p@, i + 1) is None);
            return None;
        }
        i = i + 1;
    }
    assert(find_from(s@, p@, i as int) is None);
    None
}

pub fn find_lit(s: &Vec<char>, lit: &str) -> (r: Option<usize>)
    ensures
        r matches Some(i) ==> find(s@, lit@) == Some(i as int),
        r is None ==> find(s@, lit@) is None,
{
    let p = chars_of(lit);
    find_seq(s, &p)
}

pub fn contains_seq(s: &Vec<char>, p: &Vec<char>) -> (r: bool)
    ensures
        r == contains(s@, p@),
{
    find_seq(s, p).is_some()
}

/// Index of the first character satisfying `is_ws`, or the length.
pub open spec fn word_len(s: Seq<char>) -> nat
    decreases s.len(),
{
    if s.len() == 0 || is_ws(s[0]) {
        0
    } else {
        1 + word_len(s.drop_first())
    }
}

/// Index of the first occurrence of `c`, or the length.
pub open spec fn piece_len(s: Seq<char>, c: char) -> nat
    decreases s.len(),
{
    if s.len() == 0 || s[0] == c {
        0
    } else {
        1 + piece_len(s.drop_first(), c)
    }
}

pub proof fn lemma_word_len(s: Seq<char>)
    ensures
        word_len(s) <= s.len(),
        forall|k: int| 0 <= k < word_len(s) ==> !is_ws(#[trigger] s[k]),
        word_len(s) < s.len() ==> is_ws(s[word_len(s) as int]),
    decreases s.len(),
{
    if s.len() > 0 && !is_ws(s[0]) {
        lemma_word_len(s.drop_first());
        assert forall|k: int| 0 <= k < word_len(s) implies !is_ws(#[trigger] s[k]) by {
            if k > 0 {
                assert(s[k] == s.drop_first()[k - 1]);
            }
        }
    }
}

pub proof fn lemma_piece_len(s: Seq<char>, c: char)
    ensures
        piece_len(s, c) <= s.len(),
        forall|k: int| 0 <= k < piece_len(s, c) ==> #[trigger] s[k] != c,
        piece_len(s, c) < s.len() ==> s[piece_len(s, c) as int] == c,
    decreases s.len(),
{
    if s.len() > 0 && s[0] != c {
        lemma_piece_len(s.drop_first(), c);
        assert forall|k: int| 0 <= k < piece_len(s, c) implies #[trigger] s[k] != c by {
            if k > 0 {
                assert(s[k] == s.drop_first()[k - 1]);
            }
        }
    }
}

/// First occurrence of character `c` (`str::find` with a `char` pattern).
pub open spec fn find_char(s: Seq<char>, c: char) -> Option<int> {
    if piece_len(s, c) < s.len() {
        Some(piece_len(s, c) as int)
    } else {
        None
    }
}

/// Last occurrence of character `c` (`str::rfind`).
pub open spec fn rfind_char(s: Seq<char>, c: char) -> Option<int>
    decreases s.len(),
{
    if s.len() == 0 {
        None
    } else if s.last() == c {
        Some(s.len() - 1)
    } else {
        rfind_char(s.drop_last(), c)
    }
}

pub proof fn lemma_rfind_char(s: Seq<char>, c: char)
    ensures
        rfind_char(s, c) matches Some(i) ==> 0 <= i < s.len() && s[i] == c && forall|k: int|
            i < k < s.len() ==> #[trigger] s[k] != c,
        rfind_char(s, c) is None ==> forall|k: int| 0 <= k < s.len() ==> #[trigger] s[k] != c,
    decreases s.len(),
{
    if s.len() > 0 && s.last() != c {
        lemma_rfind_char(s.drop_last(), c);
        assert forall|k: int| 0 <= k < s.len() - 1 implies #[trigger] s[k] == s.drop_last()[k] by {}
    }
}

/// Position of the first occurrence of `c` at or after `from`, or the length.
pub fn scan_to_char(s: &Vec<char>, from: usize, c: char) -> (r: usize)
    requires
        from <= s.len(),
    ensures
        r == from + piece_len(s@.skip(from as int), c),
        from <= r <= s.len(),
{
    let mut j: usize = from;
    proof {
        lemma_piece_len(s@.skip(from as int), c);
    }
    while j < s.len() && s[j] != c
        invariant
            from <= j <= s.len(),
            piece_len(s@.skip(from as int), c) == (j - from) + piece_len(s@.skip(j as int), c),
        decreases s.len() - j,
    {
        assert(s@.skip(j as int).drop_first() =~= s@.skip(j + 1));
        j = j + 1;
    }
    j
}

/// Position of the first whitespace character at or after `from`, or the length.
pub fn scan_word(s: &Vec<char>, from: usize) -> (r: usize)
    requires
        from <= s.len(),
    ensures
        r == from + word_len(s@.skip(from as int)),
        from <= r <= s.len(),
{
    let mut j: usize = from;
    while j < s.len() && !is_whitespace(s[j])
        invariant
            from <= j <= s.len(),
            word_len(s@.skip(from as int)) == (j - from) + word_len(s@.skip(j as int)),
        decreases s.len() - j,
    {
        assert(s@.skip(j as int).drop_first() =~= s@.skip(j + 1));
        j = j + 1;
    }
    j
}

pub fn find_char_in(s: &Vec<char>, c: char) -> (r: Option<usize>)
    ensures
        r matches Some(i) ==> find_char(s@, c) == Some(i as int),
        r is None ==> find_char(s@, c) is None,
{
    let j = scan_to_char(s, 0, c);
    assert(s@.skip(0) =~= s@);
    if j < s.len() {
        Some(j)
    } else {
        None
    }
}

pub fn rfind_char_in(s: &Vec<char>, c: char) -> (r: Option<usize>)
    ensures
        r matches Some(i) ==> rfind_char(s@, c) == Some(i as int),
        r is None ==> rfind_char(s@, c) is None,
{
    let mut j: usize = s.len();
    assert(s@.take(s.len() as int) =~= s@);
    while j > 0
        invariant
            j <= s.len(),
            rfind_char(s@, c) == rfind_char(s@.take(j as int), c),
        decreases j,
    {
        assert(s@.take(j as int).drop_last() =~= s@.take(j - 1));
        if s[j - 1] == c {
            return Some(j - 1);
        }
        j = j - 1;
    }
    None
}

// ---------------------------------------------------------------------------
// Splitting
// ---------------------------------------------------------------------------

/// `str::split_whitespace`.
pub open spec fn tokens(s: Seq<char>) -> Seq<Seq<char>>
    decreases s.len(),
{
    if s.len() == 0 {
        seq![]
    } else if is_ws(s[0]) {
        tokens(s.drop_first())
    } else {
        let n = word_len(s);
        if 0 < n <= s.len() {
            seq![s.take(n as int)] + tokens(s.skip(n as int))
        } else {
            seq![]
        }
    }
}

/// A word (no white space) followed by more text: the word is the first run.
pub proof fn lemma_word_len_concat(w: Seq<char>, rest: Seq<char>)
    requires
        forall|i: int| 0 <= i < w.len() ==> !is_ws(#[trigger] w[i]),
    ensures
        word_len(w + rest) == w.len() + word_len(rest),
    decreases w.len(),
{
    if w.len() > 0 {
        assert(!is_ws(w[0]));
        assert((w + rest)[0] == w[0]);
        assert((w + rest).drop_first() =~= w.drop_first() + rest);
        assert forall|i: int| 0 <= i < w.drop_first().len() implies !is_ws(#[trigger] w.drop_first()[i]) by {
            assert(w.drop_first()[i] == w[i + 1]);
        }
        lemma_word_len_concat(w.drop_first(), rest);
    } else {
        assert(w + rest =~= rest);
    }
}

/// A non-empty word then a space: the first token is the word.
pub proof fn lemma_tokens_word(w: Seq<char>, rest: Seq<char>)
    requires
        w.len() > 0,
        forall|i: int| 0 <= i < w.len() ==> !is_ws(#[trigger] w[i]),
    ensures
        tokens(w + seq![' '] + rest) == seq![w] + tokens(rest),
        tokens(w) == seq![w],
{
    let s = w + seq![' '] + rest;
    assert(s =~= w + (seq![' '] + rest));
    lemma_word_len_concat(w, seq![' '] + rest);
    assert((seq![' '] + rest)[0] == ' ');
    assert(is_ws(' '));
    assert(word_len(seq![' '] + rest) == 0);
    assert(s[0] == w[0]);
    assert(s.take(w.len() as int) =~= w);
    assert(s.skip(w.len() as int) =~= seq![' '] + rest);
    assert((seq![' '] + rest).drop_first() =~= rest);
    assert(tokens(seq![' '] + rest) == tokens(rest));
    assert(word_len(s) == w.len());
    assert(!is_ws(s[0]));
    assert(tokens(s) == seq![s.take(w.len() as int)] + tokens(s.skip(w.len() as int)));
    lemma_word_len_concat(w, Seq::empty());
    assert(w + Seq::<char>::empty() =~= w);
    assert(word_len(Seq::<char>::empty()) == 0);
    assert(w.take(w.len() as int) =~= w);
    assert(w.skip(w.len() as int) =~= Seq::<char>::empty());
    assert(tokens(Seq::<char>::empty()) =~= Seq::<Seq<char>>::empty());
    assert(seq![w] + Seq::<Seq<char>>::empty() =~= seq![w]);
}

/// The character sequences held by a vector of character vectors.
pub open spec fn views(v: Seq<Vec<char>>) -> Seq<Seq<char>> {
    v.map_values(|w: Vec<char>| w@)
}

/// `str::split` with a `char` separator.
/// The last `c` of `x + tail`, when `tail` holds no `c`, is the last `c` of `x`.
pub proof fn lemma_rfind_char_concat(x: Seq<char>, tail: Seq<char>, c: char)
    requires
        !tail.contains(c),
    ensures
        rfind_char(x + tail, c) == rfind_char(x, c),
    decreases tail.len(),
{
    if tail.len() == 0 {
        assert(x + tail =~= x);
    } else {
        assert(tail.last() != c);
        assert(!tail.drop_last().contains(c)) by {
            if tail.drop_last().contains(c) {
                let k = choose|k: int| 0 <= k < tail.drop_last().len() && tail.drop_last()[k] == c;
                assert(tail[k] == c);
            }
        }
        assert((x + tail).drop_last() =~= x + tail.drop_last());
        assert((x + tail).last() == tail.last());
        lemma_rfind_char_concat(x, tail.drop_last(), c);
    }
}

/// The piece before `c` in `x + rest`, when `x` holds no `c`, is all of `x`
/// and the piece before `c` in `rest`.
pub proof fn lemma_piece_len_concat(x: Seq<char>, rest: Seq<char>, c: char)
    requires
        !x.contains(c),
    ensures
        piece_len(x + rest, c) == x.len() + piece_len(rest, c),
    decreases x.len(),
{
    if x.len() > 0 {
        assert(x[0] != c);
        assert(!x.drop_first().contains(c)) by {
            if x.drop_first().contains(c) {
                let k = choose|k: int| 0 <= k < x.drop_first().len() && x.drop_first()[k] == c;
                assert(x[k + 1] == c);
            }
        }
        assert((x + rest).drop_first() =~= x.drop_first() + rest);
        assert((x + rest)[0] == x[0]);
        lemma_piece_len_concat(x.drop_first(), rest, c);
    } else {
        assert(x + rest =~= rest);
    }
}

/// Splitting at `c` a field without `c`, then `c`, then the rest.
pub proof fn lemma_split_field(x: Seq<char>, rest: Seq<char>, c: char)
    requires
        !x.contains(c),
    ensures
        split(x + seq![c] + rest, c) == seq![x] + split(rest, c),
{
    let s = x + seq![c] + rest;
    assert(s =~= x + (seq![c] + rest));
    lemma_piece_len_concat(x, seq![c] + rest, c);
    assert((seq![c] + rest)[0] == c);
    assert(s.take(x.len() as int) =~= x);
    assert(s.skip(x.len() as int + 1) =~= rest);
}

/// Splitting at `c` what `c` joins: the pieces of both sides.
pub proof fn lemma_split_concat(a: Seq<char>, b: Seq<char>, c: char)
    ensures
        split(a + seq![c] + b, c) == split(a, c) + split(b, c),
        split(a, c).len() >= 1,
    decreases a.len(),
{
    lemma_piece_len(a, c);
    let n = piece_len(a, c);
    if n >= a.len() {
        assert(!a.contains(c)) by {
            if a.contains(c) {
                let k = choose|k: int| 0 <= k < a.len() && a[k] == c;
                assert(a[k] != c);
            }
        }
        lemma_split_field(a, b, c);
        lemma_split_last_field(a, c);
    } else {
        let h = a.take(n as int);
        let t = a.skip(n as int + 1);
        assert(!h.contains(c)) by {
            if h.contains(c) {
                let k = choose|k: int| 0 <= k < h.len() && h[k] == c;
                assert(a[k] == h[k]);
            }
        }
        assert(a =~= h + seq![c] + t);
        assert(a + seq![c] + b =~= h + seq![c] + (t + seq![c] + b));
        lemma_split_field(h, t + seq![c] + b, c);
        lemma_split_field(h, t, c);
        lemma_split_concat(t, b, c);
        assert(split(a + seq![c] + b, c) =~= split(a, c) + split(b, c));
    }
}

/// A field without `c` splits into itself.
pub proof fn lemma_split_last_field(x: Seq<char>, c: char)
    requires
        !x.contains(c),
    ensures
        split(x, c) == seq![x],
{
    lemma_piece_len_concat(x, Seq::empty(), c);
    assert(x + Seq::<char>::empty() =~= x);
}

pub open spec fn split(s: Seq<char>, c: char) -> Seq<Seq<char>>
    decreases s.len(),
{
    let n = piece_len(s, c);
    if n >= s.len() {
        seq![s]
    } else {
        seq![s.take(n as int)] + split(s.skip(n as int + 1), c)
    }
}

pub fn split_words(s: &Vec<char>) -> (r: Vec<Vec<char>>)
    ensures
        views(r@) == tokens(s@),
{
    let mut r: Vec<Vec<char>> = Vec::new();
    let mut i: usize = 0;
    assert(s@.skip(0) =~= s@);
    while i < s.len()
        invariant
            i <= s.len(),
            views(r@) + tokens(s@.skip(i as int)) == tokens(s@),
        decreases s.len() - i,
    {
        let ghost rest = s@.skip(i as int);
        if is_whitespace(s[i]) {
            assert(rest.drop_first() =~= s@.skip(i + 1));
            i = i + 1;
        } else {
            let j = scan_word(s, i);
            proof {
                lemma_word_len(rest);
                assert(rest.drop_first() =~= s@.skip(i + 1));
            }
            let w = slice_of(s, i, j);
            let ghost before = views(r@);
            r.push(w);
            proof {
                assert(rest.take(word_len(rest) as int) =~= s@.subrange(i as int, j as int));
                assert(rest.skip(word_len(rest) as int) =~= s@.skip(j as int));
                assert(views(r@) =~= before.push(w@));
                assert(before.push(w@) + tokens(s@.skip(j as int)) =~= before + (seq![w@]
                    + tokens(s@.skip(j as int))));
            }
            i = j;
        }
    }
    assert(views(r@) =~= views(r@) + tokens(s@.skip(i as int)));
    r
}

pub fn split_on(s: &Vec<char>, c: char) -> (r: Vec<Vec<char>>)
    ensures
        views(r@) == split(s@, c),
        r.len() >= 1,
{
    let mut r: Vec<Vec<char>> = Vec::new();
    let mut i: usize = 0;
    assert(s@.skip(0) =~= s@);
    loop
        invariant
            i <= s.len(),
            views(r@) + split(s@.skip(i as int), c) == split(s@, c),
        decreases s.len() - i,
    {
        let ghost rest = s@.skip(i as int);
        let j = scan_to_char(s, i, c);
        proof {
            lemma_piece_len(rest, c);
        }
        let w = slice_of(s, i, j);
        let ghost before = views(r@);
        r.push(w);
        assert(views(r@) =~= before.push(w@));
        if j >= s.len() {
            assert(rest =~= w@);
            assert(views(r@) =~= before + split(rest, c));
            return r;
        }
        proof {
            assert(rest.take(piece_len(rest, c) as int) =~= w@);
            assert(rest.skip(piece_len(rest, c) as int + 1) =~= s@.skip(j + 1));
            assert(before.push(w@) + split(s@.skip(j + 1), c) =~= before + (seq![w@] + split(
                s@.skip(j + 1),
                c,
            )));
        }
        i = j + 1;
    }
}

// ---------------------------------------------------------------------------
// Trimming
// ---------------------------------------------------------------------------

pub open spec fn trail_ws(s: Seq<char>) -> nat
    decreases s.len(),
{
    if s.len() == 0 || !is_ws(s.last()) {
        0
    } else {
        1 + trail_ws(s.drop_last())
    }
}

pub open spec fn lead_ws(s: Seq<char>) -> nat
    decreases s.len(),
{
    if s.len() == 0 || !is_ws(s[0]) {
        0
    } else {
        1 + lead_ws(s.drop_first())
    }
}

/// `str::trim_start`.
pub open spec fn trim_start(s: Seq<char>) -> Seq<char> {
    s.skip(lead_ws(s) as int)
}

/// `str::trim_end`.
pub open spec fn trim_end(s: Seq<char>) -> Seq<char> {
    s.take(s.len() - trail_ws(s))
}

/// `str::trim`.
pub open spec fn trim(s: Seq<char>) -> Seq<char> {
    trim_end(trim_start(s))
}

pub fn trim_start_of(s: &Vec<char>) -> (r: Vec<char>)
    ensures
        r@ == trim_start(s@),
{
    let mut i: usize = 0;
    assert(s@.skip(0) =~= s@);
    while i < s.len() && is_whitespace(s[i])
        invariant
            i <= s.len(),
            lead_ws(s@) == i + lead_ws(s@.skip(i as int)),
        decreases s.len() - i,
    {
        assert(s@.skip(i as int).drop_first() =~= s@.skip(i + 1));
        i = i + 1;
    }
    slice_of(s, i, s.len())
}

pub fn trim_end_of(s: &Vec<char>) -> (r: Vec<char>)
    ensures
        r@ == trim_end(s@),
{
    let mut j: usize = s.len();
    assert(s@.take(s.len() as int) =~= s@);
    while j > 0 && is_whitespace(s[j - 1])
        invariant
            j <= s.len(),
            trail_ws(s@) == (s.len() - j) + trail_ws(s@.take(j as int)),
        decreases j,
    {
        assert(s@.take(j as int).drop_last() =~= s@.take(j - 1));
        j = j - 1;
    }
    slice_of(s, 0, j)
}

pub fn trim_of(s: &Vec<char>) -> (r: Vec<char>)
    ensures
        r@ == trim(s@),
{
    let t = trim_start_of(s);
    trim_end_of(&t)
}

// ---------------------------------------------------------------------------
// Decimal numbers
// ---------------------------------------------------------------------------

pub open spec fn digit_val(c: char) -> nat {
    ((c as u32) - ('0' as u32)) as nat
}

pub open spec fn digits_val(s: Seq<char>) -> nat
    decreases s.len(),
{
    if s.len() == 0 {
        0
    } else {
        digits_val(s.drop_last()) * 10 + digit_val(s.last())
    }
}

pub open spec fn all_digits(s: Seq<char>) -> bool {
    forall|i: int| 0 <= i < s.len() ==> is_digit(#[trigger] s[i])
}

/// The value that `str::parse` gives for an unsigned integer type, before the
/// range check: an optional `+`, then one or more ASCII digits.
pub open spec fn parse_nat(s: Seq<char>) -> Option<nat> {
    let d = if s.len() > 0 && s[0] == '+' {
        s.drop_first()
    } else {
        s
    };
    if d.len() > 0 && all_digits(d) {
        Some(digits_val(d))
    } else {
        None
    }
}

/// `str::parse::<u64>()`, as an `Option`.
pub open spec fn parse_u64(s: Seq<char>) -> Option<u64> {
    match parse_nat(s) {
        Some(v) => if v <= u64::MAX {
            Some(v as u64)
        } else {
            None
        },
        None => None,
    }
}

/// `str::parse::<u32>()`, as an `Option`.
pub open spec fn parse_u32(s: Seq<char>) -> Option<u32> {
    match parse_nat(s) {
        Some(v) => if v <= u32::MAX {
            Some(v as u32)
        } else {
            None
        },
        None => None,
    }
}

/// `str::parse::<u8>()`, as an `Option`.
pub open spec fn parse_u8(s: Seq<char>) -> Option<u8> {
    match parse_nat(s) {
        Some(v) => if v <= u8::MAX {
            Some(v as u8)
        } else {
            None
        },
        None => None,
    }
}

/// Decimal digits of `v` without leading zeros (`u64::to_string`).
pub open spec fn dec(v: nat) -> Seq<char>
    decreases v,
{
    if v < 10 {
        seq![digit_char(v)]
    } else {
        dec(v / 10).push(digit_char(v % 10))
    }
}

/// The decimal digits of `v` are digits, at least one, and read back as `v`.
pub proof fn lemma_dec_digits(v: nat)
    ensures
        dec(v).len() > 0,
        all_digits(dec(v)),
        digits_val(dec(v)) == v,
    decreases v,
{
    if v >= 10 {
        lemma_dec_digits(v / 10);
        let d = dec(v / 10);
        let e = d.push(digit_char((v % 10) as nat));
        assert(e.drop_last() =~= d);
        assert forall|i: int| 0 <= i < e.len() implies is_digit(#[trigger] e[i]) by {
            if i < d.len() {
                assert(e[i] == d[i]);
            }
        }
        assert(dec(v) == e);
        assert(e.last() == digit_char((v % 10) as nat));
        assert(digit_val(digit_char((v % 10) as nat)) == v % 10);
        assert(digits_val(e) == digits_val(d) * 10 + digit_val(e.last()));
        assert((v / 10) * 10 + v % 10 == v);
    } else {
        let e = seq![digit_char(v)];
        assert(dec(v) == e);
        assert(digit_val(digit_char(v)) == v);
        assert(e.drop_last() =~= Seq::<char>::empty());
        assert(digits_val(e) == digits_val(e.drop_last()) * 10 + digit_val(e.last()));
    }
}

pub open spec fn digit_char(d: nat) -> char {
    if d == 0 { '0' } else if d == 1 { '1' } else if d == 2 { '2' } else if d == 3 { '3' }
    else if d == 4 { '4' } else if d == 5 { '5' } else if d == 6 { '6' } else if d == 7 { '7' }
    else if d == 8 { '8' } else { '9' }
}

fn digit_to_char(d: u64) -> (c: char)
    requires
        d < 10,
    ensures
        c == digit_char(d as nat),
{
    if d == 0 { '0' } else if d == 1 { '1' } else if d == 2 { '2' } else if d == 3 { '3' }
    else if d == 4 { '4' } else if d == 5 { '5' } else if d == 6 { '6' } else if d == 7 { '7' }
    else if d == 8 { '8' } else { '9' }
}

/// Value of a character vector read with `str::parse::<u64>()`.
pub fn parse_u64_of(s: &Vec<char>) -> (r: Option<u64>)
    ensures
        r == parse_u64(s@),
{
    let mut start: usize = 0;
    if s.len() > 0 && s[0] == '+' {
        start = 1;
    }
    let ghost d = if s@.len() > 0 && s@[0] == '+' {
        s@.drop_first()
    } else {
        s@
    };
    assert(d =~= s@.skip(start as int));
    if start >= s.len() {
        return None;
    }
    let mut acc: u64 = 0;
    let mut overflow = false;
    let mut i: usize = start;
    assert(d.take(0) =~= Seq::<char>::empty());
    while i < s.len()
        invariant
            start <= i <= s.len(),
            d == s@.skip(start as int),
            d == (if s@.len() > 0 && s@[0] == '+' { s@.drop_first() } else { s@ }),
            forall|k: int| start <= k < i ==> is_digit(#[trigger] s@[k]),
            !overflow ==> acc == digits_val(d.take(i - start)),
            overflow ==> digits_val(d.take(i - start)) > u64::MAX,
        decreases s.len() - i,
    {
        let c = s[i];
        if !('0' <= c && c <= '9') {
            assert(!is_digit(d[i - start]));
            assert(!all_digits(d));
            assert(parse_nat(s@) is None);
            return None;
        }
        let ghost prev = d.take(i - start);
        assert(d.take(i - start + 1).drop_last() =~= prev);
        assert(d.take(i - start + 1).last() == c);
        let dv: u64 = (c as u32 - '0' as u32) as u64;
        if !overflow {
            if acc > (u64::MAX - dv) / 10 {
                overflow = true;
            } else {
                acc = acc * 10 + dv;
            }
        }
        i = i + 1;
    }
    assert(d.take(s.len() - start) =~= d);
    assert(all_digits(d)) by {
        assert forall|k: int| 0 <= k < d.len() implies is_digit(#[trigger] d[k]) by {
            assert(d[k] == s@[k + start]);
        }
    }
    assert(parse_nat(s@) == Some(digits_val(d)));
    if overflow {
        None
    } else {
        Some(acc)
    }
}

pub fn parse_u32_of(s: &Vec<char>) -> (r: Option<u32>)
    ensures
        r == parse_u32(s@),
{
    match parse_u64_of(s) {
        Some(v) => if v <= 0xffff_ffff {
            Some(v as u32)
        } else {
            None
        },
        None => None,
    }
}

pub fn parse_u8_of(s: &Vec<char>) -> (r: Option<u8>)
    ensures
        r == parse_u8(s@),
{
    match parse_u64_of(s) {
        Some(v) => if v <= 255 {
            Some(v as u8)
        } else {
            None
        },
        None => None,
    }
}

/// Appends the decimal digits of `v` (as `u64::to_string` writes them).
pub fn push_dec(out: &mut String, v: u64)
    ensures
        final(out)@ == old(out)@ + dec(v as nat),
    decreases v,
{
    if v < 10 {
        push_char(out, digit_to_char(v));
        assert(old(out)@.push(digit_char(v as nat)) =~= old(out)@ + dec(v as nat));
    } else {
        push_dec(out, v / 10);
        push_char(out, digit_to_char(v % 10));
        assert(old(out)@ + dec((v / 10) as nat) + seq![digit_char((v % 10) as nat)] =~= old(
            out,
        )@ + dec(v as nat));
    }
}

/// Decimal digits of `v` as a `String`.
pub fn dec_string(v: u64) -> (s: String)
    ensures
        s@ == dec(v as nat),
{
    let mut s = String::new();
    push_dec(&mut s, v);
    assert(Seq::<char>::empty() + dec(v as nat) =~= dec(v as nat));
    s
}

/// Decimal digits of `v` as characters.
pub fn dec_chars(v: u64) -> (s: Vec<char>)
    ensures
        s@ == dec(v as nat),
{
    let st = dec_string(v);
    chars_of(st.as_str())
}

} // verus!

verus! {

/// The pieces joined with `sep` between them (`[&str]::join`).
pub open spec fn join(ws: Seq<Seq<char>>, sep: Seq<char>) -> Seq<char>
    decreases ws.len(),
{
    if ws.len() == 0 {
        seq![]
    } else if ws.len() == 1 {
        ws[0]
    } else {
        join(ws.drop_last(), sep) + sep + ws.last()
    }
}

/// `ws[from..]` joined with single spaces.
pub fn join_spaced(ws: &Vec<Vec<char>>, from: usize) -> (r: Vec<char>)
    requires
        from <= ws.len(),
    ensures
        r@ == join(views(ws@).skip(from as int), seq![' ']),
{
    let ghost all = views(ws@).skip(from as int);
    let mut r: Vec<char> = Vec::new();
    let mut i: usize = from;
    assert(all.take(0) =~= Seq::<Seq<char>>::empty());
    while i < ws.len()
        invariant
            from <= i <= ws.len(),
            all == views(ws@).skip(from as int),
            r@ == join(all.take(i - from), seq![' ']),
        decreases ws.len() - i,
    {
        let ghost before = r@;
        if i > from {
            r.push(' ');
        }
        let w = &ws[i];
        let mut k: usize = 0;
        let ghost mid = r@;
        while k < w.len()
            invariant
                k <= w.len(),
                r@ == mid + w@.take(k as int),
            decreases w.len() - k,
        {
            r.push(w[k]);
            k = k + 1;
            assert(r@ =~= mid + w@.take(k as int));
        }
        assert(w@.take(w.len() as int) =~= w@);
        let ghost t = all.take(i + 1 - from);
        assert(t.drop_last() =~= all.take(i - from));
        assert(t.last() == w@);
        if i > from {
            assert(r@ =~= join(t.drop_last(), seq![' ']) + seq![' '] + t.last());
        } else {
            assert(t.len() == 1);
            assert(r@ =~= t[0]);
        }
        i = i + 1;
    }
    assert(all.take(ws.len() - from) =~= all);
    r
}

/// Whether a `String` holds exactly the characters of a literal.
pub fn string_is(s: &String, lit: &str) -> (r: bool)
    ensures
        r == (s@ == lit@),
{
    let c = chars_of(s.as_str());
    is_lit(&c, lit)
}

/// The characters of a `String`.
pub fn chars_of_string(s: &String) -> (v: Vec<char>)
    ensures
        v@ == s@,
{
    chars_of(s.as_str())
}

} // verus!

verus! {

/// A line without its `\r` of a `\r\n` ending.
pub open spec fn strip_cr(l: Seq<char>) -> Seq<char> {
    if l.len() > 0 && l.last() == '\r' {
        l.drop_last()
    } else {
        l
    }
}

/// `str::lines`: pieces between `\n`, without a `\r` before the `\n`; a
/// final line ending adds no empty line.
pub open spec fn lines(s: Seq<char>) -> Seq<Seq<char>>
    decreases s.len(),
{
    if s.len() == 0 {
        seq![]
    } else {
        let n = piece_len(s, '\n');
        if n >= s.len() {
            seq![s]
        } else {
            seq![strip_cr(s.take(n as int))] + lines(s.skip(n as int + 1))
        }
    }
}

pub fn lines_of(s: &Vec<char>) -> (r: Vec<Vec<char>>)
    ensures
        views(r@) == lines(s@),
{
    let mut r: Vec<Vec<char>> = Vec::new();
    let mut i: usize = 0;
    assert(s@.skip(0) =~= s@);
    while i < s.len()
        invariant
            i <= s.len(),
            views(r@) + lines(s@.skip(i as int)) == lines(s@),
        decreases s.len() - i,
    {
        let ghost rest = s@.skip(i as int);
        let j = scan_to_char(s, i, '\n');
        proof {
            lemma_piece_len(rest, '\n');
        }
        let ghost before = views(r@);
        if j >= s.len() {
            let w = slice_of(s, i, j);
            r.push(w);
            assert(rest =~= w@);
            assert(views(r@) =~= before.push(w@));
            assert(views(r@) + lines(s@.skip(s.len() as int)) =~= before + lines(rest));
            return r;
        }
        let mut e = j;
        if e > i && s[e - 1] == '\r' {
            e = e - 1;
        }
        let w = slice_of(s, i, e);
        proof {
            assert(rest.take(piece_len(rest, '\n') as int) =~= s@.subrange(i as int, j as int));
            assert(w@ =~= strip_cr(s@.subrange(i as int, j as int)));
            assert(rest.skip(piece_len(rest, '\n') as int + 1) =~= s@.skip(j + 1));
        }
        r.push(w);
        proof {
            assert(views(r@) =~= before.push(w@));
            assert(before.push(w@) + lines(s@.skip(j + 1)) =~= before + (seq![w@] + lines(
                s@.skip(j + 1),
            )));
        }
        i = j + 1;
    }
    assert(views(r@) =~= views(r@) + lines(s@.skip(i as int)));
    r
}

} // verus!

verus! {

/// `a < b` in the order of `str` (lexicographic by code point, a proper
/// prefix first).
pub open spec fn lex_lt(a: Seq<char>, b: Seq<char>) -> bool
    decreases a.len(),
{
    if a.len() == 0 {
        b.len() > 0
    } else if b.len() == 0 {
        false
    } else if a[0] != b[0] {
        a[0] < b[0]
    } else {
        lex_lt(a.drop_first(), b.drop_first())
    }
}

/// `a` comes no later than `b` in dictionary order: equal, or at the first
/// position where they differ `a` has the smaller character, or `a` is a
/// proper prefix of `b`.
pub open spec fn text_le(a: Seq<char>, b: Seq<char>) -> bool {
    ||| a == b
    ||| exists|k: int|
        0 <= k <= a.len() && k <= b.len() && #[trigger] a.take(k) == b.take(k) && ((k == a.len() && k < b.len()) || (
        k < a.len() && k < b.len() && a[k] < b[k]))
}

pub proof fn lemma_lex_lt_text_le(a: Seq<char>, b: Seq<char>)
    requires
        lex_lt(a, b),
    ensures
        text_le(a, b),
    decreases a.len(),
{
    if a.len() == 0 {
        assert(a.take(0) =~= b.take(0));
    } else if a[0] != b[0] {
        assert(a.take(0) =~= b.take(0));
    } else {
        let a1 = a.drop_first();
        let b1 = b.drop_first();
        lemma_lex_lt_text_le(a1, b1);
        if a1 == b1 {
            lemma_lex_irrefl(a1);
        }
        let k = choose|k: int|
            0 <= k <= a1.len() && k <= b1.len() && #[trigger] a1.take(k) == b1.take(k) && ((k == a1.len() && k < b1.len())
                || (k < a1.len() && k < b1.len() && a1[k] < b1[k]));
        assert(a.take(k + 1) =~= seq![a[0]] + a1.take(k));
        assert(b.take(k + 1) =~= seq![b[0]] + b1.take(k));
        assert(a.take(k + 1) == b.take(k + 1));
        if k < a1.len() && k < b1.len() {
            assert(a[k + 1] == a1[k] && b[k + 1] == b1[k]);
        }
    }
}

pub proof fn lemma_lex_irrefl(a: Seq<char>)
    ensures
        !lex_lt(a, a),
    decreases a.len(),
{
    if a.len() > 0 {
        lemma_lex_irrefl(a.drop_first());
    }
}

pub proof fn lemma_lex_trans(a: Seq<char>, b: Seq<char>, c: Seq<char>)
    requires
        lex_lt(a, b),
        lex_lt(b, c),
    ensures
        lex_lt(a, c),
    decreases a.len(),
{
    if a.len() > 0 && b.len() > 0 && c.len() > 0 {
        if a[0] == b[0] && b[0] == c[0] {
            lemma_lex_trans(a.drop_first(), b.drop_first(), c.drop_first());
        }
    }
}

pub proof fn lemma_lex_total(a: Seq<char>, b: Seq<char>)
    ensures
        a != b ==> lex_lt(a, b) || lex_lt(b, a),
        !(lex_lt(a, b) && lex_lt(b, a)),
    decreases a.len(),
{
    if a.len() > 0 && b.len() > 0 {
        lemma_lex_total(a.drop_first(), b.drop_first());
        if a[0] == b[0] && a != b {
            assert(a.drop_first() != b.drop_first()) by {
                if a.drop_first() == b.drop_first() {
                    assert(a =~= seq![a[0]] + a.drop_first());
                    assert(b =~= seq![b[0]] + b.drop_first());
                }
            }
        }
    } else if a.len() == 0 && b.len() == 0 {
        assert(a =~= b);
    }
}

/// Whether `a` comes before `b` in the order of `str`.
pub fn lex_less(a: &Vec<char>, b: &Vec<char>) -> (r: bool)
    ensures
        r == lex_lt(a@, b@),
{
    let mut i: usize = 0;
    assert(a@.skip(0) =~= a@ && b@.skip(0) =~= b@);
    while i < a.len() && i < b.len() && a[i] == b[i]
        invariant
            i <= a.len(),
            i <= b.len(),
            lex_lt(a@, b@) == lex_lt(a@.skip(i as int), b@.skip(i as int)),
        decreases a.len() - i,
    {
        assert(a@.skip(i as int).drop_first() =~= a@.skip(i + 1));
        assert(b@.skip(i as int).drop_first() =~= b@.skip(i + 1));
        i = i + 1;
    }
    if i == a.len() {
        i < b.len()
    } else if i == b.len() {
        false
    } else {
        a[i] < b[i]
    }
}

} // verus!
