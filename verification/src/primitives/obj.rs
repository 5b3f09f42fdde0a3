//! Wavefront OBJ text: vertex lines and polygon faces, fanned into triangles.
//!
//! Coordinates are checked to be real-number text and kept as that text; converting them
//! to numbers is left to the caller, which owns the floating-point side of the renderer.
use vstd::prelude::*;

verus! {

/// Unicode `White_Space`, the set that `str::split_whitespace` splits on.
pub open spec fn is_ws(c: char) -> bool {
    ||| ('\u{9}' <= c && c <= '\u{d}')
    ||| c == ' '
    ||| c == '\u{85}'
    ||| c == '\u{a0}'
    ||| c == '\u{1680}'
    ||| ('\u{2000}' <= c && c <= '\u{200a}')
    ||| c == '\u{2028}'
    ||| c == '\u{2029}'
    ||| c == '\u{202f}'
    ||| c == '\u{205f}'
    ||| c == '\u{3000}'
}

fn is_whitespace(c: char) -> (b: bool)
    ensures
        b == is_ws(c),
{
    ('\u{9}' <= c && c <= '\u{d}') || c == ' ' || c == '\u{85}' || c == '\u{a0}' || c == '\u{1680}'
        || ('\u{2000}' <= c && c <= '\u{200a}') || c == '\u{2028}' || c == '\u{2029}' || c
        == '\u{202f}' || c == '\u{205f}' || c == '\u{3000}'
}

/// The characters of a string, in order.
fn chars_of(s: &str) -> (v: Vec<char>)
    ensures
        v@ == s@,
{
    let mut v: Vec<char> = Vec::new();
    for c in it: s.chars()
        invariant
            v@ == it.seq().take(it.index() as int),
            it.seq() == s@,
    {
        v.push(c);
    }
    v
}

pub open spec fn slash() -> spec_fn(char) -> bool {
    |c: char| c == '/'
}

pub open spec fn newline() -> spec_fn(char) -> bool {
    |c: char| c == '\n'
}

pub open spec fn blank() -> spec_fn(char) -> bool {
    |c: char| is_ws(c)
}

/// The number of leading characters of `w` on which `stop` does not hold.
pub open spec fn run_len(w: Seq<char>, stop: spec_fn(char) -> bool) -> nat
    decreases w.len(),
{
    if w.len() == 0 || stop(w[0]) {
        0
    } else {
        1 + run_len(w.drop_first(), stop)
    }
}

/// `run_len` is the index of the first character on which `stop` holds, or the length.
pub proof fn lemma_run_len(w: Seq<char>, stop: spec_fn(char) -> bool)
    ensures
        run_len(w, stop) <= w.len(),
        forall|j: int| 0 <= j < run_len(w, stop) ==> !stop(#[trigger] w[j]),
        run_len(w, stop) < w.len() ==> stop(w[run_len(w, stop) as int]),
    decreases w.len(),
{
    if w.len() > 0 && !stop(w[0]) {
        lemma_run_len(w.drop_first(), stop);
        assert forall|j: int| 0 <= j < run_len(w, stop) implies !stop(#[trigger] w[j]) by {
            if j > 0 {
                assert(w[j] == w.drop_first()[j - 1]);
            }
        }
    }
}

/// Any index with the properties of `lemma_run_len` is `run_len`.
proof fn lemma_run_len_unique(w: Seq<char>, stop: spec_fn(char) -> bool, k: int)
    requires
        0 <= k <= w.len(),
        forall|j: int| 0 <= j < k ==> !stop(#[trigger] w[j]),
        k < w.len() ==> stop(w[k]),
    ensures
        run_len(w, stop) == k,
{
    lemma_run_len(w, stop);
    let r = run_len(w, stop) as int;
    if r < k {
        assert(!stop(w[r]));
    } else if k < r {
        assert(!stop(w[k]));
    }
}

/// The index of the first character of `w[from..to]` on which `stop` holds, or `to`.
fn find_stop(
    w: &Vec<char>,
    from: usize,
    to: usize,
    Ghost(stop): Ghost<spec_fn(char) -> bool>,
    exec_stop: impl Fn(char) -> bool,
) -> (k: usize)
    requires
        from <= to <= w.len(),
        forall|c: char| #[trigger] exec_stop.requires((c,)),
        forall|c: char, b: bool| exec_stop.ensures((c,), b) ==> b == stop(c),
    ensures
        from <= k <= to,
        k - from == run_len(w@.subrange(from as int, to as int), stop),
{
    let mut k = from;
    while k < to
        invariant
            from <= k <= to <= w.len(),
            forall|j: int| from <= j < k ==> !stop(#[trigger] w@[j]),
            forall|c: char| #[trigger] exec_stop.requires((c,)),
            forall|c: char, b: bool| exec_stop.ensures((c,), b) ==> b == stop(c),
        ensures
            from <= k <= to,
            forall|j: int| from <= j < k ==> !stop(#[trigger] w@[j]),
            k < to ==> stop(w@[k as int]),
        decreases to - k,
    {
        if exec_stop(w[k]) {
            break;
        }
        k = k + 1;
    }
    proof {
        let t = w@.subrange(from as int, to as int);
        assert forall|j: int| 0 <= j < k - from implies !stop(#[trigger] t[j]) by {
            assert(t[j] == w@[from + j]);
        }
        if k < to {
            assert(t[k - from] == w@[k as int]);
        }
        lemma_run_len_unique(t, stop, k - from);
    }
    k
}

pub open spec fn is_digit(c: char) -> bool {
    '0' <= c && c <= '9'
}

pub open spec fn digit_value(c: char) -> nat {
    (c as int - '0' as int) as nat
}

/// The value of a string of decimal digits, most significant first.
pub open spec fn digits_value(d: Seq<char>) -> nat
    decreases d.len(),
{
    if d.len() == 0 {
        0
    } else {
        digits_value(d.drop_last()) * 10 + digit_value(d.last())
    }
}

/// The text after an optional leading `+`.
pub open spec fn unsigned_digits(p: Seq<char>) -> Seq<char> {
    if p.len() > 0 && p[0] == '+' {
        p.drop_first()
    } else {
        p
    }
}

/// What `str::parse::<usize>` accepts: an optional `+`, then one or more ASCII
/// digits whose value fits in a `usize`.
pub open spec fn parse_usize(p: Seq<char>) -> Option<usize> {
    let d = unsigned_digits(p);
    if d.len() > 0 && (forall|i: int| 0 <= i < d.len() ==> is_digit(#[trigger] d[i]))
        && digits_value(d) <= usize::MAX {
        Some(digits_value(d) as usize)
    } else {
        None
    }
}

/// The vertex index named by a face token `i`, `i/t` or `i/t/n`: the part before the
/// first `/`, read as a one-based index and made zero-based (an index of 0 stays 0).
pub open spec fn face_index(w: Seq<char>) -> Option<usize> {
    match parse_usize(w.take(run_len(w, slash()) as int)) {
        Some(n) => Some(if n == 0 { 0 } else { (n - 1) as usize }),
        None => None,
    }
}

proof fn lemma_digits_prefix_le(d: Seq<char>, j: int)
    requires
        0 <= j <= d.len(),
    ensures
        digits_value(d.take(j)) <= digits_value(d),
    decreases d.len(),
{
    if j < d.len() {
        lemma_digits_prefix_le(d.drop_last(), j);
        assert(d.drop_last().take(j) =~= d.take(j));
    } else {
        assert(d.take(j) =~= d);
    }
}

/// Reads `w[lo..hi]` as `str::parse::<usize>` does.
fn parse_usize_in(w: &Vec<char>, lo: usize, hi: usize) -> (r: Option<usize>)
    requires
        lo <= hi <= w.len(),
    ensures
        r == parse_usize(w@.subrange(lo as int, hi as int)),
{
    let ghost p = w@.subrange(lo as int, hi as int);
    let mut start = lo;
    if lo < hi && w[lo] == '+' {
        start = lo + 1;
    }
    let ghost d = w@.subrange(start as int, hi as int);
    assert(d =~= unsigned_digits(p));
    if start == hi {
        return None;
    }
    let mut i = start;
    while i < hi
        invariant
            start <= i <= hi <= w.len(),
            d == w@.subrange(start as int, hi as int),
            p == w@.subrange(lo as int, hi as int),
            d == unsigned_digits(p),
            forall|j: int| start <= j < i ==> is_digit(#[trigger] w@[j]),
        decreases hi - i,
    {
        if !('0' <= w[i] && w[i] <= '9') {
            assert(d[i - start] == w@[i as int]);
            assert(!is_digit(d[i - start]));
            return None;
        }
        i = i + 1;
    }
    assert forall|j: int| 0 <= j < d.len() implies is_digit(#[trigger] d[j]) by {
        assert(d[j] == w@[start + j]);
    }
    let mut acc: usize = 0;
    let mut i = start;
    while i < hi
        invariant
            start <= i <= hi <= w.len(),
            d == w@.subrange(start as int, hi as int),
            p == w@.subrange(lo as int, hi as int),
            d == unsigned_digits(p),
            forall|j: int| 0 <= j < d.len() ==> is_digit(#[trigger] d[j]),
            acc == digits_value(d.take(i - start)),
        decreases hi - i,
    {
        let c = w[i];
        assert(c == d[i - start]);
        let digit = (c as u32 - '0' as u32) as usize;
        proof {
            assert(d.take(i - start + 1).drop_last() =~= d.take(i - start));
            assert(d.take(i - start + 1).last() == c);
            lemma_digits_prefix_le(d, i - start + 1);
        }
        match acc.checked_mul(10) {
            Some(m) => match m.checked_add(digit) {
                Some(n) => {
                    acc = n;
                },
                None => {
                    assert(digits_value(d) > usize::MAX);
                    return None;
                },
            },
            None => {
                assert(digits_value(d.take(i - start + 1)) >= acc * 10);
                assert(digits_value(d) > usize::MAX);
                return None;
            },
        }
        i = i + 1;
    }
    assert(d.take(hi - start) =~= d);
    Some(acc)
}

/// The zero-based vertex index of a face token, if it has one.
fn face_index_in(w: &Vec<char>) -> (r: Option<usize>)
    ensures
        r == face_index(w@),
{
    let k = find_stop(w, 0, w.len(), Ghost(slash()), |c: char| -> (b: bool) ensures b == (c == '/') { c == '/' });
    assert(w@.subrange(0, w.len() as int) =~= w@);
    assert(w@.take(k as int) =~= w@.subrange(0, k as int));
    match parse_usize_in(w, 0, k) {
        Some(n) => Some(n.saturating_sub(1)),
        None => None,
    }
}

/// The zero-based vertex index of a face token (`i`, `i/t`, `i/t/n`, ...): the text
/// before the first `/` read as a decimal `usize`, minus one; 0 stays 0.
pub fn face_idx(s: &str) -> (r: Option<usize>)
    ensures
        r == face_index(s@),
{
    let w = chars_of(s);
    face_index_in(&w)
}

/// The whitespace-separated words of `s`, as `str::split_whitespace` gives them.
pub open spec fn words(s: Seq<char>) -> Seq<Seq<char>>
    decreases s.len(),
{
    if s.len() == 0 {
        seq![]
    } else if is_ws(s[0]) {
        words(s.drop_first())
    } else {
        let k = run_len(s, blank());
        proof {
            lemma_run_len(s, blank());
        }
        seq![s.take(k as int)] + words(s.skip(k as int))
    }
}

/// The lines of `s`, split at each `\n`. A `\r` before the `\n` stays in the line; it
/// is whitespace, so it never reaches a word.
pub open spec fn lines(s: Seq<char>) -> Seq<Seq<char>>
    decreases s.len(),
{
    let k = run_len(s, newline());
    proof {
        lemma_run_len(s, newline());
    }
    if k >= s.len() {
        seq![s]
    } else {
        seq![s.take(k as int)] + lines(s.skip(k + 1 as int))
    }
}

/// The text of each word.
pub open spec fn texts(ws: Seq<Vec<char>>) -> Seq<Seq<char>> {
    ws.map_values(|w: Vec<char>| w@)
}

/// A copy of `w[lo..hi]`.
fn copy_range(w: &Vec<char>, lo: usize, hi: usize) -> (v: Vec<char>)
    requires
        lo <= hi <= w.len(),
    ensures
        v@ == w@.subrange(lo as int, hi as int),
{
    let mut v: Vec<char> = Vec::new();
    let mut i = lo;
    while i < hi
        invariant
            lo <= i <= hi <= w.len(),
            v@ == w@.subrange(lo as int, i as int),
        decreases hi - i,
    {
        v.push(w[i]);
        i = i + 1;
    }
    v
}

/// The words of `w[lo..hi]`.
fn words_in(w: &Vec<char>, lo: usize, hi: usize) -> (ws: Vec<Vec<char>>)
    requires
        lo <= hi <= w.len(),
    ensures
        texts(ws@) == words(w@.subrange(lo as int, hi as int)),
{
    let mut ws: Vec<Vec<char>> = Vec::new();
    let mut j = lo;
    while j < hi
        invariant
            lo <= j <= hi <= w.len(),
            texts(ws@) + words(w@.subrange(j as int, hi as int)) == words(w@.subrange(lo as int, hi as int)),
        decreases hi - j,
    {
        let ghost t = w@.subrange(j as int, hi as int);
        if is_whitespace(w[j]) {
            assert(t.drop_first() =~= w@.subrange(j + 1, hi as int));
            j = j + 1;
        } else {
            let k = find_stop(w, j, hi, Ghost(blank()), |c: char| -> (b: bool) ensures b == is_ws(c) { is_whitespace(c) });
            proof {
                lemma_run_len(t, blank());
                assert(t.take(k - j) =~= w@.subrange(j as int, k as int));
                assert(t.skip(k - j) =~= w@.subrange(k as int, hi as int));
            }
            let word = copy_range(w, j, k);
            let ghost before = ws@;
            ws.push(word);
            proof {
                assert(texts(ws@) =~= texts(before).push(word@));
                assert(texts(before).push(word@) + words(w@.subrange(k as int, hi as int)) =~= texts(before) + words(t));
            }
            j = k;
        }
    }
    proof {
        assert(w@.subrange(j as int, hi as int) =~= Seq::<char>::empty());
        assert(texts(ws@) + Seq::<Seq<char>>::empty() =~= texts(ws@));
    }
    ws
}

pub open spec fn exponent_mark() -> spec_fn(char) -> bool {
    |c: char| c == 'e' || c == 'E'
}

pub open spec fn not_digit() -> spec_fn(char) -> bool {
    |c: char| !is_digit(c)
}

/// Whether every character of `s` is an ASCII digit.
pub open spec fn all_digit(s: Seq<char>) -> bool {
    forall|i: int| 0 <= i < s.len() ==> is_digit(#[trigger] s[i])
}

/// The text after an optional leading `+` or `-`.
pub open spec fn unsigned_part(s: Seq<char>) -> Seq<char> {
    if s.len() > 0 && (s[0] == '+' || s[0] == '-') {
        s.drop_first()
    } else {
        s
    }
}

/// `Exp ::= ('e' | 'E') Sign? Digit+`
pub open spec fn exponent_ok(e: Seq<char>) -> bool {
    e.len() > 0 && (e[0] == 'e' || e[0] == 'E') && unsigned_part(e.drop_first()).len() > 0
        && all_digit(unsigned_part(e.drop_first()))
}

/// `Digit+ | Digit+ '.' Digit* | Digit* '.' Digit+`
pub open spec fn mantissa_ok(m: Seq<char>) -> bool {
    let a = run_len(m, not_digit()) as int;
    let rest = m.skip(a);
    if rest.len() == 0 {
        a > 0
    } else {
        rest[0] == '.' && all_digit(rest.drop_first()) && (a > 0 || rest.len() > 1)
    }
}

/// `Number ::= Mantissa Exp?`, the exponent starting at the first `e` or `E`.
pub open spec fn number_ok(s: Seq<char>) -> bool {
    let k = run_len(s, exponent_mark()) as int;
    mantissa_ok(s.take(k)) && (k == s.len() || exponent_ok(s.skip(k)))
}

/// Whether `c` is the ASCII letter `lower` in either case.
pub open spec fn letter(c: char, lower: char, upper: char) -> bool {
    c == lower || c == upper
}

/// `inf`, `infinity` or `nan`, in any ASCII case.
pub open spec fn special_ok(s: Seq<char>) -> bool {
    ||| s.len() == 3 && letter(s[0], 'i', 'I') && letter(s[1], 'n', 'N') && letter(s[2], 'f', 'F')
    ||| s.len() == 8 && letter(s[0], 'i', 'I') && letter(s[1], 'n', 'N') && letter(s[2], 'f', 'F')
        && letter(s[3], 'i', 'I') && letter(s[4], 'n', 'N') && letter(s[5], 'i', 'I')
        && letter(s[6], 't', 'T') && letter(s[7], 'y', 'Y')
    ||| s.len() == 3 && letter(s[0], 'n', 'N') && letter(s[1], 'a', 'A') && letter(s[2], 'n', 'N')
}

/// The text that the standard library reads as a 32-bit real number, by the grammar its
/// documentation gives (`Sign? ('inf' | 'infinity' | 'nan' | Number)`, ASCII case
/// ignored); every such text is read, large values as infinities.
pub open spec fn real_text(s: Seq<char>) -> bool {
    special_ok(unsigned_part(s)) || number_ok(unsigned_part(s))
}

/// Whether `w[lo..hi]` is all ASCII digits.
fn digits_in(w: &Vec<char>, lo: usize, hi: usize) -> (b: bool)
    requires
        lo <= hi <= w.len(),
    ensures
        b == all_digit(w@.subrange(lo as int, hi as int)),
{
    let ghost t = w@.subrange(lo as int, hi as int);
    let mut i = lo;
    while i < hi
        invariant
            lo <= i <= hi <= w.len(),
            t == w@.subrange(lo as int, hi as int),
            forall|j: int| 0 <= j < i - lo ==> is_digit(#[trigger] t[j]),
        decreases hi - i,
    {
        if !('0' <= w[i] && w[i] <= '9') {
            assert(t[i - lo] == w@[i as int]);
            return false;
        }
        assert(t[i - lo] == w@[i as int]);
        i = i + 1;
    }
    true
}

/// Whether `w[lo..hi]` is an exponent.
fn exponent_in(w: &Vec<char>, lo: usize, hi: usize) -> (b: bool)
    requires
        lo <= hi <= w.len(),
    ensures
        b == exponent_ok(w@.subrange(lo as int, hi as int)),
{
    let ghost e = w@.subrange(lo as int, hi as int);
    if lo == hi || !(w[lo] == 'e' || w[lo] == 'E') {
        return false;
    }
    let mut r = lo + 1;
    assert(e.drop_first() =~= w@.subrange(lo + 1, hi as int));
    if r < hi && (w[r] == '+' || w[r] == '-') {
        r = r + 1;
    }
    assert(unsigned_part(e.drop_first()) =~= w@.subrange(r as int, hi as int));
    r < hi && digits_in(w, r, hi)
}

/// Whether `w[lo..hi]` is a mantissa.
fn mantissa_in(w: &Vec<char>, lo: usize, hi: usize) -> (b: bool)
    requires
        lo <= hi <= w.len(),
    ensures
        b == mantissa_ok(w@.subrange(lo as int, hi as int)),
{
    let ghost m = w@.subrange(lo as int, hi as int);
    let a = find_stop(w, lo, hi, Ghost(not_digit()), |c: char| -> (b: bool) ensures b == !is_digit(c) { !('0' <= c && c <= '9') });
    assert(m.skip(a - lo) =~= w@.subrange(a as int, hi as int));
    if a == hi {
        return a > lo;
    }
    assert(m.skip(a - lo)[0] == w@[a as int]);
    assert(m.skip(a - lo).drop_first() =~= w@.subrange(a + 1, hi as int));
    w[a] == '.' && digits_in(w, a + 1, hi) && (a > lo || hi > a + 1)
}

/// Whether `w[lo..hi]` is text the standard library reads as a 32-bit real number.
fn real_in(w: &Vec<char>, lo: usize, hi: usize) -> (b: bool)
    requires
        lo <= hi <= w.len(),
    ensures
        b == real_text(w@.subrange(lo as int, hi as int)),
{
    let ghost s = w@.subrange(lo as int, hi as int);
    let mut b0 = lo;
    if lo < hi && (w[lo] == '+' || w[lo] == '-') {
        b0 = lo + 1;
    }
    let ghost u = w@.subrange(b0 as int, hi as int);
    assert(unsigned_part(s) =~= u);
    let n = hi - b0;
    let ci = |c: char, l: char, up: char| -> (r: bool) ensures r == letter(c, l, up) { c == l || c == up };
    let special = (n == 3 && ci(w[b0], 'i', 'I') && ci(w[b0 + 1], 'n', 'N') && ci(w[b0 + 2], 'f', 'F'))
        || (n == 8 && ci(w[b0], 'i', 'I') && ci(w[b0 + 1], 'n', 'N') && ci(w[b0 + 2], 'f', 'F')
        && ci(w[b0 + 3], 'i', 'I') && ci(w[b0 + 4], 'n', 'N') && ci(w[b0 + 5], 'i', 'I')
        && ci(w[b0 + 6], 't', 'T') && ci(w[b0 + 7], 'y', 'Y'))
        || (n == 3 && ci(w[b0], 'n', 'N') && ci(w[b0 + 1], 'a', 'A') && ci(w[b0 + 2], 'n', 'N'));
    proof {
        if n == 3 || n == 8 {
            assert(u[0] == w@[b0 as int] && u[1] == w@[b0 + 1] && u[2] == w@[b0 + 2]);
        }
        if n == 8 {
            assert(u[3] == w@[b0 + 3] && u[4] == w@[b0 + 4] && u[5] == w@[b0 + 5]);
            assert(u[6] == w@[b0 + 6] && u[7] == w@[b0 + 7]);
        }
    }
    assert(special == special_ok(u));
    if special {
        return true;
    }
    let k = find_stop(w, b0, hi, Ghost(exponent_mark()), |c: char| -> (b: bool) ensures b == (c == 'e' || c == 'E') { c == 'e' || c == 'E' });
    assert(u.take(k - b0) =~= w@.subrange(b0 as int, k as int));
    assert(u.skip(k - b0) =~= w@.subrange(k as int, hi as int));
    mantissa_in(w, b0, k) && (k == hi || exponent_in(w, k, hi))
}

/// What a parsed model holds: the coordinate words of each vertex line, and the
/// triangles as zero-based vertex indices.
pub struct ObjView {
    pub vertices: Seq<(Seq<char>, Seq<char>, Seq<char>)>,
    pub triangles: Seq<(usize, usize, usize)>,
}

/// A parsed OBJ model. Each vertex is the text of its three coordinates.
pub struct ObjModel {
    pub vertices: Vec<(Vec<char>, Vec<char>, Vec<char>)>,
    pub triangles: Vec<(usize, usize, usize)>,
}

impl View for ObjModel {
    type V = ObjView;

    open spec fn view(&self) -> ObjView {
        ObjView {
            vertices: self.vertices@.map_values(
                |v: (Vec<char>, Vec<char>, Vec<char>)| (v.0@, v.1@, v.2@),
            ),
            triangles: self.triangles@,
        }
    }
}

/// The triangles of a face whose first two valid indices are `a` and `b`: each
/// further valid index `c` closes the triangle `(a, b, c)` and becomes the next `b`.
/// Words that are no index are passed over.
pub open spec fn fan(a: usize, b: usize, rest: Seq<Seq<char>>) -> Seq<(usize, usize, usize)>
    decreases rest.len(),
{
    if rest.len() == 0 {
        seq![]
    } else {
        match face_index(rest[0]) {
            Some(c) => seq![(a, b, c)] + fan(a, c, rest.drop_first()),
            None => fan(a, b, rest.drop_first()),
        }
    }
}

/// A face is fanned from its first vertex: every triangle starts at `a`, the first one
/// continues from `b`, and each next one shares an edge with the one before.
pub proof fn lemma_fan_shape(a: usize, b: usize, rest: Seq<Seq<char>>)
    ensures
        forall|i: int| 0 <= i < fan(a, b, rest).len() ==> (#[trigger] fan(a, b, rest)[i]).0 == a,
        fan(a, b, rest).len() > 0 ==> fan(a, b, rest)[0].1 == b,
        forall|i: int| 0 < i < fan(a, b, rest).len() ==> (#[trigger] fan(a, b, rest)[i]).1 == fan(a, b, rest)[i - 1].2,
        fan(a, b, rest).len() <= rest.len(),
    decreases rest.len(),
{
    if rest.len() > 0 {
        let t = rest.drop_first();
        match face_index(rest[0]) {
            Some(c) => {
                lemma_fan_shape(a, c, t);
                let f = fan(a, b, rest);
                let g = fan(a, c, t);
                assert(f == seq![(a, b, c)] + g);
                assert forall|i: int| 0 < i < f.len() implies (#[trigger] f[i]).1 == f[i - 1].2 by {
                    assert(f[i] == g[i - 1]);
                    if i > 1 {
                        assert(f[i - 1] == g[i - 2]);
                    }
                }
                assert forall|i: int| 0 <= i < f.len() implies (#[trigger] f[i]).0 == a by {
                    if i > 0 {
                        assert(f[i] == g[i - 1]);
                    }
                }
            },
            None => lemma_fan_shape(a, b, t),
        }
    }
}

/// When every further word is an index, the fan has one triangle per word, and the
/// triangle of a word closes on the vertex that word names.
pub proof fn lemma_fan_indices(a: usize, b: usize, rest: Seq<Seq<char>>)
    requires
        forall|i: int| 0 <= i < rest.len() ==> #[trigger] face_index(rest[i]) is Some,
    ensures
        fan(a, b, rest).len() == rest.len(),
        forall|i: int| 0 <= i < rest.len() ==> (#[trigger] fan(a, b, rest)[i]).2 == face_index(rest[i])->Some_0,
    decreases rest.len(),
{
    if rest.len() > 0 {
        let t = rest.drop_first();
        assert(face_index(rest[0]) is Some);
        let c = face_index(rest[0])->Some_0;
        assert forall|i: int| 0 <= i < t.len() implies #[trigger] face_index(t[i]) is Some by {
            assert(t[i] == rest[i + 1]);
        }
        lemma_fan_indices(a, c, t);
        let f = fan(a, b, rest);
        assert(f == seq![(a, b, c)] + fan(a, c, t));
        assert forall|i: int| 0 <= i < rest.len() implies (#[trigger] f[i]).2 == face_index(rest[i])->Some_0 by {
            if i > 0 {
                assert(f[i] == fan(a, c, t)[i - 1]);
                assert(rest[i] == t[i - 1]);
            }
        }
    }
}

/// A face word is read as a one-based vertex index: digits denoting `n`, alone or
/// followed by `/` and anything, name the vertex `n - 1`, for every `n` from 1 that
/// fits in a `usize`.
pub proof fn lemma_face_index_one_based(d: Seq<char>, t: Seq<char>)
    requires
        d.len() > 0,
        forall|i: int| 0 <= i < d.len() ==> is_digit(#[trigger] d[i]),
        1 <= digits_value(d) <= usize::MAX,
        t.len() == 0 || t[0] == '/',
    ensures
        face_index(d + t) == Some((digits_value(d) - 1) as usize),
{
    let w = d + t;
    assert forall|j: int| 0 <= j < d.len() implies !(#[trigger] slash()(w[j])) by {
        assert(w[j] == d[j]);
        assert(is_digit(d[j]));
    }
    if d.len() < w.len() {
        assert(w[d.len() as int] == t[0]);
    }
    lemma_run_len_unique(w, slash(), d.len() as int);
    assert(w.take(d.len() as int) =~= d);
    assert(is_digit(d[0]));
    assert(unsigned_digits(d) == d);
}

/// The triangles of a face line, given the words after `f`: none unless the first
/// two words are indices.
pub open spec fn face_triangles(ws: Seq<Seq<char>>) -> Seq<(usize, usize, usize)> {
    if ws.len() < 2 {
        seq![]
    } else {
        match (face_index(ws[0]), face_index(ws[1])) {
            (Some(a), Some(b)) => fan(a, b, ws.skip(2)),
            _ => seq![],
        }
    }
}

/// The effect of one line's words: `v` adds a vertex from the next three words and
/// fails unless there are three and each is real-number text; `f` adds the face's triangles; anything else is ignored.
pub open spec fn apply_line(m: Option<ObjView>, ws: Seq<Seq<char>>) -> Option<ObjView> {
    match m {
        None => None,
        Some(v) => if ws.len() > 0 && ws[0] == seq!['v'] {
            if ws.len() >= 4 && real_text(ws[1]) && real_text(ws[2]) && real_text(ws[3]) {
                Some(ObjView { vertices: v.vertices.push((ws[1], ws[2], ws[3])), ..v })
            } else {
                None
            }
        } else if ws.len() > 0 && ws[0] == seq!['f'] {
            Some(ObjView { triangles: v.triangles + face_triangles(ws.drop_first()), ..v })
        } else {
            Some(v)
        },
    }
}

/// Applies each line in turn.
pub open spec fn apply_lines(m: Option<ObjView>, ls: Seq<Seq<char>>) -> Option<ObjView>
    decreases ls.len(),
{
    if ls.len() == 0 {
        m
    } else {
        apply_lines(apply_line(m, words(ls[0])), ls.drop_first())
    }
}

/// The model an OBJ text describes, or `None` where a vertex line is short.
pub open spec fn parse_obj(s: Seq<char>) -> Option<ObjView> {
    apply_lines(Some(ObjView { vertices: seq![], triangles: seq![] }), lines(s))
}

proof fn lemma_apply_lines_none(ls: Seq<Seq<char>>)
    ensures
        apply_lines(None, ls) == None::<ObjView>,
    decreases ls.len(),
{
    if ls.len() > 0 {
        lemma_apply_lines_none(ls.drop_first());
    }
}

/// Whether `w` can stand as one word: it is not empty and holds no whitespace.
pub open spec fn is_word(w: Seq<char>) -> bool {
    w.len() > 0 && forall|j: int| 0 <= j < w.len() ==> !is_ws(#[trigger] w[j])
}

/// A word followed by whitespace or by nothing is the first word of the text.
proof fn lemma_words_lead(w: Seq<char>, t: Seq<char>)
    requires
        is_word(w),
        t.len() == 0 || is_ws(t[0]),
    ensures
        words(w + t) == seq![w] + words(t),
{
    let s = w + t;
    assert(s[0] == w[0]);
    assert forall|j: int| 0 <= j < w.len() implies !(#[trigger] blank()(s[j])) by {
        assert(s[j] == w[j]);
    }
    if w.len() < s.len() {
        assert(s[w.len() as int] == t[0]);
    }
    lemma_run_len_unique(s, blank(), w.len() as int);
    assert(s.take(w.len() as int) =~= w);
    assert(s.skip(w.len() as int) =~= t);
}

/// A vertex line `v a b c` adds the vertex whose coordinates are `a`, `b` and `c`, in
/// that order, when each is real-number text, and the text is refused otherwise: for
/// every three words the line splits into `v`, `a`, `b`, `c`, and the model it
/// describes is that one vertex and no triangle.
pub proof fn lemma_vertex_line(a: Seq<char>, b: Seq<char>, c: Seq<char>)
    requires
        is_word(a),
        is_word(b),
        is_word(c),
    ensures
        words(seq!['v', ' '] + a + seq![' '] + b + seq![' '] + c) == seq![seq!['v'], a, b, c],
        parse_obj(seq!['v', ' '] + a + seq![' '] + b + seq![' '] + c) == if real_text(a) && real_text(b)
            && real_text(c) {
            Some(ObjView { vertices: seq![(a, b, c)], triangles: seq![] })
        } else {
            None
        },
{
    let line = seq!['v', ' '] + a + seq![' '] + b + seq![' '] + c;
    let tc = seq![' '] + c;
    let tb = seq![' '] + b + tc;
    let ta = seq![' '] + a + tb;
    assert(line =~= seq!['v'] + ta);
    assert(is_word(seq!['v'])) by {
        assert(seq!['v'][0] == 'v');
    }
    lemma_words_lead(seq!['v'], ta);
    assert(words(ta) == words(ta.drop_first()));
    assert(ta.drop_first() =~= a + tb);
    lemma_words_lead(a, tb);
    assert(words(tb) == words(tb.drop_first()));
    assert(tb.drop_first() =~= b + tc);
    lemma_words_lead(b, tc);
    assert(words(tc) == words(tc.drop_first()));
    assert(tc.drop_first() =~= c + Seq::<char>::empty());
    lemma_words_lead(c, Seq::<char>::empty());
    assert(words(Seq::<char>::empty()) == Seq::<Seq<char>>::empty());
    let ws = seq![seq!['v'], a, b, c];
    assert(words(line) =~= ws);
    assert forall|j: int| 0 <= j < line.len() implies !(#[trigger] newline()(line[j])) by {
        let la = 2 + a.len();
        let lb = la + 1 + b.len();
        if 2 <= j < la {
            assert(line[j] == a[j - 2]);
        } else if la + 1 <= j < lb {
            assert(line[j] == b[j - la - 1]);
        } else if lb + 1 <= j {
            assert(line[j] == c[j - lb - 1]);
        }
    }
    lemma_run_len_unique(line, newline(), line.len() as int);
    assert(lines(line) == seq![line]);
    assert(seq![line].drop_first() =~= Seq::<Seq<char>>::empty());
    assert(ws[0] == seq!['v'] && ws[1] == a && ws[2] == b && ws[3] == c);
    let empty = ObjView { vertices: seq![], triangles: seq![] };
    let ls = seq![line];
    assert(ls[0] == line);
    assert(parse_obj(line) == apply_lines(Some(empty), ls));
    assert(apply_lines(Some(empty), ls) == apply_lines(apply_line(Some(empty), words(ls[0])), ls.drop_first()));
    assert(parse_obj(line) == apply_line(Some(empty), ws));
    assert(empty.vertices.push((a, b, c)) =~= seq![(a, b, c)]);
}

/// Whether a word is the single character `c`.
fn is_keyword(w: &Vec<char>, c: char) -> (b: bool)
    ensures
        b == (w@ == seq![c]),
{
    if w.len() == 1 && w[0] == c {
        assert(w@ =~= seq![c]);
        true
    } else {
        proof {
            if w@ == seq![c] {
                assert(w@[0] == c);
            }
        }
        false
    }
}

/// Appends the triangles of a face line to `tris`; `ws` are the line's words, `f` first.
fn push_face(tris: &mut Vec<(usize, usize, usize)>, ws: &Vec<Vec<char>>)
    requires
        ws.len() >= 1,
    ensures
        final(tris)@ == old(tris)@ + face_triangles(texts(ws@).drop_first()),
{
    let ghost rest = texts(ws@).drop_first();
    if ws.len() < 3 {
        assert(old(tris)@ + face_triangles(rest) =~= old(tris)@);
        return;
    }
    assert(rest[0] == ws@[1]@ && rest[1] == ws@[2]@);
    let a = match face_index_in(&ws[1]) {
        Some(a) => a,
        None => {
            assert(old(tris)@ + face_triangles(rest) =~= old(tris)@);
            return;
        },
    };
    let mut b = match face_index_in(&ws[2]) {
        Some(b) => b,
        None => {
            assert(old(tris)@ + face_triangles(rest) =~= old(tris)@);
            return;
        },
    };
    let ghost b0 = b;
    let mut i: usize = 3;
    assert(rest.skip(2) =~= texts(ws@).skip(3));
    while i < ws.len()
        invariant
            3 <= i <= ws.len(),
            rest == texts(ws@).drop_first(),
            rest.len() >= 2,
            face_index(rest[0]) == Some(a),
            face_index(rest[1]) == Some(b0),
            tris@ + fan(a, b, texts(ws@).skip(i as int)) == old(tris)@ + fan(a, b0, rest.skip(2)),
        decreases ws.len() - i,
    {
        let ghost t = texts(ws@).skip(i as int);
        assert(t[0] == ws@[i as int]@);
        assert(t.drop_first() =~= texts(ws@).skip(i + 1));
        let ghost before = tris@;
        match face_index_in(&ws[i]) {
            Some(c) => {
                tris.push((a, b, c));
                assert(tris@ + fan(a, c, t.drop_first()) =~= before + fan(a, b, t));
                b = c;
            },
            None => {},
        }
        i = i + 1;
    }
    assert(texts(ws@).skip(i as int) =~= Seq::<Seq<char>>::empty());
    assert(rest.skip(2) =~= texts(ws@).skip(3));
    assert(tris@ + Seq::<(usize, usize, usize)>::empty() =~= tris@);
}

impl ObjModel {
    /// Parses an OBJ text: vertex lines (`v x y z`) and faces (`f i j k ...`, fanned
    /// into triangles from the first index). Other lines are ignored. Fails only on a
    /// vertex line without three coordinates that are real-number text.
    pub fn from_str(s: &str) -> (r: Result<ObjModel, ()>)
        ensures
            match r {
                Ok(m) => parse_obj(s@) == Some(m@),
                Err(_) => parse_obj(s@) is None,
            },
    {
        let w = chars_of(s);
        let mut model = ObjModel { vertices: Vec::new(), triangles: Vec::new() };
        assert(model@.vertices =~= Seq::<(Seq<char>, Seq<char>, Seq<char>)>::empty());
        let mut pos: usize = 0;
        assert(w@.skip(0) =~= w@);
        loop
            invariant_except_break
                pos <= w.len(),
                w@ == s@,
                apply_lines(Some(model@), lines(w@.skip(pos as int))) == parse_obj(s@),
            ensures
                Some(model@) == parse_obj(s@),
            decreases w.len() - pos,
        {
            let ghost t = w@.skip(pos as int);
            let ghost before = model@;
            let k = find_stop(&w, pos, w.len(), Ghost(newline()), |c: char| -> (b: bool) ensures b == (c == '\n') { c == '\n' });
            proof {
                assert(w@.subrange(pos as int, w.len() as int) =~= t);
                lemma_run_len(t, newline());
                assert(t.take(k - pos) =~= w@.subrange(pos as int, k as int));
            }
            let ws = words_in(&w, pos, k);
            let ghost line = w@.subrange(pos as int, k as int);
            proof {
                if ws.len() > 0 {
                    assert(texts(ws@)[0] == ws@[0]@);
                }
            }
            if ws.len() > 0 && is_keyword(&ws[0], 'v') {
                if ws.len() >= 4 && real_in(&ws[1], 0, ws[1].len()) && real_in(&ws[2], 0, ws[2].len()) && real_in(&ws[3], 0, ws[3].len()) {
                    let x = copy_range(&ws[1], 0, ws[1].len());
                    let y = copy_range(&ws[2], 0, ws[2].len());
                    let z = copy_range(&ws[3], 0, ws[3].len());
                    proof {
                        assert(ws@[1]@.subrange(0, ws@[1]@.len() as int) =~= ws@[1]@);
                        assert(ws@[2]@.subrange(0, ws@[2]@.len() as int) =~= ws@[2]@);
                        assert(ws@[3]@.subrange(0, ws@[3]@.len() as int) =~= ws@[3]@);
                        assert(x@ =~= ws@[1]@ && y@ =~= ws@[2]@ && z@ =~= ws@[3]@);
                        assert(texts(ws@)[1] == ws@[1]@ && texts(ws@)[2] == ws@[2]@ && texts(ws@)[3] == ws@[3]@);
                    }
                    model.vertices.push((x, y, z));
                    assert(model@.vertices =~= before.vertices.push((x@, y@, z@)));
                } else {
                    proof {
                        if ws.len() >= 4 {
                            assert(texts(ws@)[1] == ws@[1]@ && texts(ws@)[2] == ws@[2]@ && texts(ws@)[3] == ws@[3]@);
                            assert(ws@[1]@.subrange(0, ws@[1]@.len() as int) =~= ws@[1]@);
                            assert(ws@[2]@.subrange(0, ws@[2]@.len() as int) =~= ws@[2]@);
                            assert(ws@[3]@.subrange(0, ws@[3]@.len() as int) =~= ws@[3]@);
                        }
                        if k < w.len() {
                            lemma_apply_lines_none(lines(t).drop_first());
                        }
                    }
                    return Err(());
                }
            } else if ws.len() > 0 && is_keyword(&ws[0], 'f') {
                push_face(&mut model.triangles, &ws);
            }
            assert(Some(model@) == apply_line(Some(before), words(line)));
            if k == w.len() {
                proof {
                    assert(line =~= t);
                    assert(lines(t) =~= seq![t]);
                    assert(lines(t).drop_first() =~= Seq::<Seq<char>>::empty());
                    assert(apply_lines(Some(before), lines(t)) == apply_lines(Some(model@), lines(t).drop_first()));
                }
                break;
            }
            proof {
                assert(t.skip(k - pos + 1) =~= w@.skip(k + 1));
                assert(lines(t)[0] == line);
                assert(lines(t).drop_first() == lines(w@.skip(k + 1)));
            }
            pos = k + 1;
        }
        Ok(model)
    }
}

} // verus!
