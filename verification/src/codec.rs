//! The geometry codec: a rectangle is exchanged with the storage boundary as
//! a closed five-vertex polygon ring in the textual form
//! `POLYGON((x1 y1, x2 y2, x3 y3, x4 y4, x1 y1))`, held here as ASCII bytes.
//!
//! [`encode_rect`] produces the ring for an origin-plus-size rectangle, with
//! the vertices ordered origin, origin shifted by width, far corner, origin
//! shifted by height, and the origin again to close the ring. [`decode_rect`]
//! is its inverse: it reads the origin back from the first vertex and derives
//! width and height from the diagonally opposite third vertex.

use vstd::prelude::*;

use crate::errors::StoreError;

verus! {

/// ASCII decimal digit.
pub open spec fn is_digit(c: u8) -> bool {
    48 <= c <= 57
}

/// An integer fits the signed 64-bit range.
pub open spec fn fits_i64(n: int) -> bool {
    i64::MIN <= n <= i64::MAX
}

/// The decimal digits of `n`, most significant first.
pub open spec fn dec_digits(n: nat) -> Seq<u8>
    decreases n,
{
    if n < 10 {
        seq![(48 + n) as u8]
    } else {
        dec_digits(n / 10).push((48 + n % 10) as u8)
    }
}

/// The decimal text of `n`, with a leading `-` when `n` is negative.
pub open spec fn int_text(n: int) -> Seq<u8> {
    if n < 0 {
        seq![45u8] + dec_digits((-n) as nat)
    } else {
        dec_digits(n as nat)
    }
}

/// `"x y"`: a vertex, coordinates separated by one space.
pub open spec fn pair_text(x: int, y: int) -> Seq<u8> {
    int_text(x) + seq![32u8] + int_text(y)
}

/// `"POLYGON(("`.
pub open spec fn head_text() -> Seq<u8> {
    seq![80u8, 79u8, 76u8, 89u8, 71u8, 79u8, 78u8, 40u8, 40u8]
}

/// `", "`: the vertex separator.
pub open spec fn sep_text() -> Seq<u8> {
    seq![44u8, 32u8]
}

/// `"))"`.
pub open spec fn tail_text() -> Seq<u8> {
    seq![41u8, 41u8]
}

/// The full ring text for the rectangle with origin `(x, y)` and signed
/// size `(w, h)`.
#[verifier::opaque]
pub open spec fn rect_text(x: int, y: int, w: int, h: int) -> Seq<u8> {
    head_text() + pair_text(x, y) + sep_text() + pair_text(x + w, y) + sep_text() + pair_text(
        x + w,
        y + h,
    ) + sep_text() + pair_text(x, y + h) + sep_text() + pair_text(x, y) + tail_text()
}

/// Appends the decimal digits of `n` to `out`.
fn push_u64_digits(out: &mut Vec<u8>, n: u64)
    ensures
        final(out)@ == old(out)@ + dec_digits(n as nat),
    decreases n,
{
    if n < 10 {
        out.push(48 + n as u8);
        assert(out@ =~= old(out)@ + dec_digits(n as nat));
    } else {
        push_u64_digits(out, n / 10);
        out.push(48 + (n % 10) as u8);
        assert(out@ =~= old(out)@ + dec_digits(n as nat));
    }
}

/// Appends the decimal text of `n`, sign included, to `out`.
fn push_i64_text(out: &mut Vec<u8>, n: i64)
    ensures
        final(out)@ == old(out)@ + int_text(n as int),
{
    if n >= 0 {
        push_u64_digits(out, n as u64);
    } else {
        out.push(45);
        let mag: u64 = (-(n as i128)) as u64;
        push_u64_digits(out, mag);
        assert(out@ =~= old(out)@ + int_text(n as int));
    }
}

/// Encodes a rectangle as the closed five-vertex polygon ring
/// `POLYGON((x y, x+w y, x+w y+h, x y+h, x y))` in ASCII bytes.
/// Never fails: every rectangle whose far corner is representable has a
/// ring text.
pub fn encode_rect(x: i64, y: i64, w: i64, h: i64) -> (r: Vec<u8>)
    requires
        crate::geometry::rect_sums_fit(x as int, y as int, w as int, h as int),
    ensures
        r@ == rect_text(x as int, y as int, w as int, h as int),
{
    let mut out: Vec<u8> = Vec::new();
    out.push(80);
    out.push(79);
    out.push(76);
    out.push(89);
    out.push(71);
    out.push(79);
    out.push(78);
    out.push(40);
    out.push(40);
    let ghost mut acc: Seq<u8> = head_text();
    assert(out@ =~= acc);
    push_vertex(&mut out, x, y);
    proof {
        acc = acc + pair_text(x as int, y as int);
    }
    assert(out@ =~= acc);
    push_sep(&mut out);
    push_vertex(&mut out, x + w, y);
    proof {
        acc = acc + sep_text() + pair_text(x + w, y as int);
    }
    assert(out@ =~= acc);
    push_sep(&mut out);
    push_vertex(&mut out, x + w, y + h);
    proof {
        acc = acc + sep_text() + pair_text(x + w, y + h);
    }
    assert(out@ =~= acc);
    push_sep(&mut out);
    push_vertex(&mut out, x, y + h);
    proof {
        acc = acc + sep_text() + pair_text(x as int, y + h);
    }
    assert(out@ =~= acc);
    push_sep(&mut out);
    push_vertex(&mut out, x, y);
    proof {
        acc = acc + sep_text() + pair_text(x as int, y as int);
    }
    assert(out@ =~= acc);
    out.push(41);
    out.push(41);
    proof {
        acc = acc + tail_text();
    }
    assert(out@ =~= acc);
    assert(acc == rect_text(x as int, y as int, w as int, h as int)) by {
        reveal(rect_text);
    }
    out
}

/// Appends `"x y"`, one vertex of the ring, to `out`.
fn push_vertex(out: &mut Vec<u8>, x: i64, y: i64)
    ensures
        final(out)@ == old(out)@ + pair_text(x as int, y as int),
{
    push_i64_text(out, x);
    out.push(32);
    push_i64_text(out, y);
    assert(out@ =~= old(out)@ + pair_text(x as int, y as int));
}

/// Appends the vertex separator `", "` to `out`.
fn push_sep(out: &mut Vec<u8>)
    ensures
        final(out)@ == old(out)@ + sep_text(),
{
    out.push(44);
    out.push(32);
    assert(out@ =~= old(out)@ + sep_text());
}

/// True when the text `t` occurs in `s` at position `i`.
pub open spec fn match_lit(s: Seq<u8>, i: int, t: Seq<u8>) -> bool {
    &&& 0 <= i
    &&& i + t.len() <= s.len()
    &&& forall|j: int| 0 <= j < t.len() ==> s[i + j] == t[j]
}

/// The position just past the run of decimal digits that starts at `i`.
pub open spec fn digit_end(s: Seq<u8>, i: int) -> int
    decreases s.len() - i,
{
    if 0 <= i < s.len() && is_digit(s[i]) {
        digit_end(s, i + 1)
    } else {
        i
    }
}

/// The value of the digit run `s[i..j)`, most significant digit first.
pub open spec fn digits_val(s: Seq<u8>, i: int, j: int) -> int
    decreases j - i,
{
    if i < j {
        digits_val(s, i, j - 1) * 10 + (s[j - 1] - 48)
    } else {
        0
    }
}

/// Scans an optionally signed decimal integer at `i`: its value and the
/// position just past it. Fails when no digit stands at the position, or
/// after the sign.
pub open spec fn scan_int(s: Seq<u8>, i: int) -> Option<(int, int)> {
    let neg = 0 <= i < s.len() && s[i] == 45;
    let d0 = if neg {
        i + 1
    } else {
        i
    };
    let e = digit_end(s, d0);
    if e == d0 {
        None
    } else {
        let v = digits_val(s, d0, e);
        Some((if neg { -v } else { v }, e))
    }
}

/// Scans a coordinate: a signed decimal integer that fits an `i64`.
pub open spec fn scan_coord(s: Seq<u8>, i: int) -> Option<(int, int)> {
    match scan_int(s, i) {
        None => None,
        Some((v, e)) => if fits_i64(v) {
            Some((v, e))
        } else {
            None
        },
    }
}

/// Scans a vertex `"x y"` at `i`: both coordinates and the position just
/// past them.
pub open spec fn scan_vertex(s: Seq<u8>, i: int) -> Option<((int, int), int)> {
    match scan_coord(s, i) {
        None => None,
        Some((x, j)) => if j < s.len() && s[j] == 32 {
            match scan_coord(s, j + 1) {
                None => None,
                Some((y, k)) => Some(((x, y), k)),
            }
        } else {
            None
        },
    }
}

/// The meaning of a rectangle ring text: `Some((x, y, w, h))` when `s` is a
/// well-formed closed five-vertex axis-aligned ring whose origin is the
/// first vertex, whose far corner is the third, and whose width and height
/// fit an `i64`; `None` otherwise.
pub open spec fn dec_rect(s: Seq<u8>) -> Option<(int, int, int, int)> {
    if !match_lit(s, 0, head_text()) {
        None
    } else {
        match scan_vertex(s, 9) {
            None => None,
            Some((v0, i1)) => if !match_lit(s, i1, sep_text()) {
                None
            } else {
                match scan_vertex(s, i1 + 2) {
                    None => None,
                    Some((v1, i2)) => if !match_lit(s, i2, sep_text()) {
                        None
                    } else {
                        match scan_vertex(s, i2 + 2) {
                            None => None,
                            Some((v2, i3)) => if !match_lit(s, i3, sep_text()) {
                                None
                            } else {
                                match scan_vertex(s, i3 + 2) {
                                    None => None,
                                    Some((v3, i4)) => if !match_lit(s, i4, sep_text()) {
                                        None
                                    } else {
                                        match scan_vertex(s, i4 + 2) {
                                            None => None,
                                            Some((v4, i5)) => dec_rect_close(s, v0, v1, v2, v3, v4, i5),
                                        }
                                    },
                                }
                            },
                        }
                    },
                }
            },
        }
    }
}

/// The closing step of [`dec_rect`]: the tail `"))"` ends the text, the
/// ring is closed and axis-aligned, and the derived size fits an `i64`.
pub open spec fn dec_rect_close(
    s: Seq<u8>,
    v0: (int, int),
    v1: (int, int),
    v2: (int, int),
    v3: (int, int),
    v4: (int, int),
    i5: int,
) -> Option<(int, int, int, int)> {
    if !(match_lit(s, i5, tail_text()) && i5 + 2 == s.len()) {
        None
    } else {
        let w = v2.0 - v0.0;
        let h = v2.1 - v0.1;
        if v1 == (v2.0, v0.1) && v3 == (v0.0, v2.1) && v4 == v0 && fits_i64(w) && fits_i64(h) {
            Some((v0.0, v0.1, w, h))
        } else {
            None
        }
    }
}

/// Decides whether `c` is an ASCII decimal digit.
fn byte_is_digit(c: u8) -> (r: bool)
    ensures
        r == is_digit(c),
{
    48 <= c && c <= 57
}

/// Finds the position just past the digit run that starts at `i`.
fn find_digit_end(s: &Vec<u8>, i: usize) -> (e: usize)
    requires
        i <= s@.len(),
    ensures
        e as int == digit_end(s@, i as int),
        i <= e <= s@.len(),
        forall|k: int| i <= k < e ==> is_digit(s@[k]),
{
    let mut j: usize = i;
    while j < s.len() && byte_is_digit(s[j])
        invariant
            i <= j <= s@.len(),
            digit_end(s@, i as int) == digit_end(s@, j as int),
            forall|k: int| i <= k < j ==> is_digit(s@[k]),
        decreases s@.len() - j,
    {
        j = j + 1;
    }
    j
}

/// Scans an optionally signed decimal integer at `i` and returns it as an
/// `i64` with the position just past it; `None` when the text has no digit
/// run there or the value does not fit an `i64`.
fn scan_i64(s: &Vec<u8>, i: usize) -> (r: Option<(i64, usize)>)
    requires
        i <= s@.len(),
    ensures
        match r {
            Some((v, e)) => scan_coord(s@, i as int) == Some((v as int, e as int)) && i <= e
                <= s@.len(),
            None => scan_coord(s@, i as int) is None,
        },
{
    let mut neg: bool = false;
    let mut d0: usize = i;
    if i < s.len() && s[i] == 45 {
        neg = true;
        d0 = i + 1;
    }
    let e = find_digit_end(s, d0);
    if e == d0 {
        return None;
    }
    let mut mag: u64 = 0;
    let mut j: usize = d0;
    while j < e
        invariant
            i <= s@.len(),
            neg == (i < s@.len() && s@[i as int] == 45),
            d0 as int == if neg {
                i + 1
            } else {
                i as int
            },
            d0 < e,
            d0 <= j <= e <= s@.len(),
            e as int == digit_end(s@, d0 as int),
            forall|k: int| d0 <= k < e ==> is_digit(s@[k]),
            mag as int == digits_val(s@, d0 as int, j as int),
        decreases e - j,
    {
        let d: u8 = s[j] - 48;
        if mag > (u64::MAX - d as u64) / 10 {
            proof {
                let q: int = (u64::MAX - d) / 10;
                assert(u64::MAX - d == 10 * q + (u64::MAX - d) % 10);
                assert(mag >= q + 1);
                assert(mag * 10 >= (q + 1) * 10);
                assert(mag * 10 + d > u64::MAX);
                assert(digits_val(s@, d0 as int, (j + 1) as int) == mag * 10 + d);
                lemma_digits_val_grows(s@, d0 as int, (j + 1) as int, e as int);
                assert(digits_val(s@, d0 as int, e as int) > u64::MAX);
            }
            return None;
        }
        mag = mag * 10 + d as u64;
        j = j + 1;
    }
    if neg {
        // the magnitude of i64::MIN
        if mag > 9223372036854775808u64 {
            return None;
        }
        if mag == 9223372036854775808u64 {
            Some((i64::MIN, e))
        } else {
            Some((-(mag as i64), e))
        }
    } else {
        if mag > i64::MAX as u64 {
            return None;
        }
        Some((mag as i64, e))
    }
}

/// The digit-run value never shrinks as the run is extended to the right.
proof fn lemma_digits_val_grows(s: Seq<u8>, i: int, j: int, k: int)
    requires
        i <= j <= k,
        forall|m: int| i <= m < k ==> is_digit(s[m]),
    ensures
        digits_val(s, i, j) <= digits_val(s, i, k),
        digits_val(s, i, j) >= 0,
    decreases k - j,
{
    if j < k {
        lemma_digits_val_grows(s, i, j, k - 1);
        lemma_digits_val_nonneg(s, i, k - 1);
    } else {
        lemma_digits_val_nonneg(s, i, j);
    }
}

/// The value of a digit run is never negative.
proof fn lemma_digits_val_nonneg(s: Seq<u8>, i: int, j: int)
    requires
        forall|m: int| i <= m < j ==> is_digit(s[m]),
    ensures
        digits_val(s, i, j) >= 0,
    decreases j - i,
{
    if i < j {
        lemma_digits_val_nonneg(s, i, j - 1);
    }
}

/// The decimal digits of `n` are at least one byte of digits.
proof fn lemma_dec_digits_shape(n: nat)
    ensures
        dec_digits(n).len() >= 1,
        forall|j: int| 0 <= j < dec_digits(n).len() ==> is_digit(#[trigger] dec_digits(n)[j]),
    decreases n,
{
    if n >= 10 {
        lemma_dec_digits_shape(n / 10);
    }
}

/// A digit run bounded on the right by a non-digit (or the end of the text)
/// ends exactly there.
proof fn lemma_digit_end_of_run(s: Seq<u8>, i: int, e: int)
    requires
        0 <= i <= e <= s.len(),
        forall|k: int| i <= k < e ==> is_digit(s[k]),
        e == s.len() || !is_digit(s[e]),
    ensures
        digit_end(s, i) == e,
    decreases e - i,
{
    if i < e {
        lemma_digit_end_of_run(s, i + 1, e);
    }
}

/// A digit run that spells `dec_digits(n)` has value `n`.
proof fn lemma_digits_val_of_text(s: Seq<u8>, i: int, n: nat)
    requires
        0 <= i,
        i + dec_digits(n).len() <= s.len(),
        forall|j: int| 0 <= j < dec_digits(n).len() ==> s[i + j] == #[trigger] dec_digits(n)[j],
    ensures
        digits_val(s, i, i + dec_digits(n).len()) == n,
    decreases n,
{
    if n < 10 {
        assert(s[i] == dec_digits(n)[0]);
        assert(digits_val(s, i, i) == 0);
        assert(digits_val(s, i, i + 1) == n);
    } else {
        lemma_dec_digits_shape(n / 10);
        let ld = dec_digits(n / 10).len() as int;
        assert forall|j: int| 0 <= j < ld implies s[i + j] == #[trigger] dec_digits(n / 10)[j] by {
            assert(dec_digits(n)[j] == dec_digits(n / 10)[j]);
            assert(s[i + j] == dec_digits(n)[j]);
        }
        lemma_digits_val_of_text(s, i, n / 10);
        assert(s[i + ld] == dec_digits(n)[ld]);
        assert(dec_digits(n)[ld] == 48 + n % 10);
        assert(digits_val(s, i, i + ld + 1) == digits_val(s, i, i + ld) * 10 + (s[i + ld] - 48));
    }
}

/// Scanning a text that spells `int_text(n)` at `i`, with no digit
/// immediately after it, yields exactly `n`.
proof fn lemma_scan_int_text(s: Seq<u8>, i: int, n: int)
    requires
        0 <= i,
        i + int_text(n).len() <= s.len(),
        forall|j: int| 0 <= j < int_text(n).len() ==> s[i + j] == #[trigger] int_text(n)[j],
        i + int_text(n).len() == s.len() || !is_digit(s[i + int_text(n).len()]),
    ensures
        scan_int(s, i) == Some((n, i + int_text(n).len())),
{
    if n >= 0 {
        lemma_dec_digits_shape(n as nat);
        let ln = dec_digits(n as nat).len() as int;
        assert forall|j: int| 0 <= j < ln implies s[i + j] == #[trigger] dec_digits(n as nat)[j] by {
            assert(s[i + j] == int_text(n)[j]);
        }
        assert(forall|k: int| i <= k < i + ln ==> is_digit(s[k])) by {
            assert(forall|k: int| i <= k < i + ln ==> s[k] == dec_digits(n as nat)[k - i]);
        }
        assert(s[i] == dec_digits(n as nat)[0]);
        assert(is_digit(s[i]));
        assert(s[i] != 45);
        lemma_digit_end_of_run(s, i, i + ln);
        lemma_digits_val_of_text(s, i, n as nat);
    } else {
        let m = (-n) as nat;
        lemma_dec_digits_shape(m);
        let lm = dec_digits(m).len() as int;
        assert(int_text(n).len() == 1 + lm);
        assert(s[i] == int_text(n)[0]);
        assert(int_text(n)[0] == 45);
        assert forall|j: int| 0 <= j < lm implies s[i + 1 + j] == #[trigger] dec_digits(m)[j] by {
            assert(s[i + (1 + j)] == int_text(n)[1 + j]);
            assert(int_text(n)[1 + j] == dec_digits(m)[j]);
        }
        assert(forall|k: int| i + 1 <= k < i + 1 + lm ==> is_digit(s[k])) by {
            assert(forall|k: int| i + 1 <= k < i + 1 + lm ==> s[k] == dec_digits(m)[k - (i + 1)]);
        }
        lemma_digit_end_of_run(s, i + 1, i + 1 + lm);
        lemma_digits_val_of_text(s, i + 1, m);
        assert(digit_end(s, i + 1) != i + 1);
        assert(scan_int(s, i) == Some((n, i + 1 + lm)));
    }
}

/// Scanning a text that spells `pair_text(x, y)` at `i`, with no digit
/// immediately after it, yields exactly the vertex `(x, y)`.
proof fn lemma_scan_vertex_text(s: Seq<u8>, i: int, x: int, y: int)
    requires
        0 <= i,
        i + pair_text(x, y).len() <= s.len(),
        forall|j: int| 0 <= j < pair_text(x, y).len() ==> s[i + j] == #[trigger] pair_text(x, y)[j],
        i + pair_text(x, y).len() == s.len() || !is_digit(s[i + pair_text(x, y).len()]),
        fits_i64(x),
        fits_i64(y),
    ensures
        scan_vertex(s, i) == Some(((x, y), i + pair_text(x, y).len())),
{
    let lx = int_text(x).len() as int;
    let ly = int_text(y).len() as int;
    assert(pair_text(x, y).len() == lx + 1 + ly);
    assert forall|j: int| 0 <= j < lx implies s[i + j] == #[trigger] int_text(x)[j] by {
        assert(s[i + j] == pair_text(x, y)[j]);
        assert(pair_text(x, y)[j] == int_text(x)[j]);
    }
    assert(s[i + lx] == pair_text(x, y)[lx]);
    assert(pair_text(x, y)[lx] == 32);
    lemma_scan_int_text(s, i, x);
    assert(scan_coord(s, i) == Some((x, i + lx)));
    assert forall|j: int| 0 <= j < ly implies s[i + lx + 1 + j] == #[trigger] int_text(y)[j] by {
        assert(s[i + (lx + 1 + j)] == pair_text(x, y)[lx + 1 + j]);
        assert(pair_text(x, y)[lx + 1 + j] == int_text(y)[j]);
    }
    lemma_scan_int_text(s, i + lx + 1, y);
    assert(scan_coord(s, i + lx + 1) == Some((y, i + lx + 1 + ly)));
}

/// Where each piece of the ring text stands: the head, the five vertex
/// texts, the separators, and the closing tail, each at its offset.
#[verifier::rlimit(100)]
proof fn lemma_rect_text_layout(x: int, y: int, w: int, h: int)
    ensures
        ({
            let s = rect_text(x, y, w, h);
            let p0 = pair_text(x, y);
            let p1 = pair_text(x + w, y);
            let p2 = pair_text(x + w, y + h);
            let p3 = pair_text(x, y + h);
            let b0 = 9 + p0.len() as int;
            let b1 = b0 + 2 + p1.len() as int;
            let b2 = b1 + 2 + p2.len() as int;
            let b3 = b2 + 2 + p3.len() as int;
            let b4 = b3 + 2 + p0.len() as int;
            &&& s.len() == b4 + 2
            &&& match_lit(s, 0, head_text())
            &&& forall|j: int| 0 <= j < p0.len() ==> s[9 + j] == #[trigger] p0[j]
            &&& match_lit(s, b0, sep_text())
            &&& forall|j: int| 0 <= j < p1.len() ==> s[b0 + 2 + j] == #[trigger] p1[j]
            &&& match_lit(s, b1, sep_text())
            &&& forall|j: int| 0 <= j < p2.len() ==> s[b1 + 2 + j] == #[trigger] p2[j]
            &&& match_lit(s, b2, sep_text())
            &&& forall|j: int| 0 <= j < p3.len() ==> s[b2 + 2 + j] == #[trigger] p3[j]
            &&& match_lit(s, b3, sep_text())
            &&& forall|j: int| 0 <= j < p0.len() ==> s[b3 + 2 + j] == #[trigger] p0[j]
            &&& match_lit(s, b4, tail_text())
        }),
{
    let s = rect_text(x, y, w, h);
    let p0 = pair_text(x, y);
    let p1 = pair_text(x + w, y);
    let p2 = pair_text(x + w, y + h);
    let p3 = pair_text(x, y + h);
    let b0 = 9 + p0.len() as int;
    let b1 = b0 + 2 + p1.len() as int;
    let b2 = b1 + 2 + p2.len() as int;
    let b3 = b2 + 2 + p3.len() as int;
    let b4 = b3 + 2 + p0.len() as int;
    reveal(rect_text);
    assert(s.len() == b4 + 2);
    assert(match_lit(s, 0, head_text())) by {
        assert(forall|j: int| 0 <= j < 9 ==> s[j] == head_text()[j]);
    }
    assert(forall|j: int| 0 <= j < p0.len() ==> s[9 + j] == #[trigger] p0[j]);
    assert(match_lit(s, b0, sep_text())) by {
        assert(forall|j: int| 0 <= j < 2 ==> s[b0 + j] == sep_text()[j]);
    }
    assert(forall|j: int| 0 <= j < p1.len() ==> s[b0 + 2 + j] == #[trigger] p1[j]);
    assert(match_lit(s, b1, sep_text())) by {
        assert(forall|j: int| 0 <= j < 2 ==> s[b1 + j] == sep_text()[j]);
    }
    assert(forall|j: int| 0 <= j < p2.len() ==> s[b1 + 2 + j] == #[trigger] p2[j]);
    assert(match_lit(s, b2, sep_text())) by {
        assert(forall|j: int| 0 <= j < 2 ==> s[b2 + j] == sep_text()[j]);
    }
    assert(forall|j: int| 0 <= j < p3.len() ==> s[b2 + 2 + j] == #[trigger] p3[j]);
    assert(match_lit(s, b3, sep_text())) by {
        assert(forall|j: int| 0 <= j < 2 ==> s[b3 + j] == sep_text()[j]);
    }
    assert(forall|j: int| 0 <= j < p0.len() ==> s[b3 + 2 + j] == #[trigger] p0[j]);
    assert(match_lit(s, b4, tail_text())) by {
        assert(forall|j: int| 0 <= j < 2 ==> s[b4 + j] == tail_text()[j]);
    }
}

/// Round trip: decoding the ring text of any representable rectangle gives
/// back exactly its origin and signed size, negative or zero sizes and
/// origins included.
#[verifier::rlimit(100)]
pub proof fn lemma_rect_round_trip(x: int, y: int, w: int, h: int)
    requires
        fits_i64(x),
        fits_i64(y),
        fits_i64(w),
        fits_i64(h),
        fits_i64(x + w),
        fits_i64(y + h),
    ensures
        dec_rect(rect_text(x, y, w, h)) == Some((x, y, w, h)),
{
    let s = rect_text(x, y, w, h);
    let p0 = pair_text(x, y);
    let p1 = pair_text(x + w, y);
    let p2 = pair_text(x + w, y + h);
    let p3 = pair_text(x, y + h);
    let b0 = 9 + p0.len() as int;
    let b1 = b0 + 2 + p1.len() as int;
    let b2 = b1 + 2 + p2.len() as int;
    let b3 = b2 + 2 + p3.len() as int;
    let b4 = b3 + 2 + p0.len() as int;
    lemma_rect_text_layout(x, y, w, h);
    assert(s[b0] == 44 && !is_digit(s[b0])) by {
        assert(sep_text()[0] == 44);
    }
    assert(s[b1] == 44 && !is_digit(s[b1])) by {
        assert(sep_text()[0] == 44);
    }
    assert(s[b2] == 44 && !is_digit(s[b2])) by {
        assert(sep_text()[0] == 44);
    }
    assert(s[b3] == 44 && !is_digit(s[b3])) by {
        assert(sep_text()[0] == 44);
    }
    assert(s[b4] == 41 && !is_digit(s[b4])) by {
        assert(tail_text()[0] == 41);
    }
    lemma_scan_vertex_text(s, 9, x, y);
    lemma_scan_vertex_text(s, b0 + 2, x + w, y);
    lemma_scan_vertex_text(s, b1 + 2, x + w, y + h);
    lemma_scan_vertex_text(s, b2 + 2, x, y + h);
    lemma_scan_vertex_text(s, b3 + 2, x, y);
    lemma_dec_rect_walk(s, x, y, w, h, b0, b1, b2, b3, b4);
}

/// Walks [`dec_rect`] through a text whose pieces are already known to
/// scan as the five ring vertices of one rectangle.
proof fn lemma_dec_rect_walk(
    s: Seq<u8>,
    x: int,
    y: int,
    w: int,
    h: int,
    b0: int,
    b1: int,
    b2: int,
    b3: int,
    b4: int,
)
    requires
        s.len() == b4 + 2,
        match_lit(s, 0, head_text()),
        scan_vertex(s, 9) == Some(((x, y), b0)),
        match_lit(s, b0, sep_text()),
        scan_vertex(s, b0 + 2) == Some(((x + w, y), b1)),
        match_lit(s, b1, sep_text()),
        scan_vertex(s, b1 + 2) == Some(((x + w, y + h), b2)),
        match_lit(s, b2, sep_text()),
        scan_vertex(s, b2 + 2) == Some(((x, y + h), b3)),
        match_lit(s, b3, sep_text()),
        scan_vertex(s, b3 + 2) == Some(((x, y), b4)),
        match_lit(s, b4, tail_text()),
        fits_i64(w),
        fits_i64(h),
    ensures
        dec_rect(s) == Some((x, y, w, h)),
{
    assert(dec_rect_close(s, (x, y), (x + w, y), (x + w, y + h), (x, y + h), (x, y), b4) == Some(
        (x, y, w, h),
    ));
}

/// Scans a vertex `"x y"` at `i`.
fn scan_vertex_at(s: &Vec<u8>, i: usize) -> (r: Option<(i64, i64, usize)>)
    requires
        i <= s@.len(),
    ensures
        match r {
            Some((x, y, e)) => scan_vertex(s@, i as int) == Some(((x as int, y as int), e as int))
                && i <= e <= s@.len(),
            None => scan_vertex(s@, i as int) is None,
        },
{
    match scan_i64(s, i) {
        None => None,
        Some((x, j)) => {
            if j < s.len() && s[j] == 32 {
                match scan_i64(s, j + 1) {
                    None => None,
                    Some((y, k)) => Some((x, y, k)),
                }
            } else {
                None
            }
        },
    }
}

/// Checks for the head `"POLYGON(("` at the start of `s`.
fn check_head(s: &Vec<u8>) -> (r: bool)
    ensures
        r == match_lit(s@, 0, head_text()),
{
    if s.len() < 9 {
        return false;
    }
    let r = s[0] == 80 && s[1] == 79 && s[2] == 76 && s[3] == 89 && s[4] == 71 && s[5] == 79
        && s[6] == 78 && s[7] == 40 && s[8] == 40;
    proof {
        if r {
            assert forall|j: int| 0 <= j < head_text().len() implies s@[0 + j] == head_text()[j] by {
                assert(head_text()[0] == 80);
                assert(head_text()[1] == 79);
                assert(head_text()[2] == 76);
                assert(head_text()[3] == 89);
                assert(head_text()[4] == 71);
                assert(head_text()[5] == 79);
                assert(head_text()[6] == 78);
                assert(head_text()[7] == 40);
                assert(head_text()[8] == 40);
            }
        } else {
            assert(!match_lit(s@, 0, head_text())) by {
                if match_lit(s@, 0, head_text()) {
                    assert(s@[0] == head_text()[0]);
                    assert(s@[1] == head_text()[1]);
                    assert(s@[2] == head_text()[2]);
                    assert(s@[3] == head_text()[3]);
                    assert(s@[4] == head_text()[4]);
                    assert(s@[5] == head_text()[5]);
                    assert(s@[6] == head_text()[6]);
                    assert(s@[7] == head_text()[7]);
                    assert(s@[8] == head_text()[8]);
                }
            }
        }
    }
    r
}

/// Checks for the separator `", "` at position `i`.
fn check_sep(s: &Vec<u8>, i: usize) -> (r: bool)
    requires
        i <= s@.len(),
    ensures
        r == match_lit(s@, i as int, sep_text()),
{
    if s.len() - i < 2 {
        return false;
    }
    let r = s[i] == 44 && s[i + 1] == 32;
    proof {
        assert(sep_text()[0] == 44);
        assert(sep_text()[1] == 32);
        if r {
            assert forall|j: int| 0 <= j < sep_text().len() implies s@[i + j] == sep_text()[j] by {
                assert(j == 0 || j == 1);
            }
        }
    }
    r
}

/// Checks that the tail `"))"` stands at `i` and ends the text.
fn check_tail_end(s: &Vec<u8>, i: usize) -> (r: bool)
    requires
        i <= s@.len(),
    ensures
        r == (match_lit(s@, i as int, tail_text()) && i + 2 == s@.len()),
{
    if s.len() - i != 2 {
        return false;
    }
    let r = s[i] == 41 && s[i + 1] == 41;
    proof {
        assert(tail_text()[0] == 41);
        assert(tail_text()[1] == 41);
        if r {
            assert forall|j: int| 0 <= j < tail_text().len() implies s@[i + j] == tail_text()[j] by {
                assert(j == 0 || j == 1);
            }
        }
    }
    r
}

/// Decodes a rectangle ring text back into origin and signed size, exactly
/// per [`dec_rect`]: the origin is the first vertex, width and height are
/// derived from the diagonally opposite third vertex. Every malformed or
/// unrepresentable text is refused with `InvalidGeometry`.
pub fn decode_rect(s: &Vec<u8>) -> (r: Result<(i64, i64, i64, i64), StoreError>)
    ensures
        match r {
            Ok((x, y, w, h)) => {
                &&& dec_rect(s@) == Some((x as int, y as int, w as int, h as int))
                &&& crate::geometry::rect_sums_fit(x as int, y as int, w as int, h as int)
            },
            Err(e) => e == StoreError::InvalidGeometry && dec_rect(s@) is None,
        },
{
    let total: usize = s.len();
    if !check_head(s) {
        return Err(StoreError::InvalidGeometry);
    }
    assert(s@.len() == total);
    let v0 = match scan_vertex_at(s, 9) {
        None => {
            return Err(StoreError::InvalidGeometry);
        },
        Some(v) => v,
    };
    if !check_sep(s, v0.2) {
        return Err(StoreError::InvalidGeometry);
    }
    let v1 = match scan_vertex_at(s, v0.2 + 2) {
        None => {
            return Err(StoreError::InvalidGeometry);
        },
        Some(v) => v,
    };
    if !check_sep(s, v1.2) {
        return Err(StoreError::InvalidGeometry);
    }
    let v2 = match scan_vertex_at(s, v1.2 + 2) {
        None => {
            return Err(StoreError::InvalidGeometry);
        },
        Some(v) => v,
    };
    if !check_sep(s, v2.2) {
        return Err(StoreError::InvalidGeometry);
    }
    let v3 = match scan_vertex_at(s, v2.2 + 2) {
        None => {
            return Err(StoreError::InvalidGeometry);
        },
        Some(v) => v,
    };
    if !check_sep(s, v3.2) {
        return Err(StoreError::InvalidGeometry);
    }
    let v4 = match scan_vertex_at(s, v3.2 + 2) {
        None => {
            return Err(StoreError::InvalidGeometry);
        },
        Some(v) => v,
    };
    if !check_tail_end(s, v4.2) {
        return Err(StoreError::InvalidGeometry);
    }
    let w128: i128 = v2.0 as i128 - v0.0 as i128;
    let h128: i128 = v2.1 as i128 - v0.1 as i128;
    let ring_ok = v1.0 == v2.0 && v1.1 == v0.1 && v3.0 == v0.0 && v3.1 == v2.1 && v4.0 == v0.0
        && v4.1 == v0.1;
    let w_ok = i64::MIN as i128 <= w128 && w128 <= i64::MAX as i128;
    let h_ok = i64::MIN as i128 <= h128 && h128 <= i64::MAX as i128;
    if ring_ok && w_ok && h_ok {
        Ok((v0.0, v0.1, w128 as i64, h128 as i64))
    } else {
        Err(StoreError::InvalidGeometry)
    }
}

} // verus!
