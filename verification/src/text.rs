//! Byte-level text primitives over UTF-8 buffers.
//!
//! Every position is a byte offset. Whitespace follows `char::is_whitespace`
//! (the Unicode `White_Space` property), recognised directly on the UTF-8
//! encoding so that scans stay on byte offsets.
use vstd::prelude::*;
use vstd::utf8::*;
use vstd::string::StringExecFns;

verus! {

/// ASCII whitespace bytes: `\t`, `\n`, vertical tab, form feed, `\r`, space.
pub open spec fn is_ascii_ws(c: u8) -> bool {
    c == 9u8 || c == 10u8 || c == 11u8 || c == 12u8 || c == 13u8 || c == 32u8
}

/// Three-byte encodings of whitespace: U+1680, U+2000..U+200A, U+2028,
/// U+2029, U+202F, U+205F and U+3000.
pub open spec fn is_ws3(c0: u8, c1: u8, c2: u8) -> bool {
    ||| (c0 == 0xE1u8 && c1 == 0x9Au8 && c2 == 0x80u8)
    ||| (c0 == 0xE2u8 && c1 == 0x80u8 && (0x80u8 <= c2 <= 0x8Au8 || c2 == 0xA8u8 || c2 == 0xA9u8
        || c2 == 0xAFu8))
    ||| (c0 == 0xE2u8 && c1 == 0x81u8 && c2 == 0x9Fu8)
    ||| (c0 == 0xE3u8 && c1 == 0x80u8 && c2 == 0x80u8)
}

/// Two-byte encodings of whitespace: U+0085 and U+00A0.
pub open spec fn is_ws2(c0: u8, c1: u8) -> bool {
    c0 == 0xC2u8 && (c1 == 0x85u8 || c1 == 0xA0u8)
}

/// Length of the whitespace character that starts at `i` inside the window
/// `[.., hi)`, or 0 when none starts there.
pub open spec fn ws_len(b: Seq<u8>, i: int, hi: int) -> int {
    if i < 0 || i >= hi || hi > b.len() {
        0
    } else if is_ascii_ws(b[i]) {
        1
    } else if i + 1 < hi && is_ws2(b[i], b[i + 1]) {
        2
    } else if i + 2 < hi && is_ws3(b[i], b[i + 1], b[i + 2]) {
        3
    } else {
        0
    }
}

/// Length of the whitespace character that ends at `j` inside the window
/// `[lo, ..)`, or 0 when none ends there.
pub open spec fn ws_len_back(b: Seq<u8>, lo: int, j: int) -> int {
    if j <= lo || lo < 0 || j > b.len() {
        0
    } else if is_ascii_ws(b[j - 1]) {
        1
    } else if j - 2 >= lo && is_ws2(b[j - 2], b[j - 1]) {
        2
    } else if j - 3 >= lo && is_ws3(b[j - 3], b[j - 2], b[j - 1]) {
        3
    } else {
        0
    }
}

/// First position at or after `i` that does not start whitespace (`trim_start`).
pub open spec fn skip_ws(b: Seq<u8>, i: int, hi: int) -> int
    decreases hi - i,
{
    if i < hi && ws_len(b, i, hi) > 0 {
        skip_ws(b, i + ws_len(b, i, hi), hi)
    } else {
        i
    }
}

/// Last position at or before `j` that does not end whitespace (`trim_end`).
pub open spec fn rskip_ws(b: Seq<u8>, lo: int, j: int) -> int
    decreases j - lo,
{
    if j > lo && ws_len_back(b, lo, j) > 0 {
        rskip_ws(b, lo, j - ws_len_back(b, lo, j))
    } else {
        j
    }
}

/// Maximal runs of non-whitespace in `[i, hi)` (`split_whitespace`), as byte
/// spans. `cur` holds the start of the run being read, if any.
pub open spec fn ws_tokens_from(b: Seq<u8>, i: int, hi: int, cur: Option<int>) -> Seq<(int, int)>
    decreases hi - i,
{
    if i >= hi {
        match cur {
            Some(s) => seq![(s, hi)],
            None => seq![],
        }
    } else if ws_len(b, i, hi) > 0 {
        let rest = ws_tokens_from(b, i + ws_len(b, i, hi), hi, None);
        match cur {
            Some(s) => seq![(s, i)] + rest,
            None => rest,
        }
    } else {
        ws_tokens_from(b, i + 1, hi, if cur is Some { cur } else { Some(i) })
    }
}

/// `split_whitespace` over the window `[lo, hi)`.
pub open spec fn ws_tokens(b: Seq<u8>, lo: int, hi: int) -> Seq<(int, int)> {
    ws_tokens_from(b, lo, hi, None)
}

/// The bytes of a window.
pub open spec fn window(b: Seq<u8>, span: (int, int)) -> Seq<u8> {
    b.subrange(span.0, span.1)
}

/// The UTF-8 bytes of a string value.
pub open spec fn sb(s: Seq<char>) -> Seq<u8> {
    encode_utf8(s)
}

pub open spec fn lower_byte(c: u8) -> u8 {
    if 65u8 <= c <= 90u8 {
        (c + 32) as u8
    } else {
        c
    }
}

pub open spec fn upper_byte(c: u8) -> u8 {
    if 97u8 <= c <= 122u8 {
        (c - 32) as u8
    } else {
        c
    }
}

/// ASCII lowercase of a byte string (`to_ascii_lowercase`).
pub open spec fn lower_seq(s: Seq<u8>) -> Seq<u8> {
    s.map_values(|c: u8| lower_byte(c))
}

/// ASCII uppercase of a byte string (`to_ascii_uppercase`).
pub open spec fn upper_seq(s: Seq<u8>) -> Seq<u8> {
    s.map_values(|c: u8| upper_byte(c))
}

pub open spec fn is_alpha(c: u8) -> bool {
    (65u8 <= c <= 90u8) || (97u8 <= c <= 122u8)
}

pub open spec fn is_digit(c: u8) -> bool {
    48u8 <= c <= 57u8
}

pub open spec fn is_alnum(c: u8) -> bool {
    is_alpha(c) || is_digit(c)
}

pub fn ws_len_at(b: &[u8], i: usize, hi: usize) -> (n: usize)
    requires
        i <= hi <= b@.len(),
    ensures
        n == ws_len(b@, i as int, hi as int),
        n <= 3,
        n > 0 ==> i + n <= hi,
{
    if i >= hi {
        return 0;
    }
    let c = b[i];
    if c == 9 || c == 10 || c == 11 || c == 12 || c == 13 || c == 32 {
        return 1;
    }
    if hi - i > 1 && c == 0xC2 && (b[i + 1] == 0x85 || b[i + 1] == 0xA0) {
        return 2;
    }
    if hi - i > 2 {
        let c1 = b[i + 1];
        let c2 = b[i + 2];
        if (c == 0xE1 && c1 == 0x9A && c2 == 0x80) || (c == 0xE2 && c1 == 0x80 && ((0x80 <= c2
            && c2 <= 0x8A) || c2 == 0xA8 || c2 == 0xA9 || c2 == 0xAF)) || (c == 0xE2 && c1 == 0x81
            && c2 == 0x9F) || (c == 0xE3 && c1 == 0x80 && c2 == 0x80) {
            return 3;
        }
    }
    0
}

pub fn ws_len_before(b: &[u8], lo: usize, j: usize) -> (n: usize)
    requires
        lo <= j <= b@.len(),
    ensures
        n == ws_len_back(b@, lo as int, j as int),
        n <= 3,
        n <= j - lo,
{
    if j <= lo {
        return 0;
    }
    let c = b[j - 1];
    if c == 9 || c == 10 || c == 11 || c == 12 || c == 13 || c == 32 {
        return 1;
    }
    if j - lo >= 2 && b[j - 2] == 0xC2 && (c == 0x85 || c == 0xA0) {
        return 2;
    }
    if j - lo >= 3 {
        let c0 = b[j - 3];
        let c1 = b[j - 2];
        let c2 = c;
        if (c0 == 0xE1 && c1 == 0x9A && c2 == 0x80) || (c0 == 0xE2 && c1 == 0x80 && ((0x80 <= c2
            && c2 <= 0x8A) || c2 == 0xA8 || c2 == 0xA9 || c2 == 0xAF)) || (c0 == 0xE2 && c1
            == 0x81 && c2 == 0x9F) || (c0 == 0xE3 && c1 == 0x80 && c2 == 0x80) {
            return 3;
        }
    }
    0
}

pub proof fn lemma_skip_ws(b: Seq<u8>, i: int, hi: int)
    requires
        0 <= i <= hi <= b.len(),
    ensures
        i <= skip_ws(b, i, hi) <= hi,
        skip_ws(b, i, hi) < hi ==> ws_len(b, skip_ws(b, i, hi), hi) == 0,
    decreases hi - i,
{
    if i < hi && ws_len(b, i, hi) > 0 {
        lemma_skip_ws(b, i + ws_len(b, i, hi), hi);
    }
}

pub proof fn lemma_rskip_ws(b: Seq<u8>, lo: int, j: int)
    requires
        0 <= lo <= j <= b.len(),
    ensures
        lo <= rskip_ws(b, lo, j) <= j,
        rskip_ws(b, lo, j) > lo ==> ws_len_back(b, lo, rskip_ws(b, lo, j)) == 0,
    decreases j - lo,
{
    if j > lo && ws_len_back(b, lo, j) > 0 {
        lemma_rskip_ws(b, lo, j - ws_len_back(b, lo, j));
    }
}

/// `trim_start` of the window `[i, hi)`: the first non-whitespace position.
pub fn skip_ws_exec(b: &[u8], i: usize, hi: usize) -> (r: usize)
    requires
        i <= hi <= b@.len(),
    ensures
        r == skip_ws(b@, i as int, hi as int),
        i <= r <= hi,
{
    let mut k = i;
    let mut go = true;
    while go
        invariant
            i <= k <= hi <= b@.len(),
            skip_ws(b@, k as int, hi as int) == skip_ws(b@, i as int, hi as int),
            !go ==> skip_ws(b@, k as int, hi as int) == k,
        decreases hi - k + (if go { 1int } else { 0int }),
    {
        let n = ws_len_at(b, k, hi);
        if n == 0 {
            go = false;
        } else {
            k = k + n;
        }
    }
    proof {
        lemma_skip_ws(b@, i as int, hi as int);
    }
    k
}

/// `trim_end` of the window `[lo, j)`: the end after dropping trailing whitespace.
pub fn rskip_ws_exec(b: &[u8], lo: usize, j: usize) -> (r: usize)
    requires
        lo <= j <= b@.len(),
    ensures
        r == rskip_ws(b@, lo as int, j as int),
        lo <= r <= j,
{
    let mut k = j;
    let mut go = true;
    while go
        invariant
            lo <= k <= j <= b@.len(),
            rskip_ws(b@, lo as int, k as int) == rskip_ws(b@, lo as int, j as int),
            !go ==> rskip_ws(b@, lo as int, k as int) == k,
        decreases k - lo + (if go { 1int } else { 0int }),
    {
        let n = ws_len_before(b, lo, k);
        if n == 0 {
            go = false;
        } else {
            k = k - n;
        }
    }
    proof {
        lemma_rskip_ws(b@, lo as int, j as int);
    }
    k
}

/// A non-empty span inside `[lo, hi]`.
pub open spec fn span_within(t: (int, int), lo: int, hi: int) -> bool {
    lo <= t.0 < t.1 <= hi
}

/// `split_whitespace` of the window `[lo, hi)`, as byte spans.
pub fn split_ws(b: &[u8], lo: usize, hi: usize) -> (r: Vec<(usize, usize)>)
    requires
        lo <= hi <= b@.len(),
    ensures
        r@.len() == ws_tokens(b@, lo as int, hi as int).len(),
        forall|k: int|
            0 <= k < r@.len() ==> (#[trigger] r@[k]).0 == ws_tokens(b@, lo as int, hi as int)[k].0
                && r@[k].1 == ws_tokens(b@, lo as int, hi as int)[k].1,
        forall|k: int| 0 <= k < r@.len() ==> lo <= (#[trigger] r@[k]).0 < r@[k].1 <= hi,
{
    let mut out: Vec<(usize, usize)> = Vec::new();
    let mut i = lo;
    let mut cur: Option<usize> = None;
    let ghost total = ws_tokens(b@, lo as int, hi as int);
    while i < hi
        invariant
            lo <= i <= hi <= b@.len(),
            cur matches Some(s) ==> lo <= s < i,
            ({
                let ov = out@.map_values(|t: (usize, usize)| (t.0 as int, t.1 as int));
                let gc = match cur {
                    Some(s) => Some(s as int),
                    None => None,
                };
                ov + ws_tokens_from(b@, i as int, hi as int, gc) == total
            }),
            forall|k: int| 0 <= k < out@.len() ==> lo <= (#[trigger] out@[k]).0 < out@[k].1 <= i,
        decreases hi - i,
    {
        let ghost ov = out@.map_values(|t: (usize, usize)| (t.0 as int, t.1 as int));
        let n = ws_len_at(b, i, hi);
        if n > 0 {
            if let Some(s) = cur {
                out.push((s, i));
                assert(out@.map_values(|t: (usize, usize)| (t.0 as int, t.1 as int)) =~= ov.push(
                    (s as int, i as int),
                ));
            }
            cur = None;
            i = i + n;
        } else {
            if cur.is_none() {
                cur = Some(i);
            }
            i = i + 1;
        }
    }
    let ghost ov = out@.map_values(|t: (usize, usize)| (t.0 as int, t.1 as int));
    if let Some(s) = cur {
        out.push((s, hi));
        assert(out@.map_values(|t: (usize, usize)| (t.0 as int, t.1 as int)) =~= ov.push(
            (s as int, hi as int),
        ));
    } else {
        assert(ov + seq![] =~= ov);
    }
    proof {
        let ov2 = out@.map_values(|t: (usize, usize)| (t.0 as int, t.1 as int));
        assert(ov2 =~= total);
        assert forall|k: int| 0 <= k < out@.len() implies (#[trigger] out@[k]).0 == total[k].0
            && out@[k].1 == total[k].1 by {
            assert(ov2[k] == total[k]);
        }
    }
    out
}


/// Concatenating two valid encodings puts a character boundary at the seam.
pub proof fn lemma_boundary_concat(p: Seq<u8>, q: Seq<u8>)
    requires
        valid_utf8(p),
        valid_utf8(q),
    ensures
        valid_utf8(p + q),
        is_char_boundary(p + q, p.len() as int),
    decreases p.len(),
{
    valid_utf8_concat(p, q);
    if p.len() > 0 {
        let pq = p + q;
        let k = length_of_first_scalar(p);
        assert(pq[0] == p[0]);
        assert(valid_first_scalar(p));
        assert(k <= p.len());
        assert forall|j: int| 0 <= j < k implies #[trigger] pq[j] == p[j] by {}
        assert(length_of_first_scalar(pq) == k);
        let rp = pop_first_scalar(p);
        assert(pop_first_scalar(pq) =~= rp + q);
        lemma_boundary_concat(rp, q);
    }
}

/// The encoding of the first scalar on its own is valid.
pub proof fn lemma_take_first_valid(s: Seq<u8>)
    requires
        valid_utf8(s),
        s.len() > 0,
    ensures
        valid_utf8(s.subrange(0, length_of_first_scalar(s))),
        0 < length_of_first_scalar(s) <= s.len(),
{
    let t = s.subrange(0, length_of_first_scalar(s));
    assert(valid_first_scalar(s));
    assert forall|j: int| 0 <= j < t.len() implies #[trigger] t[j] == s[j] by {}
    assert(valid_first_scalar(t));
    assert(length_of_first_scalar(t) == t.len());
    assert(pop_first_scalar(t).len() == 0);
    reveal_with_fuel(valid_utf8, 2);
}

/// Stepping over one character from a boundary lands on a boundary.
pub proof fn lemma_next_boundary(b: Seq<u8>, i: int)
    requires
        valid_utf8(b),
        is_char_boundary(b, i),
        0 <= i < b.len(),
    ensures
        ({
            let k = length_of_first_scalar(b.subrange(i, b.len() as int));
            &&& 0 < k && i + k <= b.len()
            &&& is_char_boundary(b, i + k)
            &&& (b[i] < 0x80u8 ==> k == 1)
            &&& (0xC0u8 <= b[i] <= 0xDFu8 ==> k == 2)
            &&& (0xE0u8 <= b[i] <= 0xEFu8 ==> k == 3)
        }),
{
    valid_utf8_split(b, i);
    let pre = b.subrange(0, i);
    let suf = b.subrange(i, b.len() as int);
    let k = length_of_first_scalar(suf);
    lemma_take_first_valid(suf);
    let t = suf.subrange(0, k);
    assert(valid_first_scalar(suf));
    assert(suf[0] == b[i]);
    let rest = pop_first_scalar(suf);
    assert(valid_utf8(rest));
    valid_utf8_concat(pre, t);
    assert(pre + t =~= b.subrange(0, i + k));
    assert(rest =~= b.subrange(i + k, b.len() as int));
    lemma_boundary_concat(b.subrange(0, i + k), b.subrange(i + k, b.len() as int));
    assert(b.subrange(0, i + k) + b.subrange(i + k, b.len() as int) =~= b);
}

/// An ASCII byte starts a character and is followed by a boundary.
pub proof fn lemma_ascii_boundary(b: Seq<u8>, i: int)
    requires
        valid_utf8(b),
        0 <= i < b.len(),
        b[i] < 0x80u8,
    ensures
        is_char_boundary(b, i),
        is_char_boundary(b, i + 1),
{
    is_char_boundary_iff_not_is_continuation_byte(b, i);
    lemma_next_boundary(b, i);
}

/// Whitespace characters start and end on boundaries.
pub proof fn lemma_ws_boundary(b: Seq<u8>, i: int, hi: int)
    requires
        valid_utf8(b),
        hi <= b.len(),
        ws_len(b, i, hi) > 0,
    ensures
        is_char_boundary(b, i),
        is_char_boundary(b, i + ws_len(b, i, hi)),
{
    is_char_boundary_iff_not_is_continuation_byte(b, i);
    lemma_next_boundary(b, i);
}

/// Whitespace ending at `j` starts on a boundary.
pub proof fn lemma_ws_back_boundary(b: Seq<u8>, lo: int, j: int)
    requires
        valid_utf8(b),
        0 <= lo,
        is_char_boundary(b, j),
        ws_len_back(b, lo, j) > 0,
    ensures
        is_char_boundary(b, j - ws_len_back(b, lo, j)),
{
    let k = ws_len_back(b, lo, j);
    is_char_boundary_iff_not_is_continuation_byte(b, j - k);
}

/// A window between two boundaries is itself valid UTF-8.
pub proof fn lemma_window_valid(b: Seq<u8>, lo: int, hi: int)
    requires
        valid_utf8(b),
        is_char_boundary(b, lo),
        is_char_boundary(b, hi),
        0 <= lo <= hi <= b.len(),
    ensures
        valid_utf8(b.subrange(lo, hi)),
{
    valid_utf8_split(b, hi);
    let pre = b.subrange(0, hi);
    is_char_boundary_start_end_of_seq(pre);
    if lo < hi {
        if lo > 0 {
            is_char_boundary_iff_not_is_continuation_byte(b, lo);
            assert(pre[lo] == b[lo]);
            is_char_boundary_iff_not_is_continuation_byte(pre, lo);
        }
    }
    valid_utf8_split(pre, lo);
    assert(pre.subrange(lo, pre.len() as int) =~= b.subrange(lo, hi));
}

/// The bytes of a string slice form valid UTF-8.
pub proof fn lemma_str_valid(s: &str)
    ensures
        valid_utf8(sb(s@)),
        is_char_boundary(sb(s@), 0),
        is_char_boundary(sb(s@), sb(s@).len() as int),
{
    encode_utf8_valid_utf8(s@);
    is_char_boundary_start_end_of_seq(sb(s@));
}

/// `String::from_utf8` on bytes that are valid UTF-8: trusted to return the
/// string whose UTF-8 encoding is exactly `v` (the error case cannot occur
/// under the `requires`).
#[verifier::external_body]
pub(crate) fn string_from_utf8(v: Vec<u8>) -> (s: String)
    requires
        valid_utf8(v@),
    ensures
        sb(s@) == v@,
{
    String::from_utf8(v).unwrap_or_default()
}

/// Copies a byte window into a fresh vector.
pub fn copy_window(b: &[u8], lo: usize, hi: usize) -> (v: Vec<u8>)
    requires
        lo <= hi <= b@.len(),
    ensures
        v@ == b@.subrange(lo as int, hi as int),
{
    let mut v: Vec<u8> = Vec::new();
    let mut i = lo;
    while i < hi
        invariant
            lo <= i <= hi <= b@.len(),
            v@ == b@.subrange(lo as int, i as int),
        decreases hi - i,
    {
        v.push(b[i]);
        i = i + 1;
        assert(v@ =~= b@.subrange(lo as int, i as int));
    }
    v
}

/// The text of a window between two character boundaries.
pub fn string_of(b: &[u8], lo: usize, hi: usize) -> (s: String)
    requires
        lo <= hi <= b@.len(),
        valid_utf8(b@),
        is_char_boundary(b@, lo as int),
        is_char_boundary(b@, hi as int),
    ensures
        sb(s@) == b@.subrange(lo as int, hi as int),
{
    let v = copy_window(b, lo, hi);
    proof {
        lemma_window_valid(b@, lo as int, hi as int);
    }
    string_from_utf8(v)
}


/// Whether byte `c` occurs in `[lo, hi)`.
pub open spec fn has_byte(b: Seq<u8>, lo: int, hi: int, c: u8) -> bool {
    exists|i: int| lo <= i < hi && b[i] == c
}

/// First position of byte `c` in `[lo, hi)`, or `hi`.
pub open spec fn first_byte(b: Seq<u8>, lo: int, hi: int, c: u8) -> int
    decreases hi - lo,
{
    if lo >= hi {
        hi
    } else if b[lo] == c {
        lo
    } else {
        first_byte(b, lo + 1, hi, c)
    }
}

pub proof fn lemma_first_byte(b: Seq<u8>, lo: int, hi: int, c: u8)
    requires
        0 <= lo <= hi <= b.len(),
    ensures
        lo <= first_byte(b, lo, hi, c) <= hi,
        first_byte(b, lo, hi, c) < hi ==> b[first_byte(b, lo, hi, c)] == c,
        forall|i: int| lo <= i < first_byte(b, lo, hi, c) ==> b[i] != c,
        has_byte(b, lo, hi, c) <==> first_byte(b, lo, hi, c) < hi,
    decreases hi - lo,
{
    if lo < hi && b[lo] != c {
        lemma_first_byte(b, lo + 1, hi, c);
        if has_byte(b, lo, hi, c) {
            let i = choose|i: int| lo <= i < hi && b[i] == c;
            assert(lo + 1 <= i);
        }
    }
}

pub fn first_byte_exec(b: &[u8], lo: usize, hi: usize, c: u8) -> (r: usize)
    requires
        lo <= hi <= b@.len(),
    ensures
        r == first_byte(b@, lo as int, hi as int, c),
        lo <= r <= hi,
        r < hi ==> b@[r as int] == c,
        forall|i: int| lo <= i < r ==> b@[i] != c,
        has_byte(b@, lo as int, hi as int, c) <==> r < hi,
{
    proof {
        lemma_first_byte(b@, lo as int, hi as int, c);
    }
    let mut k = lo;
    while k < hi
        invariant
            lo <= k <= hi <= b@.len(),
            first_byte(b@, k as int, hi as int, c) == first_byte(b@, lo as int, hi as int, c),
        decreases hi - k,
    {
        if b[k] == c {
            assert(first_byte(b@, k as int, hi as int, c) == k);
            proof {
                lemma_first_byte(b@, lo as int, hi as int, c);
            }
            return k;
        }
        k = k + 1;
    }
    k
}

/// `trim_start` preserves character boundaries.
pub proof fn lemma_skip_ws_boundary(b: Seq<u8>, i: int, hi: int)
    requires
        valid_utf8(b),
        0 <= i <= hi <= b.len(),
        is_char_boundary(b, i),
    ensures
        is_char_boundary(b, skip_ws(b, i, hi)),
    decreases hi - i,
{
    if i < hi && ws_len(b, i, hi) > 0 {
        lemma_ws_boundary(b, i, hi);
        lemma_skip_ws_boundary(b, i + ws_len(b, i, hi), hi);
    }
}

/// `trim_end` preserves character boundaries.
pub proof fn lemma_rskip_ws_boundary(b: Seq<u8>, lo: int, j: int)
    requires
        valid_utf8(b),
        0 <= lo <= j <= b.len(),
        is_char_boundary(b, j),
    ensures
        is_char_boundary(b, rskip_ws(b, lo, j)),
    decreases j - lo,
{
    if j > lo && ws_len_back(b, lo, j) > 0 {
        lemma_ws_back_boundary(b, lo, j);
        lemma_rskip_ws_boundary(b, lo, j - ws_len_back(b, lo, j));
    }
}

/// Every whitespace-separated token starts and ends on boundaries.
pub proof fn lemma_ws_tokens_boundary(b: Seq<u8>, i: int, hi: int, cur: Option<int>)
    requires
        valid_utf8(b),
        0 <= i <= hi <= b.len(),
        is_char_boundary(b, hi),
        cur is None ==> is_char_boundary(b, i),
        cur matches Some(s) ==> 0 <= s < i && is_char_boundary(b, s),
    ensures
        forall|k: int|
            0 <= k < ws_tokens_from(b, i, hi, cur).len() ==> is_char_boundary(
                b,
                (#[trigger] ws_tokens_from(b, i, hi, cur)[k]).0,
            ) && is_char_boundary(b, ws_tokens_from(b, i, hi, cur)[k].1),
    decreases hi - i,
{
    let all = ws_tokens_from(b, i, hi, cur);
    if i >= hi {
    } else if ws_len(b, i, hi) > 0 {
        lemma_ws_boundary(b, i, hi);
        let rest = ws_tokens_from(b, i + ws_len(b, i, hi), hi, None);
        lemma_ws_tokens_boundary(b, i + ws_len(b, i, hi), hi, None);
        if let Some(s) = cur {
            assert(all == seq![(s, i)] + rest);
            assert forall|k: int| 0 <= k < all.len() implies is_char_boundary(
                b,
                (#[trigger] all[k]).0,
            ) && is_char_boundary(b, all[k].1) by {
                if k > 0 {
                    assert(all[k] == rest[k - 1]);
                }
            }
        } else {
            assert(all == rest);
            assert forall|k: int| 0 <= k < all.len() implies is_char_boundary(
                b,
                (#[trigger] all[k]).0,
            ) && is_char_boundary(b, all[k].1) by {
                assert(all[k] == rest[k]);
            }
        }
    } else {
        match cur {
            Some(s) => {
                assert(all == ws_tokens_from(b, i + 1, hi, Some(s)));
                lemma_ws_tokens_boundary(b, i + 1, hi, Some(s));
            },
            None => {
                assert(all == ws_tokens_from(b, i + 1, hi, Some(i)));
                lemma_ws_tokens_boundary(b, i + 1, hi, Some(i));
            },
        }
    }
}

/// A byte map that sends ASCII bytes to ASCII bytes and keeps every other
/// byte keeps UTF-8 text valid: every byte of a multi-byte character is
/// 0x80 or above.
pub proof fn lemma_ascii_map_valid(s: Seq<u8>, t: Seq<u8>)
    requires
        valid_utf8(s),
        t.len() == s.len(),
        forall|i: int| 0 <= i < s.len() ==> (s[i] < 0x80u8 ==> #[trigger] t[i] < 0x80u8) && (s[i] >= 0x80u8 ==> t[i] == s[i]),
    ensures
        valid_utf8(t),
    decreases s.len(),
{
    if s.len() > 0 {
        let l = length_of_first_scalar(s);
        assert(valid_first_scalar(s));
        if s[0] < 0x80u8 {
            assert(l == 1);
            assert(t[0] < 0x80u8);
            assert(valid_first_scalar(t));
            assert(length_of_first_scalar(t) == 1);
        } else {
            assert(1 <= l <= 4);
            assert(forall|k: int| 0 <= k < l ==> s[k] >= 0x80u8);
            assert(t[0] == s[0]);
            assert(l >= 2 ==> t[1] == s[1]);
            assert(l >= 3 ==> t[2] == s[2]);
            assert(l >= 4 ==> t[3] == s[3]);
            assert(valid_first_scalar(t));
            assert(length_of_first_scalar(t) == l);
        }
        let ps = pop_first_scalar(s);
        let pt = pop_first_scalar(t);
        assert(pt.len() == ps.len());
        assert forall|i: int| 0 <= i < ps.len() implies (ps[i] < 0x80u8 ==> #[trigger] pt[i] < 0x80u8) && (ps[i]
            >= 0x80u8 ==> pt[i] == ps[i]) by {
            assert(ps[i] == s[i + l]);
            assert(pt[i] == t[i + l]);
        }
        lemma_ascii_map_valid(ps, pt);
    }
}

/// The ASCII lowercase of valid UTF-8 is valid UTF-8.
pub proof fn lemma_lower_valid(s: Seq<u8>)
    requires
        valid_utf8(s),
    ensures
        valid_utf8(lower_seq(s)),
{
    lemma_ascii_map_valid(s, lower_seq(s));
}

/// The ASCII uppercase of valid UTF-8 is valid UTF-8.
pub proof fn lemma_upper_valid(s: Seq<u8>)
    requires
        valid_utf8(s),
    ensures
        valid_utf8(upper_seq(s)),
{
    lemma_ascii_map_valid(s, upper_seq(s));
}

/// `str::to_ascii_lowercase`: each ASCII letter `A`..`Z` mapped to `a`..`z`,
/// every other byte unchanged.
pub(crate) fn to_lower(s: &str) -> (r: String)
    ensures
        sb(r@) == lower_seq(sb(s@)),
{
    let b = s.as_bytes();
    proof {
        lemma_str_valid(s);
    }
    let mut v: Vec<u8> = Vec::new();
    let mut i: usize = 0;
    while i < b.len()
        invariant
            i <= b@.len(),
            b@ == sb(s@),
            v@ == lower_seq(b@.take(i as int)),
        decreases b@.len() - i,
    {
        let c = b[i];
        v.push(if 65 <= c && c <= 90 { c + 32 } else { c });
        proof {
            assert(lower_seq(b@.take(i + 1)) =~= lower_seq(b@.take(i as int)).push(lower_byte(c)));
        }
        i = i + 1;
    }
    proof {
        assert(b@.take(i as int) =~= b@);
        lemma_lower_valid(b@);
    }
    string_from_utf8(v)
}

/// `str::to_ascii_uppercase`: each ASCII letter `a`..`z` mapped to `A`..`Z`,
/// every other byte unchanged.
pub(crate) fn to_upper(s: &str) -> (r: String)
    ensures
        sb(r@) == upper_seq(sb(s@)),
{
    let b = s.as_bytes();
    proof {
        lemma_str_valid(s);
    }
    let mut v: Vec<u8> = Vec::new();
    let mut i: usize = 0;
    while i < b.len()
        invariant
            i <= b@.len(),
            b@ == sb(s@),
            v@ == upper_seq(b@.take(i as int)),
        decreases b@.len() - i,
    {
        let c = b[i];
        v.push(if 97 <= c && c <= 122 { c - 32 } else { c });
        proof {
            assert(upper_seq(b@.take(i + 1)) =~= upper_seq(b@.take(i as int)).push(upper_byte(c)));
        }
        i = i + 1;
    }
    proof {
        assert(b@.take(i as int) =~= b@);
        lemma_upper_valid(b@);
    }
    string_from_utf8(v)
}

/// Whether the lowercased window equals `word`.
pub fn eq_lower(b: &[u8], lo: usize, hi: usize, word: &[u8]) -> (r: bool)
    requires
        lo <= hi <= b@.len(),
    ensures
        r == (lower_seq(b@.subrange(lo as int, hi as int)) == word@),
{
    if hi - lo != word.len() {
        proof {
            assert(lower_seq(b@.subrange(lo as int, hi as int)).len() != word@.len());
        }
        return false;
    }
    let mut k: usize = 0;
    while k < word.len()
        invariant
            k <= word@.len() == hi - lo,
            lo <= hi <= b@.len(),
            forall|j: int| 0 <= j < k ==> lower_byte(b@[lo + j]) == word@[j],
        decreases word@.len() - k,
    {
        let c = b[lo + k];
        let l = if 65 <= c && c <= 90 {
            c + 32
        } else {
            c
        };
        if l != word[k] {
            proof {
                assert(lower_seq(b@.subrange(lo as int, hi as int))[k as int] != word@[k as int]);
            }
            return false;
        }
        k = k + 1;
    }
    proof {
        assert(lower_seq(b@.subrange(lo as int, hi as int)) =~= word@);
    }
    true
}


/// An owned copy of a string slice.
pub fn owned(s: &str) -> (r: String)
    ensures
        r@ == s@,
{
    s.to_owned()
}

/// Concatenation of three string slices.
pub fn join3(a: &str, b: &str, c: &str) -> (r: String)
    ensures
        r@ == a@ + b@ + c@,
{
    let mut r = a.to_owned();
    r.append(b);
    r.append(c);
    r
}

/// The window `[lo, hi)` trimmed on both sides (`str::trim`).
pub open spec fn trim_win(b: Seq<u8>, lo: int, hi: int) -> (int, int) {
    let s = skip_ws(b, lo, hi);
    (s, rskip_ws(b, s, hi))
}

pub fn trim_exec(b: &[u8], lo: usize, hi: usize) -> (r: (usize, usize))
    requires
        lo <= hi <= b@.len(),
    ensures
        r.0 as int == trim_win(b@, lo as int, hi as int).0,
        r.1 as int == trim_win(b@, lo as int, hi as int).1,
        lo <= r.0 <= r.1 <= hi,
{
    let s = skip_ws_exec(b, lo, hi);
    let e = rskip_ws_exec(b, s, hi);
    (s, e)
}


/// A word of lowercase ASCII letters.
pub open spec fn lower_word(w: Seq<u8>) -> bool {
    w.len() > 0 && forall|i: int| 0 <= i < w.len() ==> 97u8 <= #[trigger] w[i] <= 122u8
}

/// A lowercase word is unchanged by trimming and by lowercasing.
pub proof fn lemma_lower_word(w: Seq<u8>)
    requires
        lower_word(w),
    ensures
        trim_win(w, 0, w.len() as int) == (0int, w.len() as int),
        lower_seq(w) == w,
{
    assert(ws_len(w, 0, w.len() as int) == 0);
    assert(skip_ws(w, 0, w.len() as int) == 0);
    assert(ws_len_back(w, 0, w.len() as int) == 0);
    assert(rskip_ws(w, 0, w.len() as int) == w.len());
    assert(lower_seq(w) =~= w);
}


/// The UTF-8 bytes of ASCII text are its character codes.
pub proof fn lemma_ascii_sb(s: Seq<char>)
    requires
        is_ascii_chars(s),
    ensures
        sb(s) =~= s.map_values(|c: char| c as u8),
{
    is_ascii_chars_encode_utf8(s);
}


/// Last position of byte `c` in `[lo, hi)`, or `-1`.
pub open spec fn last_byte(b: Seq<u8>, lo: int, hi: int, c: u8) -> int
    decreases hi - lo,
{
    if hi <= lo {
        -1
    } else if b[hi - 1] == c {
        hi - 1
    } else {
        last_byte(b, lo, hi - 1, c)
    }
}

pub proof fn lemma_last_byte(b: Seq<u8>, lo: int, hi: int, c: u8)
    requires
        0 <= lo <= hi <= b.len(),
    ensures
        last_byte(b, lo, hi, c) == -1 || (lo <= last_byte(b, lo, hi, c) < hi && b[last_byte(
            b,
            lo,
            hi,
            c,
        )] == c),
        forall|i: int| last_byte(b, lo, hi, c) < i < hi && lo <= i ==> b[i] != c,
    decreases hi - lo,
{
    if hi > lo && b[hi - 1] != c {
        lemma_last_byte(b, lo, hi - 1, c);
    }
}

/// `rfind` of a byte in `[lo, hi)`.
pub fn last_byte_exec(b: &[u8], lo: usize, hi: usize, c: u8) -> (r: Option<usize>)
    requires
        lo <= hi <= b@.len(),
    ensures
        match r {
            Some(p) => p as int == last_byte(b@, lo as int, hi as int, c) && lo <= p < hi && b@[p as int]
                == c,
            None => last_byte(b@, lo as int, hi as int, c) == -1,
        },
{
    proof {
        lemma_last_byte(b@, lo as int, hi as int, c);
    }
    let mut k = hi;
    while k > lo
        invariant
            lo <= k <= hi <= b@.len(),
            last_byte(b@, lo as int, k as int, c) == last_byte(b@, lo as int, hi as int, c),
        decreases k - lo,
    {
        if b[k - 1] == c {
            return Some(k - 1);
        }
        k = k - 1;
    }
    None
}

/// Byte-for-byte equality of two byte strings.
pub fn bytes_eq(a: &[u8], w: &[u8]) -> (r: bool)
    ensures
        r == (a@ == w@),
{
    if a.len() != w.len() {
        return false;
    }
    let mut k: usize = 0;
    while k < w.len()
        invariant
            k <= w@.len() == a@.len(),
            forall|j: int| 0 <= j < k ==> a@[j] == w@[j],
        decreases w@.len() - k,
    {
        if a[k] != w[k] {
            return false;
        }
        k = k + 1;
    }
    assert(a@ =~= w@);
    true
}

/// Bytes below 0x80 form valid UTF-8.
pub proof fn lemma_ascii_valid(s: Seq<u8>)
    requires
        forall|i: int| 0 <= i < s.len() ==> s[i] < 0x80u8,
    ensures
        valid_utf8(s),
    decreases s.len(),
{
    if s.len() > 0 {
        let c = s[0];
        assert(c & 0x7fu8 <= 0x7fu8) by (bit_vector);
        assert(pop_first_scalar(s) =~= s.subrange(1, s.len() as int));
        lemma_ascii_valid(s.subrange(1, s.len() as int));
    }
}

/// The prefix of a valid encoding up to its trailing whitespace is valid.
pub proof fn lemma_trim_end_valid(s: Seq<u8>)
    requires
        valid_utf8(s),
    ensures
        valid_utf8(s.subrange(0, rskip_ws(s, 0, s.len() as int))),
        0 <= rskip_ws(s, 0, s.len() as int) <= s.len(),
{
    is_char_boundary_start_end_of_seq(s);
    lemma_rskip_ws(s, 0, s.len() as int);
    lemma_rskip_ws_boundary(s, 0, s.len() as int);
    lemma_window_valid(s, 0, rskip_ws(s, 0, s.len() as int));
}

/// `str::eq_ignore_ascii_case`: equal after ASCII lowercasing.
pub open spec fn eq_ic(a: Seq<char>, b: Seq<char>) -> bool {
    lower_seq(sb(a)) == lower_seq(sb(b))
}

/// `str::eq_ignore_ascii_case`.
pub fn eq_ignore_ascii_case(a: &str, b: &str) -> (r: bool)
    ensures
        r == eq_ic(a@, b@),
{
    let x = a.as_bytes();
    let y = b.as_bytes();
    if x.len() != y.len() {
        proof {
            assert(lower_seq(x@).len() != lower_seq(y@).len());
        }
        return false;
    }
    let mut k: usize = 0;
    while k < x.len()
        invariant
            k <= x@.len() == y@.len(),
            x@ == sb(a@),
            y@ == sb(b@),
            forall|j: int| 0 <= j < k ==> lower_byte(x@[j]) == lower_byte(y@[j]),
        decreases x@.len() - k,
    {
        let c = x[k];
        let d = y[k];
        let lc = if 65 <= c && c <= 90 {
            c + 32
        } else {
            c
        };
        let ld = if 65 <= d && d <= 90 {
            d + 32
        } else {
            d
        };
        if lc != ld {
            proof {
                assert(lower_seq(x@)[k as int] != lower_seq(y@)[k as int]);
            }
            return false;
        }
        k = k + 1;
    }
    proof {
        assert(lower_seq(x@) =~= lower_seq(y@));
    }
    true
}

/// The decimal digit `d` as a character.
pub open spec fn digit_char(d: int) -> char {
    (48 + d) as char
}

/// Decimal notation of `n`.
pub open spec fn decimal(n: nat) -> Seq<char>
    decreases n,
{
    if n < 10 {
        seq![digit_char(n as int)]
    } else {
        decimal(n / 10) + seq![digit_char((n % 10) as int)]
    }
}

proof fn lemma_decimal_ascii(n: nat)
    ensures
        is_ascii_chars(decimal(n)),
    decreases n,
{
    if n >= 10 {
        lemma_decimal_ascii(n / 10);
        assert forall|i: int| 0 <= i < decimal(n).len() implies '\0' <= #[trigger] decimal(n)[i] <= '\u{7f}' by {
            if i < decimal(n / 10).len() {
                assert(decimal(n)[i] == decimal(n / 10)[i]);
            }
        }
    }
}

fn push_decimal(n: usize, out: &mut Vec<u8>)
    ensures
        final(out)@ == old(out)@ + decimal(n as nat).map_values(|c: char| c as u8),
    decreases n,
{
    if n < 10 {
        out.push(48 + n as u8);
        proof {
            assert(decimal(n as nat).map_values(|c: char| c as u8) =~= seq![(48 + n) as u8]);
        }
    } else {
        let ghost start = out@;
        push_decimal(n / 10, out);
        out.push(48 + (n % 10) as u8);
        proof {
            assert(decimal(n as nat).map_values(|c: char| c as u8) =~= decimal((n / 10) as nat).map_values(
                |c: char| c as u8,
            ).push((48 + n % 10) as u8));
        }
    }
}

/// Decimal notation of `n` as a string.
pub fn decimal_string(n: usize) -> (r: String)
    ensures
        r@ == decimal(n as nat),
{
    let mut v: Vec<u8> = Vec::new();
    push_decimal(n, &mut v);
    proof {
        lemma_decimal_ascii(n as nat);
        lemma_ascii_sb(decimal(n as nat));
        assert(v@ =~= decimal(n as nat).map_values(|c: char| c as u8));
        encode_utf8_valid_utf8(decimal(n as nat));
    }
    let r = string_from_utf8(v);
    proof {
        encode_utf8_decode_utf8(r@);
        encode_utf8_decode_utf8(decimal(n as nat));
    }
    r
}

/// The encoding of a concatenation is the concatenation of the encodings.
pub proof fn lemma_encode_concat(a: Seq<char>, b: Seq<char>)
    ensures
        sb(a + b) == sb(a) + sb(b),
    decreases a.len(),
{
    if a.len() == 0 {
        assert(a + b =~= b);
        assert(sb(a) =~= Seq::<u8>::empty());
        assert(sb(a) + sb(b) =~= sb(b));
    } else {
        lemma_encode_concat(a.drop_first(), b);
        assert((a + b).drop_first() =~= a.drop_first() + b);
        assert((a + b)[0] == a[0]);
        assert(sb(a + b) =~= sb(a) + sb(b));
    }
}

/// Append `t` to `s`, tracking the bytes.
pub fn append_str(s: &mut String, t: &str)
    ensures
        final(s)@ == old(s)@ + t@,
        sb(final(s)@) == sb(old(s)@) + sb(t@),
{
    proof {
        lemma_encode_concat(s@, t@);
    }
    s.append(t);
}

/// Trimming a window between boundaries gives a window between boundaries.
pub proof fn lemma_trim_boundaries(b: Seq<u8>, lo: int, hi: int)
    requires
        valid_utf8(b),
        0 <= lo <= hi <= b.len(),
        is_char_boundary(b, lo),
        is_char_boundary(b, hi),
    ensures
        lo <= trim_win(b, lo, hi).0 <= trim_win(b, lo, hi).1 <= hi,
        is_char_boundary(b, trim_win(b, lo, hi).0),
        is_char_boundary(b, trim_win(b, lo, hi).1),
{
    lemma_skip_ws(b, lo, hi);
    lemma_skip_ws_boundary(b, lo, hi);
    let s = skip_ws(b, lo, hi);
    lemma_rskip_ws(b, s, hi);
    lemma_rskip_ws_boundary(b, s, hi);
}

} // verus!
