//! Editor positions (line and UTF-16 column) over UTF-8 buffers, and edits
//! of an open document.
use vstd::prelude::*;
use vstd::utf8::*;

use crate::diagnostic::Span;
use crate::text::{
    append_str, first_byte, last_byte, last_byte_exec, lemma_ascii_boundary, lemma_last_byte,
    lemma_str_valid, sb, string_of,
};

verus! {

/// A position in a document: zero-based line and UTF-16 column.
#[derive(Debug, Clone, Copy, PartialEq, Eq, Structural)]
pub struct Position {
    pub line: u32,
    pub character: u32,
}

/// A range between two positions.
#[derive(Debug, Clone, Copy, PartialEq, Eq, Structural)]
pub struct Range {
    pub start: Position,
    pub end: Position,
}

/// UTF-16 code units of the character that starts with byte `c`: two for a
/// four-byte encoding, else one.
pub open spec fn units_of(c: u8) -> int {
    if c >= 0xF0u8 {
        2
    } else {
        1
    }
}

/// UTF-16 length of UTF-8 text.
pub open spec fn utf16_units(b: Seq<u8>) -> int
    decreases b.len(),
{
    if b.len() == 0 {
        0
    } else {
        utf16_units(b.drop_last()) + if is_continuation_byte(b.last()) {
            0
        } else {
            units_of(b.last())
        }
    }
}

/// Number of `\n` bytes in `b[0..n)`.
pub open spec fn newlines(b: Seq<u8>, n: int) -> int
    decreases n,
{
    if n <= 0 {
        0
    } else {
        newlines(b, n - 1) + if b[n - 1] == 10u8 {
            1int
        } else {
            0int
        }
    }
}

pub open spec fn clamp(offset: int, len: int) -> int {
    if offset < len {
        offset
    } else {
        len
    }
}

/// The position of a byte offset (clamped to the buffer): the number of
/// newlines before it, and the UTF-16 length of the text between the line
/// start and it (each truncated to 32 bits, as the protocol's integers are).
pub open spec fn position_of(b: Seq<u8>, offset: int) -> Position {
    let off = clamp(offset, b.len() as int);
    let line_start = last_byte(b, 0, off, 10u8) + 1;
    Position {
        line: newlines(b, off) as u32,
        character: utf16_units(b.subrange(line_start, off)) as u32,
    }
}

fn utf16_len(b: &[u8], lo: usize, hi: usize) -> (n: u128)
    requires
        lo <= hi <= b@.len(),
    ensures
        n == utf16_units(b@.subrange(lo as int, hi as int)),
{
    let mut n: u128 = 0;
    let mut i = lo;
    while i < hi
        invariant
            lo <= i <= hi <= b@.len(),
            n <= 2 * (i - lo),
            n == utf16_units(b@.subrange(lo as int, i as int)),
        decreases hi - i,
    {
        proof {
            assert(b@.subrange(lo as int, i + 1).drop_last() =~= b@.subrange(lo as int, i as int));
        }
        let c = b[i];
        if !(0x80 <= c && c <= 0xbf) {
            if c >= 0xF0 {
                n = n + 2;
            } else {
                n = n + 1;
            }
        }
        i = i + 1;
    }
    n
}

fn count_newlines(b: &[u8], n: usize) -> (r: usize)
    requires
        n <= b@.len(),
    ensures
        r == newlines(b@, n as int),
        r <= n,
{
    let mut r: usize = 0;
    let mut i: usize = 0;
    while i < n
        invariant
            i <= n <= b@.len(),
            r <= i,
            r == newlines(b@, i as int),
        decreases n - i,
    {
        if b[i] == 10 {
            r = r + 1;
        }
        i = i + 1;
    }
    r
}

/// Map a byte offset (clamped to the buffer) to a position.
pub fn byte_offset_to_position(source: &str, offset: usize) -> (p: Position)
    requires
        is_char_boundary(sb(source@), clamp(offset as int, sb(source@).len() as int)),
    ensures
        p == position_of(sb(source@), offset as int),
{
    let b = source.as_bytes();
    let off = if offset < b.len() {
        offset
    } else {
        b.len()
    };
    let line = count_newlines(b, off);
    let line_start = match last_byte_exec(b, 0, off, 10) {
        Some(i) => i + 1,
        None => 0,
    };
    let units = utf16_len(b, line_start, off);
    Position { line: line as u32, character: units as u32 }
}

/// Map a byte span to a range.
pub fn span_to_range(source: &str, span: Span) -> (r: Range)
    requires
        is_char_boundary(sb(source@), clamp(span.start as int, sb(source@).len() as int)),
        is_char_boundary(sb(source@), clamp(span.end as int, sb(source@).len() as int)),
    ensures
        r.start == position_of(sb(source@), span.start as int),
        r.end == position_of(sb(source@), span.end as int),
{
    let start = byte_offset_to_position(source, span.start);
    let end = byte_offset_to_position(source, span.end);
    Range { start, end }
}

/// Start of the line reached after passing `k` more newlines from `i`.
pub open spec fn line_start_from(b: Seq<u8>, i: int, k: int) -> Option<int>
    decreases b.len() - i,
{
    if k <= 0 {
        Some(i)
    } else if i < 0 || i >= b.len() {
        None
    } else if b[i] == 10u8 {
        line_start_from(b, i + 1, k - 1)
    } else {
        line_start_from(b, i + 1, k)
    }
}

/// Walking a line from `p` with `col` UTF-16 units passed: stop at the end of
/// the line or of the buffer, or at the character where `col` reaches `target`.
pub open spec fn column_end(b: Seq<u8>, p: int, col: int, target: int) -> int
    decreases b.len() - p,
{
    if p < 0 || p >= b.len() {
        b.len() as int
    } else if is_continuation_byte(b[p]) {
        column_end(b, p + 1, col, target)
    } else if b[p] == 10u8 || col == target {
        p
    } else {
        column_end(b, p + 1, col + units_of(b[p]), target)
    }
}

/// The byte offset of a position: the end of the buffer when the line does
/// not exist; else on that line, the character where the UTF-16 column is
/// reached, or the line's end.
pub open spec fn offset_of(b: Seq<u8>, pos: Position) -> int {
    match line_start_from(b, 0, pos.line as int) {
        None => b.len() as int,
        Some(s) => column_end(b, s, 0, pos.character as int),
    }
}

proof fn lemma_column_end(b: Seq<u8>, p: int, col: int, target: int)
    requires
        0 <= p <= b.len(),
    ensures
        p <= column_end(b, p, col, target) <= b.len(),
        column_end(b, p, col, target) < b.len() ==> !is_continuation_byte(
            b[column_end(b, p, col, target)],
        ),
    decreases b.len() - p,
{
    if p < b.len() {
        if is_continuation_byte(b[p]) {
            lemma_column_end(b, p + 1, col, target);
        } else if !(b[p] == 10u8 || col == target) {
            lemma_column_end(b, p + 1, col + units_of(b[p]), target);
        }
    }
}

proof fn lemma_line_start(b: Seq<u8>, i: int, k: int)
    requires
        0 <= i <= b.len(),
    ensures
        line_start_from(b, i, k) matches Some(s) ==> i <= s <= b.len() && (k > 0 ==> (s > 0 && b[s
            - 1] == 10u8)) && (k <= 0 ==> s == i),
    decreases b.len() - i,
{
    if k > 0 && i < b.len() {
        if b[i] == 10u8 {
            lemma_line_start(b, i + 1, k - 1);
        } else {
            lemma_line_start(b, i + 1, k);
        }
    }
}

/// Map a position to a byte offset (a character boundary).
pub fn position_to_byte_offset(source: &str, position: Position) -> (r: usize)
    ensures
        r == offset_of(sb(source@), position),
        r <= sb(source@).len(),
        is_char_boundary(sb(source@), r as int),
{
    let b = source.as_bytes();
    proof {
        lemma_str_valid(source);
    }
    let target = position.line as usize;
    let mut line: usize = 0;
    let mut i: usize = 0;
    while i < b.len() && line < target
        invariant
            i <= b@.len(),
            line <= target,
            target == position.line,
            line_start_from(b@, i as int, target - line) == line_start_from(b@, 0, target as int),
        decreases b@.len() - i,
    {
        if b[i] == 10 {
            line = line + 1;
        }
        i = i + 1;
    }
    if line < target {
        proof {
            is_char_boundary_start_end_of_seq(b@);
        }
        return b.len();
    }
    let ghost s = i as int;
    proof {
        lemma_line_start(b@, 0, target as int);
        if s > 0 && s < b@.len() && b@[s - 1] == 10u8 {
            lemma_ascii_boundary(b@, s - 1);
        }
        is_char_boundary_start_end_of_seq(b@);
        lemma_column_end(b@, s, 0, position.character as int);
    }
    let want = position.character as u128;
    let mut col: u128 = 0;
    let mut p = i;
    let mut go = p < b.len();
    while go
        invariant
            0 <= s <= p <= b@.len(),
            go ==> p < b@.len(),
            col <= 2 * (p - s),
            want == position.character,
            column_end(b@, p as int, col as int, want as int) == column_end(b@, s, 0, want as int),
            !go ==> column_end(b@, p as int, col as int, want as int) == p || p == b@.len(),
        decreases b@.len() - p + (if go { 1int } else { 0int }),
    {
        let c = b[p];
        if 0x80 <= c && c <= 0xbf {
            p = p + 1;
            go = p < b.len();
        } else if c == 10 || col == want {
            go = false;
        } else {
            assert(p as int <= usize::MAX as int);
            assert(usize::MAX as int <= 0xffff_ffff_ffff_ffff);
            if c >= 0xF0 {
                col = col + 2;
            } else {
                col = col + 1;
            }
            p = p + 1;
            go = p < b.len();
        }
    }
    proof {
        lemma_column_end(b@, s, 0, position.character as int);
        let r = column_end(b@, s, 0, position.character as int);
        if r < b@.len() {
            is_char_boundary_iff_not_is_continuation_byte(b@, r);
        }
    }
    p
}

/// The text after an edit: `new_text` over the range (when both ends are in
/// order), or the whole new text when there is no range.
pub open spec fn edited(b: Seq<u8>, range: Option<Range>, new_text: Seq<u8>) -> Seq<u8> {
    match range {
        None => new_text,
        Some(r) => {
            let s = offset_of(b, r.start);
            let e = offset_of(b, r.end);
            if s <= e && e <= b.len() {
                b.subrange(0, s) + new_text + b.subrange(e, b.len() as int)
            } else {
                b
            }
        },
    }
}

/// Apply one content change of an open document.
pub fn apply_change(text: &str, range: Option<Range>, new_text: &str) -> (r: String)
    ensures
        sb(r@) == edited(sb(text@), range, sb(new_text@)),
{
    match range {
        None => crate::text::owned(new_text),
        Some(rg) => {
            let b = text.as_bytes();
            proof {
                lemma_str_valid(text);
            }
            let start = position_to_byte_offset(text, rg.start);
            let end = position_to_byte_offset(text, rg.end);
            if start <= end && end <= b.len() {
                let mut out = string_of(b, 0, start);
                append_str(&mut out, new_text);
                let tail = string_of(b, end, b.len());
                append_str(&mut out, tail.as_str());
                out
            } else {
                crate::text::owned(text)
            }
        },
    }
}

/// The nearest character boundary at or before `offset`, within the text:
/// a span end that falls inside a character moves back to that
/// character's start.
pub fn floor_char_boundary(source: &str, offset: usize) -> (r: usize)
    ensures
        r <= offset,
        r <= sb(source@).len(),
        is_char_boundary(sb(source@), r as int),
        forall|k: int| r < k <= offset && k <= sb(source@).len() ==> !is_char_boundary(sb(source@), k),
{
    proof {
        lemma_str_valid(source);
    }
    let len = source.as_bytes().len();
    let mut at = if offset < len {
        offset
    } else {
        len
    };
    while !source.is_char_boundary(at)
        invariant
            at <= offset,
            at <= len,
            len == sb(source@).len(),
            is_char_boundary(sb(source@), 0),
            forall|k: int| at < k <= offset && k <= len ==> !is_char_boundary(sb(source@), k),
        decreases at,
    {
        at = at - 1;
    }
    at
}

/// A finished analysis may be stored only if the document has not changed
/// since it was taken.
pub fn analysis_is_current(stored_version: i32, stored_text: &str, version: i32, text: &str) -> (r: bool)
    ensures
        r == (stored_version == version && stored_text@ == text@),
{
    let a = crate::text::owned(stored_text);
    let b = crate::text::owned(text);
    stored_version == version && a == b
}

proof fn lemma_newlines_step(b: Seq<u8>, n: int)
    requires
        0 <= n < b.len(),
    ensures
        newlines(b, n + 1) == newlines(b, n) + if b[n] == 10u8 {
            1int
        } else {
            0int
        },
{
}

/// Newline counts grow with the prefix, by at least one across a newline,
/// and not at all across a stretch without one.
proof fn lemma_newlines_between(b: Seq<u8>, i: int, j: int)
    requires
        0 <= i <= j <= b.len(),
    ensures
        newlines(b, i) <= newlines(b, j),
        newlines(b, j) <= j,
        (forall|p: int| i <= p < j ==> b[p] != 10u8) ==> newlines(b, j) == newlines(b, i),
        (exists|p: int| i <= p < j && b[p] == 10u8) ==> newlines(b, i) < newlines(b, j),
    decreases j - i,
{
    if i < j {
        lemma_newlines_between(b, i, j - 1);
        lemma_newlines_step(b, j - 1);
        if exists|p: int| i <= p < j && b[p] == 10u8 {
            let p = choose|p: int| i <= p < j && b[p] == 10u8;
            if p < j - 1 {
                assert(exists|q: int| i <= q < j - 1 && b[q] == 10u8);
            }
        }
    } else {
        lemma_newlines_upto(b, j);
    }
}

proof fn lemma_newlines_upto(b: Seq<u8>, n: int)
    requires
        0 <= n <= b.len(),
    ensures
        0 <= newlines(b, n) <= n,
    decreases n,
{
    if n > 0 {
        lemma_newlines_upto(b, n - 1);
    }
}

/// Walking from `i` past the newlines between `i` and `o` lands on the start
/// of the line that holds `o`.
proof fn lemma_line_start_of(b: Seq<u8>, i: int, o: int)
    requires
        0 <= i <= last_byte(b, 0, o, 10u8) + 1,
        0 <= o <= b.len(),
    ensures
        line_start_from(b, i, newlines(b, o) - newlines(b, i)) == Some(last_byte(b, 0, o, 10u8) + 1),
    decreases o - i,
{
    let ls = last_byte(b, 0, o, 10u8) + 1;
    lemma_last_byte(b, 0, o, 10u8);
    assert(forall|p: int| ls <= p < o ==> b[p] != 10u8);
    if i == ls {
        lemma_newlines_between(b, ls, o);
    } else {
        assert(b[ls - 1] == 10u8);
        lemma_newlines_between(b, i, o);
        assert(exists|p: int| i <= p < o && b[p] == 10u8) by {
            assert(i <= ls - 1 < o && b[ls - 1] == 10u8);
        }
        lemma_newlines_step(b, i);
        lemma_line_start_of(b, i + 1, o);
    }
}

proof fn lemma_units_step(b: Seq<u8>, ls: int, p: int)
    requires
        0 <= ls <= p < b.len(),
    ensures
        utf16_units(b.subrange(ls, p + 1)) == utf16_units(b.subrange(ls, p)) + if is_continuation_byte(
            b[p],
        ) {
            0
        } else {
            units_of(b[p])
        },
{
    assert(b.subrange(ls, p + 1).drop_last() =~= b.subrange(ls, p));
}

/// UTF-16 lengths grow with the text, by at most two units a byte.
proof fn lemma_units_mono(b: Seq<u8>, ls: int, p: int, q: int)
    requires
        0 <= ls <= p <= q <= b.len(),
    ensures
        utf16_units(b.subrange(ls, p)) <= utf16_units(b.subrange(ls, q)),
        0 <= utf16_units(b.subrange(ls, q)) <= 2 * (q - ls),
    decreases q - p,
{
    if p < q {
        lemma_units_mono(b, ls, p, q - 1);
        lemma_units_step(b, ls, q - 1);
    } else {
        lemma_units_bound(b, ls, q);
    }
}

proof fn lemma_units_bound(b: Seq<u8>, ls: int, q: int)
    requires
        0 <= ls <= q <= b.len(),
    ensures
        0 <= utf16_units(b.subrange(ls, q)) <= 2 * (q - ls),
    decreases q - ls,
{
    if q > ls {
        lemma_units_bound(b, ls, q - 1);
        lemma_units_step(b, ls, q - 1);
    } else {
        assert(b.subrange(ls, q).len() == 0);
    }
}

/// On a line without newlines up to the boundary `o`, walking from `p` with
/// the columns counted so far stops exactly at `o` when the target column is
/// that of `o`.
proof fn lemma_column_walk(b: Seq<u8>, ls: int, p: int, o: int)
    requires
        valid_utf8(b),
        0 <= ls <= p <= o <= b.len(),
        is_char_boundary(b, o),
        forall|q: int| ls <= q < o ==> b[q] != 10u8,
    ensures
        column_end(b, p, utf16_units(b.subrange(ls, p)), utf16_units(b.subrange(ls, o))) == o,
    decreases o - p,
{
    let col = utf16_units(b.subrange(ls, p));
    let t = utf16_units(b.subrange(ls, o));
    if p < o {
        lemma_units_step(b, ls, p);
        lemma_units_mono(b, ls, p + 1, o);
        lemma_column_walk(b, ls, p + 1, o);
    } else if o < b.len() {
        is_char_boundary_iff_not_is_continuation_byte(b, o);
    }
}

/// A character boundary turned into a position and back is the same offset,
/// for buffers whose line and column counts fit the protocol's 32-bit
/// integers.
pub proof fn law_position_roundtrip(b: Seq<u8>, o: int)
    requires
        valid_utf8(b),
        0 <= o <= b.len(),
        is_char_boundary(b, o),
        2 * b.len() <= u32::MAX,
    ensures
        offset_of(b, position_of(b, o)) == o,
{
    let ls = last_byte(b, 0, o, 10u8) + 1;
    lemma_last_byte(b, 0, o, 10u8);
    lemma_newlines_upto(b, o);
    lemma_line_start_of(b, 0, o);
    assert(newlines(b, 0) == 0);
    lemma_units_bound(b, ls, o);
    assert(b.subrange(ls, ls).len() == 0);
    assert(utf16_units(b.subrange(ls, ls)) == 0);
    lemma_column_walk(b, ls, ls, o);
    let p = position_of(b, o);
    assert(p.line as int == newlines(b, o));
    assert(p.character as int == utf16_units(b.subrange(ls, o)));
}

} // verus!
