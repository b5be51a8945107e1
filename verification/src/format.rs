//! SPICE netlist pretty-printer.
//!
//! Formats source text line by line. Column alignment, continuation
//! normalization, and directive keyword casing follow [`FormatOptions`].
//! A token that leaves a quote open takes in the rest of its line when read,
//! so the formatter ends the line after it and puts what follows on `+`
//! lines; formatting its own output changes nothing.
use vstd::prelude::*;
use vstd::utf8::*;

use crate::classify::Win;
use crate::fmt_emit::{all_valid, copy_bytes, emit_spec, emit_wrapped_tokens, push_all, trim_end, vv};
use crate::fmt_tokens::{
    comment_pos, lemma_comment_pos, lemma_qtokens_from, qsplit, qtokens, split_comment_spec,
    split_inline_comment,
};
use crate::text::{
    copy_window, is_alpha, lemma_boundary_concat, is_digit, lemma_ascii_boundary, lemma_ascii_valid, lemma_rskip_ws,
    lemma_rskip_ws_boundary, lemma_skip_ws, lemma_skip_ws_boundary, lemma_str_valid,
    lemma_window_valid, lower_seq, rskip_ws, rskip_ws_exec, sb, skip_ws, skip_ws_exec,
    string_from_utf8, string_of, to_lower, to_upper, trim_exec, trim_win, upper_seq,
};

verus! {

/// How to rewrite leading `.directive` keywords.
#[derive(Debug, Clone, Copy, PartialEq, Eq, Structural)]
pub enum KeywordCase {
    Upper,
    Lower,
    Preserve,
}

impl Default for KeywordCase {
    fn default() -> (r: Self)
        ensures
            r == KeywordCase::Upper,
    {
        KeywordCase::Upper
    }
}

/// Configuration for [`format_source`].
#[derive(Debug, Clone, PartialEq, Eq, Structural)]
pub struct FormatOptions {
    /// Spaces after `+` on continuation lines.
    pub indent_width: usize,
    /// Case for the directive keyword (the token after `.`).
    pub keyword_case: KeywordCase,
    /// Align fields within contiguous instance blocks.
    pub align_columns: bool,
    /// Soft wrap width; long statements continue with `+` lines.
    pub max_line_width: usize,
}

impl Default for FormatOptions {
    fn default() -> (r: Self)
        ensures
            r.indent_width == 2,
            r.keyword_case == KeywordCase::Upper,
            r.align_columns,
            r.max_line_width == 120,
    {
        FormatOptions {
            indent_width: 2,
            keyword_case: KeywordCase::Upper,
            align_columns: true,
            max_line_width: 120,
        }
    }
}

// ---------------------------------------------------------------------------
// Physical lines
// ---------------------------------------------------------------------------

/// Kind of a physical source line.
#[derive(Debug, Clone, Copy, PartialEq, Eq, Structural)]
pub enum PhysicalKind {
    Blank,
    Comment,
    Continuation,
    Directive,
    Instance,
    DataValue,
    Other,
}

/// End of a line `[lo, e)` without one trailing carriage return.
pub open spec fn without_cr(b: Seq<u8>, lo: int, e: int) -> int {
    if e > lo && b[e - 1] == 13u8 {
        e - 1
    } else {
        e
    }
}

/// The `\n`-separated pieces of `b` from the piece that started at `start`,
/// with position `i` reached; each without its trailing `\r`.
pub open spec fn segments(b: Seq<u8>, start: int, i: int) -> Seq<Win>
    decreases b.len() - i,
{
    if i >= b.len() {
        seq![(start, without_cr(b, start, b.len() as int))]
    } else if b[i] == 10u8 {
        seq![(start, without_cr(b, start, i))] + segments(b, i + 1, i + 1)
    } else {
        segments(b, start, i + 1)
    }
}

/// The physical lines of a buffer; the empty piece after a final newline is
/// not a line.
pub open spec fn physical_lines(b: Seq<u8>) -> Seq<Win> {
    let sg = segments(b, 0, 0);
    if b.len() > 0 && b.last() == 10u8 && sg.len() > 0 && sg.last().0 == sg.last().1 {
        sg.drop_last()
    } else {
        sg
    }
}

/// A numeric data row starts here (`1.5`, `-2`, `+.5`, `.5`).
pub open spec fn data_value_at(b: Seq<u8>, t: int, hi: int) -> bool {
    let c = b[t];
    if c == 43u8 || c == 45u8 {
        t + 1 < hi && (is_digit(b[t + 1]) || b[t + 1] == 46u8)
    } else {
        is_digit(c) || (c == 46u8 && t + 1 < hi && is_digit(b[t + 1]))
    }
}

/// The kind of the physical line `w`, by its first non-blank character.
pub open spec fn physical_kind(b: Seq<u8>, w: Win) -> PhysicalKind {
    let t = skip_ws(b, w.0, w.1);
    if t >= w.1 {
        PhysicalKind::Blank
    } else {
        let c = b[t];
        if c == 42u8 || c == 59u8 || c == 36u8 {
            PhysicalKind::Comment
        } else if c == 43u8 {
            PhysicalKind::Continuation
        } else if c == 46u8 {
            PhysicalKind::Directive
        } else if data_value_at(b, t, w.1) {
            PhysicalKind::DataValue
        } else if is_alpha(c) {
            PhysicalKind::Instance
        } else {
            PhysicalKind::Other
        }
    }
}

/// A window inside `b` on character boundaries.
pub open spec fn win_ok(b: Seq<u8>, w: Win) -> bool {
    0 <= w.0 <= w.1 <= b.len() && is_char_boundary(b, w.0) && is_char_boundary(b, w.1)
}

/// Windows of a list of `usize` pairs.
pub open spec fn winv(v: Seq<(usize, usize)>) -> Seq<Win> {
    v.map_values(|w: (usize, usize)| (w.0 as int, w.1 as int))
}

fn physical_lines_exec(b: &[u8]) -> (r: Vec<(usize, usize)>)
    requires
        valid_utf8(b@),
    ensures
        winv(r@) == physical_lines(b@),
        forall|k: int| 0 <= k < r@.len() ==> win_ok(b@, #[trigger] winv(r@)[k]),
{
    let mut out: Vec<(usize, usize)> = Vec::new();
    let mut start: usize = 0;
    let mut i: usize = 0;
    proof {
        is_char_boundary_start_end_of_seq(b@);
    }
    while i < b.len()
        invariant
            start <= i <= b@.len(),
            valid_utf8(b@),
            is_char_boundary(b@, start as int),
            winv(out@) + segments(b@, start as int, i as int) == segments(b@, 0, 0),
            forall|k: int| 0 <= k < out@.len() ==> win_ok(b@, #[trigger] winv(out@)[k]),
        decreases b@.len() - i,
    {
        if b[i] == 10 {
            let e = if i > start && b[i - 1] == 13 {
                i - 1
            } else {
                i
            };
            proof {
                lemma_ascii_boundary(b@, i as int);
                if i > start && b@[i - 1] == 13u8 {
                    lemma_ascii_boundary(b@, i - 1);
                }
            }
            let ghost before = winv(out@);
            out.push((start, e));
            proof {
                assert(winv(out@) =~= before.push((start as int, e as int)));
                assert(seq![(start as int, e as int)] + segments(b@, i + 1, i + 1) == segments(
                    b@,
                    start as int,
                    i as int,
                ));
                assert(winv(out@) + segments(b@, i + 1, i + 1) =~= before + segments(
                    b@,
                    start as int,
                    i as int,
                ));
            }
            start = i + 1;
        }
        i = i + 1;
    }
    let e = if b.len() > start && b[b.len() - 1] == 13 {
        b.len() - 1
    } else {
        b.len()
    };
    proof {
        if b@.len() > start && b@[b@.len() - 1] == 13u8 {
            lemma_ascii_boundary(b@, b@.len() - 1);
        }
    }
    let ghost before = winv(out@);
    out.push((start, e));
    proof {
        assert(winv(out@) =~= before.push((start as int, e as int)));
        assert(winv(out@) =~= segments(b@, 0, 0));
    }
    let n = out.len();
    if b.len() > 0 && b[b.len() - 1] == 10 && out[n - 1].0 == out[n - 1].1 {
        out.pop();
        proof {
            assert(winv(out@) =~= segments(b@, 0, 0).drop_last());
        }
    }
    out
}

fn physical_kind_exec(b: &[u8], lo: usize, hi: usize) -> (k: PhysicalKind)
    requires
        lo <= hi <= b@.len(),
    ensures
        k == physical_kind(b@, (lo as int, hi as int)),
{
    let t = skip_ws_exec(b, lo, hi);
    if t >= hi {
        return PhysicalKind::Blank;
    }
    let c = b[t];
    if c == 42 || c == 59 || c == 36 {
        PhysicalKind::Comment
    } else if c == 43 {
        PhysicalKind::Continuation
    } else if c == 46 {
        PhysicalKind::Directive
    } else if (c == 43 || c == 45) && t + 1 < hi && ((48 <= b[t + 1] && b[t + 1] <= 57) || b[t
        + 1] == 46) {
        PhysicalKind::DataValue
    } else if (48 <= c && c <= 57) {
        PhysicalKind::DataValue
    } else if (65 <= c && c <= 90) || (97 <= c && c <= 122) {
        PhysicalKind::Instance
    } else {
        PhysicalKind::Other
    }
}

// ---------------------------------------------------------------------------
// Statements
// ---------------------------------------------------------------------------

/// A logical statement: a blank line, a comment line, or code with its
/// continuation payloads (`head` is `None` for continuations with no line
/// before them, which stand for a `+` head).
pub enum StmtV {
    Blank,
    Comment(Win),
    Code { kind: PhysicalKind, head: Option<Win>, conts: Seq<Win> },
}

/// What follows the `+` of a continuation line, trimmed at the start.
pub open spec fn payload(b: Seq<u8>, w: Win) -> Win {
    let t = skip_ws(b, w.0, w.1);
    let u = if t < w.1 && b[t] == 43u8 {
        t + 1
    } else {
        t
    };
    (skip_ws(b, u, w.1), w.1)
}

/// Effect of one physical line on the statements.
pub open spec fn group_step(st: Seq<StmtV>, b: Seq<u8>, w: Win) -> Seq<StmtV> {
    match physical_kind(b, w) {
        PhysicalKind::Blank => st.push(StmtV::Blank),
        PhysicalKind::Comment => st.push(StmtV::Comment(w)),
        PhysicalKind::Continuation => if st.len() > 0 && st.last() is Code {
            match st.last() {
                StmtV::Code { kind, head, conts } => st.drop_last().push(
                    StmtV::Code { kind, head, conts: conts.push(payload(b, w)) },
                ),
                _ => st,
            }
        } else {
            st.push(StmtV::Code { kind: PhysicalKind::Other, head: None, conts: seq![payload(b, w)] })
        },
        k => st.push(StmtV::Code { kind: k, head: Some(w), conts: seq![] }),
    }
}

/// The statements of a list of physical lines.
pub open spec fn group_lines(b: Seq<u8>, ls: Seq<Win>) -> Seq<StmtV>
    decreases ls.len(),
{
    if ls.len() == 0 {
        seq![]
    } else {
        group_step(group_lines(b, ls.drop_last()), b, ls.last())
    }
}

/// Every window of a statement lies on boundaries of `b`.
pub open spec fn stmt_ok(b: Seq<u8>, s: StmtV) -> bool {
    match s {
        StmtV::Blank => true,
        StmtV::Comment(w) => win_ok(b, w),
        StmtV::Code { kind, head, conts } => (head matches Some(h) ==> win_ok(b, h)) && forall|k: int|
            0 <= k < conts.len() ==> win_ok(b, #[trigger] conts[k]),
    }
}

enum Stmt {
    Blank,
    Comment(usize, usize),
    Code { kind: PhysicalKind, head: Option<(usize, usize)>, conts: Vec<(usize, usize)> },
}

spec fn stmt_v(s: Stmt) -> StmtV {
    match s {
        Stmt::Blank => StmtV::Blank,
        Stmt::Comment(a, z) => StmtV::Comment((a as int, z as int)),
        Stmt::Code { kind, head, conts } => StmtV::Code {
            kind,
            head: match head {
                Some(h) => Some((h.0 as int, h.1 as int)),
                None => None,
            },
            conts: winv(conts@),
        },
    }
}

spec fn stmts_v(v: Seq<Stmt>) -> Seq<StmtV> {
    v.map_values(|s: Stmt| stmt_v(s))
}

fn payload_exec(b: &[u8], lo: usize, hi: usize) -> (r: (usize, usize))
    requires
        valid_utf8(b@),
        win_ok(b@, (lo as int, hi as int)),
    ensures
        (r.0 as int, r.1 as int) == payload(b@, (lo as int, hi as int)),
        win_ok(b@, (r.0 as int, r.1 as int)),
{
    let t = skip_ws_exec(b, lo, hi);
    proof {
        lemma_skip_ws_boundary(b@, lo as int, hi as int);
    }
    let u = if t < hi && b[t] == 43 {
        proof {
            lemma_ascii_boundary(b@, t as int);
        }
        t + 1
    } else {
        t
    };
    let s = skip_ws_exec(b, u, hi);
    proof {
        lemma_skip_ws_boundary(b@, u as int, hi as int);
    }
    (s, hi)
}

fn group_statements(b: &[u8], lines: &Vec<(usize, usize)>) -> (r: Vec<Stmt>)
    requires
        valid_utf8(b@),
        forall|k: int| 0 <= k < lines@.len() ==> win_ok(b@, #[trigger] winv(lines@)[k]),
    ensures
        stmts_v(r@) == group_lines(b@, winv(lines@)),
        forall|k: int| 0 <= k < r@.len() ==> stmt_ok(b@, #[trigger] stmts_v(r@)[k]),
{
    let ghost ls = winv(lines@);
    let mut out: Vec<Stmt> = Vec::new();
    let mut i: usize = 0;
    while i < lines.len()
        invariant
            i <= lines@.len(),
            ls == winv(lines@),
            valid_utf8(b@),
            forall|k: int| 0 <= k < lines@.len() ==> win_ok(b@, #[trigger] winv(lines@)[k]),
            stmts_v(out@) == group_lines(b@, ls.take(i as int)),
            forall|k: int| 0 <= k < out@.len() ==> stmt_ok(b@, #[trigger] stmts_v(out@)[k]),
        decreases lines@.len() - i,
    {
        let (lo, hi) = lines[i];
        proof {
            assert(ls.take(i + 1).drop_last() =~= ls.take(i as int));
            assert(ls.take(i + 1).last() == (lo as int, hi as int));
            assert(win_ok(b@, winv(lines@)[i as int]));
        }
        let ghost before = stmts_v(out@);
        let kind = physical_kind_exec(b, lo, hi);
        match kind {
            PhysicalKind::Blank => {
                out.push(Stmt::Blank);
                proof {
                    assert(stmts_v(out@) =~= before.push(StmtV::Blank));
                }
            },
            PhysicalKind::Comment => {
                out.push(Stmt::Comment(lo, hi));
                proof {
                    assert(stmts_v(out@) =~= before.push(StmtV::Comment((lo as int, hi as int))));
                }
            },
            PhysicalKind::Continuation => {
                let p = payload_exec(b, lo, hi);
                let n = out.len();
                let last_is_code = n > 0 && match &out[n - 1] {
                    Stmt::Code { .. } => true,
                    _ => false,
                };
                if last_is_code {
                    let last = out.pop().unwrap();
                    proof {
                        assert(stmts_v(out@) =~= before.drop_last());
                        assert(stmt_v(last) == before.last());
                    }
                    match last {
                        Stmt::Code { kind: k, head, conts } => {
                            let mut conts = conts;
                            let ghost c0 = winv(conts@);
                            conts.push(p);
                            proof {
                                assert(winv(conts@) =~= c0.push((p.0 as int, p.1 as int)));
                            }
                            out.push(Stmt::Code { kind: k, head, conts });
                        },
                        _ => {},
                    }
                    proof {
                        assert(stmts_v(out@) =~= group_step(before, b@, (lo as int, hi as int)));
                    }
                } else {
                    let mut conts: Vec<(usize, usize)> = Vec::new();
                    conts.push(p);
                    out.push(Stmt::Code { kind: PhysicalKind::Other, head: None, conts });
                    proof {
                        assert(winv(conts@) =~= seq![(p.0 as int, p.1 as int)]);
                        assert(stmts_v(out@) =~= group_step(before, b@, (lo as int, hi as int)));
                    }
                }
            },
            _ => {
                let conts: Vec<(usize, usize)> = Vec::new();
                proof {
                    assert(winv(conts@) =~= Seq::<Win>::empty());
                }
                out.push(Stmt::Code { kind, head: Some((lo, hi)), conts });
                proof {
                    assert(stmts_v(out@) =~= group_step(before, b@, (lo as int, hi as int)));
                }
            },
        }
        proof {
            assert forall|k: int| 0 <= k < out@.len() implies stmt_ok(
                b@,
                #[trigger] stmts_v(out@)[k],
            ) by {
                if k < before.len() && k < out@.len() - 1 {
                    assert(stmts_v(out@)[k] == before[k]);
                }
            }
        }
        i = i + 1;
    }
    proof {
        assert(ls.take(i as int) =~= ls);
    }
    out
}

// ---------------------------------------------------------------------------
// Tokens and comments of a statement
// ---------------------------------------------------------------------------

/// The bytes of each window.
pub open spec fn tok_bytes(b: Seq<u8>, ts: Seq<Win>) -> Seq<Seq<u8>> {
    ts.map_values(|t: Win| b.subrange(t.0, t.1))
}

/// `tokenize`: the quote-aware tokens of the window trimmed on both sides.
pub open spec fn tokenize_spec(b: Seq<u8>, w: Win) -> Seq<Seq<u8>> {
    let t = trim_win(b, w.0, w.1);
    tok_bytes(b, qtokens(b, t.0, t.1))
}

/// A directive keyword in the requested case.
pub open spec fn case_word(c: KeywordCase, w: Seq<u8>) -> Seq<u8> {
    match c {
        KeywordCase::Upper => upper_seq(w),
        KeywordCase::Lower => lower_seq(w),
        KeywordCase::Preserve => w,
    }
}

/// Tokens of a directive's code: `.` joined to its recased keyword, then the
/// other tokens; a lone `.` when nothing follows it.
pub open spec fn tokenize_directive_spec(b: Seq<u8>, w: Win, case: KeywordCase) -> Seq<Seq<u8>> {
    let t = trim_win(b, w.0, w.1);
    if !(t.0 < t.1 && b[t.0] == 46u8) {
        tokenize_spec(b, t)
    } else {
        let parts = qtokens(b, t.0 + 1, t.1);
        if parts.len() == 0 {
            seq![seq![46u8]]
        } else {
            seq![seq![46u8] + case_word(case, b.subrange(parts[0].0, parts[0].1))] + tok_bytes(
                b,
                parts.drop_first(),
            )
        }
    }
}

/// Tokens of the continuation payloads, comments removed.
pub open spec fn cont_tokens(b: Seq<u8>, conts: Seq<Win>) -> Seq<Seq<u8>>
    decreases conts.len(),
{
    if conts.len() == 0 {
        seq![]
    } else {
        cont_tokens(b, conts.drop_last()) + tokenize_spec(
            b,
            split_comment_spec(b, conts.last().0, conts.last().1).0,
        )
    }
}

/// All tokens of a code statement.
pub open spec fn stmt_tokens(
    b: Seq<u8>,
    kind: PhysicalKind,
    head: Option<Win>,
    conts: Seq<Win>,
    case: KeywordCase,
) -> Seq<Seq<u8>> {
    let ht = match head {
        Some(h) => {
            let code = split_comment_spec(b, h.0, h.1).0;
            if kind == PhysicalKind::Directive {
                tokenize_directive_spec(b, code, case)
            } else {
                tokenize_spec(b, code)
            }
        },
        None => seq![seq![43u8]],
    };
    let all = ht + cont_tokens(b, conts);
    if kind == PhysicalKind::Directive {
        join_dot(all, case)
    } else {
        all
    }
}

/// A directive whose dot stands alone on its line takes the next token as
/// its keyword, in the requested case: `.` then `tran` gives `.TRAN`, which
/// is how the formatted line `. tran` reads.
#[verifier::opaque]
pub open spec fn join_dot(toks: Seq<Seq<u8>>, case: KeywordCase) -> Seq<Seq<u8>> {
    if toks.len() > 1 && toks[0] == seq![46u8] {
        seq![seq![46u8] + case_word(case, toks[1])] + toks.skip(2)
    } else {
        toks
    }
}

/// The comment of the last continuation that has one.
pub open spec fn last_comment(b: Seq<u8>, conts: Seq<Win>) -> Option<Win>
    decreases conts.len(),
{
    if conts.len() == 0 {
        None
    } else {
        match split_comment_spec(b, conts.last().0, conts.last().1).1 {
            Some(c) => Some(c),
            None => last_comment(b, conts.drop_last()),
        }
    }
}

/// The comment kept for a statement: the head's, else the last one among the
/// continuations.
pub open spec fn stmt_comment(b: Seq<u8>, head: Option<Win>, conts: Seq<Win>) -> Option<Win> {
    let hc = match head {
        Some(h) => split_comment_spec(b, h.0, h.1).1,
        None => None,
    };
    match hc {
        Some(c) => Some(c),
        None => last_comment(b, conts),
    }
}

pub open spec fn comment_bytes(b: Seq<u8>, c: Option<Win>) -> Option<Seq<u8>> {
    match c {
        Some(w) => Some(b.subrange(w.0, w.1)),
        None => None,
    }
}

/// Each byte string is at most `n` bytes long.
pub open spec fn short(v: Seq<Seq<u8>>, n: int) -> bool {
    forall|i: int| 0 <= i < v.len() ==> (#[trigger] v[i]).len() <= n
}

proof fn lemma_trim_win_ok(b: Seq<u8>, lo: int, hi: int)
    requires
        valid_utf8(b),
        win_ok(b, (lo, hi)),
    ensures
        win_ok(b, trim_win(b, lo, hi)),
        lo <= trim_win(b, lo, hi).0,
        trim_win(b, lo, hi).1 <= hi,
{
    lemma_skip_ws(b, lo, hi);
    lemma_skip_ws_boundary(b, lo, hi);
    let s = skip_ws(b, lo, hi);
    lemma_rskip_ws(b, s, hi);
    lemma_rskip_ws_boundary(b, s, hi);
}

/// Copy the windows of `ts` out of `b`.
fn copy_tokens(b: &[u8], ts: &Vec<(usize, usize)>, from: usize, out: &mut Vec<Vec<u8>>)
    requires
        valid_utf8(b@),
        from <= ts@.len(),
        forall|k: int| 0 <= k < ts@.len() ==> win_ok(b@, #[trigger] winv(ts@)[k]),
        all_valid(vv(old(out)@)),
        short(vv(old(out)@), b@.len() as int),
    ensures
        vv(final(out)@) == vv(old(out)@) + tok_bytes(b@, winv(ts@).skip(from as int)),
        all_valid(vv(final(out)@)),
        short(vv(final(out)@), b@.len() as int),
{
    let ghost start = vv(out@);
    let ghost w = winv(ts@);
    let mut k = from;
    while k < ts.len()
        invariant
            from <= k <= ts@.len(),
            w == winv(ts@),
            valid_utf8(b@),
            forall|j: int| 0 <= j < ts@.len() ==> win_ok(b@, #[trigger] winv(ts@)[j]),
            vv(out@) == start + tok_bytes(b@, w.subrange(from as int, k as int)),
            all_valid(vv(out@)),
            short(vv(out@), b@.len() as int),
        decreases ts@.len() - k,
    {
        let (a, z) = ts[k];
        proof {
            assert(w[k as int] == (a as int, z as int));
            assert(win_ok(b@, w[k as int]));
            lemma_window_valid(b@, a as int, z as int);
        }
        let ghost before = vv(out@);
        let t = copy_window(b, a, z);
        out.push(t);
        proof {
            assert(vv(out@) =~= before.push(t@));
            assert(tok_bytes(b@, w.subrange(from as int, k + 1)) =~= tok_bytes(
                b@,
                w.subrange(from as int, k as int),
            ).push(b@.subrange(a as int, z as int)));
            assert forall|j: int| 0 <= j < vv(out@).len() implies valid_utf8(
                #[trigger] vv(out@)[j],
            ) && vv(out@)[j].len() <= b@.len() by {
                if j < before.len() {
                    assert(vv(out@)[j] == before[j]);
                }
            }
        }
        k = k + 1;
    }
    proof {
        assert(w.subrange(from as int, k as int) =~= w.skip(from as int));
    }
}

/// The quote-aware tokens of `[lo, hi)` as windows on boundaries.
fn qsplit_ok(b: &[u8], lo: usize, hi: usize) -> (r: Vec<(usize, usize)>)
    requires
        valid_utf8(b@),
        win_ok(b@, (lo as int, hi as int)),
    ensures
        winv(r@) == qtokens(b@, lo as int, hi as int),
        forall|k: int| 0 <= k < r@.len() ==> win_ok(b@, #[trigger] winv(r@)[k]),
        forall|k: int| 0 <= k < r@.len() ==> lo <= (#[trigger] r@[k]).0 < r@[k].1 <= hi,
{
    let ts = qsplit(b, lo, hi);
    proof {
        lemma_qtokens_from(b@, lo as int, hi as int, None, None);
        assert(winv(ts@) =~= qtokens(b@, lo as int, hi as int));
        assert forall|k: int| 0 <= k < ts@.len() implies win_ok(b@, #[trigger] winv(ts@)[k]) by {
            assert(winv(ts@)[k] == qtokens(b@, lo as int, hi as int)[k]);
        }
    }
    ts
}

fn tokenize(b: &[u8], lo: usize, hi: usize, out: &mut Vec<Vec<u8>>)
    requires
        valid_utf8(b@),
        win_ok(b@, (lo as int, hi as int)),
        all_valid(vv(old(out)@)),
        short(vv(old(out)@), b@.len() as int),
    ensures
        vv(final(out)@) == vv(old(out)@) + tokenize_spec(b@, (lo as int, hi as int)),
        all_valid(vv(final(out)@)),
        short(vv(final(out)@), b@.len() as int),
{
    let (a, z) = trim_exec(b, lo, hi);
    proof {
        lemma_trim_win_ok(b@, lo as int, hi as int);
    }
    let ts = qsplit_ok(b, a, z);
    copy_tokens(b, &ts, 0, out);
    proof {
        assert(winv(ts@).skip(0) =~= winv(ts@));
    }
}

/// The keyword window in the requested case.
fn case_bytes(b: &[u8], lo: usize, hi: usize, case: KeywordCase) -> (r: Vec<u8>)
    requires
        valid_utf8(b@),
        win_ok(b@, (lo as int, hi as int)),
    ensures
        r@ == case_word(case, b@.subrange(lo as int, hi as int)),
        valid_utf8(r@),
{
    proof {
        lemma_window_valid(b@, lo as int, hi as int);
    }
    match case {
        KeywordCase::Preserve => copy_window(b, lo, hi),
        KeywordCase::Upper => {
            let s = string_of(b, lo, hi);
            let u = to_upper(s.as_str());
            proof {
                encode_utf8_valid_utf8(u@);
            }
            copy_bytes(u.as_str().as_bytes())
        },
        KeywordCase::Lower => {
            let s = string_of(b, lo, hi);
            let u = to_lower(s.as_str());
            proof {
                encode_utf8_valid_utf8(u@);
            }
            copy_bytes(u.as_str().as_bytes())
        },
    }
}

fn tokenize_directive(b: &[u8], lo: usize, hi: usize, case: KeywordCase, out: &mut Vec<Vec<u8>>)
    requires
        valid_utf8(b@),
        win_ok(b@, (lo as int, hi as int)),
        all_valid(vv(old(out)@)),
        short(vv(old(out)@), b@.len() as int),
    ensures
        vv(final(out)@) == vv(old(out)@) + tokenize_directive_spec(
            b@,
            (lo as int, hi as int),
            case,
        ),
        all_valid(vv(final(out)@)),
        short(vv(final(out)@), b@.len() as int),
{
    let (a, z) = trim_exec(b, lo, hi);
    proof {
        lemma_trim_win_ok(b@, lo as int, hi as int);
    }
    if !(a < z && b[a] == 46) {
        tokenize(b, a, z, out);
        return;
    }
    proof {
        lemma_ascii_boundary(b@, a as int);
    }
    let parts = qsplit_ok(b, a + 1, z);
    let ghost start = vv(out@);
    let dot: [u8; 1] = [46];
    proof {
        lemma_ascii_valid(dot@);
        assert(dot@ == seq![46u8]);
    }
    if parts.len() == 0 {
        out.push(copy_bytes(&dot));
        proof {
            assert(vv(out@) =~= start.push(seq![46u8]));
            assert forall|j: int| 0 <= j < vv(out@).len() implies valid_utf8(
                #[trigger] vv(out@)[j],
            ) && vv(out@)[j].len() <= b@.len() by {
                if j < start.len() {
                    assert(vv(out@)[j] == start[j]);
                }
            }
        }
        return;
    }
    let (p0, p1) = parts[0];
    proof {
        assert(winv(parts@)[0] == (p0 as int, p1 as int));
    }
    let kw = case_bytes(b, p0, p1, case);
    let mut first: Vec<u8> = Vec::new();
    push_all(&mut first, &dot);
    push_all(&mut first, kw.as_slice());
    proof {
        assert(first@ =~= seq![46u8] + kw@);
        valid_utf8_concat(dot@, kw@);
        assert(dot@ + kw@ =~= first@);
    }
    out.push(first);
    proof {
        assert(vv(out@) =~= start.push(first@));
        assert forall|j: int| 0 <= j < vv(out@).len() implies valid_utf8(#[trigger] vv(out@)[j])
            && vv(out@)[j].len() <= b@.len() by {
            if j < start.len() {
                assert(vv(out@)[j] == start[j]);
            }
        }
    }
    copy_tokens(b, &parts, 1, out);
    proof {
        assert(winv(parts@).skip(1) =~= winv(parts@).drop_first());
    }
}

fn statement_tokens(
    b: &[u8],
    kind: PhysicalKind,
    head: Option<(usize, usize)>,
    conts: &Vec<(usize, usize)>,
    case: KeywordCase,
) -> (r: Vec<Vec<u8>>)
    requires
        valid_utf8(b@),
        head matches Some(h) ==> win_ok(b@, (h.0 as int, h.1 as int)),
        forall|k: int| 0 <= k < conts@.len() ==> win_ok(b@, #[trigger] winv(conts@)[k]),
        b@.len() >= 1,
    ensures
        vv(r@) == stmt_tokens(
            b@,
            kind,
            match head {
                Some(h) => Some((h.0 as int, h.1 as int)),
                None => None,
            },
            winv(conts@),
            case,
        ),
        all_valid(vv(r@)),
        kind != PhysicalKind::Directive ==> short(vv(r@), b@.len() as int),
{
    let mut out: Vec<Vec<u8>> = Vec::new();
    match head {
        Some((lo, hi)) => {
            let (code, _c) = split_inline_comment(b, lo, hi);
            proof {
                let p = comment_pos(b@, lo as int, hi as int, None);
                lemma_comment_pos(b@, lo as int, hi as int, None);
                lemma_rskip_ws(b@, lo as int, hi as int);
                if p < hi {
                    lemma_ascii_boundary(b@, p);
                    lemma_rskip_ws(b@, lo as int, p);
                    lemma_rskip_ws_boundary(b@, lo as int, p);
                } else {
                    lemma_rskip_ws_boundary(b@, lo as int, hi as int);
                }
                assert(vv(out@) =~= Seq::<Seq<u8>>::empty());
            }
            if kind == PhysicalKind::Directive {
                tokenize_directive(b, code.0, code.1, case, &mut out);
            } else {
                tokenize(b, code.0, code.1, &mut out);
            }
        },
        None => {
            let plus: [u8; 1] = [43];
            proof {
                lemma_ascii_valid(plus@);
            }
            out.push(copy_bytes(&plus));
            proof {
                assert(plus@ =~= seq![43u8]);
                assert(vv(out@) =~= seq![seq![43u8]]);
            }
        },
    }
    let ghost head_toks = vv(out@);
    let ghost cw = winv(conts@);
    let mut k: usize = 0;
    while k < conts.len()
        invariant
            k <= conts@.len(),
            cw == winv(conts@),
            valid_utf8(b@),
            forall|j: int| 0 <= j < conts@.len() ==> win_ok(b@, #[trigger] winv(conts@)[j]),
            vv(out@) == head_toks + cont_tokens(b@, cw.take(k as int)),
            all_valid(vv(out@)),
            short(vv(out@), b@.len() as int),
        decreases conts@.len() - k,
    {
        let (lo, hi) = conts[k];
        proof {
            assert(cw[k as int] == (lo as int, hi as int));
            assert(win_ok(b@, cw[k as int]));
            assert(cw.take(k + 1).drop_last() =~= cw.take(k as int));
            assert(cw.take(k + 1).last() == (lo as int, hi as int));
            let p = comment_pos(b@, lo as int, hi as int, None);
            lemma_comment_pos(b@, lo as int, hi as int, None);
            if p < hi {
                lemma_ascii_boundary(b@, p);
                lemma_rskip_ws(b@, lo as int, p);
                lemma_rskip_ws_boundary(b@, lo as int, p);
            } else {
                lemma_rskip_ws(b@, lo as int, hi as int);
                lemma_rskip_ws_boundary(b@, lo as int, hi as int);
            }
        }
        let (code, _c) = split_inline_comment(b, lo, hi);
        tokenize(b, code.0, code.1, &mut out);
        k = k + 1;
    }
    proof {
        assert(cw.take(k as int) =~= cw);
    }
    if kind == PhysicalKind::Directive && out.len() > 1 && out[0].len() == 1 && out[0][0] == 46 {
        join_dot_exec(&out, case)
    } else {
        proof {
            reveal(join_dot);
            if kind == PhysicalKind::Directive && vv(out@).len() > 1 && vv(out@)[0] == seq![46u8] {
                assert(out@[0]@.len() == 1 && out@[0]@[0] == 46u8);
            }
        }
        out
    }
}

/// `join_dot` on tokens whose first one is a lone dot.
fn join_dot_exec(toks: &Vec<Vec<u8>>, case: KeywordCase) -> (r: Vec<Vec<u8>>)
    requires
        all_valid(vv(toks@)),
        toks@.len() > 1,
        toks@[0]@.len() == 1,
        toks@[0]@[0] == 46u8,
    ensures
        vv(r@) == join_dot(vv(toks@), case),
        all_valid(vv(r@)),
{
    let ghost tv = vv(toks@);
    assert(tv[0] =~= seq![46u8]);
    reveal(join_dot);
    let t1 = toks[1].as_slice();
    assert(valid_utf8(tv[1]));
    assert(t1@ == tv[1]);
    proof {
        lemma_ascii_valid(Seq::<u8>::empty());
        lemma_boundary_concat(t1@, Seq::<u8>::empty());
        assert(t1@ + Seq::<u8>::empty() =~= t1@);
    }
    let kw = case_bytes(t1, 0, t1.len(), case);
    assert(t1@.subrange(0, t1@.len() as int) =~= t1@);
    let dot: [u8; 1] = [46];
    proof {
        lemma_ascii_valid(dot@);
        assert(dot@ == seq![46u8]);
    }
    let mut first: Vec<u8> = Vec::new();
    push_all(&mut first, &dot);
    push_all(&mut first, kw.as_slice());
    proof {
        assert(first@ =~= seq![46u8] + kw@);
        valid_utf8_concat(dot@, kw@);
        assert(dot@ + kw@ =~= first@);
    }
    let mut out: Vec<Vec<u8>> = Vec::new();
    out.push(first);
    let mut k: usize = 2;
    while k < toks.len()
        invariant
            2 <= k <= toks@.len(),
            tv == vv(toks@),
            all_valid(tv),
            vv(out@) == seq![seq![46u8] + case_word(case, tv[1])] + tv.subrange(2, k as int),
            all_valid(vv(out@)),
        decreases toks@.len() - k,
    {
        let ghost before = vv(out@);
        let t = copy_bytes(toks[k].as_slice());
        out.push(t);
        proof {
            assert(vv(out@) =~= before.push(tv[k as int]));
            assert(tv.subrange(2, k + 1) =~= tv.subrange(2, k as int).push(tv[k as int]));
            assert forall|j: int| 0 <= j < vv(out@).len() implies valid_utf8(#[trigger] vv(out@)[j]) by {
                if j < before.len() {
                    assert(vv(out@)[j] == before[j]);
                }
            }
        }
        k = k + 1;
    }
    assert(tv.subrange(2, k as int) =~= tv.skip(2));
    out
}

fn statement_comment(b: &[u8], head: Option<(usize, usize)>, conts: &Vec<(usize, usize)>) -> (r:
    Option<(usize, usize)>)
    requires
        valid_utf8(b@),
        head matches Some(h) ==> win_ok(b@, (h.0 as int, h.1 as int)),
        forall|k: int| 0 <= k < conts@.len() ==> win_ok(b@, #[trigger] winv(conts@)[k]),
    ensures
        match (
            r,
            stmt_comment(
                b@,
                match head {
                    Some(h) => Some((h.0 as int, h.1 as int)),
                    None => None,
                },
                winv(conts@),
            ),
        ) {
            (Some(x), Some(y)) => x.0 == y.0 && x.1 == y.1,
            (None, None) => true,
            _ => false,
        },
        r matches Some(c) ==> win_ok(b@, (c.0 as int, c.1 as int)),
{
    if let Some((lo, hi)) = head {
        let (_code, c) = split_inline_comment(b, lo, hi);
        if let Some(cw) = c {
            proof {
                lemma_comment_pos(b@, lo as int, hi as int, None);
                let p = comment_pos(b@, lo as int, hi as int, None);
                lemma_ascii_boundary(b@, p);
                lemma_rskip_ws(b@, p, hi as int);
                lemma_rskip_ws_boundary(b@, p, hi as int);
                let hv = match head {
                    Some(h) => Some((h.0 as int, h.1 as int)),
                    None => None,
                };
                assert(hv == Some((lo as int, hi as int)));
                assert(split_comment_spec(b@, lo as int, hi as int).1 == Some((cw.0 as int, cw.1 as int)));
                assert(stmt_comment(b@, hv, winv(conts@)) == Some((cw.0 as int, cw.1 as int)));
            }
            return Some(cw);
        }
    }
    let ghost cw = winv(conts@);
    let ghost hv = match head {
        Some(h) => Some((h.0 as int, h.1 as int)),
        None => None,
    };
    let mut k = conts.len();
    proof {
        assert(cw.take(k as int) =~= cw);
    }
    while k > 0
        invariant
            hv == match head {
                Some(h) => Some((h.0 as int, h.1 as int)),
                None => None,
            },
            stmt_comment(b@, hv, cw) == last_comment(b@, cw),
            k <= conts@.len(),
            cw == winv(conts@),
            valid_utf8(b@),
            forall|j: int| 0 <= j < conts@.len() ==> win_ok(b@, #[trigger] winv(conts@)[j]),
            last_comment(b@, cw.take(k as int)) == last_comment(b@, cw),
        decreases k,
    {
        let (lo, hi) = conts[k - 1];
        proof {
            assert(cw[k - 1] == (lo as int, hi as int));
            assert(win_ok(b@, cw[k - 1]));
            assert(cw.take(k as int).drop_last() =~= cw.take(k - 1));
            assert(cw.take(k as int).last() == (lo as int, hi as int));
        }
        let (_code, c) = split_inline_comment(b, lo, hi);
        if let Some(x) = c {
            proof {
                lemma_comment_pos(b@, lo as int, hi as int, None);
                let p = comment_pos(b@, lo as int, hi as int, None);
                lemma_ascii_boundary(b@, p);
                lemma_rskip_ws(b@, p, hi as int);
                lemma_rskip_ws_boundary(b@, p, hi as int);
                assert(last_comment(b@, cw.take(k as int)) == Some((x.0 as int, x.1 as int)));
                assert(stmt_comment(b@, hv, cw) == Some((x.0 as int, x.1 as int)));
            }
            return Some(x);
        }
        k = k - 1;
    }
    proof {
        assert(cw.take(0) =~= Seq::<Win>::empty());
        assert(last_comment(b@, cw) == None::<Win>);
    }
    None
}

// ---------------------------------------------------------------------------
// Rendering
// ---------------------------------------------------------------------------

/// A code statement of an instance line.
pub open spec fn is_instance_code(s: StmtV) -> bool {
    s matches StmtV::Code { kind, .. } && kind == PhysicalKind::Instance
}

/// End of the run of instance statements that starts at `i`.
pub open spec fn run_end(ss: Seq<StmtV>, i: int) -> int
    decreases ss.len() - i,
{
    if 0 <= i < ss.len() && is_instance_code(ss[i]) {
        run_end(ss, i + 1)
    } else {
        i
    }
}

/// Widest token (in bytes) at column `idx` over the statements.
pub open spec fn width_at(toks: Seq<Seq<Seq<u8>>>, idx: int) -> int
    decreases toks.len(),
{
    if toks.len() == 0 {
        0
    } else {
        let w = width_at(toks.drop_last(), idx);
        let t = if 0 <= idx < toks.last().len() {
            toks.last()[idx].len() as int
        } else {
            0
        };
        if w >= t {
            w
        } else {
            t
        }
    }
}

/// Largest number of tokens of a statement.
pub open spec fn col_count(toks: Seq<Seq<Seq<u8>>>) -> int
    decreases toks.len(),
{
    if toks.len() == 0 {
        0
    } else {
        let c = col_count(toks.drop_last());
        if c >= toks.last().len() {
            c
        } else {
            toks.last().len() as int
        }
    }
}

/// Column widths of a block of statements.
pub open spec fn block_widths(toks: Seq<Seq<Seq<u8>>>) -> Seq<int> {
    Seq::new(col_count(toks) as nat, |i: int| width_at(toks, i))
}

/// Tokens and comment of a code statement (none for other statements).
pub open spec fn code_tokens(b: Seq<u8>, s: StmtV, case: KeywordCase) -> Seq<Seq<u8>> {
    match s {
        StmtV::Code { kind, head, conts } => stmt_tokens(b, kind, head, conts, case),
        _ => seq![],
    }
}

pub open spec fn code_comment(b: Seq<u8>, s: StmtV) -> Option<Seq<u8>> {
    match s {
        StmtV::Code { head, conts, .. } => comment_bytes(b, stmt_comment(b, head, conts)),
        _ => None,
    }
}

/// Lines of the first `n` statements of an aligned block.
pub open spec fn block_lines(
    b: Seq<u8>,
    blk: Seq<StmtV>,
    widths: Seq<int>,
    opts: FormatOptions,
    n: int,
) -> Seq<Seq<u8>>
    decreases n,
{
    if n <= 0 {
        seq![]
    } else {
        block_lines(b, blk, widths, opts, n - 1) + emit_spec(
            code_tokens(b, blk[n - 1], opts.keyword_case),
            code_comment(b, blk[n - 1]),
            Some(widths),
            opts.indent_width as int,
            opts.max_line_width as int,
        )
    }
}

/// A run of instance statements with their fields aligned in columns.
pub open spec fn render_block(b: Seq<u8>, blk: Seq<StmtV>, opts: FormatOptions) -> Seq<Seq<u8>> {
    let toks = blk.map_values(|s: StmtV| code_tokens(b, s, opts.keyword_case));
    block_lines(b, blk, block_widths(toks), opts, blk.len() as int)
}

/// One code statement on its own.
pub open spec fn render_code(b: Seq<u8>, s: StmtV, opts: FormatOptions) -> Seq<Seq<u8>> {
    emit_spec(
        code_tokens(b, s, opts.keyword_case),
        code_comment(b, s),
        None,
        opts.indent_width as int,
        opts.max_line_width as int,
    )
}

/// Output lines of the statements from `i` on.
pub open spec fn render_from(b: Seq<u8>, ss: Seq<StmtV>, i: int, opts: FormatOptions) -> Seq<Seq<u8>>
    decreases ss.len() - i,
{
    if i < 0 || i >= ss.len() {
        seq![]
    } else {
        match ss[i] {
            StmtV::Blank => seq![Seq::<u8>::empty()] + render_from(b, ss, i + 1, opts),
            StmtV::Comment(w) => seq![b.subrange(w.0, rskip_ws(b, w.0, w.1))] + render_from(
                b,
                ss,
                i + 1,
                opts,
            ),
            StmtV::Code { kind, .. } => if kind == PhysicalKind::Instance && opts.align_columns {
                let j = run_end(ss, i + 1);
                if i < j <= ss.len() {
                    render_block(b, ss.subrange(i, j), opts) + render_from(b, ss, j, opts)
                } else {
                    seq![]
                }
            } else {
                render_code(b, ss[i], opts) + render_from(b, ss, i + 1, opts)
            },
        }
    }
}

/// The lines joined by `nl`.
pub open spec fn join_lines(ls: Seq<Seq<u8>>, nl: Seq<u8>) -> Seq<u8>
    decreases ls.len(),
{
    if ls.len() == 0 {
        seq![]
    } else if ls.len() == 1 {
        ls[0]
    } else {
        join_lines(ls.drop_last(), nl) + nl + ls.last()
    }
}

/// `\r\n` starts at `i`.
pub open spec fn crlf_at(b: Seq<u8>, i: int) -> bool {
    0 <= i && i + 1 < b.len() && b[i] == 13u8 && b[i + 1] == 10u8
}

/// The buffer contains `\r\n`.
pub open spec fn has_crlf(b: Seq<u8>) -> bool {
    exists|i: int| #[trigger] crlf_at(b, i)
}

/// The formatted buffer: statements rendered line by line and joined with the
/// buffer's newline (`\r\n` if it occurs anywhere, else `\n`), with a final
/// newline when the input had one; the empty buffer stays empty.
pub open spec fn format_spec(b: Seq<u8>, opts: FormatOptions) -> Seq<u8> {
    if b.len() == 0 {
        seq![]
    } else {
        let nl = if has_crlf(b) {
            seq![13u8, 10u8]
        } else {
            seq![10u8]
        };
        let out = join_lines(render_from(b, group_lines(b, physical_lines(b)), 0, opts), nl);
        if b.last() == 10u8 {
            out + nl
        } else {
            out
        }
    }
}

pub proof fn lemma_run_end(ss: Seq<StmtV>, i: int)
    requires
        0 <= i <= ss.len(),
    ensures
        i <= run_end(ss, i) <= ss.len(),
        forall|k: int| i <= k < run_end(ss, i) ==> is_instance_code(#[trigger] ss[k]),
        run_end(ss, i) < ss.len() ==> !is_instance_code(ss[run_end(ss, i)]),
    decreases ss.len() - i,
{
    if i < ss.len() && is_instance_code(ss[i]) {
        lemma_run_end(ss, i + 1);
    }
}

/// A run of instance statements ends where a prefix ends when a statement
/// that is not an instance line follows the prefix.
proof fn lemma_run_end_prefix(a: Seq<StmtV>, ss: Seq<StmtV>, k: int)
    requires
        0 <= k <= a.len() < ss.len(),
        forall|x: int| 0 <= x < a.len() ==> ss[x] == a[x],
        !is_instance_code(ss[a.len() as int]),
    ensures
        run_end(ss, k) == run_end(a, k),
        run_end(a, k) <= a.len(),
    decreases a.len() - k,
{
    if k < a.len() {
        lemma_run_end_prefix(a, ss, k + 1);
    }
}

/// Rendering from `i` renders the prefix `a`, then what follows it, when a
/// statement that is not an instance line follows the prefix.
proof fn lemma_render_prefix(b: Seq<u8>, a: Seq<StmtV>, ss: Seq<StmtV>, i: int, opts: FormatOptions)
    requires
        0 <= i <= a.len() < ss.len(),
        forall|x: int| 0 <= x < a.len() ==> ss[x] == a[x],
        !is_instance_code(ss[a.len() as int]),
    ensures
        render_from(b, ss, i, opts) == render_from(b, a, i, opts) + render_from(b, ss, a.len() as int, opts),
    decreases a.len() - i,
{
    if i < a.len() {
        assert(ss[i] == a[i]);
        match ss[i] {
            StmtV::Code { kind, .. } => {
                if kind == PhysicalKind::Instance && opts.align_columns {
                    lemma_run_end_prefix(a, ss, i + 1);
                    lemma_run_end(a, i + 1);
                    let j = run_end(ss, i + 1);
                    assert(ss.subrange(i, j) =~= a.subrange(i, j));
                    lemma_render_prefix(b, a, ss, j, opts);
                    assert(render_from(b, ss, i, opts) == render_block(b, ss.subrange(i, j), opts)
                        + render_from(b, ss, j, opts));
                    assert(render_from(b, a, i, opts) == render_block(b, a.subrange(i, j), opts)
                        + render_from(b, a, j, opts));
                } else {
                    lemma_render_prefix(b, a, ss, i + 1, opts);
                }
            },
            _ => {
                lemma_render_prefix(b, a, ss, i + 1, opts);
            },
        }
    }
}

/// Runs of instance statements after a prefix are those of the rest.
proof fn lemma_run_end_shift(p: Seq<StmtV>, q: Seq<StmtV>, k: int)
    requires
        0 <= k <= q.len(),
    ensures
        run_end(p + q, p.len() as int + k) == p.len() + run_end(q, k),
    decreases q.len() - k,
{
    if k < q.len() {
        assert((p + q)[p.len() + k] == q[k]);
        lemma_run_end_shift(p, q, k + 1);
    }
}

/// Rendering after a prefix renders the rest alone.
proof fn lemma_render_shift(b: Seq<u8>, p: Seq<StmtV>, q: Seq<StmtV>, k: int, opts: FormatOptions)
    requires
        0 <= k <= q.len(),
    ensures
        render_from(b, p + q, p.len() as int + k, opts) == render_from(b, q, k, opts),
    decreases q.len() - k,
{
    if k < q.len() {
        let ss = p + q;
        let i = p.len() + k;
        assert(ss[i] == q[k]);
        match q[k] {
            StmtV::Code { kind, .. } => {
                if kind == PhysicalKind::Instance && opts.align_columns {
                    lemma_run_end_shift(p, q, k + 1);
                    lemma_run_end(q, k + 1);
                    let j = run_end(q, k + 1);
                    assert(ss.subrange(i, p.len() + j) =~= q.subrange(k, j));
                    lemma_render_shift(b, p, q, j, opts);
                } else {
                    lemma_render_shift(b, p, q, k + 1, opts);
                }
            },
            _ => {
                lemma_render_shift(b, p, q, k + 1, opts);
            },
        }
    }
}

/// A blank line, a comment, or a statement that is not an instance line
/// splits the rendering: the statements before it, it, and the statements
/// after it are rendered on their own, one after the other; only a run of
/// instance lines is laid out together.
pub proof fn law_render_splits(b: Seq<u8>, a: Seq<StmtV>, sep: StmtV, c: Seq<StmtV>, opts: FormatOptions)
    requires
        !is_instance_code(sep),
    ensures
        render_from(b, a + seq![sep] + c, 0, opts) == render_from(b, a, 0, opts) + render_from(
            b,
            seq![sep],
            0,
            opts,
        ) + render_from(b, c, 0, opts),
{
    let p = a + seq![sep];
    let ss = p + c;
    assert(ss[a.len() as int] == sep);
    assert forall|x: int| 0 <= x < a.len() implies ss[x] == a[x] by {
        assert(ss[x] == p[x]);
    }
    lemma_render_prefix(b, a, ss, 0, opts);
    lemma_render_shift(b, p, c, 0, opts);
    assert(render_from(b, seq![sep], 1, opts) == Seq::<Seq<u8>>::empty());
    assert(render_from(b, ss, a.len() as int, opts) == render_from(b, seq![sep], 0, opts) + render_from(
        b,
        ss,
        a.len() + 1 as int,
        opts,
    )) by {
        assert(seq![sep][0] == sep);
        match sep {
            StmtV::Blank => {},
            StmtV::Comment(w) => {},
            StmtV::Code { kind, .. } => {
                assert(kind != PhysicalKind::Instance);
            },
        }
    }
    assert(render_from(b, ss, p.len() as int, opts) == render_from(b, c, 0, opts));
}

fn stmt_ok_parts(b: &[u8], s: &Stmt) -> (r: bool)
    requires
        stmt_ok(b@, stmt_v(*s)),
    ensures
        r,
        s matches Stmt::Code { head, conts, .. } ==> (head matches Some(h) ==> win_ok(
            b@,
            (h.0 as int, h.1 as int),
        )) && forall|k: int| 0 <= k < conts@.len() ==> win_ok(b@, #[trigger] winv(conts@)[k]),
{
    match s {
        Stmt::Code { head, conts, .. } => {
            proof {
                assert forall|k: int| 0 <= k < conts@.len() implies win_ok(
                    b@,
                    #[trigger] winv(conts@)[k],
                ) by {
                    if let StmtV::Code { conts: cv, .. } = stmt_v(*s) {
                        assert(cv[k] == winv(conts@)[k]);
                    }
                }
            }
        },
        _ => {},
    }
    true
}

fn render_code_exec(b: &[u8], s: &Stmt, opts: &FormatOptions) -> (r: Vec<Vec<u8>>)
    requires
        valid_utf8(b@),
        b@.len() >= 1,
        stmt_ok(b@, stmt_v(*s)),
        s is Code,
    ensures
        vv(r@) == render_code(b@, stmt_v(*s), *opts),
        all_valid(vv(r@)),
{
    let _ = stmt_ok_parts(b, s);
    match s {
        Stmt::Code { kind, head, conts } => {
            let tokens = statement_tokens(b, *kind, *head, conts, opts.keyword_case);
            let c = statement_comment(b, *head, conts);
            match c {
                Some((lo, hi)) => {
                    proof {
                        lemma_window_valid(b@, lo as int, hi as int);
                    }
                    let cb = copy_window(b, lo, hi);
                    emit_wrapped_tokens(&tokens, Some(&cb), None, opts.indent_width, opts.max_line_width)
                },
                None => emit_wrapped_tokens(&tokens, None, None, opts.indent_width, opts.max_line_width),
            }
        },
        _ => Vec::new(),
    }
}

/// The token lists of a list of statements.
pub open spec fn vvv(x: Seq<Vec<Vec<u8>>>) -> Seq<Seq<Seq<u8>>> {
    x.map_values(|v: Vec<Vec<u8>>| vv(v@))
}

proof fn lemma_width_nonneg(toks: Seq<Seq<Seq<u8>>>, idx: int)
    ensures
        width_at(toks, idx) >= 0,
    decreases toks.len(),
{
    if toks.len() > 0 {
        lemma_width_nonneg(toks.drop_last(), idx);
    }
}

proof fn lemma_width_bound(toks: Seq<Seq<Seq<u8>>>, idx: int, n: int)
    requires
        forall|k: int| 0 <= k < toks.len() ==> short(#[trigger] toks[k], n),
        n >= 0,
    ensures
        width_at(toks, idx) <= n,
    decreases toks.len(),
{
    if toks.len() > 0 {
        assert forall|k: int| 0 <= k < toks.drop_last().len() implies short(
            #[trigger] toks.drop_last()[k],
            n,
        ) by {
            assert(toks.drop_last()[k] == toks[k]);
        }
        lemma_width_bound(toks.drop_last(), idx, n);
        if idx < toks.last().len() && idx >= 0 {
            assert(short(toks[toks.len() - 1], n));
            assert(toks.last()[idx].len() <= n);
        }
    }
}

fn append_lines(out: &mut Vec<Vec<u8>>, lines: Vec<Vec<u8>>)
    requires
        all_valid(vv(old(out)@)),
        all_valid(vv(lines@)),
    ensures
        vv(final(out)@) == vv(old(out)@) + vv(lines@),
        all_valid(vv(final(out)@)),
{
    let ghost o = vv(out@);
    let ghost l = vv(lines@);
    let mut lines = lines;
    out.append(&mut lines);
    proof {
        assert(vv(out@) =~= o + l);
        assert forall|i: int| 0 <= i < vv(out@).len() implies valid_utf8(#[trigger] vv(out@)[i]) by {
            if i < o.len() {
                assert(vv(out@)[i] == o[i]);
            } else {
                assert(vv(out@)[i] == l[i - o.len()]);
            }
        }
    }
}

fn render_block_exec(b: &[u8], stmts: &Vec<Stmt>, i: usize, j: usize, opts: &FormatOptions) -> (r:
    Vec<Vec<u8>>)
    requires
        valid_utf8(b@),
        1 <= b@.len() < usize::MAX,
        i <= j <= stmts@.len(),
        forall|k: int| i <= k < j ==> stmt_ok(b@, #[trigger] stmts_v(stmts@)[k]),
        forall|k: int| i <= k < j ==> (#[trigger] stmts@[k]) is Code,
        forall|k: int| i <= k < j ==> is_instance_code(#[trigger] stmts_v(stmts@)[k]),
    ensures
        vv(r@) == render_block(b@, stmts_v(stmts@).subrange(i as int, j as int), *opts),
        all_valid(vv(r@)),
{
    let ghost blk = stmts_v(stmts@).subrange(i as int, j as int);
    let ghost tv = blk.map_values(|s: StmtV| code_tokens(b@, s, opts.keyword_case));
    let mut toks: Vec<Vec<Vec<u8>>> = Vec::new();
    let mut comments: Vec<Option<(usize, usize)>> = Vec::new();
    let mut k = i;
    while k < j
        invariant
            i <= k <= j <= stmts@.len(),
            valid_utf8(b@),
            1 <= b@.len(),
            blk == stmts_v(stmts@).subrange(i as int, j as int),
            tv == blk.map_values(|s: StmtV| code_tokens(b@, s, opts.keyword_case)),
            forall|x: int| i <= x < j ==> stmt_ok(b@, #[trigger] stmts_v(stmts@)[x]),
            forall|x: int| i <= x < j ==> (#[trigger] stmts@[x]) is Code,
            forall|x: int| i <= x < j ==> is_instance_code(#[trigger] stmts_v(stmts@)[x]),
            vvv(toks@) == tv.take(k - i),
            comments@.len() == k - i,
            forall|x: int|
                0 <= x < k - i ==> match (
                    #[trigger] comments@[x],
                    code_comment(b@, blk[x]),
                ) {
                    (Some(c), Some(cb)) => win_ok(b@, (c.0 as int, c.1 as int)) && cb
                        == b@.subrange(c.0 as int, c.1 as int),
                    (None, None) => true,
                    _ => false,
                },
            forall|x: int| 0 <= x < toks@.len() ==> all_valid(#[trigger] vvv(toks@)[x]),
            forall|x: int| 0 <= x < toks@.len() ==> short(#[trigger] vvv(toks@)[x], b@.len() as int),
        decreases j - k,
    {
        let s = &stmts[k];
        proof {
            assert(stmts_v(stmts@)[k as int] == stmt_v(*s));
            assert(blk[k - i] == stmt_v(*s));
        }
        let _ = stmt_ok_parts(b, s);
        match s {
            Stmt::Code { kind, head, conts } => {
                let t = statement_tokens(b, *kind, *head, conts, opts.keyword_case);
                let c = statement_comment(b, *head, conts);
                let ghost before = vvv(toks@);
                toks.push(t);
                comments.push(c);
                proof {
                    assert(vvv(toks@) =~= before.push(vv(t@)));
                    assert(tv.take(k + 1 - i) =~= tv.take(k - i).push(tv[k - i]));
                    assert(tv[k - i] == code_tokens(b@, blk[k - i], opts.keyword_case));
                    assert forall|x: int| 0 <= x < toks@.len() implies all_valid(
                        #[trigger] vvv(toks@)[x],
                    ) && short(vvv(toks@)[x], b@.len() as int) by {
                        if x < before.len() {
                            assert(vvv(toks@)[x] == before[x]);
                        }
                    }
                    if let Some(cw) = c {
                        lemma_window_valid(b@, cw.0 as int, cw.1 as int);
                    }
                }
            },
            _ => {},
        }
        k = k + 1;
    }
    proof {
        assert(tv.take(j - i) =~= tv);
    }
    // Column count and widths.
    let mut count: usize = 0;
    let mut k: usize = 0;
    while k < toks.len()
        invariant
            k <= toks@.len(),
            count as int == col_count(vvv(toks@).take(k as int)),
        decreases toks@.len() - k,
    {
        proof {
            assert(vvv(toks@).take(k + 1).drop_last() =~= vvv(toks@).take(k as int));
            assert(vvv(toks@).take(k + 1).last() == vv(toks@[k as int]@));
        }
        if toks[k].len() > count {
            count = toks[k].len();
        }
        k = k + 1;
    }
    proof {
        assert(vvv(toks@).take(k as int) =~= vvv(toks@));
    }
    let mut widths: Vec<usize> = Vec::new();
    while widths.len() < count
        invariant
            widths@.len() <= count,
            forall|x: int| 0 <= x < widths@.len() ==> #[trigger] widths@[x] == 0,
        decreases count - widths@.len(),
    {
        widths.push(0);
    }
    let ghost tvv = vvv(toks@);
    let mut k: usize = 0;
    while k < toks.len()
        invariant
            k <= toks@.len(),
            tvv == vvv(toks@),
            count as int == col_count(tvv),
            widths@.len() == count,
            forall|x: int| 0 <= x < count ==> #[trigger] widths@[x] as int == width_at(tvv.take(k as int), x),
            forall|x: int| 0 <= x < toks@.len() ==> short(#[trigger] tvv[x], b@.len() as int),
            b@.len() < usize::MAX,
        decreases toks@.len() - k,
    {
        let row = &toks[k];
        proof {
            assert(tvv[k as int] == vv(row@));
            assert(tvv.take(k + 1).drop_last() =~= tvv.take(k as int));
            assert(tvv.take(k + 1).last() == tvv[k as int]);
            lemma_col_count_ge(tvv, k as int);
        }
        let mut c: usize = 0;
        while c < row.len()
            invariant
                c <= row@.len() <= count,
                k < toks@.len(),
                tvv == vvv(toks@),
                row == &toks@[k as int],
                tvv[k as int] == vv(row@),
                tvv.take(k + 1).drop_last() == tvv.take(k as int),
                tvv.take(k + 1).last() == tvv[k as int],
                widths@.len() == count,
                forall|x: int| 0 <= x < c ==> #[trigger] widths@[x] as int == width_at(tvv.take(k + 1), x),
                forall|x: int| c <= x < count ==> #[trigger] widths@[x] as int == width_at(tvv.take(k as int), x),
            decreases row@.len() - c,
        {
            let len = row[c].len();
            let cur = widths[c];
            if len > cur {
                widths.set(c, len);
            }
            proof {
                assert(vv(row@)[c as int] == row@[c as int]@);
            }
            c = c + 1;
        }
        proof {
            assert forall|x: int| 0 <= x < count implies #[trigger] widths@[x] as int == width_at(
                tvv.take(k + 1),
                x,
            ) by {
                if x >= row@.len() {
                    lemma_width_nonneg(tvv.take(k as int), x);
                }
            }
        }
        k = k + 1;
    }
    proof {
        assert(tvv.take(k as int) =~= tvv);
        assert forall|x: int| 0 <= x < widths@.len() implies #[trigger] widths@[x] < usize::MAX by {
            lemma_width_bound(tvv, x, b@.len() as int);
        }
        assert(widths@.map_values(|x: usize| x as int) =~= block_widths(tv));
    }
    let ghost wv = block_widths(tv);
    let mut out: Vec<Vec<u8>> = Vec::new();
    let mut k: usize = 0;
    while k < toks.len()
        invariant
            k <= toks@.len(),
            toks@.len() == comments@.len(),
            comments@.len() == blk.len(),
            vvv(toks@) == tv,
            tv == blk.map_values(|s: StmtV| code_tokens(b@, s, opts.keyword_case)),
            valid_utf8(b@),
            widths@.map_values(|x: usize| x as int) == wv,
            forall|x: int| 0 <= x < widths@.len() ==> #[trigger] widths@[x] < usize::MAX,
            forall|x: int| 0 <= x < toks@.len() ==> all_valid(#[trigger] vvv(toks@)[x]),
            forall|x: int|
                0 <= x < blk.len() ==> match (
                    #[trigger] comments@[x],
                    code_comment(b@, blk[x]),
                ) {
                    (Some(c), Some(cb)) => win_ok(b@, (c.0 as int, c.1 as int)) && cb
                        == b@.subrange(c.0 as int, c.1 as int),
                    (None, None) => true,
                    _ => false,
                },
            vv(out@) == block_lines(b@, blk, wv, *opts, k as int),
            all_valid(vv(out@)),
        decreases toks@.len() - k,
    {
        proof {
            assert(vvv(toks@)[k as int] == vv(toks@[k as int]@));
            assert(tv[k as int] == code_tokens(b@, blk[k as int], opts.keyword_case));
        }
        let lines = match comments[k] {
            Some((lo, hi)) => {
                proof {
                    lemma_window_valid(b@, lo as int, hi as int);
                }
                let cb = copy_window(b, lo, hi);
                emit_wrapped_tokens(&toks[k], Some(&cb), Some(&widths), opts.indent_width, opts.max_line_width)
            },
            None => emit_wrapped_tokens(&toks[k], None, Some(&widths), opts.indent_width, opts.max_line_width),
        };
        append_lines(&mut out, lines);
        k = k + 1;
    }
    out
}

pub proof fn lemma_col_count_ge(toks: Seq<Seq<Seq<u8>>>, k: int)
    requires
        0 <= k < toks.len(),
    ensures
        toks[k].len() <= col_count(toks),
    decreases toks.len(),
{
    if k < toks.len() - 1 {
        lemma_col_count_ge(toks.drop_last(), k);
        assert(toks.drop_last()[k] == toks[k]);
    }
}

fn is_instance_stmt(s: &Stmt) -> (r: bool)
    ensures
        r == is_instance_code(stmt_v(*s)),
        r ==> *s is Code,
{
    match s {
        Stmt::Code { kind, .. } => *kind == PhysicalKind::Instance,
        _ => false,
    }
}

fn render_statements(b: &[u8], stmts: &Vec<Stmt>, opts: &FormatOptions) -> (r: Vec<Vec<u8>>)
    requires
        valid_utf8(b@),
        1 <= b@.len() < usize::MAX,
        forall|k: int| 0 <= k < stmts@.len() ==> stmt_ok(b@, #[trigger] stmts_v(stmts@)[k]),
    ensures
        vv(r@) == render_from(b@, stmts_v(stmts@), 0, *opts),
        all_valid(vv(r@)),
{
    let ghost ss = stmts_v(stmts@);
    let mut out: Vec<Vec<u8>> = Vec::new();
    let mut i: usize = 0;
    proof {
        assert(vv(out@) + render_from(b@, ss, 0, *opts) =~= render_from(b@, ss, 0, *opts));
    }
    while i < stmts.len()
        invariant
            i <= stmts@.len(),
            ss == stmts_v(stmts@),
            valid_utf8(b@),
            1 <= b@.len() < usize::MAX,
            forall|k: int| 0 <= k < stmts@.len() ==> stmt_ok(b@, #[trigger] stmts_v(stmts@)[k]),
            vv(out@) + render_from(b@, ss, i as int, *opts) == render_from(b@, ss, 0, *opts),
            all_valid(vv(out@)),
        decreases stmts@.len() - i,
    {
        let ghost before = vv(out@);
        proof {
            assert(ss[i as int] == stmt_v(stmts@[i as int]));
            assert(stmt_ok(b@, ss[i as int]));
        }
        match &stmts[i] {
            Stmt::Blank => {
                let empty: Vec<u8> = Vec::new();
                proof {
                    lemma_ascii_valid(empty@);
                }
                out.push(empty);
                proof {
                    assert(vv(out@) =~= before + seq![Seq::<u8>::empty()]);
                }
                i = i + 1;
            },
            Stmt::Comment(lo, hi) => {
                let e = rskip_ws_exec(b, *lo, *hi);
                proof {
                    lemma_rskip_ws_boundary(b@, *lo as int, *hi as int);
                    lemma_window_valid(b@, *lo as int, e as int);
                }
                let line = copy_window(b, *lo, e);
                out.push(line);
                proof {
                    assert(vv(out@) =~= before + seq![line@]);
                }
                i = i + 1;
            },
            Stmt::Code { kind, .. } => {
                if *kind == PhysicalKind::Instance && opts.align_columns {
                    let mut j = i + 1;
                    while j < stmts.len() && is_instance_stmt(&stmts[j])
                        invariant
                            i < j <= stmts@.len(),
                            ss == stmts_v(stmts@),
                            run_end(ss, i + 1) == run_end(ss, j as int),
                            forall|x: int| i < x < j ==> (#[trigger] stmts@[x]) is Code,
                            forall|x: int| i <= x < j ==> is_instance_code(#[trigger] ss[x]),
                        decreases stmts@.len() - j,
                    {
                        proof {
                            assert(ss[j as int] == stmt_v(stmts@[j as int]));
                        }
                        j = j + 1;
                    }
                    proof {
                        lemma_run_end(ss, j as int);
                        if j < stmts.len() {
                            assert(ss[j as int] == stmt_v(stmts@[j as int]));
                        }
                        assert(run_end(ss, j as int) == j);
                    }
                    let lines = render_block_exec(b, stmts, i, j, opts);
                    append_lines(&mut out, lines);
                    i = j;
                } else {
                    let lines = render_code_exec(b, &stmts[i], opts);
                    append_lines(&mut out, lines);
                    i = i + 1;
                }
            },
        }
    }
    proof {
        assert(vv(out@) + Seq::<Seq<u8>>::empty() =~= vv(out@));
    }
    out
}

/// Format an entire netlist buffer.
pub fn format_source(source: &str, options: &FormatOptions) -> (r: String)
    requires
        sb(source@).len() < usize::MAX,
    ensures
        sb(r@) == format_spec(sb(source@), *options),
{
    let b = source.as_bytes();
    proof {
        lemma_str_valid(source);
    }
    if b.len() == 0 {
        let r = String::new();
        proof {
            assert(r@ =~= Seq::<char>::empty());
            assert(sb(r@) =~= Seq::<u8>::empty());
        }
        return r;
    }
    let mut crlf = false;
    let mut k: usize = 0;
    while b.len() - k > 1
        invariant
            k < b@.len(),
            crlf == exists|x: int| 0 <= x < k && #[trigger] crlf_at(b@, x),
        decreases b@.len() - k,
    {
        if b[k] == 13 && b[k + 1] == 10 {
            crlf = true;
            assert(crlf_at(b@, k as int));
        }
        proof {
            assert forall|x: int| 0 <= x < k + 1 && #[trigger] crlf_at(b@, x) implies (0 <= x < k
                && crlf_at(b@, x)) || x == k by {}
        }
        k = k + 1;
    }
    proof {
        assert forall|x: int| #[trigger] crlf_at(b@, x) implies 0 <= x < k by {}
    }
    let nl: Vec<u8> = if crlf {
        let mut v: Vec<u8> = Vec::new();
        v.push(13);
        v.push(10);
        v
    } else {
        let mut v: Vec<u8> = Vec::new();
        v.push(10);
        v
    };
    let ghost nlv = if has_crlf(b@) {
        seq![13u8, 10u8]
    } else {
        seq![10u8]
    };
    proof {
        assert(nl@ =~= nlv);
        lemma_ascii_valid(nl@);
    }
    let lines = physical_lines_exec(b);
    let stmts = group_statements(b, &lines);
    let rendered = render_statements(b, &stmts, options);
    let ghost rv = vv(rendered@);
    let mut out: Vec<u8> = Vec::new();
    let mut i: usize = 0;
    proof {
        lemma_ascii_valid(out@);
    }
    while i < rendered.len()
        invariant
            i <= rendered@.len(),
            rv == vv(rendered@),
            all_valid(rv),
            nl@ == nlv,
            valid_utf8(nl@),
            out@ == join_lines(rv.take(i as int), nlv),
            valid_utf8(out@),
        decreases rendered@.len() - i,
    {
        proof {
            assert(rv.take(i + 1).drop_last() =~= rv.take(i as int));
            assert(rv.take(i + 1).last() == rv[i as int]);
            assert(rv[i as int] == rendered@[i as int]@);
        }
        let ghost o = out@;
        if i > 0 {
            push_all(&mut out, nl.as_slice());
            proof {
                valid_utf8_concat(o, nl@);
            }
        }
        let ghost o2 = out@;
        push_all(&mut out, rendered[i].as_slice());
        proof {
            valid_utf8_concat(o2, rv[i as int]);
            if i == 0 {
                assert(rv.take(1) =~= seq![rv[0]]);
                assert(out@ =~= rv[0]);
            }
        }
        i = i + 1;
    }
    proof {
        assert(rv.take(i as int) =~= rv);
    }
    if b[b.len() - 1] == 10 {
        let ghost o = out@;
        push_all(&mut out, nl.as_slice());
        proof {
            valid_utf8_concat(o, nl@);
        }
    }
    string_from_utf8(out)
}

/// `a` can be read off `c` in order, skipping lines of `c`.
pub open spec fn in_order(a: Seq<Seq<u8>>, c: Seq<Seq<u8>>) -> bool
    decreases c.len(),
{
    if a.len() == 0 {
        true
    } else if c.len() == 0 {
        false
    } else if a[0] == c[0] {
        in_order(a.drop_first(), c.drop_first())
    } else {
        in_order(a, c.drop_first())
    }
}

/// The blank lines (as empty lines) and full-line comments (trimmed at the
/// end) among the statements from `i` on.
pub open spec fn kept_lines(b: Seq<u8>, ss: Seq<StmtV>, i: int) -> Seq<Seq<u8>>
    decreases ss.len() - i,
{
    if i < 0 || i >= ss.len() {
        seq![]
    } else {
        match ss[i] {
            StmtV::Blank => seq![Seq::<u8>::empty()] + kept_lines(b, ss, i + 1),
            StmtV::Comment(w) => seq![b.subrange(w.0, rskip_ws(b, w.0, w.1))] + kept_lines(
                b,
                ss,
                i + 1,
            ),
            StmtV::Code { .. } => kept_lines(b, ss, i + 1),
        }
    }
}

proof fn lemma_in_order_tail(a: Seq<Seq<u8>>, c: Seq<Seq<u8>>)
    requires
        a.len() > 0,
        in_order(a, c),
    ensures
        in_order(a.drop_first(), c),
    decreases c.len(), 1int,
{
    if c.len() > 0 {
        if a[0] != c[0] {
            lemma_in_order_tail(a, c.drop_first());
        }
        lemma_in_order_skip(a.drop_first(), c);
    }
}

proof fn lemma_in_order_skip(x: Seq<Seq<u8>>, c: Seq<Seq<u8>>)
    requires
        c.len() > 0,
        in_order(x, c.drop_first()),
    ensures
        in_order(x, c),
    decreases c.len(), 0int,
{
    if x.len() > 0 && x[0] == c[0] {
        lemma_in_order_tail(x, c.drop_first());
    }
}

proof fn lemma_in_order_prefix(a: Seq<Seq<u8>>, c: Seq<Seq<u8>>, p: Seq<Seq<u8>>)
    requires
        in_order(a, c),
    ensures
        in_order(a, p + c),
    decreases p.len(),
{
    if p.len() > 0 {
        lemma_in_order_prefix(a, c, p.drop_first());
        assert((p + c).drop_first() =~= p.drop_first() + c);
        lemma_in_order_skip(a, p + c);
    } else {
        assert(p + c =~= c);
    }
}

proof fn lemma_kept_skips_code(b: Seq<u8>, ss: Seq<StmtV>, i: int, j: int)
    requires
        0 <= i <= j <= ss.len(),
        forall|k: int| i <= k < j ==> is_instance_code(#[trigger] ss[k]),
    ensures
        kept_lines(b, ss, i) == kept_lines(b, ss, j),
    decreases j - i,
{
    if i < j {
        assert(is_instance_code(ss[i]));
        lemma_kept_skips_code(b, ss, i + 1, j);
    }
}

proof fn lemma_kept_in_render(b: Seq<u8>, ss: Seq<StmtV>, i: int, opts: FormatOptions)
    requires
        0 <= i <= ss.len(),
    ensures
        in_order(kept_lines(b, ss, i), render_from(b, ss, i, opts)),
    decreases ss.len() - i,
{
    if i < ss.len() {
        match ss[i] {
            StmtV::Blank => {
                lemma_kept_in_render(b, ss, i + 1, opts);
                let rest = render_from(b, ss, i + 1, opts);
                let all = seq![Seq::<u8>::empty()] + rest;
                assert(all.drop_first() =~= rest);
                assert(kept_lines(b, ss, i).drop_first() =~= kept_lines(b, ss, i + 1));
            },
            StmtV::Comment(w) => {
                lemma_kept_in_render(b, ss, i + 1, opts);
                let rest = render_from(b, ss, i + 1, opts);
                let all = seq![b.subrange(w.0, rskip_ws(b, w.0, w.1))] + rest;
                assert(all.drop_first() =~= rest);
                assert(kept_lines(b, ss, i).drop_first() =~= kept_lines(b, ss, i + 1));
            },
            StmtV::Code { kind, .. } => {
                if kind == PhysicalKind::Instance && opts.align_columns {
                    let j = run_end(ss, i + 1);
                    lemma_run_end(ss, i + 1);
                    lemma_kept_skips_code(b, ss, i, j);
                    lemma_kept_in_render(b, ss, j, opts);
                    lemma_in_order_prefix(
                        kept_lines(b, ss, j),
                        render_from(b, ss, j, opts),
                        render_block(b, ss.subrange(i, j), opts),
                    );
                } else {
                    lemma_kept_in_render(b, ss, i + 1, opts);
                    lemma_in_order_prefix(
                        kept_lines(b, ss, i + 1),
                        render_from(b, ss, i + 1, opts),
                        render_code(b, ss[i], opts),
                    );
                }
            },
        }
    }
}

/// Formatting never drops or reorders blank lines and full-line comments:
/// each blank line of the input is an empty output line, each full-line
/// comment is an output line (trimmed at its end), in the input's order,
/// among the lines that the output is made of.
pub proof fn law_format_keeps_comments(b: Seq<u8>, opts: FormatOptions)
    ensures
        in_order(
            kept_lines(b, group_lines(b, physical_lines(b)), 0),
            render_from(b, group_lines(b, physical_lines(b)), 0, opts),
        ),
        b.len() > 0 ==> format_spec(b, opts) == join_lines(
            render_from(b, group_lines(b, physical_lines(b)), 0, opts),
            if has_crlf(b) {
                seq![13u8, 10u8]
            } else {
                seq![10u8]
            },
        ) + if b.last() == 10u8 {
            if has_crlf(b) {
                seq![13u8, 10u8]
            } else {
                seq![10u8]
            }
        } else {
            Seq::<u8>::empty()
        },
{
    lemma_kept_in_render(b, group_lines(b, physical_lines(b)), 0, opts);
    if b.len() > 0 && b.last() != 10u8 {
        let nl = if has_crlf(b) {
            seq![13u8, 10u8]
        } else {
            seq![10u8]
        };
        let out = join_lines(render_from(b, group_lines(b, physical_lines(b)), 0, opts), nl);
        assert(out + Seq::<u8>::empty() =~= out);
    }
}

} // verus!
