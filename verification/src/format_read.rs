//! What grouping makes of netlist text: every statement's words, comment
//! and kind are ones the formatter writes back faithfully.
use vstd::prelude::*;

use crate::fmt_tokens::{comment_pos, is_quote, lemma_comment_pos, qtokens, qtokens_from, split_comment_spec};
use crate::format::{join_dot, join_lines, crlf_at, has_crlf, format_spec, render_from, FormatOptions, case_word, code_tokens, cont_tokens, last_comment, stmt_comment, data_value_at, group_lines, group_step, payload, physical_kind, physical_lines, segments, without_cr, StmtV, tok_bytes, tokenize_directive_spec, tokenize_spec, KeywordCase, PhysicalKind};
use crate::format_idem::{off, windows_hold, line_windows, gfold, lemma_group_prefix, lemma_gfold_lines, lemma_segments_of_join, lemma_line_windows_bytes, lemma_render_contents, c_groups, c_render, c_run_end, c_inst, clean_line, contents, contents_ok, group_ok, lead, lemma_c_groups, lemma_emit_spec, lemma_spaced_bytes, newline, widths_fit, with_comment, words_part, written_line, flat, content_of, content_ok, directive_word, kept_comment, Content, lemma_kind_local, lemma_qopen_quote, lemma_qopen_shift, lemma_skip_local, lemma_ws_len_ascii, lemma_ws_len_back_local, lemma_ws_len_local, lemma_ws_len_shrink, qopen, word, words, oword, owords, lemma_word_ends, lemma_oword_ends};
use crate::text::{is_ascii_ws, is_digit, is_ws2, is_ws3, lemma_rskip_ws, lemma_skip_ws, lower_byte, lower_seq, rskip_ws, skip_ws, trim_win, upper_byte, upper_seq, ws_len, ws_len_back};

verus! {

/// `[a, z)` lies in `b` and holds no newline.
pub open spec fn nl_free(b: Seq<u8>, a: int, z: int) -> bool {
    &&& 0 <= a <= z <= b.len()
    &&& forall|k: int| a <= k < z ==> #[trigger] b[k] != 10u8
}

/// A byte that can start a whitespace character of more than one byte.
pub open spec fn ws_lead(c: u8) -> bool {
    c == 0xC2u8 || c == 0xE1u8 || c == 0xE2u8 || c == 0xE3u8
}

/// The whitespace skipped from `i` to `s`: ASCII whitespace and the bytes
/// of longer whitespace characters, each of which starts a whole one.
pub open spec fn ws_region(b: Seq<u8>, i: int, s: int, hi: int) -> bool {
    forall|m: int|
        i <= m < s ==> {
            &&& (is_ascii_ws(#[trigger] b[m]) || b[m] >= 128u8)
            &&& !is_quote(b[m])
            &&& b[m] != 59u8
            &&& ws_lead(b[m]) ==> ws_len(b, m, hi) >= 2 && m + ws_len(b, m, hi) <= s
        }
}

/// The bytes of a whitespace character: the first is ASCII whitespace or a
/// lead byte, the others are neither.
pub proof fn lemma_ws_bytes(b: Seq<u8>, i: int, hi: int)
    requires
        0 <= i < hi <= b.len(),
        ws_len(b, i, hi) > 0,
    ensures
        i + ws_len(b, i, hi) <= hi,
        is_ascii_ws(b[i]) || ws_lead(b[i]),
        ws_len(b, i, hi) == 1 <==> is_ascii_ws(b[i]),
        forall|k: int| i < k < i + ws_len(b, i, hi) ==> #[trigger] b[k] >= 128u8 && !ws_lead(b[k]),
{
}

/// Skipping whitespace passes over a whitespace region.
pub proof fn lemma_skip_region(b: Seq<u8>, i: int, hi: int)
    requires
        0 <= i <= hi <= b.len(),
    ensures
        ws_region(b, i, skip_ws(b, i, hi), hi),
    decreases hi - i,
{
    lemma_skip_ws(b, i, hi);
    let s = skip_ws(b, i, hi);
    if i < hi && ws_len(b, i, hi) > 0 {
        let l = ws_len(b, i, hi);
        lemma_ws_bytes(b, i, hi);
        lemma_skip_region(b, i + l, hi);
        lemma_skip_ws(b, i + l, hi);
        assert forall|m: int| i <= m < s implies {
            &&& (is_ascii_ws(#[trigger] b[m]) || b[m] >= 128u8)
            &&& !is_quote(b[m])
            &&& b[m] != 59u8
            &&& ws_lead(b[m]) ==> ws_len(b, m, hi) >= 2 && m + ws_len(b, m, hi) <= s
        } by {
            if m >= i + l {
            } else if m > i {
                assert(b[m] >= 128u8 && !ws_lead(b[m]));
            }
        }
    }
}

/// Bytes that are neither quotes nor `;` hold no comment.
pub proof fn lemma_comment_skip(b: Seq<u8>, i: int, j: int, hi: int)
    requires
        0 <= i <= j <= hi <= b.len(),
        forall|k: int| i <= k < j ==> !is_quote(#[trigger] b[k]) && b[k] != 59u8,
    ensures
        comment_pos(b, i, hi, None) == comment_pos(b, j, hi, None),
    decreases j - i,
{
    if i < j {
        assert(!is_quote(b[i]) && b[i] != 59u8);
        lemma_comment_skip(b, i + 1, j, hi);
    }
}

/// Reading up to a point before the comment finds no comment.
pub proof fn lemma_comment_prefix(b: Seq<u8>, i: int, m: int, hi: int, q: Option<u8>)
    requires
        0 <= i <= m <= hi <= b.len(),
        m <= comment_pos(b, i, hi, q),
    ensures
        comment_pos(b, i, m, q) == m,
    decreases m - i,
{
    if i < m {
        match q {
            Some(c) => {
                lemma_comment_prefix(b, i + 1, m, hi, if b[i] == c {
                    None
                } else {
                    q
                });
            },
            None => {
                if is_quote(b[i]) {
                    lemma_comment_prefix(b, i + 1, m, hi, Some(b[i]));
                } else {
                    lemma_comment_prefix(b, i + 1, m, hi, None);
                }
            },
        }
    }
}

/// Skipping whitespace stops at the same place in a shorter window that
/// still holds that place.
pub proof fn lemma_skip_prefix(b: Seq<u8>, i: int, m: int, hi: int)
    requires
        0 <= i <= m <= hi <= b.len(),
        skip_ws(b, i, hi) < m,
    ensures
        skip_ws(b, i, m) == skip_ws(b, i, hi),
    decreases hi - i,
{
    lemma_skip_ws(b, i, hi);
    if i < hi && ws_len(b, i, hi) > 0 {
        let l = ws_len(b, i, hi);
        lemma_skip_ws(b, i + l, hi);
        assert(i + l <= skip_ws(b, i, hi));
        assert(ws_len(b, i, m) == l);
        lemma_skip_prefix(b, i + l, m, hi);
    } else {
        assert(skip_ws(b, i, hi) == i);
        assert(ws_len(b, i, m) == 0);
    }
}

/// Cutting whitespace off the end stops after an ASCII byte that is not
/// whitespace.
pub proof fn lemma_rskip_stop(b: Seq<u8>, lo: int, j: int, t: int)
    requires
        0 <= lo <= t < j <= b.len(),
        b[t] < 128u8,
        !is_ascii_ws(b[t]),
    ensures
        rskip_ws(b, lo, j) > t,
    decreases j - lo,
{
    if j > lo && ws_len_back(b, lo, j) > 0 {
        let l = ws_len_back(b, lo, j);
        assert(t < j - l) by {
            if t >= j - l {
                if l == 2 {
                    assert(is_ws2(b[j - 2], b[j - 1]));
                } else if l == 3 {
                    assert(is_ws3(b[j - 3], b[j - 2], b[j - 1]));
                }
            }
        }
        lemma_rskip_stop(b, lo, j - l, t);
    }
}

/// Cutting whitespace off the end stops after the first character that is
/// not whitespace, past the whitespace before it.
pub proof fn lemma_rskip_stop_region(b: Seq<u8>, lo: int, j: int, t: int, hi: int)
    requires
        0 <= lo <= t < j <= hi <= b.len(),
        ws_len(b, t, hi) == 0,
        ws_region(b, lo, t, hi),
    ensures
        rskip_ws(b, lo, j) > t,
    decreases j - lo,
{
    if j > lo && ws_len_back(b, lo, j) > 0 {
        let l = ws_len_back(b, lo, j);
        assert(t < j - l) by {
            if t >= j - l {
                if l == 1 {
                    assert(t == j - 1);
                    assert(is_ascii_ws(b[t]));
                } else if l == 2 {
                    assert(is_ws2(b[j - 2], b[j - 1]));
                    if t == j - 2 {
                        assert(ws_len(b, t, hi) == 2);
                    } else {
                        assert(ws_lead(b[j - 2]));
                    }
                } else {
                    assert(is_ws3(b[j - 3], b[j - 2], b[j - 1]));
                    if t == j - 3 {
                        assert(ws_len(b, t, hi) == 3);
                    } else {
                        assert(ws_lead(b[j - 3]));
                        assert(ws_len(b, j - 3, hi) == 3);
                    }
                }
            }
        }
        lemma_rskip_stop_region(b, lo, j - l, t, hi);
    }
}

/// Where cutting whitespace off the end stops short of the end, a
/// whitespace character starts.
pub proof fn lemma_rskip_first(b: Seq<u8>, lo: int, j: int)
    requires
        0 <= lo <= j <= b.len(),
    ensures
        rskip_ws(b, lo, j) < j ==> is_ascii_ws(b[rskip_ws(b, lo, j)]) || b[rskip_ws(b, lo, j)] >= 128u8,
    decreases j - lo,
{
    if j > lo && ws_len_back(b, lo, j) > 0 {
        let l = ws_len_back(b, lo, j);
        lemma_rskip_first(b, lo, j - l);
    }
}

/// Whitespace that does not end at `j` in a window does not in a shorter
/// one.
pub proof fn lemma_ws_back_shrink(b: Seq<u8>, lo: int, m: int, j: int)
    requires
        0 <= lo <= m < j <= b.len(),
        ws_len_back(b, lo, j) == 0,
    ensures
        ws_len_back(b, m, j) == 0,
{
}

/// A token as read from a line: non-empty text of one line, with
/// whitespace and `;` only inside quotes; its last quote may stay open.
pub open spec fn token_read(t: Seq<u8>) -> bool {
    &&& t.len() > 0
    &&& forall|i: int| 0 <= i < t.len() ==> #[trigger] t[i] != 10u8
    &&& forall|i: int|
        0 <= i < t.len() && (#[trigger] qopen(t, i)) is None ==> ws_len(t, i, t.len() as int) == 0 && t[i]
            != 59u8
}

/// Equal prefixes leave the same quote open.
pub proof fn lemma_qopen_prefix(t: Seq<u8>, u: Seq<u8>, k: int)
    requires
        0 <= k <= t.len(),
        k <= u.len(),
        forall|j: int| 0 <= j < k ==> t[j] == u[j],
    ensures
        qopen(t, k) == qopen(u, k),
    decreases k,
{
    if k > 0 {
        lemma_qopen_prefix(t, u, k - 1);
        assert(t[k - 1] == u[k - 1]);
    }
}

/// The bytes `[s, i)` of the window ending at `hi` read as the start of a
/// token, with `q` left open.
pub open spec fn token_start(b: Seq<u8>, s: int, i: int, q: Option<u8>, hi: int) -> bool {
    &&& 0 <= s < i <= hi <= b.len()
    &&& qopen(b.subrange(s, i), i - s) == q
    &&& forall|k: int| s <= k < i ==> #[trigger] b[k] != 10u8
    &&& forall|k: int|
        0 <= k < i - s && (#[trigger] qopen(b.subrange(s, i), k)) is None ==> ws_len(b, s + k, hi) == 0 && b[s
            + k] != 59u8
}

/// A token start one byte further on.
pub proof fn lemma_token_step(b: Seq<u8>, s: int, i: int, q: Option<u8>, hi: int)
    requires
        (s < i && token_start(b, s, i, q, hi)) || (s == i && q is None && 0 <= s),
        i < hi <= b.len(),
        b[i] != 10u8,
        q is None ==> ws_len(b, i, hi) == 0 && b[i] != 59u8,
    ensures
        token_start(
            b,
            s,
            i + 1,
            match q {
                Some(c) => if b[i] == c {
                    None
                } else {
                    q
                },
                None => if is_quote(b[i]) {
                    Some(b[i])
                } else {
                    None
                },
            },
            hi,
        ),
{
    let t = b.subrange(s, i + 1);
    let u = b.subrange(s, i);
    assert forall|k: int| 0 <= k <= i - s implies qopen(t, k) == qopen(u, k) by {
        lemma_qopen_prefix(t, u, k);
    }
    if s == i {
        assert(qopen(u, 0) is None);
    }
    assert(t[i - s] == b[i]);
    assert forall|k: int| 0 <= k < i + 1 - s && (#[trigger] qopen(t, k)) is None implies ws_len(b, s + k, hi) == 0
        && b[s + k] != 59u8 by {
        if k < i - s {
            assert(qopen(u, k) is None);
        }
    }
}

/// A token start that reaches the token's end is a token as read.
pub proof fn lemma_token_read(b: Seq<u8>, s: int, e: int, q: Option<u8>, hi: int)
    requires
        token_start(b, s, e, q, hi),
    ensures
        token_read(b.subrange(s, e)),
        qopen(b.subrange(s, e), e - s) == q,
{
    let t = b.subrange(s, e);
    assert forall|i: int| 0 <= i < t.len() implies #[trigger] t[i] != 10u8 by {
        assert(t[i] == b[s + i]);
    }
    assert forall|i: int| 0 <= i < t.len() && (#[trigger] qopen(t, i)) is None implies ws_len(t, i, t.len() as int) == 0
        && t[i] != 59u8 by {
        assert(t[i] == b[s + i]);
        lemma_ws_len_shrink(b, s + i, e, hi);
        lemma_ws_len_local(b, s, e, t, i);
    }
}

/// The tokens of a line without comment are tokens as read: whitespace and
/// `;` stand in them only inside quotes.
pub proof fn lemma_qtokens_q(b: Seq<u8>, i: int, hi: int, cur: Option<int>, q: Option<u8>)
    requires
        0 <= i <= hi <= b.len(),
        forall|k: int| i <= k < hi ==> #[trigger] b[k] != 10u8,
        comment_pos(b, i, hi, q) == hi,
        cur is None ==> q is None,
        cur matches Some(s) ==> token_start(b, s, i, q, hi),
    ensures
        ({
            let ts = qtokens_from(b, i, hi, cur, q);
            let lo = match cur {
                Some(s) => s,
                None => i,
            };
            &&& forall|k: int|
                0 <= k < ts.len() ==> lo <= (#[trigger] ts[k]).0 < ts[k].1 <= hi && token_read(
                    b.subrange(ts[k].0, ts[k].1),
                ) && (ts[k].1 < hi ==> ws_len(b, ts[k].1, hi) > 0 && qopen(
                    b.subrange(ts[k].0, ts[k].1),
                    ts[k].1 - ts[k].0,
                ) is None)
            &&& (ts.len() > 0 <==> (cur is Some || skip_ws(b, i, hi) < hi))
            &&& ts.len() > 0 ==> ts[0].0 == match cur {
                Some(s) => s,
                None => skip_ws(b, i, hi),
            }
        }),
    decreases hi - i,
{
    let ts = qtokens_from(b, i, hi, cur, q);
    if i >= hi {
        if let Some(s) = cur {
            lemma_token_read(b, s, hi, q, hi);
        }
    } else {
        match q {
            Some(c) => {
                let q2 = if b[i] == c {
                    None
                } else {
                    q
                };
                let s = cur->0;
                lemma_token_step(b, s, i, q, hi);
                assert(ts == qtokens_from(b, i + 1, hi, cur, q2));
                lemma_qtokens_q(b, i + 1, hi, cur, q2);
            },
            None => {
                if ws_len(b, i, hi) > 0 {
                    let l = ws_len(b, i, hi);
                    lemma_ws_bytes(b, i, hi);
                    let rest = qtokens_from(b, i + l, hi, None, None);
                    lemma_comment_skip(b, i, i + l, hi);
                    lemma_qtokens_q(b, i + l, hi, None, None);
                    assert(skip_ws(b, i, hi) == skip_ws(b, i + l, hi));
                    match cur {
                        Some(s) => {
                            lemma_token_read(b, s, i, q, hi);
                            assert(ts == seq![(s, i)] + rest);
                            assert forall|k: int| 0 <= k < ts.len() implies s <= (#[trigger] ts[k]).0 < ts[k].1 <= hi
                                && token_read(b.subrange(ts[k].0, ts[k].1)) && (ts[k].1 < hi ==> ws_len(b, ts[k].1, hi)
                                > 0 && qopen(b.subrange(ts[k].0, ts[k].1), ts[k].1 - ts[k].0) is None) by {
                                if k > 0 {
                                    assert(ts[k] == rest[k - 1]);
                                }
                            }
                        },
                        None => {
                            assert(ts == rest);
                        },
                    }
                } else {
                    assert(b[i] != 59u8) by {
                        if b[i] == 59u8 {
                            assert(comment_pos(b, i, hi, None) == i);
                        }
                    }
                    let s = match cur {
                        Some(s) => s,
                        None => i,
                    };
                    let q2 = if is_quote(b[i]) {
                        Some(b[i])
                    } else {
                        None
                    };
                    lemma_token_step(b, s, i, q, hi);
                    assert(ts == qtokens_from(b, i + 1, hi, Some(s), q2));
                    assert(comment_pos(b, i, hi, None) == comment_pos(b, i + 1, hi, q2));
                    lemma_qtokens_q(b, i + 1, hi, Some(s), q2);
                }
            },
        }
    }
}

/// The tokens of a line's code are tokens as read.
pub proof fn lemma_tok_read(b: Seq<u8>, lo: int, hi: int)
    requires
        0 <= lo <= hi <= b.len(),
        forall|k: int| lo <= k < hi ==> #[trigger] b[k] != 10u8,
        comment_pos(b, lo, hi, None) == hi,
    ensures
        forall|i: int|
            0 <= i < tok_bytes(b, qtokens(b, lo, hi)).len() ==> token_read(
                #[trigger] tok_bytes(b, qtokens(b, lo, hi))[i],
            ),
{
    lemma_qtokens_q(b, lo, hi, None, None);
    let ts = qtokens(b, lo, hi);
    let x = tok_bytes(b, ts);
    assert forall|i: int| 0 <= i < x.len() implies token_read(#[trigger] x[i]) by {
        assert(x[i] == b.subrange(ts[i].0, ts[i].1));
    }
}

/// The tokens of a trimmed window of code are tokens as read: each ends in
/// a byte that is not whitespace (a token that leaves a quote open runs to
/// the end of the window).
pub proof fn lemma_tok_oword(b: Seq<u8>, lo: int, hi: int)
    requires
        0 <= lo <= hi <= b.len(),
        forall|k: int| lo <= k < hi ==> #[trigger] b[k] != 10u8,
        comment_pos(b, lo, hi, None) == hi,
        lo < hi ==> ws_len_back(b, lo, hi) == 0,
    ensures
        owords(tok_bytes(b, qtokens(b, lo, hi))),
{
    lemma_qtokens_q(b, lo, hi, None, None);
    let ts = qtokens(b, lo, hi);
    let x = tok_bytes(b, ts);
    assert forall|i: int| 0 <= i < x.len() implies oword(#[trigger] x[i]) by {
        let t = b.subrange(ts[i].0, ts[i].1);
        assert(x[i] == t);
        assert(token_read(t));
        if qopen(t, t.len() as int) is None {
            lemma_word_ends(t);
        } else {
            assert(ts[i].1 == hi);
            lemma_ws_len_back_local(b, ts[i].0, hi, t);
            assert(ws_len_back(b, ts[i].0, hi) == 0);
        }
    }
}

/// Recasing keeps a token's newlines, `;`, whitespace and quotes, and
/// recasing twice is recasing once.
pub proof fn lemma_case_word(case: KeywordCase, w: Seq<u8>)
    ensures
        case_word(case, w).len() == w.len(),
        forall|k: int|
            0 <= k < w.len() ==> (#[trigger] case_word(case, w)[k] == 10u8) == (w[k] == 10u8) && (case_word(case, w)[k]
                == 59u8) == (w[k] == 59u8) && ws_len(case_word(case, w), k, w.len() as int) == ws_len(w, k, w.len() as int),
        forall|k: int| 0 <= k <= w.len() ==> #[trigger] qopen(case_word(case, w), k) == qopen(w, k),
        case_word(case, case_word(case, w)) == case_word(case, w),
{
    let r = case_word(case, w);
    let n = w.len() as int;
    match case {
        KeywordCase::Upper => {
            assert forall|k: int| 0 <= k < n implies (#[trigger] r[k] == 10u8) == (w[k] == 10u8) && (r[k] == 59u8) == (w[k]
                == 59u8) && ws_len(r, k, n) == ws_len(w, k, n) by {
                assert(r[k] == upper_byte(w[k]));
                if k + 1 < n {
                    assert(r[k + 1] == upper_byte(w[k + 1]));
                }
                if k + 2 < n {
                    assert(r[k + 2] == upper_byte(w[k + 2]));
                }
            }
            assert(upper_seq(r) =~= r) by {
                assert forall|k: int| 0 <= k < r.len() implies #[trigger] upper_seq(r)[k] == r[k] by {
                    assert(r[k] == upper_byte(w[k]));
                }
            }
        },
        KeywordCase::Lower => {
            assert forall|k: int| 0 <= k < n implies (#[trigger] r[k] == 10u8) == (w[k] == 10u8) && (r[k] == 59u8) == (w[k]
                == 59u8) && ws_len(r, k, n) == ws_len(w, k, n) by {
                assert(r[k] == lower_byte(w[k]));
                if k + 1 < n {
                    assert(r[k + 1] == lower_byte(w[k + 1]));
                }
                if k + 2 < n {
                    assert(r[k + 2] == lower_byte(w[k + 2]));
                }
            }
            assert(lower_seq(r) =~= r) by {
                assert forall|k: int| 0 <= k < r.len() implies #[trigger] lower_seq(r)[k] == r[k] by {
                    assert(r[k] == lower_byte(w[k]));
                }
            }
        },
        KeywordCase::Preserve => {},
    }
    assert forall|k: int| 0 <= k <= w.len() implies #[trigger] qopen(r, k) == qopen(w, k) by {
        lemma_qopen_case(case, w, k);
    }
}

/// Recasing opens and closes the same quotes.
proof fn lemma_qopen_case(case: KeywordCase, w: Seq<u8>, k: int)
    requires
        0 <= k <= w.len(),
    ensures
        qopen(case_word(case, w), k) == qopen(w, k),
    decreases k,
{
    let r = case_word(case, w);
    if k > 0 {
        lemma_qopen_case(case, w, k - 1);
        lemma_qopen_quote(w, k - 1);
        let c = w[k - 1];
        match case {
            KeywordCase::Upper => {
                assert(r[k - 1] == upper_byte(c));
            },
            KeywordCase::Lower => {
                assert(r[k - 1] == lower_byte(c));
            },
            KeywordCase::Preserve => {},
        }
    }
}

/// A line's code part holds no comment, its tokens are tokens as read, and
/// its comment is one the formatter keeps.
pub proof fn lemma_code_part(b: Seq<u8>, lo: int, hi: int)
    requires
        nl_free(b, lo, hi),
    ensures
        ({
            let sp = split_comment_spec(b, lo, hi);
            let p = comment_pos(b, lo, hi, None);
            &&& sp.0.0 == lo
            &&& lo <= sp.0.1 <= p <= hi
            &&& sp.0.1 == rskip_ws(b, lo, p)
            &&& p < hi ==> b[p] == 59u8
            &&& (sp.1 is Some <==> p < hi)
            &&& forall|i: int|
                0 <= i < tokenize_spec(b, sp.0).len() ==> token_read(#[trigger] tokenize_spec(b, sp.0)[i])
            &&& owords(tokenize_spec(b, sp.0))
            &&& sp.1 matches Some(c) ==> p == c.0 && c.0 < c.1 <= hi && kept_comment(b.subrange(c.0, c.1))
        }),
{
    let sp = split_comment_spec(b, lo, hi);
    lemma_comment_pos(b, lo, hi, None);
    let p = comment_pos(b, lo, hi, None);
    lemma_rskip_ws(b, lo, p);
    let e = rskip_ws(b, lo, p);
    assert(sp.0 == (lo, e));
    lemma_comment_prefix(b, lo, e, hi, None);
    let t = trim_win(b, lo, e);
    lemma_skip_ws(b, lo, e);
    lemma_skip_region(b, lo, e);
    lemma_comment_skip(b, lo, t.0, e);
    lemma_rskip_ws(b, t.0, e);
    lemma_comment_prefix(b, t.0, t.1, e, None);
    lemma_tok_read(b, t.0, t.1);
    lemma_tok_oword(b, t.0, t.1);
    if p < hi {
        lemma_rskip_stop(b, p, hi, p);
        lemma_rskip_ws(b, p, hi);
        let r = rskip_ws(b, p, hi);
        let c = b.subrange(p, r);
        assert forall|k: int| 0 <= k < c.len() implies #[trigger] c[k] != 10u8 by {
            assert(c[k] == b[p + k]);
        }
        lemma_ws_len_back_local(b, p, r, c);
    }
}

/// The first character of a code line that is not whitespace stands before
/// its comment, after a whitespace region.
pub proof fn lemma_code_start(b: Seq<u8>, h: (int, int))
    requires
        nl_free(b, h.0, h.1),
        physical_kind(b, h) != PhysicalKind::Blank,
        physical_kind(b, h) != PhysicalKind::Comment,
    ensures
        ({
            let t = skip_ws(b, h.0, h.1);
            let p = comment_pos(b, h.0, h.1, None);
            &&& h.0 <= t < p <= h.1
            &&& ws_len(b, t, h.1) == 0
            &&& ws_region(b, h.0, t, h.1)
            &&& comment_pos(b, t, h.1, None) == p
            &&& p < h.1 ==> b[p] == 59u8
        }),
{
    lemma_comment_pos(b, h.0, h.1, None);
    lemma_skip_ws(b, h.0, h.1);
    lemma_skip_region(b, h.0, h.1);
    let t = skip_ws(b, h.0, h.1);
    assert(t < h.1);
    lemma_comment_skip(b, h.0, t, h.1);
    assert(b[t] != 59u8);
    if is_quote(b[t]) {
        lemma_comment_pos(b, t + 1, h.1, Some(b[t]));
    } else {
        lemma_comment_pos(b, t + 1, h.1, None);
    }
}

/// A token as read starts where no whitespace does.
pub proof fn lemma_word_kind(x: Seq<u8>)
    requires
        token_read(x),
    ensures
        skip_ws(x, 0, x.len() as int) == 0,
{
    assert(qopen(x, 0) is None);
}

/// The tokens of a head line's code.
pub open spec fn head_tokens(b: Seq<u8>, h: (int, int), kind: PhysicalKind, case: KeywordCase) -> Seq<Seq<u8>> {
    let code = split_comment_spec(b, h.0, h.1).0;
    if kind == PhysicalKind::Directive {
        tokenize_directive_spec(b, code, case)
    } else {
        tokenize_spec(b, code)
    }
}

/// A head line gives tokens as read, led by one of the line's own kind; a
/// directive's first token is its dot with the keyword in the chosen case.
#[verifier::rlimit(60)]
pub proof fn lemma_head(b: Seq<u8>, h: (int, int), kind: PhysicalKind, case: KeywordCase)
    requires
        nl_free(b, h.0, h.1),
        physical_kind(b, h) == kind,
        kind != PhysicalKind::Blank,
        kind != PhysicalKind::Comment,
        kind != PhysicalKind::Continuation,
    ensures
        ({
            let ht = head_tokens(b, h, kind, case);
            &&& ht.len() >= 1
            &&& forall|i: int| 0 <= i < ht.len() ==> token_read(#[trigger] ht[i])
            &&& owords(ht)
            &&& physical_kind(ht[0], (0, ht[0].len() as int)) == kind
            &&& kind == PhysicalKind::Directive ==> {
                &&& ht[0][0] == 46u8
                &&& ht[0].len() == 1 ==> ht.len() == 1
                &&& ht[0].len() >= 2 ==> case_word(case, ht[0].subrange(1, ht[0].len() as int)) == ht[0].subrange(
                    1,
                    ht[0].len() as int,
                )
            }
        }),
{
    lemma_code_start(b, h);
    let t = skip_ws(b, h.0, h.1);
    let c = b[t];
    lemma_code_part(b, h.0, h.1);
    let p = comment_pos(b, h.0, h.1, None);
    let e = rskip_ws(b, h.0, p);
    lemma_rskip_ws(b, h.0, p);
    lemma_rskip_stop_region(b, h.0, p, t, h.1);
    assert(split_comment_spec(b, h.0, h.1).0 == (h.0, e));
    lemma_skip_prefix(b, h.0, e, h.1);
    lemma_ws_back_shrink(b, h.0, t, e);
    assert(rskip_ws(b, t, e) == e);
    assert(trim_win(b, h.0, e) == (t, e));
    lemma_comment_prefix(b, h.0, e, h.1, None);
    lemma_comment_skip(b, h.0, t, e);
    assert(comment_pos(b, t, e, None) == e);
    let ht = head_tokens(b, h, kind, case);
    if kind == PhysicalKind::Directive {
        assert(c == 46u8);
        assert(comment_pos(b, t + 1, e, None) == e);
        lemma_qtokens_q(b, t + 1, e, None, None);
        lemma_tok_read(b, t + 1, e);
        if t + 1 < e {
            lemma_ws_back_shrink(b, h.0, t + 1, e);
        }
        lemma_tok_oword(b, t + 1, e);
        let parts = qtokens(b, t + 1, e);
        let pw = tok_bytes(b, parts);
        if parts.len() == 0 {
            assert(ht == seq![seq![46u8]]);
            let d = seq![46u8];
            assert(qopen(d, 0) is None);
            assert(token_read(d));
            assert(oword(ht[0]));
        } else {
            let w0 = b.subrange(parts[0].0, parts[0].1);
            assert(pw[0] == w0);
            assert(token_read(w0));
            lemma_case_word(case, w0);
            let u = case_word(case, w0);
            let f = seq![46u8] + u;
            assert(ht == seq![f] + tok_bytes(b, parts.drop_first()));
            assert(tok_bytes(b, parts.drop_first()) =~= pw.drop_first());
            assert(f.subrange(1, f.len() as int) =~= u);
            assert(token_read(f)) by {
                assert forall|i: int| 0 <= i < f.len() implies #[trigger] f[i] != 10u8 by {
                    if i > 0 {
                        assert(f[i] == u[i - 1]);
                    }
                }
                assert forall|i: int| 0 <= i < f.len() && (#[trigger] qopen(f, i)) is None implies ws_len(f, i, f.len() as int)
                    == 0 && f[i] != 59u8 by {
                    if i > 0 {
                        lemma_qopen_shift(f, i - 1);
                        assert(f[i] == u[i - 1]);
                        assert(qopen(u, i - 1) is None);
                        lemma_ws_len_local(f, 1, f.len() as int, u, i - 1);
                    }
                }
            }
            assert(oword(w0));
            lemma_dot_word(case, w0);
            assert forall|i: int| 0 <= i < ht.len() implies token_read(#[trigger] ht[i]) && oword(ht[i]) by {
                if i > 0 {
                    assert(ht[i] == pw[i]);
                }
            }
        }
        lemma_word_kind(ht[0]);
        assert(ht[0][0] == 46u8);
    } else {
        let ts = qtokens(b, t, e);
        assert(skip_ws(b, t, e) == t);
        lemma_qtokens_q(b, t, e, None, None);
        lemma_tok_read(b, t, e);
        lemma_ws_back_shrink(b, h.0, t, e);
        lemma_tok_oword(b, t, e);
        assert(ht == tok_bytes(b, ts));
        let e0 = ts[0].1;
        let x = b.subrange(t, e0);
        assert(ht[0] == x);
        lemma_word_kind(x);
        assert(x[0] == c);
        if x.len() >= 2 {
            assert(x[1] == b[t + 1]);
        } else if t + 1 < h.1 {
            assert(e0 == t + 1);
            assert(!is_digit(b[t + 1]) && b[t + 1] != 46u8) by {
                if e0 < e {
                    lemma_ws_bytes(b, e0, e);
                } else if e < p {
                    lemma_rskip_first(b, h.0, p);
                } else {
                    assert(b[p] == 59u8);
                }
            }
        }
        assert(data_value_at(b, t, h.1) == data_value_at(x, 0, x.len() as int));
    }
}

/// Every piece of a buffer between newlines holds no newline.
pub proof fn lemma_segments_nl(b: Seq<u8>, start: int, i: int)
    requires
        0 <= start <= i <= b.len(),
        forall|k: int| start <= k < i ==> #[trigger] b[k] != 10u8,
    ensures
        forall|k: int|
            0 <= k < segments(b, start, i).len() ==> nl_free(
                b,
                (#[trigger] segments(b, start, i)[k]).0,
                segments(b, start, i)[k].1,
            ),
    decreases b.len() - i,
{
    let sg = segments(b, start, i);
    if i >= b.len() {
        let e = without_cr(b, start, b.len() as int);
        assert(sg == seq![(start, e)]);
        assert(nl_free(b, start, e));
        assert(sg[0] == (start, e));
    } else if b[i] == 10u8 {
        lemma_segments_nl(b, i + 1, i + 1);
        let rest = segments(b, i + 1, i + 1);
        let e = without_cr(b, start, i);
        assert(sg == seq![(start, e)] + rest);
        assert(nl_free(b, start, e));
        assert forall|k: int| 0 <= k < sg.len() implies nl_free(b, (#[trigger] sg[k]).0, sg[k].1) by {
            if k > 0 {
                assert(sg[k] == rest[k - 1]);
            } else {
                assert(sg[0] == (start, e));
            }
        }
    } else {
        lemma_segments_nl(b, start, i + 1);
        assert(sg == segments(b, start, i + 1));
    }
}

/// The physical lines of a buffer hold no newline.
pub proof fn lemma_lines_nl(b: Seq<u8>)
    ensures
        forall|k: int|
            0 <= k < physical_lines(b).len() ==> nl_free(
                b,
                (#[trigger] physical_lines(b)[k]).0,
                physical_lines(b)[k].1,
            ),
{
    lemma_segments_nl(b, 0, 0);
    let sg = segments(b, 0, 0);
    let pl = physical_lines(b);
    assert forall|k: int| 0 <= k < pl.len() implies nl_free(b, (#[trigger] pl[k]).0, pl[k].1) by {
        assert(pl[k] == sg[k]);
    }
}

/// A statement as grouping makes it from the lines of `b`; `after_code` tells
/// whether a code statement comes right before it.
pub open spec fn stmt_in(b: Seq<u8>, s: StmtV, after_code: bool) -> bool {
    match s {
        StmtV::Blank => true,
        StmtV::Comment(w) => nl_free(b, w.0, w.1) && physical_kind(b, w) == PhysicalKind::Comment,
        StmtV::Code { kind, head, conts } => {
            &&& forall|k: int| 0 <= k < conts.len() ==> nl_free(b, (#[trigger] conts[k]).0, conts[k].1)
            &&& match head {
                Some(h) => {
                    &&& nl_free(b, h.0, h.1)
                    &&& physical_kind(b, h) == kind
                    &&& kind != PhysicalKind::Blank
                    &&& kind != PhysicalKind::Comment
                    &&& kind != PhysicalKind::Continuation
                },
                None => kind == PhysicalKind::Other && !after_code,
            }
        },
    }
}

pub open spec fn stmts_in(b: Seq<u8>, ss: Seq<StmtV>) -> bool {
    forall|k: int| 0 <= k < ss.len() ==> stmt_in(b, #[trigger] ss[k], k > 0 && ss[k - 1] is Code)
}

/// The payload of a line lies in the line.
pub proof fn lemma_payload_run(b: Seq<u8>, w: (int, int))
    requires
        nl_free(b, w.0, w.1),
    ensures
        nl_free(b, payload(b, w).0, payload(b, w).1),
{
    lemma_skip_ws(b, w.0, w.1);
    let t = skip_ws(b, w.0, w.1);
    let u = if t < w.1 && b[t] == 43u8 {
        t + 1
    } else {
        t
    };
    lemma_skip_ws(b, u, w.1);
}

/// Grouping one more line keeps every statement one grouping makes.
pub proof fn lemma_step_in(b: Seq<u8>, st: Seq<StmtV>, w: (int, int))
    requires
        stmts_in(b, st),
        nl_free(b, w.0, w.1),
    ensures
        stmts_in(b, group_step(st, b, w)),
{
    let st2 = group_step(st, b, w);
    match physical_kind(b, w) {
        PhysicalKind::Continuation => {
            lemma_payload_run(b, w);
            if st.len() > 0 && st.last() is Code {
                if let StmtV::Code { kind, head, conts } = st.last() {
                    let n = st.len() - 1;
                    let c2 = conts.push(payload(b, w));
                    assert(st2 == st.drop_last().push(StmtV::Code { kind, head, conts: c2 }));
                    assert(stmt_in(b, st[n], n > 0 && st[n - 1] is Code));
                    assert forall|k: int| 0 <= k < st2.len() implies stmt_in(b, #[trigger] st2[k], k > 0 && st2[k - 1] is Code) by {
                        if k < n {
                            assert(st2[k] == st[k]);
                            if k > 0 {
                                assert(st2[k - 1] == st[k - 1]);
                            }
                        } else {
                            if k > 0 {
                                assert(st2[k - 1] == st[k - 1]);
                            }
                            assert forall|m: int| 0 <= m < c2.len() implies nl_free(b, (#[trigger] c2[m]).0, c2[m].1) by {
                                if m < conts.len() {
                                    assert(c2[m] == conts[m]);
                                }
                            }
                        }
                    }
                }
            } else {
                assert forall|k: int| 0 <= k < st2.len() implies stmt_in(b, #[trigger] st2[k], k > 0 && st2[k - 1] is Code) by {
                    if k < st.len() {
                        assert(st2[k] == st[k]);
                        if k > 0 {
                            assert(st2[k - 1] == st[k - 1]);
                        }
                    } else if k > 0 {
                        assert(st2[k - 1] == st.last());
                    }
                }
            }
        },
        _ => {
            assert forall|k: int| 0 <= k < st2.len() implies stmt_in(b, #[trigger] st2[k], k > 0 && st2[k - 1] is Code) by {
                if k < st.len() {
                    assert(st2[k] == st[k]);
                    if k > 0 {
                        assert(st2[k - 1] == st[k - 1]);
                    }
                }
            }
        },
    }
}

/// Grouping lines makes only statements of that kind.
pub proof fn lemma_group_in(b: Seq<u8>, ls: Seq<(int, int)>)
    requires
        forall|k: int| 0 <= k < ls.len() ==> nl_free(b, (#[trigger] ls[k]).0, ls[k].1),
    ensures
        stmts_in(b, group_lines(b, ls)),
    decreases ls.len(),
{
    if ls.len() > 0 {
        assert forall|k: int| 0 <= k < ls.drop_last().len() implies nl_free(
            b,
            (#[trigger] ls.drop_last()[k]).0,
            ls.drop_last()[k].1,
        ) by {
            assert(ls.drop_last()[k] == ls[k]);
        }
        lemma_group_in(b, ls.drop_last());
        lemma_step_in(b, group_lines(b, ls.drop_last()), ls.last());
    }
}

/// The tokens of the `+` lines of a statement, and their last comment.
pub proof fn lemma_conts_in(b: Seq<u8>, conts: Seq<(int, int)>)
    requires
        forall|k: int| 0 <= k < conts.len() ==> nl_free(b, (#[trigger] conts[k]).0, conts[k].1),
    ensures
        forall|i: int| 0 <= i < cont_tokens(b, conts).len() ==> token_read(#[trigger] cont_tokens(b, conts)[i]),
        owords(cont_tokens(b, conts)),
        last_comment(b, conts) matches Some(c) ==> 0 <= c.0 <= c.1 <= b.len() && kept_comment(b.subrange(c.0, c.1)),
    decreases conts.len(),
{
    if conts.len() > 0 {
        let d = conts.drop_last();
        assert forall|k: int| 0 <= k < d.len() implies nl_free(b, (#[trigger] d[k]).0, d[k].1) by {
            assert(d[k] == conts[k]);
        }
        lemma_conts_in(b, d);
        let l = conts.last();
        lemma_code_part(b, l.0, l.1);
        let a = cont_tokens(b, d);
        let t = tokenize_spec(b, split_comment_spec(b, l.0, l.1).0);
        assert(cont_tokens(b, conts) == a + t);
        assert forall|i: int| 0 <= i < (a + t).len() implies token_read(#[trigger] (a + t)[i]) && oword((a + t)[i]) by {
            if i < a.len() {
                assert((a + t)[i] == a[i]);
            } else {
                assert((a + t)[i] == t[i - a.len()]);
            }
        }
    }
}

/// A comment line keeps its shape once trailing whitespace is cut.
pub proof fn lemma_comment_in(b: Seq<u8>, w: (int, int), case: KeywordCase, after_code: bool)
    requires
        nl_free(b, w.0, w.1),
        physical_kind(b, w) == PhysicalKind::Comment,
    ensures
        content_ok(content_of(b, StmtV::Comment(w), case), case, after_code),
{
    lemma_skip_ws(b, w.0, w.1);
    let t = skip_ws(b, w.0, w.1);
    assert(t < w.1);
    assert(b[t] < 128u8);
    lemma_rskip_stop(b, w.0, w.1, t);
    lemma_rskip_ws(b, w.0, w.1);
    let r = rskip_ws(b, w.0, w.1);
    let l = b.subrange(w.0, r);
    assert forall|k: int| 0 <= k < l.len() implies #[trigger] l[k] != 10u8 by {
        assert(l[k] == b[w.0 + k]);
    }
    lemma_ws_len_back_local(b, w.0, r, l);
    lemma_skip_prefix(b, w.0, r, w.1);
    lemma_kind_local(b, (w.0, r), l);
    lemma_skip_local(b, w.0, r, l, 0);
    assert(b[t] == l[t - w.0]);
}

/// Recasing keeps whitespace at the end of a token.
proof fn lemma_case_back(case: KeywordCase, t: Seq<u8>)
    ensures
        case_word(case, t).len() == t.len(),
        ws_len_back(case_word(case, t), 0, t.len() as int) == ws_len_back(t, 0, t.len() as int),
{
    let u = case_word(case, t);
    lemma_case_word(case, t);
    let n = t.len() as int;
    assert forall|k: int| 0 <= k < n implies (t[k] >= 128u8 ==> #[trigger] u[k] == t[k]) && (is_ascii_ws(u[k])
        == is_ascii_ws(t[k])) by {
        match case {
            KeywordCase::Upper => {
                assert(u[k] == upper_byte(t[k]));
            },
            KeywordCase::Lower => {
                assert(u[k] == lower_byte(t[k]));
            },
            KeywordCase::Preserve => {},
        }
    }
    if n >= 1 {
        assert(is_ascii_ws(u[n - 1]) == is_ascii_ws(t[n - 1]));
    }
    if n >= 2 {
        assert(is_ws2(u[n - 2], u[n - 1]) == is_ws2(t[n - 2], t[n - 1])) by {
            assert(is_ascii_ws(u[n - 1]) == is_ascii_ws(t[n - 1]));
            if t[n - 2] >= 128u8 {
                assert(u[n - 2] == t[n - 2]);
            }
            if t[n - 1] >= 128u8 {
                assert(u[n - 1] == t[n - 1]);
            }
            if u[n - 2] == 0xC2u8 {
                assert(t[n - 2] >= 128u8);
            }
        }
    }
    if n >= 3 {
        assert(is_ws3(u[n - 3], u[n - 2], u[n - 1]) == is_ws3(t[n - 3], t[n - 2], t[n - 1])) by {
            if t[n - 3] >= 128u8 {
                assert(u[n - 3] == t[n - 3]);
            }
            if t[n - 2] >= 128u8 {
                assert(u[n - 2] == t[n - 2]);
            }
            if t[n - 1] >= 128u8 {
                assert(u[n - 1] == t[n - 1]);
            }
            if u[n - 3] >= 128u8 {
                assert(t[n - 3] >= 128u8);
            }
            if u[n - 2] >= 128u8 {
                assert(t[n - 2] >= 128u8);
            }
            if u[n - 1] >= 128u8 {
                assert(t[n - 1] >= 128u8);
            }
        }
    }
}

/// A dot joined to a token in the chosen case is a token as read, which
/// leaves the same quote open, and a directive's first word as the
/// formatter writes it.
pub proof fn lemma_dot_word(case: KeywordCase, t: Seq<u8>)
    requires
        oword(t),
    ensures
        ({
            let f = seq![46u8] + case_word(case, t);
            &&& oword(f)
            &&& token_read(f)
            &&& qopen(f, f.len() as int) == qopen(t, t.len() as int)
            &&& f.len() >= 2
            &&& f[0] == 46u8
            &&& case_word(case, f.subrange(1, f.len() as int)) == f.subrange(1, f.len() as int)
        }),
{
    lemma_case_word(case, t);
    lemma_case_back(case, t);
    let u = case_word(case, t);
    let f = seq![46u8] + u;
    assert(f.subrange(1, f.len() as int) =~= u);
    assert(!is_quote(f[0]));
    assert forall|i: int| 0 <= i < f.len() implies #[trigger] f[i] != 10u8 by {
        if i > 0 {
            assert(f[i] == u[i - 1]);
        }
    }
    assert forall|i: int| 0 <= i < f.len() && (#[trigger] qopen(f, i)) is None implies ws_len(f, i, f.len() as int)
        == 0 && f[i] != 59u8 by {
        if i > 0 {
            lemma_qopen_shift(f, i - 1);
            assert(f[i] == u[i - 1]);
            assert(qopen(u, i - 1) is None);
            lemma_ws_len_local(f, 1, f.len() as int, u, i - 1);
        } else {
            lemma_ws_len_ascii(f, 0, f.len() as int);
        }
    }
    lemma_qopen_shift(f, u.len() as int);
    lemma_ws_len_back_local(f, 1, f.len() as int, u);
    assert(ws_len_back(f, 0, f.len() as int) == ws_len_back(f, 1, f.len() as int)) by {
        if u.len() < 3 {
            assert(f[0] == 46u8);
        }
    }
}

/// Each statement grouping makes of a text has a content that the
/// formatter writes back faithfully.
#[verifier::rlimit(40)]
pub proof fn lemma_content_in(b: Seq<u8>, s: StmtV, after_code: bool, case: KeywordCase)
    requires
        stmt_in(b, s, after_code),
    ensures
        content_ok(content_of(b, s, case), case, after_code),
{
    match s {
        StmtV::Blank => {},
        StmtV::Comment(w) => {
            lemma_comment_in(b, w, case, after_code);
        },
        StmtV::Code { kind, head, conts } => {
            lemma_conts_in(b, conts);
            let ct = cont_tokens(b, conts);
            let ht = match head {
                Some(h) => head_tokens(b, h, kind, case),
                None => seq![seq![43u8]],
            };
            let raw = ht + ct;
            let toks = code_tokens(b, s, case);
            assert(toks == if kind == PhysicalKind::Directive {
                join_dot(raw, case)
            } else {
                raw
            });
            match head {
                Some(h) => {
                    lemma_head(b, h, kind, case);
                    lemma_code_part(b, h.0, h.1);
                },
                None => {
                    let d = seq![43u8];
                    assert(qopen(d, 0) is None);
                    assert(token_read(d));
                    assert(ht[0] == d);
                    assert(oword(d));
                },
            }
            assert(ht.len() >= 1);
            assert(raw[0] == ht[0]);
            assert forall|i: int| 0 <= i < raw.len() implies oword(#[trigger] raw[i]) by {
                if i < ht.len() {
                    assert(raw[i] == ht[i]);
                } else {
                    assert(raw[i] == ct[i - ht.len()]);
                }
            }
            let joined = kind == PhysicalKind::Directive && raw.len() > 1 && raw[0] == seq![46u8];
            if joined {
                reveal(join_dot);
                let f = seq![46u8] + case_word(case, raw[1]);
                assert(toks == seq![f] + raw.skip(2));
                assert(toks[0] == f);
                lemma_dot_word(case, raw[1]);
                assert forall|i: int| 0 <= i < toks.len() implies oword(#[trigger] toks[i]) by {
                    if i > 0 {
                        assert(toks[i] == raw[i + 1]);
                    }
                }
                lemma_word_kind(f);
                assert(directive_word(toks, case));
            } else {
                if kind == PhysicalKind::Directive {
                    reveal(join_dot);
                }
                assert(toks == raw);
                if kind == PhysicalKind::Directive && head is Some {
                    if ht[0].len() == 1 {
                        assert(ht[0] =~= seq![46u8]);
                    }
                    assert(directive_word(toks, case));
                }
            }
            let c = stmt_comment(b, head, conts);
            assert(c matches Some(x) ==> kept_comment(b.subrange(x.0, x.1)));
        },
    }
}

/// A line the formatter writes for words, or for a comment alone on a `+`
/// line, is clean and not empty.
pub proof fn lemma_written_clean(line: Seq<u8>, k: int, indent: int, c: Option<Seq<u8>>, x: Seq<Seq<u8>>)
    requires
        written_line(line, k, indent, c, x),
        words(x),
        x.len() > 0 || c is Some,
        indent >= 0,
        c matches Some(t) ==> kept_comment(t),
    ensures
        clean_line(line),
        line.len() > 0,
{
    let j = words_part(line, k, indent, c);
    if x.len() > 0 {
        lemma_spaced_bytes(j, x);
    } else {
        assert(j.len() == 0);
    }
    let ld = lead(k, indent);
    let wc = with_comment(j, c);
    assert(line == ld + wc);
    assert forall|i: int| 0 <= i < line.len() implies #[trigger] line[i] != 10u8 by {
        if i < ld.len() {
            assert(line[i] == ld[i]);
            if k != 0 {
                if i > 0 {
                    assert(ld[i] == crate::fmt_emit::spaces(indent)[i - 1]);
                }
            }
        } else {
            let m = i - ld.len();
            assert(line[i] == wc[m]);
            if m < j.len() {
                assert(wc[m] == j[m]);
            } else {
                let t = c->0;
                if m >= j.len() + 2 {
                    assert(wc[m] == t[m - j.len() - 2]);
                }
            }
        }
    }
    match c {
        Some(t) => {
            assert(line[line.len() - 1] == t[t.len() - 1]);
            assert(!is_ascii_ws(t[t.len() - 1]));
        },
        None => {
            assert(line[line.len() - 1] == j[j.len() - 1]);
        },
    }
}

/// The lines written for one statement: at least one, all clean, and the
/// last one empty only for a blank statement.
pub proof fn lemma_group_clean(ct: Content, grp: Seq<Seq<u8>>, opts: FormatOptions, after_code: bool)
    requires
        group_ok(ct, grp, opts),
        content_ok(ct, opts.keyword_case, after_code),
    ensures
        grp.len() >= 1,
        forall|k: int| 0 <= k < grp.len() ==> clean_line(#[trigger] grp[k]),
        (grp.last().len() == 0) == (ct is Blank),
{
    match ct {
        Content::Blank => {
            assert(grp[0].len() == 0);
        },
        Content::Comment(l) => {
            assert(grp[0] == l);
        },
        Content::Code { toks, comment, .. } => {
            let w = choose|w: Option<Seq<int>>|
                #![trigger widths_fit(w, toks)]
                widths_fit(w, toks) && grp == crate::fmt_emit::emit_spec(
                    toks,
                    comment,
                    w,
                    opts.indent_width as int,
                    opts.max_line_width as int,
                );
            let gs = lemma_emit_spec(toks, comment, w, opts.indent_width as int, opts.max_line_width as int);
            assert forall|k: int| 0 <= k < grp.len() implies clean_line(#[trigger] grp[k]) && grp[k].len() > 0 by {
                lemma_written_clean(
                    grp[k],
                    k,
                    opts.indent_width as int,
                    if k == grp.len() - 1 {
                        comment
                    } else {
                        None
                    },
                    gs[k],
                );
            }
            assert(grp.last().len() > 0);
        },
    }
}

/// Joined lines end with the last line, when it is not empty.
pub proof fn lemma_join_last(ls: Seq<Seq<u8>>, nl: Seq<u8>)
    requires
        ls.len() >= 1,
        ls.last().len() > 0,
    ensures
        join_lines(ls, nl).len() > 0,
        join_lines(ls, nl).last() == ls.last().last(),
{
    if ls.len() == 1 {
        assert(join_lines(ls, nl) == ls[0]);
    } else {
        let j = join_lines(ls, nl);
        assert(j == join_lines(ls.drop_last(), nl) + nl + ls.last());
        assert(j[j.len() - 1] == ls.last()[ls.last().len() - 1]);
    }
}

/// Clean lines joined by `\n` hold no `\r\n`, and do not end in `\r`.
pub proof fn lemma_lf_no_crlf(ls: Seq<Seq<u8>>)
    requires
        forall|k: int| 0 <= k < ls.len() ==> clean_line(#[trigger] ls[k]),
    ensures
        forall|i: int| !crlf_at(join_lines(ls, seq![10u8]), i),
        join_lines(ls, seq![10u8]).len() > 0 ==> join_lines(ls, seq![10u8]).last() != 13u8,
    decreases ls.len(),
{
    let nl = seq![10u8];
    let j = join_lines(ls, nl);
    if ls.len() == 1 {
        let l = ls[0];
        assert(clean_line(l));
        assert(j == l);
        assert forall|i: int| !crlf_at(j, i) by {
            if crlf_at(j, i) {
                assert(l[i + 1] == 10u8);
            }
        }
    } else if ls.len() >= 2 {
        let d = ls.drop_last();
        assert forall|k: int| 0 <= k < d.len() implies clean_line(#[trigger] d[k]) by {
            assert(d[k] == ls[k]);
        }
        lemma_lf_no_crlf(d);
        let jd = join_lines(d, nl);
        let l = ls.last();
        assert(clean_line(l));
        assert(j == jd + nl + l);
        let n = jd.len() as int;
        assert forall|i: int| !crlf_at(j, i) by {
            if crlf_at(j, i) {
                if i + 1 < n {
                    assert(j[i] == jd[i] && j[i + 1] == jd[i + 1]);
                    assert(crlf_at(jd, i));
                } else if i + 1 == n {
                    assert(j[i] == jd[n - 1]);
                } else if i == n {
                    assert(j[i] == 10u8);
                } else {
                    assert(j[i] == l[i - n - 1]);
                    assert(j[i + 1] == l[i - n]);
                }
            }
        }
        if l.len() > 0 {
            assert(j.last() == l.last());
        } else {
            assert(j.last() == 10u8);
        }
    }
}

/// Clean lines joined by `\n`, with or without a final `\n`, hold no
/// `\r\n`.
pub proof fn lemma_lf_tail_no_crlf(ls: Seq<Seq<u8>>, tail: Seq<u8>)
    requires
        forall|k: int| 0 <= k < ls.len() ==> clean_line(#[trigger] ls[k]),
        tail == seq![10u8] || tail.len() == 0,
    ensures
        !has_crlf(join_lines(ls, seq![10u8]) + tail),
{
    lemma_lf_no_crlf(ls);
    let j = join_lines(ls, seq![10u8]);
    let t = j + tail;
    assert forall|i: int| !crlf_at(t, i) by {
        if crlf_at(t, i) {
            if i + 1 < j.len() {
                assert(crlf_at(j, i));
            } else if i + 1 == j.len() {
                assert(t[i] == j.last());
            } else {
                assert(t[i] == 10u8);
            }
        }
    }
}

/// Lines joined by `\r\n` hold one, once a newline is written.
pub proof fn lemma_crlf_found(ls: Seq<Seq<u8>>, tail: Seq<u8>)
    requires
        ls.len() >= 1,
        ls.len() >= 2 || tail == seq![13u8, 10u8],
    ensures
        has_crlf(join_lines(ls, seq![13u8, 10u8]) + tail),
{
    let nl = seq![13u8, 10u8];
    let j = join_lines(ls, nl);
    let t = j + tail;
    if ls.len() >= 2 {
        let jd = join_lines(ls.drop_last(), nl);
        assert(j == jd + nl + ls.last());
        assert(t[jd.len() as int] == 13u8 && t[jd.len() as int + 1] == 10u8);
        assert(crlf_at(t, jd.len() as int));
    } else {
        assert(j == ls[0]);
        assert(t[j.len() as int] == 13u8 && t[j.len() as int + 1] == 10u8);
        assert(crlf_at(t, j.len() as int));
    }
}

/// A buffer cut at newlines gives at least one piece, and two when a
/// newline is still to come.
pub proof fn lemma_segments_len(b: Seq<u8>, start: int, i: int)
    requires
        0 <= start <= i <= b.len(),
    ensures
        segments(b, start, i).len() >= 1,
        (exists|k: int| i <= k < b.len() && b[k] == 10u8) ==> segments(b, start, i).len() >= 2,
    decreases b.len() - i,
{
    if i < b.len() {
        if b[i] == 10u8 {
            lemma_segments_len(b, i + 1, i + 1);
        } else {
            lemma_segments_len(b, start, i + 1);
            if exists|k: int| i <= k < b.len() && b[k] == 10u8 {
                let k = choose|k: int| i <= k < b.len() && b[k] == 10u8;
                assert(k != i);
                assert(i + 1 <= k);
            }
        }
    }
}

/// A non-empty buffer has a physical line, and so a statement.
pub proof fn lemma_some_statement(b: Seq<u8>)
    requires
        b.len() > 0,
    ensures
        group_lines(b, physical_lines(b)).len() >= 1,
{
    lemma_segments_len(b, 0, 0);
    let sg = segments(b, 0, 0);
    if b.last() == 10u8 {
        assert(b[b.len() - 1] == 10u8);
    }
    let ls = physical_lines(b);
    assert(ls.len() >= 1);
    assert(group_lines(b, ls) == group_step(group_lines(b, ls.drop_last()), b, ls.last()));
}

/// A run of instances ends at the same place once a final non-instance is
/// dropped.
pub proof fn lemma_run_end_drop(cs: Seq<Content>, k: int)
    requires
        cs.len() >= 1,
        !c_inst(cs.last()),
        0 <= k <= cs.len() - 1,
    ensures
        c_run_end(cs, k) == c_run_end(cs.drop_last(), k),
    decreases cs.len() - k,
{
    let d = cs.drop_last();
    if k < cs.len() - 1 {
        assert(d[k] == cs[k]);
        if c_inst(cs[k]) {
            lemma_run_end_drop(cs, k + 1);
        }
    }
}

/// A final blank statement writes a final empty line.
#[verifier::rlimit(40)]
pub proof fn lemma_render_drop_blank(cs: Seq<Content>, i: int, opts: FormatOptions)
    requires
        cs.len() >= 1,
        cs.last() is Blank,
        0 <= i < cs.len(),
    ensures
        c_render(cs, i, opts) == c_render(cs.drop_last(), i, opts) + seq![Seq::<u8>::empty()],
    decreases cs.len() - i,
{
    let d = cs.drop_last();
    let n = cs.len() - 1;
    if i == n {
        assert(c_render(cs, i + 1, opts) == Seq::<Seq<u8>>::empty());
        assert(c_render(d, i, opts) == Seq::<Seq<u8>>::empty());
        assert(c_render(cs, i, opts) =~= c_render(d, i, opts) + seq![Seq::<u8>::empty()]);
    } else {
        assert(d[i] == cs[i]);
        match cs[i] {
            Content::Code { kind, .. } => {
                if kind == PhysicalKind::Instance && opts.align_columns {
                    lemma_run_end_drop(cs, i + 1);
                    crate::format_idem::lemma_c_run_end(cs, i + 1);
                    let j = c_run_end(cs, i + 1);
                    assert(j <= n) by {
                        if j > n {
                            assert(c_inst(cs[n]));
                        }
                    }
                    assert(cs.subrange(i, j) =~= d.subrange(i, j));
                    lemma_render_drop_blank(cs, j, opts);
                    assert(c_render(cs, i, opts) =~= c_render(d, i, opts) + seq![Seq::<u8>::empty()]);
                } else {
                    lemma_render_drop_blank(cs, i + 1, opts);
                    assert(c_render(cs, i, opts) =~= c_render(d, i, opts) + seq![Seq::<u8>::empty()]);
                }
            },
            _ => {
                lemma_render_drop_blank(cs, i + 1, opts);
                assert(c_render(cs, i, opts) =~= c_render(d, i, opts) + seq![Seq::<u8>::empty()]);
            },
        }
    }
}

/// Text the formatter wrote, read back: its lines group into statements of
/// the same contents, which render to the same lines, so formatting it again
/// gives it back.
#[verifier::rlimit(60)]
#[verifier::spinoff_prover]
pub proof fn lemma_reformat(
    t: Seq<u8>,
    ls: Seq<Seq<u8>>,
    cs: Seq<Content>,
    gs: Seq<Seq<Seq<u8>>>,
    nl: Seq<u8>,
    tail: Seq<u8>,
    opts: FormatOptions,
)
    requires
        newline(nl),
        tail == nl || tail.len() == 0,
        ls.len() >= 1,
        forall|k: int| 0 <= k < ls.len() ==> clean_line(#[trigger] ls[k]),
        tail.len() == 0 ==> ls.last().len() > 0,
        t == join_lines(ls, nl) + tail,
        gs.len() == cs.len(),
        flat(gs) == ls,
        forall|m: int| 0 <= m < cs.len() ==> group_ok(cs[m], #[trigger] gs[m], opts),
        contents_ok(cs, opts.keyword_case),
        c_render(cs, 0, opts) == ls,
    ensures
        format_spec(t, opts) == t,
        contents(t, group_lines(t, physical_lines(t)), opts.keyword_case) == cs,
{
    let case = opts.keyword_case;
    let n = t.len() as int;
    assert(t.subrange(0, n) =~= t);
    lemma_segments_of_join(t, 0, ls, nl, tail);
    lemma_line_windows_bytes(t, 0, ls, nl, tail);
    let lw = line_windows(ls, nl, 0);
    let sg = segments(t, 0, 0);
    if tail.len() > 0 {
        assert(t.len() > 0);
        assert(t.last() == 10u8) by {
            assert(t[n - 1] == tail[tail.len() - 1]);
        }
        assert(sg == lw + seq![(n, n)]);
        assert(sg.drop_last() =~= lw);
        assert(physical_lines(t) == lw);
    } else {
        lemma_join_last(ls, nl);
        assert(t =~= join_lines(ls, nl));
        assert(t.last() == ls.last().last());
        assert(clean_line(ls.last())) by {
            assert(ls.last() == ls[ls.len() - 1]);
        }
        assert(t.last() != 10u8);
        assert(sg =~= lw);
        assert(physical_lines(t) == lw);
    }
    assert(windows_hold(t, lw, ls));
    let m = cs.len() as int;
    lemma_group_prefix(t, lw, cs, gs, opts, m);
    assert(gs.take(m) =~= gs);
    assert(off(gs, m) == lw.len());
    assert(lw.take(off(gs, m)) =~= lw);
    lemma_gfold_lines(t, lw);
    let ss2 = group_lines(t, lw);
    assert(ss2 == gfold(seq![], t, lw));
    assert(contents(t, ss2, case) =~= cs) by {
        assert forall|k: int| 0 <= k < m implies #[trigger] contents(t, ss2, case)[k] == cs[k] by {
            assert(contents(t, ss2, case)[k] == content_of(t, ss2[k], case));
        }
    }
    lemma_render_contents(t, ss2, 0, opts);
    assert(render_from(t, ss2, 0, opts) == ls);
    // the newline read back
    assert(t.len() > 0) by {
        if tail.len() == 0 {
            lemma_join_last(ls, nl);
        }
    }
    if nl == seq![10u8] {
        lemma_lf_tail_no_crlf(ls, tail);
    } else if ls.len() >= 2 || tail.len() > 0 {
        lemma_crlf_found(ls, tail);
    } else {
        assert(join_lines(ls, seq![10u8]) == ls[0]);
        assert(join_lines(ls, nl) == ls[0]);
    }
    assert(format_spec(t, opts) =~= t);
}

/// The lines of the groups are clean when each group's lines are.
pub proof fn lemma_flat_clean(gs: Seq<Seq<Seq<u8>>>)
    requires
        forall|m: int, k: int| 0 <= m < gs.len() && 0 <= k < gs[m].len() ==> clean_line(#[trigger] gs[m][k]),
    ensures
        forall|k: int| 0 <= k < flat(gs).len() ==> clean_line(#[trigger] flat(gs)[k]),
    decreases gs.len(),
{
    if gs.len() > 0 {
        let d = gs.drop_last();
        assert forall|m: int, k: int| 0 <= m < d.len() && 0 <= k < d[m].len() implies clean_line(#[trigger] d[m][k]) by {
            assert(d[m] == gs[m]);
        }
        lemma_flat_clean(d);
        let f = flat(gs);
        assert(f == flat(d) + gs.last());
        assert forall|k: int| 0 <= k < f.len() implies clean_line(#[trigger] f[k]) by {
            if k < flat(d).len() {
                assert(f[k] == flat(d)[k]);
            } else {
                assert(f[k] == gs.last()[k - flat(d).len()]);
                assert(gs.last() == gs[gs.len() - 1]);
            }
        }
    }
}

/// The statements of a buffer, by their contents.
pub open spec fn statements_of(b: Seq<u8>, case: KeywordCase) -> Seq<Content> {
    contents(b, group_lines(b, physical_lines(b)), case)
}

/// The empty buffer is one blank statement.
proof fn lemma_empty_statements(case: KeywordCase)
    ensures
        statements_of(Seq::<u8>::empty(), case) == seq![Content::Blank],
{
    let e = Seq::<u8>::empty();
    assert(segments(e, 0, 0) == seq![(0int, 0int)]);
    assert(physical_lines(e) == seq![(0int, 0int)]);
    let ls = physical_lines(e);
    assert(ls.drop_last() =~= Seq::<(int, int)>::empty());
    assert(physical_kind(e, (0, 0)) == PhysicalKind::Blank);
    assert(group_lines(e, ls.drop_last()) == Seq::<StmtV>::empty());
    assert(ls.last() == (0int, 0int));
    assert(group_step(Seq::<StmtV>::empty(), e, (0, 0)) == seq![StmtV::Blank]);
    assert(group_lines(e, ls) == seq![StmtV::Blank]);
    assert(statements_of(e, case) =~= seq![Content::Blank]);
}

/// Groups of at least one line each hold at least as many lines as groups.
proof fn lemma_flat_len(gs: Seq<Seq<Seq<u8>>>)
    requires
        forall|m: int| 0 <= m < gs.len() ==> (#[trigger] gs[m]).len() >= 1,
    ensures
        flat(gs).len() >= gs.len(),
    decreases gs.len(),
{
    if gs.len() > 0 {
        let d = gs.drop_last();
        assert forall|m: int| 0 <= m < d.len() implies (#[trigger] d[m]).len() >= 1 by {
            assert(d[m] == gs[m]);
        }
        lemma_flat_len(d);
        assert(gs.last() == gs[gs.len() - 1]);
    }
}

/// Formatted text reads back: formatting it again gives it back, and it
/// groups into the statements it was made from.
#[verifier::rlimit(100)]
#[verifier::spinoff_prover]
proof fn lemma_format_read_back(b: Seq<u8>, opts: FormatOptions)
    ensures
        format_spec(format_spec(b, opts), opts) == format_spec(b, opts),
        ({
            let cs = statements_of(b, opts.keyword_case);
            let cs2 = statements_of(format_spec(b, opts), opts.keyword_case);
            cs2 == cs || (cs.len() > 0 && cs.last() is Blank && cs2 == cs.drop_last())
        }),
{
    let t = format_spec(b, opts);
    if b.len() == 0 {
        assert(t == Seq::<u8>::empty());
        assert(t =~= b);
    } else {
        let case = opts.keyword_case;
        let ls0 = physical_lines(b);
        let ss = group_lines(b, ls0);
        lemma_lines_nl(b);
        assert forall|k: int| 0 <= k < ls0.len() implies nl_free(b, (#[trigger] ls0[k]).0, ls0[k].1) by {
            assert(nl_free(b, ls0[k].0, ls0[k].1));
        }
        lemma_group_in(b, ls0);
        lemma_some_statement(b);
        let cs = contents(b, ss, case);
        assert forall|k: int| 0 <= k < cs.len() implies content_ok(#[trigger] cs[k], case, k > 0 && cs[k - 1] is Code) by {
            assert(cs[k] == content_of(b, ss[k], case));
            if k > 0 {
                assert(cs[k - 1] == content_of(b, ss[k - 1], case));
            }
            assert(stmt_in(b, ss[k], k > 0 && ss[k - 1] is Code));
            lemma_content_in(b, ss[k], k > 0 && ss[k - 1] is Code, case);
        }
        assert(contents_ok(cs, case));
        lemma_render_contents(b, ss, 0, opts);
        let l = render_from(b, ss, 0, opts);
        lemma_c_groups(cs, 0, opts);
        let gs = c_groups(cs, 0, opts);
        assert(gs.len() == cs.len());
        assert forall|m: int| 0 <= m < cs.len() implies group_ok(cs[m], #[trigger] gs[m], opts) by {
            assert(group_ok(cs[0 + m], gs[m], opts));
        }
        assert forall|m: int, k: int| 0 <= m < gs.len() && 0 <= k < gs[m].len() implies clean_line(#[trigger] gs[m][k]) by {
            lemma_group_clean(cs[m], gs[m], opts, m > 0 && cs[m - 1] is Code);
        }
        lemma_flat_clean(gs);
        let g = gs.len() - 1;
        lemma_group_clean(cs[g], gs[g], opts, g > 0 && cs[g - 1] is Code);
        let d = gs.drop_last();
        assert(flat(gs) == flat(d) + gs[g]);
        assert(l == flat(gs));
        assert(l.len() >= 1);
        assert(l.last() == gs[g].last());
        let nl = if has_crlf(b) {
            seq![13u8, 10u8]
        } else {
            seq![10u8]
        };
        let tail = if b.last() == 10u8 {
            nl
        } else {
            Seq::<u8>::empty()
        };
        assert(t == join_lines(l, nl) + tail);
        if tail.len() == 0 && l.last().len() == 0 {
            assert(cs[g] is Blank);
            assert(cs.last() is Blank);
            if l.len() == 1 {
                assert(join_lines(l, nl) == l[0]);
                assert(t =~= Seq::<u8>::empty());
                lemma_empty_statements(case);
                assert forall|m: int| 0 <= m < gs.len() implies (#[trigger] gs[m]).len() >= 1 by {
                    lemma_group_clean(cs[m], gs[m], opts, m > 0 && cs[m - 1] is Code);
                }
                lemma_flat_len(gs);
                assert(cs.len() == 1);
                assert(cs =~= seq![Content::Blank]);
            } else {
                let cs1 = cs.drop_last();
                let l1 = l.drop_last();
                assert(gs[g] =~= seq![Seq::<u8>::empty()]);
                assert(flat(d) =~= l1);
                lemma_render_drop_blank(cs, 0, opts);
                assert(c_render(cs1, 0, opts) =~= l1);
                assert(join_lines(l, nl) == join_lines(l1, nl) + nl + l.last());
                assert(t =~= join_lines(l1, nl) + nl);
                assert(d.len() == cs1.len());
                assert forall|m: int| 0 <= m < cs1.len() implies group_ok(cs1[m], #[trigger] d[m], opts) by {
                    assert(d[m] == gs[m]);
                    assert(cs1[m] == cs[m]);
                }
                assert forall|k: int| 0 <= k < cs1.len() implies content_ok(#[trigger] cs1[k], case, k > 0 && cs1[k - 1] is Code) by {
                    assert(cs1[k] == cs[k]);
                    if k > 0 {
                        assert(cs1[k - 1] == cs[k - 1]);
                    }
                }
                assert forall|k: int| 0 <= k < l1.len() implies clean_line(#[trigger] l1[k]) by {
                    assert(l1[k] == l[k]);
                }
                lemma_reformat(t, l1, cs1, d, nl, nl, opts);
                assert(statements_of(t, case) == cs1);
            }
        } else {
            lemma_reformat(t, l, cs, gs, nl, tail, opts);
            assert(statements_of(t, case) == cs);
        }
    }
}

/// Formatting is idempotent: formatting formatted text gives it back.
pub proof fn law_format_idempotent(b: Seq<u8>, opts: FormatOptions)
    ensures
        format_spec(format_spec(b, opts), opts) == format_spec(b, opts),
{
    lemma_format_read_back(b, opts);
}

/// Formatting keeps the statements: the formatted text groups into the same
/// statements, with the same kinds, tokens (a directive's keyword in the
/// chosen case) and comments, save a last blank line that no newline ends.
pub proof fn law_format_keeps_statements(b: Seq<u8>, opts: FormatOptions)
    ensures
        ({
            let cs = statements_of(b, opts.keyword_case);
            let cs2 = statements_of(format_spec(b, opts), opts.keyword_case);
            cs2 == cs || (cs.len() > 0 && cs.last() is Blank && cs2 == cs.drop_last())
        }),
{
    lemma_format_read_back(b, opts);
}

} // verus!
