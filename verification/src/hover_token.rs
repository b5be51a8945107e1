//! Resolve the SPICE construct under the cursor for hover / completion.
use vstd::prelude::*;
use vstd::utf8::*;

use crate::diagnostic::Span;
use crate::text::{
    first_byte, first_byte_exec, is_alnum, is_alpha, last_byte, last_byte_exec,
    lemma_ascii_boundary, lemma_first_byte, lemma_last_byte, lemma_skip_ws, lemma_skip_ws_boundary, lemma_str_valid,
    lower_seq, sb, skip_ws, skip_ws_exec, string_of, to_lower, to_upper, upper_byte, upper_seq,
};

verus! {

/// Kind of hoverable construct.
#[derive(Debug, Clone, Copy, PartialEq, Eq, Structural)]
pub enum HoverKind {
    Directive,
    Element,
}

/// Token under the cursor that can be looked up in the reference corpus.
#[derive(Debug, Clone, PartialEq, Eq)]
pub struct HoverToken {
    pub kind: HoverKind,
    /// Normalized lookup name: `.tran` or `R` (element letter, uppercase).
    pub name: String,
    pub span: Span,
}

/// A byte of a directive name: ASCII letter, digit or `_`.
pub open spec fn is_name_char(c: u8) -> bool {
    is_alnum(c) || c == 95u8
}

/// Length of the run of name characters starting at `i`, before `hi`.
pub open spec fn name_run(b: Seq<u8>, i: int, hi: int) -> int
    decreases hi - i,
{
    if i < hi && is_name_char(b[i]) {
        1 + name_run(b, i + 1, hi)
    } else {
        0
    }
}

/// The hover token at `offset`: kind, name bytes and byte range. The line is
/// the text between the newlines around the (clamped) offset; its first
/// non-blank character decides: a `.` followed by a name gives the lowercased
/// directive, an ASCII letter gives the uppercased element letter.
pub open spec fn hover_spec(b: Seq<u8>, offset: int) -> Option<(HoverKind, Seq<u8>, (int, int))> {
    let off = if offset < b.len() {
        offset
    } else {
        b.len() as int
    };
    let line_start = last_byte(b, 0, off, 10u8) + 1;
    let line_end = first_byte(b, off, b.len() as int, 10u8);
    let cs = skip_ws(b, line_start, line_end);
    if cs >= line_end {
        None
    } else if b[cs] == 46u8 {
        let n = name_run(b, cs + 1, line_end);
        if n == 0 {
            None
        } else {
            Some((HoverKind::Directive, lower_seq(b.subrange(cs, cs + 1 + n)), (cs, cs + 1 + n)))
        }
    } else if is_alpha(b[cs]) {
        Some((HoverKind::Element, upper_seq(b.subrange(cs, cs + 1)), (cs, cs + 1)))
    } else {
        None
    }
}

/// The token matches the spec's kind, name bytes and range.
pub open spec fn token_is(t: HoverToken, v: (HoverKind, Seq<u8>, (int, int))) -> bool {
    t.kind == v.0 && sb(t.name@) == v.1 && t.span.start == v.2.0 && t.span.end == v.2.1
}

fn name_run_exec(b: &[u8], i: usize, hi: usize) -> (n: usize)
    requires
        i <= hi <= b@.len(),
        valid_utf8(b@),
        is_char_boundary(b@, i as int),
    ensures
        n == name_run(b@, i as int, hi as int),
        i + n <= hi,
        is_char_boundary(b@, i + n),
{
    let mut k = i;
    while k < hi && (b[k] == 95 || (48 <= b[k] && b[k] <= 57) || (65 <= b[k] && b[k] <= 90) || (97
        <= b[k] && b[k] <= 122))
        invariant
            i <= k <= hi <= b@.len(),
            valid_utf8(b@),
            is_char_boundary(b@, k as int),
            name_run(b@, i as int, hi as int) == (k - i) + name_run(b@, k as int, hi as int),
        decreases hi - k,
    {
        proof {
            lemma_ascii_boundary(b@, k as int);
        }
        k = k + 1;
    }
    k - i
}

/// Find a hoverable token at byte `offset` in `source`.
pub fn hover_token_at(source: &str, offset: usize) -> (r: Option<HoverToken>)
    requires
        is_char_boundary(
            sb(source@),
            if offset < sb(source@).len() {
                offset as int
            } else {
                sb(source@).len() as int
            },
        ),
    ensures
        match (r, hover_spec(sb(source@), offset as int)) {
            (Some(t), Some(v)) => token_is(t, v),
            (None, None) => true,
            _ => false,
        },
{
    let b = source.as_bytes();
    proof {
        lemma_str_valid(source);
    }
    let off = if offset < b.len() {
        offset
    } else {
        b.len()
    };
    let line_start = match last_byte_exec(b, 0, off, 10) {
        Some(i) => {
            proof {
                lemma_ascii_boundary(b@, i as int);
            }
            i + 1
        },
        None => 0,
    };
    proof {
        lemma_first_byte(b@, off as int, b@.len() as int, 10u8);
    }
    let line_end = first_byte_exec(b, off, b.len(), 10);
    let cs = skip_ws_exec(b, line_start, line_end);
    proof {
        lemma_skip_ws_boundary(b@, line_start as int, line_end as int);
    }
    if cs >= line_end {
        return None;
    }
    if b[cs] == 46 {
        proof {
            lemma_ascii_boundary(b@, cs as int);
        }
        let n = name_run_exec(b, cs + 1, line_end);
        if n == 0 {
            return None;
        }
        let text = string_of(b, cs, cs + 1 + n);
        let name = to_lower(text.as_str());
        Some(HoverToken { kind: HoverKind::Directive, name, span: Span { start: cs, end: cs + 1 + n } })
    } else if (65 <= b[cs] && b[cs] <= 90) || (97 <= b[cs] && b[cs] <= 122) {
        proof {
            lemma_ascii_boundary(b@, cs as int);
        }
        let text = string_of(b, cs, cs + 1);
        let name = to_upper(text.as_str());
        Some(HoverToken { kind: HoverKind::Element, name, span: Span { start: cs, end: cs + 1 } })
    } else {
        None
    }
}


/// On the line `[ls, le)` that holds the (clamped) cursor, whose first
/// non-blank byte is an ASCII letter at `cs`, the hover token is that
/// element letter uppercased, at `cs..cs + 1`, however far the line is
/// indented.
pub proof fn law_hover_element(b: Seq<u8>, offset: int, ls: int, le: int)
    requires
        0 <= offset,
        0 <= ls <= le <= b.len(),
        ls == 0 || b[ls - 1] == 10u8,
        le == b.len() || b[le] == 10u8,
        forall|k: int| ls <= k < le ==> b[k] != 10u8,
        ls <= (if offset < b.len() {
            offset
        } else {
            b.len() as int
        }) <= le,
        skip_ws(b, ls, le) < le,
        is_alpha(b[skip_ws(b, ls, le)]),
    ensures
        ({
            let cs = skip_ws(b, ls, le);
            hover_spec(b, offset) == Some((HoverKind::Element, seq![upper_byte(b[cs])], (cs, cs + 1)))
        }),
{
    let off = if offset < b.len() {
        offset
    } else {
        b.len() as int
    };
    lemma_last_byte(b, 0, off, 10u8);
    lemma_first_byte(b, off, b.len() as int, 10u8);
    let p = last_byte(b, 0, off, 10u8);
    if ls > 0 {
        if p < ls - 1 {
            assert(b[ls - 1] != 10u8);
        }
        if p > ls - 1 {
            assert(b[p] != 10u8);
        }
    } else {
        if p >= 0 {
            assert(b[p] != 10u8);
        }
    }
    assert(p + 1 == ls);
    let q = first_byte(b, off, b.len() as int, 10u8);
    if q < le {
        assert(b[q] != 10u8);
    }
    if q > le {
        assert(b[le] != 10u8);
    }
    assert(q == le);
    let cs = skip_ws(b, ls, le);
    lemma_skip_ws(b, ls, le);
    assert(b[cs] != 46u8);
    assert(b.subrange(cs, cs + 1)[0] == b[cs]);
    assert(upper_seq(b.subrange(cs, cs + 1)) =~= seq![upper_byte(b[cs])]);
}

} // verus!
