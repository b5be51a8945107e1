//! Classification of one netlist line (directive or instance) and the byte
//! spans of the names it defines or references.
use vstd::prelude::*;
use vstd::utf8::*;

use crate::diagnostic::Span;
use crate::text::{
    first_byte, first_byte_exec, has_byte, is_alnum, is_alpha,
    lemma_ascii_boundary, lemma_skip_ws_boundary, lemma_str_valid,
    lemma_ws_tokens_boundary, lower_seq, sb, skip_ws, skip_ws_exec, split_ws, string_of,
    upper_byte, ws_tokens, ws_tokens_from, eq_lower, last_byte, last_byte_exec, lemma_first_byte,
};

verus! {

/// Parsed classification of a source line.
#[derive(Debug, PartialEq, Eq)]
pub enum LineKind {
    Subckt { name: String, name_span: Span },
    Ends { name: Option<String> },
    Model { name: String, name_span: Span },
    Param { name: String, name_span: Span },
    Instance { name: String, name_span: Span, model_ref: Option<(String, Span)> },
    /// `.include` / `.inc` path
    Include { path: String, path_span: Span },
    /// `.lib 'file' entry`: load a named section from a library file
    LibCall { path: String, path_span: Span, entry: String, entry_span: Span },
    /// `.lib entry` section header inside a library file
    LibSection { name: String, name_span: Span },
    /// `.endl` / `.endl entry`
    Endl { name: Option<String> },
    Other,
}

/// Mathematical view of a line classification: each name by its characters.
pub enum LineKindV {
    Subckt { name: Seq<char>, name_span: Span },
    Ends { name: Option<Seq<char>> },
    Model { name: Seq<char>, name_span: Span },
    Param { name: Seq<char>, name_span: Span },
    Instance { name: Seq<char>, name_span: Span, model_ref: Option<(Seq<char>, Span)> },
    Include { path: Seq<char>, path_span: Span },
    LibCall { path: Seq<char>, path_span: Span, entry: Seq<char>, entry_span: Span },
    LibSection { name: Seq<char>, name_span: Span },
    Endl { name: Option<Seq<char>> },
    Other,
}

pub open spec fn opt_view(s: Option<String>) -> Option<Seq<char>> {
    match s {
        Some(x) => Some(x@),
        None => None,
    }
}

impl View for LineKind {
    type V = LineKindV;

    open spec fn view(&self) -> LineKindV {
        match *self {
            LineKind::Subckt { name, name_span } => LineKindV::Subckt { name: name@, name_span },
            LineKind::Ends { name } => LineKindV::Ends { name: opt_view(name) },
            LineKind::Model { name, name_span } => LineKindV::Model { name: name@, name_span },
            LineKind::Param { name, name_span } => LineKindV::Param { name: name@, name_span },
            LineKind::Instance { name, name_span, model_ref } => LineKindV::Instance {
                name: name@,
                name_span,
                model_ref: match model_ref {
                    Some((m, s)) => Some((m@, s)),
                    None => None,
                },
            },
            LineKind::Include { path, path_span } => LineKindV::Include { path: path@, path_span },
            LineKind::LibCall { path, path_span, entry, entry_span } => LineKindV::LibCall {
                path: path@,
                path_span,
                entry: entry@,
                entry_span,
            },
            LineKind::LibSection { name, name_span } => LineKindV::LibSection {
                name: name@,
                name_span,
            },
            LineKind::Endl { name } => LineKindV::Endl { name: opt_view(name) },
            LineKind::Other => LineKindV::Other,
        }
    }
}

/// Views of classified lines.
pub open spec fn lines_v(lines: Seq<(Span, LineKind)>) -> Seq<(Span, LineKindV)> {
    lines.map_values(|l: (Span, LineKind)| (l.0, l.1@))
}

fn clone_opt(s: &Option<String>) -> (r: Option<String>)
    ensures
        opt_view(r) == opt_view(*s),
{
    match s {
        Some(x) => Some(x.clone()),
        None => None,
    }
}

impl LineKind {
    /// A copy of the classification.
    pub fn clone_kind(&self) -> (r: LineKind)
        ensures
            r@ == self@,
    {
        match self {
            LineKind::Subckt { name, name_span } => LineKind::Subckt {
                name: name.clone(),
                name_span: *name_span,
            },
            LineKind::Ends { name } => LineKind::Ends { name: clone_opt(name) },
            LineKind::Model { name, name_span } => LineKind::Model {
                name: name.clone(),
                name_span: *name_span,
            },
            LineKind::Param { name, name_span } => LineKind::Param {
                name: name.clone(),
                name_span: *name_span,
            },
            LineKind::Instance { name, name_span, model_ref } => LineKind::Instance {
                name: name.clone(),
                name_span: *name_span,
                model_ref: match model_ref {
                    Some((m, s)) => Some((m.clone(), *s)),
                    None => None,
                },
            },
            LineKind::Include { path, path_span } => LineKind::Include {
                path: path.clone(),
                path_span: *path_span,
            },
            LineKind::LibCall { path, path_span, entry, entry_span } => LineKind::LibCall {
                path: path.clone(),
                path_span: *path_span,
                entry: entry.clone(),
                entry_span: *entry_span,
            },
            LineKind::LibSection { name, name_span } => LineKind::LibSection {
                name: name.clone(),
                name_span: *name_span,
            },
            LineKind::Endl { name } => LineKind::Endl { name: clone_opt(name) },
            LineKind::Other => LineKind::Other,
        }
    }
}

/// A byte window `[start, end)` of the source.
pub type Win = (int, int);

/// Classification of a line with every name given as a window of the source.
pub enum LineClass {
    Subckt { name: Win, name_span: Win },
    Ends { name: Option<Win> },
    Model { name: Win, name_span: Win },
    Param { name: Win, name_span: Win },
    Instance { name: Win, name_span: Win, model_ref: Option<(Win, Win)> },
    Include { path: Win, path_span: Win },
    LibCall { path: Win, path_span: Win, entry: Win, entry_span: Win },
    LibSection { name: Win, name_span: Win },
    Endl { name: Option<Win> },
    Other,
}

/// A string holds exactly the bytes of a window.
pub open spec fn text_is(b: Seq<u8>, s: String, w: Win) -> bool {
    sb(s@) == b.subrange(w.0, w.1)
}

/// A span equals a window.
pub open spec fn span_is(s: Span, w: Win) -> bool {
    s.start == w.0 && s.end == w.1
}

pub open spec fn opt_text_is(b: Seq<u8>, s: Option<String>, w: Option<Win>) -> bool {
    match (s, w) {
        (Some(s), Some(w)) => text_is(b, s, w),
        (None, None) => true,
        _ => false,
    }
}

/// An executable classification agrees with a window classification.
pub open spec fn kind_matches(b: Seq<u8>, k: LineKind, c: LineClass) -> bool {
    match (k, c) {
        (LineKind::Subckt { name, name_span }, LineClass::Subckt { name: w, name_span: sw }) => {
            text_is(b, name, w) && span_is(name_span, sw)
        },
        (LineKind::Ends { name }, LineClass::Ends { name: w }) => opt_text_is(b, name, w),
        (LineKind::Model { name, name_span }, LineClass::Model { name: w, name_span: sw }) => {
            text_is(b, name, w) && span_is(name_span, sw)
        },
        (LineKind::Param { name, name_span }, LineClass::Param { name: w, name_span: sw }) => {
            text_is(b, name, w) && span_is(name_span, sw)
        },
        (
            LineKind::Instance { name, name_span, model_ref },
            LineClass::Instance { name: w, name_span: sw, model_ref: mw },
        ) => {
            &&& text_is(b, name, w)
            &&& span_is(name_span, sw)
            &&& match (model_ref, mw) {
                (Some((m, ms)), Some((mw, msw))) => text_is(b, m, mw) && span_is(ms, msw),
                (None, None) => true,
                _ => false,
            }
        },
        (LineKind::Include { path, path_span }, LineClass::Include { path: w, path_span: sw }) => {
            text_is(b, path, w) && span_is(path_span, sw)
        },
        (
            LineKind::LibCall { path, path_span, entry, entry_span },
            LineClass::LibCall { path: pw, path_span: psw, entry: ew, entry_span: esw },
        ) => {
            &&& text_is(b, path, pw)
            &&& span_is(path_span, psw)
            &&& text_is(b, entry, ew)
            &&& span_is(entry_span, esw)
        },
        (LineKind::LibSection { name, name_span }, LineClass::LibSection { name: w, name_span: sw }) => {
            text_is(b, name, w) && span_is(name_span, sw)
        },
        (LineKind::Endl { name }, LineClass::Endl { name: w }) => opt_text_is(b, name, w),
        (LineKind::Other, LineClass::Other) => true,
        _ => false,
    }
}

pub open spec fn word_subckt() -> Seq<u8> {
    seq![115u8, 117u8, 98u8, 99u8, 107u8, 116u8]
}

pub open spec fn word_ends() -> Seq<u8> {
    seq![101u8, 110u8, 100u8, 115u8]
}

pub open spec fn word_model() -> Seq<u8> {
    seq![109u8, 111u8, 100u8, 101u8, 108u8]
}

pub open spec fn word_param() -> Seq<u8> {
    seq![112u8, 97u8, 114u8, 97u8, 109u8]
}

pub open spec fn word_include() -> Seq<u8> {
    seq![105u8, 110u8, 99u8, 108u8, 117u8, 100u8, 101u8]
}

pub open spec fn word_inc() -> Seq<u8> {
    seq![105u8, 110u8, 99u8]
}

pub open spec fn word_lib() -> Seq<u8> {
    seq![108u8, 105u8, 98u8]
}

pub open spec fn word_endl() -> Seq<u8> {
    seq![101u8, 110u8, 100u8, 108u8]
}

/// The lowercased window spells `word`.
pub open spec fn is_word(b: Seq<u8>, w: Win, word: Seq<u8>) -> bool {
    lower_seq(b.subrange(w.0, w.1)) == word
}

/// End of the line window: the span end clamped to the buffer.
pub open spec fn line_hi(b: Seq<u8>, ls: Span) -> int {
    if (ls.end as int) < b.len() {
        ls.end as int
    } else {
        b.len() as int
    }
}

/// `trim_start_matches('.')`.
pub open spec fn skip_dots(b: Seq<u8>, i: int, hi: int) -> int
    decreases hi - i,
{
    if i < hi && b[i] == 46u8 {
        skip_dots(b, i + 1, hi)
    } else {
        i
    }
}

pub open spec fn starts_and_ends_with(b: Seq<u8>, w: Win, q: u8) -> bool {
    w.0 < w.1 && b[w.0] == q && b[w.1 - 1] == q
}

/// Token wrapped in matching single or double quotes.
pub open spec fn is_quoted_w(b: Seq<u8>, w: Win) -> bool {
    starts_and_ends_with(b, w, 39u8) || starts_and_ends_with(b, w, 34u8)
}

/// Strip one pair of matching quotes from a token of at least two bytes.
pub open spec fn unquote_w(b: Seq<u8>, w: Win) -> Win {
    if w.1 - w.0 >= 2 && is_quoted_w(b, w) {
        (w.0 + 1, w.1 - 1)
    } else {
        w
    }
}

/// A path separator or a dot occurs in the window.
pub open spec fn has_path_char(b: Seq<u8>, w: Win) -> bool {
    has_byte(b, w.0, w.1, 47u8) || has_byte(b, w.0, w.1, 92u8) || has_byte(b, w.0, w.1, 46u8)
}

/// A token that names a file: quoted, or containing `/`, `\` or `.`.
pub open spec fn looks_like_path_w(b: Seq<u8>, w: Win) -> bool {
    is_quoted_w(b, w) || has_path_char(b, unquote_w(b, w))
}

/// Span of a path or entry token: its text without the quotes, or the
/// token itself where nothing is left inside them.
pub open spec fn path_span_spec(b: Seq<u8>, tok: Win) -> Win {
    let nd = unquote_w(b, tok);
    if nd.1 == nd.0 {
        tok
    } else {
        nd
    }
}

pub open spec fn include_spec(b: Seq<u8>, t: Seq<Win>) -> LineClass {
    if t.len() < 2 {
        LineClass::Other
    } else {
        let p = unquote_w(b, t[1]);
        if p.1 == p.0 {
            LineClass::Other
        } else {
            LineClass::Include { path: p, path_span: path_span_spec(b, t[1]) }
        }
    }
}

pub open spec fn lib_spec(b: Seq<u8>, t: Seq<Win>) -> LineClass {
    if t.len() < 2 {
        LineClass::Other
    } else {
        let first = t[1];
        let u = unquote_w(b, first);
        if t.len() >= 3 {
            if looks_like_path_w(b, first) {
                let e = unquote_w(b, t[2]);
                if u.1 == u.0 || e.1 == e.0 {
                    LineClass::Other
                } else {
                    LineClass::LibCall {
                        path: u,
                        path_span: path_span_spec(b, first),
                        entry: e,
                        entry_span: path_span_spec(b, t[2]),
                    }
                }
            } else {
                LineClass::LibSection { name: u, name_span: path_span_spec(b, first) }
            }
        } else if u.1 == u.0 {
            LineClass::Other
        } else if looks_like_path_w(b, first) && has_path_char(b, u) {
            LineClass::Include { path: u, path_span: path_span_spec(b, first) }
        } else {
            LineClass::LibSection { name: u, name_span: path_span_spec(b, first) }
        }
    }
}

/// Directive line: the first token after the leading dots names the directive.
pub open spec fn directive_spec(b: Seq<u8>, tlo: int, hi: int) -> LineClass {
    let t = ws_tokens(b, skip_dots(b, tlo, hi), hi);
    if t.len() == 0 {
        LineClass::Other
    } else {
        let d = t[0];
        if is_word(b, d, word_subckt()) {
            if t.len() > 1 {
                LineClass::Subckt { name: t[1], name_span: t[1] }
            } else {
                LineClass::Other
            }
        } else if is_word(b, d, word_ends()) {
            LineClass::Ends {
                name: if t.len() > 1 {
                    Some(t[1])
                } else {
                    None
                },
            }
        } else if is_word(b, d, word_model()) {
            if t.len() > 1 {
                LineClass::Model { name: t[1], name_span: t[1] }
            } else {
                LineClass::Other
            }
        } else if is_word(b, d, word_param()) {
            if t.len() > 1 {
                let n = (t[1].0, first_byte(b, t[1].0, t[1].1, 61u8));
                if n.1 == n.0 {
                    LineClass::Other
                } else {
                    LineClass::Param { name: n, name_span: n }
                }
            } else {
                LineClass::Other
            }
        } else if is_word(b, d, word_include()) || is_word(b, d, word_inc()) {
            include_spec(b, t)
        } else if is_word(b, d, word_lib()) {
            lib_spec(b, t)
        } else if is_word(b, d, word_endl()) {
            LineClass::Endl {
                name: if t.len() > 1 {
                    Some(unquote_w(b, t[1]))
                } else {
                    None
                },
            }
        } else {
            LineClass::Other
        }
    }
}

/// Bytes allowed after the first letter of an instance name.
pub open spec fn is_name_byte(c: u8) -> bool {
    is_alnum(c) || c == 95u8 || c == 46u8 || c == 36u8 || c == 58u8 || c == 35u8 || c == 91u8
        || c == 93u8 || c == 60u8 || c == 62u8 || c == 45u8
}

pub open spec fn name_end(b: Seq<u8>, i: int, hi: int) -> int
    decreases hi - i,
{
    if i < hi && is_name_byte(b[i]) {
        name_end(b, i + 1, hi)
    } else {
        i
    }
}

/// Instance line: a letter followed by name bytes; `X` lines reference the
/// last token as a subcircuit unless it is a `key=value`, `M` lines the
/// sixth token as a model.
pub open spec fn instance_spec(b: Seq<u8>, tlo: int, hi: int) -> LineClass {
    if tlo >= hi || !is_alpha(b[tlo]) {
        LineClass::Other
    } else {
        let ne = name_end(b, tlo + 1, hi);
        if ne - tlo <= 1 {
            LineClass::Other
        } else {
            let t = ws_tokens(b, tlo, hi);
            let el = upper_byte(b[tlo]);
            let mr = if el == 88u8 && t.len() >= 2 {
                let m = t[t.len() - 1];
                if has_byte(b, m.0, m.1, 61u8) {
                    None
                } else {
                    Some((m, m))
                }
            } else if el == 77u8 && t.len() >= 6 {
                Some((t[5], t[5]))
            } else {
                None
            };
            LineClass::Instance {
                name: (tlo, ne),
                name_span: (tlo, ne),
                model_ref: mr,
            }
        }
    }
}

/// Classification of the line window `ls` of buffer `b`.
pub open spec fn classify_spec(b: Seq<u8>, ls: Span) -> LineClass {
    let hi = line_hi(b, ls);
    let tlo = skip_ws(b, ls.start as int, hi);
    if tlo < hi && b[tlo] == 46u8 {
        directive_spec(b, tlo, hi)
    } else {
        instance_spec(b, tlo, hi)
    }
}

/// Common preconditions of the helpers: a valid buffer and a trimmed text
/// window `[tlo, hi)` inside the line `ls`, with boundaries at both ends.
pub open spec fn line_ctx(b: Seq<u8>, ls: Span, tlo: int, hi: int) -> bool {
    &&& valid_utf8(b)
    &&& ls.start <= tlo <= hi
    &&& hi == line_hi(b, ls)
    &&& is_char_boundary(b, tlo)
    &&& is_char_boundary(b, hi)
}

fn unquote(b: &[u8], lo: usize, hi: usize) -> (r: (usize, usize))
    requires
        lo <= hi <= b@.len(),
    ensures
        r.0 as int == unquote_w(b@, (lo as int, hi as int)).0,
        r.1 as int == unquote_w(b@, (lo as int, hi as int)).1,
        lo <= r.0 <= r.1 <= hi,
{
    if hi - lo >= 2 && ((b[lo] == 39 && b[hi - 1] == 39) || (b[lo] == 34 && b[hi - 1] == 34)) {
        (lo + 1, hi - 1)
    } else {
        (lo, hi)
    }
}

fn is_quoted(b: &[u8], lo: usize, hi: usize) -> (r: bool)
    requires
        lo <= hi <= b@.len(),
    ensures
        r == is_quoted_w(b@, (lo as int, hi as int)),
{
    lo < hi && ((b[lo] == 39 && b[hi - 1] == 39) || (b[lo] == 34 && b[hi - 1] == 34))
}

fn has_path_char_exec(b: &[u8], lo: usize, hi: usize) -> (r: bool)
    requires
        lo <= hi <= b@.len(),
    ensures
        r == has_path_char(b@, (lo as int, hi as int)),
{
    first_byte_exec(b, lo, hi, 47) < hi || first_byte_exec(b, lo, hi, 92) < hi
        || first_byte_exec(b, lo, hi, 46) < hi
}

fn looks_like_path(b: &[u8], lo: usize, hi: usize) -> (r: bool)
    requires
        lo <= hi <= b@.len(),
    ensures
        r == looks_like_path_w(b@, (lo as int, hi as int)),
{
    let (ulo, uhi) = unquote(b, lo, hi);
    is_quoted(b, lo, hi) || has_path_char_exec(b, ulo, uhi)
}

/// Quote stripping keeps character boundaries.
proof fn lemma_unquote_boundary(b: Seq<u8>, w: Win)
    requires
        valid_utf8(b),
        0 <= w.0 <= w.1 <= b.len(),
        is_char_boundary(b, w.0),
        is_char_boundary(b, w.1),
    ensures
        is_char_boundary(b, unquote_w(b, w).0),
        is_char_boundary(b, unquote_w(b, w).1),
{
    if w.1 - w.0 >= 2 && is_quoted_w(b, w) {
        lemma_ascii_boundary(b, w.0);
        lemma_ascii_boundary(b, w.1 - 1);
    }
}

fn path_span(b: &[u8], lo: usize, thi: usize) -> (s: Span)
    requires
        lo <= thi <= b@.len(),
    ensures
        span_is(s, path_span_spec(b@, (lo as int, thi as int))),
{
    let (nlo, nhi) = unquote(b, lo, thi);
    if nhi == nlo {
        Span { start: lo, end: thi }
    } else {
        Span { start: nlo, end: nhi }
    }
}

/// Token list with boundary facts.
pub fn tokens(b: &[u8], lo: usize, hi: usize) -> (t: Vec<(usize, usize)>)
    requires
        lo <= hi <= b@.len(),
        valid_utf8(b@),
        is_char_boundary(b@, lo as int),
        is_char_boundary(b@, hi as int),
    ensures
        t@.len() == ws_tokens(b@, lo as int, hi as int).len(),
        forall|k: int|
            0 <= k < t@.len() ==> (#[trigger] t@[k]).0 == ws_tokens(b@, lo as int, hi as int)[k].0
                && t@[k].1 == ws_tokens(b@, lo as int, hi as int)[k].1,
        forall|k: int|
            0 <= k < t@.len() ==> lo <= (#[trigger] t@[k]).0 < t@[k].1 <= hi && is_char_boundary(
                b@,
                t@[k].0 as int,
            ) && is_char_boundary(b@, t@[k].1 as int),
{
    let t = split_ws(b, lo, hi);
    proof {
        lemma_ws_tokens_boundary(b@, lo as int, hi as int, None);
        assert forall|k: int| 0 <= k < t@.len() implies is_char_boundary(
            b@,
            (#[trigger] t@[k]).0 as int,
        ) && is_char_boundary(b@, t@[k].1 as int) by {
            let x = ws_tokens_from(b@, lo as int, hi as int, None)[k];
            assert(x.0 == t@[k].0 && x.1 == t@[k].1);
        }
    }
    t
}

fn text_of(b: &[u8], lo: usize, hi: usize) -> (s: String)
    requires
        lo <= hi <= b@.len(),
        valid_utf8(b@),
        is_char_boundary(b@, lo as int),
        is_char_boundary(b@, hi as int),
    ensures
        text_is(b@, s, (lo as int, hi as int)),
{
    string_of(b, lo, hi)
}

fn classify_include(b: &[u8], ls: Span, tlo: usize, hi: usize, t: &Vec<(usize, usize)>) -> (k:
    LineKind)
    requires
        line_ctx(b@, ls, tlo as int, hi as int),
        hi <= b@.len(),
        forall|j: int|
            0 <= j < t@.len() ==> tlo <= (#[trigger] t@[j]).0 < t@[j].1 <= hi && is_char_boundary(
                b@,
                t@[j].0 as int,
            ) && is_char_boundary(b@, t@[j].1 as int),
    ensures
        kind_matches(
            b@,
            k,
            include_spec(
                b@,
                t@.map_values(|x: (usize, usize)| (x.0 as int, x.1 as int)),
            ),
        ),
{
    let ghost tw = t@.map_values(|x: (usize, usize)| (x.0 as int, x.1 as int));
    if t.len() < 2 {
        return LineKind::Other;
    }
    let (lo, thi) = t[1];
    assert(tw[1] == (lo as int, thi as int));
    let (plo, phi) = unquote(b, lo, thi);
    if plo == phi {
        return LineKind::Other;
    }
    proof {
        lemma_unquote_boundary(b@, (lo as int, thi as int));
    }
    LineKind::Include { path: text_of(b, plo, phi), path_span: path_span(b, lo, thi) }
}

fn classify_lib(b: &[u8], ls: Span, tlo: usize, hi: usize, t: &Vec<(usize, usize)>) -> (k:
    LineKind)
    requires
        line_ctx(b@, ls, tlo as int, hi as int),
        hi <= b@.len(),
        forall|j: int|
            0 <= j < t@.len() ==> tlo <= (#[trigger] t@[j]).0 < t@[j].1 <= hi && is_char_boundary(
                b@,
                t@[j].0 as int,
            ) && is_char_boundary(b@, t@[j].1 as int),
    ensures
        kind_matches(
            b@,
            k,
            lib_spec(
                b@,
                t@.map_values(|x: (usize, usize)| (x.0 as int, x.1 as int)),
            ),
        ),
{
    let ghost tw = t@.map_values(|x: (usize, usize)| (x.0 as int, x.1 as int));
    if t.len() < 2 {
        return LineKind::Other;
    }
    let (flo, fhi) = t[1];
    assert(tw[1] == (flo as int, fhi as int));
    let (ulo, uhi) = unquote(b, flo, fhi);
    proof {
        lemma_unquote_boundary(b@, (flo as int, fhi as int));
    }
    if t.len() >= 3 {
        let (elo, ehi) = t[2];
        assert(tw[2] == (elo as int, ehi as int));
        if looks_like_path(b, flo, fhi) {
            let (eulo, euhi) = unquote(b, elo, ehi);
            if ulo == uhi || eulo == euhi {
                return LineKind::Other;
            }
            proof {
                lemma_unquote_boundary(b@, (elo as int, ehi as int));
            }
            LineKind::LibCall {
                path: text_of(b, ulo, uhi),
                path_span: path_span(b, flo, fhi),
                entry: text_of(b, eulo, euhi),
                entry_span: path_span(b, elo, ehi),
            }
        } else {
            LineKind::LibSection {
                name: text_of(b, ulo, uhi),
                name_span: path_span(b, flo, fhi),
            }
        }
    } else if ulo == uhi {
        LineKind::Other
    } else if looks_like_path(b, flo, fhi) && has_path_char_exec(b, ulo, uhi) {
        LineKind::Include {
            path: text_of(b, ulo, uhi),
            path_span: path_span(b, flo, fhi),
        }
    } else {
        LineKind::LibSection {
            name: text_of(b, ulo, uhi),
            name_span: path_span(b, flo, fhi),
        }
    }
}

pub fn skip_dots_exec(b: &[u8], i: usize, hi: usize) -> (r: usize)
    requires
        i <= hi <= b@.len(),
        valid_utf8(b@),
        is_char_boundary(b@, i as int),
    ensures
        r == skip_dots(b@, i as int, hi as int),
        i <= r <= hi,
        is_char_boundary(b@, r as int),
{
    let mut k = i;
    while k < hi && b[k] == 46
        invariant
            i <= k <= hi <= b@.len(),
            skip_dots(b@, k as int, hi as int) == skip_dots(b@, i as int, hi as int),
            valid_utf8(b@),
            is_char_boundary(b@, k as int),
        decreases hi - k,
    {
        proof {
            lemma_ascii_boundary(b@, k as int);
        }
        k = k + 1;
    }
    k
}

fn classify_directive(b: &[u8], ls: Span, tlo: usize, hi: usize) -> (k: LineKind)
    requires
        line_ctx(b@, ls, tlo as int, hi as int),
        hi <= b@.len(),
    ensures
        kind_matches(b@, k, directive_spec(b@, tlo as int, hi as int)),
{
    let rlo = skip_dots_exec(b, tlo, hi);
    let t = tokens(b, rlo, hi);
    let ghost tw = t@.map_values(|x: (usize, usize)| (x.0 as int, x.1 as int));
    proof {
        assert(tw =~= ws_tokens(b@, rlo as int, hi as int));
    }
    if t.len() == 0 {
        return LineKind::Other;
    }
    let (dlo, dhi) = t[0];
    assert(tw[0] == (dlo as int, dhi as int));
    let has_name = t.len() > 1;
    let (nlo, nhi) = if has_name {
        t[1]
    } else {
        (0, 0)
    };
    assert(has_name ==> tw[1] == (nlo as int, nhi as int));
    let w_subckt: [u8; 6] = [115, 117, 98, 99, 107, 116];
    let w_ends: [u8; 4] = [101, 110, 100, 115];
    let w_model: [u8; 5] = [109, 111, 100, 101, 108];
    let w_param: [u8; 5] = [112, 97, 114, 97, 109];
    let w_include: [u8; 7] = [105, 110, 99, 108, 117, 100, 101];
    let w_inc: [u8; 3] = [105, 110, 99];
    let w_lib: [u8; 3] = [108, 105, 98];
    let w_endl: [u8; 4] = [101, 110, 100, 108];
    assert(w_subckt@ == word_subckt());
    assert(w_ends@ == word_ends());
    assert(w_model@ == word_model());
    assert(w_param@ == word_param());
    assert(w_include@ == word_include());
    assert(w_inc@ == word_inc());
    assert(w_lib@ == word_lib());
    assert(w_endl@ == word_endl());
    if eq_lower(b, dlo, dhi, &w_subckt) {
        if has_name {
            LineKind::Subckt {
                name: text_of(b, nlo, nhi),
                name_span: Span { start: nlo, end: nhi },
            }
        } else {
            LineKind::Other
        }
    } else if eq_lower(b, dlo, dhi, &w_ends) {
        if has_name {
            LineKind::Ends { name: Some(text_of(b, nlo, nhi)) }
        } else {
            LineKind::Ends { name: None }
        }
    } else if eq_lower(b, dlo, dhi, &w_model) {
        if has_name {
            LineKind::Model {
                name: text_of(b, nlo, nhi),
                name_span: Span { start: nlo, end: nhi },
            }
        } else {
            LineKind::Other
        }
    } else if eq_lower(b, dlo, dhi, &w_param) {
        if has_name {
            let eq = first_byte_exec(b, nlo, nhi, 61);
            if eq == nlo {
                LineKind::Other
            } else {
                proof {
                    if eq < nhi {
                        lemma_ascii_boundary(b@, eq as int);
                    }
                }
                LineKind::Param {
                    name: text_of(b, nlo, eq),
                    name_span: Span { start: nlo, end: eq },
                }
            }
        } else {
            LineKind::Other
        }
    } else if eq_lower(b, dlo, dhi, &w_include) || eq_lower(b, dlo, dhi, &w_inc) {
        classify_include(b, ls, tlo, hi, &t)
    } else if eq_lower(b, dlo, dhi, &w_lib) {
        classify_lib(b, ls, tlo, hi, &t)
    } else if eq_lower(b, dlo, dhi, &w_endl) {
        if has_name {
            let (ulo, uhi) = unquote(b, nlo, nhi);
            proof {
                lemma_unquote_boundary(b@, (nlo as int, nhi as int));
            }
            LineKind::Endl { name: Some(text_of(b, ulo, uhi)) }
        } else {
            LineKind::Endl { name: None }
        }
    } else {
        LineKind::Other
    }
}

fn name_byte(c: u8) -> (r: bool)
    ensures
        r == is_name_byte(c),
{
    (65 <= c && c <= 90) || (97 <= c && c <= 122) || (48 <= c && c <= 57) || c == 95 || c == 46
        || c == 36 || c == 58 || c == 35 || c == 91 || c == 93 || c == 60 || c == 62 || c == 45
}

fn name_end_exec(b: &[u8], i: usize, hi: usize) -> (r: usize)
    requires
        i <= hi <= b@.len(),
    ensures
        r == name_end(b@, i as int, hi as int),
        i <= r <= hi,
        forall|j: int| i <= j < r ==> is_name_byte(#[trigger] b@[j]),
{
    let mut k = i;
    while k < hi && name_byte(b[k])
        invariant
            i <= k <= hi <= b@.len(),
            name_end(b@, k as int, hi as int) == name_end(b@, i as int, hi as int),
            forall|j: int| i <= j < k ==> is_name_byte(#[trigger] b@[j]),
        decreases hi - k,
    {
        k = k + 1;
    }
    k
}

fn classify_instance(b: &[u8], ls: Span, tlo: usize, hi: usize) -> (k: LineKind)
    requires
        line_ctx(b@, ls, tlo as int, hi as int),
        hi <= b@.len(),
    ensures
        kind_matches(b@, k, instance_spec(b@, tlo as int, hi as int)),
{
    if tlo >= hi {
        return LineKind::Other;
    }
    let c = b[tlo];
    if !((65 <= c && c <= 90) || (97 <= c && c <= 122)) {
        return LineKind::Other;
    }
    let ne = name_end_exec(b, tlo + 1, hi);
    if ne - tlo <= 1 {
        return LineKind::Other;
    }
    proof {
        assert(is_name_byte(b@[ne - 1]));
        lemma_ascii_boundary(b@, ne - 1);
    }
    let t = tokens(b, tlo, hi);
    let ghost tw = t@.map_values(|x: (usize, usize)| (x.0 as int, x.1 as int));
    proof {
        assert(tw =~= ws_tokens(b@, tlo as int, hi as int));
    }
    let el = if 97 <= c && c <= 122 {
        c - 32
    } else {
        c
    };
    let model_ref = if el == 88 && t.len() >= 2 {
        let (mlo, mhi) = t[t.len() - 1];
        assert(tw[tw.len() - 1] == (mlo as int, mhi as int));
        if first_byte_exec(b, mlo, mhi, 61) < mhi {
            None
        } else {
            Some((text_of(b, mlo, mhi), Span { start: mlo, end: mhi }))
        }
    } else if el == 77 && t.len() >= 6 {
        let (mlo, mhi) = t[5];
        assert(tw[5] == (mlo as int, mhi as int));
        Some((text_of(b, mlo, mhi), Span { start: mlo, end: mhi }))
    } else {
        None
    };
    LineKind::Instance {
        name: text_of(b, tlo, ne),
        name_span: Span { start: tlo, end: ne },
        model_ref,
    }
}

/// Classify a line and extract symbol spans relative to `source`.
pub fn classify_line(source: &str, line_span: Span) -> (k: LineKind)
    requires
        line_span.start <= line_hi(sb(source@), line_span),
        is_char_boundary(sb(source@), line_span.start as int),
        is_char_boundary(sb(source@), line_hi(sb(source@), line_span)),
    ensures
        kind_matches(sb(source@), k, classify_spec(sb(source@), line_span)),
{
    let b = source.as_bytes();
    proof {
        lemma_str_valid(source);
    }
    let hi = if line_span.end < b.len() {
        line_span.end
    } else {
        b.len()
    };
    let tlo = skip_ws_exec(b, line_span.start, hi);
    proof {
        lemma_skip_ws_boundary(b@, line_span.start as int, hi as int);
    }
    if tlo < hi && b[tlo] == 46 {
        classify_directive(b, line_span, tlo, hi)
    } else {
        classify_instance(b, line_span, tlo, hi)
    }
}


/// The line containing `offset` (clamped to the buffer), including its
/// trailing newline when present.
pub open spec fn line_around(b: Seq<u8>, offset: int) -> Win {
    let off = if offset < b.len() {
        offset
    } else {
        b.len() as int
    };
    let start = last_byte(b, 0, off, 10u8) + 1;
    let f = first_byte(b, off, b.len() as int, 10u8);
    let end = if f < b.len() {
        f + 1
    } else {
        b.len() as int
    };
    (start, end)
}

/// Byte span of the source line containing `offset` (including the trailing
/// newline if present); `None` for an empty buffer.
pub fn line_span_containing(source: &str, offset: usize) -> (r: Option<Span>)
    requires
        is_char_boundary(
            sb(source@),
            if offset < sb(source@).len() {
                offset as int
            } else {
                sb(source@).len() as int
            },
        ),
    ensures
        match r {
            Some(s) => sb(source@).len() > 0 && span_is(s, line_around(sb(source@), offset as int)),
            None => sb(source@).len() == 0,
        },
        r matches Some(s) ==> s.start <= s.end <= sb(source@).len() && is_char_boundary(
            sb(source@),
            s.start as int,
        ) && is_char_boundary(sb(source@), s.end as int),
{
    let b = source.as_bytes();
    if b.len() == 0 {
        return None;
    }
    proof {
        lemma_str_valid(source);
    }
    let off = if offset < b.len() {
        offset
    } else {
        b.len()
    };
    let start = match last_byte_exec(b, 0, off, 10) {
        Some(i) => {
            proof {
                lemma_ascii_boundary(b@, i as int);
            }
            i + 1
        },
        None => 0,
    };
    proof {
        lemma_first_byte(b@, off as int, b@.len() as int, 10u8);
    }
    let f = first_byte_exec(b, off, b.len(), 10);
    let end = if f < b.len() {
        proof {
            lemma_ascii_boundary(b@, f as int);
        }
        f + 1
    } else {
        b.len()
    };
    Some(Span { start, end })
}

/// The model/subcircuit reference under `offset` on an instance line.
pub open spec fn model_ref_at_spec(b: Seq<u8>, offset: int) -> Option<(Win, Win)> {
    if b.len() == 0 {
        None
    } else {
        let w = line_around(b, offset);
        let ls = Span { start: w.0 as usize, end: w.1 as usize };
        match classify_spec(b, ls) {
            LineClass::Instance { model_ref: Some((m, ms)), .. } => if ms.0 <= offset <= ms.1 {
                Some((m, ms))
            } else {
                None
            },
            _ => None,
        }
    }
}

/// Model/subckt token under `offset` on an instance line.
pub fn model_ref_at_offset(source: &str, offset: usize) -> (r: Option<(String, Span)>)
    requires
        is_char_boundary(
            sb(source@),
            if offset < sb(source@).len() {
                offset as int
            } else {
                sb(source@).len() as int
            },
        ),
    ensures
        match (r, model_ref_at_spec(sb(source@), offset as int)) {
            (Some((n, s)), Some((nw, sw))) => text_is(sb(source@), n, nw) && span_is(s, sw),
            (None, None) => true,
            _ => false,
        },
{
    let line_span = match line_span_containing(source, offset) {
        Some(s) => s,
        None => return None,
    };
    let k = classify_line(source, line_span);
    match k {
        LineKind::Instance { model_ref: Some((name, span)), .. } => {
            if offset >= span.start && offset <= span.end {
                Some((name, span))
            } else {
                None
            }
        },
        _ => None,
    }
}

} // verus!
