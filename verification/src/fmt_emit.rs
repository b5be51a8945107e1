//! Laying out the tokens of one statement as output lines: optional column
//! padding, soft wrapping with `+` continuation lines, and a trailing comment.
use vstd::prelude::*;
use vstd::utf8::*;

use crate::format_idem::qopen;
use crate::text::{copy_window, lemma_ascii_valid, lemma_rskip_ws, lemma_trim_end_valid, rskip_ws, rskip_ws_exec};

verus! {

/// The byte strings of a list of byte vectors.
pub open spec fn vv(v: Seq<Vec<u8>>) -> Seq<Seq<u8>> {
    v.map_values(|x: Vec<u8>| x@)
}

/// Every byte string is valid UTF-8.
pub open spec fn all_valid(v: Seq<Seq<u8>>) -> bool {
    forall|i: int| 0 <= i < v.len() ==> valid_utf8(#[trigger] v[i])
}

/// `n` spaces.
pub open spec fn spaces(n: int) -> Seq<u8> {
    Seq::new(n as nat, |i: int| 32u8)
}

/// Number of characters of UTF-8 text: the bytes that do not continue a
/// character.
pub open spec fn char_count(s: Seq<u8>) -> int
    decreases s.len(),
{
    if s.len() == 0 {
        0
    } else {
        char_count(s.drop_last()) + if is_continuation_byte(s.last()) {
            0int
        } else {
            1int
        }
    }
}

/// `format!("{t:<width$}")`: left-aligned, padded with spaces to `width`
/// characters.
pub open spec fn pad_to(t: Seq<u8>, width: int) -> Seq<u8> {
    if char_count(t) < width {
        t + spaces(width - char_count(t))
    } else {
        t
    }
}

/// `str::trim_end`.
pub open spec fn trim_end(s: Seq<u8>) -> Seq<u8> {
    s.subrange(0, rskip_ws(s, 0, s.len() as int))
}

/// Column strides: each width plus the one-space gap, except the last.
pub open spec fn strides_of(w: Seq<int>) -> Seq<int> {
    Seq::new(w.len(), |i: int| if i + 1 == w.len() { w[i] } else { w[i] + 1 })
}

/// State of the layout after a prefix of the tokens.
pub struct EmitSt {
    pub lines: Seq<Seq<u8>>,
    pub current: Seq<u8>,
    pub col: int,
    pub on_cont: bool,
    /// The last token laid out leaves a quote open.
    pub after_open: bool,
}

/// A token that leaves a quote open: it takes in the rest of its line when
/// read, so nothing may follow it there.
pub open spec fn opens_quote(t: Seq<u8>) -> bool {
    qopen(t, t.len() as int) is Some
}

/// The head of a continuation line: `+` and the indent.
pub open spec fn cont_head(indent: Seq<u8>) -> Seq<u8> {
    seq![43u8] + indent
}

/// Effect of one token on the layout.
pub open spec fn emit_step(
    st: EmitSt,
    tok: Seq<u8>,
    strides: Option<Seq<int>>,
    indent: Seq<u8>,
    max_width: int,
) -> EmitSt {
    let piece = if !st.on_cont {
        match strides {
            Some(sd) => pad_to(
                tok,
                if 0 <= st.col < sd.len() {
                    sd[st.col]
                } else {
                    tok.len() as int
                },
            ),
            None => tok,
        }
    } else {
        tok
    };
    let col = if !st.on_cont {
        st.col + 1
    } else {
        st.col
    };
    let opened = opens_quote(tok);
    if st.current.len() == 0 {
        EmitSt {
            current: if st.on_cont {
                cont_head(indent) + trim_end(piece)
            } else {
                piece
            },
            col,
            after_open: opened,
            ..st
        }
    } else {
        let candidate = if st.on_cont || strides is None {
            trim_end(st.current) + seq![32u8] + trim_end(piece)
        } else {
            st.current + piece
        };
        if char_count(candidate) > max_width || st.after_open {
            EmitSt {
                lines: st.lines.push(trim_end(st.current)),
                current: cont_head(indent) + trim_end(tok),
                col,
                on_cont: true,
                after_open: opened,
            }
        } else {
            EmitSt { current: candidate, col, after_open: opened, ..st }
        }
    }
}

/// The layout after all of `tokens`.
pub open spec fn emit_fold(
    tokens: Seq<Seq<u8>>,
    strides: Option<Seq<int>>,
    indent: Seq<u8>,
    max_width: int,
) -> EmitSt
    decreases tokens.len(),
{
    if tokens.len() == 0 {
        EmitSt { lines: seq![], current: seq![], col: 0, on_cont: false, after_open: false }
    } else {
        emit_step(emit_fold(tokens.drop_last(), strides, indent, max_width), tokens.last(), strides, indent, max_width)
    }
}

/// The output lines of one statement: its tokens joined by single spaces (or
/// padded to the column widths), wrapped with `+` lines once a line would
/// exceed the width (at least 20 characters) and after a token that leaves
/// a quote open, and the comment two spaces after the last line (on a `+`
/// line of its own when that line ends in an open quote) or alone when there
/// are no tokens.
pub open spec fn emit_spec(
    tokens: Seq<Seq<u8>>,
    comment: Option<Seq<u8>>,
    widths: Option<Seq<int>>,
    indent_width: int,
    max_line_width: int,
) -> Seq<Seq<u8>> {
    if tokens.len() == 0 {
        match comment {
            Some(c) => seq![c],
            None => seq![],
        }
    } else {
        let max_width = if max_line_width >= 20 {
            max_line_width
        } else {
            20
        };
        let strides = match widths {
            Some(w) => Some(strides_of(w)),
            None => None,
        };
        let st = emit_fold(tokens, strides, spaces(indent_width), max_width);
        if st.current.len() > 0 {
            match comment {
                Some(c) => if st.after_open {
                    st.lines.push(trim_end(st.current)).push(
                        cont_head(spaces(indent_width)) + seq![32u8, 32u8] + c,
                    )
                } else {
                    st.lines.push(trim_end(st.current) + seq![32u8, 32u8] + c)
                },
                None => st.lines.push(trim_end(st.current)),
            }
        } else {
            match comment {
                Some(c) => st.lines.push(c),
                None => st.lines,
            }
        }
    }
}

// ---------------------------------------------------------------------------
// Byte-string helpers
// ---------------------------------------------------------------------------

/// Append `s` to `out`.
pub fn push_all(out: &mut Vec<u8>, s: &[u8])
    ensures
        final(out)@ == old(out)@ + s@,
{
    let ghost start = out@;
    let mut i: usize = 0;
    while i < s.len()
        invariant
            i <= s@.len(),
            out@ == start + s@.take(i as int),
        decreases s@.len() - i,
    {
        out.push(s[i]);
        proof {
            assert(s@.take(i + 1) =~= s@.take(i as int).push(s@[i as int]));
        }
        i = i + 1;
    }
    proof {
        assert(s@.take(i as int) =~= s@);
    }
}

/// `n` spaces.
pub fn spaces_exec(n: usize) -> (r: Vec<u8>)
    ensures
        r@ == spaces(n as int),
        valid_utf8(r@),
{
    let mut r: Vec<u8> = Vec::new();
    let mut i: usize = 0;
    while i < n
        invariant
            i <= n,
            r@ == spaces(i as int),
        decreases n - i,
    {
        r.push(32);
        proof {
            assert(r@ =~= spaces(i + 1));
        }
        i = i + 1;
    }
    proof {
        lemma_ascii_valid(r@);
    }
    r
}

/// Number of characters of UTF-8 text.
pub fn char_count_exec(s: &[u8]) -> (n: usize)
    ensures
        n == char_count(s@),
{
    let mut n: usize = 0;
    let mut i: usize = 0;
    while i < s.len()
        invariant
            i <= s@.len(),
            n <= i,
            n == char_count(s@.take(i as int)),
        decreases s@.len() - i,
    {
        proof {
            assert(s@.take(i + 1).drop_last() =~= s@.take(i as int));
        }
        if !(0x80 <= s[i] && s[i] <= 0xbf) {
            n = n + 1;
        }
        i = i + 1;
    }
    proof {
        assert(s@.take(i as int) =~= s@);
    }
    n
}

/// `str::trim_end` of a byte string.
pub fn trim_end_exec(s: &[u8]) -> (r: Vec<u8>)
    ensures
        r@ == trim_end(s@),
        valid_utf8(s@) ==> valid_utf8(r@),
{
    let e = rskip_ws_exec(s, 0, s.len());
    let r = copy_window(s, 0, e);
    proof {
        assert(r@ =~= trim_end(s@));
        if valid_utf8(s@) {
            lemma_trim_end_valid(s@);
        }
    }
    r
}

/// Pad to `width` characters with spaces.
pub fn pad_exec(t: &[u8], width: usize) -> (r: Vec<u8>)
    ensures
        r@ == pad_to(t@, width as int),
        valid_utf8(t@) ==> valid_utf8(r@),
{
    let mut r: Vec<u8> = Vec::new();
    push_all(&mut r, t);
    let n = char_count_exec(t);
    if n < width {
        let sp = spaces_exec(width - n);
        push_all(&mut r, sp.as_slice());
        proof {
            if valid_utf8(t@) {
                valid_utf8_concat(t@, sp@);
            }
        }
    }
    proof {
        assert(r@ =~= pad_to(t@, width as int));
    }
    r
}

/// Concatenation of byte strings, keeping validity.
pub fn concat3(a: &[u8], b: &[u8], c: &[u8]) -> (r: Vec<u8>)
    ensures
        r@ == a@ + b@ + c@,
        valid_utf8(a@) && valid_utf8(b@) && valid_utf8(c@) ==> valid_utf8(r@),
{
    let mut r: Vec<u8> = Vec::new();
    push_all(&mut r, a);
    push_all(&mut r, b);
    push_all(&mut r, c);
    proof {
        assert(r@ =~= a@ + b@ + c@);
        if valid_utf8(a@) && valid_utf8(b@) && valid_utf8(c@) {
            valid_utf8_concat(a@, b@);
            valid_utf8_concat(a@ + b@, c@);
        }
    }
    r
}

/// A copy of a byte string.
pub fn copy_bytes(s: &[u8]) -> (r: Vec<u8>)
    ensures
        r@ == s@,
{
    let mut r: Vec<u8> = Vec::new();
    push_all(&mut r, s);
    proof {
        assert(r@ =~= s@);
    }
    r
}

/// Whether a token leaves a quote open.
pub fn opens_quote_exec(t: &[u8]) -> (r: bool)
    ensures
        r == opens_quote(t@),
{
    let mut q: Option<u8> = None;
    let mut i: usize = 0;
    while i < t.len()
        invariant
            i <= t@.len(),
            q == qopen(t@, i as int),
        decreases t@.len() - i,
    {
        let c = t[i];
        q = match q {
            Some(o) => if c == o {
                None
            } else {
                Some(o)
            },
            None => if c == 39 || c == 34 {
                Some(c)
            } else {
                None
            },
        };
        i = i + 1;
    }
    q.is_some()
}

proof fn lemma_ascii_valid_small(s: Seq<u8>)
    requires
        s.len() <= 2,
        forall|i: int| 0 <= i < s.len() ==> s[i] < 0x80u8,
    ensures
        valid_utf8(s),
{
    lemma_ascii_valid(s);
}

// ---------------------------------------------------------------------------
// The layout
// ---------------------------------------------------------------------------

/// Lay out one statement's tokens as output lines.
pub fn emit_wrapped_tokens(
    tokens: &Vec<Vec<u8>>,
    comment: Option<&Vec<u8>>,
    widths: Option<&Vec<usize>>,
    indent_width: usize,
    max_line_width: usize,
) -> (r: Vec<Vec<u8>>)
    requires
        all_valid(vv(tokens@)),
        comment matches Some(c) ==> valid_utf8(c@),
        widths matches Some(w) ==> forall|i: int| 0 <= i < w@.len() ==> #[trigger] w@[i] < usize::MAX,
    ensures
        vv(r@) == emit_spec(
            vv(tokens@),
            match comment {
                Some(c) => Some(c@),
                None => None,
            },
            match widths {
                Some(w) => Some(w@.map_values(|x: usize| x as int)),
                None => None,
            },
            indent_width as int,
            max_line_width as int,
        ),
        all_valid(vv(r@)),
{
    let ghost toks = vv(tokens@);
    let ghost cm = match comment {
        Some(c) => Some(c@),
        None => None,
    };
    let ghost wv = match widths {
        Some(w) => Some(w@.map_values(|x: usize| x as int)),
        None => None,
    };
    if tokens.len() == 0 {
        let mut out: Vec<Vec<u8>> = Vec::new();
        if let Some(c) = comment {
            out.push(copy_bytes(c.as_slice()));
        }
        proof {
            assert(vv(out@) =~= emit_spec(toks, cm, wv, indent_width as int, max_line_width as int));
        }
        return out;
    }
    let indent = spaces_exec(indent_width);
    let max_width = if max_line_width >= 20 {
        max_line_width
    } else {
        20
    };
    let mut strides: Vec<usize> = Vec::new();
    let has_strides = widths.is_some();
    if let Some(w) = widths {
        let mut i: usize = 0;
        while i < w.len()
            invariant
                i <= w@.len(),
                forall|k: int| 0 <= k < w@.len() ==> #[trigger] w@[k] < usize::MAX,
                strides@.len() == i,
                forall|k: int|
                    0 <= k < i ==> #[trigger] strides@[k] as int == strides_of(
                        w@.map_values(|x: usize| x as int),
                    )[k],
            decreases w@.len() - i,
        {
            let s = if i + 1 == w.len() {
                w[i]
            } else {
                w[i] + 1
            };
            strides.push(s);
            i = i + 1;
        }
    }
    let ghost sv = match widths {
        Some(w) => Some(strides_of(w@.map_values(|x: usize| x as int))),
        None => None,
    };
    proof {
        if let Some(w) = widths {
            assert(strides@.map_values(|x: usize| x as int) =~= strides_of(
                w@.map_values(|x: usize| x as int),
            ));
        }
    }
    let plus: [u8; 1] = [43];
    let gap: [u8; 1] = [32];
    proof {
        lemma_ascii_valid_small(plus@);
        lemma_ascii_valid_small(gap@);
    }
    let mut lines: Vec<Vec<u8>> = Vec::new();
    let mut current: Vec<u8> = Vec::new();
    let mut col: usize = 0;
    let mut on_cont = false;
    let mut after_open = false;
    let mut t: usize = 0;
    while t < tokens.len()
        invariant
            t <= tokens@.len(),
            toks == vv(tokens@),
            all_valid(toks),
            col <= t,
            indent@ == spaces(indent_width as int),
            valid_utf8(indent@),
            valid_utf8(plus@),
            valid_utf8(gap@),
            plus@ == seq![43u8],
            gap@ == seq![32u8],
            has_strides == (sv is Some),
            sv matches Some(sd) ==> strides@.map_values(|x: usize| x as int) == sd,
            ({
                let st = emit_fold(toks.take(t as int), sv, indent@, max_width as int);
                &&& vv(lines@) == st.lines
                &&& current@ == st.current
                &&& col == st.col
                &&& on_cont == st.on_cont
                &&& after_open == st.after_open
            }),
            all_valid(vv(lines@)),
            valid_utf8(current@),
        decreases tokens@.len() - t,
    {
        proof {
            assert(toks.take(t + 1).drop_last() =~= toks.take(t as int));
            assert(toks.take(t + 1).last() == toks[t as int]);
            assert(toks[t as int] == tokens@[t as int]@);
        }
        let token = &tokens[t];
        let piece: Vec<u8> = if !on_cont {
            if has_strides {
                let stride = if col < strides.len() {
                    strides[col]
                } else {
                    token.len()
                };
                proof {
                    if col < strides.len() {
                        assert(strides@.map_values(|x: usize| x as int)[col as int] == strides@[col as int] as int);
                    }
                }
                pad_exec(token.as_slice(), stride)
            } else {
                copy_bytes(token.as_slice())
            }
        } else {
            copy_bytes(token.as_slice())
        };
        if !on_cont {
            col = col + 1;
        }
        let opened = opens_quote_exec(token.as_slice());
        if current.len() == 0 {
            if on_cont {
                let tp = trim_end_exec(piece.as_slice());
                current = concat3(&plus, indent.as_slice(), tp.as_slice());
            } else {
                current = piece;
            }
        } else {
            let candidate = if on_cont || !has_strides {
                let tc = trim_end_exec(current.as_slice());
                let tp = trim_end_exec(piece.as_slice());
                concat3(tc.as_slice(), &gap, tp.as_slice())
            } else {
                let empty: Vec<u8> = Vec::new();
                proof {
                    lemma_ascii_valid(empty@);
                }
                concat3(current.as_slice(), piece.as_slice(), empty.as_slice())
            };
            proof {
                assert(current@ + piece@ + Seq::<u8>::empty() =~= current@ + piece@);
            }
            if char_count_exec(candidate.as_slice()) > max_width || after_open {
                let ghost before = vv(lines@);
                lines.push(trim_end_exec(current.as_slice()));
                proof {
                    assert(vv(lines@) =~= before.push(trim_end(current@)));
                }
                let tt = trim_end_exec(token.as_slice());
                current = concat3(&plus, indent.as_slice(), tt.as_slice());
                on_cont = true;
            } else {
                current = candidate;
            }
        }
        after_open = opened;
        t = t + 1;
    }
    proof {
        assert(toks.take(t as int) =~= toks);
    }
    if current.len() > 0 && after_open && comment.is_some() {
        let tc = trim_end_exec(current.as_slice());
        let ghost before = vv(lines@);
        lines.push(tc);
        let c = comment.unwrap();
        let two: [u8; 2] = [32, 32];
        proof {
            lemma_ascii_valid_small(two@);
            assert(two@ == seq![32u8, 32u8]);
        }
        let head = concat3(&plus, indent.as_slice(), &two);
        let cl = concat3(head.as_slice(), c.as_slice(), &[]);
        proof {
            lemma_ascii_valid(Seq::<u8>::empty());
            assert(head@ + c@ + Seq::<u8>::empty() =~= seq![43u8] + spaces(indent_width as int) + seq![32u8, 32u8] + c@);
        }
        lines.push(cl);
        proof {
            assert(vv(lines@) =~= before.push(trim_end(current@)).push(cl@));
        }
    } else if current.len() > 0 {
        let tc = trim_end_exec(current.as_slice());
        let line = match comment {
            Some(c) => {
                let two: [u8; 2] = [32, 32];
                proof {
                    lemma_ascii_valid_small(two@);
                }
                let head = concat3(tc.as_slice(), &two, c.as_slice());
                proof {
                    assert(two@ == seq![32u8, 32u8]);
                }
                head
            },
            None => tc,
        };
        let ghost before = vv(lines@);
        lines.push(line);
        proof {
            assert(vv(lines@) =~= before.push(line@));
        }
    } else if let Some(c) = comment {
        let ghost before = vv(lines@);
        let cc = copy_bytes(c.as_slice());
        lines.push(cc);
        proof {
            assert(vv(lines@) =~= before.push(c@));
        }
    }
    lines
}

} // verus!
