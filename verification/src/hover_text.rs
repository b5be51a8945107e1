//! Hover contents: the reference corpus entry of the token under the
//! cursor, else a summary of the symbol's definition in this file or in an
//! included file.
use vstd::prelude::*;
use vstd::utf8::*;

use crate::classify::{skip_dots, skip_dots_exec, tokens};
use crate::diagnostic::Span;
use crate::dialect::Dialect;
use crate::hover_token::{hover_spec, hover_token_at};
use crate::includes::{model_or_subckt_in, IncludeResolution};
use crate::navigation::{symbol_at, symbol_position};
use crate::reference::{lookup_spec, markdown, ReferenceIndex};
use crate::symbols::{lkey, Index, SymbolKind, SymbolV};
use crate::text::{
    first_byte, first_byte_exec, has_byte, last_byte, last_byte_exec, lemma_ascii_boundary,
    lemma_first_byte, lemma_skip_ws_boundary, lemma_str_valid, lemma_trim_boundaries, owned, sb,
    skip_ws, skip_ws_exec, string_of, trim_exec, trim_win, ws_tokens,
};

verus! {

/// The line around `offset` (clamped), without its newline.
pub open spec fn line_win(b: Seq<u8>, offset: int) -> (int, int) {
    let off = if offset < b.len() {
        offset
    } else {
        b.len() as int
    };
    (last_byte(b, 0, off, 10u8) + 1, first_byte(b, off, b.len() as int, 10u8))
}

/// The text of a window.
pub open spec fn text_of(b: Seq<u8>, w: (int, int)) -> Seq<char> {
    decode_utf8(b.subrange(w.0, w.1))
}

/// Port names of a `.subckt` line: the words after the directive and the
/// subcircuit name, up to the first `name=value` parameter.
pub open spec fn ports_from(b: Seq<u8>, ts: Seq<(int, int)>) -> Seq<Seq<char>>
    decreases ts.len(),
{
    if ts.len() == 0 || has_byte(b, ts[0].0, ts[0].1, 61u8) {
        seq![]
    } else {
        seq![text_of(b, ts[0])] + ports_from(b, ts.drop_first())
    }
}

pub open spec fn subckt_ports_spec(b: Seq<u8>, w: (int, int)) -> Seq<Seq<char>> {
    let ts = ws_tokens(b, skip_dots(b, skip_ws(b, w.0, w.1), w.1), w.1);
    if ts.len() > 2 {
        ports_from(b, ts.skip(2))
    } else {
        seq![]
    }
}

/// Strings joined with `sep`.
pub open spec fn join_with(ps: Seq<Seq<char>>, sep: Seq<char>) -> Seq<char>
    decreases ps.len(),
{
    if ps.len() == 0 {
        Seq::empty()
    } else if ps.len() == 1 {
        ps[0]
    } else {
        join_with(ps.drop_last(), sep) + sep + ps.last()
    }
}

pub open spec fn subckt_hover(name: Seq<char>, ports: Seq<Seq<char>>, origin: Seq<char>) -> Seq<char> {
    "**`.subckt "@ + name + "`** ("@ + origin + ")\n\nPorts: `"@ + join_with(ports, ", "@) + "`"@
}

/// Hover text of a symbol defined in this file.
pub open spec fn local_hover_spec(b: Seq<u8>, y: SymbolV) -> Option<Seq<char>> {
    let w = line_win(b, y.line_span.start as int);
    match y.kind {
        SymbolKind::Subckt => Some(subckt_hover(y.name, subckt_ports_spec(b, w), "file-local"@)),
        SymbolKind::Model => Some(
            "**.model `"@ + y.name + "`** (file-local)\n\n```\n"@ + text_of(b, trim_win(b, w.0, w.1))
                + "\n```"@,
        ),
        SymbolKind::Param => Some(
            "**.param `"@ + y.name + "`** (file-local)\n\n```\n"@ + text_of(b, trim_win(b, w.0, w.1))
                + "\n```"@,
        ),
        SymbolKind::Instance => None,
    }
}

/// Hover text of a model or subcircuit defined in an included file.
pub open spec fn included_hover_spec(b: Seq<u8>, kind: SymbolKind, name: Seq<char>, span: Span) -> Option<Seq<char>> {
    let w = line_win(b, span.start as int);
    match kind {
        SymbolKind::Subckt => Some(subckt_hover(name, subckt_ports_spec(b, w), "included"@)),
        SymbolKind::Model => Some(
            "**`.model "@ + name + "`** (included)\n\n```\n"@ + text_of(b, trim_win(b, w.0, w.1))
                + "\n```"@,
        ),
        _ => None,
    }
}

/// The offset (clamped) is a character boundary of `b`.
pub open spec fn boundary_at(b: Seq<u8>, offset: int) -> bool {
    is_char_boundary(
        b,
        if offset < b.len() {
            offset
        } else {
            b.len() as int
        },
    )
}

/// The hover at `offset`: the markdown and the token's span.
pub open spec fn hover_contents_spec(
    b: Seq<u8>,
    ix: crate::symbols::IndexV,
    res: IncludeResolution,
    refs: ReferenceIndex,
    d: Dialect,
    offset: int,
) -> Option<(Seq<char>, Span)> {
    match hover_spec(b, offset) {
        None => None,
        Some((kind, name, w)) => {
            let span = Span { start: w.0 as usize, end: w.1 as usize };
            match lookup_spec(refs.entries@, d, kind, decode_utf8(name)) {
                Some(e) => Some((markdown(refs.entries@[e].entry, d), span)),
                None => match symbol_at(ix.symbols, 0, offset) {
                    None => None,
                    Some(i) => {
                        let y = ix.symbols[i];
                        match local_hover_spec(b, y) {
                            Some(t) => Some((t, span)),
                            None => match model_or_subckt_in(res.files@, lkey(y.name)) {
                                None => None,
                                Some((j, k, s)) => match included_hover_spec(
                                    sb(res.files@[j].text@),
                                    k,
                                    y.name,
                                    s,
                                ) {
                                    Some(t) => Some((t, span)),
                                    None => None,
                                },
                            },
                        }
                    },
                },
            }
        },
    }
}

fn line_window(b: &[u8], offset: usize) -> (r: (usize, usize))
    requires
        valid_utf8(b@),
        boundary_at(b@, offset as int),
    ensures
        r.0 as int == line_win(b@, offset as int).0,
        r.1 as int == line_win(b@, offset as int).1,
        r.0 <= r.1 <= b@.len(),
        is_char_boundary(b@, r.0 as int),
        is_char_boundary(b@, r.1 as int),
{
    let off = if offset < b.len() {
        offset
    } else {
        b.len()
    };
    let start = match last_byte_exec(b, 0, off, 10) {
        Some(i) => {
            proof {
                lemma_ascii_boundary(b@, i as int);
            }
            i + 1
        },
        None => {
            proof {
                is_char_boundary_start_end_of_seq(b@);
            }
            0
        },
    };
    proof {
        lemma_first_byte(b@, off as int, b@.len() as int, 10u8);
    }
    let end = first_byte_exec(b, off, b.len(), 10);
    proof {
        if end < b@.len() {
            lemma_ascii_boundary(b@, end as int);
        } else {
            is_char_boundary_start_end_of_seq(b@);
        }
    }
    (start, end)
}

fn text_exec(b: &[u8], lo: usize, hi: usize) -> (r: String)
    requires
        valid_utf8(b@),
        lo <= hi <= b@.len(),
        is_char_boundary(b@, lo as int),
        is_char_boundary(b@, hi as int),
    ensures
        r@ == text_of(b@, (lo as int, hi as int)),
{
    let r = string_of(b, lo, hi);
    proof {
        encode_utf8_decode_utf8(r@);
    }
    r
}

fn subckt_ports(b: &[u8], lo: usize, hi: usize) -> (r: Vec<String>)
    requires
        valid_utf8(b@),
        lo <= hi <= b@.len(),
        is_char_boundary(b@, lo as int),
        is_char_boundary(b@, hi as int),
    ensures
        r@.map_values(|s: String| s@) == subckt_ports_spec(b@, (lo as int, hi as int)),
{
    let t = skip_ws_exec(b, lo, hi);
    proof {
        lemma_skip_ws_boundary(b@, lo as int, hi as int);
    }
    let d = skip_dots_exec(b, t, hi);
    let ts = tokens(b, d, hi);
    let ghost tw = ts@.map_values(|x: (usize, usize)| (x.0 as int, x.1 as int));
    proof {
        assert(tw =~= ws_tokens(b@, d as int, hi as int));
    }
    let mut out: Vec<String> = Vec::new();
    if ts.len() <= 2 {
        proof {
            assert(out@.map_values(|s: String| s@) =~= Seq::<Seq<char>>::empty());
        }
        return out;
    }
    let n = ts.len();
    let mut k: usize = 2;
    let mut go = true;
    while go
        invariant
            n == ts@.len(),
            2 <= k,
            go ==> k < ts@.len(),
            valid_utf8(b@),
            tw == ts@.map_values(|x: (usize, usize)| (x.0 as int, x.1 as int)),
            forall|j: int|
                0 <= j < ts@.len() ==> lo <= (#[trigger] ts@[j]).0 < ts@[j].1 <= hi && is_char_boundary(
                    b@,
                    ts@[j].0 as int,
                ) && is_char_boundary(b@, ts@[j].1 as int),
            hi <= b@.len(),
            2 < ts@.len(),
            k <= ts@.len(),
            out@.map_values(|s: String| s@) + (if go || k >= ts@.len() {
                ports_from(b@, tw.skip(k as int))
            } else {
                seq![]
            }) == ports_from(b@, tw.skip(2)),
        decreases ts@.len() - k + (if go { 1int } else { 0int }),
    {
        let (a, z) = ts[k];
        proof {
            assert(tw.skip(k as int)[0] == (a as int, z as int));
            assert(tw.skip(k as int).drop_first() =~= tw.skip(k + 1));
            lemma_first_byte(b@, a as int, z as int, 61u8);
        }
        if first_byte_exec(b, a, z, 61) < z {
            go = false;
        } else {
            let ghost before = out@.map_values(|s: String| s@);
            let s = text_exec(b, a, z);
            out.push(s);
            proof {
                assert(out@.map_values(|s: String| s@) =~= before.push(s@));
                if k + 1 >= ts@.len() {
                    assert(tw.skip(k + 1) =~= Seq::<(int, int)>::empty());
                }
            }
            k = k + 1;
            go = k < n;
        }
    }
    proof {
        assert(out@.map_values(|s: String| s@) + Seq::<Seq<char>>::empty() =~= out@.map_values(
            |s: String| s@,
        ));
    }
    out
}

fn join_ports(ps: &Vec<String>) -> (r: String)
    ensures
        r@ == join_with(ps@.map_values(|s: String| s@), ", "@),
{
    let ghost pv = ps@.map_values(|s: String| s@);
    let mut out = owned("");
    proof {
        reveal_strlit("");
        assert(out@ =~= join_with(pv.take(0), ", "@));
    }
    let mut i: usize = 0;
    while i < ps.len()
        invariant
            i <= ps@.len(),
            pv == ps@.map_values(|s: String| s@),
            out@ == join_with(pv.take(i as int), ", "@),
        decreases ps@.len() - i,
    {
        proof {
            assert(pv.take(i + 1).drop_last() =~= pv.take(i as int));
            assert(pv.take(i + 1).last() == ps@[i as int]@);
        }
        if i > 0 {
            out.append(", ");
        } else {
            proof {
                assert(pv.take(1) =~= seq![pv[0]]);
            }
        }
        out.append(ps[i].as_str());
        proof {
            if i == 0 {
                assert(out@ =~= pv[0]);
            }
        }
        i = i + 1;
    }
    proof {
        assert(pv.take(i as int) =~= pv);
    }
    out
}

fn subckt_hover_exec(name: &str, ports: &Vec<String>, origin: &str) -> (r: String)
    ensures
        r@ == subckt_hover(name@, ports@.map_values(|s: String| s@), origin@),
{
    let mut out = owned("**`.subckt ");
    out.append(name);
    out.append("`** (");
    out.append(origin);
    out.append(")\n\nPorts: `");
    let j = join_ports(ports);
    out.append(j.as_str());
    out.append("`");
    out
}

fn definition_hover(head: &str, name: &str, tail: &str, line: &str) -> (r: String)
    ensures
        r@ == head@ + name@ + tail@ + line@ + "\n```"@,
{
    let mut out = owned(head);
    out.append(name);
    out.append(tail);
    out.append(line);
    out.append("\n```");
    out
}

/// Hover text of a symbol defined in this file.
pub fn file_local_hover(source: &str, symbol: &crate::symbols::Symbol) -> (r: Option<String>)
    requires
        boundary_at(sb(source@), symbol.line_span.start as int),
    ensures
        match (r, local_hover_spec(sb(source@), symbol@)) {
            (Some(t), Some(u)) => t@ == u,
            (None, None) => true,
            _ => false,
        },
{
    let b = source.as_bytes();
    proof {
        lemma_str_valid(source);
    }
    let (lo, hi) = line_window(b, symbol.line_span.start);
    match symbol.kind {
        SymbolKind::Subckt => {
            let ports = subckt_ports(b, lo, hi);
            Some(subckt_hover_exec(symbol.name.as_str(), &ports, "file-local"))
        },
        SymbolKind::Model | SymbolKind::Param => {
            let (a, z) = trim_exec(b, lo, hi);
            proof {
                lemma_trim_boundaries(b@, lo as int, hi as int);
            }
            let line = text_exec(b, a, z);
            let head = match symbol.kind {
                SymbolKind::Model => "**.model `",
                _ => "**.param `",
            };
            Some(definition_hover(head, symbol.name.as_str(), "`** (file-local)\n\n```\n", line.as_str()))
        },
        SymbolKind::Instance => None,
    }
}

/// Hover text of a model or subcircuit defined in an included file.
pub fn included_hover(source: &str, kind: SymbolKind, name: &str, span: Span) -> (r: Option<String>)
    requires
        boundary_at(sb(source@), span.start as int),
    ensures
        match (r, included_hover_spec(sb(source@), kind, name@, span)) {
            (Some(t), Some(u)) => t@ == u,
            (None, None) => true,
            _ => false,
        },
{
    let b = source.as_bytes();
    proof {
        lemma_str_valid(source);
    }
    let (lo, hi) = line_window(b, span.start);
    match kind {
        SymbolKind::Subckt => {
            let ports = subckt_ports(b, lo, hi);
            Some(subckt_hover_exec(name, &ports, "included"))
        },
        SymbolKind::Model => {
            let (a, z) = trim_exec(b, lo, hi);
            proof {
                lemma_trim_boundaries(b@, lo as int, hi as int);
            }
            let line = text_exec(b, a, z);
            Some(definition_hover("**`.model ", name, "`** (included)\n\n```\n", line.as_str()))
        },
        _ => None,
    }
}

/// The hover at `offset` of a document with its index and include
/// resolution: markdown and the span of the token under the cursor.
pub fn hover_contents(
    text: &str,
    index: &Index,
    includes: &IncludeResolution,
    reference: &ReferenceIndex,
    dialect: Dialect,
    offset: usize,
) -> (r: Option<(String, Span)>)
    requires
        boundary_at(sb(text@), offset as int),
        forall|i: int|
            0 <= i < index.symbols@.len() ==> boundary_at(
                sb(text@),
                (#[trigger] index.symbols@[i]).line_span.start as int,
            ),
        forall|j: int, k: SymbolKind, key: Seq<char>|
            #![trigger crate::symbols::first_of(includes.files@[j].index@.defs, k, key)]
            0 <= j < includes.files@.len() ==> (crate::symbols::first_of(
                includes.files@[j].index@.defs,
                k,
                key,
            ) matches Some(s) ==> boundary_at(sb(includes.files@[j].text@), s.start as int)),
    ensures
        match (r, hover_contents_spec(sb(text@), index@, *includes, *reference, dialect, offset as int)) {
            (Some((t, s)), Some((u, s2))) => t@ == u && s == s2,
            (None, None) => true,
            _ => false,
        },
{
    let token = match hover_token_at(text, offset) {
        Some(t) => t,
        None => return None,
    };
    if let Some(entry) = reference.lookup_token(dialect, &token) {
        proof {
            encode_utf8_decode_utf8(token.name@);
        }
        return Some((entry.render_markdown(dialect), token.span));
    }
    proof {
        encode_utf8_decode_utf8(token.name@);
    }
    let i = match symbol_position(index, offset) {
        Some(i) => i,
        None => return None,
    };
    let symbol = &index.symbols[i];
    proof {
        assert(index@.symbols[i as int] == symbol@);
    }
    if let Some(local) = file_local_hover(text, symbol) {
        return Some((local, token.span));
    }
    match includes.model_or_subckt_at(symbol.name.as_str()) {
        Some((j, kind, span)) => {
            let file = &includes.files[j];
            proof {
                let key = lkey(symbol.name@);
                crate::includes::lemma_first_def_from(includes.files@, 0, SymbolKind::Model, key);
                crate::includes::lemma_first_def_from(includes.files@, 0, SymbolKind::Subckt, key);
                assert(crate::symbols::first_of(includes.files@[j as int].index@.defs, kind, key) == Some(span));
            }
            match included_hover(file.text.as_str(), kind, symbol.name.as_str(), span) {
                Some(t) => Some((t, token.span)),
                None => None,
            }
        },
        None => None,
    }
}

} // verus!
