//! Structural checks on `.subckt` / `.ends` nesting.
use vstd::prelude::*;
use vstd::utf8::*;

use crate::classify::{skip_dots, skip_dots_exec, tokens, word_ends, word_subckt};
use crate::diagnostic::{diags_view, DiagV, Diagnostic, Severity, Span};
use crate::indexer::{msg_missing_ends, msg_unexpected_ends};
use crate::text::{
    bytes_eq, lemma_skip_ws_boundary, lemma_str_valid, lower_seq, owned, sb, skip_ws,
    skip_ws_exec, string_of, to_lower, ws_tokens,
};
use crate::tree::{fits, fits_list, lemma_fits_elem, NodeKind, SyntaxNode};

verus! {

/// The word that names a directive line: the first whitespace-separated word
/// after leading whitespace and dots, ASCII-lowercased; empty when there is none.
pub open spec fn directive_word(b: Seq<u8>, n: SyntaxNode) -> Seq<u8> {
    let hi = n.end_byte as int;
    let t = ws_tokens(b, skip_dots(b, skip_ws(b, n.start_byte as int, hi), hi), hi);
    if t.len() == 0 {
        Seq::empty()
    } else {
        lower_seq(b.subrange(t[0].0, t[0].1))
    }
}

/// What one node contributes by itself: its name and range when it is a
/// directive line with a name.
pub open spec fn own_directive(b: Seq<u8>, n: SyntaxNode) -> Seq<(Seq<u8>, Span)> {
    if n.kind == NodeKind::DotDirectiveLine && directive_word(b, n).len() > 0 {
        seq![(directive_word(b, n), Span { start: n.start_byte, end: n.end_byte })]
    } else {
        Seq::empty()
    }
}

/// Directive names and ranges of a tree, in pre-order.
pub open spec fn directives_in(b: Seq<u8>, n: SyntaxNode) -> Seq<(Seq<u8>, Span)>
    decreases n, 1int,
{
    own_directive(b, n) + directives_in_list(b, n.children@)
}

/// Directive names and ranges of a list of trees, in order.
pub open spec fn directives_in_list(b: Seq<u8>, cs: Seq<SyntaxNode>) -> Seq<(Seq<u8>, Span)>
    decreases cs, 0int,
{
    if cs.len() == 0 {
        Seq::empty()
    } else {
        directives_in_list(b, cs.drop_last()) + directives_in(b, cs.last())
    }
}

/// A list of named spans, each name taken by its UTF-8 bytes.
pub open spec fn dirs_view(d: Seq<(String, Span)>) -> Seq<(Seq<u8>, Span)> {
    d.map_values(|p: (String, Span)| (sb(p.0@), p.1))
}

/// Collect `.subckt` / `.ends` directive spans for structural checks.
pub fn dot_directive_spans(source: &str, root: &SyntaxNode) -> (r: Vec<(String, Span)>)
    requires
        fits(sb(source@), *root),
    ensures
        dirs_view(r@) == directives_in(sb(source@), *root),
{
    let mut out: Vec<(String, Span)> = Vec::new();
    proof {
        lemma_str_valid(source);
        assert(dirs_view(out@) =~= Seq::<(Seq<u8>, Span)>::empty());
    }
    collect_dot_directives(source.as_bytes(), root, &mut out);
    proof {
        assert(dirs_view(out@) =~= directives_in(sb(source@), *root));
    }
    out
}

fn collect_dot_directives(b: &[u8], node: &SyntaxNode, out: &mut Vec<(String, Span)>)
    requires
        valid_utf8(b@),
        fits(b@, *node),
    ensures
        dirs_view(final(out)@) == dirs_view(old(out)@) + directives_in(b@, *node),
    decreases *node,
{
    let ghost start = dirs_view(out@);
    if node.kind == NodeKind::DotDirectiveLine {
        let hi = node.end_byte;
        let lo0 = skip_ws_exec(b, node.start_byte, hi);
        proof {
            lemma_skip_ws_boundary(b@, node.start_byte as int, hi as int);
        }
        let lo = skip_dots_exec(b, lo0, hi);
        let t = tokens(b, lo, hi);
        if t.len() > 0 {
            let (a, z) = t[0];
            let s = string_of(b, a, z);
            let name = to_lower(s.as_str());
            let ghost before = out@;
            out.push((name, Span { start: node.start_byte, end: hi }));
            proof {
                assert(dirs_view(out@) =~= dirs_view(before).push(
                    (sb(name@), Span { start: node.start_byte, end: hi }),
                ));
                assert(directive_word(b@, *node) == sb(name@));
                assert(dirs_view(out@) =~= start + own_directive(b@, *node));
            }
        } else {
            assert(own_directive(b@, *node) =~= Seq::<(Seq<u8>, Span)>::empty());
            assert(dirs_view(out@) =~= start + own_directive(b@, *node));
        }
    } else {
        assert(dirs_view(out@) =~= start + own_directive(b@, *node));
    }
    let mut i: usize = 0;
    while i < node.children.len()
        invariant
            valid_utf8(b@),
            fits(b@, *node),
            i <= node.children@.len(),
            dirs_view(out@) == start + own_directive(b@, *node) + directives_in_list(
                b@,
                node.children@.take(i as int),
            ),
        decreases node.children@.len() - i,
    {
        proof {
            lemma_fits_elem(b@, node.children@, i as int);
        }
        collect_dot_directives(b, &node.children[i], out);
        proof {
            let cs = node.children@;
            assert(cs.take(i + 1).drop_last() =~= cs.take(i as int));
            assert(cs.take(i + 1).last() == cs[i as int]);
        }
        i = i + 1;
    }
    proof {
        assert(node.children@.take(i as int) =~= node.children@);
    }
}

/// The diagnostic of a structural error at `span`.
pub open spec fn error_diag(message: Seq<char>, span: Span) -> DiagV {
    DiagV { message, severity: Severity::Error, span, code: None }
}

/// Scan of the directives: the ranges of the `.subckt` lines still open, and
/// the diagnostics for `.ends` lines that closed nothing.
pub open spec fn subckt_fold(d: Seq<(Seq<u8>, Span)>) -> (Seq<Span>, Seq<DiagV>)
    decreases d.len(),
{
    if d.len() == 0 {
        (Seq::empty(), Seq::empty())
    } else {
        let (open, diags) = subckt_fold(d.drop_last());
        let (name, span) = d.last();
        if name == word_subckt() {
            (open.push(span), diags)
        } else if name == word_ends() {
            if open.len() == 0 {
                (open, diags.push(error_diag(msg_unexpected_ends(), span)))
            } else {
                (open.drop_last(), diags)
            }
        } else {
            (open, diags)
        }
    }
}

/// The diagnostics of a directive list: the unmatched `.ends` lines in order,
/// then one for each `.subckt` left open, in order of opening.
pub open spec fn subckt_spec(d: Seq<(Seq<u8>, Span)>) -> Seq<DiagV> {
    let (open, diags) = subckt_fold(d);
    diags + open.map_values(|s: Span| error_diag(msg_missing_ends(), s))
}

/// Flag unclosed `.subckt` blocks and unmatched `.ends`.
pub fn subckt_diagnostics(directives: &[(String, Span)]) -> (r: Vec<Diagnostic>)
    ensures
        diags_view(r@) == subckt_spec(dirs_view(directives@)),
{
    let ghost d = dirs_view(directives@);
    let w_subckt: [u8; 6] = [115, 117, 98, 99, 107, 116];
    let w_ends: [u8; 4] = [101, 110, 100, 115];
    assert(w_subckt@ == word_subckt());
    assert(w_ends@ == word_ends());
    let mut stack: Vec<Span> = Vec::new();
    let mut diagnostics: Vec<Diagnostic> = Vec::new();
    let mut i: usize = 0;
    while i < directives.len()
        invariant
            i <= directives@.len(),
            d == dirs_view(directives@),
            w_subckt@ == word_subckt(),
            w_ends@ == word_ends(),
            (stack@, diags_view(diagnostics@)) == subckt_fold(d.take(i as int)),
        decreases directives@.len() - i,
    {
        let name = directives[i].0.as_str();
        let span = directives[i].1;
        proof {
            assert(d.take(i + 1).drop_last() =~= d.take(i as int));
            assert(d.take(i + 1).last() == (sb(name@), span));
        }
        if bytes_eq(name.as_bytes(), &w_subckt) {
            stack.push(span);
        } else if bytes_eq(name.as_bytes(), &w_ends) {
            if stack.len() == 0 {
                let ghost before = diagnostics@;
                diagnostics.push(Diagnostic::error(owned("unexpected .ends without .subckt"), span));
                proof {
                    assert(diags_view(diagnostics@) =~= diags_view(before).push(
                        error_diag(msg_unexpected_ends(), span),
                    ));
                }
            } else {
                stack.pop();
            }
        }
        i = i + 1;
    }
    proof {
        assert(d.take(i as int) =~= d);
    }
    let ghost folded = diags_view(diagnostics@);
    let mut k: usize = 0;
    while k < stack.len()
        invariant
            k <= stack@.len(),
            diags_view(diagnostics@) == folded + stack@.take(k as int).map_values(
                |s: Span| error_diag(msg_missing_ends(), s),
            ),
        decreases stack@.len() - k,
    {
        let ghost before = diagnostics@;
        diagnostics.push(Diagnostic::error(owned("missing .ends for subcircuit"), stack[k]));
        proof {
            assert(diags_view(diagnostics@) =~= diags_view(before).push(
                error_diag(msg_missing_ends(), stack@[k as int]),
            ));
            assert(stack@.take(k + 1).map_values(|s: Span| error_diag(msg_missing_ends(), s))
                =~= stack@.take(k as int).map_values(|s: Span| error_diag(msg_missing_ends(), s)).push(
                error_diag(msg_missing_ends(), stack@[k as int]),
            ));
        }
        k = k + 1;
    }
    proof {
        assert(stack@.take(k as int) =~= stack@);
    }
    diagnostics
}

/// How many directives carry the name `w`.
pub open spec fn count_named(d: Seq<(Seq<u8>, Span)>, w: Seq<u8>) -> int
    decreases d.len(),
{
    if d.len() == 0 {
        0
    } else {
        count_named(d.drop_last(), w) + if d.last().0 == w {
            1int
        } else {
            0int
        }
    }
}

/// No prefix of the list closes more blocks than it opened.
pub open spec fn never_overclosed(d: Seq<(Seq<u8>, Span)>) -> bool {
    forall|k: int|
        0 <= k <= d.len() ==> count_named(#[trigger] d.take(k), word_ends()) <= count_named(
            d.take(k),
            word_subckt(),
        )
}

/// Open blocks minus unmatched `.ends` equals `.subckt` lines minus `.ends`
/// lines; when no prefix closes more than it opened, no `.ends` is flagged
/// and exactly the surplus of `.subckt` lines is reported open.
pub proof fn law_subckt_balance(d: Seq<(Seq<u8>, Span)>)
    ensures
        subckt_fold(d).0.len() - subckt_fold(d).1.len() == count_named(d, word_subckt())
            - count_named(d, word_ends()),
        never_overclosed(d) ==> subckt_fold(d).1.len() == 0,
        never_overclosed(d) && count_named(d, word_subckt()) == count_named(d, word_ends())
            ==> subckt_spec(d).len() == 0,
    decreases d.len(),
{
    assert(word_subckt() != word_ends()) by {
        assert(word_subckt().len() != word_ends().len());
    }
    if d.len() > 0 {
        let p = d.drop_last();
        law_subckt_balance(p);
        if never_overclosed(d) {
            assert forall|k: int| 0 <= k <= p.len() implies count_named(
                #[trigger] p.take(k),
                word_ends(),
            ) <= count_named(p.take(k), word_subckt()) by {
                assert(p.take(k) =~= d.take(k));
            }
            assert(d.take(d.len() as int) =~= d);
        }
    }
}

} // verus!
