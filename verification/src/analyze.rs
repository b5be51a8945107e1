//! Analysis of a parsed netlist buffer: syntax diagnostics from the tree,
//! classified lines, the symbol index and the merged, ordered diagnostics.
use vstd::prelude::*;
use vstd::utf8::*;

use crate::classify::{classify_line, classify_spec, kind_matches, lines_v, LineKind, LineKindV};
use crate::diagnostic::{diags_view, DiagV, Diagnostic, Severity, Span};
use crate::dialect::Dialect;
use crate::indexer::{build_index_with_profile, build_result};
use crate::profile::{
    profile_for, resolve_profile, AnalysisMode, AnalysisProfile, DEFAULT_EXTRACTED_BYTE_THRESHOLD,
};
use crate::symbols::{Index, IndexV};
use crate::text::{lemma_str_valid, owned, sb};
use crate::tree::{fits, fits_list, lemma_fits_elem, NodeKind, SyntaxNode};

verus! {

/// Result of analyzing a netlist buffer.
pub struct ParseResult {
    pub tree: SyntaxNode,
    pub diagnostics: Vec<Diagnostic>,
    pub index: Index,
    pub dialect: Dialect,
    pub profile: AnalysisProfile,
}

// ---------------------------------------------------------------------------
// Classified lines
// ---------------------------------------------------------------------------

/// Whether a node is a whole directive or instance line.
pub open spec fn is_line_node(n: SyntaxNode) -> bool {
    n.kind == NodeKind::DotDirectiveLine || n.kind == NodeKind::InstanceLine
}

/// Ranges of the line nodes of a tree in source order; a line node's own
/// children are not searched.
pub open spec fn line_spans(n: SyntaxNode) -> Seq<Span>
    decreases n, 1int,
{
    if is_line_node(n) {
        seq![Span { start: n.start_byte, end: n.end_byte }]
    } else {
        line_spans_list(n.children@)
    }
}

/// Ranges of the line nodes of a list of trees, in order.
pub open spec fn line_spans_list(cs: Seq<SyntaxNode>) -> Seq<Span>
    decreases cs, 0int,
{
    if cs.len() == 0 {
        Seq::empty()
    } else {
        line_spans_list(cs.drop_last()) + line_spans(cs.last())
    }
}

/// `lines` pairs each range of `spans` with its classification.
pub open spec fn classified(b: Seq<u8>, lines: Seq<(Span, LineKind)>, spans: Seq<Span>) -> bool {
    &&& lines.len() == spans.len()
    &&& forall|i: int|
        0 <= i < lines.len() ==> (#[trigger] lines[i]).0 == spans[i] && kind_matches(
            b,
            lines[i].1,
            classify_spec(b, spans[i]),
        )
}

fn collect_line_nodes(source: &str, node: &SyntaxNode, out: &mut Vec<(Span, LineKind)>)
    requires
        fits(sb(source@), *node),
    ensures
        old(out)@.len() <= final(out)@.len(),
        final(out)@.take(old(out)@.len() as int) == old(out)@,
        classified(sb(source@), final(out)@.skip(old(out)@.len() as int), line_spans(*node)),
    decreases *node,
{
    let ghost b = sb(source@);
    let ghost start = out@;
    if node.kind == NodeKind::DotDirectiveLine || node.kind == NodeKind::InstanceLine {
        let span = Span { start: node.start_byte, end: node.end_byte };
        let k = classify_line(source, span);
        out.push((span, k));
        proof {
            assert(out@.take(start.len() as int) =~= start);
            assert(out@.skip(start.len() as int) =~= seq![(span, k)]);
        }
    } else {
        let mut i: usize = 0;
        while i < node.children.len()
            invariant
                b == sb(source@),
                fits(b, *node),
                !is_line_node(*node),
                i <= node.children@.len(),
                out@.take(start.len() as int) == start,
                start.len() <= out@.len(),
                classified(
                    b,
                    out@.skip(start.len() as int),
                    line_spans_list(node.children@.take(i as int)),
                ),
            decreases node.children@.len() - i,
        {
            proof {
                lemma_fits_elem(b, node.children@, i as int);
            }
            let ghost mid = out@;
            collect_line_nodes(source, &node.children[i], out);
            proof {
                let cs = node.children@;
                assert(cs.take(i + 1).drop_last() =~= cs.take(i as int));
                assert(cs.take(i + 1).last() == cs[i as int]);
                let add = line_spans(cs[i as int]);
                let prev = line_spans_list(cs.take(i as int));
                assert(line_spans_list(cs.take(i + 1)) == prev + add);
                assert(out@.take(mid.len() as int) == mid);
                assert(out@.take(start.len() as int) =~= start) by {
                    assert(out@.take(start.len() as int) =~= mid.take(start.len() as int));
                }
                let all = out@.skip(start.len() as int);
                assert(all =~= mid.skip(start.len() as int) + out@.skip(mid.len() as int));
                assert forall|j: int| 0 <= j < all.len() implies (#[trigger] all[j]).0 == (prev
                    + add)[j] && kind_matches(b, all[j].1, classify_spec(b, (prev + add)[j])) by {
                    if j < prev.len() {
                        assert(all[j] == mid.skip(start.len() as int)[j]);
                    } else {
                        assert(all[j] == out@.skip(mid.len() as int)[j - prev.len()]);
                    }
                }
            }
            i = i + 1;
        }
        proof {
            assert(node.children@.take(i as int) =~= node.children@);
        }
    }
}

/// Classify every directive / instance line of a parsed buffer, in source order.
pub fn collect_classified_lines(source: &str, root: &SyntaxNode) -> (r: Vec<(Span, LineKind)>)
    requires
        fits(sb(source@), *root),
    ensures
        classified(sb(source@), r@, line_spans(*root)),
{
    let mut out: Vec<(Span, LineKind)> = Vec::new();
    collect_line_nodes(source, root, &mut out);
    proof {
        assert(out@.skip(0) =~= out@);
    }
    out
}

// ---------------------------------------------------------------------------
// Syntax diagnostics
// ---------------------------------------------------------------------------

/// End of a reported range: at least one byte past the start (saturating),
/// never past the end of the buffer.
pub open spec fn report_end(len: int, n: SyntaxNode) -> int {
    let one_past = if n.start_byte < usize::MAX {
        n.start_byte + 1
    } else {
        n.start_byte as int
    };
    let wide = if n.end_byte >= one_past {
        n.end_byte as int
    } else {
        one_past
    };
    if wide <= len {
        wide
    } else {
        len
    }
}

pub open spec fn msg_syntax_error() -> Seq<char> {
    "syntax error"@
}

pub open spec fn msg_missing_token() -> Seq<char> {
    "missing token"@
}

/// The diagnostic one node gives by itself.
pub open spec fn node_diags(len: int, n: SyntaxNode) -> Seq<DiagV> {
    let span = Span { start: n.start_byte, end: report_end(len, n) as usize };
    if n.is_error {
        seq![DiagV { message: msg_syntax_error(), severity: Severity::Error, span, code: None }]
    } else if n.is_missing {
        seq![DiagV { message: msg_missing_token(), severity: Severity::Error, span, code: None }]
    } else {
        Seq::empty()
    }
}

/// Syntax diagnostics of a tree, in pre-order.
pub open spec fn tree_diags(len: int, n: SyntaxNode) -> Seq<DiagV>
    decreases n, 1int,
{
    node_diags(len, n) + tree_diags_list(len, n.children@)
}

/// Syntax diagnostics of a list of trees, in order.
pub open spec fn tree_diags_list(len: int, cs: Seq<SyntaxNode>) -> Seq<DiagV>
    decreases cs, 0int,
{
    if cs.len() == 0 {
        Seq::empty()
    } else {
        tree_diags_list(len, cs.drop_last()) + tree_diags(len, cs.last())
    }
}

fn push_span_diagnostic(len: usize, node: &SyntaxNode, message: &str, out: &mut Vec<Diagnostic>)
    ensures
        diags_view(final(out)@) == diags_view(old(out)@).push(
            DiagV {
                message: message@,
                severity: Severity::Error,
                span: Span { start: node.start_byte, end: report_end(len as int, *node) as usize },
                code: None,
            },
        ),
{
    let start = node.start_byte;
    let one_past = if start < usize::MAX {
        start + 1
    } else {
        start
    };
    let wide = if node.end_byte >= one_past {
        node.end_byte
    } else {
        one_past
    };
    let end = if wide <= len {
        wide
    } else {
        len
    };
    let ghost before = out@;
    out.push(
        Diagnostic {
            message: owned(message),
            severity: Severity::Error,
            span: Span { start, end },
            code: None,
        },
    );
    proof {
        assert(diags_view(out@) =~= diags_view(before).push(out@.last()@));
    }
}

fn collect_node_diagnostics(len: usize, node: &SyntaxNode, out: &mut Vec<Diagnostic>)
    ensures
        diags_view(final(out)@) == diags_view(old(out)@) + tree_diags(len as int, *node),
    decreases *node,
{
    let ghost start = diags_view(out@);
    if node.is_error {
        push_span_diagnostic(len, node, "syntax error", out);
    } else if node.is_missing {
        push_span_diagnostic(len, node, "missing token", out);
    }
    proof {
        assert(diags_view(out@) =~= start + node_diags(len as int, *node));
    }
    let mut i: usize = 0;
    while i < node.children.len()
        invariant
            i <= node.children@.len(),
            diags_view(out@) == start + node_diags(len as int, *node) + tree_diags_list(
                len as int,
                node.children@.take(i as int),
            ),
        decreases node.children@.len() - i,
    {
        collect_node_diagnostics(len, &node.children[i], out);
        proof {
            let cs = node.children@;
            assert(cs.take(i + 1).drop_last() =~= cs.take(i as int));
            assert(cs.take(i + 1).last() == cs[i as int]);
        }
        i = i + 1;
    }
    proof {
        assert(node.children@.take(i as int) =~= node.children@);
    }
}

/// Syntax diagnostics (`ERROR` and `MISSING` nodes) of a parsed buffer.
pub fn tree_diagnostics(source: &str, root: &SyntaxNode) -> (r: Vec<Diagnostic>)
    ensures
        diags_view(r@) == tree_diags(sb(source@).len() as int, *root),
{
    let mut out: Vec<Diagnostic> = Vec::new();
    proof {
        assert(diags_view(out@) =~= Seq::<DiagV>::empty());
    }
    collect_node_diagnostics(source.as_bytes().len(), root, &mut out);
    proof {
        assert(diags_view(out@) =~= tree_diags(sb(source@).len() as int, *root));
    }
    out
}

// ---------------------------------------------------------------------------
// Ordering and de-duplication of diagnostics
// ---------------------------------------------------------------------------

/// `a` comes no later than `b`: by start offset, then by end offset.
pub open spec fn pos_le(a: Span, b: Span) -> bool {
    a.start < b.start || (a.start == b.start && a.end <= b.end)
}

/// Insert `x` into a list ordered by position, after every entry that does
/// not come later than it.
pub open spec fn insert_by_position(s: Seq<DiagV>, x: DiagV) -> Seq<DiagV>
    decreases s.len(),
{
    if s.len() == 0 {
        seq![x]
    } else if pos_le(s.last().span, x.span) {
        s.push(x)
    } else {
        insert_by_position(s.drop_last(), x).push(s.last())
    }
}

/// The stable sort of `s` by `(start, end)` of the span.
pub open spec fn sort_by_position(s: Seq<DiagV>) -> Seq<DiagV>
    decreases s.len(),
{
    if s.len() == 0 {
        s
    } else {
        insert_by_position(sort_by_position(s.drop_last()), s.last())
    }
}

/// Two reports of the same message at the same place.
pub open spec fn same_report(a: DiagV, b: DiagV) -> bool {
    a.span == b.span && a.message == b.message
}

/// Drop each entry that repeats the report kept just before it.
pub open spec fn dedup_reports(s: Seq<DiagV>) -> Seq<DiagV>
    decreases s.len(),
{
    if s.len() == 0 {
        s
    } else {
        let d = dedup_reports(s.drop_last());
        if d.len() > 0 && same_report(d.last(), s.last()) {
            d
        } else {
            d.push(s.last())
        }
    }
}

/// Inserting where every later entry comes strictly after `x` and the entry
/// before does not is `insert_by_position`.
proof fn lemma_insert_at(s: Seq<DiagV>, x: DiagV, j: int)
    requires
        0 <= j <= s.len(),
        forall|k: int| j <= k < s.len() ==> !pos_le(#[trigger] s[k].span, x.span),
        j > 0 ==> pos_le(s[j - 1].span, x.span),
    ensures
        insert_by_position(s, x) == s.insert(j, x),
    decreases s.len(),
{
    if s.len() == 0 {
        assert(s.insert(j, x) =~= seq![x]);
    } else if j == s.len() {
        assert(s.insert(j, x) =~= s.push(x));
    } else {
        assert(!pos_le(s[s.len() - 1].span, x.span));
        lemma_insert_at(s.drop_last(), x, j);
        assert(s.drop_last().insert(j, x).push(s.last()) =~= s.insert(j, x));
    }
}

fn position_le(a: Span, b: Span) -> (r: bool)
    ensures
        r == pos_le(a, b),
{
    a.start < b.start || (a.start == b.start && a.end <= b.end)
}

/// Stable sort of diagnostics by `(start, end)`.
pub(crate) fn sort_diagnostics(v: &Vec<Diagnostic>) -> (r: Vec<Diagnostic>)
    ensures
        diags_view(r@) == sort_by_position(diags_view(v@)),
{
    let ghost s = diags_view(v@);
    let mut out: Vec<Diagnostic> = Vec::new();
    let mut i: usize = 0;
    while i < v.len()
        invariant
            i <= v@.len(),
            s == diags_view(v@),
            diags_view(out@) == sort_by_position(s.take(i as int)),
        decreases v@.len() - i,
    {
        let d = v[i].clone_diag();
        let mut j: usize = out.len();
        let mut go = j > 0;
        while go
            invariant
                j <= out@.len(),
                go ==> j > 0,
                forall|k: int| j <= k < out@.len() ==> !pos_le(#[trigger] out@[k].span, d.span),
                !go ==> (j > 0 ==> pos_le(out@[j - 1].span, d.span)),
            decreases j + (if go { 1int } else { 0int }),
        {
            if position_le(out[j - 1].span, d.span) {
                go = false;
            } else {
                j = j - 1;
                go = j > 0;
            }
        }
        let ghost before = diags_view(out@);
        proof {
            assert forall|k: int| j <= k < before.len() implies !pos_le(
                #[trigger] before[k].span,
                d@.span,
            ) by {
                assert(before[k] == out@[k]@);
            }
            if j > 0 {
                assert(before[j - 1] == out@[j - 1]@);
            }
            lemma_insert_at(before, d@, j as int);
        }
        out.insert(j, d);
        proof {
            assert(diags_view(out@) =~= before.insert(j as int, s[i as int]));
            assert(s.take(i + 1).drop_last() =~= s.take(i as int));
            assert(s.take(i + 1).last() == s[i as int]);
        }
        i = i + 1;
    }
    proof {
        assert(s.take(i as int) =~= s);
    }
    out
}

/// Keep the first of each run of reports with the same span and message.
pub(crate) fn dedup_diagnostics(v: &Vec<Diagnostic>) -> (r: Vec<Diagnostic>)
    ensures
        diags_view(r@) == dedup_reports(diags_view(v@)),
{
    let ghost s = diags_view(v@);
    let mut out: Vec<Diagnostic> = Vec::new();
    let mut i: usize = 0;
    while i < v.len()
        invariant
            i <= v@.len(),
            s == diags_view(v@),
            diags_view(out@) == dedup_reports(s.take(i as int)),
        decreases v@.len() - i,
    {
        proof {
            assert(s.take(i + 1).drop_last() =~= s.take(i as int));
            assert(s.take(i + 1).last() == s[i as int]);
        }
        let n = out.len();
        let repeat = n > 0 && out[n - 1].span == v[i].span && out[n - 1].message == v[i].message;
        if !repeat {
            let ghost before = diags_view(out@);
            out.push(v[i].clone_diag());
            proof {
                assert(diags_view(out@) =~= before.push(s[i as int]));
            }
        }
        i = i + 1;
    }
    proof {
        assert(s.take(i as int) =~= s);
    }
    out
}

// ---------------------------------------------------------------------------
// Analysis
// ---------------------------------------------------------------------------

/// The index and the merged diagnostics of a buffer of `len` bytes whose tree
/// is `tree` and whose classified lines are `lines`: syntax diagnostics then
/// semantic ones, stably ordered by position, repeated reports dropped.
pub open spec fn analysis_spec(
    len: int,
    tree: SyntaxNode,
    lines: Seq<(Span, LineKindV)>,
    profile: AnalysisProfile,
) -> (IndexV, Seq<DiagV>) {
    let (ix, semantic) = build_result(lines, profile == AnalysisProfile::Extracted);
    (ix, dedup_reports(sort_by_position(tree_diags(len, tree) + semantic)))
}

/// `r` is the analysis of the buffer `b` with `tree` and `lines`.
pub open spec fn analyzed_as(
    r: ParseResult,
    b: Seq<u8>,
    tree: SyntaxNode,
    lines: Seq<(Span, LineKindV)>,
    dialect: Dialect,
    profile: AnalysisProfile,
) -> bool {
    let (ix, diags) = analysis_spec(b.len() as int, tree, lines, profile);
    &&& r.tree == tree
    &&& r.index@ == ix
    &&& diags_view(r.diagnostics@) == diags
    &&& r.dialect == dialect
    &&& r.profile == profile
}

/// `lines` are the classified line nodes of `tree` over `b`.
pub open spec fn lines_of(b: Seq<u8>, tree: SyntaxNode, lines: Seq<(Span, LineKind)>) -> bool {
    classified(b, lines, line_spans(tree))
}

fn finish_analyze(
    source: &str,
    dialect: Dialect,
    profile: AnalysisProfile,
    tree: SyntaxNode,
    lines: &[(Span, LineKind)],
) -> (r: ParseResult)
    ensures
        analyzed_as(r, sb(source@), tree, lines_v(lines@), dialect, profile),
{
    let (index, semantic) = build_index_with_profile(source, lines, profile);
    let mut diagnostics = tree_diagnostics(source, &tree);
    let ghost syntax = diags_view(diagnostics@);
    let mut i: usize = 0;
    while i < semantic.len()
        invariant
            i <= semantic@.len(),
            diags_view(diagnostics@) == syntax + diags_view(semantic@).take(i as int),
        decreases semantic@.len() - i,
    {
        let ghost before = diags_view(diagnostics@);
        diagnostics.push(semantic[i].clone_diag());
        proof {
            assert(diags_view(diagnostics@) =~= before.push(semantic@[i as int]@));
            assert(diags_view(semantic@).take(i + 1) =~= diags_view(semantic@).take(i as int).push(
                semantic@[i as int]@,
            ));
        }
        i = i + 1;
    }
    proof {
        assert(diags_view(semantic@).take(i as int) =~= diags_view(semantic@));
    }
    let sorted = sort_diagnostics(&diagnostics);
    let merged = dedup_diagnostics(&sorted);
    ParseResult { tree, diagnostics: merged, index, dialect, profile }
}

/// Analyze a parsed buffer under an explicit [`AnalysisProfile`].
pub fn analyze_with_profile(
    source: &str,
    tree: SyntaxNode,
    dialect: Dialect,
    profile: AnalysisProfile,
) -> (r: ParseResult)
    requires
        fits(sb(source@), tree),
    ensures
        exists|lines: Seq<(Span, LineKind)>|
            lines_of(sb(source@), tree, lines) && analyzed_as(
                r,
                sb(source@),
                tree,
                lines_v(lines),
                dialect,
                profile,
            ),
{
    let lines = collect_classified_lines(source, &tree);
    let r = finish_analyze(source, dialect, profile, tree, lines.as_slice());
    proof {
        assert(lines_of(sb(source@), r.tree, lines@));
        assert(analyzed_as(r, sb(source@), tree, lines_v(lines@), dialect, profile));
    }
    r
}

/// Analyze a parsed buffer under `dialect` with the full analysis profile.
pub fn analyze_with_dialect(source: &str, tree: SyntaxNode, dialect: Dialect) -> (r: ParseResult)
    requires
        fits(sb(source@), tree),
    ensures
        exists|lines: Seq<(Span, LineKind)>|
            lines_of(sb(source@), tree, lines) && analyzed_as(
                r,
                sb(source@),
                tree,
                lines_v(lines),
                dialect,
                AnalysisProfile::Full,
            ),
{
    analyze_with_profile(source, tree, dialect, AnalysisProfile::Full)
}

/// Analyze a parsed buffer with the default dialect (HSPICE).
pub fn analyze(source: &str, tree: SyntaxNode) -> (r: ParseResult)
    requires
        fits(sb(source@), tree),
    ensures
        exists|lines: Seq<(Span, LineKind)>|
            lines_of(sb(source@), tree, lines) && analyzed_as(
                r,
                sb(source@),
                tree,
                lines_v(lines),
                Dialect::Hspice,
                AnalysisProfile::Full,
            ),
{
    analyze_with_dialect(source, tree, Dialect::default())
}

/// Analyze pre-classified lines (shared by plain analysis and include
/// resolution); the tree still gives the syntax diagnostics.
pub fn analyze_lines(
    source: &str,
    tree: SyntaxNode,
    dialect: Dialect,
    lines: &[(Span, LineKind)],
) -> (r: ParseResult)
    ensures
        analyzed_as(r, sb(source@), tree, lines_v(lines@), dialect, AnalysisProfile::Full),
{
    analyze_lines_with_profile(source, tree, dialect, lines, AnalysisProfile::Full)
}

/// Like [`analyze_lines`] but with an explicit profile.
pub fn analyze_lines_with_profile(
    source: &str,
    tree: SyntaxNode,
    dialect: Dialect,
    lines: &[(Span, LineKind)],
    profile: AnalysisProfile,
) -> (r: ParseResult)
    ensures
        analyzed_as(r, sb(source@), tree, lines_v(lines@), dialect, profile),
{
    finish_analyze(source, dialect, profile, tree, lines)
}

/// Resolve the profile from the mode and the buffer size, then analyze.
pub fn analyze_for_mode(
    source: &str,
    tree: SyntaxNode,
    dialect: Dialect,
    mode: AnalysisMode,
    threshold: usize,
) -> (r: ParseResult)
    requires
        fits(sb(source@), tree),
    ensures
        r.profile == profile_for(mode, sb(source@).len() as int, threshold as int),
        exists|lines: Seq<(Span, LineKind)>|
            lines_of(sb(source@), tree, lines) && analyzed_as(
                r,
                sb(source@),
                tree,
                lines_v(lines),
                dialect,
                profile_for(mode, sb(source@).len() as int, threshold as int),
            ),
{
    let profile = resolve_profile(mode, source.as_bytes().len(), threshold);
    analyze_with_profile(source, tree, dialect, profile)
}

/// Auto mode with the default byte threshold.
pub fn analyze_auto(source: &str, tree: SyntaxNode, dialect: Dialect) -> (r: ParseResult)
    requires
        fits(sb(source@), tree),
    ensures
        r.profile == profile_for(
            AnalysisMode::Auto,
            sb(source@).len() as int,
            DEFAULT_EXTRACTED_BYTE_THRESHOLD as int,
        ),
        exists|lines: Seq<(Span, LineKind)>|
            lines_of(sb(source@), tree, lines) && analyzed_as(
                r,
                sb(source@),
                tree,
                lines_v(lines),
                dialect,
                profile_for(
                    AnalysisMode::Auto,
                    sb(source@).len() as int,
                    DEFAULT_EXTRACTED_BYTE_THRESHOLD as int,
                ),
            ),
{
    analyze_for_mode(source, tree, dialect, AnalysisMode::Auto, DEFAULT_EXTRACTED_BYTE_THRESHOLD)
}

// ---------------------------------------------------------------------------
// Laws of the merged diagnostics
// ---------------------------------------------------------------------------

/// Every entry comes no later than the entries after it.
pub open spec fn ordered_by_position(s: Seq<DiagV>) -> bool {
    forall|i: int, j: int| 0 <= i < j < s.len() ==> pos_le(#[trigger] s[i].span, #[trigger] s[j].span)
}

/// No entry repeats the report just before it.
pub open spec fn no_adjacent_repeats(s: Seq<DiagV>) -> bool {
    forall|i: int| 0 < i < s.len() ==> !same_report(#[trigger] s[i], s[i - 1])
}

/// Every entry of `s` has a report with the same span and message in `t`.
pub open spec fn reported_in(s: Seq<DiagV>, t: Seq<DiagV>) -> bool {
    forall|i: int| 0 <= i < s.len() ==> exists|j: int| 0 <= j < t.len() && same_report(#[trigger] s[i], #[trigger] t[j])
}

proof fn lemma_insert_is_insert(s: Seq<DiagV>, x: DiagV) -> (j: int)
    ensures
        0 <= j <= s.len(),
        insert_by_position(s, x) == s.insert(j, x),
    decreases s.len(),
{
    if s.len() == 0 {
        assert(s.insert(0, x) =~= seq![x]);
        0
    } else if pos_le(s.last().span, x.span) {
        assert(s.insert(s.len() as int, x) =~= s.push(x));
        s.len() as int
    } else {
        let j = lemma_insert_is_insert(s.drop_last(), x);
        assert(s.drop_last().insert(j, x).push(s.last()) =~= s.insert(j, x));
        j
    }
}

proof fn lemma_insert_ordered(s: Seq<DiagV>, x: DiagV)
    requires
        ordered_by_position(s),
    ensures
        ordered_by_position(insert_by_position(s, x)),
    decreases s.len(),
{
    let r = insert_by_position(s, x);
    if s.len() == 0 {
    } else if pos_le(s.last().span, x.span) {
        assert forall|i: int, j: int| 0 <= i < j < r.len() implies pos_le(
            #[trigger] r[i].span,
            #[trigger] r[j].span,
        ) by {
            if j == r.len() - 1 && i < s.len() - 1 {
                assert(pos_le(s[i].span, s[s.len() - 1].span));
            }
        }
    } else {
        let p = s.drop_last();
        lemma_insert_ordered(p, x);
        let q = insert_by_position(p, x);
        let k = lemma_insert_is_insert(p, x);
        assert forall|i: int, j: int| 0 <= i < j < r.len() implies pos_le(
            #[trigger] r[i].span,
            #[trigger] r[j].span,
        ) by {
            if j == r.len() - 1 {
                assert(r[j] == s.last());
                if i < k {
                    assert(r[i] == p[i]);
                    assert(pos_le(s[i].span, s[s.len() - 1].span));
                } else if i > k {
                    assert(r[i] == p[i - 1]);
                    assert(pos_le(s[i - 1].span, s[s.len() - 1].span));
                } else {
                    assert(r[i] == x);
                }
            } else {
                assert(r[i] == q[i] && r[j] == q[j]);
            }
        }
    }
}

/// Sorting by position orders the entries and keeps each of them, as often as
/// it occurs.
pub proof fn law_sort_by_position(s: Seq<DiagV>)
    ensures
        ordered_by_position(sort_by_position(s)),
        sort_by_position(s).to_multiset() == s.to_multiset(),
    decreases s.len(),
{
    if s.len() > 0 {
        let p = s.drop_last();
        law_sort_by_position(p);
        lemma_insert_ordered(sort_by_position(p), s.last());
        let j = lemma_insert_is_insert(sort_by_position(p), s.last());
        vstd::seq_lib::to_multiset_insert(sort_by_position(p), j, s.last());
        assert(s =~= p.push(s.last()));
        vstd::seq_lib::to_multiset_build(p, s.last());
    }
}

proof fn lemma_dedup_from_input(s: Seq<DiagV>)
    ensures
        forall|j: int| 0 <= j < dedup_reports(s).len() ==> s.contains(#[trigger] dedup_reports(s)[j]),
    decreases s.len(),
{
    if s.len() > 0 {
        let p = s.drop_last();
        lemma_dedup_from_input(p);
        let d = dedup_reports(p);
        let r = dedup_reports(s);
        assert forall|j: int| 0 <= j < r.len() implies s.contains(#[trigger] r[j]) by {
            if j < d.len() {
                assert(r[j] == d[j]);
                assert(p.contains(d[j]));
                let k = choose|k: int| 0 <= k < p.len() && p[k] == d[j];
                assert(s[k] == p[k]);
            } else {
                assert(r[j] == s[s.len() - 1]);
            }
        }
    }
}

proof fn lemma_dedup_keeps_reports(s: Seq<DiagV>)
    ensures
        reported_in(s, dedup_reports(s)),
    decreases s.len(),
{
    if s.len() > 0 {
        let p = s.drop_last();
        lemma_dedup_keeps_reports(p);
        let d = dedup_reports(p);
        let r = dedup_reports(s);
        assert(d.len() <= r.len());
        assert forall|j: int| 0 <= j < d.len() implies r[j] == d[j] by {}
        assert forall|i: int| 0 <= i < s.len() implies exists|j: int|
            0 <= j < r.len() && same_report(#[trigger] s[i], #[trigger] r[j]) by {
            if i < p.len() {
                assert(s[i] == p[i]);
                let j = choose|j: int| 0 <= j < d.len() && same_report(p[i], d[j]);
                assert(r[j] == d[j]);
            } else if d.len() > 0 && same_report(d.last(), s.last()) {
                assert(r[d.len() - 1] == d.last());
            } else {
                assert(r[r.len() - 1] == s.last());
            }
        }
    }
}

proof fn lemma_dedup_ordered(s: Seq<DiagV>)
    requires
        ordered_by_position(s),
    ensures
        ordered_by_position(dedup_reports(s)),
    decreases s.len(),
{
    if s.len() > 0 {
        let p = s.drop_last();
        assert(ordered_by_position(p));
        lemma_dedup_ordered(p);
        lemma_dedup_from_input(p);
        let d = dedup_reports(p);
        let r = dedup_reports(s);
        assert forall|i: int, j: int| 0 <= i < j < r.len() implies pos_le(
            #[trigger] r[i].span,
            #[trigger] r[j].span,
        ) by {
            if j < d.len() {
                assert(r[i] == d[i] && r[j] == d[j]);
            } else {
                assert(r[j] == s[s.len() - 1]);
                assert(r[i] == d[i]);
                assert(p.contains(d[i]));
                let k = choose|k: int| 0 <= k < p.len() && p[k] == d[i];
                assert(s[k] == p[k]);
                assert(pos_le(s[k].span, s[s.len() - 1].span));
            }
        }
    }
}

proof fn lemma_dedup_no_repeats(s: Seq<DiagV>)
    ensures
        no_adjacent_repeats(dedup_reports(s)),
    decreases s.len(),
{
    if s.len() > 0 {
        let p = s.drop_last();
        lemma_dedup_no_repeats(p);
        let d = dedup_reports(p);
        let r = dedup_reports(s);
        assert forall|i: int| 0 < i < r.len() implies !same_report(#[trigger] r[i], r[i - 1]) by {
            if i < d.len() {
                assert(r[i] == d[i] && r[i - 1] == d[i - 1]);
            }
        }
    }
}

/// Dropping repeats keeps the order, leaves no two equal reports side by
/// side, keeps only entries of the input, and loses no report.
pub proof fn law_dedup_reports(s: Seq<DiagV>)
    ensures
        ordered_by_position(s) ==> ordered_by_position(dedup_reports(s)),
        no_adjacent_repeats(dedup_reports(s)),
        forall|j: int| 0 <= j < dedup_reports(s).len() ==> s.contains(#[trigger] dedup_reports(s)[j]),
        reported_in(s, dedup_reports(s)),
{
    if ordered_by_position(s) {
        lemma_dedup_ordered(s);
    }
    lemma_dedup_no_repeats(s);
    lemma_dedup_from_input(s);
    lemma_dedup_keeps_reports(s);
}

/// The diagnostics of an analysis are ordered by position, never repeat a
/// report side by side, and report every syntax and semantic diagnostic (and
/// nothing else).
pub proof fn law_analysis_diagnostics(
    len: int,
    tree: SyntaxNode,
    lines: Seq<(Span, LineKindV)>,
    profile: AnalysisProfile,
)
    ensures
        ordered_by_position(analysis_spec(len, tree, lines, profile).1),
        no_adjacent_repeats(analysis_spec(len, tree, lines, profile).1),
        reported_in(
            tree_diags(len, tree) + build_result(lines, profile == AnalysisProfile::Extracted).1,
            analysis_spec(len, tree, lines, profile).1,
        ),
        reported_in(
            analysis_spec(len, tree, lines, profile).1,
            tree_diags(len, tree) + build_result(lines, profile == AnalysisProfile::Extracted).1,
        ),
{
    let all = tree_diags(len, tree) + build_result(lines, profile == AnalysisProfile::Extracted).1;
    let sorted = sort_by_position(all);
    let out = dedup_reports(sorted);
    law_sort_by_position(all);
    law_dedup_reports(sorted);
    assert forall|i: int| 0 <= i < all.len() implies exists|j: int|
        0 <= j < out.len() && same_report(#[trigger] all[i], #[trigger] out[j]) by {
        vstd::seq_lib::to_multiset_contains(all, all[i]);
        vstd::seq_lib::to_multiset_contains(sorted, all[i]);
        assert(all.contains(all[i]));
        assert(sorted.contains(all[i]));
        let k = choose|k: int| 0 <= k < sorted.len() && sorted[k] == all[i];
        let j = choose|j: int| 0 <= j < out.len() && same_report(sorted[k], out[j]);
    }
    assert forall|j: int| 0 <= j < out.len() implies exists|i: int|
        0 <= i < all.len() && same_report(#[trigger] out[j], #[trigger] all[i]) by {
        assert(sorted.contains(out[j]));
        let k = choose|k: int| 0 <= k < sorted.len() && sorted[k] == out[j];
        vstd::seq_lib::to_multiset_contains(all, out[j]);
        vstd::seq_lib::to_multiset_contains(sorted, out[j]);
        assert(all.contains(out[j]));
        let i = choose|i: int| 0 <= i < all.len() && all[i] == out[j];
    }
}

/// The dialect selects hover documentation only: two analyses of the same
/// buffer, tree, lines and profile report the same index and diagnostics
/// whatever dialects they were made for.
pub proof fn law_diagnostics_independent_of_dialect(
    r1: ParseResult,
    r2: ParseResult,
    b: Seq<u8>,
    tree: SyntaxNode,
    lines: Seq<(Span, LineKindV)>,
    d1: Dialect,
    d2: Dialect,
    profile: AnalysisProfile,
)
    requires
        analyzed_as(r1, b, tree, lines, d1, profile),
        analyzed_as(r2, b, tree, lines, d2, profile),
    ensures
        diags_view(r1.diagnostics@) == diags_view(r2.diagnostics@),
        r1.index@ == r2.index@,
{
}

} // verus!
