use spice_lsp::analyze::{
    analyze, analyze_for_mode, analyze_with_dialect, analyze_with_profile,
    collect_classified_lines, tree_diagnostics,
};
use spice_lsp::classify::{classify_line, model_ref_at_offset, LineKind};
use spice_lsp::diagnostic::{Severity, Span};
use spice_lsp::dialect::Dialect;
use spice_lsp::indexer::build_index_with_profile;
use spice_lsp::profile::{AnalysisMode, AnalysisProfile};
use spice_lsp::subckt::{dot_directive_spans, subckt_diagnostics};
use spice_lsp::symbols::SymbolKind;
use spice_lsp::tree::{NodeKind, SyntaxNode};

fn node(kind: NodeKind, start: usize, end: usize) -> SyntaxNode {
    SyntaxNode {
        kind,
        start_byte: start,
        end_byte: end,
        is_error: false,
        is_missing: false,
        children: Vec::new(),
    }
}

/// A tree with one line node per directive or instance line.
fn line_tree(source: &str) -> SyntaxNode {
    let mut root = node(NodeKind::Other, 0, source.len());
    let mut start = 0;
    for line in source.split('\n') {
        let end = start + line.len();
        let trimmed = line.trim_start();
        if trimmed.starts_with('.') {
            root.children.push(node(NodeKind::DotDirectiveLine, start, end));
        } else if trimmed.chars().next().is_some_and(|c| c.is_ascii_alphabetic()) {
            root.children.push(node(NodeKind::InstanceLine, start, end));
        }
        start = end + 1;
    }
    root
}

fn lines(source: &str) -> Vec<(Span, LineKind)> {
    collect_classified_lines(source, &line_tree(source))
}

#[test]
fn detects_unmatched_ends() {
    let span = Span { start: 0, end: 5 };
    let diags = subckt_diagnostics(&[("ends".into(), span)]);
    assert_eq!(diags.len(), 1);
    assert!(diags[0].message.contains("unexpected .ends"));
}

#[test]
fn unclosed_subckt_is_reported_after_unmatched_ends() {
    let a = Span { start: 0, end: 4 };
    let b = Span { start: 5, end: 9 };
    let diags = subckt_diagnostics(&[("subckt".into(), a), ("ends".into(), b), ("ends".into(), b), ("subckt".into(), a)]);
    assert_eq!(diags.len(), 2);
    assert_eq!(diags[0].message, "unexpected .ends without .subckt");
    assert_eq!(diags[1].message, "missing .ends for subcircuit");
    assert_eq!(diags[1].span, a);
    assert!(subckt_diagnostics(&[("SUBCKT".into(), a)]).is_empty());
}

#[test]
fn directive_spans_are_lowercased_names() {
    let source = "  ..SubCkt buf\nX1 a b buf\n.ENDS\n";
    let dirs = dot_directive_spans(source, &line_tree(source));
    assert_eq!(dirs.len(), 2);
    assert_eq!(dirs[0].0, "subckt");
    assert_eq!(dirs[0].1, Span { start: 0, end: 14 });
    assert_eq!(dirs[1].0, "ends");
}

#[test]
fn classifies_include_and_lib_call() {
    let inc = ".include 'models.inc'\n";
    let kind = classify_line(inc, Span { start: 0, end: 21 });
    assert!(matches!(
        kind,
        LineKind::Include { ref path, .. } if path == "models.inc"
    ));

    let lib = ".lib 'corners.lib' TT\n";
    let kind = classify_line(lib, Span { start: 0, end: 21 });
    assert!(matches!(
        kind,
        LineKind::LibCall { ref path, ref entry, .. }
            if path == "corners.lib" && entry == "TT"
    ));

    let section = ".lib TT\n";
    let kind = classify_line(section, Span { start: 0, end: 7 });
    assert!(matches!(
        kind,
        LineKind::LibSection { ref name, .. } if name == "TT"
    ));
}

#[test]
fn classifies_subckt_and_instance() {
    let source = ".subckt buf in out\nX1 a b buf\n.ends\n";
    let parsed = lines(source);
    assert!(matches!(
        parsed[0].1,
        LineKind::Subckt { ref name, .. } if name == "buf"
    ));
    assert!(matches!(
        parsed[1].1,
        LineKind::Instance { ref name, .. } if name == "X1"
    ));
}

#[test]
fn model_ref_at_offset_finds_x_instance_model() {
    let source = "X1 a b mybuf\n";
    let offset = source.find("mybuf").unwrap();
    let (name, span) = model_ref_at_offset(source, offset).expect("model ref");
    assert_eq!(name, "mybuf");
    assert_eq!(&source[span.start..span.end], "mybuf");
}

#[test]
fn extracted_index_keeps_defs_only() {
    let source = ".subckt buf in out\nX1 a b buf\nX2 a b buf\n.ends\n";
    let parsed = lines(source);
    let (index, diags) = build_index_with_profile(source, &parsed, AnalysisProfile::Extracted);
    assert!(index.has_definition(SymbolKind::Subckt, "buf"));
    assert_eq!(
        index.symbols.iter().filter(|s| s.kind == SymbolKind::Instance).count(),
        0
    );
    assert!(diags
        .iter()
        .all(|d| d.code.as_deref() != Some("spice/duplicate-name")));
}

#[test]
fn extracted_profile_skips_instances_keeps_defs() {
    let source = "\
.subckt buf in out
.param gain=1
X1 a b buf
X2 a b buf
.ends
.model nmos_tt nmos level=1
M1 d g s b nmos_tt
";
    let result = analyze_with_profile(source, line_tree(source), Dialect::Hspice, AnalysisProfile::Extracted);
    assert_eq!(result.profile, AnalysisProfile::Extracted);
    assert!(result.index.has_definition(SymbolKind::Subckt, "buf"));
    assert!(result.index.has_definition(SymbolKind::Model, "nmos_tt"));
    assert!(result.index.has_definition(SymbolKind::Param, "gain"));
    assert!(!result.index.symbols.iter().any(|s| s.kind == SymbolKind::Instance));
    let buf_outline = result
        .index
        .document_symbols
        .iter()
        .find(|s| s.name == "buf")
        .expect("buf outline");
    assert!(buf_outline.children.iter().all(|c| c.kind != SymbolKind::Instance));
    assert!(buf_outline
        .children
        .iter()
        .any(|c| c.kind == SymbolKind::Param && c.name == "gain"));
    assert!(!result
        .diagnostics
        .iter()
        .any(|d| d.code.as_deref() == Some("spice/duplicate-name")));
    assert!(!result
        .diagnostics
        .iter()
        .any(|d| d.code.as_deref() == Some("spice/unknown-model")));
}

#[test]
fn extracted_profile_reports_unknown_model_sparsely() {
    let source = "X1 a b missingbuf\nX2 a b missingbuf\n";
    let result = analyze_with_profile(source, line_tree(source), Dialect::Hspice, AnalysisProfile::Extracted);
    let unknowns: Vec<_> = result
        .diagnostics
        .iter()
        .filter(|d| d.code.as_deref() == Some("spice/unknown-model"))
        .collect();
    assert_eq!(unknowns.len(), 1, "one diagnostic per unique name: {unknowns:?}");
    assert!(unknowns[0].message.contains("missingbuf"));
}

#[test]
fn auto_mode_uses_threshold() {
    let source = "R1 a b 1k\n";
    let full = analyze_for_mode(source, line_tree(source), Dialect::Hspice, AnalysisMode::Auto, 1024);
    assert_eq!(full.profile, AnalysisProfile::Full);

    let extracted = analyze_for_mode(source, line_tree(source), Dialect::Hspice, AnalysisMode::Auto, 1);
    assert_eq!(extracted.profile, AnalysisProfile::Extracted);
}

#[test]
fn unclosed_subckt_reports_error() {
    let source = ".subckt buf in out\nR1 in out 1k\n";
    let result = analyze(source, line_tree(source));
    assert!(result.diagnostics.iter().any(|d| d.message.contains("missing .ends")));
}

#[test]
fn duplicate_instance_reports_warning() {
    let source = "R1 a b 1k\nR1 b c 2k\n";
    let result = analyze(source, line_tree(source));
    assert!(result.diagnostics.iter().any(|d| {
        d.code.as_deref() == Some("spice/duplicate-name") && d.message.contains("R1")
    }));
}

#[test]
fn unknown_subckt_reports_warning() {
    let source = "X1 a b missingbuf\n";
    let result = analyze_with_dialect(source, line_tree(source), Dialect::Ngspice);
    assert_eq!(result.dialect, Dialect::Ngspice);
    assert!(result.diagnostics.iter().any(|d| {
        d.code.as_deref() == Some("spice/unknown-model") && d.message.contains("missingbuf")
    }));
}

const SIMPLE_RC: &str = "* simple RC low-pass\nV1 in 0 DC 1\nR1 in out 1k\nC1 out 0 1u\n.tran 1u 1m\n.end\n";
const SUBCKT: &str = "* buffer subcircuit\n.subckt buffer in out\nR1 in out 1k\n.ends\n\nX1 a b buffer\nV1 a 0 1\n.end\n";
const UNCLOSED: &str = "* unclosed\n.subckt buffer in out\nR1 in out 1k\nX1 a b buffer\n";

#[test]
fn valid_simple_rc_has_no_diagnostics() {
    let result = analyze(SIMPLE_RC, line_tree(SIMPLE_RC));
    assert!(result.diagnostics.is_empty(), "unexpected diagnostics: {:?}", result.diagnostics);
}

#[test]
fn subckt_fixture_builds_outline() {
    let result = analyze(SUBCKT, line_tree(SUBCKT));
    assert!(result.diagnostics.is_empty(), "{:?}", result.diagnostics);
    assert!(
        result.index.document_symbols.iter().any(|s| s.name == "buffer"),
        "expected buffer subcircuit in outline"
    );
}

#[test]
fn hspice_data_block_bare_rows_have_no_diagnostics() {
    let source = "* data\n.data load rload\n1k\n2k\n.enddata\n.dc DATA=load\n.end\n";
    let result = analyze_with_dialect(source, line_tree(source), Dialect::Hspice);
    assert!(result.diagnostics.is_empty(), "bare .DATA rows should not be syntax errors: {:?}", result.diagnostics);
    assert!(!result.tree.is_error);
}

#[test]
fn hspice_data_block_plus_rows_still_ok() {
    let source = "* data\n.data load rload\n+ 1k\n+ 2k\n.enddata\n.dc DATA=load\n.end\n";
    let result = analyze_with_dialect(source, line_tree(source), Dialect::Hspice);
    assert!(result.diagnostics.is_empty(), "unexpected diagnostics: {:?}", result.diagnostics);
}

#[test]
fn analyze_invalid_fixture_produces_diagnostics() {
    let result = analyze_with_dialect(UNCLOSED, line_tree(UNCLOSED), Dialect::Ngspice);
    assert!(!result.diagnostics.is_empty());
}

#[test]
fn ngspice_and_hspice_share_diagnostics_for_unclosed() {
    let ng = analyze_with_dialect(UNCLOSED, line_tree(UNCLOSED), Dialect::Ngspice);
    let hs = analyze_with_dialect(UNCLOSED, line_tree(UNCLOSED), Dialect::Hspice);
    assert_eq!(ng.diagnostics.len(), hs.diagnostics.len());
    assert_eq!(ng.diagnostics, hs.diagnostics);
}

#[test]
fn syntax_errors_come_first_in_position_order() {
    let source = "R1 a b 1k\n???\n";
    let mut tree = line_tree(source);
    let mut err = node(NodeKind::Other, 10, 13);
    err.is_error = true;
    let mut missing = node(NodeKind::Other, 14, 14);
    missing.is_missing = true;
    tree.children.push(missing);
    tree.children.push(err);
    let diags = tree_diagnostics(source, &tree);
    assert_eq!(diags.len(), 2);
    assert_eq!(diags[0].message, "missing token");
    assert_eq!(diags[0].span, Span { start: 14, end: 14 });
    let result = analyze(source, tree);
    assert_eq!(result.diagnostics.len(), 2);
    assert_eq!(result.diagnostics[0].message, "syntax error");
    assert_eq!(result.diagnostics[0].span, Span { start: 10, end: 13 });
    assert_eq!(result.diagnostics[0].severity, Severity::Error);
    assert_eq!(result.diagnostics[1].message, "missing token");
}

#[test]
fn repeated_reports_are_merged() {
    let source = "???\n";
    let mut tree = node(NodeKind::Other, 0, 4);
    let mut e1 = node(NodeKind::Other, 0, 3);
    e1.is_error = true;
    let mut e2 = node(NodeKind::Other, 0, 3);
    e2.is_error = true;
    tree.children.push(e1);
    tree.children.push(e2);
    let result = analyze(source, tree);
    assert_eq!(result.diagnostics.len(), 1);
}

#[test]
fn nested_subcircuits_each_get_an_outline_entry() {
    let source = ".subckt outer a\n.subckt inner b\nR1 b 0 1k\n.ends\nR2 a 0 1k\n.ends\n";
    let parsed = lines(source);
    let (index, diags) = build_index_with_profile(source, &parsed, AnalysisProfile::Full);
    let names: Vec<&str> = index.document_symbols.iter().map(|e| e.name.as_str()).collect();
    assert_eq!(names, vec!["inner", "outer"]);
    assert_eq!(index.document_symbols[0].children.len(), 1);
    assert_eq!(index.document_symbols[0].children[0].name, "R1");
    assert_eq!(index.document_symbols[1].children.len(), 1);
    assert_eq!(index.document_symbols[1].children[0].name, "R2");
    assert!(diags.is_empty());
}

#[test]
fn unclosed_nested_subcircuits_are_closed_innermost_first() {
    let source = ".subckt a x\n.subckt b y\n";
    let parsed = lines(source);
    let (index, _) = build_index_with_profile(source, &parsed, AnalysisProfile::Full);
    let names: Vec<&str> = index.document_symbols.iter().map(|e| e.name.as_str()).collect();
    assert_eq!(names, vec!["b", "a"]);
}

#[test]
fn indented_instance_name_span_is_in_the_source() {
    let source = "  R1 a b 1k\n";
    match classify_line(source, Span { start: 0, end: 11 }) {
        LineKind::Instance { name, name_span, model_ref } => {
            assert_eq!(name, "R1");
            assert_eq!(name_span, Span { start: 2, end: 4 });
            assert_eq!(&source[name_span.start..name_span.end], "R1");
            assert!(model_ref.is_none());
        }
        other => panic!("unexpected {:?}", other),
    }
}

#[test]
fn model_reference_is_the_token_itself() {
    let source = "Xbuf a buf\n";
    assert_eq!(
        model_ref_at_offset(source, 8),
        Some(("buf".to_string(), Span { start: 7, end: 10 }))
    );
    assert_eq!(model_ref_at_offset(source, 2), None);
}

#[test]
fn reference_spans_follow_instance_lines_by_profile() {
    let source = "X1 a buf\nX2 b BUF\n";
    let parsed = lines(source);
    let (full, _) = build_index_with_profile(source, &parsed, AnalysisProfile::Full);
    let both = [Span { start: 5, end: 8 }, Span { start: 14, end: 17 }];
    assert_eq!(full.reference_spans(SymbolKind::Subckt, "buf"), &both[..]);
    assert_eq!(full.reference_spans(SymbolKind::Model, "Buf"), &both[..]);
    assert!(full.reference_spans(SymbolKind::Param, "buf").is_empty());
    assert!(full.reference_spans(SymbolKind::Instance, "buf").is_empty());
    let (extracted, _) = build_index_with_profile(source, &parsed, AnalysisProfile::Extracted);
    assert_eq!(extracted.reference_spans(SymbolKind::Subckt, "buf"), &both[..1]);
    assert_eq!(extracted.reference_spans(SymbolKind::Model, "BUF"), &both[..1]);
}

#[test]
fn first_definition_of_a_name_wins() {
    let source = ".model nch nmos\n.MODEL NCH pmos\n";
    let parsed = lines(source);
    let (index, _) = build_index_with_profile(source, &parsed, AnalysisProfile::Full);
    assert_eq!(index.definition_span(SymbolKind::Model, "Nch"), Some(Span { start: 7, end: 10 }));
}

#[test]
fn extracted_outline_has_no_instances() {
    let source = "X1 a b buf\n.subckt buf a b\nR1 a b 1k\n.ends\n";
    let parsed = lines(source);
    let (index, _) = build_index_with_profile(source, &parsed, AnalysisProfile::Extracted);
    assert_eq!(index.document_symbols.len(), 1);
    assert_eq!(index.document_symbols[0].name, "buf");
    assert!(index.document_symbols[0].children.is_empty());
}
