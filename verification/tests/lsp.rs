use spice_lsp::lsp_text::floor_char_boundary;
use spice_lsp::analyze::analyze;
use spice_lsp::diagnostic::Span;
use spice_lsp::dialect::Dialect;
use spice_lsp::hover_text::{hover_contents, included_hover};
use spice_lsp::includes::IncludeResolution;
use spice_lsp::lsp_text::{
    analysis_is_current, apply_change, byte_offset_to_position, position_to_byte_offset,
    span_to_range, Position, Range,
};
use spice_lsp::navigation::{definition_target, reference_spans_at, DefinitionTarget};
use spice_lsp::hover_token::HoverKind;
use spice_lsp::reference::{normalize_name, ReferenceEntry, ReferenceIndex, ReferenceParameter};
use spice_lsp::symbols::SymbolKind;
use spice_lsp::tree::{NodeKind, SyntaxNode};

fn node(kind: NodeKind, start: usize, end: usize) -> SyntaxNode {
    SyntaxNode {
        kind,
        start_byte: start,
        end_byte: end,
        is_error: false,
        is_missing: false,
        children: Vec::new(),
    }
}

/// A tree with one line node per directive or instance line.
fn line_tree(source: &str) -> SyntaxNode {
    let mut root = node(NodeKind::Other, 0, source.len());
    let mut start = 0;
    for line in source.split('\n') {
        let end = start + line.len();
        let trimmed = line.trim_start();
        if trimmed.starts_with('.') {
            root.children.push(node(NodeKind::DotDirectiveLine, start, end));
        } else if trimmed.chars().next().is_some_and(|c| c.is_ascii_alphabetic()) {
            root.children.push(node(NodeKind::InstanceLine, start, end));
        }
        start = end + 1;
    }
    root
}

fn pos(line: u32, character: u32) -> Position {
    Position { line, character }
}

const SUBCKT_CIR: &str = "* buffer subcircuit\n.subckt buffer in out\nR1 in out 1k\n.ends\n\nX1 a b buffer\nX2 c d buffer\n.end\n";

#[test]
fn ascii_byte_offset_maps_to_position() {
    let source = "R1 a b 1k\nC1 c 0 1u";
    let range = span_to_range(source, Span { start: 0, end: 2 });
    assert_eq!(range.start, pos(0, 0));
    assert_eq!(range.end, pos(0, 2));
}

#[test]
fn references_include_declaration_when_requested() {
    let source = SUBCKT_CIR;
    let result = analyze(source, line_tree(source));
    let def = result.index.definition_span(SymbolKind::Subckt, "buffer").expect("buffer definition");

    let with_decl: Vec<Range> = reference_spans_at(&result.index, def.start, true)
        .into_iter()
        .map(|s| span_to_range(source, s))
        .collect();
    let without_decl: Vec<Range> = reference_spans_at(&result.index, def.start, false)
        .into_iter()
        .map(|s| span_to_range(source, s))
        .collect();

    assert!(with_decl.len() >= 2);
    assert_eq!(without_decl.len(), with_decl.len() - 1);
    assert!(without_decl.iter().all(|r| r.start.line != 1));
}

#[test]
fn references_are_sorted_and_empty_off_symbol() {
    let source = SUBCKT_CIR;
    let result = analyze(source, line_tree(source));
    let use_offset = source.find("X2 c d buffer").unwrap() + 7;
    let spans = reference_spans_at(&result.index, use_offset, false);
    assert_eq!(spans.len(), 2);
    assert!(spans[0].start < spans[1].start);
    for s in &spans {
        assert_eq!(&source[s.start..s.end], "buffer");
    }
    assert!(reference_spans_at(&result.index, 2, true).is_empty());
}

#[test]
fn goto_definition_from_instance_reaches_subckt() {
    let source = SUBCKT_CIR;
    let result = analyze(source, line_tree(source));
    let offset = source.find("X1 a b buffer").unwrap() + 8;
    let def = result.index.definition_span(SymbolKind::Subckt, "buffer").unwrap();
    assert_eq!(definition_target(&result.index, offset, None), Some(DefinitionTarget::Local(def)));
    let resolution = IncludeResolution::default();
    assert_eq!(
        definition_target(&result.index, offset, Some(&resolution)),
        Some(DefinitionTarget::Local(def))
    );
    assert_eq!(span_to_range(source, def).start.line, 1);
}

#[test]
fn utf16_columns_count_surrogate_pairs() {
    // "é" is two bytes and one UTF-16 unit; "𝄞" is four bytes and two units.
    let source = "aé𝄞b\nx";
    assert_eq!(byte_offset_to_position(source, 3), pos(0, 2));
    assert_eq!(byte_offset_to_position(source, 7), pos(0, 4));
    assert_eq!(byte_offset_to_position(source, 9), pos(1, 0));
    assert_eq!(byte_offset_to_position(source, 100), pos(1, 1));
    assert_eq!(position_to_byte_offset(source, pos(0, 2)), 3);
    assert_eq!(position_to_byte_offset(source, pos(0, 4)), 7);
    assert_eq!(position_to_byte_offset(source, pos(1, 0)), 9);
}

#[test]
fn position_round_trips_on_char_boundaries() {
    let source = "R1 a b 1k\n* ünïcode 𝄞\nC1 c 0 1u\n";
    for (i, _) in source.char_indices() {
        let p = byte_offset_to_position(source, i);
        assert_eq!(position_to_byte_offset(source, p), i, "offset {i}");
    }
}

#[test]
fn positions_past_the_end_clamp() {
    let source = "ab\ncd";
    assert_eq!(position_to_byte_offset(source, pos(7, 0)), source.len());
    assert_eq!(position_to_byte_offset(source, pos(0, 50)), 2);
    assert_eq!(position_to_byte_offset(source, pos(1, 50)), 5);
}

#[test]
fn apply_change_edits_range_or_replaces_text() {
    let text = "R1 a b 1k\nC1 c 0 1u\n";
    let r = Range { start: pos(0, 7), end: pos(0, 9) };
    assert_eq!(apply_change(text, Some(r), "2k"), "R1 a b 2k\nC1 c 0 1u\n");
    assert_eq!(apply_change(text, None, "new"), "new");
    let insert = Range { start: pos(1, 0), end: pos(1, 0) };
    assert_eq!(apply_change(text, Some(insert), "* c\n"), "R1 a b 1k\n* c\nC1 c 0 1u\n");
    let backwards = Range { start: pos(1, 0), end: pos(0, 0) };
    assert_eq!(apply_change(text, Some(backwards), "x"), text);
}

#[test]
fn analysis_current_only_for_same_version_and_text() {
    assert!(analysis_is_current(3, "a", 3, "a"));
    assert!(!analysis_is_current(3, "a", 4, "a"));
    assert!(!analysis_is_current(3, "a", 3, "b"));
}

fn entry(id: &str, kind: &str, name: &str, summary: &str, syntax: &str) -> ReferenceEntry {
    ReferenceEntry {
        id: id.to_string(),
        kind: kind.to_string(),
        name: name.to_string(),
        summary: summary.to_string(),
        syntax: syntax.to_string(),
        parameters: Vec::new(),
        examples: Vec::new(),
        see_also: Vec::new(),
        diagnostics: Vec::new(),
        since: None,
        deprecated: None,
        dialect_notes: None,
    }
}

/// A small corpus laid out as the shipped one: a shared base and an HSPICE overlay.
fn corpus() -> ReferenceIndex {
    let mut index = ReferenceIndex::default();
    index.insert("shared", entry("shared.directive.tran", "directive", ".tran", "Transient analysis", ".tran tstep tstop"));
    index.insert("shared", entry("shared.directive.subckt", "directive", ".subckt", "Subcircuit definition", ".subckt name nodes"));
    index.insert("shared", entry("shared.directive.dc", "directive", ".dc", "DC sweep", ".dc src start stop step"));
    index.insert("shared", entry("shared.element.r", "element", "R", "Resistor", "Rxxx n1 n2 value"));
    index.insert("hspice", entry("hspice.directive.tran", "directive", ".TRAN", "HSPICE transient analysis", ".TRAN tstep tstop"));
    index.insert("hspice", entry("hspice.directive.data", "directive", ".data", "HSPICE data block", ".DATA name p1 p2\n+ v1 v2\n.ENDDATA"));
    let mut dc = entry("hspice.directive.dc", "directive", ".dc", "HSPICE DC sweep", ".DC var start stop incr");
    dc.examples.push(".DC DATA=load".to_string());
    index.insert("hspice", dc);
    index.insert("hspice", entry("hspice.directive.op", "directive", ".op", "HSPICE operating point", ".OP"));
    index
}

#[test]
fn embedded_corpus_loads() {
    let index = corpus();
    assert!(!index.is_empty());
    assert_eq!(index.len(), 8);
}

#[test]
fn hspice_tran_overrides_shared() {
    let index = corpus();
    let entry = index
        .lookup(Dialect::Hspice, HoverKind::Directive, ".tran")
        .expect("hspice .tran");
    assert!(entry.summary.contains("HSPICE"));
    assert_eq!(entry.id, "hspice.directive.tran");
}

#[test]
fn ngspice_falls_back_to_shared_subckt() {
    let index = corpus();
    let entry = index
        .lookup(Dialect::Ngspice, HoverKind::Directive, ".subckt")
        .expect("shared .subckt");
    assert_eq!(entry.id, "shared.directive.subckt");
}

#[test]
fn element_r_from_shared() {
    let index = corpus();
    let entry = index
        .lookup(Dialect::Hspice, HoverKind::Element, "R")
        .expect("R");
    assert_eq!(entry.name, "R");
}

#[test]
fn hspice_data_dc_op_from_corpus() {
    let index = corpus();
    let data = index.lookup(Dialect::Hspice, HoverKind::Directive, ".data").expect(".data");
    assert_eq!(data.id, "hspice.directive.data");
    assert!(data.syntax.contains(".ENDDATA"));

    let dc = index.lookup(Dialect::Hspice, HoverKind::Directive, ".dc").expect(".dc");
    assert_eq!(dc.id, "hspice.directive.dc");
    assert!(dc.summary.contains("HSPICE"));
    assert!(dc.syntax.contains("DATA=") || dc.examples.iter().any(|e| e.contains("DATA=")));

    let op = index.lookup(Dialect::Hspice, HoverKind::Directive, ".op").expect(".op");
    assert_eq!(op.id, "hspice.directive.op");
}

#[test]
fn ngspice_uses_shared_dc_not_hspice_overlay() {
    let index = corpus();
    let dc = index
        .lookup(Dialect::Ngspice, HoverKind::Directive, ".dc")
        .expect("shared .dc");
    assert_eq!(dc.id, "shared.directive.dc");
}

#[test]
fn insert_replaces_entry_with_same_key() {
    let mut index = corpus();
    index.insert("shared", entry("shared.directive.tran.v2", "directive", " .TRAN ", "New", ".tran"));
    assert_eq!(index.len(), 8);
    let e = index.lookup(Dialect::Ngspice, HoverKind::Directive, ".Tran").unwrap();
    assert_eq!(e.id, "shared.directive.tran.v2");
    assert!(index.lookup(Dialect::Ngspice, HoverKind::Directive, ".ac").is_none());
    assert!(index.lookup(Dialect::Hspice, HoverKind::Element, "c").is_none());
    assert_eq!(index.lookup(Dialect::Hspice, HoverKind::Element, " r ").unwrap().id, "shared.element.r");
}

#[test]
fn effective_entries_overlay_dialect_and_sort() {
    let index = corpus();
    let eff = index.effective_entries(Dialect::Hspice);
    let ids: Vec<(bool, &str)> = eff.iter().map(|(o, e)| (*o, e.id.as_str())).collect();
    assert_eq!(
        ids,
        vec![
            (true, "hspice.directive.data"),
            (true, "hspice.directive.dc"),
            (true, "hspice.directive.op"),
            (false, "shared.directive.subckt"),
            (true, "hspice.directive.tran"),
            (false, "shared.element.r"),
        ]
    );
    let ng: Vec<&str> = index.effective_entries(Dialect::Ngspice).iter().map(|(_, e)| e.id.as_str()).collect();
    assert_eq!(ng, vec!["shared.directive.dc", "shared.directive.subckt", "shared.directive.tran", "shared.element.r"]);
    let shared: Vec<&str> = index.shared_entries().iter().map(|e| e.id.as_str()).collect();
    assert_eq!(shared, ng);
    assert_eq!(index.iter_raw().len(), 8);
    assert_eq!(index.iter_raw()[4].0, "hspice");
}

#[test]
fn render_markdown_lays_out_sections() {
    let mut e = entry("x", "directive", ".tran", "Transient", ".tran a b");
    e.parameters.push(ReferenceParameter {
        name: "tstep".to_string(),
        description: "step | print".to_string(),
        units: Some("s".to_string()),
    });
    e.parameters.push(ReferenceParameter {
        name: "uic".to_string(),
        description: "initial".to_string(),
        units: None,
    });
    e.examples.push(".tran 1n 10n".to_string());
    e.dialect_notes = Some("note".to_string());
    let md = e.render_markdown(Dialect::Ngspice);
    assert_eq!(
        md,
        "### `.tran` — Transient\n\n**Dialect:** Ngspice\n\n```\n.tran a b\n```\n\
         \n| Parameter | Description | Units |\n|-----------|-------------|-------|\n\
         | `tstep` | step \\| print | s |\n| `uic` | initial |  |\n\
         \n**Examples**\n- `.tran 1n 10n`\n\n_note_\n"
    );
    let plain = entry("y", "element", "R", "Resistor", "R n1 n2 v").render_markdown(Dialect::Ltspice);
    assert_eq!(plain, "### `R` — Resistor\n\n**Dialect:** LTspice\n\n```\nR n1 n2 v\n```\n");
}

#[test]
fn normalize_name_keeps_dot_and_cases_letters() {
    assert_eq!(normalize_name(" .TRAN "), ".tran");
    assert_eq!(normalize_name("r"), "R");
    assert_eq!(normalize_name("Vsrc"), "vsrc");
}

#[test]
fn hover_prefers_corpus_then_local_symbol() {
    let source = "* demo\n.tran 1n 100n\n.subckt buf in out W=1\n.ends\n.model nch nmos level=1\n.end\n";
    let result = analyze(source, line_tree(source));
    let includes = IncludeResolution::default();
    let index = corpus();

    let offset = source.find("tran").unwrap();
    let (md, span) = hover_contents(source, &result.index, &includes, &index, Dialect::Hspice, offset).expect("hover");
    assert!(md.contains("HSPICE") && md.contains(".TRAN"), "{md}");
    assert_eq!(&source[span.start..span.end], ".tran");

    // `.subckt` itself is in the corpus, so the corpus wins there.
    let offset = source.find("buf in").unwrap();
    let (md, _) = hover_contents(source, &result.index, &includes, &index, Dialect::Hspice, offset).expect("hover");
    assert!(md.starts_with("### `.subckt` — Subcircuit definition"), "{md}");
    let empty = ReferenceIndex::default();
    let (md, span) = hover_contents(source, &result.index, &includes, &empty, Dialect::Hspice, offset).expect("hover");
    assert_eq!(md, "**`.subckt buf`** (file-local)\n\nPorts: `in, out`");
    assert_eq!(&source[span.start..span.end], ".subckt");

    let offset = source.find("nch").unwrap();
    let (md, _) = hover_contents(source, &result.index, &includes, &index, Dialect::Hspice, offset).expect("hover");
    assert_eq!(md, "**.model `nch`** (file-local)\n\n```\n.model nch nmos level=1\n```");

    assert!(hover_contents(source, &result.index, &includes, &index, Dialect::Hspice, 2).is_none());
}

#[test]
fn included_hover_shows_ports_or_model_line() {
    let text = "  .subckt buffer a b c=1\n.ends\n.model nch nmos level=1  \n";
    let s = text.find("buffer").unwrap();
    let md = included_hover(text, SymbolKind::Subckt, "buffer", Span { start: s, end: s + 6 });
    assert_eq!(md.as_deref(), Some("**`.subckt buffer`** (included)\n\nPorts: `a, b`"));
    let m = text.find("nch").unwrap();
    let md = included_hover(text, SymbolKind::Model, "nch", Span { start: m, end: m + 3 });
    assert_eq!(md.as_deref(), Some("**`.model nch`** (included)\n\n```\n.model nch nmos level=1\n```"));
    assert!(included_hover(text, SymbolKind::Param, "x", Span { start: 0, end: 1 }).is_none());
}

#[test]
fn floor_char_boundary_moves_back_to_character_start() {
    let text = "a\u{e9}";
    assert_eq!(floor_char_boundary(text, 2), 1);
    assert_eq!(floor_char_boundary(text, 3), 3);
    assert_eq!(floor_char_boundary(text, 10), 3);
    assert_eq!(floor_char_boundary(text, 0), 0);
}
