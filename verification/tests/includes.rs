use spice_lsp::analyze::{analyze_with_dialect, collect_classified_lines, ParseResult};
use spice_lsp::classify::LineKind;
use spice_lsp::diagnostic::Span;
use spice_lsp::dialect::Dialect;
use spice_lsp::includes::{
    analyze_with_includes, collect_include_refs, find_lib_section_span, lines_for_lib_section,
    IncludeResolution, IncludeWalk, ResolveOptions, WalkAction,
};
use spice_lsp::indexer::build_index;
use spice_lsp::navigation::{definition_target, DefinitionTarget};
use spice_lsp::symbols::SymbolKind;
use spice_lsp::tree::{NodeKind, SyntaxNode};

fn node(kind: NodeKind, start: usize, end: usize) -> SyntaxNode {
    SyntaxNode {
        kind,
        start_byte: start,
        end_byte: end,
        is_error: false,
        is_missing: false,
        children: Vec::new(),
    }
}

/// A tree with one line node per directive or instance line.
fn line_tree(source: &str) -> SyntaxNode {
    let mut root = node(NodeKind::Other, 0, source.len());
    let mut start = 0;
    for line in source.split('\n') {
        let end = start + line.len();
        let trimmed = line.trim_start();
        if trimmed.starts_with('.') {
            root.children.push(node(NodeKind::DotDirectiveLine, start, end));
        } else if trimmed.chars().next().is_some_and(|c| c.is_ascii_alphabetic()) {
            root.children.push(node(NodeKind::InstanceLine, start, end));
        }
        start = end + 1;
    }
    root
}

fn lines(source: &str) -> Vec<(Span, LineKind)> {
    collect_classified_lines(source, &line_tree(source))
}

/// Drive an include walk against an in-memory file system of `(path, text)`.
fn walk(source: &str, options: &ResolveOptions, files: &[(&str, &str)]) -> IncludeResolution {
    let root_lines = lines(source);
    let mut w = IncludeWalk::start(&root_lines, options);
    let mut action = w.advance();
    let mut steps = 0;
    loop {
        steps += 1;
        assert!(steps < 10_000, "walk does not terminate");
        action = match action {
            WalkAction::Continue => w.advance(),
            WalkAction::FindPath { raw_path, base_dir } => {
                let candidates = std::iter::once(format!("{base_dir}/{raw_path}")).chain(
                    options.library_paths.iter().map(|d| format!("{d}/{raw_path}")),
                );
                let mut found = None;
                for c in candidates {
                    if files.iter().any(|(p, _)| *p == c) {
                        let parent = c.rsplit_once('/').map(|(d, _)| d.to_string()).unwrap();
                        found = Some((c, parent));
                        break;
                    }
                }
                w.path_resolved(found)
            }
            WalkAction::LoadFile { path } => {
                let loaded = files
                    .iter()
                    .find(|(p, _)| *p == path)
                    .map(|(_, t)| (t.to_string(), line_tree(t)));
                w.file_loaded(loaded)
            }
            WalkAction::Finished => break,
        };
    }
    w.resolution
}

fn run(source: &str, options: &ResolveOptions, files: &[(&str, &str)]) -> (ParseResult, IncludeResolution) {
    let resolution = walk(source, options, files);
    analyze_with_includes(source, line_tree(source), options, resolution)
}

fn has_code(result: &ParseResult, code: &str) -> bool {
    result.diagnostics.iter().any(|d| d.code.as_deref() == Some(code))
}

fn options(base_dir: &str) -> ResolveOptions {
    ResolveOptions {
        base_dir: base_dir.to_string(),
        library_paths: Vec::new(),
        max_depth: 8,
        dialect: Dialect::Hspice,
    }
}

const MODELS_INC: &str = ".model nch nmos level=1\n.subckt buffer a b\nR1 a b 1k\n.ends\n";
const CORNERS_LIB: &str =
    "* corners\n.lib TT\n.model nch_tt nmos level=1\n.endl TT\n.lib FF\n.model nch_ff nmos level=1\n.endl FF\n";

#[test]
fn lib_section_filters_models() {
    let source = "\
.lib TT
.model nmos_tt nmos level=1
.endl TT
.lib FF
.model nmos_ff nmos level=1
.endl FF
";
    let lines = lines(source);
    let tt = lines_for_lib_section(&lines, "TT");
    let (index, _) = build_index(source, &tt);
    assert!(index.has_definition(SymbolKind::Model, "nmos_tt"));
    assert!(!index.has_definition(SymbolKind::Model, "nmos_ff"));
}

#[test]
fn missing_include_emits_diagnostic() {
    let source = ".include 'missing.inc'\nX1 a b ghost\n";
    let options = ResolveOptions {
        base_dir: "/tmp".to_string(),
        ..ResolveOptions::default()
    };
    let (result, _) = run(source, &options, &[]);
    assert!(has_code(&result, "spice/include-not-found"));
    assert!(has_code(&result, "spice/unknown-model"));
}

#[test]
fn include_resolves_model_and_suppresses_unknown() {
    let source = ".include 'models.inc'\nM1 d g s b nch\nX1 a b buffer\n";
    let options = options("/w");
    let (result, resolution) = run(source, &options, &[("/w/models.inc", MODELS_INC)]);
    assert!(resolution.defines_model_or_subckt("nch"));
    assert!(resolution.defines_model_or_subckt("buffer"));
    assert!(!has_code(&result, "spice/unknown-model"), "{:?}", result.diagnostics);
    assert_eq!(resolution.files.len(), 1);
    assert_eq!(resolution.files[0].path, "/w/models.inc");
    assert_eq!(resolution.root_includes.len(), 1);
    assert_eq!(resolution.root_includes[0].resolved_path, "/w/models.inc");
    assert_eq!(resolution.root_includes[0].path_span, Span { start: 10, end: 20 });
}

#[test]
fn unknown_model_stays_without_include() {
    let source = "M1 d g s b nch\n";
    let (result, resolution) = run(source, &options("/w"), &[]);
    assert!(resolution.files.is_empty());
    assert!(has_code(&result, "spice/unknown-model"));
    let plain = analyze_with_dialect(source, line_tree(source), Dialect::Hspice);
    assert_eq!(plain.diagnostics, result.diagnostics);
}

#[test]
fn lib_call_resolves_selected_section_only() {
    let source = ".lib 'corners.lib' TT\nM1 d g s b nch_tt\n";
    let (result, resolution) = run(source, &options("/w"), &[("/w/corners.lib", CORNERS_LIB)]);
    assert!(resolution.defines_model_or_subckt("nch_tt"));
    assert!(!resolution.defines_model_or_subckt("nch_ff"));
    assert!(!has_code(&result, "spice/unknown-model"), "{:?}", result.diagnostics);
    assert_eq!(resolution.files[0].lib_entry.as_deref(), Some("TT"));
}

#[test]
fn lib_path_and_entry_offer_goto_targets() {
    let source = ".lib 'corners.lib' TT\nM1 d g s b nch_tt\n";
    let (_, resolution) = run(source, &options("/w"), &[("/w/corners.lib", CORNERS_LIB)]);
    assert_eq!(resolution.root_includes.len(), 1);

    let path_offset = source.find("corners.lib").unwrap();
    let (file, span) = resolution.definition_at_include_offset(path_offset).expect("path target");
    assert!(file.path.ends_with("corners.lib"));
    assert_eq!(span, Span { start: 0, end: 0 });

    let entry_offset = source.find(" TT").unwrap() + 1;
    let (file, span) = resolution.definition_at_include_offset(entry_offset).expect("entry target");
    assert!(file.path.ends_with("corners.lib"));
    let section = find_lib_section_span(&file.text, &line_tree(&file.text), "TT").expect("TT section");
    assert_eq!(span, section);
    assert_eq!(&file.text[span.start..span.end], "TT");

    assert!(resolution.definition_at_include_offset(source.len() - 2).is_none());
}

#[test]
fn definition_jumps_into_include_file() {
    let source = ".include 'models.inc'\nM1 d g s b nch\n";
    let (result, resolution) = run(source, &options("/w"), &[("/w/models.inc", MODELS_INC)]);
    let offset = source.find("nch").unwrap();
    match definition_target(&result.index, offset, Some(&resolution)) {
        Some(DefinitionTarget::Included { file, span }) => {
            assert_eq!(resolution.files[file].path, "/w/models.inc");
            assert_eq!(&resolution.files[file].text[span.start..span.end], "nch");
        }
        other => panic!("unexpected target {other:?}"),
    }
    // Without the resolution the unresolved reference is its own target.
    match definition_target(&result.index, offset, None) {
        Some(DefinitionTarget::Local(span)) => assert_eq!(&source[span.start..span.end], "nch"),
        other => panic!("unexpected target {other:?}"),
    }
}

#[test]
fn include_cycle_is_reported() {
    let source = ".include 'a.inc'\n";
    let files = [("/w/a.inc", ".include 'b.inc'\n"), ("/w/b.inc", ".include 'a.inc'\n")];
    let (result, resolution) = run(source, &options("/w"), &files);
    assert!(has_code(&result, "spice/include-cycle"));
    assert_eq!(resolution.files.len(), 2);
}

#[test]
fn include_depth_limit_is_reported() {
    let source = ".include 'a.inc'\n";
    let files = [("/w/a.inc", ".include 'b.inc'\n"), ("/w/b.inc", ".model deep nmos\n")];
    let mut opts = options("/w");
    opts.max_depth = 1;
    let (result, resolution) = run(source, &opts, &files);
    assert!(has_code(&result, "spice/include-depth"), "{:?}", result.diagnostics);
    assert_eq!(resolution.files.len(), 1);
    opts.max_depth = 2;
    let (result, resolution) = run(source, &opts, &files);
    assert!(!has_code(&result, "spice/include-depth"));
    assert!(resolution.defines_model_or_subckt("deep"));
}

#[test]
fn library_paths_are_searched_after_base_dir() {
    let source = ".include 'models.inc'\nM1 d g s b nch\n";
    let mut opts = options("/w");
    opts.library_paths = vec!["/lib".to_string()];
    let (result, resolution) = run(source, &opts, &[("/lib/models.inc", MODELS_INC)]);
    assert_eq!(resolution.files[0].path, "/lib/models.inc");
    assert!(!has_code(&result, "spice/unknown-model"));
}

#[test]
fn unreadable_and_missing_section_are_reported() {
    let source = ".include 'gone.inc'\n.lib 'corners.lib' SS\n";
    let files = [("/w/gone.inc", "unused"), ("/w/corners.lib", CORNERS_LIB)];
    let resolution = {
        let root_lines = lines(source);
        let opts = options("/w");
        let mut w = IncludeWalk::start(&root_lines, &opts);
        let mut action = w.advance();
        loop {
            action = match action {
                WalkAction::Continue => w.advance(),
                WalkAction::FindPath { raw_path, base_dir } => {
                    let c = format!("{base_dir}/{raw_path}");
                    let ok = files.iter().any(|(p, _)| *p == c);
                    w.path_resolved(if ok { Some((c, base_dir)) } else { None })
                }
                WalkAction::LoadFile { path } => {
                    if path.ends_with("gone.inc") {
                        w.file_loaded(None)
                    } else {
                        w.file_loaded(Some((CORNERS_LIB.to_string(), line_tree(CORNERS_LIB))))
                    }
                }
                WalkAction::Finished => break,
            };
        }
        w.resolution
    };
    let codes: Vec<_> = resolution.diagnostics.iter().filter_map(|d| d.code.clone()).collect();
    assert!(resolution.diagnostics.iter().any(|d| d.message == "include file not readable: '/w/gone.inc'"));
    assert!(codes.iter().any(|c| c == "spice/include-not-found"), "{codes:?}");
    assert!(codes.iter().any(|c| c == "spice/lib-section-not-found"), "{codes:?}");
}

#[test]
fn include_refs_are_collected_in_order() {
    let source = ".include 'a.inc'\nR1 a b 1k\n.lib 'c.lib' TT\n.lib TT\n";
    let refs = collect_include_refs(&lines(source));
    assert_eq!(refs.len(), 2);
    assert_eq!(refs[0].path, "a.inc");
    assert_eq!(refs[0].lib_entry, None);
    assert_eq!(refs[1].path, "c.lib");
    assert_eq!(refs[1].lib_entry.as_deref(), Some("TT"));
}

#[test]
fn definition_jumps_to_lib_path_and_entry() {
    let source = ".lib 'corners.lib' TT\nM1 d g s b nch_tt\n";
    let (result, resolution) = run(source, &options("/w"), &[("/w/corners.lib", CORNERS_LIB)]);

    let path_offset = source.find("corners.lib").unwrap();
    match definition_target(&result.index, path_offset, Some(&resolution)) {
        Some(DefinitionTarget::Included { file, span }) => {
            assert!(resolution.files[file].path.ends_with("corners.lib"));
            assert_eq!(span, Span { start: 0, end: 0 });
        }
        other => panic!("unexpected target {other:?}"),
    }

    let entry_offset = source.find(" TT").unwrap() + 1;
    match definition_target(&result.index, entry_offset, Some(&resolution)) {
        Some(DefinitionTarget::Included { file, span }) => {
            let text = &resolution.files[file].text;
            assert_eq!(&text[span.start..span.end], "TT");
            // `.lib TT` is the second line of the library file.
            assert_eq!(spice_lsp::lsp_text::byte_offset_to_position(text, span.start).line, 1);
        }
        other => panic!("unexpected target {other:?}"),
    }
}

#[test]
fn definition_jumps_to_include_path() {
    let source = ".include 'models.inc'\nM1 d g s b nch\n";
    let (result, resolution) = run(source, &options("/w"), &[("/w/models.inc", MODELS_INC)]);
    let offset = source.find("models.inc").unwrap();
    match definition_target(&result.index, offset, Some(&resolution)) {
        Some(DefinitionTarget::Included { file, span }) => {
            assert!(resolution.files[file].path.ends_with("models.inc"));
            assert_eq!(span, Span { start: 0, end: 0 });
        }
        other => panic!("unexpected target {other:?}"),
    }
}
