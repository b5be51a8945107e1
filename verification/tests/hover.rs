use spice_lsp::diagnostic::Span;
use spice_lsp::hover_token::{hover_token_at, HoverKind};

#[test]
fn finds_directive_name() {
    let source = "* c\n.tran 1n 100n\n";
    let offset = source.find("tran").unwrap();
    let token = hover_token_at(source, offset).unwrap();
    assert_eq!(token.kind, HoverKind::Directive);
    assert_eq!(token.name, ".tran");
}

#[test]
fn finds_element_letter() {
    let source = "R1 a b 1k\n";
    let token = hover_token_at(source, 0).unwrap();
    assert_eq!(token.kind, HoverKind::Element);
    assert_eq!(token.name, "R");
}

#[test]
fn directive_is_lowercased_with_span() {
    let source = "  .TRAN_x 1n\n";
    let token = hover_token_at(source, 5).unwrap();
    assert_eq!(token.name, ".tran_x");
    assert_eq!(token.span, Span { start: 2, end: 9 });
}

#[test]
fn element_letter_is_uppercased() {
    let token = hover_token_at("m1 d g s b n\n", 3).unwrap();
    assert_eq!(token.name, "M");
    assert_eq!(token.span, Span { start: 0, end: 1 });
}

#[test]
fn blank_comment_and_bare_dot_give_nothing() {
    assert!(hover_token_at("   \n", 1).is_none());
    assert!(hover_token_at("* note\n", 2).is_none());
    assert!(hover_token_at(". x\n", 0).is_none());
    assert!(hover_token_at("", 0).is_none());
}

#[test]
fn offset_past_end_is_clamped() {
    let token = hover_token_at("R1 a b", 100).unwrap();
    assert_eq!(token.name, "R");
}
