//! The concrete syntax tree of a netlist, as the parser hands it over: node
//! kinds, byte ranges, error flags and children in source order.
use vstd::prelude::*;
use vstd::utf8::*;

verus! {

/// The node kinds that the analysis distinguishes.
#[derive(Debug, Clone, Copy, PartialEq, Eq, Structural)]
pub enum NodeKind {
    /// A `.directive` line.
    DotDirectiveLine,
    /// An element instance line (`R1 a b 1k`, `X1 ...`).
    InstanceLine,
    /// Any other node (the root, comments, tokens, error nodes).
    Other,
}

/// One node of the syntax tree.
#[derive(Debug)]
pub struct SyntaxNode {
    pub kind: NodeKind,
    pub start_byte: usize,
    pub end_byte: usize,
    /// The parser could not match this text (an `ERROR` node).
    pub is_error: bool,
    /// The parser inserted this node for an expected token that is absent.
    pub is_missing: bool,
    pub children: Vec<SyntaxNode>,
}

/// The node's own range lies inside `b` and starts and ends on character
/// boundaries, as every node of a tree parsed from `b` does.
pub open spec fn node_fits(b: Seq<u8>, n: SyntaxNode) -> bool {
    &&& n.start_byte <= n.end_byte <= b.len()
    &&& is_char_boundary(b, n.start_byte as int)
    &&& is_char_boundary(b, n.end_byte as int)
}

/// Every node of the tree fits `b`.
pub open spec fn fits(b: Seq<u8>, n: SyntaxNode) -> bool
    decreases n, 1int,
{
    node_fits(b, n) && fits_list(b, n.children@)
}

/// Every node of every tree in the list fits `b`.
pub open spec fn fits_list(b: Seq<u8>, cs: Seq<SyntaxNode>) -> bool
    decreases cs, 0int,
{
    if cs.len() == 0 {
        true
    } else {
        fits_list(b, cs.drop_last()) && fits(b, cs.last())
    }
}

/// Each tree of a fitting list fits.
pub proof fn lemma_fits_elem(b: Seq<u8>, cs: Seq<SyntaxNode>, i: int)
    requires
        fits_list(b, cs),
        0 <= i < cs.len(),
    ensures
        fits(b, cs[i]),
        fits_list(b, cs.take(i)),
    decreases cs.len(),
{
    if i < cs.len() - 1 {
        assert(cs.drop_last()[i] == cs[i]);
        lemma_fits_elem(b, cs.drop_last(), i);
        assert(cs.drop_last().take(i) =~= cs.take(i));
    } else {
        assert(cs.drop_last() =~= cs.take(i));
    }
}

} // verus!
