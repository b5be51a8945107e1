//! Go-to-definition and find-references over the symbol index and the
//! include resolution.
use vstd::prelude::*;

use crate::diagnostic::Span;
use crate::includes::{include_target_from, model_or_subckt_in, IncludeResolution};
use crate::reference::{ins_sorted, isort};
use crate::symbols::{first_of, lkey, symbol_covers, Index, IndexV, KeyedV, SymbolKind, SymbolV};

verus! {

/// Position of the first symbol (from `i` on) whose name span holds `offset`.
pub open spec fn symbol_at(syms: Seq<SymbolV>, i: int, offset: int) -> Option<int>
    decreases syms.len() - i,
{
    if i < 0 || i >= syms.len() {
        None
    } else if symbol_covers(syms[i], offset) {
        Some(i)
    } else {
        symbol_at(syms, i + 1, offset)
    }
}

/// Position of the symbol under `offset`.
pub fn symbol_position(index: &Index, offset: usize) -> (r: Option<usize>)
    ensures
        match (r, symbol_at(index@.symbols, 0, offset as int)) {
            (Some(i), Some(j)) => i == j && i < index.symbols@.len(),
            (None, None) => true,
            _ => false,
        },
{
    let mut i: usize = 0;
    while i < index.symbols.len()
        invariant
            i <= index.symbols@.len(),
            symbol_at(index@.symbols, i as int, offset as int) == symbol_at(
                index@.symbols,
                0,
                offset as int,
            ),
        decreases index.symbols@.len() - i,
    {
        let s = &index.symbols[i];
        proof {
            assert(index@.symbols[i as int] == s@);
        }
        if offset >= s.name_span.start && offset <= s.name_span.end {
            return Some(i);
        }
        i = i + 1;
    }
    None
}

/// Kinds whose spans answer a references request on a symbol of kind `k`
/// (a model name may also name a subcircuit).
pub open spec fn kinds_for(k: SymbolKind) -> Seq<SymbolKind> {
    match k {
        SymbolKind::Model => seq![SymbolKind::Model, SymbolKind::Subckt],
        _ => seq![k],
    }
}

/// All reference spans recorded under `(kind, key)`.
pub open spec fn refs_of(ix: IndexV, k: SymbolKind, key: Seq<char>) -> Seq<Span> {
    if ix.refs.map.contains_key((k, key)) {
        ix.refs.map[(k, key)]
    } else {
        seq![]
    }
}

/// The definition span (when asked for) and the reference spans of one kind.
pub open spec fn spans_for(ix: IndexV, k: SymbolKind, key: Seq<char>, with_decl: bool) -> Seq<Span> {
    (if with_decl {
        match first_of(ix.defs, k, key) {
            Some(s) => seq![s],
            None => seq![],
        }
    } else {
        seq![]
    }) + refs_of(ix, k, key)
}

pub open spec fn gather(ix: IndexV, ks: Seq<SymbolKind>, key: Seq<char>, with_decl: bool) -> Seq<Span>
    decreases ks.len(),
{
    if ks.len() == 0 {
        seq![]
    } else {
        gather(ix, ks.drop_last(), key, with_decl) + spans_for(ix, ks.last(), key, with_decl)
    }
}

/// `a` comes strictly before `b` by start, then end.
pub open spec fn span_lt(a: Span, b: Span) -> bool {
    a.start < b.start || (a.start == b.start && a.end < b.end)
}

/// Drop each span equal to the one kept before it.
pub open spec fn dedup_spans(s: Seq<Span>) -> Seq<Span>
    decreases s.len(),
{
    if s.len() == 0 {
        s
    } else {
        let d = dedup_spans(s.drop_last());
        if d.len() > 0 && d.last() == s.last() {
            d
        } else {
            d.push(s.last())
        }
    }
}

/// The spans a references request at `offset` answers: those of the symbol
/// under the cursor (its definition too when asked), ordered by position,
/// each once.
pub open spec fn reference_spans_spec(ix: IndexV, offset: int, with_decl: bool) -> Seq<Span> {
    match symbol_at(ix.symbols, 0, offset) {
        None => seq![],
        Some(i) => {
            let y = ix.symbols[i];
            dedup_spans(
                isort(gather(ix, kinds_for(y.kind), lkey(y.name), with_decl), |a: Span, b: Span| span_lt(a, b)),
            )
        },
    }
}

proof fn lemma_ins_at_span(s: Seq<Span>, x: Span, j: int)
    requires
        0 <= j <= s.len(),
        forall|k: int| j <= k < s.len() ==> span_lt(x, #[trigger] s[k]),
        j > 0 ==> !span_lt(x, s[j - 1]),
    ensures
        ins_sorted(s, x, |a: Span, b: Span| span_lt(a, b)) == s.insert(j, x),
    decreases s.len(),
{
    let lt = |a: Span, b: Span| span_lt(a, b);
    if s.len() == 0 {
        assert(s.insert(j, x) =~= seq![x]);
    } else if j == s.len() {
        assert(s.insert(j, x) =~= s.push(x));
    } else {
        assert(lt(x, s[s.len() - 1]));
        lemma_ins_at_span(s.drop_last(), x, j);
        assert(s.drop_last().insert(j, x).push(s.last()) =~= s.insert(j, x));
    }
}

fn sort_spans(v: &Vec<Span>) -> (r: Vec<Span>)
    ensures
        r@ == isort(v@, |a: Span, b: Span| span_lt(a, b)),
{
    let mut out: Vec<Span> = Vec::new();
    let mut i: usize = 0;
    while i < v.len()
        invariant
            i <= v@.len(),
            out@ == isort(v@.take(i as int), |a: Span, b: Span| span_lt(a, b)),
        decreases v@.len() - i,
    {
        let x = v[i];
        let mut j = out.len();
        let mut go = j > 0;
        while go
            invariant
                j <= out@.len(),
                go ==> j > 0,
                forall|k: int| j <= k < out@.len() ==> span_lt(x, #[trigger] out@[k]),
                !go ==> (j > 0 ==> !span_lt(x, out@[j - 1])),
            decreases j + (if go { 1int } else { 0int }),
        {
            let y = out[j - 1];
            if x.start < y.start || (x.start == y.start && x.end < y.end) {
                j = j - 1;
                go = j > 0;
            } else {
                go = false;
            }
        }
        proof {
            lemma_ins_at_span(out@, x, j as int);
            assert(v@.take(i + 1).drop_last() =~= v@.take(i as int));
            assert(v@.take(i + 1).last() == x);
        }
        out.insert(j, x);
        i = i + 1;
    }
    proof {
        assert(v@.take(i as int) =~= v@);
    }
    out
}

fn dedup_span_list(v: &Vec<Span>) -> (r: Vec<Span>)
    ensures
        r@ == dedup_spans(v@),
{
    let mut out: Vec<Span> = Vec::new();
    let mut i: usize = 0;
    while i < v.len()
        invariant
            i <= v@.len(),
            out@ == dedup_spans(v@.take(i as int)),
        decreases v@.len() - i,
    {
        proof {
            assert(v@.take(i + 1).drop_last() =~= v@.take(i as int));
            assert(v@.take(i + 1).last() == v@[i as int]);
        }
        let n = out.len();
        if !(n > 0 && out[n - 1] == v[i]) {
            out.push(v[i]);
        }
        i = i + 1;
    }
    proof {
        assert(v@.take(i as int) =~= v@);
    }
    out
}

/// Spans of the symbol under `offset` and of its references, ordered by
/// position without repeats.
pub fn reference_spans_at(index: &Index, offset: usize, include_declaration: bool) -> (r: Vec<Span>)
    ensures
        r@ == reference_spans_spec(index@, offset as int, include_declaration),
{
    let i = match symbol_position(index, offset) {
        Some(i) => i,
        None => return Vec::new(),
    };
    let symbol = &index.symbols[i];
    proof {
        assert(index@.symbols[i as int] == symbol@);
    }
    let name = symbol.name.as_str();
    let ghost ks = kinds_for(symbol.kind);
    let mut kinds: Vec<SymbolKind> = Vec::new();
    kinds.push(symbol.kind);
    if symbol.kind == SymbolKind::Model {
        kinds.push(SymbolKind::Subckt);
    }
    proof {
        assert(kinds@ =~= ks);
    }
    let mut spans: Vec<Span> = Vec::new();
    let mut k: usize = 0;
    while k < kinds.len()
        invariant
            k <= kinds@.len(),
            kinds@ == ks,
            spans@ == gather(index@, ks.take(k as int), lkey(name@), include_declaration),
        decreases kinds@.len() - k,
    {
        let kind = kinds[k];
        let ghost before = spans@;
        if include_declaration {
            match index.definition_span(kind, name) {
                Some(d) => spans.push(d),
                None => {},
            }
        }
        let refs = index.reference_spans(kind, name);
        let mut j: usize = 0;
        let ghost mid = spans@;
        while j < refs.len()
            invariant
                j <= refs@.len(),
                spans@ == mid + refs@.take(j as int),
            decreases refs@.len() - j,
        {
            spans.push(refs[j]);
            proof {
                assert(refs@.take(j + 1) =~= refs@.take(j as int).push(refs@[j as int]));
            }
            j = j + 1;
        }
        proof {
            assert(refs@.take(j as int) =~= refs@);
            assert(ks.take(k + 1).drop_last() =~= ks.take(k as int));
            assert(ks.take(k + 1).last() == kind);
            assert(spans@ =~= before + spans_for(index@, kind, lkey(name@), include_declaration));
        }
        k = k + 1;
    }
    proof {
        assert(ks.take(k as int) =~= ks);
    }
    let sorted = sort_spans(&spans);
    dedup_span_list(&sorted)
}

/// The local definition of `(kind, key)`; a model name may also be defined
/// as a subcircuit.
pub open spec fn local_def(ix: IndexV, k: SymbolKind, key: Seq<char>) -> Option<Span> {
    match first_of(ix.defs, k, key) {
        Some(s) => Some(s),
        None => if k == SymbolKind::Model {
            first_of(ix.defs, SymbolKind::Subckt, key)
        } else {
            None
        },
    }
}

/// Where go-to-definition leads.
#[derive(Debug, Clone, Copy, PartialEq, Eq, Structural)]
pub enum DefinitionTarget {
    /// A span of the document itself.
    Local(Span),
    /// A span in the included file at this position of the resolution.
    Included { file: usize, span: Span },
}

/// Go-to-definition at `offset`: a resolved include path or `.lib` entry
/// under the cursor; else, for the symbol under the cursor, its local
/// definition, then (for models and subcircuits) a definition in an included
/// file, then its first recorded reference.
pub open spec fn definition_spec(
    ix: IndexV,
    offset: int,
    res: Option<IncludeResolution>,
) -> Option<DefinitionTarget> {
    let via_include = match res {
        Some(r) => include_target_from(r.files@, r.root_includes@, 0, offset),
        None => None,
    };
    match via_include {
        Some((j, s)) => Some(DefinitionTarget::Included { file: j as usize, span: s }),
        None => match symbol_at(ix.symbols, 0, offset) {
            None => None,
            Some(i) => {
                let y = ix.symbols[i];
                let key = lkey(y.name);
                match local_def(ix, y.kind, key) {
                    Some(s) => Some(DefinitionTarget::Local(s)),
                    None => {
                        let external = match res {
                            Some(r) => if y.kind == SymbolKind::Model || y.kind == SymbolKind::Subckt {
                                model_or_subckt_in(r.files@, key)
                            } else {
                                None
                            },
                            None => None,
                        };
                        match external {
                            Some((j, _, s)) => Some(DefinitionTarget::Included { file: j as usize, span: s }),
                            None => if refs_of(ix, y.kind, key).len() > 0 {
                                Some(DefinitionTarget::Local(refs_of(ix, y.kind, key)[0]))
                            } else {
                                None
                            },
                        }
                    },
                }
            },
        },
    }
}

fn local_definition_span(index: &Index, kind: SymbolKind, name: &str) -> (r: Option<Span>)
    ensures
        r == local_def(index@, kind, lkey(name@)),
{
    match index.definition_span(kind, name) {
        Some(s) => Some(s),
        None => if kind == SymbolKind::Model {
            index.definition_span(SymbolKind::Subckt, name)
        } else {
            None
        },
    }
}

/// Where go-to-definition at `offset` leads.
pub fn definition_target(index: &Index, offset: usize, resolution: Option<&IncludeResolution>) -> (r:
    Option<DefinitionTarget>)
    ensures
        r == definition_spec(
            index@,
            offset as int,
            match resolution {
                Some(x) => Some(*x),
                None => None,
            },
        ),
{
    if let Some(res) = resolution {
        if let Some((j, span)) = res.include_target(offset) {
            return Some(DefinitionTarget::Included { file: j, span });
        }
    }
    let i = match symbol_position(index, offset) {
        Some(i) => i,
        None => return None,
    };
    let symbol = &index.symbols[i];
    proof {
        assert(index@.symbols[i as int] == symbol@);
    }
    let name = symbol.name.as_str();
    if let Some(span) = local_definition_span(index, symbol.kind, name) {
        return Some(DefinitionTarget::Local(span));
    }
    if let Some(res) = resolution {
        if symbol.kind == SymbolKind::Model || symbol.kind == SymbolKind::Subckt {
            if let Some((j, _k, span)) = res.model_or_subckt_at(name) {
                return Some(DefinitionTarget::Included { file: j, span });
            }
        }
    }
    let refs = index.reference_spans(symbol.kind, name);
    if refs.len() > 0 {
        Some(DefinitionTarget::Local(refs[0]))
    } else {
        None
    }
}

/// The definition spans of `key` for the kinds `ks`.
pub open spec fn decls(ix: IndexV, ks: Seq<SymbolKind>, key: Seq<char>) -> Seq<Span>
    decreases ks.len(),
{
    if ks.len() == 0 {
        seq![]
    } else {
        decls(ix, ks.drop_last(), key) + match first_of(ix.defs, ks.last(), key) {
            Some(s) => seq![s],
            None => seq![],
        }
    }
}

/// The definitions of the symbol under `offset` that a references request
/// may add.
pub open spec fn declarations_at(ix: IndexV, offset: int) -> Seq<Span> {
    match symbol_at(ix.symbols, 0, offset) {
        None => seq![],
        Some(i) => decls(ix, kinds_for(ix.symbols[i].kind), lkey(ix.symbols[i].name)),
    }
}

/// Strictly increasing by start, then end: ordered, and no span twice.
pub open spec fn strictly_ordered(s: Seq<Span>) -> bool {
    forall|i: int, j: int| 0 <= i < j < s.len() ==> span_lt(#[trigger] s[i], #[trigger] s[j])
}

/// Ordered by start, then end (equal spans allowed).
pub open spec fn ordered(s: Seq<Span>) -> bool {
    forall|i: int, j: int| 0 <= i < j < s.len() ==> !span_lt(#[trigger] s[j], #[trigger] s[i])
}

proof fn lemma_ins_mem(s: Seq<Span>, x: Span, y: Span)
    ensures
        ins_sorted(s, x, |a: Span, b: Span| span_lt(a, b)).contains(y) <==> (s.contains(y) || y == x),
    decreases s.len(),
{
    let r = ins_sorted(s, x, |a: Span, b: Span| span_lt(a, b));
    if s.len() == 0 {
        if r.contains(y) {
            let k = choose|k: int| 0 <= k < r.len() && r[k] == y;
        }
        if y == x {
            assert(r[0] == y);
        }
    } else if !span_lt(x, s.last()) {
        assert(r == s.push(x));
        if r.contains(y) {
            let k = choose|k: int| 0 <= k < r.len() && r[k] == y;
            if k < s.len() {
                assert(s[k] == y);
            }
        }
        if s.contains(y) {
            let k = choose|k: int| 0 <= k < s.len() && s[k] == y;
            assert(r[k] == y);
        }
        if y == x {
            assert(r[s.len() as int] == y);
        }
    } else {
        let t = s.drop_last();
        lemma_ins_mem(t, x, y);
        let u = ins_sorted(t, x, |a: Span, b: Span| span_lt(a, b));
        assert(r == u.push(s.last()));
        if r.contains(y) {
            let k = choose|k: int| 0 <= k < r.len() && r[k] == y;
            if k < u.len() {
                assert(u[k] == y);
                if t.contains(y) {
                    let m = choose|m: int| 0 <= m < t.len() && t[m] == y;
                    assert(s[m] == y);
                }
            } else {
                assert(s[s.len() - 1] == y);
            }
        }
        if s.contains(y) {
            let k = choose|k: int| 0 <= k < s.len() && s[k] == y;
            if k < t.len() {
                assert(t[k] == y);
                let m = choose|m: int| 0 <= m < u.len() && u[m] == y;
                assert(r[m] == y);
            } else {
                assert(r[u.len() as int] == y);
            }
        }
        if y == x {
            let m = choose|m: int| 0 <= m < u.len() && u[m] == y;
            assert(r[m] == y);
        }
    }
}

proof fn lemma_ins_ordered(s: Seq<Span>, x: Span)
    requires
        ordered(s),
    ensures
        ordered(ins_sorted(s, x, |a: Span, b: Span| span_lt(a, b))),
    decreases s.len(),
{
    let r = ins_sorted(s, x, |a: Span, b: Span| span_lt(a, b));
    if s.len() == 0 {
    } else if !span_lt(x, s.last()) {
        assert(r == s.push(x));
        assert forall|i: int, j: int| 0 <= i < j < r.len() implies !span_lt(#[trigger] r[j], #[trigger] r[i]) by {
            if j == s.len() {
                assert(r[i] == s[i]);
                if i < s.len() - 1 {
                    assert(!span_lt(s[s.len() - 1], s[i]));
                }
            } else {
                assert(r[i] == s[i] && r[j] == s[j]);
            }
        }
    } else {
        let t = s.drop_last();
        assert(ordered(t)) by {
            assert forall|i: int, j: int| 0 <= i < j < t.len() implies !span_lt(#[trigger] t[j], #[trigger] t[i]) by {
                assert(t[i] == s[i] && t[j] == s[j]);
            }
        }
        lemma_ins_ordered(t, x);
        let u = ins_sorted(t, x, |a: Span, b: Span| span_lt(a, b));
        assert(r == u.push(s.last()));
        assert forall|i: int, j: int| 0 <= i < j < r.len() implies !span_lt(#[trigger] r[j], #[trigger] r[i]) by {
            if j == u.len() {
                assert(r[i] == u[i]);
                lemma_ins_mem(t, x, u[i]);
                assert(u.contains(u[i]));
                if u[i] != x {
                    let k = choose|k: int| 0 <= k < t.len() && t[k] == u[i];
                    assert(s[k] == t[k]);
                    assert(!span_lt(s[s.len() - 1], s[k]));
                }
            } else {
                assert(r[i] == u[i] && r[j] == u[j]);
            }
        }
    }
}

proof fn lemma_isort_mem(s: Seq<Span>, y: Span)
    ensures
        isort(s, |a: Span, b: Span| span_lt(a, b)).contains(y) <==> s.contains(y),
    decreases s.len(),
{
    if s.len() > 0 {
        let t = s.drop_last();
        lemma_isort_mem(t, y);
        lemma_ins_mem(isort(t, |a: Span, b: Span| span_lt(a, b)), s.last(), y);
        if t.contains(y) {
            let k = choose|k: int| 0 <= k < t.len() && t[k] == y;
            assert(s[k] == y);
        }
        if s.contains(y) {
            let k = choose|k: int| 0 <= k < s.len() && s[k] == y;
            if k < t.len() {
                assert(t[k] == y);
            }
        }
    }
}

proof fn lemma_isort_ordered(s: Seq<Span>)
    ensures
        ordered(isort(s, |a: Span, b: Span| span_lt(a, b))),
    decreases s.len(),
{
    if s.len() > 0 {
        lemma_isort_ordered(s.drop_last());
        lemma_ins_ordered(isort(s.drop_last(), |a: Span, b: Span| span_lt(a, b)), s.last());
    }
}

proof fn lemma_dedup_mem(s: Seq<Span>, y: Span)
    ensures
        dedup_spans(s).contains(y) <==> s.contains(y),
        dedup_spans(s).len() > 0 ==> s.len() > 0 && dedup_spans(s).last() == s.last(),
    decreases s.len(),
{
    if s.len() > 0 {
        let t = s.drop_last();
        lemma_dedup_mem(t, y);
        let d = dedup_spans(t);
        let r = dedup_spans(s);
        if t.contains(y) {
            let k = choose|k: int| 0 <= k < t.len() && t[k] == y;
            assert(s[k] == y);
        }
        if s.contains(y) {
            let k = choose|k: int| 0 <= k < s.len() && s[k] == y;
            if k < t.len() {
                assert(t[k] == y);
                let m = choose|m: int| 0 <= m < d.len() && d[m] == y;
                if r == d {
                } else {
                    assert(r[m] == y);
                }
            } else if d.len() > 0 && d.last() == s.last() {
                assert(d[d.len() - 1] == y);
            } else {
                assert(r[d.len() as int] == y);
            }
        }
        if r.contains(y) {
            let m = choose|m: int| 0 <= m < r.len() && r[m] == y;
            if m < d.len() {
                assert(d[m] == y);
            } else {
                assert(s[s.len() - 1] == y);
            }
        }
    }
}

proof fn lemma_dedup_ordered(s: Seq<Span>)
    requires
        ordered(s),
    ensures
        strictly_ordered(dedup_spans(s)),
    decreases s.len(),
{
    if s.len() > 0 {
        let t = s.drop_last();
        assert(ordered(t)) by {
            assert forall|i: int, j: int| 0 <= i < j < t.len() implies !span_lt(#[trigger] t[j], #[trigger] t[i]) by {
                assert(t[i] == s[i] && t[j] == s[j]);
            }
        }
        lemma_dedup_ordered(t);
        let d = dedup_spans(t);
        let r = dedup_spans(s);
        if !(d.len() > 0 && d.last() == s.last()) {
            assert(r == d.push(s.last()));
            assert forall|i: int, j: int| 0 <= i < j < r.len() implies span_lt(#[trigger] r[i], #[trigger] r[j]) by {
                if j == d.len() {
                    assert(r[i] == d[i]);
                    lemma_dedup_mem(t, d[i]);
                    assert(d.contains(d[i]));
                    let k = choose|k: int| 0 <= k < t.len() && t[k] == d[i];
                    assert(s[k] == t[k]);
                    assert(!span_lt(s[s.len() - 1], s[k]));
                } else {
                    assert(r[i] == d[i] && r[j] == d[j]);
                }
            }
        }
    }
}

proof fn lemma_gather_decl(ix: IndexV, ks: Seq<SymbolKind>, key: Seq<char>, y: Span)
    ensures
        gather(ix, ks, key, true).contains(y) <==> (gather(ix, ks, key, false).contains(y) || decls(
            ix,
            ks,
            key,
        ).contains(y)),
    decreases ks.len(),
{
    if ks.len() > 0 {
        let ks0 = ks.drop_last();
        lemma_gather_decl(ix, ks0, key, y);
        let k = ks.last();
        let d1 = match first_of(ix.defs, k, key) {
            Some(s) => seq![s],
            None => seq![],
        };
        let rf = refs_of(ix, k, key);
        let gt0 = gather(ix, ks0, key, true);
        let gf0 = gather(ix, ks0, key, false);
        let dc0 = decls(ix, ks0, key);
        assert(gather(ix, ks, key, true) == gt0 + (d1 + rf));
        assert(gather(ix, ks, key, false) == gf0 + (seq![] + rf));
        assert(seq![] + rf =~= rf);
        assert(decls(ix, ks, key) == dc0 + d1);
        vstd::seq_lib::lemma_seq_concat_contains_all_elements(gt0, d1 + rf, y);
        vstd::seq_lib::lemma_seq_concat_contains_all_elements(d1, rf, y);
        vstd::seq_lib::lemma_seq_concat_contains_all_elements(gf0, rf, y);
        vstd::seq_lib::lemma_seq_concat_contains_all_elements(dc0, d1, y);
    }
}

/// A references request answers the spans ordered by position, each once;
/// asking for the declaration adds the definitions of the symbol under the
/// cursor to the answer and nothing else: a span is in the answer with the
/// declaration exactly when it is in the answer without it or is such a
/// definition.
pub proof fn law_references_with_declaration(ix: IndexV, offset: int, span: Span)
    ensures
        strictly_ordered(reference_spans_spec(ix, offset, true)),
        strictly_ordered(reference_spans_spec(ix, offset, false)),
        reference_spans_spec(ix, offset, true).contains(span) <==> (reference_spans_spec(
            ix,
            offset,
            false,
        ).contains(span) || declarations_at(ix, offset).contains(span)),
{
    match symbol_at(ix.symbols, 0, offset) {
        None => {},
        Some(i) => {
            let y = ix.symbols[i];
            let ks = kinds_for(y.kind);
            let key = lkey(y.name);
            lemma_isort_ordered(gather(ix, ks, key, true));
            lemma_isort_ordered(gather(ix, ks, key, false));
            lemma_dedup_ordered(isort(gather(ix, ks, key, true), |a: Span, b: Span| span_lt(a, b)));
            lemma_dedup_ordered(isort(gather(ix, ks, key, false), |a: Span, b: Span| span_lt(a, b)));
            lemma_gather_decl(ix, ks, key, span);
            lemma_isort_mem(gather(ix, ks, key, true), span);
            lemma_isort_mem(gather(ix, ks, key, false), span);
            lemma_dedup_mem(isort(gather(ix, ks, key, true), |a: Span, b: Span| span_lt(a, b)), span);
            lemma_dedup_mem(isort(gather(ix, ks, key, false), |a: Span, b: Span| span_lt(a, b)), span);
        },
    }
}


/// `s` is one of the spans stored under `(k, key)`.
pub open spec fn recorded(m: KeyedV, k: SymbolKind, key: Seq<char>, s: Span) -> bool {
    m.map.contains_key((k, key)) && m.map[(k, key)].contains(s)
}

/// `s` is the first span stored under `(k, key)`.
pub open spec fn first_recorded(m: KeyedV, k: SymbolKind, key: Seq<char>, s: Span) -> bool {
    m.map.contains_key((k, key)) && m.map[(k, key)].len() > 0 && m.map[(k, key)][0] == s
}

proof fn lemma_spans_for_mem(ix: IndexV, k: SymbolKind, key: Seq<char>, with_decl: bool, y: Span)
    ensures
        spans_for(ix, k, key, with_decl).contains(y) <==> (recorded(ix.refs, k, key, y) || (with_decl
            && first_recorded(ix.defs, k, key, y))),
{
    let d = if with_decl {
        match first_of(ix.defs, k, key) {
            Some(s) => seq![s],
            None => seq![],
        }
    } else {
        seq![]
    };
    vstd::seq_lib::lemma_seq_concat_contains_all_elements(d, refs_of(ix, k, key), y);
    if d.contains(y) {
        assert(d[0] == y);
    }
    if with_decl && first_recorded(ix.defs, k, key, y) {
        assert(d[0] == y);
    }
}

/// A references request finds exactly the uses of the name under the cursor
/// (compared by lookup key, so ignoring ASCII case), and with the
/// declaration also its first definition; a model name is also looked up
/// as a subcircuit, both for its uses and its definition. Away from any
/// symbol it finds nothing.
pub proof fn law_reference_spans_members(ix: IndexV, offset: int, with_decl: bool, span: Span)
    ensures
        symbol_at(ix.symbols, 0, offset) is None ==> reference_spans_spec(ix, offset, with_decl).len() == 0,
        symbol_at(ix.symbols, 0, offset) matches Some(i) ==> ({
            let y = ix.symbols[i];
            let key = lkey(y.name);
            reference_spans_spec(ix, offset, with_decl).contains(span) <==> (recorded(ix.refs, y.kind, key, span)
                || (y.kind == SymbolKind::Model && recorded(ix.refs, SymbolKind::Subckt, key, span)) || (with_decl
                && (first_recorded(ix.defs, y.kind, key, span) || (y.kind == SymbolKind::Model && first_recorded(
                ix.defs,
                SymbolKind::Subckt,
                key,
                span,
            )))))
        }),
{
    match symbol_at(ix.symbols, 0, offset) {
        None => {},
        Some(i) => {
            let y = ix.symbols[i];
            let key = lkey(y.name);
            let ks = kinds_for(y.kind);
            let g = gather(ix, ks, key, with_decl);
            lemma_isort_mem(g, span);
            lemma_dedup_mem(isort(g, |a: Span, b: Span| span_lt(a, b)), span);
            lemma_spans_for_mem(ix, y.kind, key, with_decl, span);
            lemma_spans_for_mem(ix, SymbolKind::Subckt, key, with_decl, span);
            let e = Seq::<SymbolKind>::empty();
            assert(gather(ix, e, key, with_decl) == Seq::<Span>::empty());
            if y.kind == SymbolKind::Model {
                let k1 = seq![SymbolKind::Model];
                assert(ks.drop_last() =~= k1);
                assert(k1.drop_last() =~= e);
                let g1 = gather(ix, k1, key, with_decl);
                assert(g1 == Seq::<Span>::empty() + spans_for(ix, SymbolKind::Model, key, with_decl));
                assert(g1 =~= spans_for(ix, SymbolKind::Model, key, with_decl));
                assert(g == g1 + spans_for(ix, SymbolKind::Subckt, key, with_decl));
                vstd::seq_lib::lemma_seq_concat_contains_all_elements(
                    g1,
                    spans_for(ix, SymbolKind::Subckt, key, with_decl),
                    span,
                );
            } else {
                assert(ks.drop_last() =~= e);
                assert(g == Seq::<Span>::empty() + spans_for(ix, y.kind, key, with_decl));
                assert(g =~= spans_for(ix, y.kind, key, with_decl));
            }
        },
    }
}

/// Go-to-definition on a symbol (away from an include path) leads to the
/// local definition of its name (compared by lookup key) when there is one,
/// before any included file; for a model name a local subcircuit of that
/// name counts as its definition too. An included file is the answer only
/// when no local definition exists.
pub proof fn law_definition_prefers_local(ix: IndexV, offset: int, res: Option<IncludeResolution>)
    requires
        match res {
            Some(r) => include_target_from(r.files@, r.root_includes@, 0, offset) is None,
            None => true,
        },
        symbol_at(ix.symbols, 0, offset) is Some,
    ensures
        ({
            let y = ix.symbols[symbol_at(ix.symbols, 0, offset)->0];
            let key = lkey(y.name);
            &&& forall|s: Span| first_recorded(ix.defs, y.kind, key, s) ==> definition_spec(ix, offset, res)
                == Some(DefinitionTarget::Local(s))
            &&& forall|s: Span|
                (y.kind == SymbolKind::Model && !ix.defs.map.contains_key((y.kind, key)) && first_recorded(
                    ix.defs,
                    SymbolKind::Subckt,
                    key,
                    s,
                )) ==> definition_spec(ix, offset, res) == Some(DefinitionTarget::Local(s))
            &&& definition_spec(ix, offset, res) matches Some(DefinitionTarget::Included { .. }) ==> (forall|s: Span|
                !first_recorded(ix.defs, y.kind, key, s) && !(y.kind == SymbolKind::Model && first_recorded(
                    ix.defs,
                    SymbolKind::Subckt,
                    key,
                    s,
                )))
        }),
{
}

} // verus!
