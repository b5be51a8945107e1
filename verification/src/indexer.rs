//! Building the symbol index and its semantic diagnostics from classified lines.
use vstd::prelude::*;
use vstd::hash_map::StringHashMap;

use crate::classify::{lines_v, LineKind, LineKindV};
use crate::diagnostic::{diags_view, DiagV, Diagnostic, Severity, Span};
use crate::profile::AnalysisProfile;
use crate::symbols::{
    doc_view, doc_wf, docs_view, first_of, keyed_add, keyed_add_first, keyed_empty, keyed_wf,
    key_of, leaf_view, lemma_keyed_add_wf, lkey, syms_view, DocLeafV, DocV, DocumentSymbolEntry,
    Index, IndexV, KeyedV, Symbol, SymbolKind, SymbolV,
};
use crate::text::{join3, owned};

verus! {

/// Occurrences of one instance name inside one scope.
pub struct CountV {
    pub scope: Seq<char>,
    pub key: Seq<char>,
    pub display: Seq<char>,
    pub spans: Seq<Span>,
}

/// State of the index builder after a prefix of the lines.
pub struct BuildV {
    pub ix: IndexV,
    pub diags: Seq<DiagV>,
    pub scope: Seq<(Seq<char>, Span)>,
    pub counts: Seq<CountV>,
    /// Outline entries of the `.subckt` blocks still open, innermost last.
    pub open: Seq<DocV>,
}

pub open spec fn build_init() -> BuildV {
    BuildV {
        ix: IndexV {
            symbols: seq![],
            docs: seq![],
            defs: keyed_empty(),
            refs: keyed_empty(),
        },
        diags: seq![],
        scope: seq![],
        counts: seq![],
        open: seq![],
    }
}

/// Name of the innermost open `.subckt`, empty at top level.
pub open spec fn current_scope(sc: Seq<(Seq<char>, Span)>) -> Seq<char> {
    if sc.len() == 0 {
        Seq::empty()
    } else {
        sc.last().0
    }
}

pub open spec fn sym(
    kind: SymbolKind,
    name: Seq<char>,
    name_span: Span,
    line_span: Span,
    scope: Seq<char>,
) -> SymbolV {
    SymbolV { kind, name, name_span, line_span, scope }
}

pub open spec fn leaf(kind: SymbolKind, name: Seq<char>, name_span: Span, line_span: Span) -> DocLeafV {
    DocLeafV { name, kind, name_span, line_span }
}

/// Add an outline entry under the innermost open subcircuit, or at top level.
pub open spec fn push_child(st: BuildV, child: DocLeafV) -> BuildV {
    if st.open.len() > 0 {
        let c = st.open.last();
        BuildV {
            open: st.open.update(st.open.len() - 1, DocV { children: c.children.push(child), ..c }),
            ..st
        }
    } else {
        BuildV {
            ix: IndexV {
                docs: st.ix.docs.push(
                    DocV {
                        name: child.name,
                        kind: child.kind,
                        name_span: child.name_span,
                        line_span: child.line_span,
                        children: seq![],
                    },
                ),
                ..st.ix
            },
            ..st
        }
    }
}

pub open spec fn count_has(c: Seq<CountV>, scope: Seq<char>, key: Seq<char>) -> bool {
    exists|i: int| 0 <= i < c.len() && c[i].scope == scope && c[i].key == key
}

pub open spec fn count_at(c: Seq<CountV>, scope: Seq<char>, key: Seq<char>) -> int {
    choose|i: int| 0 <= i < c.len() && c[i].scope == scope && c[i].key == key
}

/// Record one more occurrence of an instance name in a scope; the first
/// spelling seen is kept for messages.
pub open spec fn add_count(
    c: Seq<CountV>,
    scope: Seq<char>,
    key: Seq<char>,
    display: Seq<char>,
    span: Span,
) -> Seq<CountV> {
    if count_has(c, scope, key) {
        let i = count_at(c, scope, key);
        c.update(i, CountV { spans: c[i].spans.push(span), ..c[i] })
    } else {
        c.push(CountV { scope, key, display, spans: seq![span] })
    }
}

/// Each `(scope, key)` pair is counted once.
pub open spec fn counts_unique(c: Seq<CountV>) -> bool {
    forall|i: int, j: int|
        0 <= i < j < c.len() ==> !(c[i].scope == c[j].scope && c[i].key == c[j].key)
}

pub open spec fn msg_unexpected_ends() -> Seq<char> {
    "unexpected .ends without .subckt"@
}

pub open spec fn msg_missing_ends() -> Seq<char> {
    "missing .ends for subcircuit"@
}

/// Effect of one classified line on the builder.
pub open spec fn step_spec(st: BuildV, ls: Span, line: LineKindV, extracted: bool) -> BuildV {
    let scope = current_scope(st.scope);
    match line {
        LineKindV::Subckt { name, name_span } => BuildV {
            ix: IndexV {
                symbols: st.ix.symbols.push(sym(SymbolKind::Subckt, name, name_span, ls, scope)),
                defs: keyed_add(st.ix.defs, SymbolKind::Subckt, lkey(name), name_span),
                ..st.ix
            },
            scope: st.scope.push((name, ls)),
            open: st.open.push(
                DocV {
                    name: name,
                    kind: SymbolKind::Subckt,
                    name_span,
                    line_span: ls,
                    children: seq![],
                },
            ),
            ..st
        },
        LineKindV::Ends { .. } => if st.scope.len() == 0 {
            BuildV {
                diags: st.diags.push(
                    DiagV {
                        message: msg_unexpected_ends(),
                        severity: Severity::Error,
                        span: ls,
                        code: None,
                    },
                ),
                ..st
            }
        } else if st.open.len() > 0 {
            BuildV {
                scope: st.scope.drop_last(),
                ix: IndexV { docs: st.ix.docs.push(st.open.last()), ..st.ix },
                open: st.open.drop_last(),
                ..st
            }
        } else {
            BuildV { scope: st.scope.drop_last(), ..st }
        },
        LineKindV::Model { name, name_span } => push_child(
            BuildV {
                ix: IndexV {
                    symbols: st.ix.symbols.push(sym(SymbolKind::Model, name, name_span, ls, scope)),
                    defs: keyed_add(st.ix.defs, SymbolKind::Model, lkey(name), name_span),
                    ..st.ix
                },
                ..st
            },
            leaf(SymbolKind::Model, name, name_span, ls),
        ),
        LineKindV::Param { name, name_span } => push_child(
            BuildV {
                ix: IndexV {
                    symbols: st.ix.symbols.push(sym(SymbolKind::Param, name, name_span, ls, scope)),
                    defs: keyed_add(st.ix.defs, SymbolKind::Param, lkey(name), name_span),
                    ..st.ix
                },
                ..st
            },
            leaf(SymbolKind::Param, name, name_span, ls),
        ),
        LineKindV::Instance { name, name_span, model_ref } => if extracted {
            match model_ref {
                Some((m, ms)) => BuildV {
                    ix: IndexV {
                        refs: keyed_add_first(
                            keyed_add_first(st.ix.refs, SymbolKind::Subckt, lkey(m), ms),
                            SymbolKind::Model,
                            lkey(m),
                            ms,
                        ),
                        ..st.ix
                    },
                    ..st
                },
                None => st,
            }
        } else {
            let st1 = BuildV {
                counts: add_count(st.counts, scope, lkey(name), name, name_span),
                ix: IndexV {
                    symbols: st.ix.symbols.push(
                        sym(SymbolKind::Instance, name, name_span, ls, scope),
                    ),
                    ..st.ix
                },
                ..st
            };
            let st2 = push_child(st1, leaf(SymbolKind::Instance, name, name_span, ls));
            match model_ref {
                Some((m, ms)) => BuildV {
                    ix: IndexV {
                        refs: keyed_add(
                            keyed_add(st2.ix.refs, SymbolKind::Subckt, lkey(m), ms),
                            SymbolKind::Model,
                            lkey(m),
                            ms,
                        ),
                        symbols: st2.ix.symbols.push(sym(SymbolKind::Model, m, ms, ls, scope)),
                        ..st2.ix
                    },
                    ..st2
                },
                None => st2,
            }
        },
        _ => st,
    }
}

/// The builder state after processing `lines` in order.
pub open spec fn build_fold(lines: Seq<(Span, LineKindV)>, extracted: bool) -> BuildV
    decreases lines.len(),
{
    if lines.len() == 0 {
        build_init()
    } else {
        step_spec(
            build_fold(lines.drop_last(), extracted),
            lines.last().0,
            lines.last().1,
            extracted,
        )
    }
}

pub open spec fn dup_diag(display: Seq<char>, span: Span) -> DiagV {
    DiagV {
        message: "duplicate component name '"@ + display + "'"@,
        severity: Severity::Warning,
        span,
        code: Some("spice/duplicate-name"@),
    }
}

/// One warning per occurrence of every instance name used more than once in
/// the same scope.
pub open spec fn dup_diags(c: Seq<CountV>) -> Seq<DiagV>
    decreases c.len(),
{
    if c.len() == 0 {
        seq![]
    } else {
        let x = c.last();
        dup_diags(c.drop_last()) + if x.spans.len() > 1 {
            x.spans.map_values(|sp: Span| dup_diag(x.display, sp))
        } else {
            seq![]
        }
    }
}

/// One error per `.subckt` left open at the end.
pub open spec fn missing_ends(sc: Seq<(Seq<char>, Span)>) -> Seq<DiagV> {
    sc.map_values(
        |e: (Seq<char>, Span)|
            DiagV { message: msg_missing_ends(), severity: Severity::Error, span: e.1, code: None },
    )
}

/// Names already reported, with the span chosen for each (first seen wins).
pub open spec fn seen_add(seen: Seq<(Seq<char>, Span)>, k: Seq<char>, sp: Span) -> Seq<
    (Seq<char>, Span),
> {
    if exists|i: int| 0 <= i < seen.len() && seen[i].0 == k {
        seen
    } else {
        seen.push((k, sp))
    }
}

/// Model references recorded in the reference map, in key order.
pub open spec fn seen_refs(order: Seq<(SymbolKind, Seq<char>)>, refs: KeyedV) -> Seq<
    (Seq<char>, Span),
>
    decreases order.len(),
{
    if order.len() == 0 {
        seq![]
    } else {
        let r = seen_refs(order.drop_last(), refs);
        let k = order.last();
        if k.0 == SymbolKind::Model && refs.map.contains_key(k) && refs.map[k].len() > 0 {
            seen_add(r, k.1, refs.map[k][0])
        } else {
            r
        }
    }
}

/// Model names used by symbols that are not themselves the definition site.
pub open spec fn seen_syms(syms: Seq<SymbolV>, ix: IndexV) -> Seq<(Seq<char>, Span)>
    decreases syms.len(),
{
    if syms.len() == 0 {
        seen_refs(ix.refs.order, ix.refs)
    } else {
        let r = seen_syms(syms.drop_last(), ix);
        let y = syms.last();
        if y.kind == SymbolKind::Model && first_of(ix.defs, SymbolKind::Model, lkey(y.name)) != Some(
            y.name_span,
        ) {
            seen_add(r, lkey(y.name), y.name_span)
        } else {
            r
        }
    }
}

/// Spelling used in messages: the first model or subcircuit symbol with that
/// key, else the key itself.
pub open spec fn display_for(syms: Seq<SymbolV>, k: Seq<char>) -> Seq<char>
    decreases syms.len(),
{
    if syms.len() == 0 {
        k
    } else if (syms[0].kind == SymbolKind::Model || syms[0].kind == SymbolKind::Subckt) && lkey(
        syms[0].name,
    ) == k {
        syms[0].name
    } else {
        display_for(syms.drop_first(), k)
    }
}

pub open spec fn unknown_diag(display: Seq<char>, span: Span) -> DiagV {
    DiagV {
        message: "'"@ + display + "' is not defined as a model or subcircuit"@,
        severity: Severity::Warning,
        span,
        code: Some("spice/unknown-model"@),
    }
}

pub open spec fn unknown_from(seen: Seq<(Seq<char>, Span)>, ix: IndexV) -> Seq<DiagV>
    decreases seen.len(),
{
    if seen.len() == 0 {
        seq![]
    } else {
        let r = unknown_from(seen.drop_last(), ix);
        let d = display_for(ix.symbols, seen.last().0);
        if first_of(ix.defs, SymbolKind::Model, lkey(d)) is None && first_of(
            ix.defs,
            SymbolKind::Subckt,
            lkey(d),
        ) is None {
            r.push(unknown_diag(d, seen.last().1))
        } else {
            r
        }
    }
}

/// `spice/unknown-model` warnings: one per referenced model/subcircuit name
/// that has no local definition.
pub open spec fn unknown_spec(ix: IndexV) -> Seq<DiagV> {
    unknown_from(seen_syms(ix.symbols, ix), ix)
}

/// The index and diagnostics built from `lines`.
pub open spec fn build_result(lines: Seq<(Span, LineKindV)>, extracted: bool) -> (IndexV, Seq<DiagV>) {
    let st = build_fold(lines, extracted);
    // Blocks left open are closed innermost first.
    let docs = st.ix.docs + st.open.reverse();
    let ix = IndexV { docs, ..st.ix };
    let d1 = st.diags + missing_ends(st.scope);
    let d2 = if extracted {
        d1
    } else {
        d1 + dup_diags(st.counts)
    };
    (ix, d2 + unknown_spec(ix))
}


/// Occurrences of one instance name in one scope.
struct CountEntry {
    scope: String,
    key: String,
    display: String,
    spans: Vec<Span>,
}

spec fn count_view(c: CountEntry) -> CountV {
    CountV { scope: c.scope@, key: c.key@, display: c.display@, spans: c.spans@ }
}

/// Mutable state of the index builder.
struct Builder {
    index: Index,
    diags: Vec<Diagnostic>,
    scope: Vec<(String, Span)>,
    counts: Vec<CountEntry>,
    /// Scope name to its position in `by_scope`.
    scope_ids: StringHashMap<usize>,
    /// Position in `by_scope` to scope name.
    scope_names: Vec<String>,
    /// Per scope: lowercase instance name to its position in `counts`.
    by_scope: Vec<StringHashMap<usize>>,
    /// Outline entries of the open `.subckt` blocks, innermost last.
    open: Vec<DocumentSymbolEntry>,
}

impl Builder {
    spec fn view(&self) -> BuildV {
        BuildV {
            ix: self.index@,
            diags: diags_view(self.diags@),
            scope: self.scope@.map_values(|e: (String, Span)| (e.0@, e.1)),
            counts: self.counts@.map_values(|c: CountEntry| count_view(c)),
            open: docs_view(self.open@),
        }
    }

    spec fn wf(&self) -> bool {
        let cv = self.counts@.map_values(|c: CountEntry| count_view(c));
        &&& counts_unique(cv)
        &&& forall|i: int| 0 <= i < self.open@.len() ==> doc_wf(#[trigger] self.open@[i])
        &&& forall|i: int|
            0 <= i < self.index.document_symbols@.len() ==> doc_wf(
                #[trigger] self.index.document_symbols@[i],
            )
        &&& self.scope_names@.len() == self.by_scope@.len()
        &&& forall|s: Seq<char>|
            #[trigger] self.scope_ids@.contains_key(s) ==> self.scope_ids@[s] < self.scope_names@.len()
                && self.scope_names@[self.scope_ids@[s] as int]@ == s
        &&& forall|j: int|
            0 <= j < self.scope_names@.len() ==> self.scope_ids@.contains_key(
                (#[trigger] self.scope_names@[j])@,
            ) && self.scope_ids@[self.scope_names@[j]@] == j
        &&& forall|j: int, k: Seq<char>|
            0 <= j < self.by_scope@.len() && #[trigger] self.by_scope@[j]@.contains_key(k) ==> {
                let idx = self.by_scope@[j]@[k] as int;
                &&& 0 <= idx < cv.len()
                &&& cv[idx].scope == self.scope_names@[j]@
                &&& cv[idx].key == k
            }
        &&& forall|i: int|
            0 <= i < cv.len() ==> {
                let s = (#[trigger] cv[i]).scope;
                &&& self.scope_ids@.contains_key(s)
                &&& self.by_scope@[self.scope_ids@[s] as int]@.contains_key(cv[i].key)
                &&& self.by_scope@[self.scope_ids@[s] as int]@[cv[i].key] == i
            }
    }

    fn new() -> (b: Builder)
        ensures
            b.wf(),
            b.view() == build_init(),
    {
        let b = Builder {
            index: Index::new(),
            diags: Vec::new(),
            scope: Vec::new(),
            counts: Vec::new(),
            scope_ids: StringHashMap::new(),
            scope_names: Vec::new(),
            by_scope: Vec::new(),
            open: Vec::new(),
        };
        proof {
            assert(b.view().ix.symbols =~= Seq::<SymbolV>::empty());
            assert(b.view().ix.docs =~= Seq::<DocV>::empty());
            assert(b.view().diags =~= Seq::<DiagV>::empty());
            assert(b.view().scope =~= Seq::<(Seq<char>, Span)>::empty());
            assert(b.view().counts =~= Seq::<CountV>::empty());
            assert(b.view().open =~= Seq::<DocV>::empty());
        }
        b
    }

    fn current_scope_name(&self) -> (r: String)
        ensures
            r@ == current_scope(self.view().scope),
    {
        if self.scope.len() == 0 {
            String::new()
        } else {
            let n = self.scope.len();
            self.scope[n - 1].0.clone()
        }
    }

    fn add_count(&mut self, scope: &String, key: String, display: &String, span: Span)
        requires
            old(self).wf(),
        ensures
            final(self).wf(),
            final(self).view() == (BuildV {
                counts: add_count(old(self).view().counts, scope@, key@, display@, span),
                ..old(self).view()
            }),
    {
        let ghost cv0 = self.view().counts;
        match self.scope_ids.get(scope.as_str()) {
            Some(jr) => {
                let j = *jr;
                match self.by_scope[j].get(key.as_str()) {
                    Some(ir) => {
                        let idx = *ir;
                        proof {
                            assert(count_has(cv0, scope@, key@));
                            let c = count_at(cv0, scope@, key@);
                            if c != idx as int {
                                let s = cv0[c].scope;
                                assert(cv0[c].key == key@);
                            }
                        }
                        self.counts[idx].spans.push(span);
                        proof {
                            let cv1 = self.view().counts;
                            assert(cv1 =~= add_count(cv0, scope@, key@, display@, span));
                        }
                    },
                    None => {
                        let n = self.counts.len();
                        proof {
                            if count_has(cv0, scope@, key@) {
                                let c = count_at(cv0, scope@, key@);
                                assert(self.scope_ids@.contains_key(cv0[c].scope));
                                assert(self.by_scope@[j as int]@.contains_key(key@));
                                assert(false);
                            }
                        }
                        self.by_scope[j].insert(key.clone(), n);
                        let mut sp: Vec<Span> = Vec::new();
                        sp.push(span);
                        self.counts.push(
                            CountEntry { scope: scope.clone(), key, display: display.clone(), spans: sp },
                        );
                        proof {
                            let cv1 = self.view().counts;
                            assert(cv1 =~= add_count(cv0, scope@, key@, display@, span));
                        }
                    },
                }
            },
            None => {
                proof {
                    if count_has(cv0, scope@, key@) {
                        let c = count_at(cv0, scope@, key@);
                        assert(self.scope_ids@.contains_key(cv0[c].scope));
                        assert(false);
                    }
                }
                let j = self.by_scope.len();
                let n = self.counts.len();
                self.scope_ids.insert(scope.clone(), j);
                self.scope_names.push(scope.clone());
                let mut m: StringHashMap<usize> = StringHashMap::new();
                m.insert(key.clone(), n);
                self.by_scope.push(m);
                let mut sp: Vec<Span> = Vec::new();
                sp.push(span);
                self.counts.push(
                    CountEntry { scope: scope.clone(), key, display: display.clone(), spans: sp },
                );
                proof {
                    let cv1 = self.view().counts;
                    assert(cv1 =~= add_count(cv0, scope@, key@, display@, span));
                }
            },
        }
    }

    fn push_child(&mut self, child: DocumentSymbolEntry)
        requires
            old(self).wf(),
            child.children@.len() == 0,
        ensures
            final(self).wf(),
            final(self).view() == push_child(old(self).view(), leaf_view(child)),
    {
        let ghost st = self.view();
        let ghost lv = leaf_view(child);
        match self.open.pop() {
            Some(mut c) => {
                let ghost o0 = self.open@;
                let ghost cv = doc_view(c);
                c.children.push(child);
                proof {
                    assert(doc_view(c).children =~= cv.children.push(lv));
                    assert(doc_wf(c));
                }
                self.open.push(c);
                proof {
                    assert(self.open@ =~= o0.push(c));
                    assert(self.view().open =~= st.open.update(
                        st.open.len() - 1,
                        DocV { children: cv.children.push(lv), ..cv },
                    ));
                    assert(self.view().ix == st.ix);
                }
            },
            None => {
                let ghost d0 = self.index.document_symbols@;
                self.index.document_symbols.push(child);
                proof {
                    assert(doc_view(child).children =~= Seq::<DocLeafV>::empty());
                    assert(docs_view(self.index.document_symbols@) =~= docs_view(d0).push(
                        doc_view(child),
                    ));
                }
            },
        }
    }

    fn step(&mut self, ls: Span, line: &LineKind, extracted: bool)
        requires
            old(self).wf(),
        ensures
            final(self).wf(),
            final(self).view() == step_spec(old(self).view(), ls, line@, extracted),
    {
        let ghost st = self.view();
        let scope = self.current_scope_name();
        match line {
            LineKind::Subckt { name, name_span } => {
                self.index.add_definition(SymbolKind::Subckt, name.as_str(), *name_span);
                let ghost s0 = self.index.symbols@;
                self.index.symbols.push(
                    Symbol {
                        kind: SymbolKind::Subckt,
                        name: name.clone(),
                        name_span: *name_span,
                        line_span: ls,
                        scope,
                    },
                );
                let ghost sc0 = self.scope@;
                self.scope.push((name.clone(), ls));
                let c = DocumentSymbolEntry {
                    name: name.clone(),
                    kind: SymbolKind::Subckt,
                    name_span: *name_span,
                    line_span: ls,
                    children: Vec::new(),
                };
                let ghost o0 = self.open@;
                self.open.push(c);
                proof {
                    assert(syms_view(self.index.symbols@) =~= syms_view(s0).push(
                        sym(SymbolKind::Subckt, name@, *name_span, ls, scope@),
                    ));
                    assert(self.view().scope =~= st.scope.push((name@, ls)));
                    assert(doc_view(c).children =~= Seq::<DocLeafV>::empty());
                    assert(self.open@ =~= o0.push(c));
                    assert(self.view().open =~= st.open.push(doc_view(c)));
                    assert(self.view() == step_spec(st, ls, line@, extracted));
                }
            },
            LineKind::Ends { .. } => {
                if self.scope.len() == 0 {
                    let ghost d0 = self.diags@;
                    self.diags.push(
                        Diagnostic {
                            message: owned("unexpected .ends without .subckt"),
                            severity: Severity::Error,
                            span: ls,
                            code: None,
                        },
                    );
                    proof {
                        assert(diags_view(self.diags@) =~= diags_view(d0).push(
                            DiagV {
                                message: msg_unexpected_ends(),
                                severity: Severity::Error,
                                span: ls,
                                code: None,
                            },
                        ));
                    }
                } else {
                    let ghost sc0 = self.scope@;
                    self.scope.pop();
                    proof {
                        assert(self.view().scope =~= st.scope.drop_last());
                    }
                    let ghost o0 = self.open@;
                    match self.open.pop() {
                        Some(c) => {
                            let ghost d0 = self.index.document_symbols@;
                            self.index.document_symbols.push(c);
                            proof {
                                assert(self.open@ =~= o0.drop_last());
                                assert(self.view().open =~= st.open.drop_last());
                                assert(docs_view(self.index.document_symbols@) =~= docs_view(
                                    d0,
                                ).push(doc_view(c)));
                            }
                        },
                        None => {},
                    }
                }
            },
            LineKind::Model { name, name_span } => {
                self.index.add_definition(SymbolKind::Model, name.as_str(), *name_span);
                let ghost s0 = self.index.symbols@;
                self.index.symbols.push(
                    Symbol {
                        kind: SymbolKind::Model,
                        name: name.clone(),
                        name_span: *name_span,
                        line_span: ls,
                        scope,
                    },
                );
                proof {
                    assert(syms_view(self.index.symbols@) =~= syms_view(s0).push(
                        sym(SymbolKind::Model, name@, *name_span, ls, scope@),
                    ));
                }
                let child = DocumentSymbolEntry {
                    name: name.clone(),
                    kind: SymbolKind::Model,
                    name_span: *name_span,
                    line_span: ls,
                    children: Vec::new(),
                };
                self.push_child(child);
            },
            LineKind::Param { name, name_span } => {
                self.index.add_definition(SymbolKind::Param, name.as_str(), *name_span);
                let ghost s0 = self.index.symbols@;
                self.index.symbols.push(
                    Symbol {
                        kind: SymbolKind::Param,
                        name: name.clone(),
                        name_span: *name_span,
                        line_span: ls,
                        scope,
                    },
                );
                proof {
                    assert(syms_view(self.index.symbols@) =~= syms_view(s0).push(
                        sym(SymbolKind::Param, name@, *name_span, ls, scope@),
                    ));
                }
                let child = DocumentSymbolEntry {
                    name: name.clone(),
                    kind: SymbolKind::Param,
                    name_span: *name_span,
                    line_span: ls,
                    children: Vec::new(),
                };
                self.push_child(child);
            },
            LineKind::Instance { name, name_span, model_ref } => {
                if extracted {
                    match model_ref {
                        Some((m, ms)) => {
                            self.index.add_reference_first(SymbolKind::Subckt, m.as_str(), *ms);
                            self.index.add_reference_first(SymbolKind::Model, m.as_str(), *ms);
                        },
                        None => {},
                    }
                } else {
                    let key = key_of(name.as_str());
                    self.add_count(&scope, key, name, *name_span);
                    let ghost s0 = self.index.symbols@;
                    self.index.symbols.push(
                        Symbol {
                            kind: SymbolKind::Instance,
                            name: name.clone(),
                            name_span: *name_span,
                            line_span: ls,
                            scope: scope.clone(),
                        },
                    );
                    proof {
                        assert(syms_view(self.index.symbols@) =~= syms_view(s0).push(
                            sym(SymbolKind::Instance, name@, *name_span, ls, scope@),
                        ));
                    }
                    let child = DocumentSymbolEntry {
                        name: name.clone(),
                        kind: SymbolKind::Instance,
                        name_span: *name_span,
                        line_span: ls,
                        children: Vec::new(),
                    };
                    self.push_child(child);
                    match model_ref {
                        Some((m, ms)) => {
                            self.index.add_reference(SymbolKind::Subckt, m.as_str(), *ms);
                            self.index.add_reference(SymbolKind::Model, m.as_str(), *ms);
                            let ghost s1 = self.index.symbols@;
                            self.index.symbols.push(
                                Symbol {
                                    kind: SymbolKind::Model,
                                    name: m.clone(),
                                    name_span: *ms,
                                    line_span: ls,
                                    scope,
                                },
                            );
                            proof {
                                assert(syms_view(self.index.symbols@) =~= syms_view(s1).push(
                                    sym(SymbolKind::Model, m@, *ms, ls, scope@),
                                ));
                            }
                        },
                        None => {},
                    }
                }
            },
            _ => {},
        }
    }
}


/// Spelling of the first model or subcircuit symbol with key `k`, else `k`.
fn display_name(syms: &Vec<Symbol>, k: &String) -> (r: String)
    ensures
        r@ == display_for(syms_view(syms@), k@),
{
    let ghost sv = syms_view(syms@);
    let mut i: usize = 0;
    assert(sv.subrange(0, sv.len() as int) =~= sv);
    while i < syms.len()
        invariant
            i <= syms@.len(),
            sv == syms_view(syms@),
            display_for(sv.subrange(i as int, sv.len() as int), k@) == display_for(sv, k@),
        decreases syms@.len() - i,
    {
        let ghost rest = sv.subrange(i as int, sv.len() as int);
        assert(rest[0] == syms@[i as int]@);
        assert(rest.drop_first() =~= sv.subrange(i + 1, sv.len() as int));
        let s = &syms[i];
        if s.kind == SymbolKind::Model || s.kind == SymbolKind::Subckt {
            let sk = key_of(s.name.as_str());
            if sk == *k {
                return s.name.clone();
            }
        }
        i = i + 1;
    }
    assert(sv.subrange(i as int, sv.len() as int).len() == 0);
    k.clone()
}

/// Insertion-ordered set of reported names with their chosen spans.
struct Seen {
    list: Vec<(String, Span)>,
    members: StringHashMap<usize>,
}

impl Seen {
    spec fn view(&self) -> Seq<(Seq<char>, Span)> {
        self.list@.map_values(|e: (String, Span)| (e.0@, e.1))
    }

    spec fn wf(&self) -> bool {
        forall|k: Seq<char>|
            #[trigger] self.members@.contains_key(k) <==> exists|i: int|
                0 <= i < self.view().len() && self.view()[i].0 == k
    }

    fn new() -> (s: Seen)
        ensures
            s.wf(),
            s.view() == Seq::<(Seq<char>, Span)>::empty(),
    {
        let s = Seen { list: Vec::new(), members: StringHashMap::new() };
        assert(s.view() =~= Seq::<(Seq<char>, Span)>::empty());
        s
    }

    fn add(&mut self, k: String, sp: Span)
        requires
            old(self).wf(),
        ensures
            final(self).wf(),
            final(self).view() == seen_add(old(self).view(), k@, sp),
    {
        let ghost v0 = self.view();
        if self.members.contains_key(k.as_str()) {
            return;
        }
        let n = self.list.len();
        self.members.insert(k.clone(), n);
        self.list.push((k, sp));
        proof {
            assert(self.view() =~= v0.push((k@, sp)));
            assert forall|q: Seq<char>| #[trigger] self.members@.contains_key(q) <==> exists|i: int|
                0 <= i < self.view().len() && self.view()[i].0 == q by {
                if q == k@ {
                    assert(self.view()[n as int].0 == q);
                } else if self.members@.contains_key(q) {
                    let i = choose|i: int| 0 <= i < v0.len() && v0[i].0 == q;
                    assert(self.view()[i].0 == q);
                } else if exists|i: int| 0 <= i < self.view().len() && self.view()[i].0 == q {
                    let i = choose|i: int| 0 <= i < self.view().len() && self.view()[i].0 == q;
                    assert(v0[i].0 == q);
                }
            }
        }
    }
}

/// Emit `spice/unknown-model` for model/subckt references with no local definition.
///
/// Reference sites come first (in the order their names were first
/// referenced), then model symbols that are not their own definition site;
/// each name is reported once, with the first span found for it.
pub fn unknown_model_diagnostics(index: &Index) -> (r: Vec<Diagnostic>)
    ensures
        diags_view(r@) == unknown_spec(index@),
{
    let ghost ix = index@;
    let mut seen = Seen::new();
    let keys = index.references.keys();
    let ghost order = ix.refs.order;
    let mut i: usize = 0;
    while i < keys.len()
        invariant
            i <= keys@.len(),
            order == keys@.map_values(|e: (SymbolKind, String)| (e.0, e.1@)),
            order == ix.refs.order,
            ix == index@,
            seen.wf(),
            seen.view() == seen_refs(order.take(i as int), ix.refs),
        decreases keys@.len() - i,
    {
        assert(order.take(i + 1).drop_last() =~= order.take(i as int));
        assert(order.take(i + 1).last() == order[i as int]);
        let e = &keys[i];
        if e.0 == SymbolKind::Model {
            match index.references.get(SymbolKind::Model, e.1.as_str()) {
                Some(v) => {
                    if v.len() > 0 {
                        seen.add(e.1.clone(), v[0]);
                    }
                },
                None => {},
            }
        }
        i = i + 1;
    }
    assert(order.take(keys@.len() as int) =~= order);
    let ghost sv = ix.symbols;
    let mut j: usize = 0;
    while j < index.symbols.len()
        invariant
            j <= index.symbols@.len(),
            ix == index@,
            sv == ix.symbols,
            sv == syms_view(index.symbols@),
            seen.wf(),
            seen.view() == seen_syms(sv.take(j as int), ix),
        decreases index.symbols@.len() - j,
    {
        assert(sv.take(j + 1).drop_last() =~= sv.take(j as int));
        assert(sv.take(j + 1).last() == index.symbols@[j as int]@);
        let s = &index.symbols[j];
        if s.kind == SymbolKind::Model {
            let own = match index.definition_span(SymbolKind::Model, s.name.as_str()) {
                Some(sp) => sp == s.name_span,
                None => false,
            };
            if !own {
                seen.add(key_of(s.name.as_str()), s.name_span);
            }
        }
        j = j + 1;
    }
    assert(sv.take(index.symbols@.len() as int) =~= sv);
    let ghost sn = seen.view();
    let mut out: Vec<Diagnostic> = Vec::new();
    let mut k: usize = 0;
    while k < seen.list.len()
        invariant
            k <= seen.list@.len(),
            ix == index@,
            sn == seen.view(),
            diags_view(out@) == unknown_from(sn.take(k as int), ix),
        decreases seen.list@.len() - k,
    {
        assert(sn.take(k + 1).drop_last() =~= sn.take(k as int));
        assert(sn.take(k + 1).last() == sn[k as int]);
        let (name, sp) = &seen.list[k];
        let display = display_name(&index.symbols, name);
        if !index.has_model_or_subckt(display.as_str()) {
            let ghost o0 = out@;
            let message = join3("'", display.as_str(), "' is not defined as a model or subcircuit");
            out.push(
                Diagnostic {
                    message,
                    severity: Severity::Warning,
                    span: *sp,
                    code: Some(owned("spice/unknown-model")),
                },
            );
            proof {
                assert(diags_view(out@) =~= diags_view(o0).push(unknown_diag(display@, *sp)));
            }
        }
        k = k + 1;
    }
    assert(sn.take(seen.list@.len() as int) =~= sn);
    out
}


/// Build the symbol index and semantic diagnostics under `profile`.
///
/// The extracted profile skips per-instance symbols, outline children and
/// duplicate-name checks; model/subcircuit names used by instances are kept
/// as sparse references (first span only) for unknown-model diagnostics.
pub fn build_index_with_profile(
    source: &str,
    lines: &[(Span, LineKind)],
    profile: AnalysisProfile,
) -> (r: (Index, Vec<Diagnostic>))
    ensures
        (r.0@, diags_view(r.1@)) == build_result(lines_v(lines@), profile == AnalysisProfile::Extracted),
        forall|i: int|
            0 <= i < r.0.document_symbols@.len() ==> doc_wf(#[trigger] r.0.document_symbols@[i]),
{
    let extracted = match profile {
        AnalysisProfile::Extracted => true,
        AnalysisProfile::Full => false,
    };
    let mut b = Builder::new();
    let mut i: usize = 0;
    while i < lines.len()
        invariant
            i <= lines@.len(),
            b.wf(),
            extracted == (profile == AnalysisProfile::Extracted),
            b.view() == build_fold(lines_v(lines@).take(i as int), extracted),
        decreases lines@.len() - i,
    {
        assert(lines_v(lines@).take(i + 1).drop_last() =~= lines_v(lines@).take(i as int));
        assert(lines_v(lines@).take(i + 1).last() == (lines@[i as int].0, lines@[i as int].1@));
        b.step(lines[i].0, &lines[i].1, extracted);
        i = i + 1;
    }
    assert(lines_v(lines@).take(lines@.len() as int) =~= lines_v(lines@));
    let ghost st = b.view();
    let mut index = b.index;
    let mut open = b.open;
    let ghost ov = st.open;
    while open.len() > 0
        invariant
            ov.len() == st.open.len(),
            ov == st.open,
            open@.len() <= ov.len(),
            docs_view(open@) == ov.take(open@.len() as int),
            forall|i: int| 0 <= i < open@.len() ==> doc_wf(#[trigger] open@[i]),
            forall|i: int|
                0 <= i < index.document_symbols@.len() ==> doc_wf(
                    #[trigger] index.document_symbols@[i],
                ),
            docs_view(index.document_symbols@) == st.ix.docs + ov.skip(open@.len() as int).reverse(),
            index@ == (IndexV { docs: docs_view(index.document_symbols@), ..st.ix }),
        decreases open@.len(),
    {
        let ghost n = open@.len() as int;
        let ghost d0 = index.document_symbols@;
        let ghost o0 = open@;
        let c = open.pop().unwrap();
        index.document_symbols.push(c);
        proof {
            assert(ov[n - 1] == docs_view(o0)[n - 1]);
            assert(docs_view(open@) =~= ov.take(n - 1));
            assert(ov.skip(n - 1).reverse() =~= ov.skip(n).reverse().push(ov[n - 1]));
            assert(docs_view(index.document_symbols@) =~= docs_view(d0).push(doc_view(c)));
        }
    }
    assert(ov.skip(0) =~= ov);
    let ghost ix = index@;
    let mut diags = b.diags;
    let scope = b.scope;
    let ghost scv = st.scope;
    let mut k: usize = 0;
    while k < scope.len()
        invariant
            k <= scope@.len(),
            scv == scope@.map_values(|e: (String, Span)| (e.0@, e.1)),
            diags_view(diags@) == st.diags + missing_ends(scv.take(k as int)),
        decreases scope@.len() - k,
    {
        let ghost d0 = diags@;
        diags.push(
            Diagnostic {
                message: owned("missing .ends for subcircuit"),
                severity: Severity::Error,
                span: scope[k].1,
                code: None,
            },
        );
        proof {
            assert(missing_ends(scv.take(k + 1)) =~= missing_ends(scv.take(k as int)).push(
                DiagV {
                    message: msg_missing_ends(),
                    severity: Severity::Error,
                    span: scope@[k as int].1,
                    code: None,
                },
            ));
            assert(diags_view(diags@) =~= diags_view(d0).push(
                DiagV {
                    message: msg_missing_ends(),
                    severity: Severity::Error,
                    span: scope@[k as int].1,
                    code: None,
                },
            ));
        }
        k = k + 1;
    }
    assert(scv.take(scope@.len() as int) =~= scv);
    let ghost d1 = diags_view(diags@);
    if !extracted {
        let counts = b.counts;
        let ghost cv = st.counts;
        let mut c: usize = 0;
        while c < counts.len()
            invariant
                c <= counts@.len(),
                cv == counts@.map_values(|x: CountEntry| count_view(x)),
                diags_view(diags@) == d1 + dup_diags(cv.take(c as int)),
            decreases counts@.len() - c,
        {
            assert(cv.take(c + 1).drop_last() =~= cv.take(c as int));
            assert(cv.take(c + 1).last() == cv[c as int]);
            let entry = &counts[c];
            let ghost x = cv[c as int];
            let ghost base = diags_view(diags@);
            if entry.spans.len() > 1 {
                let mut j: usize = 0;
                while j < entry.spans.len()
                    invariant
                        j <= entry.spans@.len(),
                        x == count_view(*entry),
                        diags_view(diags@) == base + x.spans.take(j as int).map_values(
                            |sp: Span| dup_diag(x.display, sp),
                        ),
                    decreases entry.spans@.len() - j,
                {
                    let ghost d0 = diags_view(diags@);
                    let message = join3(
                        "duplicate component name '",
                        entry.display.as_str(),
                        "'",
                    );
                    diags.push(
                        Diagnostic {
                            message,
                            severity: Severity::Warning,
                            span: entry.spans[j],
                            code: Some(owned("spice/duplicate-name")),
                        },
                    );
                    proof {
                        assert(diags_view(diags@) =~= d0.push(dup_diag(x.display, x.spans[j as int])));
                        assert(x.spans.take(j + 1).map_values(|sp: Span| dup_diag(x.display, sp))
                            =~= x.spans.take(j as int).map_values(
                            |sp: Span| dup_diag(x.display, sp),
                        ).push(dup_diag(x.display, x.spans[j as int])));
                    }
                    j = j + 1;
                }
                assert(x.spans.take(entry.spans@.len() as int) =~= x.spans);
            } else {
                assert(base + Seq::<DiagV>::empty() =~= base);
            }
            c = c + 1;
        }
        assert(cv.take(counts@.len() as int) =~= cv);
    }
    let unknown = unknown_model_diagnostics(&index);
    let ghost d2 = diags_view(diags@);
    let mut u: usize = 0;
    while u < unknown.len()
        invariant
            u <= unknown@.len(),
            diags_view(diags@) == d2 + diags_view(unknown@).take(u as int),
        decreases unknown@.len() - u,
    {
        let ghost d0 = diags_view(diags@);
        diags.push(unknown[u].clone_diag());
        proof {
            assert(diags_view(diags@) =~= d0.push(unknown@[u as int]@));
            assert(diags_view(unknown@).take(u + 1) =~= diags_view(unknown@).take(u as int).push(
                unknown@[u as int]@,
            ));
        }
        u = u + 1;
    }
    assert(diags_view(unknown@).take(unknown@.len() as int) =~= diags_view(unknown@));
    (index, diags)
}

/// Build symbol index and semantic diagnostics (full profile).
pub fn build_index(source: &str, lines: &[(Span, LineKind)]) -> (r: (Index, Vec<Diagnostic>))
    ensures
        (r.0@, diags_view(r.1@)) == build_result(lines_v(lines@), false),
{
    build_index_with_profile(source, lines, AnalysisProfile::Full)
}

proof fn lemma_extracted_fold(lines: Seq<(Span, LineKindV)>)
    ensures
        build_fold(lines, true).ix.defs == build_fold(lines, false).ix.defs,
        build_fold(lines, true).diags == build_fold(lines, false).diags,
        build_fold(lines, true).scope == build_fold(lines, false).scope,
        forall|i: int|
            0 <= i < build_fold(lines, true).ix.symbols.len() ==> (#[trigger] build_fold(
                lines,
                true,
            ).ix.symbols[i]).kind != SymbolKind::Instance,
    decreases lines.len(),
{
    if lines.len() > 0 {
        lemma_extracted_fold(lines.drop_last());
        let e = build_fold(lines.drop_last(), true);
        let f = build_fold(lines.drop_last(), false);
        let ls = lines.last().0;
        let line = lines.last().1;
        let e2 = step_spec(e, ls, line, true);
        assert(e2.ix.defs == step_spec(f, ls, line, false).ix.defs);
        assert(e2.diags == step_spec(f, ls, line, false).diags);
        assert(e2.scope == step_spec(f, ls, line, false).scope);
        assert forall|i: int| 0 <= i < e2.ix.symbols.len() implies (#[trigger] e2.ix.symbols[i]).kind
            != SymbolKind::Instance by {
            if i < e.ix.symbols.len() {
                assert(e2.ix.symbols[i] == e.ix.symbols[i]);
            }
        }
    }
}

/// The extracted profile is an index of the same definitions: every
/// `.subckt`, `.model` and `.param` definition and every structural
/// diagnostic of the full analysis is there, and no instance is recorded as
/// a symbol.
pub proof fn law_extracted_keeps_definitions(lines: Seq<(Span, LineKindV)>)
    ensures
        build_result(lines, true).0.defs == build_result(lines, false).0.defs,
        build_fold(lines, true).diags + missing_ends(build_fold(lines, true).scope) == build_fold(
            lines,
            false,
        ).diags + missing_ends(build_fold(lines, false).scope),
        forall|i: int|
            0 <= i < build_result(lines, true).0.symbols.len() ==> (#[trigger] build_result(
                lines,
                true,
            ).0.symbols[i]).kind != SymbolKind::Instance,
{
    lemma_extracted_fold(lines);
}


/// Spans recorded under `(kind, key)`; none when the key is absent.
pub open spec fn spans_of(m: KeyedV, kind: SymbolKind, key: Seq<char>) -> Seq<Span> {
    if m.map.contains_key((kind, key)) {
        m.map[(kind, key)]
    } else {
        seq![]
    }
}

/// The model-reference spans of the instance lines whose referenced name
/// has the lookup key `key`, in line order.
pub open spec fn instance_refs(lines: Seq<(Span, LineKindV)>, key: Seq<char>) -> Seq<Span>
    decreases lines.len(),
{
    if lines.len() == 0 {
        seq![]
    } else {
        let r = instance_refs(lines.drop_last(), key);
        match lines.last().1 {
            LineKindV::Instance { model_ref: Some((m, ms)), .. } => if lkey(m) == key {
                r.push(ms)
            } else {
                r
            },
            _ => r,
        }
    }
}

/// The references an index records under `(kind, key)`: for models and
/// subcircuits, every instance reference to the name (the full profile) or
/// the first one only (the extracted profile); nothing for other kinds.
pub open spec fn expected_refs(lines: Seq<(Span, LineKindV)>, extracted: bool, kind: SymbolKind, key: Seq<char>) -> Seq<Span> {
    if kind == SymbolKind::Model || kind == SymbolKind::Subckt {
        let r = instance_refs(lines, key);
        if extracted && r.len() > 1 {
            r.take(1)
        } else {
            r
        }
    } else {
        seq![]
    }
}

proof fn lemma_refs_fold(lines: Seq<(Span, LineKindV)>, extracted: bool)
    ensures
        forall|kind: SymbolKind, key: Seq<char>|
            #[trigger] spans_of(build_fold(lines, extracted).ix.refs, kind, key) == expected_refs(
                lines,
                extracted,
                kind,
                key,
            ),
        forall|kind: SymbolKind, key: Seq<char>|
            #[trigger] build_fold(lines, extracted).ix.refs.map.contains_key((kind, key))
                ==> build_fold(lines, extracted).ix.refs.map[(kind, key)].len() > 0,
    decreases lines.len(),
{
    if lines.len() > 0 {
        let p = lines.drop_last();
        lemma_refs_fold(p, extracted);
        let st = build_fold(p, extracted);
        let ls = lines.last().0;
        let line = lines.last().1;
        let st2 = step_spec(st, ls, line, extracted);
        assert(build_fold(lines, extracted) == st2);
        let r0 = st.ix.refs;
        match line {
            LineKindV::Instance { name, name_span, model_ref } => {
                match model_ref {
                    Some((m, ms)) => {
                        let k = lkey(m);
                        if extracted {
                            assert(st2.ix.refs == keyed_add_first(
                                keyed_add_first(r0, SymbolKind::Subckt, k, ms),
                                SymbolKind::Model,
                                k,
                                ms,
                            ));
                        } else {
                            let scope = current_scope(st.scope);
                            let st1 = BuildV {
                                counts: add_count(st.counts, scope, lkey(name), name, name_span),
                                ix: IndexV {
                                    symbols: st.ix.symbols.push(
                                        sym(SymbolKind::Instance, name, name_span, ls, scope),
                                    ),
                                    ..st.ix
                                },
                                ..st
                            };
                            let sp = push_child(st1, leaf(SymbolKind::Instance, name, name_span, ls));
                            assert(sp.ix.refs == r0);
                            assert(st2.ix.refs == keyed_add(
                                keyed_add(r0, SymbolKind::Subckt, k, ms),
                                SymbolKind::Model,
                                k,
                                ms,
                            ));
                        }
                        assert forall|kind: SymbolKind, key: Seq<char>|
                            #[trigger] spans_of(st2.ix.refs, kind, key) == expected_refs(lines, extracted, kind, key)
                                && (st2.ix.refs.map.contains_key((kind, key)) ==> st2.ix.refs.map[(kind, key)].len() > 0) by {
                            assert(spans_of(r0, kind, key) == expected_refs(p, extracted, kind, key));
                            assert(r0.map.contains_key((kind, key)) ==> r0.map[(kind, key)].len() > 0);
                            if key == k {
                                assert(instance_refs(lines, key) == instance_refs(p, key).push(ms));
                            } else {
                                assert(instance_refs(lines, key) == instance_refs(p, key));
                            }
                            if extracted && (kind == SymbolKind::Model || kind == SymbolKind::Subckt) && key == k {
                                let r = instance_refs(p, key);
                                if r.len() > 0 {
                                    assert(r.push(ms).take(1) =~= r.take(1));
                                    if r.len() == 1 {
                                        assert(r.take(1) =~= r);
                                    }
                                }
                            }
                        }
                    },
                    None => {
                        if !extracted {
                            let scope = current_scope(st.scope);
                            let st1 = BuildV {
                                counts: add_count(st.counts, scope, lkey(name), name, name_span),
                                ix: IndexV {
                                    symbols: st.ix.symbols.push(
                                        sym(SymbolKind::Instance, name, name_span, ls, scope),
                                    ),
                                    ..st.ix
                                },
                                ..st
                            };
                            assert(push_child(st1, leaf(SymbolKind::Instance, name, name_span, ls)).ix.refs == r0);
                        }
                        assert(st2.ix.refs == r0);
                        assert forall|kind: SymbolKind, key: Seq<char>|
                            #[trigger] spans_of(st2.ix.refs, kind, key) == expected_refs(lines, extracted, kind, key) by {
                            assert(spans_of(r0, kind, key) == expected_refs(p, extracted, kind, key));
                            assert(instance_refs(lines, key) == instance_refs(p, key));
                        }
                    },
                }
            },
            LineKindV::Model { name, name_span } => {
                assert(st2.ix.refs == r0);
                assert forall|kind: SymbolKind, key: Seq<char>|
                    #[trigger] spans_of(st2.ix.refs, kind, key) == expected_refs(lines, extracted, kind, key) by {
                    assert(spans_of(r0, kind, key) == expected_refs(p, extracted, kind, key));
                    assert(instance_refs(lines, key) == instance_refs(p, key));
                }
            },
            LineKindV::Param { name, name_span } => {
                assert(st2.ix.refs == r0);
                assert forall|kind: SymbolKind, key: Seq<char>|
                    #[trigger] spans_of(st2.ix.refs, kind, key) == expected_refs(lines, extracted, kind, key) by {
                    assert(spans_of(r0, kind, key) == expected_refs(p, extracted, kind, key));
                    assert(instance_refs(lines, key) == instance_refs(p, key));
                }
            },
            _ => {
                assert(st2.ix.refs == r0);
                assert forall|kind: SymbolKind, key: Seq<char>|
                    #[trigger] spans_of(st2.ix.refs, kind, key) == expected_refs(lines, extracted, kind, key) by {
                    assert(spans_of(r0, kind, key) == expected_refs(p, extracted, kind, key));
                    assert(instance_refs(lines, key) == instance_refs(p, key));
                }
            },
        }
    }
}

/// Reference spans come from the instance lines alone: under the full
/// profile every model reference of an instance line is recorded, in line
/// order, as a model and as a subcircuit reference of its lowercase name;
/// under the extracted profile only the first such reference is; parameters
/// and instances get no references.
pub proof fn law_reference_spans(lines: Seq<(Span, LineKindV)>, extracted: bool, kind: SymbolKind, key: Seq<char>)
    ensures
        spans_of(build_result(lines, extracted).0.refs, kind, key) == expected_refs(lines, extracted, kind, key),
{
    lemma_refs_fold(lines, extracted);
    assert(spans_of(build_fold(lines, extracted).ix.refs, kind, key) == expected_refs(lines, extracted, kind, key));
}


/// The definition spans of the lines that define a `kind` named with the
/// lookup key `key`, in line order.
pub open spec fn def_spans(lines: Seq<(Span, LineKindV)>, kind: SymbolKind, key: Seq<char>) -> Seq<Span>
    decreases lines.len(),
{
    if lines.len() == 0 {
        seq![]
    } else {
        let r = def_spans(lines.drop_last(), kind, key);
        let hit = match lines.last().1 {
            LineKindV::Subckt { name, name_span } => if kind == SymbolKind::Subckt && lkey(name) == key {
                Some(name_span)
            } else {
                None
            },
            LineKindV::Model { name, name_span } => if kind == SymbolKind::Model && lkey(name) == key {
                Some(name_span)
            } else {
                None
            },
            LineKindV::Param { name, name_span } => if kind == SymbolKind::Param && lkey(name) == key {
                Some(name_span)
            } else {
                None
            },
            _ => None,
        };
        match hit {
            Some(sp) => r.push(sp),
            None => r,
        }
    }
}

proof fn lemma_defs_fold(lines: Seq<(Span, LineKindV)>, extracted: bool)
    ensures
        forall|kind: SymbolKind, key: Seq<char>|
            #[trigger] spans_of(build_fold(lines, extracted).ix.defs, kind, key) == def_spans(lines, kind, key),
    decreases lines.len(),
{
    if lines.len() > 0 {
        let p = lines.drop_last();
        lemma_defs_fold(p, extracted);
        let st = build_fold(p, extracted);
        let ls = lines.last().0;
        let line = lines.last().1;
        let st2 = step_spec(st, ls, line, extracted);
        assert(build_fold(lines, extracted) == st2);
        let d0 = st.ix.defs;
        match line {
            LineKindV::Instance { name, name_span, model_ref } => {
                if !extracted {
                    let scope = current_scope(st.scope);
                    let st1 = BuildV {
                        counts: add_count(st.counts, scope, lkey(name), name, name_span),
                        ix: IndexV {
                            symbols: st.ix.symbols.push(sym(SymbolKind::Instance, name, name_span, ls, scope)),
                            ..st.ix
                        },
                        ..st
                    };
                    assert(push_child(st1, leaf(SymbolKind::Instance, name, name_span, ls)).ix.defs == d0);
                }
                assert(st2.ix.defs == d0);
            },
            LineKindV::Model { name, name_span } => {
                let st1 = BuildV {
                    ix: IndexV {
                        symbols: st.ix.symbols.push(sym(SymbolKind::Model, name, name_span, ls, current_scope(st.scope))),
                        defs: keyed_add(d0, SymbolKind::Model, lkey(name), name_span),
                        ..st.ix
                    },
                    ..st
                };
                assert(push_child(st1, leaf(SymbolKind::Model, name, name_span, ls)).ix.defs == st1.ix.defs);
            },
            LineKindV::Param { name, name_span } => {
                let st1 = BuildV {
                    ix: IndexV {
                        symbols: st.ix.symbols.push(sym(SymbolKind::Param, name, name_span, ls, current_scope(st.scope))),
                        defs: keyed_add(d0, SymbolKind::Param, lkey(name), name_span),
                        ..st.ix
                    },
                    ..st
                };
                assert(push_child(st1, leaf(SymbolKind::Param, name, name_span, ls)).ix.defs == st1.ix.defs);
            },
            _ => {},
        }
        assert forall|kind: SymbolKind, key: Seq<char>|
            #[trigger] spans_of(st2.ix.defs, kind, key) == def_spans(lines, kind, key) by {
            assert(spans_of(d0, kind, key) == def_spans(p, kind, key));
        }
    }
}

/// Definition spans come from the definition lines alone, under either
/// profile: every `.subckt`, `.model` and `.param` line adds the span of its
/// name under its kind and lowercase name, in line order, so the first
/// definition of a name is the first such line.
pub proof fn law_definition_spans(lines: Seq<(Span, LineKindV)>, extracted: bool, kind: SymbolKind, key: Seq<char>)
    ensures
        spans_of(build_result(lines, extracted).0.defs, kind, key) == def_spans(lines, kind, key),
{
    lemma_defs_fold(lines, extracted);
    assert(spans_of(build_fold(lines, extracted).ix.defs, kind, key) == def_spans(lines, kind, key));
}


/// No outline entry or child is an instance.
pub open spec fn docs_without_instances(d: Seq<DocV>) -> bool {
    forall|i: int|
        0 <= i < d.len() ==> (#[trigger] d[i]).kind != SymbolKind::Instance && forall|j: int|
            0 <= j < d[i].children.len() ==> (#[trigger] d[i].children[j]).kind != SymbolKind::Instance
}

/// No symbol is an instance.
pub open spec fn symbols_without_instances(y: Seq<SymbolV>) -> bool {
    forall|i: int| 0 <= i < y.len() ==> (#[trigger] y[i]).kind != SymbolKind::Instance
}

proof fn lemma_extracted_no_instances(lines: Seq<(Span, LineKindV)>)
    ensures
        docs_without_instances(build_fold(lines, true).ix.docs),
        docs_without_instances(build_fold(lines, true).open),
        symbols_without_instances(build_fold(lines, true).ix.symbols),
    decreases lines.len(),
{
    if lines.len() > 0 {
        let p = lines.drop_last();
        lemma_extracted_no_instances(p);
        let st = build_fold(p, true);
        let ls = lines.last().0;
        let line = lines.last().1;
        let st2 = step_spec(st, ls, line, true);
        assert(build_fold(lines, true) == st2);
        match line {
            LineKindV::Subckt { name, name_span } => {
                let e = DocV { name, kind: SymbolKind::Subckt, name_span, line_span: ls, children: seq![] };
                assert(st2.open == st.open.push(e));
                assert(docs_without_instances(st2.open)) by {
                    assert forall|i: int| 0 <= i < st2.open.len() implies (#[trigger] st2.open[i]).kind
                        != SymbolKind::Instance && forall|j: int|
                        0 <= j < st2.open[i].children.len() ==> (#[trigger] st2.open[i].children[j]).kind
                            != SymbolKind::Instance by {
                        if i < st.open.len() {
                            assert(st2.open[i] == st.open[i]);
                        }
                    }
                }
                assert(symbols_without_instances(st2.ix.symbols)) by {
                    assert forall|i: int| 0 <= i < st2.ix.symbols.len() implies (#[trigger] st2.ix.symbols[i]).kind
                        != SymbolKind::Instance by {
                        if i < st.ix.symbols.len() {
                            assert(st2.ix.symbols[i] == st.ix.symbols[i]);
                        }
                    }
                }
            },
            LineKindV::Ends { .. } => {
                if st.scope.len() > 0 && st.open.len() > 0 {
                    assert(st2.ix.docs == st.ix.docs.push(st.open.last()));
                    assert(docs_without_instances(st2.ix.docs)) by {
                        assert forall|i: int| 0 <= i < st2.ix.docs.len() implies (#[trigger] st2.ix.docs[i]).kind
                            != SymbolKind::Instance && forall|j: int|
                            0 <= j < st2.ix.docs[i].children.len() ==> (#[trigger] st2.ix.docs[i].children[j]).kind
                                != SymbolKind::Instance by {
                            if i < st.ix.docs.len() {
                                assert(st2.ix.docs[i] == st.ix.docs[i]);
                            } else {
                                assert(st2.ix.docs[i] == st.open[st.open.len() - 1]);
                            }
                        }
                    }
                    assert(docs_without_instances(st2.open)) by {
                        assert forall|i: int| 0 <= i < st2.open.len() implies (#[trigger] st2.open[i]).kind
                            != SymbolKind::Instance && forall|j: int|
                            0 <= j < st2.open[i].children.len() ==> (#[trigger] st2.open[i].children[j]).kind
                                != SymbolKind::Instance by {
                            assert(st2.open[i] == st.open[i]);
                        }
                    }
                }
            },
            LineKindV::Model { name, name_span } => {
                let st1 = BuildV {
                    ix: IndexV {
                        symbols: st.ix.symbols.push(sym(SymbolKind::Model, name, name_span, ls, current_scope(st.scope))),
                        defs: keyed_add(st.ix.defs, SymbolKind::Model, lkey(name), name_span),
                        ..st.ix
                    },
                    ..st
                };
                assert(st1.ix.symbols.drop_last() =~= st.ix.symbols);
                lemma_push_child_no_instance(st1, leaf(SymbolKind::Model, name, name_span, ls), st);
                assert(st2 == push_child(st1, leaf(SymbolKind::Model, name, name_span, ls)));
            },
            LineKindV::Param { name, name_span } => {
                let st1 = BuildV {
                    ix: IndexV {
                        symbols: st.ix.symbols.push(sym(SymbolKind::Param, name, name_span, ls, current_scope(st.scope))),
                        defs: keyed_add(st.ix.defs, SymbolKind::Param, lkey(name), name_span),
                        ..st.ix
                    },
                    ..st
                };
                assert(st1.ix.symbols.drop_last() =~= st.ix.symbols);
                lemma_push_child_no_instance(st1, leaf(SymbolKind::Param, name, name_span, ls), st);
                assert(st2 == push_child(st1, leaf(SymbolKind::Param, name, name_span, ls)));
            },
            _ => {},
        }
    }
}

/// Adding a definition's outline entry keeps instances out.
proof fn lemma_push_child_no_instance(st1: BuildV, child: DocLeafV, st: BuildV)
    requires
        child.kind != SymbolKind::Instance,
        st1.open == st.open,
        st1.ix.docs == st.ix.docs,
        st1.ix.symbols.len() == st.ix.symbols.len() + 1,
        st1.ix.symbols.drop_last() == st.ix.symbols,
        st1.ix.symbols.last().kind == child.kind,
        docs_without_instances(st.ix.docs),
        docs_without_instances(st.open),
        symbols_without_instances(st.ix.symbols),
    ensures
        docs_without_instances(push_child(st1, child).ix.docs),
        docs_without_instances(push_child(st1, child).open),
        symbols_without_instances(push_child(st1, child).ix.symbols),
{
    let st2 = push_child(st1, child);
    assert(st2.ix.symbols == st1.ix.symbols);
    assert forall|i: int| 0 <= i < st1.ix.symbols.len() implies (#[trigger] st1.ix.symbols[i]).kind
        != SymbolKind::Instance by {
        if i < st.ix.symbols.len() {
            assert(st1.ix.symbols[i] == st.ix.symbols[i]);
        }
    }
    if st1.open.len() > 0 {
        let n = st1.open.len() - 1;
        let c = st1.open.last();
        assert(st2.open == st1.open.update(n, DocV { children: c.children.push(child), ..c }));
        assert forall|i: int| 0 <= i < st2.open.len() implies (#[trigger] st2.open[i]).kind != SymbolKind::Instance
            && forall|j: int|
            0 <= j < st2.open[i].children.len() ==> (#[trigger] st2.open[i].children[j]).kind != SymbolKind::Instance by {
            if i < n {
                assert(st2.open[i] == st.open[i]);
            } else {
                assert(st.open[n] == c);
                assert forall|j: int| 0 <= j < st2.open[i].children.len() implies (#[trigger] st2.open[i].children[j]).kind
                    != SymbolKind::Instance by {
                    if j < c.children.len() {
                        assert(st2.open[i].children[j] == c.children[j]);
                    }
                }
            }
        }
    } else {
        assert forall|i: int| 0 <= i < st2.ix.docs.len() implies (#[trigger] st2.ix.docs[i]).kind != SymbolKind::Instance
            && forall|j: int|
            0 <= j < st2.ix.docs[i].children.len() ==> (#[trigger] st2.ix.docs[i].children[j]).kind
                != SymbolKind::Instance by {
            if i < st.ix.docs.len() {
                assert(st2.ix.docs[i] == st.ix.docs[i]);
            }
        }
    }
}

/// The extracted profile builds no instance symbols and no instance
/// outline entries, at any level of the outline.
pub proof fn law_extracted_has_no_instances(lines: Seq<(Span, LineKindV)>)
    ensures
        docs_without_instances(build_result(lines, true).0.docs),
        symbols_without_instances(build_result(lines, true).0.symbols),
{
    lemma_extracted_no_instances(lines);
    let st = build_fold(lines, true);
    let d = st.ix.docs + st.open.reverse();
    assert(build_result(lines, true).0.docs == d);
    assert forall|i: int| 0 <= i < d.len() implies (#[trigger] d[i]).kind != SymbolKind::Instance && forall|j: int|
        0 <= j < d[i].children.len() ==> (#[trigger] d[i].children[j]).kind != SymbolKind::Instance by {
        if i < st.ix.docs.len() {
            assert(d[i] == st.ix.docs[i]);
        } else {
            assert(d[i] == st.open[st.open.len() - 1 - (i - st.ix.docs.len())]);
        }
    }
}


/// The names of the `.subckt` blocks still open after `lines`, innermost
/// last; an `.ends` closes the innermost one.
pub open spec fn open_subckts(lines: Seq<(Span, LineKindV)>) -> Seq<Seq<char>>
    decreases lines.len(),
{
    if lines.len() == 0 {
        seq![]
    } else {
        let o = open_subckts(lines.drop_last());
        match lines.last().1 {
            LineKindV::Subckt { name, .. } => o.push(name),
            LineKindV::Ends { .. } => if o.len() > 0 {
                o.drop_last()
            } else {
                o
            },
            _ => o,
        }
    }
}

/// The subcircuit that encloses line `j`: the innermost one open before it,
/// or the empty name at top level.
pub open spec fn enclosing(lines: Seq<(Span, LineKindV)>, j: int) -> Seq<char> {
    let o = open_subckts(lines.take(j));
    if o.len() == 0 {
        seq![]
    } else {
        o.last()
    }
}

/// The name spans of the instance lines enclosed by `sc` whose name has the
/// lookup key `key` (so compared ignoring ASCII case), in line order.
pub open spec fn scoped_instances(lines: Seq<(Span, LineKindV)>, sc: Seq<char>, key: Seq<char>) -> Seq<Span>
    decreases lines.len(),
{
    if lines.len() == 0 {
        seq![]
    } else {
        let r = scoped_instances(lines.drop_last(), sc, key);
        match lines.last().1 {
            LineKindV::Instance { name, name_span, .. } => if lkey(name) == key && enclosing(
                lines,
                lines.len() - 1,
            ) == sc {
                r.push(name_span)
            } else {
                r
            },
            _ => r,
        }
    }
}

/// The duplicate-name code.
pub open spec fn duplicate_code() -> Option<Seq<char>> {
    Some("spice/duplicate-name"@)
}

pub open spec fn scope_names(sc: Seq<(Seq<char>, Span)>) -> Seq<Seq<char>> {
    sc.map_values(|e: (Seq<char>, Span)| e.0)
}

/// What the full build keeps of the instance names.
pub open spec fn counts_inv(lines: Seq<(Span, LineKindV)>, st: BuildV) -> bool {
    &&& scope_names(st.scope) == open_subckts(lines)
    &&& counts_unique(st.counts)
    &&& forall|i: int|
        0 <= i < st.counts.len() ==> (#[trigger] st.counts[i]).spans == scoped_instances(
            lines,
            st.counts[i].scope,
            st.counts[i].key,
        )
    &&& forall|sc: Seq<char>, key: Seq<char>|
        #[trigger] scoped_instances(lines, sc, key).len() > 0 ==> count_has(st.counts, sc, key)
    &&& forall|i: int| 0 <= i < st.diags.len() ==> (#[trigger] st.diags[i]).code is None
}

proof fn lemma_add_count(
    lines: Seq<(Span, LineKindV)>,
    c0: Seq<CountV>,
    sc0: Seq<char>,
    key0: Seq<char>,
    display: Seq<char>,
    span: Span,
)
    requires
        lines.len() > 0,
        lines.last().1 matches LineKindV::Instance { name, name_span, .. } && lkey(name) == key0 && name_span
            == span && enclosing(lines, lines.len() - 1) == sc0,
        counts_unique(c0),
        forall|i: int|
            0 <= i < c0.len() ==> (#[trigger] c0[i]).spans == scoped_instances(
                lines.drop_last(),
                c0[i].scope,
                c0[i].key,
            ),
        forall|sc: Seq<char>, key: Seq<char>|
            #[trigger] scoped_instances(lines.drop_last(), sc, key).len() > 0 ==> count_has(c0, sc, key),
    ensures
        ({
            let c1 = add_count(c0, sc0, key0, display, span);
            &&& counts_unique(c1)
            &&& forall|i: int|
                0 <= i < c1.len() ==> (#[trigger] c1[i]).spans == scoped_instances(lines, c1[i].scope, c1[i].key)
            &&& forall|sc: Seq<char>, key: Seq<char>|
                #[trigger] scoped_instances(lines, sc, key).len() > 0 ==> count_has(c1, sc, key)
        }),
{
    let p = lines.drop_last();
    let c1 = add_count(c0, sc0, key0, display, span);
    assert forall|sc: Seq<char>, key: Seq<char>|
        scoped_instances(lines, sc, key) == if sc == sc0 && key == key0 {
            scoped_instances(p, sc, key).push(span)
        } else {
            scoped_instances(p, sc, key)
        } by {}
    if count_has(c0, sc0, key0) {
        let i0 = count_at(c0, sc0, key0);
        assert(c1 == c0.update(i0, CountV { spans: c0[i0].spans.push(span), ..c0[i0] }));
        assert forall|i: int| 0 <= i < c1.len() implies (#[trigger] c1[i]).spans == scoped_instances(
            lines,
            c1[i].scope,
            c1[i].key,
        ) by {
            if i != i0 {
                assert(c1[i] == c0[i]);
                if c0[i].scope == sc0 && c0[i].key == key0 {
                    if i < i0 {
                        assert(!(c0[i].scope == c0[i0].scope && c0[i].key == c0[i0].key));
                    } else {
                        assert(!(c0[i0].scope == c0[i].scope && c0[i0].key == c0[i].key));
                    }
                }
            }
        }
        assert forall|sc: Seq<char>, key: Seq<char>|
            #[trigger] scoped_instances(lines, sc, key).len() > 0 implies count_has(c1, sc, key) by {
            if sc == sc0 && key == key0 {
                assert(c1[i0].scope == sc && c1[i0].key == key);
            } else {
                assert(scoped_instances(p, sc, key).len() > 0);
                let k = choose|k: int| 0 <= k < c0.len() && c0[k].scope == sc && c0[k].key == key;
                assert(c1[k].scope == sc && c1[k].key == key);
            }
        }
        assert forall|i: int, j: int| 0 <= i < j < c1.len() implies !(c1[i].scope == c1[j].scope && c1[i].key
            == c1[j].key) by {
            assert(c1[i].scope == c0[i].scope && c1[i].key == c0[i].key);
            assert(c1[j].scope == c0[j].scope && c1[j].key == c0[j].key);
        }
    } else {
        let n = c0.len() as int;
        assert(c1 == c0.push(CountV { scope: sc0, key: key0, display, spans: seq![span] }));
        assert(scoped_instances(p, sc0, key0).len() == 0);
        assert(scoped_instances(lines, sc0, key0) =~= seq![span]);
        assert forall|i: int| 0 <= i < c1.len() implies (#[trigger] c1[i]).spans == scoped_instances(
            lines,
            c1[i].scope,
            c1[i].key,
        ) by {
            if i < n {
                assert(c1[i] == c0[i]);
                if c0[i].scope == sc0 && c0[i].key == key0 {
                    assert(count_has(c0, sc0, key0));
                }
            }
        }
        assert forall|sc: Seq<char>, key: Seq<char>|
            #[trigger] scoped_instances(lines, sc, key).len() > 0 implies count_has(c1, sc, key) by {
            if sc == sc0 && key == key0 {
                assert(c1[n].scope == sc && c1[n].key == key);
            } else {
                assert(scoped_instances(p, sc, key).len() > 0);
                let k = choose|k: int| 0 <= k < c0.len() && c0[k].scope == sc && c0[k].key == key;
                assert(c1[k] == c0[k]);
            }
        }
        assert forall|i: int, j: int| 0 <= i < j < c1.len() implies !(c1[i].scope == c1[j].scope && c1[i].key
            == c1[j].key) by {
            if j == n {
                assert(c1[i] == c0[i]);
                if c0[i].scope == sc0 && c0[i].key == key0 {
                    assert(count_has(c0, sc0, key0));
                }
            } else {
                assert(c1[i] == c0[i] && c1[j] == c0[j]);
            }
        }
    }
}

#[verifier::rlimit(40)]
proof fn lemma_counts_fold(lines: Seq<(Span, LineKindV)>)
    ensures
        counts_inv(lines, build_fold(lines, false)),
    decreases lines.len(),
{
    if lines.len() == 0 {
        assert(scope_names(build_fold(lines, false).scope) =~= Seq::<Seq<char>>::empty());
    } else {
        let p = lines.drop_last();
        lemma_counts_fold(p);
        let st = build_fold(p, false);
        let ls = lines.last().0;
        let line = lines.last().1;
        let st2 = step_spec(st, ls, line, false);
        assert(build_fold(lines, false) == st2);
        assert(lines.take(lines.len() - 1) =~= p);
        let scope = current_scope(st.scope);
        assert(scope == enclosing(lines, lines.len() - 1)) by {
            if st.scope.len() > 0 {
                assert(scope_names(st.scope).last() == st.scope.last().0);
            }
        }
        match line {
            LineKindV::Instance { name, name_span, model_ref } => {
                let st1 = BuildV {
                    counts: add_count(st.counts, scope, lkey(name), name, name_span),
                    ix: IndexV {
                        symbols: st.ix.symbols.push(sym(SymbolKind::Instance, name, name_span, ls, scope)),
                        ..st.ix
                    },
                    ..st
                };
                let sp = push_child(st1, leaf(SymbolKind::Instance, name, name_span, ls));
                assert(sp.counts == st1.counts && sp.scope == st.scope && sp.diags == st.diags);
                assert(st2.counts == st1.counts && st2.scope == st.scope && st2.diags == st.diags);
                lemma_add_count(lines, st.counts, scope, lkey(name), name, name_span);
                assert(open_subckts(lines) == open_subckts(p));
            },
            _ => {
                assert forall|sc: Seq<char>, key: Seq<char>|
                    #[trigger] scoped_instances(lines, sc, key) == scoped_instances(p, sc, key) by {}
                match line {
                    LineKindV::Subckt { name, name_span } => {
                        assert(scope_names(st2.scope) =~= scope_names(st.scope).push(name));
                    },
                    LineKindV::Ends { .. } => {
                        if st.scope.len() == 0 {
                            assert(st2.diags == st.diags.push(
                                DiagV {
                                    message: msg_unexpected_ends(),
                                    severity: Severity::Error,
                                    span: ls,
                                    code: None,
                                },
                            ));
                        } else {
                            assert(scope_names(st2.scope) =~= scope_names(st.scope).drop_last());
                        }
                    },
                    LineKindV::Model { name, name_span } => {
                        let st1 = BuildV {
                            ix: IndexV {
                                symbols: st.ix.symbols.push(sym(SymbolKind::Model, name, name_span, ls, scope)),
                                defs: keyed_add(st.ix.defs, SymbolKind::Model, lkey(name), name_span),
                                ..st.ix
                            },
                            ..st
                        };
                        assert(push_child(st1, leaf(SymbolKind::Model, name, name_span, ls)).counts == st.counts);
                    },
                    LineKindV::Param { name, name_span } => {
                        let st1 = BuildV {
                            ix: IndexV {
                                symbols: st.ix.symbols.push(sym(SymbolKind::Param, name, name_span, ls, scope)),
                                defs: keyed_add(st.ix.defs, SymbolKind::Param, lkey(name), name_span),
                                ..st.ix
                            },
                            ..st
                        };
                        assert(push_child(st1, leaf(SymbolKind::Param, name, name_span, ls)).counts == st.counts);
                    },
                    _ => {},
                }
            },
        }
    }
}

proof fn lemma_dup_diags_from(c: Seq<CountV>, d: DiagV)
    requires
        dup_diags(c).contains(d),
    ensures
        exists|i: int| 0 <= i < c.len() && (#[trigger] c[i]).spans.len() > 1 && c[i].spans.contains(d.span),
        d.code == duplicate_code(),
    decreases c.len(),
{
    let p = c.drop_last();
    let x = c.last();
    let tail = if x.spans.len() > 1 {
        x.spans.map_values(|sp: Span| dup_diag(x.display, sp))
    } else {
        seq![]
    };
    vstd::seq_lib::lemma_seq_concat_contains_all_elements(dup_diags(p), tail, d);
    if dup_diags(p).contains(d) {
        lemma_dup_diags_from(p, d);
        let i = choose|i: int| 0 <= i < p.len() && (#[trigger] p[i]).spans.len() > 1 && p[i].spans.contains(d.span);
        assert(c[i] == p[i]);
    } else {
        let m = choose|m: int| 0 <= m < tail.len() && tail[m] == d;
        assert(d == dup_diag(x.display, x.spans[m]));
        assert(c[c.len() - 1] == x);
    }
}

proof fn lemma_dup_diags_to(c: Seq<CountV>, i: int, m: int)
    requires
        0 <= i < c.len(),
        c[i].spans.len() > 1,
        0 <= m < c[i].spans.len(),
    ensures
        dup_diags(c).contains(dup_diag(c[i].display, c[i].spans[m])),
    decreases c.len(),
{
    let p = c.drop_last();
    let x = c.last();
    let tail = if x.spans.len() > 1 {
        x.spans.map_values(|sp: Span| dup_diag(x.display, sp))
    } else {
        seq![]
    };
    let d = dup_diag(c[i].display, c[i].spans[m]);
    if i < p.len() {
        assert(p[i] == c[i]);
        lemma_dup_diags_to(p, i, m);
        vstd::seq_lib::lemma_seq_concat_contains_all_elements(dup_diags(p), tail, d);
    } else {
        assert(tail[m] == d);
        vstd::seq_lib::lemma_seq_concat_contains_all_elements(dup_diags(p), tail, d);
    }
}

proof fn lemma_unknown_codes(seen: Seq<(Seq<char>, Span)>, ix: IndexV)
    ensures
        forall|i: int| 0 <= i < unknown_from(seen, ix).len() ==> (#[trigger] unknown_from(seen, ix)[i]).code
            == Some("spice/unknown-model"@),
    decreases seen.len(),
{
    if seen.len() > 0 {
        lemma_unknown_codes(seen.drop_last(), ix);
    }
}

/// Duplicate-name warnings under the full profile are exactly those for
/// instance names used more than once in one scope: each warning sits on
/// the name of an instance line whose name (ignoring ASCII case) another
/// instance line in the same enclosing subcircuit (or also at top level)
/// uses too; and every such instance name gets a warning.
pub proof fn law_duplicate_names(lines: Seq<(Span, LineKindV)>)
    ensures
        forall|d: DiagV|
            #![trigger build_result(lines, false).1.contains(d)]
            build_result(lines, false).1.contains(d) && d.code == duplicate_code() ==> exists|sc: Seq<char>, key: Seq<char>|
                #[trigger] scoped_instances(lines, sc, key).len() > 1 && scoped_instances(lines, sc, key).contains(
                    d.span,
                ),
        forall|sc: Seq<char>, key: Seq<char>, sp: Span|
            #![trigger scoped_instances(lines, sc, key).contains(sp)]
            scoped_instances(lines, sc, key).len() > 1 && scoped_instances(lines, sc, key).contains(sp)
                ==> exists|d: DiagV|
                #![trigger build_result(lines, false).1.contains(d)]
                build_result(lines, false).1.contains(d) && d.code == duplicate_code() && d.span == sp,
{
    lemma_counts_fold(lines);
    let st = build_fold(lines, false);
    let ix = build_result(lines, false).0;
    let d1 = st.diags + missing_ends(st.scope);
    let dd = dup_diags(st.counts);
    let uk = unknown_spec(ix);
    let out = build_result(lines, false).1;
    assert(out == d1 + dd + uk);
    lemma_unknown_codes(seen_syms(ix.symbols, ix), ix);
    reveal_strlit("spice/unknown-model");
    reveal_strlit("spice/duplicate-name");
    assert("spice/unknown-model"@[6] != "spice/duplicate-name"@[6]);
    assert forall|d: DiagV|
        #![trigger build_result(lines, false).1.contains(d)]
        build_result(lines, false).1.contains(d) && d.code == duplicate_code() implies exists|sc: Seq<char>, key: Seq<char>|
            #[trigger] scoped_instances(lines, sc, key).len() > 1 && scoped_instances(lines, sc, key).contains(
                d.span,
            ) by {
        vstd::seq_lib::lemma_seq_concat_contains_all_elements(d1 + dd, uk, d);
        vstd::seq_lib::lemma_seq_concat_contains_all_elements(d1, dd, d);
        vstd::seq_lib::lemma_seq_concat_contains_all_elements(st.diags, missing_ends(st.scope), d);
        if uk.contains(d) {
            let k = choose|k: int| 0 <= k < uk.len() && uk[k] == d;
            assert(uk[k].code == Some("spice/unknown-model"@));
        }
        if st.diags.contains(d) {
            let k = choose|k: int| 0 <= k < st.diags.len() && st.diags[k] == d;
        }
        if missing_ends(st.scope).contains(d) {
            let k = choose|k: int| 0 <= k < missing_ends(st.scope).len() && missing_ends(st.scope)[k] == d;
        }
        assert(dd.contains(d));
        lemma_dup_diags_from(st.counts, d);
        let i = choose|i: int| 0 <= i < st.counts.len() && (#[trigger] st.counts[i]).spans.len() > 1
            && st.counts[i].spans.contains(d.span);
        assert(st.counts[i].spans == scoped_instances(lines, st.counts[i].scope, st.counts[i].key));
    }
    assert forall|sc: Seq<char>, key: Seq<char>, sp: Span|
        #![trigger scoped_instances(lines, sc, key).contains(sp)]
        scoped_instances(lines, sc, key).len() > 1 && scoped_instances(lines, sc, key).contains(sp)
            implies exists|d: DiagV|
            #![trigger build_result(lines, false).1.contains(d)]
            build_result(lines, false).1.contains(d) && d.code == duplicate_code() && d.span == sp by {
        assert(count_has(st.counts, sc, key));
        let i = count_at(st.counts, sc, key);
        assert(st.counts[i].spans == scoped_instances(lines, sc, key));
        let m = choose|m: int| 0 <= m < st.counts[i].spans.len() && st.counts[i].spans[m] == sp;
        lemma_dup_diags_to(st.counts, i, m);
        let d = dup_diag(st.counts[i].display, sp);
        vstd::seq_lib::lemma_seq_concat_contains_all_elements(d1, dd, d);
        vstd::seq_lib::lemma_seq_concat_contains_all_elements(d1 + dd, uk, d);
        assert(out.contains(d));
    }
}

} // verus!
