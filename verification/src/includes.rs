//! Cross-file resolution of `.include` / `.inc` and HSPICE `.lib` sections.
//!
//! Paths are carried as strings; finding a file on disk and reading it are
//! left to the caller, which drives [`IncludeWalk`] step by step.
use vstd::prelude::*;
use vstd::utf8::*;
use vstd::string::StrSliceExecFns;
use vstd::string::StringExecFns;

use crate::analyze::{
    analysis_spec, analyze_lines, dedup_diagnostics, dedup_reports, law_dedup_reports,
    law_sort_by_position, lines_of, no_adjacent_repeats, ordered_by_position, reported_in,
    same_report, sort_by_position, sort_diagnostics, ParseResult,
};
use crate::classify::{lines_v, LineKind, LineKindV};
use crate::diagnostic::{diags_view, DiagV, Diagnostic, Span};
use crate::dialect::Dialect;
use crate::symbols::{first_of, lkey, Index, IndexV, SymbolKind};
use crate::text::{
    eq_ic, eq_ignore_ascii_case, first_byte, first_byte_exec, lemma_ascii_boundary,
    lemma_first_byte, lemma_str_valid, lower_seq, owned, sb, string_of,
};
use crate::tree::{fits, SyntaxNode};
use crate::analyze::collect_classified_lines;

verus! {

/// Default nesting limit for include / `.lib` chains.
pub const DEFAULT_MAX_INCLUDE_DEPTH: usize = 16;

/// A file load request extracted from the root (or nested) netlist.
#[derive(Debug, Clone, PartialEq, Eq)]
pub struct IncludeRef {
    pub path: String,
    pub path_span: Span,
    /// When set, only the matching `.LIB entry` … `.ENDL` section is imported.
    pub lib_entry: Option<String>,
    pub entry_span: Option<Span>,
}

/// Mathematical view of an include request.
pub struct IncludeRefV {
    pub path: Seq<char>,
    pub path_span: Span,
    pub lib_entry: Option<Seq<char>>,
    pub entry_span: Option<Span>,
}

impl View for IncludeRef {
    type V = IncludeRefV;

    open spec fn view(&self) -> IncludeRefV {
        IncludeRefV {
            path: self.path@,
            path_span: self.path_span,
            lib_entry: match self.lib_entry {
                Some(e) => Some(e@),
                None => None,
            },
            entry_span: self.entry_span,
        }
    }
}

/// The include request a classified line makes, if any.
pub open spec fn include_ref_of(k: LineKindV) -> Option<IncludeRefV> {
    match k {
        LineKindV::Include { path, path_span } => Some(
            IncludeRefV { path, path_span, lib_entry: None, entry_span: None },
        ),
        LineKindV::LibCall { path, path_span, entry, entry_span } => Some(
            IncludeRefV { path, path_span, lib_entry: Some(entry), entry_span: Some(entry_span) },
        ),
        _ => None,
    }
}

/// The include requests of a list of lines, in order.
pub open spec fn include_refs(lines: Seq<(Span, LineKindV)>) -> Seq<IncludeRefV>
    decreases lines.len(),
{
    if lines.len() == 0 {
        seq![]
    } else {
        let r = include_refs(lines.drop_last());
        match include_ref_of(lines.last().1) {
            Some(x) => r.push(x),
            None => r,
        }
    }
}

pub open spec fn refs_view(v: Seq<IncludeRef>) -> Seq<IncludeRefV> {
    v.map_values(|x: IncludeRef| x@)
}

impl IncludeRef {
    pub fn from_line(kind: &LineKind) -> (r: Option<Self>)
        ensures
            match r {
                Some(x) => include_ref_of(kind@) == Some(x@),
                None => include_ref_of(kind@) is None,
            },
    {
        match kind {
            LineKind::Include { path, path_span } => Some(
                IncludeRef {
                    path: path.clone(),
                    path_span: *path_span,
                    lib_entry: None,
                    entry_span: None,
                },
            ),
            LineKind::LibCall { path, path_span, entry, entry_span } => Some(
                IncludeRef {
                    path: path.clone(),
                    path_span: *path_span,
                    lib_entry: Some(entry.clone()),
                    entry_span: Some(*entry_span),
                },
            ),
            _ => None,
        }
    }

    /// A copy of the request.
    pub fn copy(&self) -> (r: Self)
        ensures
            r@ == self@,
    {
        IncludeRef {
            path: self.path.clone(),
            path_span: self.path_span,
            lib_entry: match &self.lib_entry {
                Some(e) => Some(e.clone()),
                None => None,
            },
            entry_span: self.entry_span,
        }
    }
}

/// Collect include / lib-call directives from classified lines.
pub fn collect_include_refs(lines: &[(Span, LineKind)]) -> (r: Vec<IncludeRef>)
    ensures
        refs_view(r@) == include_refs(lines_v(lines@)),
{
    let ghost lv = lines_v(lines@);
    let mut out: Vec<IncludeRef> = Vec::new();
    let mut i: usize = 0;
    while i < lines.len()
        invariant
            i <= lines@.len(),
            lv == lines_v(lines@),
            refs_view(out@) == include_refs(lv.take(i as int)),
        decreases lines@.len() - i,
    {
        proof {
            assert(lv.take(i + 1).drop_last() =~= lv.take(i as int));
            assert(lv.take(i + 1).last() == (lines@[i as int].0, lines@[i as int].1@));
        }
        let ghost before = refs_view(out@);
        match IncludeRef::from_line(&lines[i].1) {
            Some(x) => {
                out.push(x);
                proof {
                    assert(refs_view(out@) =~= before.push(x@));
                }
            },
            None => {},
        }
        i = i + 1;
    }
    proof {
        assert(lv.take(i as int) =~= lv);
    }
    out
}

// ---------------------------------------------------------------------------
// Library sections
// ---------------------------------------------------------------------------

/// Effect of one line on the section filter: the state says whether the
/// lines seen are inside `.LIB entry` … `.ENDL`.
pub open spec fn section_step(
    st: (bool, Seq<(Span, LineKindV)>),
    line: (Span, LineKindV),
    entry: Seq<char>,
) -> (bool, Seq<(Span, LineKindV)>) {
    let (inside, out) = st;
    if !inside {
        match line.1 {
            LineKindV::LibSection { name, .. } => (eq_ic(name, entry), out),
            _ => (false, out),
        }
    } else {
        match line.1 {
            LineKindV::Endl { name } => match name {
                Some(n) => if eq_ic(n, entry) {
                    (false, out)
                } else {
                    (true, out.push(line))
                },
                None => (false, out),
            },
            _ => (true, out.push(line)),
        }
    }
}

pub open spec fn section_fold(lines: Seq<(Span, LineKindV)>, entry: Seq<char>) -> (
    bool,
    Seq<(Span, LineKindV)>,
)
    decreases lines.len(),
{
    if lines.len() == 0 {
        (false, seq![])
    } else {
        section_step(section_fold(lines.drop_last(), entry), lines.last(), entry)
    }
}

/// The lines inside `.LIB entry` … `.ENDL` sections (names compared without
/// ASCII case); the section headers and their closing lines are left out.
pub open spec fn section_lines(lines: Seq<(Span, LineKindV)>, entry: Seq<char>) -> Seq<
    (Span, LineKindV),
> {
    section_fold(lines, entry).1
}

/// Keep classified lines that fall inside `.LIB entry` … `.ENDL` (case-insensitive).
pub fn lines_for_lib_section(lines: &[(Span, LineKind)], entry: &str) -> (r: Vec<(Span, LineKind)>)
    ensures
        lines_v(r@) == section_lines(lines_v(lines@), entry@),
{
    let ghost lv = lines_v(lines@);
    let mut out: Vec<(Span, LineKind)> = Vec::new();
    let mut inside = false;
    let mut i: usize = 0;
    while i < lines.len()
        invariant
            i <= lines@.len(),
            lv == lines_v(lines@),
            (inside, lines_v(out@)) == section_fold(lv.take(i as int), entry@),
        decreases lines@.len() - i,
    {
        proof {
            assert(lv.take(i + 1).drop_last() =~= lv.take(i as int));
            assert(lv.take(i + 1).last() == (lines@[i as int].0, lines@[i as int].1@));
        }
        let ghost before = lines_v(out@);
        let span = lines[i].0;
        let kind = &lines[i].1;
        if !inside {
            match kind {
                LineKind::LibSection { name, .. } => {
                    inside = eq_ignore_ascii_case(name.as_str(), entry);
                },
                _ => {},
            }
        } else {
            let keep = match kind {
                LineKind::Endl { name } => match name {
                    Some(n) => !eq_ignore_ascii_case(n.as_str(), entry),
                    None => false,
                },
                _ => true,
            };
            if keep {
                out.push((span, kind.clone_kind()));
                proof {
                    assert(lines_v(out@) =~= before.push((span, kind@)));
                }
            } else {
                inside = false;
            }
        }
        i = i + 1;
    }
    proof {
        assert(lv.take(i as int) =~= lv);
    }
    out
}

/// Name span of the first `.lib entry` section header (case-insensitive).
pub open spec fn section_span_in(lines: Seq<(Span, LineKindV)>, entry: Seq<char>) -> Option<Span>
    decreases lines.len(),
{
    if lines.len() == 0 {
        None
    } else {
        match lines[0].1 {
            LineKindV::LibSection { name, name_span } => if eq_ic(name, entry) {
                Some(name_span)
            } else {
                section_span_in(lines.drop_first(), entry)
            },
            _ => section_span_in(lines.drop_first(), entry),
        }
    }
}

/// The `.lib entry` header name span among classified lines.
pub fn section_span_in_lines(lines: &[(Span, LineKind)], entry: &str) -> (r: Option<Span>)
    ensures
        r == section_span_in(lines_v(lines@), entry@),
{
    let ghost lv = lines_v(lines@);
    let mut i: usize = 0;
    proof {
        assert(lv.skip(0) =~= lv);
    }
    while i < lines.len()
        invariant
            i <= lines@.len(),
            lv == lines_v(lines@),
            section_span_in(lv.skip(i as int), entry@) == section_span_in(lv, entry@),
        decreases lines@.len() - i,
    {
        proof {
            assert(lv.skip(i as int)[0] == (lines@[i as int].0, lines@[i as int].1@));
            assert(lv.skip(i as int).drop_first() =~= lv.skip(i + 1));
        }
        match &lines[i].1 {
            LineKind::LibSection { name, name_span } => {
                if eq_ignore_ascii_case(name.as_str(), entry) {
                    return Some(*name_span);
                }
            },
            _ => {},
        }
        i = i + 1;
    }
    proof {
        assert(lv.skip(i as int) =~= Seq::<(Span, LineKindV)>::empty());
    }
    None
}

/// Locate the `.lib entry` section header name span in a parsed library file.
pub fn find_lib_section_span(source: &str, tree: &SyntaxNode, entry: &str) -> (r: Option<Span>)
    requires
        fits(sb(source@), *tree),
    ensures
        exists|lines: Seq<(Span, LineKind)>|
            lines_of(sb(source@), *tree, lines) && r == section_span_in(lines_v(lines), entry@),
{
    let lines = collect_classified_lines(source, tree);
    let r = section_span_in_lines(lines.as_slice(), entry);
    proof {
        assert(lines_of(sb(source@), *tree, lines@));
    }
    r
}

// ---------------------------------------------------------------------------
// Resolution results
// ---------------------------------------------------------------------------

/// Options for resolving include and library paths.
#[derive(Debug, Clone)]
pub struct ResolveOptions {
    /// Directory of the file that owns the include directives (usually the open document).
    pub base_dir: String,
    /// Extra search directories (`spiceLsp.libraryPaths`).
    pub library_paths: Vec<String>,
    pub max_depth: usize,
    pub dialect: Dialect,
}

impl Default for ResolveOptions {
    fn default() -> (r: Self)
        ensures
            r.base_dir@ == "."@,
            r.library_paths@.len() == 0,
            r.max_depth == DEFAULT_MAX_INCLUDE_DEPTH,
            r.dialect == Dialect::Hspice,
    {
        ResolveOptions {
            base_dir: owned("."),
            library_paths: Vec::new(),
            max_depth: DEFAULT_MAX_INCLUDE_DEPTH,
            dialect: Dialect::default(),
        }
    }
}

/// One successfully loaded include / library contribution.
pub struct IncludedFile {
    pub path: String,
    pub text: String,
    /// Classified directive and instance lines of the whole file.
    pub lines: Vec<(Span, LineKind)>,
    pub index: Index,
    /// Section filter applied, if this came from a `.lib` call.
    pub lib_entry: Option<String>,
}

/// A root-level `.include` / `.lib` directive that resolved to a file.
///
/// Used by go-to-definition when the cursor is on the path or library entry name.
#[derive(Debug, Clone, PartialEq, Eq)]
pub struct ResolvedInclude {
    pub path_span: Span,
    pub entry_span: Option<Span>,
    pub resolved_path: String,
    pub lib_entry: Option<String>,
}

/// Result of walking the include / `.lib` graph from a root buffer.
pub struct IncludeResolution {
    pub files: Vec<IncludedFile>,
    pub diagnostics: Vec<Diagnostic>,
    /// Successfully resolved include/lib calls from the root buffer (for navigation).
    pub root_includes: Vec<ResolvedInclude>,
}

impl Default for IncludeResolution {
    fn default() -> (r: Self)
        ensures
            r.files@.len() == 0,
            r.diagnostics@.len() == 0,
            r.root_includes@.len() == 0,
    {
        IncludeResolution { files: Vec::new(), diagnostics: Vec::new(), root_includes: Vec::new() }
    }
}

/// The first file, from position `i` on, that defines `(kind, key)`.
pub open spec fn first_def_from(files: Seq<IncludedFile>, i: int, kind: SymbolKind, key: Seq<char>) -> Option<int>
    decreases files.len() - i,
{
    if i < 0 || i >= files.len() {
        None
    } else if first_of(files[i].index@.defs, kind, key) is Some {
        Some(i)
    } else {
        first_def_from(files, i + 1, kind, key)
    }
}

/// The file found defines the key.
pub proof fn lemma_first_def_from(files: Seq<IncludedFile>, i: int, kind: SymbolKind, key: Seq<char>)
    ensures
        first_def_from(files, i, kind, key) matches Some(j) ==> 0 <= j < files.len() && first_of(
            files[j].index@.defs,
            kind,
            key,
        ) is Some,
    decreases files.len() - i,
{
    if 0 <= i < files.len() && first_of(files[i].index@.defs, kind, key) is None {
        lemma_first_def_from(files, i + 1, kind, key);
    }
}

/// Model definition first, else subcircuit: file position, kind and span.
pub open spec fn model_or_subckt_in(files: Seq<IncludedFile>, key: Seq<char>) -> Option<(int, SymbolKind, Span)> {
    match first_def_from(files, 0, SymbolKind::Model, key) {
        Some(i) => Some((i, SymbolKind::Model, first_of(files[i].index@.defs, SymbolKind::Model, key).unwrap())),
        None => match first_def_from(files, 0, SymbolKind::Subckt, key) {
            Some(i) => Some((i, SymbolKind::Subckt, first_of(files[i].index@.defs, SymbolKind::Subckt, key).unwrap())),
            None => None,
        },
    }
}

/// The first file with the given path.
pub open spec fn file_with_path(files: Seq<IncludedFile>, i: int, path: Seq<char>) -> Option<int>
    decreases files.len() - i,
{
    if i < 0 || i >= files.len() {
        None
    } else if files[i].path@ == path {
        Some(i)
    } else {
        file_with_path(files, i + 1, path)
    }
}

/// The cursor is on the span, either edge included.
pub open spec fn on_span(offset: int, s: Span) -> bool {
    s.start <= offset <= s.end
}

pub open spec fn zero_span() -> Span {
    Span { start: 0, end: 0 }
}

/// Navigation target of the first root include (from `i` on) whose path or
/// entry holds the cursor: the file's start, or the `.lib` section header
/// when the cursor is on the entry; nothing when that file is not loaded.
pub open spec fn include_target_from(
    files: Seq<IncludedFile>,
    roots: Seq<ResolvedInclude>,
    i: int,
    offset: int,
) -> Option<(int, Span)>
    decreases roots.len() - i,
{
    if i < 0 || i >= roots.len() {
        None
    } else {
        let inc = roots[i];
        let on_entry = match inc.entry_span {
            Some(s) => on_span(offset, s),
            None => false,
        };
        let on_path = on_span(offset, inc.path_span);
        if !on_entry && !on_path {
            include_target_from(files, roots, i + 1, offset)
        } else {
            match file_with_path(files, 0, inc.resolved_path@) {
                None => None,
                Some(j) => match inc.lib_entry {
                    Some(e) => if on_entry {
                        Some(
                            (
                                j,
                                match section_span_in(lines_v(files[j].lines@), e@) {
                                    Some(s) => s,
                                    None => zero_span(),
                                },
                            ),
                        )
                    } else {
                        Some((j, zero_span()))
                    },
                    None => Some((j, zero_span())),
                },
            }
        }
    }
}

impl IncludeResolution {
    pub fn find_definition(&self, kind: SymbolKind, name: &str) -> (r: Option<(&IncludedFile, Span)>)
        ensures
            match (r, first_def_from(self.files@, 0, kind, lkey(name@))) {
                (Some((f, s)), Some(i)) => *f == self.files@[i] && first_of(
                    self.files@[i].index@.defs,
                    kind,
                    lkey(name@),
                ) == Some(s),
                (None, None) => true,
                _ => false,
            },
    {
        let ghost key = lkey(name@);
        let mut i: usize = 0;
        while i < self.files.len()
            invariant
                i <= self.files@.len(),
                key == lkey(name@),
                first_def_from(self.files@, i as int, kind, key) == first_def_from(self.files@, 0, kind, key),
            decreases self.files@.len() - i,
        {
            let file = &self.files[i];
            match file.index.definition_span(kind, name) {
                Some(span) => {
                    return Some((file, span));
                },
                None => {},
            }
            i = i + 1;
        }
        None
    }

    pub fn find_model_or_subckt(&self, name: &str) -> (r: Option<(&IncludedFile, SymbolKind, Span)>)
        ensures
            match (r, model_or_subckt_in(self.files@, lkey(name@))) {
                (Some((f, k, s)), Some((i, k2, s2))) => *f == self.files@[i] && k == k2 && s == s2,
                (None, None) => true,
                _ => false,
            },
    {
        match self.find_definition(SymbolKind::Model, name) {
            Some((f, s)) => Some((f, SymbolKind::Model, s)),
            None => match self.find_definition(SymbolKind::Subckt, name) {
                Some((f, s)) => Some((f, SymbolKind::Subckt, s)),
                None => None,
            },
        }
    }

    pub fn defines_model_or_subckt(&self, name: &str) -> (r: bool)
        ensures
            r == model_or_subckt_in(self.files@, lkey(name@)) is Some,
    {
        self.find_model_or_subckt(name).is_some()
    }

    /// Position of the first file with the given path.
    pub fn file_index(&self, path: &String) -> (r: Option<usize>)
        ensures
            match (r, file_with_path(self.files@, 0, path@)) {
                (Some(j), Some(k)) => j == k && j < self.files@.len(),
                (None, None) => true,
                _ => false,
            },
    {
        let mut j: usize = 0;
        while j < self.files.len()
            invariant
                j <= self.files@.len(),
                file_with_path(self.files@, j as int, path@) == file_with_path(self.files@, 0, path@),
            decreases self.files@.len() - j,
        {
            if self.files[j].path == *path {
                return Some(j);
            }
            j = j + 1;
        }
        None
    }

    /// If `offset` is on a resolved include/lib path or entry, return that target location.
    ///
    /// - Cursor on the path → start of the included / library file
    /// - Cursor on a `.lib` entry name → the matching `.lib entry` section header
    pub fn definition_at_include_offset(&self, offset: usize) -> (r: Option<(&IncludedFile, Span)>)
        ensures
            match (r, include_target_from(self.files@, self.root_includes@, 0, offset as int)) {
                (Some((f, s)), Some((j, s2))) => *f == self.files@[j] && s == s2,
                (None, None) => true,
                _ => false,
            },
    {
        match self.include_target(offset) {
            Some((j, span)) => Some((&self.files[j], span)),
            None => None,
        }
    }

    /// The position of the target file and the target span of
    /// [`Self::definition_at_include_offset`].
    pub fn include_target(&self, offset: usize) -> (r: Option<(usize, Span)>)
        ensures
            match (r, include_target_from(self.files@, self.root_includes@, 0, offset as int)) {
                (Some((j, s)), Some((j2, s2))) => j == j2 && j < self.files@.len() && s == s2,
                (None, None) => true,
                _ => false,
            },
    {
        let ghost files = self.files@;
        let ghost roots = self.root_includes@;
        let mut i: usize = 0;
        while i < self.root_includes.len()
            invariant
                i <= roots.len(),
                files == self.files@,
                roots == self.root_includes@,
                include_target_from(files, roots, i as int, offset as int) == include_target_from(
                    files,
                    roots,
                    0,
                    offset as int,
                ),
            decreases roots.len() - i,
        {
            let inc = &self.root_includes[i];
            let on_entry = match inc.entry_span {
                Some(s) => s.start <= offset && offset <= s.end,
                None => false,
            };
            let on_path = inc.path_span.start <= offset && offset <= inc.path_span.end;
            if on_entry || on_path {
                proof {
                    assert(inc == roots[i as int]);
                }
                match self.file_index(&inc.resolved_path) {
                    Some(j) => {
                        let file = &self.files[j];
                        if on_entry {
                            match &inc.lib_entry {
                                Some(entry) => {
                                    let span = match section_span_in_lines(
                                        file.lines.as_slice(),
                                        entry.as_str(),
                                    ) {
                                        Some(s) => s,
                                        None => Span { start: 0, end: 0 },
                                    };
                                    return Some((j, span));
                                },
                                None => {},
                            }
                        }
                        return Some((j, Span { start: 0, end: 0 }));
                    },
                    None => {},
                }
                return None;
            }
            i = i + 1;
        }
        None
    }

    /// The position of the file and the kind and span of
    /// [`Self::find_model_or_subckt`].
    pub fn model_or_subckt_at(&self, name: &str) -> (r: Option<(usize, SymbolKind, Span)>)
        ensures
            match (r, model_or_subckt_in(self.files@, lkey(name@))) {
                (Some((i, k, s)), Some((i2, k2, s2))) => i == i2 && i < self.files@.len() && k == k2 && s == s2,
                (None, None) => true,
                _ => false,
            },
    {
        match self.definition_at(SymbolKind::Model, name) {
            Some((i, s)) => Some((i, SymbolKind::Model, s)),
            None => match self.definition_at(SymbolKind::Subckt, name) {
                Some((i, s)) => Some((i, SymbolKind::Subckt, s)),
                None => None,
            },
        }
    }

    fn definition_at(&self, kind: SymbolKind, name: &str) -> (r: Option<(usize, Span)>)
        ensures
            match (r, first_def_from(self.files@, 0, kind, lkey(name@))) {
                (Some((i, s)), Some(i2)) => i == i2 && i < self.files@.len() && first_of(
                    self.files@[i2].index@.defs,
                    kind,
                    lkey(name@),
                ) == Some(s),
                (None, None) => true,
                _ => false,
            },
    {
        let ghost key = lkey(name@);
        let mut i: usize = 0;
        while i < self.files.len()
            invariant
                i <= self.files@.len(),
                key == lkey(name@),
                first_def_from(self.files@, i as int, kind, key) == first_def_from(self.files@, 0, kind, key),
            decreases self.files@.len() - i,
        {
            match self.files[i].index.definition_span(kind, name) {
                Some(span) => {
                    return Some((i, span));
                },
                None => {},
            }
            i = i + 1;
        }
        None
    }
}

// ---------------------------------------------------------------------------
// Unknown-model diagnostics resolved through includes
// ---------------------------------------------------------------------------

/// The window between the first two `'` of a message.
pub open spec fn quoted_win(b: Seq<u8>) -> Option<(int, int)> {
    let s = first_byte(b, 0, b.len() as int, 39u8);
    if s >= b.len() {
        None
    } else {
        let e = first_byte(b, s + 1, b.len() as int, 39u8);
        if e >= b.len() {
            None
        } else {
            Some((s + 1, e))
        }
    }
}

/// The name quoted in an unknown-model message.
pub open spec fn quoted_name(msg: Seq<char>) -> Option<Seq<char>> {
    match quoted_win(sb(msg)) {
        Some(w) => Some(decode_utf8(sb(msg).subrange(w.0, w.1))),
        None => None,
    }
}

/// The name between the first two single quotes of `message`.
pub fn unknown_model_name(message: &str) -> (r: Option<String>)
    ensures
        match r {
            Some(n) => quoted_name(message@) == Some(n@),
            None => quoted_name(message@) is None,
        },
{
    let b = message.as_bytes();
    proof {
        lemma_str_valid(message);
        lemma_first_byte(b@, 0, b@.len() as int, 39u8);
    }
    let s = first_byte_exec(b, 0, b.len(), 39);
    if s >= b.len() {
        return None;
    }
    proof {
        lemma_ascii_boundary(b@, s as int);
        lemma_first_byte(b@, s + 1, b@.len() as int, 39u8);
    }
    let e = first_byte_exec(b, s + 1, b.len(), 39);
    if e >= b.len() {
        return None;
    }
    proof {
        lemma_ascii_boundary(b@, e as int);
    }
    let n = string_of(b, s + 1, e);
    proof {
        encode_utf8_decode_utf8(n@);
    }
    Some(n)
}

pub open spec fn unknown_model_code() -> Seq<char> {
    "spice/unknown-model"@
}

/// An unknown-model warning whose name is defined locally or in an included file.
pub open spec fn resolved_elsewhere(d: DiagV, local: IndexV, files: Seq<IncludedFile>) -> bool {
    &&& d.code == Some(unknown_model_code())
    &&& match quoted_name(d.message) {
        Some(n) => first_of(local.defs, SymbolKind::Model, lkey(n)) is Some || first_of(
            local.defs,
            SymbolKind::Subckt,
            lkey(n),
        ) is Some || model_or_subckt_in(files, lkey(n)) is Some,
        None => false,
    }
}

/// The diagnostics without the unknown-model warnings resolved elsewhere.
pub open spec fn keep_unresolved(ds: Seq<DiagV>, local: IndexV, files: Seq<IncludedFile>) -> Seq<DiagV>
    decreases ds.len(),
{
    if ds.len() == 0 {
        seq![]
    } else {
        let r = keep_unresolved(ds.drop_last(), local, files);
        if resolved_elsewhere(ds.last(), local, files) {
            r
        } else {
            r.push(ds.last())
        }
    }
}

/// Drop `spice/unknown-model` diagnostics that resolve via the include graph.
pub fn filter_unknown_models(
    diagnostics: Vec<Diagnostic>,
    local: &Index,
    resolution: &IncludeResolution,
) -> (r: Vec<Diagnostic>)
    ensures
        diags_view(r@) == keep_unresolved(diags_view(diagnostics@), local@, resolution.files@),
{
    let ghost dv = diags_view(diagnostics@);
    let code = owned("spice/unknown-model");
    let mut out: Vec<Diagnostic> = Vec::new();
    let mut i: usize = 0;
    while i < diagnostics.len()
        invariant
            i <= diagnostics@.len(),
            dv == diags_view(diagnostics@),
            code@ == unknown_model_code(),
            diags_view(out@) == keep_unresolved(dv.take(i as int), local@, resolution.files@),
        decreases diagnostics@.len() - i,
    {
        let d = &diagnostics[i];
        proof {
            assert(dv.take(i + 1).drop_last() =~= dv.take(i as int));
            assert(dv.take(i + 1).last() == d@);
        }
        let is_unknown = match &d.code {
            Some(c) => *c == code,
            None => false,
        };
        let drop = if is_unknown {
            match unknown_model_name(d.message.as_str()) {
                Some(name) => local.has_model_or_subckt(name.as_str())
                    || resolution.defines_model_or_subckt(name.as_str()),
                None => false,
            }
        } else {
            false
        };
        if !drop {
            let ghost before = diags_view(out@);
            out.push(d.clone_diag());
            proof {
                assert(diags_view(out@) =~= before.push(d@));
            }
        }
        i = i + 1;
    }
    proof {
        assert(dv.take(i as int) =~= dv);
    }
    out
}

/// The diagnostics of a buffer analyzed with its includes: the analysis
/// diagnostics without unknown-model warnings that the includes resolve, then
/// the include diagnostics, ordered by position with repeats dropped.
pub open spec fn include_diags_spec(
    ix: IndexV,
    analysis: Seq<DiagV>,
    resolution: IncludeResolution,
) -> Seq<DiagV> {
    dedup_reports(
        sort_by_position(
            keep_unresolved(analysis, ix, resolution.files@) + diags_view(resolution.diagnostics@),
        ),
    )
}

/// What `keep_unresolved` keeps: exactly the entries not resolved elsewhere,
/// in their order.
proof fn lemma_keep_unresolved(ds: Seq<DiagV>, local: IndexV, files: Seq<IncludedFile>)
    ensures
        forall|k: int|
            0 <= k < keep_unresolved(ds, local, files).len() ==> ds.contains(
                #[trigger] keep_unresolved(ds, local, files)[k],
            ) && !resolved_elsewhere(keep_unresolved(ds, local, files)[k], local, files),
        forall|i: int|
            0 <= i < ds.len() && !resolved_elsewhere(#[trigger] ds[i], local, files) ==> keep_unresolved(
                ds,
                local,
                files,
            ).contains(ds[i]),
    decreases ds.len(),
{
    if ds.len() > 0 {
        let p = ds.drop_last();
        lemma_keep_unresolved(p, local, files);
        let r = keep_unresolved(p, local, files);
        let out = keep_unresolved(ds, local, files);
        assert forall|k: int| 0 <= k < out.len() implies ds.contains(#[trigger] out[k])
            && !resolved_elsewhere(out[k], local, files) by {
            if k < r.len() {
                assert(out[k] == r[k]);
                let m = choose|m: int| 0 <= m < p.len() && p[m] == r[k];
                assert(ds[m] == p[m]);
            } else {
                assert(out[k] == ds.last());
                assert(ds[ds.len() - 1] == ds.last());
            }
        }
        assert forall|i: int| 0 <= i < ds.len() && !resolved_elsewhere(#[trigger] ds[i], local, files) implies out.contains(
            ds[i],
        ) by {
            if i < p.len() {
                assert(p[i] == ds[i]);
                let m = choose|m: int| 0 <= m < r.len() && r[m] == p[i];
                assert(out[m] == r[m]);
            } else {
                assert(out[out.len() - 1] == ds[i]);
            }
        }
    }
}

/// Diagnostics of a buffer with its includes: ordered by position, with no
/// report repeated back to back; every report of the include resolution
/// stays; every analysis report stays unless it is an unknown-model warning
/// for a name that the buffer or an included file defines; and nothing else
/// comes in.
pub proof fn law_include_diagnostics(ix: IndexV, analysis: Seq<DiagV>, resolution: IncludeResolution)
    ensures
        ({
            let out = include_diags_spec(ix, analysis, resolution);
            let res = diags_view(resolution.diagnostics@);
            &&& ordered_by_position(out)
            &&& no_adjacent_repeats(out)
            &&& reported_in(res, out)
            &&& forall|i: int|
                0 <= i < analysis.len() && !resolved_elsewhere(#[trigger] analysis[i], ix, resolution.files@)
                    ==> exists|j: int| 0 <= j < out.len() && same_report(analysis[i], #[trigger] out[j])
            &&& forall|j: int|
                0 <= j < out.len() ==> res.contains(#[trigger] out[j]) || (analysis.contains(out[j])
                    && !resolved_elsewhere(out[j], ix, resolution.files@))
            &&& include_reports(res) ==> forall|j: int|
                0 <= j < out.len() ==> !resolved_elsewhere(#[trigger] out[j], ix, resolution.files@)
        }),
{
    let res = diags_view(resolution.diagnostics@);
    let kept = keep_unresolved(analysis, ix, resolution.files@);
    let all = kept + res;
    let sorted = sort_by_position(all);
    let out = dedup_reports(sorted);
    lemma_keep_unresolved(analysis, ix, resolution.files@);
    law_sort_by_position(all);
    law_dedup_reports(sorted);
    assert forall|i: int| 0 <= i < all.len() implies exists|j: int|
        0 <= j < out.len() && same_report(#[trigger] all[i], #[trigger] out[j]) by {
        vstd::seq_lib::to_multiset_contains(all, all[i]);
        vstd::seq_lib::to_multiset_contains(sorted, all[i]);
        assert(all.contains(all[i]));
        assert(sorted.contains(all[i]));
        let k = choose|k: int| 0 <= k < sorted.len() && sorted[k] == all[i];
        let j = choose|j: int| 0 <= j < out.len() && same_report(sorted[k], out[j]);
    }
    assert forall|i: int| 0 <= i < res.len() implies exists|j: int|
        0 <= j < out.len() && same_report(#[trigger] res[i], #[trigger] out[j]) by {
        assert(all[kept.len() + i] == res[i]);
    }
    assert forall|i: int|
        0 <= i < analysis.len() && !resolved_elsewhere(#[trigger] analysis[i], ix, resolution.files@)
            implies exists|j: int| 0 <= j < out.len() && same_report(analysis[i], #[trigger] out[j]) by {
        assert(kept.contains(analysis[i]));
        let m = choose|m: int| 0 <= m < kept.len() && kept[m] == analysis[i];
        assert(all[m] == kept[m]);
    }
    assert forall|j: int| 0 <= j < out.len() implies res.contains(#[trigger] out[j]) || (analysis.contains(
        out[j],
    ) && !resolved_elsewhere(out[j], ix, resolution.files@)) by {
        assert(sorted.contains(out[j]));
        vstd::seq_lib::to_multiset_contains(all, out[j]);
        vstd::seq_lib::to_multiset_contains(sorted, out[j]);
        assert(all.contains(out[j]));
        let i = choose|i: int| 0 <= i < all.len() && all[i] == out[j];
        if i < kept.len() {
            assert(kept[i] == all[i]);
            assert(kept.contains(kept[i]));
        } else {
            assert(res[i - kept.len()] == all[i]);
        }
    }
    if include_reports(res) {
        assert forall|j: int| 0 <= j < out.len() implies !resolved_elsewhere(#[trigger] out[j], ix, resolution.files@) by {
            if res.contains(out[j]) {
                let k = choose|k: int| 0 <= k < res.len() && res[k] == out[j];
                assert(res[k].code != Some(unknown_model_code()));
            }
        }
    }
}

/// Analyze a parsed buffer and merge the resolution of its includes (as
/// produced by an [`IncludeWalk`]) into its diagnostics.
pub fn analyze_with_includes(
    source: &str,
    tree: SyntaxNode,
    options: &ResolveOptions,
    resolution: IncludeResolution,
) -> (r: (ParseResult, IncludeResolution))
    requires
        fits(sb(source@), tree),
    ensures
        r.1 == resolution,
        r.0.tree == tree,
        r.0.dialect == options.dialect,
        r.0.profile == crate::profile::AnalysisProfile::Full,
        exists|lines: Seq<(Span, LineKind)>|
            #![trigger lines_of(sb(source@), tree, lines)]
            {
                let (ix, d0) = analysis_spec(
                    sb(source@).len() as int,
                    tree,
                    lines_v(lines),
                    crate::profile::AnalysisProfile::Full,
                );
                &&& lines_of(sb(source@), tree, lines)
                &&& r.0.index@ == ix
                &&& diags_view(r.0.diagnostics@) == include_diags_spec(ix, d0, resolution)
            },
{
    let lines = collect_classified_lines(source, &tree);
    let mut result = analyze_lines(source, tree, options.dialect, lines.as_slice());
    let ghost d0 = diags_view(result.diagnostics@);
    let ghost ix = result.index@;
    let mut analysis: Vec<Diagnostic> = Vec::new();
    std::mem::swap(&mut analysis, &mut result.diagnostics);
    let mut merged = filter_unknown_models(analysis, &result.index, &resolution);
    let ghost kept = diags_view(merged@);
    let mut i: usize = 0;
    while i < resolution.diagnostics.len()
        invariant
            i <= resolution.diagnostics@.len(),
            diags_view(merged@) == kept + diags_view(resolution.diagnostics@).take(i as int),
        decreases resolution.diagnostics@.len() - i,
    {
        let ghost before = diags_view(merged@);
        merged.push(resolution.diagnostics[i].clone_diag());
        proof {
            assert(diags_view(merged@) =~= before.push(resolution.diagnostics@[i as int]@));
            assert(diags_view(resolution.diagnostics@).take(i + 1) =~= diags_view(
                resolution.diagnostics@,
            ).take(i as int).push(resolution.diagnostics@[i as int]@));
        }
        i = i + 1;
    }
    proof {
        assert(diags_view(resolution.diagnostics@).take(i as int) =~= diags_view(
            resolution.diagnostics@,
        ));
    }
    let sorted = sort_diagnostics(&merged);
    result.diagnostics = dedup_diagnostics(&sorted);
    proof {
        assert(lines_of(sb(source@), tree, lines@));
    }
    (result, resolution)
}

// ---------------------------------------------------------------------------
// The include walk
// ---------------------------------------------------------------------------

/// What the caller must do next for an [`IncludeWalk`].
pub enum WalkAction {
    /// The walk made progress on its own; call [`IncludeWalk::advance`] again.
    Continue,
    /// Find `raw_path` relative to `base_dir`, else in the library paths, and
    /// report the canonical path and its parent directory with
    /// [`IncludeWalk::path_resolved`].
    FindPath { raw_path: String, base_dir: String },
    /// Read and parse the file, and report it with [`IncludeWalk::file_loaded`].
    LoadFile { path: String },
    /// The walk is over; `resolution` holds the result.
    Finished,
}

/// A pending step of the walk.
pub enum Task {
    Visit { request: IncludeRef, base_dir: String, depth: usize },
    Leave { path: String },
}

/// What the walk waits for from the caller.
pub enum Waiting {
    Idle,
    Path { request: IncludeRef, depth: usize },
    File { request: IncludeRef, path: String, parent_dir: String, depth: usize },
}

/// A pending step of the walk.
pub enum TaskV {
    /// Resolve an include found in a file of directory `base_dir`, at nesting `depth`.
    Visit { request: IncludeRefV, base_dir: Seq<char>, depth: int },
    /// The file at `path` and everything it includes are done.
    Leave { path: Seq<char> },
}

/// What the walk is waiting for from the caller.
pub enum WaitV {
    Idle,
    Path { request: IncludeRefV, depth: int },
    File { request: IncludeRefV, path: Seq<char>, parent_dir: Seq<char>, depth: int },
}

/// Mathematical view of the walk's own state.
pub struct WalkV {
    pub roots: Seq<IncludeRefV>,
    pub next_root: int,
    pub current_root: Option<(IncludeRefV, int)>,
    pub tasks: Seq<TaskV>,
    pub waiting: WaitV,
    pub base_dir: Seq<char>,
    pub max_depth: int,
}

/// Walk of the include / `.lib` graph from a root buffer, depth first, in
/// the order the directives appear. Each root include is walked completely
/// before the next one; the files being expanded are kept in `active` so
/// that a file including itself is reported as a cycle.
pub struct IncludeWalk {
    pub resolution: IncludeResolution,
    pub active: Vec<String>,
    pub roots: Vec<IncludeRef>,
    pub next_root: usize,
    pub current_root: Option<(IncludeRef, usize)>,
    pub tasks: Vec<Task>,
    pub waiting: Waiting,
    pub base_dir: String,
    pub max_depth: usize,
}

/// Mathematical view of a resolved root include.
pub struct ResolvedIncludeV {
    pub path_span: Span,
    pub entry_span: Option<Span>,
    pub resolved_path: Seq<char>,
    pub lib_entry: Option<Seq<char>>,
}

pub open spec fn resolved_view(r: ResolvedInclude) -> ResolvedIncludeV {
    ResolvedIncludeV {
        path_span: r.path_span,
        entry_span: r.entry_span,
        resolved_path: r.resolved_path@,
        lib_entry: match r.lib_entry {
            Some(e) => Some(e@),
            None => None,
        },
    }
}

pub open spec fn roots_view(v: Seq<ResolvedInclude>) -> Seq<ResolvedIncludeV> {
    v.map_values(|r: ResolvedInclude| resolved_view(r))
}

pub open spec fn strings_view(v: Seq<String>) -> Seq<Seq<char>> {
    v.map_values(|s: String| s@)
}

/// No string occurs twice.
pub open spec fn no_dups(v: Seq<Seq<char>>) -> bool {
    forall|i: int, j: int| 0 <= i < j < v.len() ==> v[i] != v[j]
}

/// The list without the first occurrence of `p`.
pub open spec fn remove_first(v: Seq<Seq<char>>, p: Seq<char>) -> Seq<Seq<char>> {
    if v.contains(p) {
        let i = choose|i: int| 0 <= i < v.len() && v[i] == p;
        v.remove(i)
    } else {
        v
    }
}

/// The key that stands for the root buffer in the list of files being expanded.
pub open spec fn root_key(base_dir: Seq<char>) -> Seq<char> {
    if base_dir.len() == 0 {
        "__root__"@
    } else if base_dir.last() == '/' {
        base_dir + "__root__"@
    } else {
        base_dir + "/__root__"@
    }
}

pub open spec fn warning(message: Seq<char>, span: Span, code: Seq<char>) -> DiagV {
    DiagV { message, severity: crate::diagnostic::Severity::Warning, span, code: Some(code) }
}

pub open spec fn depth_diag(max_depth: int, inc: IncludeRefV) -> DiagV {
    warning(
        "include depth exceeded (max "@ + crate::text::decimal(max_depth as nat) + ") for '"@ + inc.path + "'"@,
        inc.path_span,
        "spice/include-depth"@,
    )
}

pub open spec fn not_found_diag(inc: IncludeRefV) -> DiagV {
    warning("include file not found: '"@ + inc.path + "'"@, inc.path_span, "spice/include-not-found"@)
}

pub open spec fn cycle_diag(inc: IncludeRefV, path: Seq<char>) -> DiagV {
    warning("include cycle involving '"@ + path + "'"@, inc.path_span, "spice/include-cycle"@)
}

pub open spec fn unreadable_diag(inc: IncludeRefV, path: Seq<char>) -> DiagV {
    warning("include file not readable: '"@ + path + "'"@, inc.path_span, "spice/include-not-found"@)
}

pub open spec fn no_section_diag(inc: IncludeRefV, entry: Seq<char>) -> DiagV {
    warning(
        "library section '"@ + entry + "' not found in '"@ + inc.path + "'"@,
        match inc.entry_span {
            Some(s) => s,
            None => inc.path_span,
        },
        "spice/lib-section-not-found"@,
    )
}

/// The lines a request imports: the whole file, or the `.lib` section.
pub open spec fn imported_lines(lines: Seq<(Span, LineKindV)>, entry: Option<Seq<char>>) -> Seq<
    (Span, LineKindV),
> {
    match entry {
        Some(e) => section_lines(lines, e),
        None => lines,
    }
}

/// A requested `.lib` section exists: it has lines, or its header is there.
pub open spec fn section_found(lines: Seq<(Span, LineKindV)>, entry: Option<Seq<char>>) -> bool {
    match entry {
        Some(e) => section_lines(lines, e).len() > 0 || section_span_in(lines, e) is Some,
        None => true,
    }
}

/// Visits of nested requests, pushed so that the first request comes out first.
pub open spec fn nested_visits(refs: Seq<IncludeRefV>, base_dir: Seq<char>, depth: int) -> Seq<TaskV> {
    Seq::new(
        refs.len(),
        |k: int| TaskV::Visit { request: refs[refs.len() - 1 - k], base_dir, depth },
    )
}

pub open spec fn task_v(t: Task) -> TaskV {
    match t {
        Task::Visit { request, base_dir, depth } => TaskV::Visit {
            request: request@,
            base_dir: base_dir@,
            depth: depth as int,
        },
        Task::Leave { path } => TaskV::Leave { path: path@ },
    }
}

pub open spec fn wait_v(w: Waiting) -> WaitV {
    match w {
        Waiting::Idle => WaitV::Idle,
        Waiting::Path { request, depth } => WaitV::Path { request: request@, depth: depth as int },
        Waiting::File { request, path, parent_dir, depth } => WaitV::File {
            request: request@,
            path: path@,
            parent_dir: parent_dir@,
            depth: depth as int,
        },
    }
}

impl IncludeWalk {
    /// The walk's own state.
    pub open spec fn state(&self) -> WalkV {
        WalkV {
            roots: refs_view(self.roots@),
            next_root: self.next_root as int,
            current_root: match self.current_root {
                Some((r, b)) => Some((r@, b as int)),
                None => None,
            },
            tasks: self.tasks@.map_values(|t: Task| task_v(t)),
            waiting: wait_v(self.waiting),
            base_dir: self.base_dir@,
            max_depth: self.max_depth as int,
        }
    }

    /// Start a walk over the include requests of the root buffer's lines.
    pub fn start(lines: &[(Span, LineKind)], options: &ResolveOptions) -> (w: Self)
        ensures
            walk_ok(w.state()),
            no_dups(strings_view(w.active@)),
            w.resolution.files@.len() == 0,
            w.resolution.diagnostics@.len() == 0,
            w.resolution.root_includes@.len() == 0,
            strings_view(w.active@) == seq![root_key(options.base_dir@)],
            w.state() == (WalkV {
                roots: include_refs(lines_v(lines@)),
                next_root: 0,
                current_root: None,
                tasks: seq![],
                waiting: WaitV::Idle,
                base_dir: options.base_dir@,
                max_depth: options.max_depth as int,
            }),
    {
        let roots = collect_include_refs(lines);
        let base = &options.base_dir;
        let n = base.as_str().unicode_len();
        let key = if n == 0 {
            owned("__root__")
        } else if base.as_str().get_char(n - 1) == '/' {
            let mut k = base.clone();
            k.append("__root__");
            k
        } else {
            let mut k = base.clone();
            k.append("/__root__");
            k
        };
        let mut active: Vec<String> = Vec::new();
        active.push(key);
        let w = IncludeWalk {
            resolution: IncludeResolution::default(),
            active,
            roots,
            next_root: 0,
            current_root: None,
            tasks: Vec::new(),
            waiting: Waiting::Idle,
            base_dir: base.clone(),
            max_depth: options.max_depth,
        };
        proof {
            assert(strings_view(w.active@) =~= seq![root_key(options.base_dir@)]);
            assert(w.state().tasks =~= Seq::<TaskV>::empty());
        }
        w
    }
}

/// The resolution's contents are unchanged.
pub open spec fn same_resolution(o: IncludeWalk, n: IncludeWalk) -> bool {
    &&& n.resolution.files@ == o.resolution.files@
    &&& n.resolution.diagnostics@ == o.resolution.diagnostics@
    &&& n.resolution.root_includes@ == o.resolution.root_includes@
}

/// Only the diagnostics changed, by one more at the end.
pub open spec fn one_more_diag(o: IncludeWalk, n: IncludeWalk, d: DiagV) -> bool {
    &&& n.resolution.files@ == o.resolution.files@
    &&& diags_view(n.resolution.diagnostics@) == diags_view(o.resolution.diagnostics@).push(d)
    &&& n.resolution.root_includes@ == o.resolution.root_includes@
}

/// One step of [`IncludeWalk::advance`].
pub open spec fn advance_spec(o: IncludeWalk, n: IncludeWalk, r: WalkAction) -> bool {
    let st = o.state();
    if st.tasks.len() > 0 {
        let rest = WalkV { tasks: st.tasks.drop_last(), ..st };
        match st.tasks.last() {
            TaskV::Leave { path } => {
                &&& n.state() == rest
                &&& strings_view(n.active@) == remove_first(strings_view(o.active@), path)
                &&& same_resolution(o, n)
                &&& r is Continue
            },
            TaskV::Visit { request, base_dir, depth } => if depth >= st.max_depth {
                &&& n.state() == rest
                &&& n.active@ == o.active@
                &&& one_more_diag(o, n, depth_diag(st.max_depth, request))
                &&& r is Continue
            } else {
                &&& n.state() == WalkV { waiting: WaitV::Path { request, depth }, ..rest }
                &&& n.active@ == o.active@
                &&& same_resolution(o, n)
                &&& r matches WalkAction::FindPath { raw_path, base_dir: b } && raw_path@ == request.path
                    && b@ == base_dir
            },
        }
    } else {
        match st.current_root {
            Some((request, before)) => {
                &&& n.state() == WalkV { current_root: None, ..st }
                &&& n.active@ == o.active@
                &&& n.resolution.files@ == o.resolution.files@
                &&& n.resolution.diagnostics@ == o.resolution.diagnostics@
                &&& roots_view(n.resolution.root_includes@) == if before < o.resolution.files@.len() {
                    roots_view(o.resolution.root_includes@).push(
                        ResolvedIncludeV {
                            path_span: request.path_span,
                            entry_span: request.entry_span,
                            resolved_path: o.resolution.files@[before].path@,
                            lib_entry: request.lib_entry,
                        },
                    )
                } else {
                    roots_view(o.resolution.root_includes@)
                }
                &&& r is Continue
            },
            None => if st.next_root < st.roots.len() {
                &&& n.state() == WalkV {
                    next_root: st.next_root + 1,
                    current_root: Some((st.roots[st.next_root], o.resolution.files@.len() as int)),
                    tasks: seq![
                        TaskV::Visit {
                            request: st.roots[st.next_root],
                            base_dir: st.base_dir,
                            depth: 0,
                        },
                    ],
                    ..st
                }
                &&& n.active@ == o.active@
                &&& same_resolution(o, n)
                &&& r is Continue
            } else {
                &&& n.state() == st
                &&& n.active@ == o.active@
                &&& same_resolution(o, n)
                &&& r is Finished
            },
        }
    }
}

/// The walk waits for nothing, or for a request below the depth limit.
pub open spec fn waits_below_limit(w: IncludeWalk) -> bool {
    match w.state().waiting {
        WaitV::Idle => true,
        WaitV::Path { depth, .. } => 0 <= depth < w.state().max_depth,
        WaitV::File { depth, .. } => 0 <= depth < w.state().max_depth,
    }
}

/// Effect of [`IncludeWalk::path_resolved`].
pub open spec fn path_resolved_spec(
    o: IncludeWalk,
    n: IncludeWalk,
    found: Option<(String, String)>,
    r: WalkAction,
) -> bool {
    let st = o.state();
    match st.waiting {
        WaitV::Path { request, depth } => match found {
            None => {
                &&& n.state() == WalkV { waiting: WaitV::Idle, ..st }
                &&& n.active@ == o.active@
                &&& one_more_diag(o, n, not_found_diag(request))
                &&& r is Continue
            },
            Some((p, parent)) => if strings_view(o.active@).contains(p@) {
                &&& n.state() == WalkV { waiting: WaitV::Idle, ..st }
                &&& n.active@ == o.active@
                &&& one_more_diag(o, n, cycle_diag(request, p@))
                &&& r is Continue
            } else {
                &&& n.state() == WalkV {
                    waiting: WaitV::File { request, path: p@, parent_dir: parent@, depth },
                    ..st
                }
                &&& strings_view(n.active@) == strings_view(o.active@).push(p@)
                &&& same_resolution(o, n)
                &&& r matches WalkAction::LoadFile { path } && path@ == p@
            },
        },
        _ => false,
    }
}

/// Effect of [`IncludeWalk::file_loaded`] on a file whose classified lines
/// are `lines`.
pub open spec fn file_added_spec(
    o: IncludeWalk,
    n: IncludeWalk,
    text: Seq<char>,
    lines: Seq<(Span, LineKind)>,
) -> bool {
    let st = o.state();
    match st.waiting {
        WaitV::File { request, path, parent_dir, depth } => {
            let lv = lines_v(lines);
            if !section_found(lv, request.lib_entry) {
                &&& n.state() == WalkV { waiting: WaitV::Idle, ..st }
                &&& strings_view(n.active@) == remove_first(strings_view(o.active@), path)
                &&& one_more_diag(o, n, no_section_diag(request, request.lib_entry.unwrap()))
            } else {
                let imported = imported_lines(lv, request.lib_entry);
                let f = n.resolution.files@.last();
                &&& n.state() == WalkV {
                    waiting: WaitV::Idle,
                    tasks: st.tasks.push(TaskV::Leave { path }) + nested_visits(
                        include_refs(imported),
                        parent_dir,
                        depth + 1,
                    ),
                    ..st
                }
                &&& n.active@ == o.active@
                &&& n.resolution.files@.len() == o.resolution.files@.len() + 1
                &&& n.resolution.files@.drop_last() == o.resolution.files@
                &&& f.path@ == path
                &&& f.text@ == text
                &&& f.lines@ == lines
                &&& f.index@ == crate::indexer::build_result(imported, false).0
                &&& crate::classify::opt_view(f.lib_entry) == request.lib_entry
                &&& n.resolution.diagnostics@ == o.resolution.diagnostics@
                &&& n.resolution.root_includes@ == o.resolution.root_includes@
            }
        },
        _ => false,
    }
}

fn contains_path(v: &Vec<String>, p: &String) -> (r: bool)
    ensures
        r == strings_view(v@).contains(p@),
{
    let mut i: usize = 0;
    while i < v.len()
        invariant
            i <= v@.len(),
            forall|j: int| 0 <= j < i ==> v@[j]@ != p@,
        decreases v@.len() - i,
    {
        if v[i] == *p {
            proof {
                assert(strings_view(v@)[i as int] == p@);
            }
            return true;
        }
        i = i + 1;
    }
    proof {
        if strings_view(v@).contains(p@) {
            let j = choose|j: int| 0 <= j < v@.len() && strings_view(v@)[j] == p@;
            assert(v@[j]@ == p@);
        }
    }
    false
}

fn remove_path(v: &mut Vec<String>, p: &String)
    requires
        no_dups(strings_view(old(v)@)),
    ensures
        strings_view(final(v)@) == remove_first(strings_view(old(v)@), p@),
        no_dups(strings_view(final(v)@)),
{
    let ghost sv = strings_view(v@);
    let mut i: usize = 0;
    while i < v.len()
        invariant
            i <= v@.len(),
            sv == strings_view(v@),
            v@ == old(v)@,
            no_dups(sv),
            forall|j: int| 0 <= j < i ==> v@[j]@ != p@,
        decreases v@.len() - i,
    {
        if v[i] == *p {
            proof {
                assert(sv[i as int] == p@);
                assert(sv.contains(p@));
                let c = choose|i: int| 0 <= i < sv.len() && sv[i] == p@;
                if c != i {
                    if c < i {
                        assert(v@[c]@ == sv[c]);
                    } else {
                        assert(sv[i as int] != sv[c]);
                    }
                }
                assert(c == i);
                assert(remove_first(sv, p@) == sv.remove(i as int));
            }
            v.remove(i);
            proof {
                assert(strings_view(v@) =~= sv.remove(i as int));
                assert forall|a: int, b: int| 0 <= a < b < sv.remove(i as int).len() implies sv.remove(
                    i as int,
                )[a] != sv.remove(i as int)[b] by {
                    let a2 = if a < i { a } else { a + 1 };
                    let b2 = if b < i { b } else { b + 1 };
                    assert(sv.remove(i as int)[a] == sv[a2]);
                    assert(sv.remove(i as int)[b] == sv[b2]);
                }
            }
            return;
        }
        i = i + 1;
    }
    proof {
        if sv.contains(p@) {
            let j = choose|j: int| 0 <= j < sv.len() && sv[j] == p@;
            assert(v@[j]@ == p@);
        }
    }
}

fn warn(message: String, span: Span, code: &str) -> (d: Diagnostic)
    ensures
        d@ == warning(message@, span, code@),
{
    Diagnostic {
        message,
        severity: crate::diagnostic::Severity::Warning,
        span,
        code: Some(owned(code)),
    }
}

fn quoted(prefix: &str, name: &str) -> (r: String)
    ensures
        r@ == prefix@ + name@ + "'"@,
{
    crate::text::join3(prefix, name, "'")
}

impl IncludeWalk {
    /// Make one step of progress: finish a file, reject a request nested too
    /// deeply, record a finished root include, or start the next root
    /// include; or ask the caller to find a file.
    pub fn advance(&mut self) -> (r: WalkAction)
        requires
            old(self).state().waiting is Idle,
            no_dups(strings_view(old(self).active@)),
        ensures
            advance_spec(*old(self), *final(self), r),
            no_dups(strings_view(final(self).active@)),
            waits_below_limit(*final(self)),
    {
        let ghost o = *self;
        if self.tasks.len() > 0 {
            let task = self.tasks.pop().unwrap();
            proof {
                assert(self.tasks@.map_values(|t: Task| task_v(t)) =~= o.state().tasks.drop_last());
                assert(task_v(task) == o.state().tasks.last());
            }
            match task {
                Task::Leave { path } => {
                    remove_path(&mut self.active, &path);
                    WalkAction::Continue
                },
                Task::Visit { request, base_dir, depth } => {
                    if depth >= self.max_depth {
                        let dec = crate::text::decimal_string(self.max_depth);
                        let mut m = owned("include depth exceeded (max ");
                        m.append(dec.as_str());
                        m.append(") for '");
                        m.append(request.path.as_str());
                        m.append("'");
                        let ghost before = diags_view(self.resolution.diagnostics@);
                        self.resolution.diagnostics.push(warn(m, request.path_span, "spice/include-depth"));
                        proof {
                            assert(diags_view(self.resolution.diagnostics@) =~= before.push(
                                depth_diag(o.state().max_depth, request@),
                            ));
                        }
                        WalkAction::Continue
                    } else {
                        let raw_path = request.path.clone();
                        self.waiting = Waiting::Path { request, depth };
                        WalkAction::FindPath { raw_path, base_dir }
                    }
                },
            }
        } else {
            match &self.current_root {
                Some((request, before)) => {
                    let before = *before;
                    if before < self.resolution.files.len() {
                        let resolved = ResolvedInclude {
                            path_span: request.path_span,
                            entry_span: request.entry_span,
                            resolved_path: self.resolution.files[before].path.clone(),
                            lib_entry: match &request.lib_entry {
                                Some(e) => Some(e.clone()),
                                None => None,
                            },
                        };
                        let ghost r0 = roots_view(self.resolution.root_includes@);
                        self.resolution.root_includes.push(resolved);
                        proof {
                            assert(roots_view(self.resolution.root_includes@) =~= r0.push(
                                resolved_view(resolved),
                            ));
                        }
                    }
                    self.current_root = None;
                    WalkAction::Continue
                },
                None => {
                    if self.next_root < self.roots.len() {
                        let request = self.roots[self.next_root].copy();
                        let request2 = request.copy();
                        self.current_root = Some((request, self.resolution.files.len()));
                        self.tasks.push(
                            Task::Visit { request: request2, base_dir: self.base_dir.clone(), depth: 0 },
                        );
                        self.next_root = self.next_root + 1;
                        proof {
                            assert(self.tasks@.map_values(|t: Task| task_v(t)) =~= seq![
                                TaskV::Visit {
                                    request: o.state().roots[o.state().next_root],
                                    base_dir: o.state().base_dir,
                                    depth: 0,
                                },
                            ]);
                            assert(refs_view(o.roots@)[o.next_root as int] == o.roots@[o.next_root as int]@);
                        }
                        WalkAction::Continue
                    } else {
                        WalkAction::Finished
                    }
                },
            }
        }
    }

    /// Report where the requested file was found (its canonical path and
    /// parent directory), or that it was not found.
    pub fn path_resolved(&mut self, found: Option<(String, String)>) -> (r: WalkAction)
        requires
            old(self).state().waiting is Path,
            waits_below_limit(*old(self)),
            no_dups(strings_view(old(self).active@)),
        ensures
            path_resolved_spec(*old(self), *final(self), found, r),
            no_dups(strings_view(final(self).active@)),
            waits_below_limit(*final(self)),
    {
        let ghost o = *self;
        let mut waiting = Waiting::Idle;
        std::mem::swap(&mut waiting, &mut self.waiting);
        match waiting {
            Waiting::Path { request, depth } => match found {
                None => {
                    let m = quoted("include file not found: '", request.path.as_str());
                    let ghost before = diags_view(self.resolution.diagnostics@);
                    self.resolution.diagnostics.push(
                        warn(m, request.path_span, "spice/include-not-found"),
                    );
                    proof {
                        assert(diags_view(self.resolution.diagnostics@) =~= before.push(
                            not_found_diag(request@),
                        ));
                    }
                    WalkAction::Continue
                },
                Some((p, parent)) => {
                    if contains_path(&self.active, &p) {
                        let m = quoted("include cycle involving '", p.as_str());
                        let ghost before = diags_view(self.resolution.diagnostics@);
                        self.resolution.diagnostics.push(
                            warn(m, request.path_span, "spice/include-cycle"),
                        );
                        proof {
                            assert(diags_view(self.resolution.diagnostics@) =~= before.push(
                                cycle_diag(request@, p@),
                            ));
                        }
                        WalkAction::Continue
                    } else {
                        let ghost a0 = strings_view(self.active@);
                        self.active.push(p.clone());
                        proof {
                            assert(strings_view(self.active@) =~= a0.push(p@));
                            assert forall|i: int, j: int|
                                0 <= i < j < strings_view(self.active@).len() implies strings_view(
                                self.active@,
                            )[i] != strings_view(self.active@)[j] by {
                                if j == a0.len() {
                                    assert(strings_view(self.active@)[i] == a0[i]);
                                    assert(!a0.contains(p@));
                                }
                            }
                        }
                        let path = p.clone();
                        self.waiting = Waiting::File { request, path: p, parent_dir: parent, depth };
                        WalkAction::LoadFile { path }
                    }
                },
            },
            _ => WalkAction::Continue,
        }
    }
}

impl IncludeWalk {
    /// Report the text of the file being loaded and its syntax tree, or that
    /// it could not be read. A loaded file is indexed (only its `.lib`
    /// section when one was requested) and the requests it makes are queued.
    pub fn file_loaded(&mut self, loaded: Option<(String, SyntaxNode)>) -> (r: WalkAction)
        requires
            old(self).state().waiting is File,
            waits_below_limit(*old(self)),
            no_dups(strings_view(old(self).active@)),
            loaded matches Some((t, tree)) ==> fits(sb(t@), tree),
        ensures
            r is Continue,
            no_dups(strings_view(final(self).active@)),
            waits_below_limit(*final(self)),
            match loaded {
                None => match old(self).state().waiting {
                    WaitV::File { request, path, .. } => {
                        &&& final(self).state() == WalkV { waiting: WaitV::Idle, ..old(self).state() }
                        &&& strings_view(final(self).active@) == remove_first(
                            strings_view(old(self).active@),
                            path,
                        )
                        &&& one_more_diag(*old(self), *final(self), unreadable_diag(request, path))
                    },
                    _ => false,
                },
                Some((text, tree)) => exists|lines: Seq<(Span, LineKind)>|
                    #![trigger lines_of(sb(text@), tree, lines)]
                    lines_of(sb(text@), tree, lines) && file_added_spec(
                        *old(self),
                        *final(self),
                        text@,
                        lines,
                    ),
            },
    {
        let ghost o = *self;
        let mut waiting = Waiting::Idle;
        std::mem::swap(&mut waiting, &mut self.waiting);
        match waiting {
            Waiting::File { request, path, parent_dir, depth } => {
                match loaded {
                    None => {
                        remove_path(&mut self.active, &path);
                        let m = quoted("include file not readable: '", path.as_str());
                        let ghost before = diags_view(self.resolution.diagnostics@);
                        self.resolution.diagnostics.push(
                            warn(m, request.path_span, "spice/include-not-found"),
                        );
                        proof {
                            assert(diags_view(self.resolution.diagnostics@) =~= before.push(
                                unreadable_diag(request@, path@),
                            ));
                        }
                        WalkAction::Continue
                    },
                    Some((text, tree)) => {
                        let all = collect_classified_lines(text.as_str(), &tree);
                        proof {
                            assert(lines_of(sb(text@), tree, all@));
                        }
                        let ghost lv = lines_v(all@);
                        let (index, nested) = match &request.lib_entry {
                            Some(entry) => {
                                let section = lines_for_lib_section(all.as_slice(), entry.as_str());
                                let found = section.len() > 0 || section_span_in_lines(
                                    all.as_slice(),
                                    entry.as_str(),
                                ).is_some();
                                if !found {
                                    let mut m = owned("library section '");
                                    m.append(entry.as_str());
                                    m.append("' not found in '");
                                    m.append(request.path.as_str());
                                    m.append("'");
                                    let span = match request.entry_span {
                                        Some(s) => s,
                                        None => request.path_span,
                                    };
                                    remove_path(&mut self.active, &path);
                                    let ghost before = diags_view(self.resolution.diagnostics@);
                                    self.resolution.diagnostics.push(
                                        warn(m, span, "spice/lib-section-not-found"),
                                    );
                                    proof {
                                        assert(diags_view(self.resolution.diagnostics@) =~= before.push(
                                            no_section_diag(request@, entry@),
                                        ));
                                        assert(file_added_spec(o, *self, text@, all@));
                                    }
                                    return WalkAction::Continue;
                                }
                                let (ix, _d) = crate::indexer::build_index(text.as_str(), section.as_slice());
                                (ix, collect_include_refs(section.as_slice()))
                            },
                            None => {
                                let (ix, _d) = crate::indexer::build_index(text.as_str(), all.as_slice());
                                (ix, collect_include_refs(all.as_slice()))
                            },
                        };
                        let lib_entry = match &request.lib_entry {
                            Some(e) => Some(e.clone()),
                            None => None,
                        };
                        let ghost f0 = self.resolution.files@;
                        self.resolution.files.push(
                            IncludedFile { path: path.clone(), text, lines: all, index, lib_entry },
                        );
                        let ghost t0 = self.tasks@.map_values(|t: Task| task_v(t));
                        self.tasks.push(Task::Leave { path });
                        proof {
                            assert(self.tasks@.map_values(|t: Task| task_v(t)) =~= t0.push(
                                TaskV::Leave { path: o.state().waiting->File_path },
                            ));
                        }
                        let ghost t1 = self.tasks@.map_values(|t: Task| task_v(t));
                        let ghost nv = refs_view(nested@);
                        let mut extra: Vec<Task> = Vec::new();
                        let mut k = nested.len();
                        while k > 0
                            invariant
                                k <= nested@.len(),
                                nv == refs_view(nested@),
                                depth < usize::MAX,
                                extra@.map_values(|t: Task| task_v(t)) == nested_visits(
                                    nv,
                                    parent_dir@,
                                    depth + 1,
                                ).take(nested@.len() - k),
                            decreases k,
                        {
                            let ghost before = extra@.map_values(|t: Task| task_v(t));
                            extra.push(
                                Task::Visit {
                                    request: nested[k - 1].copy(),
                                    base_dir: parent_dir.clone(),
                                    depth: depth + 1,
                                },
                            );
                            proof {
                                let all_v = nested_visits(nv, parent_dir@, depth + 1);
                                assert(all_v[nested@.len() - k] == TaskV::Visit {
                                    request: nv[k - 1],
                                    base_dir: parent_dir@,
                                    depth: depth + 1,
                                });
                                assert(nv[k - 1] == nested@[k - 1]@);
                                assert(all_v.take(nested@.len() - k + 1) =~= all_v.take(
                                    nested@.len() - k,
                                ).push(all_v[nested@.len() - k]));
                                assert(extra@.map_values(|t: Task| task_v(t)) =~= before.push(
                                    all_v[nested@.len() - k],
                                ));
                            }
                            k = k - 1;
                        }
                        let ghost ev = extra@.map_values(|t: Task| task_v(t));
                        self.tasks.append(&mut extra);
                        proof {
                            assert(self.tasks@.map_values(|t: Task| task_v(t)) =~= t1 + ev);
                        }
                        proof {
                            assert(nested_visits(nv, parent_dir@, depth + 1).take(nested@.len() as int)
                                =~= nested_visits(nv, parent_dir@, depth + 1));
                            assert(self.resolution.files@.drop_last() =~= f0);
                            assert(file_added_spec(o, *self, text@, all@));
                        }
                        WalkAction::Continue
                    },
                }
            },
            _ => WalkAction::Continue,
        }
    }
}

// ---------------------------------------------------------------------------
// Progress of the walk
// ---------------------------------------------------------------------------

/// Rank of a pending task in the order in which the walk works them off:
/// visits by depth (those at or past the limit together), then leaves.
pub open spec fn task_rank(t: TaskV, m: int) -> int {
    match t {
        TaskV::Visit { depth, .. } => if depth >= m {
            3 * m
        } else {
            3 * depth
        },
        TaskV::Leave { .. } => 3 * m + 1,
    }
}

/// Rank of what the walk waits for: a path search or a file read at a depth.
pub open spec fn wait_rank(w: WaitV) -> int {
    match w {
        WaitV::Idle => -1,
        WaitV::Path { depth, .. } => 3 * depth + 1,
        WaitV::File { depth, .. } => 3 * depth + 2,
    }
}

/// Number of tasks of rank `k`.
pub open spec fn rank_count(ts: Seq<TaskV>, m: int, k: int) -> nat
    decreases ts.len(),
{
    if ts.len() == 0 {
        0
    } else {
        rank_count(ts.drop_last(), m, k) + if task_rank(ts.last(), m) == k {
            1nat
        } else {
            0nat
        }
    }
}

/// The walk's progress measure: root includes still to start, then the
/// number of pending items of each rank (tasks and the awaited answer), then
/// whether a root include is still to be recorded.
pub open spec fn walk_measure(st: WalkV) -> Seq<nat> {
    let m = st.max_depth;
    seq![(st.roots.len() - st.next_root) as nat] + Seq::new(
        (3 * m + 2) as nat,
        |k: int|
            rank_count(st.tasks, m, k) + if wait_rank(st.waiting) == k {
                1nat
            } else {
                0nat
            },
    ) + seq![
        if st.current_root is Some {
            1nat
        } else {
            0nat
        },
    ]
}

/// `a` comes before `b` in the lexicographic order of sequences of
/// naturals of one length (a well-founded order).
pub open spec fn lex_below(a: Seq<nat>, b: Seq<nat>) -> bool {
    &&& a.len() == b.len()
    &&& exists|i: int|
        0 <= i < a.len() && a[i] < b[i] && forall|j: int| 0 <= j < i ==> a[j] == b[j]
}

/// The depths and counters of a walk state are in range.
pub open spec fn walk_ok(st: WalkV) -> bool {
    &&& 0 <= st.next_root <= st.roots.len()
    &&& 0 <= st.max_depth
    &&& forall|i: int|
        0 <= i < st.tasks.len() ==> (#[trigger] st.tasks[i] matches TaskV::Visit { depth, .. } ==> 0
            <= depth <= st.max_depth)
    &&& match st.waiting {
        WaitV::Idle => true,
        WaitV::Path { depth, .. } => 0 <= depth < st.max_depth,
        WaitV::File { depth, .. } => 0 <= depth < st.max_depth,
    }
}

proof fn lemma_rank_count_concat(a: Seq<TaskV>, b: Seq<TaskV>, m: int, k: int)
    ensures
        rank_count(a + b, m, k) == rank_count(a, m, k) + rank_count(b, m, k),
    decreases b.len(),
{
    if b.len() > 0 {
        assert((a + b).drop_last() =~= a + b.drop_last());
        lemma_rank_count_concat(a, b.drop_last(), m, k);
    } else {
        assert(a + b =~= a);
    }
}

proof fn lemma_rank_count_none(a: Seq<TaskV>, m: int, k: int)
    requires
        forall|i: int| 0 <= i < a.len() ==> task_rank(#[trigger] a[i], m) != k,
    ensures
        rank_count(a, m, k) == 0,
    decreases a.len(),
{
    if a.len() > 0 {
        lemma_rank_count_none(a.drop_last(), m, k);
    }
}

proof fn lemma_measure_at(st: WalkV, k: int)
    requires
        0 <= st.max_depth,
        0 <= k < 3 * st.max_depth + 2,
    ensures
        walk_measure(st).len() == 3 * st.max_depth + 4,
        walk_measure(st)[0] == (st.roots.len() - st.next_root) as nat,
        walk_measure(st)[k + 1] == rank_count(st.tasks, st.max_depth, k) + if wait_rank(st.waiting)
            == k {
            1nat
        } else {
            0nat
        },
        walk_measure(st)[3 * st.max_depth + 3] == if st.current_root is Some {
            1nat
        } else {
            0nat
        },
{
}

/// Compare measures that differ first at position `i`.
proof fn lemma_lex_at(a: WalkV, b: WalkV, i: int)
    requires
        0 <= a.max_depth,
        a.max_depth == b.max_depth,
        0 <= i < 3 * a.max_depth + 4,
        walk_measure(a)[i] < walk_measure(b)[i],
        forall|j: int| 0 <= j < i ==> walk_measure(a)[j] == walk_measure(b)[j],
    ensures
        lex_below(walk_measure(a), walk_measure(b)),
{
}

/// Every step of [`IncludeWalk::advance`] from a well-formed state keeps it
/// well-formed, and unless the walk is finished (which changes nothing) it
/// lowers the progress measure; so the walk always ends.
pub proof fn law_advance_progress(o: IncludeWalk, n: IncludeWalk, r: WalkAction)
    requires
        walk_ok(o.state()),
        o.state().waiting is Idle,
        advance_spec(o, n, r),
    ensures
        walk_ok(n.state()),
        r is Finished ==> n.state() == o.state(),
        !(r is Finished) ==> lex_below(walk_measure(n.state()), walk_measure(o.state())),
{
    let st = o.state();
    let ns = n.state();
    let m = st.max_depth;
    if st.tasks.len() > 0 {
        let rest = st.tasks.drop_last();
        let t = st.tasks.last();
        assert(st.tasks =~= rest.push(t));
        let p = task_rank(t, m);
        assert(0 <= p <= 3 * m + 1) by {
            assert(st.tasks[st.tasks.len() - 1] == t);
        }
        assert forall|i: int| 0 <= i < ns.tasks.len() implies (#[trigger] ns.tasks[i] matches TaskV::Visit {
            depth,
            ..
        } ==> 0 <= depth <= ns.max_depth) by {
            assert(ns.tasks[i] == st.tasks[i]);
        }
        assert forall|j: int| 0 <= j < p + 1 implies walk_measure(ns)[j] == walk_measure(st)[j] by {
            if j > 0 {
                lemma_measure_at(st, j - 1);
                lemma_measure_at(ns, j - 1);
            }
        }
        lemma_measure_at(st, p);
        lemma_measure_at(ns, p);
        lemma_lex_at(ns, st, p + 1);
    } else {
        match st.current_root {
            Some(_) => {
                assert forall|j: int| 0 <= j < 3 * m + 3 implies walk_measure(ns)[j] == walk_measure(
                    st,
                )[j] by {
                    if j > 0 {
                        lemma_measure_at(st, j - 1);
                        lemma_measure_at(ns, j - 1);
                    }
                }
                lemma_measure_at(st, 0);
                lemma_measure_at(ns, 0);
                lemma_lex_at(ns, st, 3 * m + 3);
            },
            None => if st.next_root < st.roots.len() {
                assert(ns.tasks[0] == TaskV::Visit { request: st.roots[st.next_root], base_dir: st.base_dir, depth: 0 });
                lemma_measure_at(st, 0);
                lemma_measure_at(ns, 0);
                lemma_lex_at(ns, st, 0);
            } else {
            },
        }
    }
}

/// Every answer to a path search keeps the walk well-formed and lowers its
/// progress measure.
pub proof fn law_path_resolved_progress(
    o: IncludeWalk,
    n: IncludeWalk,
    found: Option<(String, String)>,
    r: WalkAction,
)
    requires
        walk_ok(o.state()),
        path_resolved_spec(o, n, found, r),
    ensures
        walk_ok(n.state()),
        lex_below(walk_measure(n.state()), walk_measure(o.state())),
{
    let st = o.state();
    let ns = n.state();
    let m = st.max_depth;
    let p = wait_rank(st.waiting);
    assert(ns.tasks == st.tasks);
    assert forall|j: int| 0 <= j < p + 1 implies walk_measure(ns)[j] == walk_measure(st)[j] by {
        if j > 0 {
            lemma_measure_at(st, j - 1);
            lemma_measure_at(ns, j - 1);
        }
    }
    lemma_measure_at(st, p);
    lemma_measure_at(ns, p);
    lemma_lex_at(ns, st, p + 1);
}

/// Every answer to a file read keeps the walk well-formed and lowers its
/// progress measure: the read file's nested requests are one level deeper.
pub proof fn law_file_loaded_progress(
    o: IncludeWalk,
    n: IncludeWalk,
    text: Seq<char>,
    lines: Seq<(Span, LineKind)>,
)
    requires
        walk_ok(o.state()),
        o.state().waiting is File,
        n.state() == (WalkV { waiting: WaitV::Idle, ..o.state() }) || file_added_spec(
            o,
            n,
            text,
            lines,
        ),
    ensures
        walk_ok(n.state()),
        lex_below(walk_measure(n.state()), walk_measure(o.state())),
{
    let st = o.state();
    let ns = n.state();
    let m = st.max_depth;
    let p = wait_rank(st.waiting);
    if let WaitV::File { request, path, parent_dir, depth } = st.waiting {
        if ns.tasks != st.tasks {
            let lv = lines_v(lines);
            let imported = imported_lines(lv, request.lib_entry);
            let nested = nested_visits(include_refs(imported), parent_dir, depth + 1);
            let added = seq![TaskV::Leave { path }] + nested;
            assert(ns.tasks =~= st.tasks + added);
            assert forall|i: int| 0 <= i < ns.tasks.len() implies (#[trigger] ns.tasks[i] matches TaskV::Visit {
                depth,
                ..
            } ==> 0 <= depth <= ns.max_depth) by {
                if i < st.tasks.len() {
                    assert(ns.tasks[i] == st.tasks[i]);
                } else if i > st.tasks.len() {
                    assert(ns.tasks[i] == nested[i - st.tasks.len() - 1]);
                }
            }
            assert forall|j: int| 0 <= j < p + 1 implies walk_measure(ns)[j] == walk_measure(st)[j] by {
                if j > 0 {
                    lemma_measure_at(st, j - 1);
                    lemma_measure_at(ns, j - 1);
                    lemma_rank_count_concat(st.tasks, added, m, j - 1);
                    assert forall|i: int| 0 <= i < added.len() implies task_rank(#[trigger] added[i], m)
                        != j - 1 by {
                        if i > 0 {
                            assert(added[i] == nested[i - 1]);
                        }
                    }
                    lemma_rank_count_none(added, m, j - 1);
                }
            }
            lemma_measure_at(st, p);
            lemma_measure_at(ns, p);
            lemma_rank_count_concat(st.tasks, added, m, p);
            assert forall|i: int| 0 <= i < added.len() implies task_rank(#[trigger] added[i], m) != p by {
                if i > 0 {
                    assert(added[i] == nested[i - 1]);
                }
            }
            lemma_rank_count_none(added, m, p);
            lemma_lex_at(ns, st, p + 1);
        } else {
            assert forall|j: int| 0 <= j < p + 1 implies walk_measure(ns)[j] == walk_measure(st)[j] by {
                if j > 0 {
                    lemma_measure_at(st, j - 1);
                    lemma_measure_at(ns, j - 1);
                }
            }
            lemma_measure_at(st, p);
            lemma_measure_at(ns, p);
            lemma_lex_at(ns, st, p + 1);
        }
    }
}


/// No report is an unknown-model warning: what an include walk reports.
pub open spec fn include_reports(ds: Seq<DiagV>) -> bool {
    forall|i: int| 0 <= i < ds.len() ==> (#[trigger] ds[i]).code != Some(unknown_model_code())
}

/// The reports an include walk makes carry include codes, never the
/// unknown-model code.
proof fn lemma_include_codes()
    ensures
        forall|m: int, inc: IncludeRefV| #[trigger] depth_diag(m, inc).code != Some(unknown_model_code()),
        forall|inc: IncludeRefV| #[trigger] not_found_diag(inc).code != Some(unknown_model_code()),
        forall|inc: IncludeRefV, p: Seq<char>| #[trigger] cycle_diag(inc, p).code != Some(unknown_model_code()),
        forall|inc: IncludeRefV, p: Seq<char>| #[trigger] unreadable_diag(inc, p).code != Some(unknown_model_code()),
        forall|inc: IncludeRefV, e: Seq<char>| #[trigger] no_section_diag(inc, e).code != Some(unknown_model_code()),
{
    reveal_strlit("spice/unknown-model");
    reveal_strlit("spice/include-depth");
    reveal_strlit("spice/include-not-found");
    reveal_strlit("spice/include-cycle");
    reveal_strlit("spice/lib-section-not-found");
    assert("spice/unknown-model"@[6] == 'u');
    assert("spice/include-depth"@[6] == 'i');
    assert("spice/include-not-found"@[6] == 'i');
    assert("spice/include-cycle"@[6] == 'i');
    assert("spice/lib-section-not-found"@[6] == 'l');
}

/// One more report that is not an unknown-model warning.
proof fn lemma_one_more_report(o: IncludeWalk, n: IncludeWalk, d: DiagV)
    requires
        one_more_diag(o, n, d),
        include_reports(diags_view(o.resolution.diagnostics@)),
        d.code != Some(unknown_model_code()),
    ensures
        include_reports(diags_view(n.resolution.diagnostics@)),
{
    let a = diags_view(o.resolution.diagnostics@);
    let c = diags_view(n.resolution.diagnostics@);
    assert forall|i: int| 0 <= i < c.len() implies (#[trigger] c[i]).code != Some(unknown_model_code()) by {
        if i < a.len() {
            assert(c[i] == a[i]);
        }
    }
}

/// Every step of an include walk reports include problems only: a walk that
/// has made no unknown-model report makes none in a step of `advance`,
/// `path_resolved` or `file_loaded` (when the file was read or could not
/// be).
pub proof fn law_walk_include_reports(o: IncludeWalk, n: IncludeWalk)
    requires
        include_reports(diags_view(o.resolution.diagnostics@)),
        (exists|r: WalkAction| advance_spec(o, n, r)) || (exists|found: Option<(String, String)>, r: WalkAction|
            path_resolved_spec(o, n, found, r)) || (exists|text: Seq<char>, lines: Seq<(Span, LineKind)>|
            file_added_spec(o, n, text, lines)) || (o.state().waiting matches WaitV::File { request, path, .. }
            && one_more_diag(o, n, unreadable_diag(request, path))),
    ensures
        include_reports(diags_view(n.resolution.diagnostics@)),
{
    lemma_include_codes();
    let a = diags_view(o.resolution.diagnostics@);
    if n.resolution.diagnostics@ == o.resolution.diagnostics@ {
    } else if exists|d: DiagV| one_more_diag(o, n, d) && d.code != Some(unknown_model_code()) {
        let d = choose|d: DiagV| one_more_diag(o, n, d) && d.code != Some(unknown_model_code());
        lemma_one_more_report(o, n, d);
    } else {
        assert(false);
    }
}


/// Two names equal ignoring ASCII case.
pub open spec fn same_name(a: Seq<char>, b: Seq<char>) -> bool {
    lower_seq(sb(a)) == lower_seq(sb(b))
}

/// A `.LIB` header for the section `entry`.
pub open spec fn opens_section(l: LineKindV, entry: Seq<char>) -> bool {
    l matches LineKindV::LibSection { name, .. } && same_name(name, entry)
}

/// An `.ENDL` that ends the section `entry`: one without a name, or one
/// naming `entry`.
pub open spec fn closes_section(l: LineKindV, entry: Seq<char>) -> bool {
    match l {
        LineKindV::Endl { name } => match name {
            None => true,
            Some(n) => same_name(n, entry),
        },
        _ => false,
    }
}

/// Line `j` comes after a header for `entry` with no end of that section
/// in between.
pub open spec fn in_section(lines: Seq<(Span, LineKindV)>, j: int, entry: Seq<char>) -> bool {
    exists|h: int|
        0 <= h < j && #[trigger] opens_section(lines[h].1, entry) && forall|m: int|
            h < m < j ==> !#[trigger] closes_section(lines[m].1, entry)
}

/// The lines inside the section, in order: each line after an open header
/// for `entry` that does not itself end the section.
pub open spec fn section_members(lines: Seq<(Span, LineKindV)>, entry: Seq<char>) -> Seq<(Span, LineKindV)>
    decreases lines.len(),
{
    if lines.len() == 0 {
        seq![]
    } else {
        let j = lines.len() - 1;
        section_members(lines.drop_last(), entry) + if in_section(lines, j, entry) && !closes_section(
            lines[j].1,
            entry,
        ) {
            seq![lines[j]]
        } else {
            seq![]
        }
    }
}

proof fn lemma_in_section_step(lines: Seq<(Span, LineKindV)>, j: int, entry: Seq<char>)
    requires
        0 <= j < lines.len(),
    ensures
        in_section(lines, j + 1, entry) <==> (opens_section(lines[j].1, entry) || (in_section(lines, j, entry)
            && !closes_section(lines[j].1, entry))),
{
    if in_section(lines, j + 1, entry) {
        let h = choose|h: int|
            0 <= h < j + 1 && #[trigger] opens_section(lines[h].1, entry) && forall|m: int|
                h < m < j + 1 ==> !#[trigger] closes_section(lines[m].1, entry);
        if h < j {
            assert(!closes_section(lines[j].1, entry));
            assert(in_section(lines, j, entry));
        }
    }
    if opens_section(lines[j].1, entry) {
        assert(forall|m: int| j < m < j + 1 ==> !#[trigger] closes_section(lines[m].1, entry));
        assert(in_section(lines, j + 1, entry));
    } else if in_section(lines, j, entry) && !closes_section(lines[j].1, entry) {
        let h = choose|h: int|
            0 <= h < j && #[trigger] opens_section(lines[h].1, entry) && forall|m: int|
                h < m < j ==> !#[trigger] closes_section(lines[m].1, entry);
        assert(forall|m: int| h < m < j + 1 ==> !#[trigger] closes_section(lines[m].1, entry));
        assert(in_section(lines, j + 1, entry));
    }
}

proof fn lemma_in_section_prefix(lines: Seq<(Span, LineKindV)>, j: int, entry: Seq<char>)
    requires
        0 <= j < lines.len(),
    ensures
        in_section(lines.drop_last(), j, entry) == in_section(lines, j, entry),
{
    let p = lines.drop_last();
    if in_section(lines, j, entry) {
        let h = choose|h: int|
            0 <= h < j && #[trigger] opens_section(lines[h].1, entry) && forall|m: int|
                h < m < j ==> !#[trigger] closes_section(lines[m].1, entry);
        assert(p[h] == lines[h]);
        assert forall|m: int| h < m < j implies !#[trigger] closes_section(p[m].1, entry) by {
            assert(p[m] == lines[m]);
        }
    }
    if in_section(p, j, entry) {
        let h = choose|h: int|
            0 <= h < j && #[trigger] opens_section(p[h].1, entry) && forall|m: int|
                h < m < j ==> !#[trigger] closes_section(p[m].1, entry);
        assert(p[h] == lines[h]);
        assert forall|m: int| h < m < j implies !#[trigger] closes_section(lines[m].1, entry) by {
            assert(p[m] == lines[m]);
        }
    }
}

proof fn lemma_section_fold(lines: Seq<(Span, LineKindV)>, entry: Seq<char>)
    ensures
        section_fold(lines, entry).0 == in_section(lines, lines.len() as int, entry),
        section_fold(lines, entry).1 == section_members(lines, entry),
    decreases lines.len(),
{
    if lines.len() > 0 {
        let p = lines.drop_last();
        let j = lines.len() - 1;
        lemma_section_fold(p, entry);
        lemma_in_section_prefix(lines, j, entry);
        lemma_in_section_step(lines, j, entry);
        assert(lines[j] == lines.last());
        if !section_fold(p, entry).0 {
            assert(!in_section(lines, j, entry));
            let add: Seq<(Span, LineKindV)> = seq![];
            assert(section_members(lines, entry) == section_members(p, entry) + add);
            assert(section_members(p, entry) + add =~= section_members(p, entry));
        }
    } else {
        assert(!in_section(lines, 0, entry));
    }
}

/// A `.lib` import keeps exactly the lines that come after a header for the
/// entry (ignoring ASCII case) with no end of the section in between, except
/// the lines that end it; an `.ENDL` without a name, or one naming the
/// entry, ends the section, and nothing after it is kept until a header for
/// the entry opens it again.
pub proof fn law_section_lines(lines: Seq<(Span, LineKindV)>, entry: Seq<char>)
    ensures
        section_lines(lines, entry) == section_members(lines, entry),
{
    lemma_section_fold(lines, entry);
}

} // verus!
