//! Structural comparison, scope analysis and canonical renaming of JavaScript.
pub mod text;
pub mod syntax;
pub mod parser;
pub mod scope;
pub mod canonicalizer;
pub mod pretty;
pub mod mapping;
pub mod fingerprint;
pub mod diff;
pub mod cli;
pub mod profiling;
pub mod threshold_learning;
pub mod matching_report;
pub mod dump;
pub mod matcher;
pub mod renaming;
pub mod changes;
pub mod determinism;

use vstd::prelude::*;
use crate::determinism::{same_tree_values, same_node_values, same_scopes, same_scope_values, same_var_values, lemma_rendering_values};
use crate::canonicalizer::{
    Canonicalizer, CanonicalizeError, IdView, Naming, collected, sorted_by_start, splice, spans_of, canon_scope,
    initial_naming,
};
use crate::mapping::{
    MappingGenerator, mapping_file_from, mapped_spans, positions_bounded, positions_in_range, keys_unique,
    pair_lookup, parsed_pairs, map_get, lemma_template_is_identity, lemma_identity_mapping_is_canonicalization,
};
use crate::parser::{JsParser, ParserError, js_parse};
use crate::pretty::{PrettyPrinter, fmt};
use crate::scope::{ScopeAnalyzer, AnalyzerView, walk, initial_state, Scope, scope_view, var_view};
use crate::syntax::{SyntaxTree, RawView, records_consistent, tree_from_records};
use crate::text::lines_of;

verus! {

/// Why a command produced no output.
#[derive(Debug, Clone, Copy, PartialEq, Eq, Structural)]
pub enum RunError {
    /// The source, or the canonical text made from it, could not be parsed.
    Parse(ParserError),
    /// Canonical names could not be assigned.
    Canonicalize(CanonicalizeError),
    /// A tree has more nodes, or a position further on, than the machine's
    /// integers can count.
    TooLarge,
}

/// Whether `out` is the text of `t` with each identifier that the
/// canonicalizer `c` knows replaced by its canonical name.
pub open spec fn canonical_rendering(c: Canonicalizer, t: SyntaxTree, out: Seq<char>) -> bool {
    exists|ids: Seq<IdView>|
        {
            &&& sorted_by_start(t, collected(t, c.analyzer().scopes_view(), 0, "global"@), ids)
            &&& forall|i: int| 0 <= i < ids.len() ==> (#[trigger] ids[i]).0 < t.nodes@.len()
            &&& out == splice(t.source@, spans_of(t, c.mappings_view(), c.analyzer().scopes_view(), ids), 0)
        }
}

/// Whether `out` is the text of `t` with each identifier renamed as the
/// pairs `mappings` say, through the canonical names of `c`.
pub open spec fn mapped_rendering(
    c: Canonicalizer,
    t: SyntaxTree,
    mappings: Seq<(String, String)>,
    out: Seq<char>,
) -> bool {
    exists|ids: Seq<IdView>|
        {
            &&& sorted_by_start(t, collected(t, c.analyzer().scopes_view(), 0, "global"@), ids)
            &&& forall|i: int| 0 <= i < ids.len() ==> (#[trigger] ids[i]).0 < t.nodes@.len()
            &&& out == splice(t.source@, mapped_spans(t, c, mappings, ids), 0)
        }
}

/// Whether `out` is a mapping file for the identifiers of `t` and their
/// canonical names under `c`.
pub open spec fn mapping_file_of(t: SyntaxTree, c: Canonicalizer, out: Seq<char>) -> bool {
    exists|ids: Seq<IdView>, gs: Seq<(Seq<char>, int, int)>, order: Seq<usize>|
        #[trigger] mapping_file_from(t, c, ids, gs, order, out)
}

/// Whether `out` is `text` laid out by the pretty printer: the formatting of
/// some parse of `text`.
pub open spec fn pretty_rendering(text: Seq<char>, out: Seq<char>) -> bool {
    exists|t: SyntaxTree| tree_from_records(t, text, js_parse(text)) && out == fmt(t, 0, 0, 2)
}

/// Whether every record's start row and column can be counted from one.
pub open spec fn starts_countable(rs: Seq<RawView>) -> bool {
    forall|i: int| 0 <= i < rs.len() ==> (#[trigger] rs[i]).5 < usize::MAX && rs[i].6 < usize::MAX
}

/// Whether `text` parses into a tree that the pretty printer can lay out:
/// its records describe a tree, of at most half as many nodes as the
/// machine's integers count.
pub open spec fn pretty_parse_ok(text: Seq<char>) -> bool {
    records_consistent(text, js_parse(text)) && js_parse(text).len() <= usize::MAX / 2
}

/// The scope analysis of tree `t`, from a fresh analyzer.
pub open spec fn analysis_of(t: SyntaxTree) -> AnalyzerView {
    walk(t, initial_state(), 0)
}

/// The canonical names that the analysis of `t` gives, from the global scope down.
pub open spec fn canonical_naming(t: SyntaxTree) -> Naming {
    let a = analysis_of(t);
    canon_scope(a.scopes, initial_naming(), 0, a.scopes.len() as nat).0
}

/// Whether `c` is the canonicalizer of the parse `t` of `source`: built on
/// the scope analysis of `t`, with the canonical names of that analysis.
pub open spec fn canonicalized_parse(source: Seq<char>, t: SyntaxTree, c: Canonicalizer) -> bool {
    &&& t.wf()
    &&& t.source@ == source
    &&& tree_from_records(t, source, js_parse(source))
    &&& c.wf()
    &&& c.analyzer().state() == analysis_of(t)
    &&& c.naming() == canonical_naming(t)
}

/// Canonical naming is deterministic: the canonical names of a program
/// depend on its text alone. Any two trees that the parse of `source`
/// describes are analysed into as many scopes and get the same canonical
/// naming.
pub proof fn lemma_canonical_naming_deterministic(t1: SyntaxTree, t2: SyntaxTree, source: Seq<char>)
    requires
        tree_from_records(t1, source, js_parse(source)),
        tree_from_records(t2, source, js_parse(source)),
        t1.nodes@.len() <= usize::MAX,
    ensures
        analysis_of(t1).scopes.len() == analysis_of(t2).scopes.len(),
        canonical_naming(t1) == canonical_naming(t2),
{
    crate::renaming::lemma_same_records_named_alike(t1, t2, source, js_parse(source), analysis_of(t1).scopes.len());
}

/// Canonicalization is deterministic: the same input always gives the same
/// canonical text. Two runs of parsing, scope analysis and canonical naming
/// on the same source render the same text.
pub proof fn lemma_canonical_text_deterministic(
    source: Seq<char>,
    t1: SyntaxTree,
    c1: Canonicalizer,
    out1: Seq<char>,
    t2: SyntaxTree,
    c2: Canonicalizer,
    out2: Seq<char>,
)
    requires
        canonicalized_parse(source, t1, c1),
        canonicalized_parse(source, t2, c2),
        canonical_rendering(c1, t1, out1),
        canonical_rendering(c2, t2, out2),
        t1.nodes@.len() <= usize::MAX,
    ensures
        out1 == out2,
{
    let rs = js_parse(source);
    crate::renaming::lemma_same_records_same_program(t1, t2, source, rs);
    crate::renaming::lemma_same_records_same_scopes(t1, t2, source, rs);
    lemma_canonical_naming_deterministic(t1, t2, source);
    assert(same_tree_values(t1, t2)) by {
        assert forall|i: int| 0 <= i < t1.nodes@.len() implies same_node_values(#[trigger] t1.nodes@[i], t2.nodes@[i]) by {
            assert(crate::renaming::same_node(t1.nodes@[i], t2.nodes@[i]));
            assert(t1.nodes@[i].start_row == rs[i].5 && t2.nodes@[i].start_row == rs[i].5);
            assert(t1.nodes@[i].start_col == rs[i].6 && t2.nodes@[i].start_col == rs[i].6);
        }
    }
    let a1 = c1.analyzer();
    let a2 = c2.analyzer();
    a1.lemma_state_scopes();
    a2.lemma_state_scopes();
    let s1 = a1.scopes_view();
    let s2 = a2.scopes_view();
    let w1 = analysis_of(t1).scopes;
    let w2 = analysis_of(t2).scopes;
    assert(w1 == s1.map_values(|s: Scope| scope_view(s)));
    assert(w2 == s2.map_values(|s: Scope| scope_view(s)));
    assert(same_scopes(s1, s2)) by {
        assert forall|k: int| 0 <= k < s1.len() implies same_scope_values(#[trigger] s1[k], s2[k]) by {
            assert(w1[k] == scope_view(s1[k]));
            assert(w2[k] == scope_view(s2[k]));
            assert forall|j: int| 0 <= j < s1[k].variables@.len() implies same_var_values(
                #[trigger] s1[k].variables@[j],
                s2[k].variables@[j],
            ) by {
                assert(w1[k].variables[j] == var_view(s1[k].variables@[j]));
                assert(w2[k].variables[j] == var_view(s2[k].variables@[j]));
            }
        }
        assert forall|i: int, j: int| 0 <= i < j < s1.len() implies #[trigger] s1[i].id@ != #[trigger] s1[j].id@ by {
            assert(w1[i] == scope_view(s1[i]) && w1[j] == scope_view(s1[j]));
        }
    }
    c1.lemma_naming_names();
    c2.lemma_naming_names();
    let ms1 = c1.mappings_view();
    let ms2 = c2.mappings_view();
    let ids1 = choose|ids: Seq<IdView>|
        {
            &&& sorted_by_start(t1, collected(t1, s1, 0, "global"@), ids)
            &&& forall|i: int| 0 <= i < ids.len() ==> (#[trigger] ids[i]).0 < t1.nodes@.len()
            &&& out1 == splice(t1.source@, spans_of(t1, ms1, s1, ids), 0)
        };
    let ids2 = choose|ids: Seq<IdView>|
        {
            &&& sorted_by_start(t2, collected(t2, s2, 0, "global"@), ids)
            &&& forall|i: int| 0 <= i < ids.len() ==> (#[trigger] ids[i]).0 < t2.nodes@.len()
            &&& out2 == splice(t2.source@, spans_of(t2, ms2, s2, ids), 0)
        };
    lemma_rendering_values(t1, t2, ms1, ms2, s1, s2, ids1, ids2);
}

/// Applying the mapping template of a program, unedited, renames each
/// identifier to its canonical name: the result is the canonical form.
pub proof fn lemma_template_roundtrip(
    t: SyntaxTree,
    c: Canonicalizer,
    template: Seq<char>,
    mappings: Seq<(String, String)>,
    out: Seq<char>,
)
    requires
        c.wf(),
        mapping_file_of(t, c, template),
        forall|k: Seq<char>| #[trigger] pair_lookup(mappings, k) == map_get(parsed_pairs(lines_of(template)), k),
    ensures
        mapped_rendering(c, t, mappings, out) <==> canonical_rendering(c, t, out),
{
    let (ids0, gs, order) = choose|ids: Seq<IdView>, gs: Seq<(Seq<char>, int, int)>, order: Seq<usize>|
        #[trigger] mapping_file_from(t, c, ids, gs, order, template);
    lemma_template_is_identity(t, c, ids0, gs, order, template);
    assert forall|k: Seq<char>| (#[trigger] pair_lookup(mappings, k) matches Some(v) ==> v == k) by {
        assert(pair_lookup(mappings, k) == map_get(parsed_pairs(lines_of(template)), k));
    }
    assert forall|ids: Seq<IdView>| #[trigger] mapped_spans(t, c, mappings, ids) == spans_of(
        t,
        c.mappings_view(),
        c.analyzer().scopes_view(),
        ids,
    ) by {
        lemma_identity_mapping_is_canonicalization(t, c, mappings, ids);
    }
    if mapped_rendering(c, t, mappings, out) {
        let ids = choose|ids: Seq<IdView>|
            {
                &&& sorted_by_start(t, collected(t, c.analyzer().scopes_view(), 0, "global"@), ids)
                &&& forall|i: int| 0 <= i < ids.len() ==> (#[trigger] ids[i]).0 < t.nodes@.len()
                &&& out == splice(t.source@, mapped_spans(t, c, mappings, ids), 0)
            };
        assert(mapped_spans(t, c, mappings, ids) == spans_of(t, c.mappings_view(), c.analyzer().scopes_view(), ids));
    }
    if canonical_rendering(c, t, out) {
        let ids = choose|ids: Seq<IdView>|
            {
                &&& sorted_by_start(t, collected(t, c.analyzer().scopes_view(), 0, "global"@), ids)
                &&& forall|i: int| 0 <= i < ids.len() ==> (#[trigger] ids[i]).0 < t.nodes@.len()
                &&& out == splice(t.source@, spans_of(t, c.mappings_view(), c.analyzer().scopes_view(), ids), 0)
            };
        assert(mapped_spans(t, c, mappings, ids) == spans_of(t, c.mappings_view(), c.analyzer().scopes_view(), ids));
    }
}

/// Parses `source`, analyzes its scopes and assigns canonical names.
fn analyze_and_canonicalize(source: &str) -> (r: Result<(SyntaxTree, Canonicalizer), RunError>)
    ensures
        r is Ok <==> records_consistent(source@, js_parse(source@)),
        r matches Ok(p) ==> canonicalized_parse(source@, p.0, p.1),
        r matches Err(e) ==> e == RunError::Parse(ParserError::MalformedTree),
{
    let mut parser = match JsParser::new() {
        Ok(p) => p,
        Err(e) => {
            return Err(RunError::Parse(e));
        },
    };
    let tree = match parser.parse(source) {
        Ok(t) => t,
        Err(e) => {
            return Err(RunError::Parse(e));
        },
    };
    let mut analyzer = ScopeAnalyzer::new();
    analyzer.analyze(&tree);
    proof {
        analyzer.lemma_state_scopes();
    }
    let mut canonicalizer = Canonicalizer::new(analyzer);
    match canonicalizer.canonicalize() {
        Ok(()) => {},
        Err(e) => {
            return Err(RunError::Canonicalize(e));
        },
    }
    assert(canonicalized_parse(source@, tree, canonicalizer));
    Ok((tree, canonicalizer))
}

/// Lays out `text` with the pretty printer.
fn pretty_text(text: &str) -> (r: Result<String, RunError>)
    ensures
        r is Ok <==> pretty_parse_ok(text@),
        r matches Ok(out) ==> pretty_rendering(text@, out@),
        r matches Err(e) ==> e == RunError::Parse(ParserError::MalformedTree) || e is TooLarge,
{
    let mut parser = match JsParser::new() {
        Ok(p) => p,
        Err(e) => {
            return Err(RunError::Parse(e));
        },
    };
    let tree = match parser.parse(text) {
        Ok(t) => t,
        Err(e) => {
            return Err(RunError::Parse(e));
        },
    };
    if tree.nodes.len() > usize::MAX / 2 {
        return Err(RunError::TooLarge);
    }
    let printer = PrettyPrinter::new();
    let out = printer.format(&tree);
    assert(tree_from_records(tree, text@, js_parse(text@)) && out@ == fmt(tree, 0, 0, 2));
    Ok(out)
}

/// The `canonicalize` command on the text of its input file: every
/// identifier of the program renamed to its canonical name, and laid out by
/// the pretty printer when `pretty` is set.
pub fn run_canonicalize(source: &str, pretty: bool) -> (r: Result<String, RunError>)
    ensures
        r is Ok ==> records_consistent(source@, js_parse(source@)),
        records_consistent(source@, js_parse(source@)) && !pretty ==> r is Ok,
        r matches Err(e) ==> (e == RunError::Parse(ParserError::MalformedTree) && !records_consistent(
            source@,
            js_parse(source@),
        )) || (pretty && (e == RunError::Parse(ParserError::MalformedTree) || e is TooLarge) && exists|
            t: SyntaxTree,
            c: Canonicalizer,
            canonical: Seq<char>,
        |
            canonicalized_parse(source@, t, c) && canonical_rendering(c, t, canonical) && !pretty_parse_ok(
                canonical,
            )),
        r matches Ok(out) ==> exists|t: SyntaxTree, c: Canonicalizer, canonical: Seq<char>|
            {
                &&& canonicalized_parse(source@, t, c)
                &&& canonical_rendering(c, t, canonical)
                &&& if pretty {
                    pretty_rendering(canonical, out@)
                } else {
                    out@ == canonical
                }
            },
{
    let (tree, canonicalizer) = match analyze_and_canonicalize(source) {
        Ok(p) => p,
        Err(e) => {
            return Err(e);
        },
    };
    let canonical = canonicalizer.apply_canonicalization(&tree);
    assert(canonical_rendering(canonicalizer, tree, canonical@));
    if pretty {
        let out = match pretty_text(canonical.as_str()) {
            Ok(o) => o,
            Err(e) => {
                return Err(e);
            },
        };
        assert(canonicalized_parse(source@, tree, canonicalizer));
        Ok(out)
    } else {
        Ok(canonical)
    }
}

/// The `generate-mapping` command on the text of its input file: the
/// mapping file that lists each canonical name of the program with the
/// span of its occurrences.
pub fn run_generate_mapping(source: &str) -> (r: Result<String, RunError>)
    ensures
        r is Ok <==> records_consistent(source@, js_parse(source@)) && starts_countable(js_parse(source@)),
        r matches Err(e) ==> e == RunError::Parse(ParserError::MalformedTree) || e is TooLarge,
        r matches Ok(out) ==> exists|t: SyntaxTree, c: Canonicalizer|
            #[trigger] canonicalized_parse(source@, t, c) && mapping_file_of(t, c, out@),
        r == Err::<String, RunError>(RunError::TooLarge) ==> exists|t: SyntaxTree|
            t.wf() && t.source@ == source@ && !positions_bounded(t),
{
    let (tree, canonicalizer) = match analyze_and_canonicalize(source) {
        Ok(p) => p,
        Err(e) => {
            return Err(e);
        },
    };
    proof {
        let rs = js_parse(source@);
        assert(positions_bounded(tree) == starts_countable(rs)) by {
            if positions_bounded(tree) {
                assert forall|i: int| 0 <= i < rs.len() implies (#[trigger] rs[i]).5 < usize::MAX && rs[i].6
                    < usize::MAX by {
                    assert(tree.nodes@[i].start_row == rs[i].5);
                }
            }
            if starts_countable(rs) {
                assert forall|i: int| 0 <= i < tree.nodes@.len() implies (#[trigger] tree.nodes@[i]).start_row
                    < usize::MAX && tree.nodes@[i].start_col < usize::MAX by {
                    assert(tree.nodes@[i].start_row == rs[i].5);
                }
            }
        }
    }
    if !positions_in_range(&tree) {
        assert(tree.wf() && tree.source@ == source@ && !positions_bounded(tree));
        return Err(RunError::TooLarge);
    }
    let generator = MappingGenerator::new(canonicalizer, string_from(source));
    let out = generator.generate_mapping_file(&tree);
    assert(generator.canonicalizer() == canonicalizer);
    assert(mapping_file_of(tree, canonicalizer, out@));
    assert(canonicalized_parse(source@, tree, canonicalizer));
    Ok(out)
}

/// The `apply-mapping` command on the texts of its input file and of its
/// mapping file: every identifier renamed as the mapping file says, and laid
/// out by the pretty printer when `pretty` is set.
pub fn run_apply_mapping(source: &str, mapping_content: &str, pretty: bool) -> (r: Result<String, RunError>)
    ensures
        r is Ok ==> records_consistent(source@, js_parse(source@)),
        records_consistent(source@, js_parse(source@)) && !pretty ==> r is Ok,
        r matches Err(e) ==> (e == RunError::Parse(ParserError::MalformedTree) && !records_consistent(
            source@,
            js_parse(source@),
        )) || (pretty && (e == RunError::Parse(ParserError::MalformedTree) || e is TooLarge) && exists|
            t: SyntaxTree,
            c: Canonicalizer,
            mappings: Seq<(String, String)>,
            renamed: Seq<char>,
        |
            canonicalized_parse(source@, t, c) && keys_unique(mappings) && (forall|k: Seq<char>|
                #[trigger] pair_lookup(mappings, k) == map_get(parsed_pairs(lines_of(mapping_content@)), k))
                && mapped_rendering(c, t, mappings, renamed) && !pretty_parse_ok(renamed)),
        r matches Ok(out) ==> exists|t: SyntaxTree, c: Canonicalizer, mappings: Seq<(String, String)>, renamed: Seq<char>|
            {
                &&& canonicalized_parse(source@, t, c)
                &&& keys_unique(mappings)
                &&& forall|k: Seq<char>| #[trigger] pair_lookup(mappings, k) == map_get(parsed_pairs(lines_of(mapping_content@)), k)
                &&& mapped_rendering(c, t, mappings, renamed)
                &&& if pretty {
                    pretty_rendering(renamed, out@)
                } else {
                    out@ == renamed
                }
            },
{
    let (tree, canonicalizer) = match analyze_and_canonicalize(source) {
        Ok(p) => p,
        Err(e) => {
            return Err(e);
        },
    };
    let mappings = MappingGenerator::parse_mapping_file(mapping_content);
    let generator = MappingGenerator::new(canonicalizer, string_from(source));
    let renamed = generator.apply_mappings(&tree, &mappings);
    assert(mapped_rendering(canonicalizer, tree, mappings@, renamed@));
    if pretty {
        let out = match pretty_text(renamed.as_str()) {
            Ok(o) => o,
            Err(e) => {
                return Err(e);
            },
        };
        assert(canonicalized_parse(source@, tree, canonicalizer));
        Ok(out)
    } else {
        Ok(renamed)
    }
}

/// An owned copy of `s`.
fn string_from(s: &str) -> (r: String)
    ensures
        r@ == s@,
{
    let mut r = String::new();
    crate::text::push_str(&mut r, s);
    r
}

} // verus!
