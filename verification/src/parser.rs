//! Parsing JavaScript with tree-sitter into the library's own syntax tree.
use vstd::prelude::*;
use crate::syntax::{RawNode, SyntaxTree, RawView, raw_view, raw_views, records_consistent, tree_from_records, lemma_records_of_raw};
use crate::text::string_of;

verus! {

#[verifier::external_type_specification]
#[verifier::external_body]
pub struct ExParser(tree_sitter::Parser);

#[verifier::external_type_specification]
#[verifier::external_body]
pub struct ExTree(tree_sitter::Tree);

/// `tree_sitter::Parser::new`: a parser with no language assigned.
#[verifier::external_body]
fn new_ts_parser() -> tree_sitter::Parser {
    tree_sitter::Parser::new()
}

#[verifier::external_type_specification]
#[verifier::external_body]
pub struct ExLanguage(tree_sitter::Language);

/// The JavaScript grammar, `tree_sitter_javascript::LANGUAGE` converted into
/// a `tree_sitter::Language`.
#[verifier::external_body]
fn javascript_language() -> tree_sitter::Language {
    tree_sitter_javascript::LANGUAGE.into()
}

/// `tree_sitter::Language::clone`: another handle on the same grammar. The
/// clone wraps the pointer that `ts_language_copy` returns, which is the
/// pointer it was given, so the clone is the same value.
#[verifier::external_body]
fn clone_language(language: &tree_sitter::Language) -> (r: tree_sitter::Language)
    ensures
        r == *language,
{
    language.clone()
}

/// `tree_sitter::Parser::set_language` with the bundled JavaScript grammar.
/// `set_language` accepts a grammar whose ABI version lies between
/// `MIN_COMPATIBLE_LANGUAGE_VERSION` (13) and `LANGUAGE_VERSION` (14); the
/// bundled grammar is generated with version 14, so the call succeeds.
#[verifier::external_body]
fn set_javascript_language(parser: &mut tree_sitter::Parser) -> (r: bool)
    ensures
        r,
{
    parser.set_language(&tree_sitter_javascript::LANGUAGE.into()).is_ok()
}

/// The nodes that `tree` holds, in preorder, each as the plain record of
/// its kind, the field it fills in its parent, its depth below the root, its
/// byte range and its start and end rows and columns.
pub uninterp spec fn tree_records(tree: tree_sitter::Tree) -> Seq<RawView>;

/// The nodes, in preorder, of the tree that tree-sitter with the bundled
/// JavaScript grammar gives for the text `source`.
pub uninterp spec fn js_parse(source: Seq<char>) -> Seq<RawView>;

/// `tree_sitter::Parser::parse` of the whole of `source`, with no earlier
/// tree, by the parser of `p`. That parser has the bundled JavaScript grammar
/// (`JsParser::new`, the only constructor, sets it and nothing changes it)
/// and no timeout, cancellation flag or progress callback, so by `parse`'s
/// documentation it returns a tree. The tree depends on `source` alone; what
/// it holds is named `js_parse(source)`.
#[verifier::external_body]
fn ts_parse(p: &mut JsParser, source: &str) -> (r: Option<tree_sitter::Tree>)
    ensures
        r is Some,
        tree_records(r->0) == js_parse(source@),
{
    p.parser.parse(source, None)
}

/// The number of nodes of `tree`: `tree_sitter::Node::descendant_count` of
/// its root, which counts the root itself.
#[verifier::external_body]
fn ts_node_count(tree: &tree_sitter::Tree) -> (n: usize)
    ensures
        n == tree_records(*tree).len(),
{
    tree.root_node().descendant_count()
}

/// The record of node `i` of `tree` in preorder: a `tree_sitter::TreeCursor`
/// from the root moved by `goto_descendant(i)`, read for its node's kind,
/// field name, depth (counted from the root), byte range and positions.
#[verifier::external_body]
fn ts_record(tree: &tree_sitter::Tree, i: usize) -> (r: RawNode)
    requires
        i < tree_records(*tree).len(),
    ensures
        raw_view(r) == tree_records(*tree)[i as int],
{
    let mut c = tree.walk();
    c.goto_descendant(i);
    let n = c.node();
    let (s, e) = (n.start_position(), n.end_position());
    let field = c.field_name().map(|f| f.to_string());
    RawNode { kind: n.kind().to_string(), field, depth: c.depth() as usize, start_byte: n.start_byte(),
        end_byte: n.end_byte(), start_row: s.row, start_col: s.column, end_row: e.row, end_col: e.column }
}

/// Why parsing failed.
#[derive(Debug, Clone, Copy, PartialEq, Eq, Structural)]
pub enum ParserError {
    /// The JavaScript grammar could not be loaded into the parser.
    LanguageUnavailable,
    /// The parser returned no tree.
    ParseFailed,
    /// The parser's nodes did not describe a tree over the text.
    MalformedTree,
}

/// A JavaScript parser.
pub struct JsParser {
    parser: tree_sitter::Parser,
    language: tree_sitter::Language,
}

impl JsParser {
    /// A parser for JavaScript. The bundled grammar is always accepted, so
    /// this succeeds.
    pub fn new() -> (r: Result<JsParser, ParserError>)
        ensures
            r is Ok,
    {
        let language = javascript_language();
        let mut parser = new_ts_parser();
        if set_javascript_language(&mut parser) {
            Ok(JsParser { parser, language })
        } else {
            Err(ParserError::LanguageUnavailable)
        }
    }

    /// Parses `source`: the tree that the records of tree-sitter's parse
    /// describe, or `MalformedTree` exactly when they describe no tree over
    /// `source`.
    pub fn parse(&mut self, source: &str) -> (r: Result<SyntaxTree, ParserError>)
        ensures
            r is Ok <==> records_consistent(source@, js_parse(source@)),
            r matches Ok(t) ==> tree_from_records(t, source@, js_parse(source@)),
            r is Err ==> r == Err::<SyntaxTree, ParserError>(ParserError::MalformedTree),
    {
        let tree = match ts_parse(self, source) {
            Some(t) => t,
            None => {
                return Err(ParserError::ParseFailed);
            },
        };
        let raw = preorder_records(&tree);
        let ghost rv = raw@;
        let built = SyntaxTree::from_preorder(source, raw);
        proof {
            if built is Some {
                lemma_records_of_raw(source@, rv, built->0);
            } else {
                lemma_records_of_raw(source@, rv, arbitrary());
            }
        }
        match built {
            Some(t) => Ok(t),
            None => Err(ParserError::MalformedTree),
        }
    }
}

impl JsParser {
    /// The grammar this parser was built with.
    pub closed spec fn grammar(&self) -> tree_sitter::Language {
        self.language
    }

    /// The grammar this parser was built with.
    pub fn get_language(&self) -> (r: tree_sitter::Language)
        ensures
            r == self.grammar(),
    {
        clone_language(&self.language)
    }
}

/// Reads every node of `tree` in preorder, with its depth and positions.
fn preorder_records(tree: &tree_sitter::Tree) -> (v: Vec<RawNode>)
    ensures
        raw_views(v@) == tree_records(*tree),
{
    let count = ts_node_count(tree);
    let mut v: Vec<RawNode> = Vec::new();
    for i in 0..count
        invariant
            count == tree_records(*tree).len(),
            v@.len() == i,
            forall|j: int| 0 <= j < i ==> raw_view(#[trigger] v@[j]) == tree_records(*tree)[j],
    {
        v.push(ts_record(tree, i));
    }
    assert(raw_views(v@) =~= tree_records(*tree));
    v
}

/// A row and a column (in bytes) of the source text.
#[derive(Debug, Clone, Copy, PartialEq, Eq, Structural)]
pub struct Point {
    pub row: usize,
    pub column: usize,
}

/// One capture of the identifier patterns: the node, its text, the capture
/// name and the node's start and end positions.
#[derive(Debug, Clone)]
pub struct IdentifierMatch {
    pub node: usize,
    pub text: String,
    pub capture_type: String,
    pub start_position: Point,
    pub end_position: Point,
}

/// Finds the identifiers of a JavaScript syntax tree by these patterns, each
/// capture named after its role:
/// a function declaration's or expression's `name` identifier (`function-name`),
/// an arrow function (`arrow-function`), a variable declarator's `name`
/// identifier (`variable-name`), an identifier directly inside formal
/// parameters (`parameter-name`), any identifier (`identifier`), and a class
/// declaration's `name` identifier (`class-name`).
pub struct IdentifierExtractor {
    language: tree_sitter::Language,
}

/// The capture of pattern "(`kind` name: (identifier) @`cap`)" at node `n`.
pub open spec fn named_capture(t: SyntaxTree, n: int, kind: Seq<char>, cap: Seq<char>) -> Seq<(usize, Seq<char>)> {
    if t.kind(n) == kind {
        match t.child_by_field(n, "name"@) {
            Some(c) => if t.kind(c as int) == "identifier"@ {
                seq![(c, cap)]
            } else {
                seq![]
            },
            None => seq![],
        }
    } else {
        seq![]
    }
}

/// The identifier children of node `n` from the `k`-th on.
pub open spec fn identifier_children(t: SyntaxTree, n: int, k: int) -> Seq<(usize, Seq<char>)>
    decreases t.nodes@[n].children@.len() - k,
{
    if k < 0 || k >= t.nodes@[n].children@.len() {
        seq![]
    } else {
        let c = t.nodes@[n].children@[k];
        (if t.kind(c as int) == "identifier"@ {
            seq![(c, "parameter-name"@)]
        } else {
            seq![]
        }) + identifier_children(t, n, k + 1)
    }
}

/// The captures of the patterns whose outermost node is `n`, in pattern order.
pub open spec fn node_captures(t: SyntaxTree, n: int) -> Seq<(usize, Seq<char>)> {
    named_capture(t, n, "function_declaration"@, "function-name"@) + named_capture(
        t,
        n,
        "function_expression"@,
        "function-name"@,
    ) + (if t.kind(n) == "arrow_function"@ {
        seq![(n as usize, "arrow-function"@)]
    } else {
        seq![]
    }) + named_capture(t, n, "variable_declarator"@, "variable-name"@) + (if t.kind(n)
        == "formal_parameters"@ {
        identifier_children(t, n, 0)
    } else {
        seq![]
    }) + (if t.kind(n) == "identifier"@ {
        seq![(n as usize, "identifier"@)]
    } else {
        seq![]
    }) + named_capture(t, n, "class_declaration"@, "class-name"@)
}

/// All captures in the subtree at `n`, by preorder of the pattern's outermost node.
pub open spec fn subtree_captures(t: SyntaxTree, n: int) -> Seq<(usize, Seq<char>)>
    decreases t.nodes@.len() - n, 1int, 0int,
{
    if !(0 <= n < t.nodes@.len()) {
        seq![]
    } else {
        node_captures(t, n) + children_captures(t, n, 0)
    }
}

pub open spec fn children_captures(t: SyntaxTree, n: int, k: int) -> Seq<(usize, Seq<char>)>
    decreases t.nodes@.len() - n, 0int, t.nodes@[n].children@.len() - k,
{
    if !(0 <= n < t.nodes@.len()) || k < 0 || k >= t.nodes@[n].children@.len() {
        seq![]
    } else {
        let c = t.nodes@[n].children@[k] as int;
        (if n < c < t.nodes@.len() {
            subtree_captures(t, c)
        } else {
            seq![]
        }) + children_captures(t, n, k + 1)
    }
}

/// Whether `m` reports capture `cap` of tree `t`: its node, the node's text
/// and positions, and the capture name.
pub open spec fn reports(t: SyntaxTree, m: IdentifierMatch, cap: (usize, Seq<char>)) -> bool {
    &&& m.node == cap.0
    &&& m.capture_type@ == cap.1
    &&& m.text@ == t.text(cap.0 as int)
    &&& m.start_position == Point { row: t.nodes@[cap.0 as int].start_row, column: t.nodes@[cap.0 as int].start_col }
    &&& m.end_position == Point { row: t.nodes@[cap.0 as int].end_row, column: t.nodes@[cap.0 as int].end_col }
}

/// Whether `after` is `before` followed by one match reporting each capture of `caps`.
pub open spec fn extends_reports(
    t: SyntaxTree,
    before: Seq<IdentifierMatch>,
    after: Seq<IdentifierMatch>,
    caps: Seq<(usize, Seq<char>)>,
) -> bool {
    &&& after.len() == before.len() + caps.len()
    &&& after.take(before.len() as int) == before
    &&& forall|k: int| 0 <= k < caps.len() ==> reports(t, #[trigger] after[before.len() + k], caps[k])
}

proof fn lemma_extends_trans(
    t: SyntaxTree,
    a: Seq<IdentifierMatch>,
    b: Seq<IdentifierMatch>,
    c: Seq<IdentifierMatch>,
    c1: Seq<(usize, Seq<char>)>,
    c2: Seq<(usize, Seq<char>)>,
)
    requires
        extends_reports(t, a, b, c1),
        extends_reports(t, b, c, c2),
    ensures
        extends_reports(t, a, c, c1 + c2),
{
    assert(c.take(a.len() as int) =~= a) by {
        assert forall|i: int| 0 <= i < a.len() implies c[i] == a[i] by {
            assert(c.take(b.len() as int)[i] == b[i]);
            assert(b.take(a.len() as int)[i] == a[i]);
        }
    }
    assert forall|k: int| 0 <= k < (c1 + c2).len() implies reports(t, #[trigger] c[a.len() + k], (c1 + c2)[k]) by {
        if k < c1.len() {
            assert(c.take(b.len() as int)[a.len() + k] == b[a.len() + k]);
            assert(reports(t, b[a.len() + k], c1[k]));
        } else {
            let k2 = k - c1.len();
            assert(reports(t, c[b.len() + k2], c2[k2]));
        }
    }
}

proof fn lemma_extends_none(t: SyntaxTree, a: Seq<IdentifierMatch>)
    ensures
        extends_reports(t, a, a, seq![]),
{
    assert(a.take(a.len() as int) =~= a);
}

fn push_match(t: &SyntaxTree, c: usize, cap: &str, out: &mut Vec<IdentifierMatch>)
    requires
        t.wf(),
        c < t.nodes@.len(),
    ensures
        extends_reports(*t, old(out)@, final(out)@, seq![(c, cap@)]),
{
    let m = IdentifierMatch {
        node: c,
        text: t.text_of(c),
        capture_type: string_of(cap),
        start_position: Point { row: t.nodes[c].start_row, column: t.nodes[c].start_col },
        end_position: Point { row: t.nodes[c].end_row, column: t.nodes[c].end_col },
    };
    out.push(m);
    assert(out@.take(old(out)@.len() as int) =~= old(out)@);
    assert(out@[old(out)@.len() + 0int] == m);
}

impl IdentifierExtractor {
    /// The grammar of the trees this extractor reads.
    pub closed spec fn grammar(&self) -> tree_sitter::Language {
        self.language
    }

    /// An extractor for trees of `language`.
    pub fn new(language: tree_sitter::Language) -> (r: IdentifierExtractor)
        ensures
            r.grammar() == language,
    {
        IdentifierExtractor { language }
    }

    fn named(&self, t: &SyntaxTree, n: usize, kind: &str, cap: &str, out: &mut Vec<IdentifierMatch>)
        requires
            t.wf(),
            n < t.nodes@.len(),
        ensures
            extends_reports(*t, old(out)@, final(out)@, named_capture(*t, n as int, kind@, cap@)),
    {
        proof {
            lemma_extends_none(*t, out@);
        }
        if t.kind_is(n, kind) {
            match t.child_by_field_name(n, "name") {
                Some(c) => {
                    if t.kind_is(c, "identifier") {
                        push_match(t, c, cap, out);
                    }
                },
                None => {},
            }
        }
    }

    fn parameter_names(&self, t: &SyntaxTree, n: usize, out: &mut Vec<IdentifierMatch>)
        requires
            t.wf(),
            n < t.nodes@.len(),
        ensures
            extends_reports(*t, old(out)@, final(out)@, identifier_children(*t, n as int, 0)),
    {
        let nc = t.child_count(n);
        let mut k: usize = 0;
        proof {
            lemma_extends_none(*t, out@);
        }
        while k < nc
            invariant
                t.wf(),
                n < t.nodes@.len(),
                nc == t.nodes@[n as int].children@.len(),
                k <= nc,
                extends_reports(
                    *t,
                    old(out)@,
                    out@,
                    identifier_children(*t, n as int, 0).take(
                        identifier_children(*t, n as int, 0).len() - identifier_children(*t, n as int, k as int).len(),
                    ),
                ),
                identifier_children(*t, n as int, 0) == identifier_children(*t, n as int, 0).take(
                    identifier_children(*t, n as int, 0).len() - identifier_children(*t, n as int, k as int).len(),
                ) + identifier_children(*t, n as int, k as int),
            decreases nc - k,
        {
            let ghost all = identifier_children(*t, n as int, 0);
            let ghost rest = identifier_children(*t, n as int, k as int);
            let ghost rest2 = identifier_children(*t, n as int, k + 1);
            let ghost done = all.take(all.len() - rest.len());
            let c = t.nodes[n].children[k];
            let ghost before = out@;
            if t.kind_is(c, "identifier") {
                push_match(t, c, "parameter-name", out);
                proof {
                    assert(rest == seq![(c, "parameter-name"@)] + rest2);
                    lemma_extends_trans(*t, old(out)@, before, out@, done, seq![(c, "parameter-name"@)]);
                    assert(all.take(all.len() - rest2.len()) =~= done + seq![(c, "parameter-name"@)]);
                    assert(all =~= all.take(all.len() - rest2.len()) + rest2);
                }
            } else {
                proof {
                    assert(rest =~= rest2);
                }
            }
            k = k + 1;
        }
        proof {
            let all = identifier_children(*t, n as int, 0);
            assert(identifier_children(*t, n as int, k as int).len() == 0);
            assert(all.take(all.len() as int) =~= all);
        }
    }

    fn captures_at(&self, t: &SyntaxTree, n: usize, out: &mut Vec<IdentifierMatch>)
        requires
            t.wf(),
            n < t.nodes@.len(),
        ensures
            extends_reports(*t, old(out)@, final(out)@, node_captures(*t, n as int)),
    {
        let ghost s0 = out@;
        self.named(t, n, "function_declaration", "function-name", out);
        let ghost s1 = out@;
        let ghost c1 = named_capture(*t, n as int, "function_declaration"@, "function-name"@);
        self.named(t, n, "function_expression", "function-name", out);
        let ghost s2 = out@;
        let ghost c2 = named_capture(*t, n as int, "function_expression"@, "function-name"@);
        proof {
            lemma_extends_trans(*t, s0, s1, s2, c1, c2);
            lemma_extends_none(*t, out@);
        }
        if t.kind_is(n, "arrow_function") {
            push_match(t, n, "arrow-function", out);
        }
        let ghost s3 = out@;
        let ghost c3: Seq<(usize, Seq<char>)> = if t.kind(n as int) == "arrow_function"@ {
            seq![(n, "arrow-function"@)]
        } else {
            seq![]
        };
        proof {
            lemma_extends_trans(*t, s0, s2, s3, c1 + c2, c3);
        }
        self.named(t, n, "variable_declarator", "variable-name", out);
        let ghost s4 = out@;
        let ghost c4 = named_capture(*t, n as int, "variable_declarator"@, "variable-name"@);
        proof {
            lemma_extends_trans(*t, s0, s3, s4, c1 + c2 + c3, c4);
            lemma_extends_none(*t, out@);
        }
        if t.kind_is(n, "formal_parameters") {
            self.parameter_names(t, n, out);
        }
        let ghost s5 = out@;
        let ghost c5: Seq<(usize, Seq<char>)> = if t.kind(n as int) == "formal_parameters"@ {
            identifier_children(*t, n as int, 0)
        } else {
            seq![]
        };
        proof {
            lemma_extends_trans(*t, s0, s4, s5, c1 + c2 + c3 + c4, c5);
            lemma_extends_none(*t, out@);
        }
        if t.kind_is(n, "identifier") {
            push_match(t, n, "identifier", out);
        }
        let ghost s6 = out@;
        let ghost c6: Seq<(usize, Seq<char>)> = if t.kind(n as int) == "identifier"@ {
            seq![(n, "identifier"@)]
        } else {
            seq![]
        };
        proof {
            lemma_extends_trans(*t, s0, s5, s6, c1 + c2 + c3 + c4 + c5, c6);
        }
        self.named(t, n, "class_declaration", "class-name", out);
        proof {
            let c7 = named_capture(*t, n as int, "class_declaration"@, "class-name"@);
            lemma_extends_trans(*t, s0, s6, out@, c1 + c2 + c3 + c4 + c5 + c6, c7);
            assert(c1 + c2 + c3 + c4 + c5 + c6 + c7 =~= node_captures(*t, n as int));
        }
    }

    fn captures_in(&self, t: &SyntaxTree, n: usize, out: &mut Vec<IdentifierMatch>)
        requires
            t.wf(),
            n < t.nodes@.len(),
        ensures
            extends_reports(*t, old(out)@, final(out)@, subtree_captures(*t, n as int)),
        decreases t.nodes@.len() - n,
    {
        let ghost s0 = out@;
        self.captures_at(t, n, out);
        let ghost s1 = out@;
        let nc = t.child_count(n);
        let mut k: usize = 0;
        assert(extends_reports(*t, s0, out@, node_captures(*t, n as int)) && node_captures(*t, n as int)
            + children_captures(*t, n as int, 0) == node_captures(*t, n as int) + children_captures(*t, n as int, 0));
        while k < nc
            invariant
                t.wf(),
                n < t.nodes@.len(),
                nc == t.nodes@[n as int].children@.len(),
                k <= nc,
                exists|done: Seq<(usize, Seq<char>)>|
                    extends_reports(*t, s0, out@, done) && done + children_captures(*t, n as int, k as int)
                        == node_captures(*t, n as int) + children_captures(*t, n as int, 0),
            decreases nc - k,
        {
            let ghost done = choose|done: Seq<(usize, Seq<char>)>|
                extends_reports(*t, s0, out@, done) && done + children_captures(*t, n as int, k as int)
                    == node_captures(*t, n as int) + children_captures(*t, n as int, 0);
            let c = t.nodes[n].children[k];
            let ghost before = out@;
            assert(n < c < t.nodes@.len());
            self.captures_in(t, c, out);
            proof {
                let sub = subtree_captures(*t, c as int);
                lemma_extends_trans(*t, s0, before, out@, done, sub);
                assert(children_captures(*t, n as int, k as int) == sub + children_captures(*t, n as int, k + 1));
                assert((done + sub) + children_captures(*t, n as int, k + 1) =~= done + children_captures(
                    *t,
                    n as int,
                    k as int,
                ));
            }
            k = k + 1;
        }
        proof {
            let done = choose|done: Seq<(usize, Seq<char>)>|
                extends_reports(*t, s0, out@, done) && done + children_captures(*t, n as int, k as int)
                    == node_captures(*t, n as int) + children_captures(*t, n as int, 0);
            assert(children_captures(*t, n as int, k as int) == Seq::<(usize, Seq<char>)>::empty());
            assert(done =~= done + children_captures(*t, n as int, k as int));
        }
    }

    /// The captures of the patterns in the subtree at `root_node`, in
    /// preorder of each pattern's outermost node and, at one node, in pattern
    /// order.
    pub fn extract_identifiers(&self, t: &SyntaxTree, root_node: usize) -> (r: Vec<IdentifierMatch>)
        requires
            t.wf(),
            root_node < t.nodes@.len(),
        ensures
            extends_reports(*t, seq![], r@, subtree_captures(*t, root_node as int)),
    {
        let mut out: Vec<IdentifierMatch> = Vec::new();
        self.captures_in(t, root_node, &mut out);
        out
    }
}

} // verus!
