//! Re-printing a JavaScript syntax tree with one statement per line and
//! two-space indentation for the constructs it knows; any other node is
//! printed as its source text.
use vstd::prelude::*;
use crate::syntax::SyntaxTree;
use crate::text::{push_char, push_str, push_range};

verus! {

pub struct PrettyPrinter {
    indent_size: usize,
}

/// `n` spaces.
pub open spec fn spaces(n: nat) -> Seq<char> {
    Seq::new(n, |i: int| ' ')
}

/// The node text for an optional node.
pub open spec fn opt_text(t: SyntaxTree, c: Option<usize>) -> Seq<char> {
    match c {
        Some(c) => t.text(c as int),
        None => seq![],
    }
}

/// The kind of the `k`-th child of `n`, if there is one.
pub open spec fn child_kind(t: SyntaxTree, n: int, k: int) -> Option<Seq<char>> {
    match t.child_at(n, k) {
        Some(c) => Some(t.kind(c as int)),
        None => None,
    }
}

/// The formatted text of node `n` at nesting `depth`, indenting by
/// `indent` spaces per level.
pub open spec fn fmt(t: SyntaxTree, n: int, depth: nat, indent: nat) -> Seq<char>
    decreases t.nodes@.len() - n, 2int, 0int,
{
    if !(0 <= n < t.nodes@.len()) {
        seq![]
    } else {
        let k = t.kind(n);
        let count = t.nodes@[n].children@.len();
        if k == "program"@ {
            program_children(t, n, 0, depth, indent)
        } else if k == "function_declaration"@ {
            spaces(depth * indent) + "function "@ + opt_text(t, t.child_by_field(n, "name"@)) + opt_fmt(
                t,
                n,
                t.child_by_field(n, "parameters"@),
                depth,
                indent,
            ) + " "@ + opt_fmt(t, n, t.child_by_field(n, "body"@), depth, indent)
        } else if k == "formal_parameters"@ {
            "("@ + parameter_list(t, n, 0, true) + ")"@
        } else if k == "statement_block"@ {
            "{\n"@ + block_children(t, n, 0, depth + 1, indent) + spaces(depth * indent) + "}"@
        } else if k == "variable_declaration"@ {
            spaces(depth * indent) + (if count > 0 {
                t.kind(t.nodes@[n].children@[0] as int) + " "@
            } else {
                seq![]
            }) + declarator_children(t, n, 0, depth, indent) + ";"@
        } else if k == "variable_declarator"@ {
            opt_text(t, t.child_by_field(n, "name"@)) + (match t.child_by_field(n, "value"@) {
                Some(v) => " = "@ + opt_fmt(t, n, Some(v), depth, indent),
                None => seq![],
            })
        } else if k == "return_statement"@ {
            spaces(depth * indent) + "return"@ + (if count > 1 {
                " "@ + return_children(t, n, 1, depth, indent)
            } else {
                seq![]
            }) + ";"@
        } else if k == "binary_expression"@ {
            opt_fmt(t, n, t.child_by_field(n, "left"@), depth, indent) + (match t.child_by_field(n, "operator"@) {
                Some(o) => " "@ + t.text(o as int) + " "@,
                None => seq![],
            }) + opt_fmt(t, n, t.child_by_field(n, "right"@), depth, indent)
        } else {
            t.text(n)
        }
    }
}

/// The formatted text of an optional child `c` of `n`.
pub open spec fn opt_fmt(t: SyntaxTree, n: int, c: Option<usize>, depth: nat, indent: nat) -> Seq<char>
    decreases t.nodes@.len() - n, 1int, 0int,
{
    match c {
        Some(c) => if 0 <= n < c < t.nodes@.len() {
            fmt(t, c as int, depth, indent)
        } else {
            seq![]
        },
        None => seq![],
    }
}

/// Children `k..` of a program: each formatted, separated by newlines.
pub open spec fn program_children(t: SyntaxTree, n: int, k: int, depth: nat, indent: nat) -> Seq<char>
    decreases t.nodes@.len() - n, 1int, t.nodes@[n].children@.len() - k,
{
    let count = t.nodes@[n].children@.len();
    if !(0 <= n < t.nodes@.len()) || k < 0 || k >= count {
        seq![]
    } else {
        opt_fmt(t, n, Some(t.nodes@[n].children@[k]), depth, indent) + (if k < count - 1 {
            "\n"@
        } else {
            seq![]
        }) + program_children(t, n, k + 1, depth, indent)
    }
}

/// Children `k..` of a block other than its braces, each formatted and
/// followed by a newline.
pub open spec fn block_children(t: SyntaxTree, n: int, k: int, depth: nat, indent: nat) -> Seq<char>
    decreases t.nodes@.len() - n, 1int, t.nodes@[n].children@.len() - k,
{
    if !(0 <= n < t.nodes@.len()) || k < 0 || k >= t.nodes@[n].children@.len() {
        seq![]
    } else {
        let c = t.nodes@[n].children@[k];
        (if t.kind(c as int) != "{"@ && t.kind(c as int) != "}"@ {
            opt_fmt(t, n, Some(c), depth, indent) + "\n"@
        } else {
            seq![]
        }) + block_children(t, n, k + 1, depth, indent)
    }
}

/// The declarators among children `k..`, each followed by ", " when the
/// next child is a declarator too.
pub open spec fn declarator_children(t: SyntaxTree, n: int, k: int, depth: nat, indent: nat) -> Seq<char>
    decreases t.nodes@.len() - n, 1int, t.nodes@[n].children@.len() - k,
{
    let count = t.nodes@[n].children@.len();
    if !(0 <= n < t.nodes@.len()) || k < 0 || k >= count {
        seq![]
    } else {
        let c = t.nodes@[n].children@[k];
        (if t.kind(c as int) == "variable_declarator"@ {
            opt_fmt(t, n, Some(c), depth, indent) + (if k < count - 1 && child_kind(t, n, k + 1) == Some(
                "variable_declarator"@,
            ) {
                ", "@
            } else {
                seq![]
            })
        } else {
            seq![]
        }) + declarator_children(t, n, k + 1, depth, indent)
    }
}

/// Children `k..` of a return statement other than `;`, formatted.
pub open spec fn return_children(t: SyntaxTree, n: int, k: int, depth: nat, indent: nat) -> Seq<char>
    decreases t.nodes@.len() - n, 1int, t.nodes@[n].children@.len() - k,
{
    if !(0 <= n < t.nodes@.len()) || k < 0 || k >= t.nodes@[n].children@.len() {
        seq![]
    } else {
        let c = t.nodes@[n].children@[k];
        (if t.kind(c as int) != ";"@ {
            opt_fmt(t, n, Some(c), depth, indent)
        } else {
            seq![]
        }) + return_children(t, n, k + 1, depth, indent)
    }
}

/// The identifier children `k..` of a parameter list, separated by ", ";
/// `first` tells whether none was written yet.
pub open spec fn parameter_list(t: SyntaxTree, n: int, k: int, first: bool) -> Seq<char>
    decreases t.nodes@[n].children@.len() - k,
{
    if k < 0 || k >= t.nodes@[n].children@.len() {
        seq![]
    } else {
        let c = t.nodes@[n].children@[k];
        if t.kind(c as int) == "identifier"@ {
            (if first {
                seq![]
            } else {
                ", "@
            }) + t.text(c as int) + parameter_list(t, n, k + 1, false)
        } else {
            parameter_list(t, n, k + 1, first)
        }
    }
}

/// The node kinds the printer distinguishes have pairwise different names.
proof fn lemma_kind_names()
    ensures
        "program"@.len() == 7,
        "function_declaration"@.len() == 20 && "function_declaration"@[0] == 'f',
        "formal_parameters"@.len() == 17 && "formal_parameters"@[0] == 'f',
        "statement_block"@.len() == 15,
        "variable_declaration"@.len() == 20 && "variable_declaration"@[0] == 'v',
        "variable_declarator"@.len() == 19,
        "return_statement"@.len() == 16,
        "binary_expression"@.len() == 17 && "binary_expression"@[0] == 'b',
{
    reveal_strlit("program");
    reveal_strlit("function_declaration");
    reveal_strlit("formal_parameters");
    reveal_strlit("statement_block");
    reveal_strlit("variable_declaration");
    reveal_strlit("variable_declarator");
    reveal_strlit("return_statement");
    reveal_strlit("binary_expression");
}

/// `parts` with `sep` between each two consecutive ones.
pub open spec fn joined(parts: Seq<Seq<char>>, sep: Seq<char>) -> Seq<char>
    decreases parts.len(),
{
    if parts.len() == 0 {
        seq![]
    } else if parts.len() == 1 {
        parts[0]
    } else {
        parts[0] + sep + joined(parts.drop_first(), sep)
    }
}

/// The formatted children `k..` of `n`.
pub open spec fn formatted_children(t: SyntaxTree, n: int, k: int, depth: nat, indent: nat) -> Seq<Seq<char>> {
    Seq::new(
        (t.nodes@[n].children@.len() - k) as nat,
        |j: int| fmt(t, t.nodes@[n].children@[k + j] as int, depth, indent),
    )
}

/// Whether every child of `n` from the `k`-th on is a declarator.
pub open spec fn declarators_from(t: SyntaxTree, n: int, k: int) -> bool {
    forall|j: int|
        k <= j < t.nodes@[n].children@.len() ==> t.kind(#[trigger] t.nodes@[n].children@[j] as int)
            == "variable_declarator"@
}

proof fn lemma_declarators_joined(t: SyntaxTree, n: int, k: int, depth: nat, indent: nat)
    requires
        t.wf(),
        0 <= n < t.nodes@.len(),
        1 <= k <= t.nodes@[n].children@.len(),
        declarators_from(t, n, k),
    ensures
        declarator_children(t, n, k, depth, indent) == joined(formatted_children(t, n, k, depth, indent), ", "@),
    decreases t.nodes@[n].children@.len() - k,
{
    let count = t.nodes@[n].children@.len();
    let parts = formatted_children(t, n, k, depth, indent);
    if k < count {
        let c = t.nodes@[n].children@[k];
        assert(n < c < t.nodes@.len());
        assert(t.kind(c as int) == "variable_declarator"@);
        lemma_declarators_joined(t, n, k + 1, depth, indent);
        assert(parts.drop_first() =~= formatted_children(t, n, k + 1, depth, indent));
        assert(opt_fmt(t, n, Some(c), depth, indent) == fmt(t, c as int, depth, indent));
        assert(parts[0] == fmt(t, c as int, depth, indent));
        let rest = declarator_children(t, n, k + 1, depth, indent);
        if k < count - 1 {
            let c2 = t.nodes@[n].children@[k + 1];
            assert(t.kind(c2 as int) == "variable_declarator"@);
            assert(child_kind(t, n, k + 1) == Some("variable_declarator"@));
            assert(parts.len() > 1);
            assert(declarator_children(t, n, k, depth, indent) == fmt(t, c as int, depth, indent) + ", "@ + rest);
        } else {
            assert(formatted_children(t, n, k + 1, depth, indent).len() == 0);
            assert(rest == Seq::<char>::empty());
            assert(parts.len() == 1);
            assert(declarator_children(t, n, k, depth, indent) =~= fmt(t, c as int, depth, indent));
        }
    } else {
        assert(parts.len() == 0);
    }
}

/// A declaration whose children after its keyword are all declarators is
/// printed as the indentation, the keyword and a space, the formatted
/// declarators separated by `, `, and `;`.
pub proof fn lemma_declaration_joins_declarators(t: SyntaxTree, n: int, depth: nat, indent: nat)
    requires
        t.wf(),
        0 <= n < t.nodes@.len(),
        t.kind(n) == "variable_declaration"@,
        t.nodes@[n].children@.len() >= 1,
        t.kind(t.nodes@[n].children@[0] as int) != "variable_declarator"@,
        declarators_from(t, n, 1),
    ensures
        fmt(t, n, depth, indent) == spaces(depth * indent) + t.kind(t.nodes@[n].children@[0] as int) + " "@
            + joined(formatted_children(t, n, 1, depth, indent), ", "@) + ";"@,
{
    lemma_kind_names();
    lemma_declarators_joined(t, n, 1, depth, indent);
    assert(declarator_children(t, n, 0, depth, indent) == declarator_children(t, n, 1, depth, indent));
}

proof fn lemma_fmt_function(t: SyntaxTree, n: int, d: nat, ind: nat)
    requires
        0 <= n < t.nodes@.len(),
        t.kind(n) == "function_declaration"@,
    ensures
        fmt(t, n, d, ind) == spaces(d * ind) + "function "@ + opt_text(t, t.child_by_field(n, "name"@)) + opt_fmt(
            t,
            n,
            t.child_by_field(n, "parameters"@),
            d,
            ind,
        ) + " "@ + opt_fmt(t, n, t.child_by_field(n, "body"@), d, ind),
{
    lemma_kind_names();
}

impl PrettyPrinter {
    /// The printer's indentation is two spaces per level.
    pub closed spec fn wf(&self) -> bool {
        self.indent_size == 2
    }

    pub closed spec fn indent(&self) -> nat {
        self.indent_size as nat
    }

    pub fn new() -> (r: PrettyPrinter)
        ensures
            r.wf(),
            r.indent() == 2,
    {
        PrettyPrinter { indent_size: 2 }
    }

    /// The formatted text of the whole tree.
    pub fn format(&self, t: &SyntaxTree) -> (r: String)
        requires
            self.wf(),
            t.wf(),
            t.nodes@.len() * 2 <= usize::MAX,
        ensures
            r@ == fmt(*t, 0, 0, self.indent()),
    {
        let mut output = String::new();
        self.format_node(t, 0, 0, &mut output);
        assert(output@ =~= fmt(*t, 0, 0, self.indent()));
        output
    }

    fn add_indent(&self, output: &mut String, depth: usize)
        requires
            self.wf(),
            depth * 2 <= usize::MAX,
        ensures
            final(output)@ == old(output)@ + spaces(depth as nat * self.indent()),
    {
        let n = depth * self.indent_size;
        let mut i: usize = 0;
        while i < n
            invariant
                i <= n,
                output@ == old(output)@ + spaces(i as nat),
            decreases n - i,
        {
            push_char(output, ' ');
            assert(spaces((i + 1) as nat) =~= spaces(i as nat).push(' '));
            i = i + 1;
        }
    }

    fn format_opt(&self, t: &SyntaxTree, n: usize, c: Option<usize>, depth: usize, output: &mut String)
        requires
            self.wf(),
            t.wf(),
            n < t.nodes@.len(),
            t.nodes@.len() * 2 <= usize::MAX,
            depth <= n + 1,
            c matches Some(c) ==> n < c < t.nodes@.len(),
        ensures
            final(output)@ == old(output)@ + opt_fmt(*t, n as int, c, depth as nat, self.indent()),
        decreases t.nodes@.len() - n, 0int,
    {
        match c {
            Some(c) => self.format_node(t, c, depth, output),
            None => {
                assert(output@ =~= old(output)@ + Seq::<char>::empty());
            },
        }
    }

    fn format_node(&self, t: &SyntaxTree, n: usize, depth: usize, output: &mut String)
        requires
            self.wf(),
            t.wf(),
            n < t.nodes@.len(),
            t.nodes@.len() * 2 <= usize::MAX,
            depth <= n,
        ensures
            final(output)@ == old(output)@ + fmt(*t, n as int, depth as nat, self.indent()),
        decreases t.nodes@.len() - n, 2int,
    {
        if t.kind_is(n, "program") {
            self.format_program(t, n, depth, output);
        } else if t.kind_is(n, "function_declaration") {
            self.format_function(t, n, depth, output);
        } else if t.kind_is(n, "formal_parameters") {
            self.format_parameters(t, n, output);
            proof {
                lemma_kind_names();
            }
            assert(fmt(*t, n as int, depth as nat, self.indent()) == "("@ + parameter_list(*t, n as int, 0, true)
                + ")"@);
        } else if t.kind_is(n, "statement_block") {
            self.format_block(t, n, depth, output);
        } else if t.kind_is(n, "variable_declaration") {
            self.format_variable_declaration(t, n, depth, output);
        } else if t.kind_is(n, "variable_declarator") {
            self.format_declarator(t, n, depth, output);
        } else if t.kind_is(n, "return_statement") {
            self.format_return(t, n, depth, output);
        } else if t.kind_is(n, "binary_expression") {
            self.format_binary(t, n, depth, output);
        } else {
            push_range(output, &t.source, t.nodes[n].start, t.nodes[n].end);
        }
    }

    fn format_program(&self, t: &SyntaxTree, n: usize, depth: usize, output: &mut String)
        requires
            self.wf(),
            t.wf(),
            n < t.nodes@.len(),
            t.nodes@.len() * 2 <= usize::MAX,
            depth <= n,
            t.kind(n as int) == "program"@,
        ensures
            final(output)@ == old(output)@ + fmt(*t, n as int, depth as nat, self.indent()),
        decreases t.nodes@.len() - n, 1int,
    {
        let ghost ind = self.indent();
        let ghost d = depth as nat;
        let ghost o0 = output@;
        let count = t.child_count(n);
        let mut i: usize = 0;
        while i < count
            invariant
                self.wf(),
                t.wf(),
                n < t.nodes@.len(),
                t.nodes@.len() * 2 <= usize::MAX,
                depth <= n,
                ind == self.indent(),
                d == depth as nat,
                count == t.nodes@[n as int].children@.len(),
                i <= count,
                output@ + program_children(*t, n as int, i as int, d, ind) == o0 + program_children(
                    *t,
                    n as int,
                    0,
                    d,
                    ind,
                ),
            decreases count - i,
        {
            let ghost before = output@;
            let c = t.child(n, i);
            self.format_opt(t, n, c, depth, output);
            if i < count - 1 {
                push_str(output, "\n");
            }
            proof {
                assert(output@ + program_children(*t, n as int, i + 1, d, ind) =~= before + program_children(
                    *t,
                    n as int,
                    i as int,
                    d,
                    ind,
                ));
            }
            i = i + 1;
        }
        proof {
            lemma_kind_names();
        }
        assert(output@ =~= o0 + fmt(*t, n as int, d, ind));
    }

    #[verifier::spinoff_prover]
    #[verifier::rlimit(40)]
    fn format_function(&self, t: &SyntaxTree, n: usize, depth: usize, output: &mut String)
        requires
            self.wf(),
            t.wf(),
            n < t.nodes@.len(),
            t.nodes@.len() * 2 <= usize::MAX,
            depth <= n,
            t.kind(n as int) == "function_declaration"@,
        ensures
            final(output)@ == old(output)@ + fmt(*t, n as int, depth as nat, self.indent()),
        decreases t.nodes@.len() - n, 1int,
    {
        let ghost o0 = output@;
        let ghost ind = self.indent();
        let ghost d = depth as nat;
        self.add_indent(output, depth);
        push_str(output, "function ");
        let name = t.child_by_field_name(n, "name");
        match name {
            Some(name) => push_range(output, &t.source, t.nodes[name].start, t.nodes[name].end),
            None => {},
        }
        let ghost o2 = output@;
        assert(o2 =~= o0 + spaces(d * ind) + "function "@ + opt_text(*t, name));
        let params = t.child_by_field_name(n, "parameters");
        self.format_opt(t, n, params, depth, output);
        push_str(output, " ");
        let body = t.child_by_field_name(n, "body");
        self.format_opt(t, n, body, depth, output);
        let ghost whole = spaces(d * ind) + "function "@ + opt_text(*t, name) + opt_fmt(*t, n as int, params, d, ind)
            + " "@ + opt_fmt(*t, n as int, body, d, ind);
        proof {
            lemma_fmt_function(*t, n as int, d, ind);
        }
        assert(output@ =~= o0 + whole);
    }

    fn format_parameters(&self, t: &SyntaxTree, n: usize, output: &mut String)
        requires
            t.wf(),
            n < t.nodes@.len(),
        ensures
            final(output)@ == old(output)@ + "("@ + parameter_list(*t, n as int, 0, true) + ")"@,
    {
        let ghost o0 = output@;
        let count = t.child_count(n);
        push_str(output, "(");
        let mut first_param = true;
        let mut i: usize = 0;
        while i < count
            invariant
                t.wf(),
                n < t.nodes@.len(),
                count == t.nodes@[n as int].children@.len(),
                i <= count,
                output@ + parameter_list(*t, n as int, i as int, first_param) == o0 + "("@ + parameter_list(
                    *t,
                    n as int,
                    0,
                    true,
                ),
            decreases count - i,
        {
            let ghost before = output@;
            let ghost was_first = first_param;
            let c = t.nodes[n].children[i];
            if t.kind_is(c, "identifier") {
                if !first_param {
                    push_str(output, ", ");
                }
                push_range(output, &t.source, t.nodes[c].start, t.nodes[c].end);
                first_param = false;
            }
            proof {
                assert(output@ + parameter_list(*t, n as int, i + 1, first_param) =~= before + parameter_list(
                    *t,
                    n as int,
                    i as int,
                    was_first,
                ));
            }
            i = i + 1;
        }
        let ghost before = output@;
        push_str(output, ")");
        assert(output@ =~= o0 + "("@ + parameter_list(*t, n as int, 0, true) + ")"@) by {
            assert(before =~= before + parameter_list(*t, n as int, i as int, first_param));
        }
    }

    fn format_block(&self, t: &SyntaxTree, n: usize, depth: usize, output: &mut String)
        requires
            self.wf(),
            t.wf(),
            n < t.nodes@.len(),
            t.nodes@.len() * 2 <= usize::MAX,
            depth <= n,
            t.kind(n as int) == "statement_block"@,
        ensures
            final(output)@ == old(output)@ + fmt(*t, n as int, depth as nat, self.indent()),
        decreases t.nodes@.len() - n, 1int,
    {
        let ghost ind = self.indent();
        let ghost d = depth as nat;
        let ghost o0 = output@;
        let count = t.child_count(n);
        push_str(output, "{\n");
        let ghost o1 = output@;
        let mut i: usize = 0;
        while i < count
            invariant
                self.wf(),
                t.wf(),
                n < t.nodes@.len(),
                t.nodes@.len() * 2 <= usize::MAX,
                depth <= n,
                ind == self.indent(),
                d == depth as nat,
                count == t.nodes@[n as int].children@.len(),
                i <= count,
                output@ + block_children(*t, n as int, i as int, d + 1, ind) == o1 + block_children(
                    *t,
                    n as int,
                    0,
                    d + 1,
                    ind,
                ),
            decreases count - i,
        {
            let ghost before = output@;
            let c = t.nodes[n].children[i];
            if !t.kind_is(c, "{") && !t.kind_is(c, "}") {
                self.format_opt(t, n, Some(c), depth + 1, output);
                push_str(output, "\n");
            }
            proof {
                assert(output@ + block_children(*t, n as int, i + 1, d + 1, ind) =~= before + block_children(
                    *t,
                    n as int,
                    i as int,
                    d + 1,
                    ind,
                ));
            }
            i = i + 1;
        }
        self.add_indent(output, depth);
        push_str(output, "}");
        proof {
            lemma_kind_names();
        }
        assert(output@ =~= o0 + fmt(*t, n as int, d, ind));
    }

    fn format_variable_declaration(&self, t: &SyntaxTree, n: usize, depth: usize, output: &mut String)
        requires
            self.wf(),
            t.wf(),
            n < t.nodes@.len(),
            t.nodes@.len() * 2 <= usize::MAX,
            depth <= n,
            t.kind(n as int) == "variable_declaration"@,
        ensures
            final(output)@ == old(output)@ + fmt(*t, n as int, depth as nat, self.indent()),
        decreases t.nodes@.len() - n, 1int,
    {
        let ghost ind = self.indent();
        let ghost d = depth as nat;
        let ghost o0 = output@;
        let count = t.child_count(n);
        self.add_indent(output, depth);
        if count > 0 {
            let first = t.nodes[n].children[0];
            push_str(output, t.kind_str(first));
            push_str(output, " ");
        }
        let ghost o1 = output@;
        let mut i: usize = 0;
        while i < count
            invariant
                self.wf(),
                t.wf(),
                n < t.nodes@.len(),
                t.nodes@.len() * 2 <= usize::MAX,
                depth <= n,
                ind == self.indent(),
                d == depth as nat,
                count == t.nodes@[n as int].children@.len(),
                i <= count,
                output@ + declarator_children(*t, n as int, i as int, d, ind) == o1 + declarator_children(
                    *t,
                    n as int,
                    0,
                    d,
                    ind,
                ),
            decreases count - i,
        {
            let ghost before = output@;
            let c = t.nodes[n].children[i];
            if t.kind_is(c, "variable_declarator") {
                self.format_opt(t, n, Some(c), depth, output);
                if i < count - 1 {
                    let next = t.nodes[n].children[i + 1];
                    if t.kind_is(next, "variable_declarator") {
                        push_str(output, ", ");
                    }
                }
            }
            proof {
                assert(output@ + declarator_children(*t, n as int, i + 1, d, ind) =~= before + declarator_children(
                    *t,
                    n as int,
                    i as int,
                    d,
                    ind,
                ));
            }
            i = i + 1;
        }
        push_str(output, ";");
        proof {
            lemma_kind_names();
        }
        assert(output@ =~= o0 + fmt(*t, n as int, d, ind));
    }

    fn format_declarator(&self, t: &SyntaxTree, n: usize, depth: usize, output: &mut String)
        requires
            self.wf(),
            t.wf(),
            n < t.nodes@.len(),
            t.nodes@.len() * 2 <= usize::MAX,
            depth <= n,
            t.kind(n as int) == "variable_declarator"@,
        ensures
            final(output)@ == old(output)@ + fmt(*t, n as int, depth as nat, self.indent()),
        decreases t.nodes@.len() - n, 1int,
    {
        let ghost o0 = output@;
        match t.child_by_field_name(n, "name") {
            Some(name) => push_range(output, &t.source, t.nodes[name].start, t.nodes[name].end),
            None => {},
        }
        match t.child_by_field_name(n, "value") {
            Some(v) => {
                push_str(output, " = ");
                self.format_opt(t, n, Some(v), depth, output);
            },
            None => {},
        }
        proof {
            lemma_kind_names();
        }
        assert(output@ =~= o0 + fmt(*t, n as int, depth as nat, self.indent()));
    }

    fn format_return(&self, t: &SyntaxTree, n: usize, depth: usize, output: &mut String)
        requires
            self.wf(),
            t.wf(),
            n < t.nodes@.len(),
            t.nodes@.len() * 2 <= usize::MAX,
            depth <= n,
            t.kind(n as int) == "return_statement"@,
        ensures
            final(output)@ == old(output)@ + fmt(*t, n as int, depth as nat, self.indent()),
        decreases t.nodes@.len() - n, 1int,
    {
        let ghost ind = self.indent();
        let ghost d = depth as nat;
        let ghost o0 = output@;
        let count = t.child_count(n);
        self.add_indent(output, depth);
        push_str(output, "return");
        if count > 1 {
            push_str(output, " ");
            let ghost o1 = output@;
            let mut i: usize = 1;
            while i < count
                invariant
                    self.wf(),
                    t.wf(),
                    n < t.nodes@.len(),
                    t.nodes@.len() * 2 <= usize::MAX,
                    depth <= n,
                    ind == self.indent(),
                    d == depth as nat,
                    count == t.nodes@[n as int].children@.len(),
                    1 <= i <= count,
                    output@ + return_children(*t, n as int, i as int, d, ind) == o1 + return_children(
                        *t,
                        n as int,
                        1,
                        d,
                        ind,
                    ),
                decreases count - i,
            {
                let ghost before = output@;
                let c = t.nodes[n].children[i];
                if !t.kind_is(c, ";") {
                    self.format_opt(t, n, Some(c), depth, output);
                }
                proof {
                    assert(output@ + return_children(*t, n as int, i + 1, d, ind) =~= before + return_children(
                        *t,
                        n as int,
                        i as int,
                        d,
                        ind,
                    ));
                }
                i = i + 1;
            }
        }
        push_str(output, ";");
        proof {
            lemma_kind_names();
        }
        assert(output@ =~= o0 + fmt(*t, n as int, d, ind));
    }

    fn format_binary(&self, t: &SyntaxTree, n: usize, depth: usize, output: &mut String)
        requires
            self.wf(),
            t.wf(),
            n < t.nodes@.len(),
            t.nodes@.len() * 2 <= usize::MAX,
            depth <= n,
            t.kind(n as int) == "binary_expression"@,
        ensures
            final(output)@ == old(output)@ + fmt(*t, n as int, depth as nat, self.indent()),
        decreases t.nodes@.len() - n, 1int,
    {
        let ghost o0 = output@;
        self.format_opt(t, n, t.child_by_field_name(n, "left"), depth, output);
        match t.child_by_field_name(n, "operator") {
            Some(op) => {
                push_str(output, " ");
                push_range(output, &t.source, t.nodes[op].start, t.nodes[op].end);
                push_str(output, " ");
            },
            None => {},
        }
        self.format_opt(t, n, t.child_by_field_name(n, "right"), depth, output);
        proof {
            lemma_kind_names();
        }
        assert(output@ =~= o0 + fmt(*t, n as int, depth as nat, self.indent()));
    }
}

} // verus!
