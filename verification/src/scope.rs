//! Scope analysis: which scopes a program opens and which names each declares.
use vstd::prelude::*;
use crate::syntax::SyntaxTree;
use crate::text::{str_eq, numbered_name, push_str};

verus! {

#[derive(Debug, Clone, Copy, PartialEq, Eq, Structural)]
pub enum ScopeType {
    Global,
    Function,
    Block,
    Module,
    Class,
    Method,
}

#[derive(Debug, Clone)]
pub struct Scope {
    pub id: String,
    pub scope_type: ScopeType,
    pub parent: Option<String>,
    pub depth: usize,
    pub variables: Vec<Variable>,
    pub functions: Vec<String>,
    pub children: Vec<String>,
}

#[derive(Debug, Clone)]
pub struct Variable {
    pub name: String,
    pub canonical_name: Option<String>,
    pub kind: VariableKind,
    pub declaration_line: usize,
    pub declaration_column: usize,
    pub is_hoisted: bool,
}

#[derive(Debug, Clone, Copy, PartialEq, Eq, Structural)]
pub enum VariableKind {
    Var,
    Let,
    Const,
    Parameter,
    FunctionDeclaration,
    ClassDeclaration,
}

/// A declaration as plain values.
pub struct VarView {
    pub name: Seq<char>,
    pub canonical: Option<Seq<char>>,
    pub kind: VariableKind,
    pub line: usize,
    pub column: usize,
    pub hoisted: bool,
}

/// A scope as plain values.
pub struct ScopeView {
    pub id: Seq<char>,
    pub scope_type: ScopeType,
    pub parent: Option<Seq<char>>,
    pub depth: usize,
    pub variables: Seq<VarView>,
    pub functions: Seq<Seq<char>>,
    pub children: Seq<Seq<char>>,
}

/// The state of an analysis as plain values: the scopes in the order they
/// were opened, the index of the current one, and the number opened so far.
pub struct AnalyzerView {
    pub scopes: Seq<ScopeView>,
    pub current: int,
    pub counter: usize,
}

pub open spec fn var_view(v: Variable) -> VarView {
    VarView {
        name: v.name@,
        canonical: match v.canonical_name {
            Some(c) => Some(c@),
            None => None,
        },
        kind: v.kind,
        line: v.declaration_line,
        column: v.declaration_column,
        hoisted: v.is_hoisted,
    }
}

pub open spec fn string_views(v: Seq<String>) -> Seq<Seq<char>> {
    v.map_values(|s: String| s@)
}

pub open spec fn scope_view(s: Scope) -> ScopeView {
    ScopeView {
        id: s.id@,
        scope_type: s.scope_type,
        parent: match s.parent {
            Some(p) => Some(p@),
            None => None,
        },
        depth: s.depth,
        variables: s.variables@.map_values(|v: Variable| var_view(v)),
        functions: string_views(s.functions@),
        children: string_views(s.children@),
    }
}

/// A scope name as plain characters.
pub open spec fn name_view(name: Option<&str>) -> Option<Seq<char>> {
    match name {
        Some(n) => Some(n@),
        None => None,
    }
}

/// `n + 1`, or `n` when that does not fit.
pub open spec fn sat_inc(n: usize) -> usize {
    if n == usize::MAX {
        n
    } else {
        (n + 1) as usize
    }
}

/// The index of the scope with id `id` among `scopes`, if any.
pub open spec fn scope_index_of(scopes: Seq<ScopeView>, id: Seq<char>) -> Option<int> {
    if exists|k: int| 0 <= k < scopes.len() && scopes[k].id == id {
        Some(choose|k: int| 0 <= k < scopes.len() && scopes[k].id == id)
    } else {
        None
    }
}

/// The id that a scope of type `ty` named `name` is given after its
/// counter: `fn_` or `class_` and the name for a named function or class,
/// `scope_` and the count for any other.
pub open spec fn named_id(a: AnalyzerView, ty: ScopeType, name: Option<Seq<char>>) -> Seq<char> {
    new_scope_id(ty, name, sat_inc(a.counter))
}

/// The id that opening a scope of type `ty` named `name` gives it: its named
/// id when no scope has that id yet, else `scope_` and the count.
pub open spec fn opened_id(a: AnalyzerView, ty: ScopeType, name: Option<Seq<char>>) -> Seq<char> {
    let id = named_id(a, ty, name);
    if scope_index_of(a.scopes, id) is None {
        id
    } else {
        "scope_"@ + crate::text::decimal(sat_inc(a.counter) as nat)
    }
}

/// Whether the id that opening a scope would give is still free, so that a
/// new scope is opened.
pub open spec fn opens(a: AnalyzerView, ty: ScopeType, name: Option<Seq<char>>) -> bool {
    scope_index_of(a.scopes, opened_id(a, ty, name)) is None
}

/// Where the scope opened in state `a` is stored: at the end; when no new
/// scope is opened, the current scope stands for it.
pub open spec fn opened_index(a: AnalyzerView, ty: ScopeType, name: Option<Seq<char>>) -> int {
    if opens(a, ty, name) {
        a.scopes.len() as int
    } else {
        a.current
    }
}

/// The state after opening a scope of type `ty` named `name` inside the
/// current one: the new scope, with a fresh id, is empty, one level deeper,
/// stored last and listed among the current scope's children; the current
/// scope stays current and the counter goes up.
pub open spec fn with_scope(a: AnalyzerView, ty: ScopeType, name: Option<Seq<char>>) -> AnalyzerView {
    let id = opened_id(a, ty, name);
    let cur = a.scopes[a.current];
    let fresh = ScopeView {
        id,
        scope_type: ty,
        parent: Some(cur.id),
        depth: sat_inc(cur.depth),
        variables: seq![],
        functions: seq![],
        children: seq![],
    };
    if opens(a, ty, name) {
        let placed = a.scopes.push(fresh);
        let c = placed[a.current];
        AnalyzerView {
            scopes: placed.update(
                a.current,
                ScopeView {
                    id: c.id,
                    scope_type: c.scope_type,
                    parent: c.parent,
                    depth: c.depth,
                    variables: c.variables,
                    functions: c.functions,
                    children: c.children.push(id),
                },
            ),
            current: a.current,
            counter: sat_inc(a.counter),
        }
    } else {
        AnalyzerView { scopes: a.scopes, current: a.current, counter: sat_inc(a.counter) }
    }
}

/// The state with scope `k` current.
pub open spec fn with_current(a: AnalyzerView, k: int) -> AnalyzerView {
    AnalyzerView { scopes: a.scopes, current: k, counter: a.counter }
}

/// The state after declaring `v` in the current scope; a function is also
/// listed among the scope's functions.
pub open spec fn with_var(a: AnalyzerView, v: VarView) -> AnalyzerView {
    let c = a.scopes[a.current];
    AnalyzerView {
        scopes: a.scopes.update(
            a.current,
            ScopeView {
                id: c.id,
                scope_type: c.scope_type,
                parent: c.parent,
                depth: c.depth,
                variables: c.variables.push(v),
                functions: if v.kind == VariableKind::FunctionDeclaration {
                    c.functions.push(v.name)
                } else {
                    c.functions
                },
                children: c.children,
            },
        ),
        current: a.current,
        counter: a.counter,
    }
}

/// The state after declaring each of `vs`, none a function, in the current scope.
pub open spec fn with_vars(a: AnalyzerView, vs: Seq<VarView>) -> AnalyzerView {
    let c = a.scopes[a.current];
    AnalyzerView {
        scopes: a.scopes.update(
            a.current,
            ScopeView {
                id: c.id,
                scope_type: c.scope_type,
                parent: c.parent,
                depth: c.depth,
                variables: c.variables + vs,
                functions: c.functions,
                children: c.children,
            },
        ),
        current: a.current,
        counter: a.counter,
    }
}

/// The declaration of kind `kind` that node `b` of `t` makes.
pub open spec fn binding_view(t: SyntaxTree, b: int, kind: VariableKind, hoisted: bool) -> VarView {
    VarView {
        name: t.text(b),
        canonical: None,
        kind,
        line: t.nodes@[b].start_row,
        column: t.nodes@[b].start_col,
        hoisted,
    }
}

/// The declarations that the nodes `bs` make.
pub open spec fn bindings_view(t: SyntaxTree, bs: Seq<usize>, kind: VariableKind, hoisted: bool) -> Seq<VarView> {
    bs.map_values(|b: usize| binding_view(t, b as int, kind, hoisted))
}

/// The state of a fresh analysis: only the global scope, empty and current.
pub open spec fn initial_state() -> AnalyzerView {
    AnalyzerView {
        scopes: seq![
            ScopeView {
                id: "global"@,
                scope_type: ScopeType::Global,
                parent: None,
                depth: 0,
                variables: seq![],
                functions: seq![],
                children: seq![],
            },
        ],
        current: 0,
        counter: 0,
    }
}

/// The declaration named `name` of kind `kind` made at node `n`.
pub open spec fn declaration_at(t: SyntaxTree, name: Seq<char>, n: int, kind: VariableKind, hoisted: bool) -> VarView {
    VarView {
        name,
        canonical: None,
        kind,
        line: t.nodes@[n].start_row,
        column: t.nodes@[n].start_col,
        hoisted,
    }
}

/// The text of node `nn`, or `anonymous` when there is none.
pub open spec fn name_or_anonymous(t: SyntaxTree, nn: Option<usize>) -> Seq<char> {
    match nn {
        Some(x) => t.text(x as int),
        None => "anonymous"@,
    }
}

/// The state after declaring, in the current scope, the parameters of the
/// function at node `n`.
pub open spec fn after_parameters(t: SyntaxTree, a: AnalyzerView, n: int) -> AnalyzerView {
    match t.child_by_field(n, "parameters"@) {
        Some(p) => with_vars(
            a,
            bindings_view(t, children_bindings(t, p as int, 0, ListMode::Parameters), VariableKind::Parameter, false),
        ),
        None => a,
    }
}

/// A function declaration or expression: its name is declared where it
/// stands, and a scope named after it, holding its parameters, becomes current.
pub open spec fn after_function(t: SyntaxTree, a: AnalyzerView, n: int) -> AnalyzerView {
    let nn = t.child_by_field(n, "name"@);
    let name = name_or_anonymous(t, nn);
    let a1 = with_scope(a, ScopeType::Function, Some(name));
    let a2 = match nn {
        Some(x) => with_var(a1, declaration_at(t, name, x as int, VariableKind::FunctionDeclaration, true)),
        None => a1,
    };
    after_parameters(t, with_current(a2, opened_index(a, ScopeType::Function, Some(name))), n)
}

/// An arrow function: an unnamed scope holding its parameters becomes current.
pub open spec fn after_arrow(t: SyntaxTree, a: AnalyzerView, n: int) -> AnalyzerView {
    after_parameters(
        t,
        with_current(with_scope(a, ScopeType::Function, None), opened_index(a, ScopeType::Function, None)),
        n,
    )
}

/// A block with a scope of its own: an unnamed block scope becomes current.
pub open spec fn after_block(a: AnalyzerView) -> AnalyzerView {
    with_current(with_scope(a, ScopeType::Block, None), opened_index(a, ScopeType::Block, None))
}

/// A class: its name is declared where it stands, and a scope named after it
/// becomes current.
pub open spec fn after_class(t: SyntaxTree, a: AnalyzerView, n: int) -> AnalyzerView {
    let name = name_or_anonymous(t, t.child_by_field(n, "name"@));
    let a1 = with_var(a, declaration_at(t, name, n, VariableKind::ClassDeclaration, false));
    with_current(with_scope(a1, ScopeType::Class, Some(name)), opened_index(a1, ScopeType::Class, Some(name)))
}

/// A `var`, `let` or `const` declaration at node `n`: the names its
/// declarators bind, declared in the current scope.
pub open spec fn after_var_decl(t: SyntaxTree, a: AnalyzerView, n: int) -> AnalyzerView {
    let bs = children_bindings(t, n, 0, ListMode::Declarators);
    match t.child_at(n, 0) {
        Some(f) => if t.kind(f as int) == "var"@ {
            with_vars(a, bindings_view(t, bs, VariableKind::Var, true))
        } else if t.kind(f as int) == "let"@ {
            with_vars(a, bindings_view(t, bs, VariableKind::Let, false))
        } else if t.kind(f as int) == "const"@ {
            with_vars(a, bindings_view(t, bs, VariableKind::Const, false))
        } else {
            a
        },
        None => a,
    }
}

/// The loop variable at node `l` of a `for ... in` or `for ... of` loop.
pub open spec fn after_loop_var(t: SyntaxTree, a: AnalyzerView, l: int) -> AnalyzerView {
    if t.kind(l) == "variable_declaration"@ || t.kind(l) == "lexical_declaration"@ {
        after_var_decl(t, a, l)
    } else if t.kind(l) == "identifier"@ {
        with_var(a, declaration_at(t, t.text(l), l, VariableKind::Let, false))
    } else {
        a
    }
}

/// A `for ... in` or `for ... of` loop: a block scope holding its loop
/// variable becomes current.
pub open spec fn after_for(t: SyntaxTree, a: AnalyzerView, n: int) -> AnalyzerView {
    let a1 = after_block(a);
    match t.child_by_field(n, "left"@) {
        Some(l) => after_loop_var(t, a1, l as int),
        None => a1,
    }
}

/// A catch clause: a block scope holding its parameter, when that is an
/// identifier, becomes current.
pub open spec fn after_catch(t: SyntaxTree, a: AnalyzerView, n: int) -> AnalyzerView {
    let a1 = after_block(a);
    match t.child_by_field(n, "parameter"@) {
        Some(p) => if t.kind(p as int) == "identifier"@ {
            with_var(a1, declaration_at(t, t.text(p as int), p as int, VariableKind::Parameter, false))
        } else {
            a1
        },
        None => a1,
    }
}

/// One entry `s` of a `{ ... }` import list: its alias, else its name, is
/// declared as a constant at the entry's position.
pub open spec fn after_import_specifier(t: SyntaxTree, a: AnalyzerView, s: int) -> AnalyzerView {
    if t.kind(s) == "import_specifier"@ {
        let chosen = match t.child_by_field(s, "alias"@) {
            Some(x) => Some(x),
            None => t.child_by_field(s, "name"@),
        };
        match chosen {
            Some(x) => with_var(a, declaration_at(t, t.text(x as int), s, VariableKind::Const, false)),
            None => a,
        }
    } else {
        a
    }
}

/// The entries `k..` of the import list at node `n`.
pub open spec fn named_imports_from(t: SyntaxTree, a: AnalyzerView, n: int, k: int) -> AnalyzerView
    decreases t.nodes@[n].children@.len() - k,
{
    if !(0 <= n < t.nodes@.len()) || k < 0 || k >= t.nodes@[n].children@.len() {
        a
    } else {
        named_imports_from(t, after_import_specifier(t, a, t.nodes@[n].children@[k] as int), n, k + 1)
    }
}

/// One part `c` of an import clause: a default import, a namespace alias,
/// or a list of named imports.
pub open spec fn after_clause_part(t: SyntaxTree, a: AnalyzerView, c: int) -> AnalyzerView {
    if t.kind(c) == "identifier"@ {
        with_var(a, declaration_at(t, t.text(c), c, VariableKind::Const, false))
    } else if t.kind(c) == "namespace_import"@ {
        match t.child_by_field(c, "alias"@) {
            Some(x) => with_var(a, declaration_at(t, t.text(x as int), x as int, VariableKind::Const, false)),
            None => a,
        }
    } else if t.kind(c) == "named_imports"@ {
        named_imports_from(t, a, c, 0)
    } else {
        a
    }
}

/// The parts `k..` of the import clause at node `n`.
pub open spec fn clause_parts_from(t: SyntaxTree, a: AnalyzerView, n: int, k: int) -> AnalyzerView
    decreases t.nodes@[n].children@.len() - k,
{
    if !(0 <= n < t.nodes@.len()) || k < 0 || k >= t.nodes@[n].children@.len() {
        a
    } else {
        clause_parts_from(t, after_clause_part(t, a, t.nodes@[n].children@[k] as int), n, k + 1)
    }
}

/// The children `k..` of the import statement at node `n`: each import
/// clause among them declares its names.
pub open spec fn import_from(t: SyntaxTree, a: AnalyzerView, n: int, k: int) -> AnalyzerView
    decreases t.nodes@[n].children@.len() - k,
{
    if !(0 <= n < t.nodes@.len()) || k < 0 || k >= t.nodes@[n].children@.len() {
        a
    } else {
        let c = t.nodes@[n].children@[k] as int;
        let a1 = if t.kind(c) == "import_clause"@ {
            clause_parts_from(t, a, c, 0)
        } else {
            a
        };
        import_from(t, a1, n, k + 1)
    }
}

/// Whether the block at node `n` gets a scope of its own: unless it is the
/// body of a function or method.
pub open spec fn opens_block(t: SyntaxTree, n: int) -> bool {
    match t.nodes@[n].parent {
        Some(p) => !(t.kind(p as int) == "function_declaration"@ || t.kind(p as int) == "function_expression"@
            || t.kind(p as int) == "arrow_function"@ || t.kind(p as int) == "method_definition"@),
        None => true,
    }
}

/// What node `i` does on entry: the state after it, and whether it made
/// another scope current.
pub open spec fn enter_node(t: SyntaxTree, a: AnalyzerView, i: int) -> (AnalyzerView, bool) {
    let k = t.kind(i);
    if k == "function_declaration"@ || k == "function_expression"@ {
        (after_function(t, a, i), true)
    } else if k == "arrow_function"@ {
        (after_arrow(t, a, i), true)
    } else if k == "block_statement"@ {
        if opens_block(t, i) {
            (after_block(a), true)
        } else {
            (a, false)
        }
    } else if k == "class_declaration"@ {
        (after_class(t, a, i), true)
    } else if k == "variable_declaration"@ || k == "lexical_declaration"@ {
        (after_var_decl(t, a, i), false)
    } else if k == "for_in_statement"@ || k == "for_of_statement"@ {
        (after_for(t, a, i), true)
    } else if k == "catch_clause"@ {
        (after_catch(t, a, i), true)
    } else if k == "import_statement"@ {
        (import_from(t, a, i, 0), false)
    } else {
        (a, false)
    }
}

/// The analysis of the subtree at node `i`, from state `a`: the node's own
/// effect, then its children's in order; the scope that was current before
/// is current again afterwards.
pub open spec fn walk(t: SyntaxTree, a: AnalyzerView, i: int) -> AnalyzerView
    decreases t.nodes@.len() - i, 1int, 0int,
{
    if !(0 <= i < t.nodes@.len()) {
        a
    } else {
        let (a1, changed) = enter_node(t, a, i);
        let a2 = walk_children(t, a1, i, 0);
        if changed {
            with_current(a2, a.current)
        } else {
            a2
        }
    }
}

/// The analysis of the subtrees of children `k..` of node `i`, in order.
pub open spec fn walk_children(t: SyntaxTree, a: AnalyzerView, i: int, k: int) -> AnalyzerView
    decreases t.nodes@.len() - i, 0int, t.nodes@[i].children@.len() - k,
{
    if !(0 <= i < t.nodes@.len()) || k < 0 || k >= t.nodes@[i].children@.len() {
        a
    } else {
        let c = t.nodes@[i].children@[k] as int;
        if i < c < t.nodes@.len() {
            walk_children(t, walk(t, a, c), i, k + 1)
        } else {
            walk_children(t, a, i, k + 1)
        }
    }
}

pub proof fn lemma_scope_index_of(scopes: Seq<ScopeView>, id: Seq<char>, k: int)
    requires
        forall|i: int, j: int| 0 <= i < j < scopes.len() ==> #[trigger] scopes[i].id != #[trigger] scopes[j].id,
        0 <= k < scopes.len(),
        scopes[k].id == id,
    ensures
        scope_index_of(scopes, id) == Some(k),
{
    let c = choose|c: int| 0 <= c < scopes.len() && scopes[c].id == id;
    if c != k {
        if c < k {
            assert(scopes[c].id != scopes[k].id);
        } else {
            assert(scopes[k].id != scopes[c].id);
        }
    }
}

/// Collects the scopes of a program in the order they are opened; the
/// global scope comes first.
pub struct ScopeAnalyzer {
    scopes: Vec<Scope>,
    current: usize,
    scope_counter: usize,
}

/// Whether a variable records the declaration at node `b` of `t`.
pub open spec fn declares(v: Variable, t: SyntaxTree, b: int, kind: VariableKind, hoisted: bool) -> bool {
    &&& v.name@ == t.text(b)
    &&& v.canonical_name is None
    &&& v.kind == kind
    &&& v.declaration_line == t.nodes@[b].start_row
    &&& v.declaration_column == t.nodes@[b].start_col
    &&& v.is_hoisted == hoisted
}

/// The index of the scope with id `id`, if any.
pub open spec fn has_scope(scopes: Seq<Scope>, id: Seq<char>, k: int) -> bool {
    0 <= k < scopes.len() && scopes[k].id@ == id
}

/// Whether scope `k` of `scopes` is the parent of scope `i`: it stands
/// before it, has the id that `i` names as its parent, lies one level
/// higher and lists `i` among its children.
pub open spec fn parent_link(scopes: Seq<Scope>, i: int, k: int) -> bool {
    &&& 0 <= k < i
    &&& scopes[i].parent matches Some(p) && has_scope(scopes, p@, k)
    &&& scopes[i].depth == sat_inc(scopes[k].depth)
    &&& exists|c: int| 0 <= c < scopes[k].children@.len() && (#[trigger] scopes[k].children@[c])@ == scopes[i].id@
}

/// Whether scope `i` of `scopes` has a parent scope.
pub open spec fn has_parent(scopes: Seq<Scope>, i: int) -> bool {
    exists|k: int| parent_link(scopes, i, k)
}

/// Whether some scope of `scopes` has id `id`.
pub open spec fn has_scope_id(scopes: Seq<Scope>, id: Seq<char>) -> bool {
    exists|k: int| has_scope(scopes, id, k)
}

/// The identifier nodes that a destructuring pattern at node `n` binds, in
/// source order: plain identifiers, shorthand properties, the values of
/// `key: value` pairs, the targets of rest elements, the left side of
/// defaults, and the same inside nested patterns.
pub open spec fn pattern_bindings(t: SyntaxTree, n: int) -> Seq<usize>
    decreases t.nodes@.len() - n, 3int, 0int,
{
    if !(0 <= n < t.nodes@.len()) {
        seq![]
    } else if t.kind(n) == "identifier"@ {
        seq![n as usize]
    } else if t.kind(n) == "object_pattern"@ {
        children_bindings(t, n, 0, ListMode::ObjectPattern)
    } else if t.kind(n) == "array_pattern"@ {
        children_bindings(t, n, 0, ListMode::ArrayPattern)
    } else if t.kind(n) == "assignment_pattern"@ {
        match t.child_by_field(n, "left"@) {
            Some(l) => if n < l < t.nodes@.len() {
                pattern_bindings(t, l as int)
            } else {
                seq![]
            },
            None => seq![],
        }
    } else {
        seq![]
    }
}

/// The target of a rest element `...x` at node `r`: its second child.
pub open spec fn rest_target(t: SyntaxTree, r: int) -> Option<usize> {
    t.child_at(r, 1)
}

/// The bindings of a rest element `c` inside pattern `n`.
pub open spec fn rest_bindings(t: SyntaxTree, n: int, c: int) -> Seq<usize>
    decreases t.nodes@.len() - n, 1int, 0int,
{
    match rest_target(t, c) {
        Some(r) => if 0 <= n < r < t.nodes@.len() {
            pattern_bindings(t, r as int)
        } else {
            seq![]
        },
        None => seq![],
    }
}

/// Which list of declarations a node's children form.
#[derive(Clone, Copy, PartialEq, Eq, Structural)]
pub enum ListMode {
    ObjectPattern,
    ArrayPattern,
    Parameters,
    Declarators,
}

/// The bindings contributed by child `c` of node `n`, whose children form a
/// list of the given kind.
pub open spec fn child_bindings(t: SyntaxTree, n: int, c: int, mode: ListMode) -> Seq<usize>
    decreases t.nodes@.len() - n, 1int, 1int,
{
    if !(0 <= n < c < t.nodes@.len()) {
        seq![]
    } else {
        match mode {
            ListMode::ObjectPattern => if t.kind(c) == "shorthand_property_identifier_pattern"@ {
                seq![c as usize]
            } else if t.kind(c) == "pair_pattern"@ {
                match t.child_by_field(c, "value"@) {
                    Some(v) => if n < v < t.nodes@.len() {
                        pattern_bindings(t, v as int)
                    } else {
                        seq![]
                    },
                    None => seq![],
                }
            } else if t.kind(c) == "rest_pattern"@ {
                rest_bindings(t, n, c)
            } else if t.kind(c) == "object_pattern"@ || t.kind(c) == "array_pattern"@ {
                pattern_bindings(t, c)
            } else {
                seq![]
            },
            ListMode::ArrayPattern => if t.kind(c) == "identifier"@ {
                seq![c as usize]
            } else if t.kind(c) == "rest_pattern"@ {
                rest_bindings(t, n, c)
            } else if t.kind(c) == "["@ || t.kind(c) == "]"@ || t.kind(c) == ","@ {
                seq![]
            } else {
                pattern_bindings(t, c)
            },
            ListMode::Parameters => if t.kind(c) == "identifier"@ {
                seq![c as usize]
            } else if t.kind(c) == "object_pattern"@ || t.kind(c) == "array_pattern"@ || t.kind(c)
                == "assignment_pattern"@ {
                pattern_bindings(t, c)
            } else if t.kind(c) == "rest_pattern"@ {
                rest_bindings(t, n, c)
            } else {
                seq![]
            },
            ListMode::Declarators => if t.kind(c) == "variable_declarator"@ {
                match t.child_by_field(c, "name"@) {
                    Some(v) => if n < v < t.nodes@.len() {
                        pattern_bindings(t, v as int)
                    } else {
                        seq![]
                    },
                    None => seq![],
                }
            } else {
                seq![]
            },
        }
    }
}

/// Bindings of children `k..` of node `n`.
pub open spec fn children_bindings(t: SyntaxTree, n: int, k: int, mode: ListMode) -> Seq<usize>
    decreases t.nodes@.len() - n, 2int, t.nodes@[n].children@.len() - k,
{
    if !(0 <= n < t.nodes@.len()) || k < 0 || k >= t.nodes@[n].children@.len() {
        seq![]
    } else {
        child_bindings(t, n, t.nodes@[n].children@[k] as int, mode) + children_bindings(t, n, k + 1, mode)
    }
}

impl ScopeAnalyzer {
    /// The analysis state as plain values.
    pub closed spec fn state(&self) -> AnalyzerView {
        AnalyzerView {
            scopes: self.scopes@.map_values(|s: Scope| scope_view(s)),
            current: self.current as int,
            counter: self.scope_counter,
        }
    }

    /// The plain-value state lists the scopes that `scopes_view` holds.
    pub proof fn lemma_state_scopes(&self)
        ensures
            self.state().scopes == self.scopes_view().map_values(|s: Scope| scope_view(s)),
            self.state().current == self.current_index(),
            self.state().counter == self.counter(),
    {
    }

    pub closed spec fn scopes_view(&self) -> Seq<Scope> {
        self.scopes@
    }

    pub closed spec fn current_index(&self) -> int {
        self.current as int
    }

    pub closed spec fn counter(&self) -> usize {
        self.scope_counter
    }

    /// The analyzer's invariant: the global scope first, distinct ids, a
    /// current scope that exists, and every other scope's parent standing
    /// before it, so that the parents lead back to the global scope.
    pub closed spec fn wf(&self) -> bool {
        &&& self.scopes@.len() > 0
        &&& self.scopes@[0].id@ == "global"@
        &&& self.scopes@[0].parent is None
        &&& self.scopes@[0].scope_type == ScopeType::Global
        &&& self.scopes@[0].depth == 0
        &&& forall|i: int, j: int|
            0 <= i < j < self.scopes@.len() ==> #[trigger] self.scopes@[i].id@ != #[trigger] self.scopes@[j].id@
        &&& self.current < self.scopes@.len()
        &&& forall|i: int|
            0 < i < self.scopes@.len() ==> #[trigger] has_parent(self.scopes@, i)
        &&& forall|i: int, c: int|
            0 <= i < self.scopes@.len() && 0 <= c < self.scopes@[i].children@.len() ==> has_scope_id(
                self.scopes@,
                (#[trigger] self.scopes@[i].children@[c])@,
            )
    }

    /// An analyzer holding only the global scope.
    pub fn new() -> (r: ScopeAnalyzer)
        ensures
            r.wf(),
            r.scopes_view().len() == 1,
            r.current_index() == 0,
            r.counter() == 0,
            r.scopes_view()[0].variables@.len() == 0,
            r.scopes_view()[0].children@.len() == 0,
            r.scopes_view()[0].functions@.len() == 0,
            r.state() == initial_state(),
    {
        let mut id = String::new();
        push_str(&mut id, "global");
        proof {
            reveal_strlit("global");
        }
        let global = Scope {
            id,
            scope_type: ScopeType::Global,
            parent: None,
            depth: 0,
            variables: Vec::new(),
            functions: Vec::new(),
            children: Vec::new(),
        };
        let mut scopes = Vec::new();
        scopes.push(global);
        let r = ScopeAnalyzer { scopes, current: 0, scope_counter: 0 };
        proof {
            let g = scope_view(r.scopes@[0]);
            assert(g.variables =~= Seq::<VarView>::empty());
            assert(g.functions =~= Seq::<Seq<char>>::empty());
            assert(g.children =~= Seq::<Seq<char>>::empty());
            assert(r.state().scopes =~= initial_state().scopes);
        }
        r
    }

    /// All scopes, global first, in the order they were opened.
    pub fn get_scopes(&self) -> (r: &Vec<Scope>)
        ensures
            r@ == self.scopes_view(),
    {
        &self.scopes
    }

    /// The index of the scope with id `id`.
    pub fn find_scope(&self, id: &str) -> (r: Option<usize>)
        ensures
            r matches Some(k) ==> has_scope(self.scopes_view(), id@, k as int),
            r is None ==> forall|k: int| !has_scope(self.scopes_view(), id@, k),
    {
        let mut k: usize = 0;
        while k < self.scopes.len()
            invariant
                k <= self.scopes@.len(),
                forall|j: int| 0 <= j < k ==> !has_scope(self.scopes@, id@, j),
            decreases self.scopes@.len() - k,
        {
            if str_eq(self.scopes[k].id.as_str(), id) {
                return Some(k);
            }
            k = k + 1;
        }
        None
    }

    /// The id that a new scope of this type and name gets.
    fn scope_id_for(scope_type: ScopeType, name: Option<&str>, counter: usize) -> (r: String)
        ensures
            r@ == new_scope_id(scope_type, match name {
                Some(n) => Some(n@),
                None => None,
            }, counter),
    {
        match (scope_type, name) {
            (ScopeType::Function, Some(n)) => {
                let mut s = String::new();
                push_str(&mut s, "fn_");
                push_str(&mut s, n);
                s
            },
            (ScopeType::Class, Some(n)) => {
                let mut s = String::new();
                push_str(&mut s, "class_");
                push_str(&mut s, n);
                s
            },
            _ => numbered_name("scope_", counter),
        }
    }

    /// Opens a scope inside the current one and returns its index; the
    /// current scope is unchanged. The new scope gets a fresh id: its named id,
    /// or `scope_` and the count when that is taken; should that be taken too,
    /// no scope is opened and the current one is returned.
    pub fn create_scope(&mut self, scope_type: ScopeType, name: Option<&str>) -> (r: usize)
        requires
            old(self).wf(),
        ensures
            final(self).wf(),
            final(self).counter() == old(self).counter().saturating_add(1),
            final(self).current_index() == old(self).current_index(),
            r < final(self).scopes_view().len(),
            old(self).scopes_view().len() <= final(self).scopes_view().len() <= old(self).scopes_view().len() + 1,
            final(self).state() == with_scope(old(self).state(), scope_type, name_view(name)),
            r == opened_index(old(self).state(), scope_type, name_view(name)),
    {
        let ghost a = self.state();
        let ghost nm = name_view(name);
        proof {
            self.lemma_state_scopes();
            assert forall|i: int, j: int| 0 <= i < j < a.scopes.len() implies #[trigger] a.scopes[i].id
                != #[trigger] a.scopes[j].id by {
                assert(a.scopes[i].id == self.scopes@[i].id@);
                assert(a.scopes[j].id == self.scopes@[j].id@);
            }
        }
        self.scope_counter = self.scope_counter.saturating_add(1);
        assert(self.scope_counter == sat_inc(a.counter));
        let named = Self::scope_id_for(scope_type, name, self.scope_counter);
        assert(named@ == named_id(a, scope_type, nm));
        let found = self.find_scope(named.as_str());
        assert(found is None ==> forall|k: int| !has_scope(self.scopes_view(), named@, k));
        assert(self.scopes_view() == self.scopes@);
        let id = match found {
            None => {
                proof {
                    assert(a.scopes == self.scopes@.map_values(|s: Scope| scope_view(s)));
                    assert forall|k: int| 0 <= k < a.scopes.len() implies a.scopes[k].id != named@ by {
                        assert(a.scopes[k] == scope_view(self.scopes@[k]));
                        assert(!has_scope(self.scopes@, named@, k));
                    }
                    assert(scope_index_of(a.scopes, named@) is None);
                }
                named
            },
            Some(k) => {
                proof {
                    assert(a.scopes[k as int].id == self.scopes@[k as int].id@);
                    lemma_scope_index_of(a.scopes, named@, k as int);
                }
                numbered_name("scope_", self.scope_counter)
            },
        };
        assert(id@ == opened_id(a, scope_type, nm));
        let cur = self.current;
        match self.find_scope(id.as_str()) {
            Some(k) => {
                proof {
                    assert(a.scopes[k as int].id == self.scopes@[k as int].id@);
                    lemma_scope_index_of(a.scopes, id@, k as int);
                    assert(!opens(a, scope_type, nm));
                    assert(self.state() =~= with_scope(a, scope_type, nm));
                }
                return cur;
            },
            None => {},
        }
        proof {
            assert forall|k: int| 0 <= k < a.scopes.len() implies a.scopes[k].id != id@ by {
                assert(a.scopes[k] == scope_view(self.scopes@[k]));
                assert(!has_scope(self.scopes@, id@, k));
            }
            assert(opens(a, scope_type, nm));
        }
        let depth = self.scopes[cur].depth.saturating_add(1);
        let parent_id = self.scopes[cur].id.clone();
        let new_scope = Scope {
            id: id.clone(),
            scope_type,
            parent: Some(parent_id),
            depth,
            variables: Vec::new(),
            functions: Vec::new(),
            children: Vec::new(),
        };
        let ghost before = self.scopes@;
        self.scopes.push(new_scope);
        let idx = self.scopes.len() - 1;
        let ghost mid = self.scopes@;
        self.scopes[cur].children.push(id);
        proof {
            let after = self.scopes@;
            assert forall|i: int| 0 <= i < after.len() implies #[trigger] after[i].id@ == mid[i].id@ && after[i].parent
                == mid[i].parent by {}
            assert forall|i: int| 0 <= i < before.len() implies #[trigger] mid[i] == before[i] by {}
            assert forall|i: int, j: int|
                0 <= i < j < after.len() implies #[trigger] after[i].id@ != #[trigger] after[j].id@ by {
                assert(after[i].id@ == mid[i].id@);
                assert(after[j].id@ == mid[j].id@);
                if j < before.len() {
                    assert(mid[i].id@ == before[i].id@);
                    assert(mid[j].id@ == before[j].id@);
                } else {
                    assert(mid[i].id@ == before[i].id@);
                    assert(a.scopes[i].id == before[i].id@);
                }
            }
            assert forall|i: int| 0 < i < after.len() implies #[trigger] has_parent(after, i) by {
                if i == idx {
                    assert(after[i].parent == Some(before[cur as int].id));
                    assert(after[cur as int].id@ == mid[cur as int].id@);
                    assert(has_scope(after, before[cur as int].id@, cur as int));
                    assert(after[cur as int].depth == before[cur as int].depth);
                    let last = after[cur as int].children@.len() - 1;
                    assert(after[cur as int].children@[last]@ == after[i].id@);
                    assert(parent_link(after, i, cur as int));
                } else {
                    assert(has_parent(before, i));
                    let k = choose|k: int| parent_link(before, i, k);
                    assert(mid[i] == before[i]);
                    assert(after[i].parent == before[i].parent && after[i].id == before[i].id && after[i].depth
                        == before[i].depth);
                    assert(after[k].id@ == mid[k].id@);
                    assert(after[k].depth == before[k].depth);
                    let c = choose|c: int|
                        0 <= c < before[k].children@.len() && (#[trigger] before[k].children@[c])@ == before[i].id@;
                    assert(after[k].children@[c] == before[k].children@[c]);
                    assert(parent_link(after, i, k));
                }
            }
            assert forall|i: int, c: int|
                0 <= i < after.len() && 0 <= c < after[i].children@.len() implies has_scope_id(
                    after,
                    (#[trigger] after[i].children@[c])@,
                ) by {
                let ch = after[i].children@[c];
                if i == cur && c == after[i].children@.len() - 1 {
                    assert(ch@ == id@);
                    assert(after[idx as int].id@ == mid[idx as int].id@);
                    assert(has_scope(after, id@, idx as int));
                } else {
                    assert(ch == mid[i].children@[c]);
                    if i == idx {
                        assert(mid[i].children@.len() == 0);
                    }
                    assert(mid[i] == before[i]);
                    let k = choose|k: int| has_scope(before, ch@, k);
                    assert(after[k].id@ == mid[k].id@);
                    assert(has_scope(after, ch@, k));
                }
            }
            let w = with_scope(a, scope_type, nm);
            let f = self.state();
            assert(self.scope_counter == sat_inc(a.counter));
            let fresh = scope_view(new_scope);
            assert(mid.map_values(|s: Scope| scope_view(s)) =~= a.scopes.push(fresh));
            assert(fresh == ScopeView {
                id: id@,
                scope_type,
                parent: Some(a.scopes[a.current].id),
                depth: sat_inc(a.scopes[a.current].depth),
                variables: seq![],
                functions: seq![],
                children: seq![],
            }) by {
                assert(fresh.variables =~= Seq::<VarView>::empty());
                assert(fresh.functions =~= Seq::<Seq<char>>::empty());
                assert(fresh.children =~= Seq::<Seq<char>>::empty());
            }
            assert(string_views(after[cur as int].children@) =~= string_views(mid[cur as int].children@).push(id@));
            assert(f.scopes[cur as int] == w.scopes[cur as int]);
            assert forall|i: int| 0 <= i < f.scopes.len() implies f.scopes[i] == w.scopes[i] by {
                if i != cur {
                    assert(after[i] == mid[i]);
                }
            }
            assert(f.scopes =~= w.scopes);
        }
        idx
    }

    /// Records a declaration of `name` in the current scope; a function
    /// declaration is also listed among the scope's functions.
    fn add_variable_to_current_scope(
        &mut self,
        name: String,
        kind: VariableKind,
        line: usize,
        column: usize,
        is_hoisted: bool,
    )
        requires
            old(self).wf(),
        ensures
            final(self).wf(),
            final(self).current == old(self).current,
            final(self).scope_counter == old(self).scope_counter,
            final(self).scopes@.len() == old(self).scopes@.len(),
            forall|k: int|
                0 <= k < old(self).scopes@.len() && k != old(self).current ==> final(self).scopes@[k] == old(
                    self,
                ).scopes@[k],
            ({
                let o = old(self).scopes@[old(self).current as int];
                let f = final(self).scopes@[old(self).current as int];
                &&& f.id == o.id
                &&& f.parent == o.parent
                &&& f.depth == o.depth
                &&& f.scope_type == o.scope_type
                &&& f.children == o.children
                &&& f.variables@.len() == o.variables@.len() + 1
                &&& f.variables@.take(o.variables@.len() as int) == o.variables@
                &&& f.variables@.last().name@ == name@
                &&& f.variables@.last().canonical_name is None
                &&& f.variables@.last().kind == kind
                &&& f.variables@.last().declaration_line == line
                &&& f.variables@.last().declaration_column == column
                &&& f.variables@.last().is_hoisted == is_hoisted
                &&& (kind == VariableKind::FunctionDeclaration ==> f.functions@ == o.functions@.push(name))
                &&& (kind != VariableKind::FunctionDeclaration ==> f.functions == o.functions)
            }),
            final(self).state() == with_var(
                old(self).state(),
                VarView { name: name@, canonical: None, kind, line, column, hoisted: is_hoisted },
            ),
    {
        let ghost a = self.state();
        let ghost vv = VarView { name: name@, canonical: None, kind, line, column, hoisted: is_hoisted };
        let variable = Variable {
            name: name.clone(),
            canonical_name: None,
            kind,
            declaration_line: line,
            declaration_column: column,
            is_hoisted,
        };
        let cur = self.current;
        let ghost before = self.scopes@;
        if kind == VariableKind::FunctionDeclaration {
            self.scopes[cur].functions.push(name);
        }
        self.scopes[cur].variables.push(variable);
        proof {
            assert(self.scopes@[cur as int].variables@.take(before[cur as int].variables@.len() as int)
                =~= before[cur as int].variables@);
            assert forall|i: int| 0 < i < self.scopes@.len() implies #[trigger] has_parent(self.scopes@, i) by {
                assert(has_parent(before, i));
                let k = choose|k: int| parent_link(before, i, k);
                assert(self.scopes@[i].parent == before[i].parent);
                assert(self.scopes@[i].id == before[i].id);
                assert(self.scopes@[i].depth == before[i].depth);
                assert(self.scopes@[k].id == before[k].id);
                assert(self.scopes@[k].depth == before[k].depth);
                assert(self.scopes@[k].children == before[k].children);
                assert(parent_link(self.scopes@, i, k));
            }
            assert forall|i: int, j: int|
                0 <= i < j < self.scopes@.len() implies #[trigger] self.scopes@[i].id@
                    != #[trigger] self.scopes@[j].id@ by {
                assert(self.scopes@[i].id == before[i].id);
                assert(self.scopes@[j].id == before[j].id);
            }
            assert forall|i: int, c: int|
                0 <= i < self.scopes@.len() && 0 <= c < self.scopes@[i].children@.len() implies has_scope_id(
                    self.scopes@,
                    (#[trigger] self.scopes@[i].children@[c])@,
                ) by {
                assert(self.scopes@[i].children == before[i].children);
                let ch = before[i].children@[c];
                let k = choose|k: int| has_scope(before, ch@, k);
                assert(self.scopes@[k].id == before[k].id);
                assert(has_scope(self.scopes@, ch@, k));
            }
            let f = self.state();
            let w = with_var(a, vv);
            let nc = self.scopes@[cur as int];
            let oc = before[cur as int];
            assert(var_view(nc.variables@.last()) == vv);
            assert(nc.variables@.map_values(|v: Variable| var_view(v)) =~= oc.variables@.map_values(
                |v: Variable| var_view(v),
            ).push(vv)) by {
                assert(nc.variables@.take(oc.variables@.len() as int) =~= oc.variables@);
                assert forall|i: int| 0 <= i < oc.variables@.len() implies nc.variables@[i] == oc.variables@[i] by {
                    assert(nc.variables@.take(oc.variables@.len() as int)[i] == oc.variables@[i]);
                }
            }
            if kind == VariableKind::FunctionDeclaration {
                assert(string_views(nc.functions@) =~= string_views(oc.functions@).push(name@));
            }
            assert(f.scopes[cur as int] == w.scopes[cur as int]);
            assert forall|i: int| 0 <= i < f.scopes.len() implies f.scopes[i] == w.scopes[i] by {
                if i != cur {
                    assert(self.scopes@[i] == before[i]);
                }
            }
            assert(f.scopes =~= w.scopes);
        }
    }

    /// The variable that `identifier` refers to when used in scope
    /// `from_scope_id`: the first declaration of that name in the scope, else
    /// in its parent, and so on outward.
    pub fn resolve_identifier(&self, identifier: &str, from_scope_id: &str) -> (r: Option<&Variable>)
        requires
            self.wf(),
        ensures
            ({
                let expected = match self.find_scope_spec(from_scope_id@) {
                    Some(k) => resolve_from(self.scopes_view(), k, identifier@, self.scopes_view().len()),
                    None => None,
                };
                match r {
                    Some(v) => expected == Some(*v),
                    None => expected is None,
                }
            }),
    {
        let start = self.find_scope(from_scope_id);
        proof {
            lemma_find_scope_spec(self.scopes@, from_scope_id@);
        }
        let mut k = match start {
            Some(k) => k,
            None => {
                return None;
            },
        };
        let mut fuel: usize = self.scopes.len();
        while fuel > 0
            invariant
                self.wf(),
                k < self.scopes@.len(),
                start is Some,
                self.find_scope_spec(from_scope_id@) == Some(start->0 as int),
                resolve_from(self.scopes@, k as int, identifier@, fuel as nat) == resolve_from(
                    self.scopes@,
                    start->0 as int,
                    identifier@,
                    self.scopes@.len(),
                ),
            decreases fuel,
        {
            let vars = &self.scopes[k].variables;
            let mut j: usize = 0;
            while j < vars.len()
                invariant
                    vars@ == self.scopes@[k as int].variables@,
                    j <= vars@.len(),
                    k < self.scopes@.len(),
                    fuel > 0,
                    start is Some,
                    self.find_scope_spec(from_scope_id@) == Some(start->0 as int),
                    resolve_from(self.scopes@, k as int, identifier@, fuel as nat) == resolve_from(
                        self.scopes@,
                        start->0 as int,
                        identifier@,
                        self.scopes@.len(),
                    ),
                    first_var_named(vars@, identifier@, 0) == first_var_named(vars@, identifier@, j as int),
                decreases vars.len() - j,
            {
                if str_eq(vars[j].name.as_str(), identifier) {
                    assert(first_var_named(vars@, identifier@, j as int) == Some(j as int));
                    return Some(&vars[j]);
                }
                j = j + 1;
            }
            assert(first_var_named(vars@, identifier@, vars@.len() as int) is None);
            match &self.scopes[k].parent {
                Some(p) => {
                    match self.find_scope(p.as_str()) {
                        Some(q) => {
                            proof {
                                lemma_find_scope_spec(self.scopes@, p@);
                            }
                            k = q;
                        },
                        None => {
                            proof {
                                lemma_find_scope_spec(self.scopes@, p@);
                                assert(find_scope_index(self.scopes@, p@) is None);
                                assert(resolve_from(self.scopes@, k as int, identifier@, fuel as nat) is None);
                            }
                            return None;
                        },
                    }
                },
                None => {
                    return None;
                },
            }
            fuel = fuel - 1;
        }
        None
    }


    /// Whether `self` differs from `before` only by declarations appended to
    /// the current scope: one per node of `bs`, of kind `kind`.
    pub closed spec fn declared_in_current(
        self,
        before: ScopeAnalyzer,
        t: SyntaxTree,
        bs: Seq<usize>,
        kind: VariableKind,
        hoisted: bool,
    ) -> bool {
        &&& self.wf()
        &&& self.current == before.current
        &&& self.scope_counter == before.scope_counter
        &&& self.scopes@.len() == before.scopes@.len()
        &&& forall|k: int|
            0 <= k < before.scopes@.len() && k != before.current ==> self.scopes@[k] == before.scopes@[k]
        &&& ({
            let o = before.scopes@[before.current as int];
            let f = self.scopes@[before.current as int];
            &&& f.id == o.id
            &&& f.parent == o.parent
            &&& f.depth == o.depth
            &&& f.scope_type == o.scope_type
            &&& f.children == o.children
            &&& (kind != VariableKind::FunctionDeclaration ==> f.functions == o.functions)
            &&& extends_with(o.variables@, f.variables@, t, bs, kind, hoisted)
        })
    }

    proof fn lemma_declared_refl(self, t: SyntaxTree, kind: VariableKind, hoisted: bool)
        requires
            self.wf(),
        ensures
            self.declared_in_current(self, t, seq![], kind, hoisted),
    {
        let vs = self.scopes@[self.current as int].variables@;
        assert(vs.take(vs.len() as int) =~= vs);
    }

    proof fn lemma_declared_trans(
        a: ScopeAnalyzer,
        b: ScopeAnalyzer,
        c: ScopeAnalyzer,
        t: SyntaxTree,
        bs1: Seq<usize>,
        bs2: Seq<usize>,
        kind: VariableKind,
        hoisted: bool,
    )
        requires
            b.declared_in_current(a, t, bs1, kind, hoisted),
            c.declared_in_current(b, t, bs2, kind, hoisted),
        ensures
            c.declared_in_current(a, t, bs1 + bs2, kind, hoisted),
    {
        let o = a.scopes@[a.current as int].variables@;
        let m = b.scopes@[a.current as int].variables@;
        let f = c.scopes@[a.current as int].variables@;
        lemma_extends_trans(o, m, f, t, bs1, bs2, kind, hoisted);
    }

    proof fn lemma_declared_state(
        self,
        before: ScopeAnalyzer,
        t: SyntaxTree,
        bs: Seq<usize>,
        kind: VariableKind,
        hoisted: bool,
    )
        requires
            self.declared_in_current(before, t, bs, kind, hoisted),
            kind != VariableKind::FunctionDeclaration,
        ensures
            self.state() == with_vars(before.state(), bindings_view(t, bs, kind, hoisted)),
    {
        let cur = before.current as int;
        let o = before.scopes@[cur].variables@;
        let f = self.scopes@[cur].variables@;
        let vs = bindings_view(t, bs, kind, hoisted);
        assert(f.map_values(|v: Variable| var_view(v)) =~= o.map_values(|v: Variable| var_view(v)) + vs) by {
            assert forall|i: int| 0 <= i < o.len() implies f[i] == o[i] by {
                assert(f.take(o.len() as int)[i] == o[i]);
            }
            assert forall|k: int| 0 <= k < bs.len() implies var_view(f[o.len() + k]) == vs[k] by {
                assert(declares(f[o.len() + k], t, bs[k] as int, kind, hoisted));
            }
        }
        let w = with_vars(before.state(), vs);
        let st = self.state();
        assert forall|i: int| 0 <= i < st.scopes.len() implies st.scopes[i] == w.scopes[i] by {
            if i != cur {
                assert(self.scopes@[i] == before.scopes@[i]);
            }
        }
        assert(st.scopes =~= w.scopes);
    }

    /// Records the binding node `b` in the current scope.
    fn declare_node(&mut self, t: &SyntaxTree, b: usize, kind: VariableKind, hoisted: bool)
        requires
            old(self).wf(),
            t.wf(),
            b < t.nodes@.len(),
            kind != VariableKind::FunctionDeclaration,
        ensures
            final(self).declared_in_current(*old(self), *t, seq![b], kind, hoisted),
    {
        let name = t.text_of(b);
        let line = t.nodes[b].start_row;
        let column = t.nodes[b].start_col;
        self.add_variable_to_current_scope(name, kind, line, column, hoisted);
        proof {
            let o = old(self).scopes@[old(self).current as int].variables@;
            let f = self.scopes@[old(self).current as int].variables@;
            assert(f[o.len() as int] == f.last());
        }
    }

    /// Records the names that the destructuring pattern at node `n` binds.
    fn handle_pattern(&mut self, t: &SyntaxTree, n: usize, kind: VariableKind)
        requires
            old(self).wf(),
            t.wf(),
            n < t.nodes@.len(),
            kind != VariableKind::FunctionDeclaration,
        ensures
            final(self).declared_in_current(*old(self), *t, pattern_bindings(*t, n as int), kind, kind == VariableKind::Var),
        decreases t.nodes@.len() - n, 3int, 0int,
    {
        let hoisted = kind == VariableKind::Var;
        proof {
            reveal_strlit("identifier");
            reveal_strlit("object_pattern");
            reveal_strlit("array_pattern");
            reveal_strlit("assignment_pattern");
        }
        if t.kind_is(n, "identifier") {
            self.declare_node(t, n, kind, hoisted);
        } else if t.kind_is(n, "object_pattern") {
            self.handle_children(t, n, kind, ListMode::ObjectPattern);
        } else if t.kind_is(n, "array_pattern") {
            self.handle_children(t, n, kind, ListMode::ArrayPattern);
        } else if t.kind_is(n, "assignment_pattern") {
            match t.child_by_field_name(n, "left") {
                Some(l) => {
                    self.handle_pattern(t, l, kind);
                },
                None => {
                    proof {
                        self.lemma_declared_refl(*t, kind, hoisted);
                    }
                },
            }
        } else {
            proof {
                self.lemma_declared_refl(*t, kind, hoisted);
            }
        }
    }

    /// Records the target of the rest element `c` inside pattern `n`.
    fn handle_rest(&mut self, t: &SyntaxTree, n: usize, c: usize, kind: VariableKind)
        requires
            old(self).wf(),
            t.wf(),
            n < c < t.nodes@.len(),
            kind != VariableKind::FunctionDeclaration,
        ensures
            final(self).declared_in_current(*old(self), *t, rest_bindings(*t, n as int, c as int), kind, kind == VariableKind::Var),
        decreases t.nodes@.len() - n, 1int, 0int,
    {
        match t.child(c, 1) {
            Some(r) => {
                self.handle_pattern(t, r, kind);
            },
            None => {
                proof {
                    self.lemma_declared_refl(*t, kind, kind == VariableKind::Var);
                }
            },
        }
    }

    /// Records the bindings of child `c` of node `n`.
    fn handle_child(&mut self, t: &SyntaxTree, n: usize, c: usize, kind: VariableKind, mode: ListMode)
        requires
            old(self).wf(),
            t.wf(),
            n < c < t.nodes@.len(),
            kind != VariableKind::FunctionDeclaration,
            mode == ListMode::Parameters ==> kind == VariableKind::Parameter,
        ensures
            final(self).declared_in_current(*old(self), *t, child_bindings(*t, n as int, c as int, mode), kind, kind == VariableKind::Var),
        decreases t.nodes@.len() - n, 1int, 1int,
    {
        let hoisted = kind == VariableKind::Var;
        proof {
            reveal_strlit("identifier");
            reveal_strlit("object_pattern");
            reveal_strlit("array_pattern");
            reveal_strlit("assignment_pattern");
            reveal_strlit("rest_pattern");
            reveal_strlit("pair_pattern");
            reveal_strlit("shorthand_property_identifier_pattern");
            reveal_strlit("variable_declarator");
            reveal_strlit("[");
            reveal_strlit("]");
            reveal_strlit(",");
        }
        match mode {
            ListMode::ObjectPattern => {
                if t.kind_is(c, "shorthand_property_identifier_pattern") {
                    self.declare_node(t, c, kind, hoisted);
                } else if t.kind_is(c, "pair_pattern") {
                    match t.child_by_field_name(c, "value") {
                        Some(v) => {
                            self.handle_pattern(t, v, kind);
                        },
                        None => {
                            proof {
                                self.lemma_declared_refl(*t, kind, hoisted);
                            }
                        },
                    }
                } else if t.kind_is(c, "rest_pattern") {
                    self.handle_rest(t, n, c, kind);
                } else if t.kind_is(c, "object_pattern") || t.kind_is(c, "array_pattern") {
                    self.handle_pattern(t, c, kind);
                } else {
                    proof {
                        self.lemma_declared_refl(*t, kind, hoisted);
                    }
                }
            },
            ListMode::ArrayPattern => {
                if t.kind_is(c, "identifier") {
                    self.declare_node(t, c, kind, hoisted);
                } else if t.kind_is(c, "rest_pattern") {
                    self.handle_rest(t, n, c, kind);
                } else if t.kind_is(c, "[") || t.kind_is(c, "]") || t.kind_is(c, ",") {
                    proof {
                        self.lemma_declared_refl(*t, kind, hoisted);
                    }
                } else {
                    self.handle_pattern(t, c, kind);
                }
            },
            ListMode::Parameters => {
                if t.kind_is(c, "identifier") {
                    self.declare_node(t, c, kind, false);
                } else if t.kind_is(c, "object_pattern") || t.kind_is(c, "array_pattern") || t.kind_is(
                    c,
                    "assignment_pattern",
                ) {
                    self.handle_pattern(t, c, kind);
                } else if t.kind_is(c, "rest_pattern") {
                    self.handle_rest(t, n, c, kind);
                } else {
                    proof {
                        self.lemma_declared_refl(*t, kind, hoisted);
                    }
                }
            },
            ListMode::Declarators => {
                if t.kind_is(c, "variable_declarator") {
                    match t.child_by_field_name(c, "name") {
                        Some(v) => {
                            self.handle_pattern(t, v, kind);
                        },
                        None => {
                            proof {
                                self.lemma_declared_refl(*t, kind, hoisted);
                            }
                        },
                    }
                } else {
                    proof {
                        self.lemma_declared_refl(*t, kind, hoisted);
                    }
                }
            },
        }
    }

    /// Records the bindings of every child of node `n`.
    fn handle_children(&mut self, t: &SyntaxTree, n: usize, kind: VariableKind, mode: ListMode)
        requires
            old(self).wf(),
            t.wf(),
            n < t.nodes@.len(),
            kind != VariableKind::FunctionDeclaration,
            mode == ListMode::Parameters ==> kind == VariableKind::Parameter,
        ensures
            final(self).declared_in_current(*old(self), *t, children_bindings(*t, n as int, 0, mode), kind, kind == VariableKind::Var),
        decreases t.nodes@.len() - n, 2int, 0int,
    {
        let hoisted = kind == VariableKind::Var;
        let count = t.child_count(n);
        let ghost start = *self;
        let ghost mut done: Seq<usize> = seq![];
        proof {
            self.lemma_declared_refl(*t, kind, hoisted);
            assert(done + children_bindings(*t, n as int, 0, mode) == children_bindings(*t, n as int, 0, mode));
        }
        let mut k: usize = 0;
        while k < count
            invariant
                t.wf(),
                n < t.nodes@.len(),
                count == t.nodes@[n as int].children@.len(),
                k <= count,
                kind != VariableKind::FunctionDeclaration,
                mode == ListMode::Parameters ==> kind == VariableKind::Parameter,
                hoisted == (kind == VariableKind::Var),
                self.declared_in_current(start, *t, done, kind, hoisted),
                done + children_bindings(*t, n as int, k as int, mode) == children_bindings(*t, n as int, 0, mode),
            decreases count - k,
        {
            let c = t.nodes[n].children[k];
            let ghost before = *self;
            self.handle_child(t, n, c, kind, mode);
            proof {
                let step = child_bindings(*t, n as int, c as int, mode);
                assert(children_bindings(*t, n as int, k as int, mode) == step + children_bindings(*t, n as int, k + 1, mode));
                Self::lemma_declared_trans(start, before, *self, *t, done, step, kind, hoisted);
                assert(done + step + children_bindings(*t, n as int, k + 1, mode) == done + (step + children_bindings(*t, n as int, k + 1, mode)));
                done = done + step;
            }
            k = k + 1;
        }
        proof {
            assert(children_bindings(*t, n as int, count as int, mode) == Seq::<usize>::empty());
            assert(done =~= children_bindings(*t, n as int, 0, mode));
        }
    }

    /// Whether `self` is a well-formed state reached from `before` by
    /// opening scopes and declaring names; no scope is lost.
    pub closed spec fn grown_from(self, before: ScopeAnalyzer) -> bool {
        &&& self.wf()
        &&& self.scopes@.len() >= before.scopes@.len()
    }

    /// Analyzes the whole program: opens a scope for every function, class,
    /// block of its own, loop with its own binding, and catch clause, and
    /// records every declaration in the scope it belongs to, in the order of
    /// the walk. The current scope is the same again afterwards.
    pub fn analyze(&mut self, t: &SyntaxTree)
        requires
            old(self).wf(),
            t.wf(),
        ensures
            final(self).wf(),
            final(self).current_index() == old(self).current_index(),
            final(self).scopes_view().len() >= old(self).scopes_view().len(),
            final(self).state() == walk(*t, old(self).state(), 0),
    {
        self.visit_node(t, 0);
    }

    fn visit_node(&mut self, t: &SyntaxTree, i: usize)
        requires
            old(self).wf(),
            t.wf(),
            i < t.nodes@.len(),
        ensures
            final(self).grown_from(*old(self)),
            final(self).current == old(self).current,
            final(self).state() == walk(*t, old(self).state(), i as int),
        decreases t.nodes@.len() - i,
    {
        let old_current = self.current;
        let ghost start = *self;
        let ghost a = self.state();
        let mut scope_changed = false;
        proof {
            reveal_strlit("function_declaration");
            reveal_strlit("function_expression");
            reveal_strlit("arrow_function");
            reveal_strlit("block_statement");
            reveal_strlit("class_declaration");
            reveal_strlit("variable_declaration");
            reveal_strlit("lexical_declaration");
            reveal_strlit("for_in_statement");
            reveal_strlit("for_of_statement");
            reveal_strlit("catch_clause");
            reveal_strlit("import_statement");
        }
        if t.kind_is(i, "function_declaration") || t.kind_is(i, "function_expression") {
            self.handle_function(t, i);
            scope_changed = true;
        } else if t.kind_is(i, "arrow_function") {
            self.handle_arrow_function(t, i);
            scope_changed = true;
        } else if t.kind_is(i, "block_statement") {
            if self.should_create_block_scope(t, i) {
                self.handle_block_scope();
                scope_changed = true;
            }
        } else if t.kind_is(i, "class_declaration") {
            self.handle_class(t, i);
            scope_changed = true;
        } else if t.kind_is(i, "variable_declaration") || t.kind_is(i, "lexical_declaration") {
            self.handle_variable_declaration(t, i);
        } else if t.kind_is(i, "for_in_statement") || t.kind_is(i, "for_of_statement") {
            self.handle_for_statement(t, i);
            scope_changed = true;
        } else if t.kind_is(i, "catch_clause") {
            self.handle_catch_clause(t, i);
            scope_changed = true;
        } else if t.kind_is(i, "import_statement") {
            self.handle_import_statement(t, i);
        }
        let ghost a1 = self.state();
        assert(enter_node(*t, a, i as int) == (a1, scope_changed));
        let count = t.child_count(i);
        let mut k: usize = 0;
        while k < count
            invariant
                t.wf(),
                i < t.nodes@.len(),
                count == t.nodes@[i as int].children@.len(),
                k <= count,
                self.grown_from(start),
                old_current == start.current,
                !scope_changed ==> self.current == start.current,
                walk_children(*t, self.state(), i as int, k as int) == walk_children(*t, a1, i as int, 0),
            decreases count - k,
        {
            let c = t.nodes[i].children[k];
            let ghost before = self.state();
            self.visit_node(t, c);
            assert(walk_children(*t, before, i as int, k as int) == walk_children(
                *t,
                walk(*t, before, c as int),
                i as int,
                k + 1,
            ));
            k = k + 1;
        }
        assert(walk_children(*t, self.state(), i as int, count as int) == self.state());
        if scope_changed {
            self.current = old_current;
        }
        assert(self.state() == walk(*t, a, i as int));
    }

    /// A function opens a scope named after it; its name is declared in the
    /// enclosing scope and its parameters in the new one, which becomes current.
    fn handle_function(&mut self, t: &SyntaxTree, n: usize)
        requires
            old(self).wf(),
            t.wf(),
            n < t.nodes@.len(),
        ensures
            final(self).grown_from(*old(self)),
            final(self).state() == after_function(*t, old(self).state(), n as int),
    {
        let ghost a = self.state();
        let name_node = t.child_by_field_name(n, "name");
        let name = match name_node {
            Some(nn) => t.text_of(nn),
            None => {
                let mut a = String::new();
                push_str(&mut a, "anonymous");
                a
            },
        };
        assert(name@ == name_or_anonymous(*t, name_node));
        let scope = self.create_scope(ScopeType::Function, Some(name.as_str()));
        let ghost a1 = self.state();
        match name_node {
            Some(nn) => {
                let line = t.nodes[nn].start_row;
                let column = t.nodes[nn].start_col;
                self.add_variable_to_current_scope(name, VariableKind::FunctionDeclaration, line, column, true);
            },
            None => {},
        }
        self.current = scope;
        let ghost a3 = self.state();
        assert(a3 == with_current(
            match name_node {
                Some(x) => with_var(a1, declaration_at(*t, name_or_anonymous(*t, name_node), x as int, VariableKind::FunctionDeclaration, true)),
                None => a1,
            },
            opened_index(a, ScopeType::Function, Some(name_or_anonymous(*t, name_node))),
        ));
        match t.child_by_field_name(n, "parameters") {
            Some(p) => {
                self.handle_parameters(t, p);
            },
            None => {},
        }
    }

    /// An arrow function opens an unnamed scope holding its parameters.
    fn handle_arrow_function(&mut self, t: &SyntaxTree, n: usize)
        requires
            old(self).wf(),
            t.wf(),
            n < t.nodes@.len(),
        ensures
            final(self).grown_from(*old(self)),
            final(self).state() == after_arrow(*t, old(self).state(), n as int),
    {
        let scope = self.create_scope(ScopeType::Function, None);
        self.current = scope;
        match t.child_by_field_name(n, "parameters") {
            Some(p) => {
                self.handle_parameters(t, p);
            },
            None => {},
        }
    }

    /// Declares the parameters listed by the node `params` in the current scope.
    fn handle_parameters(&mut self, t: &SyntaxTree, params: usize)
        requires
            old(self).wf(),
            t.wf(),
            params < t.nodes@.len(),
        ensures
            final(self).declared_in_current(
                *old(self),
                *t,
                children_bindings(*t, params as int, 0, ListMode::Parameters),
                VariableKind::Parameter,
                false,
            ),
            final(self).state() == with_vars(
                old(self).state(),
                bindings_view(*t, children_bindings(*t, params as int, 0, ListMode::Parameters), VariableKind::Parameter, false),
            ),
    {
        self.handle_children(t, params, VariableKind::Parameter, ListMode::Parameters);
        proof {
            self.lemma_declared_state(
                *old(self),
                *t,
                children_bindings(*t, params as int, 0, ListMode::Parameters),
                VariableKind::Parameter,
                false,
            );
        }
    }

    /// Opens an unnamed block scope and makes it current.
    fn handle_block_scope(&mut self)
        requires
            old(self).wf(),
        ensures
            final(self).grown_from(*old(self)),
            final(self).state() == after_block(old(self).state()),
    {
        let scope = self.create_scope(ScopeType::Block, None);
        self.current = scope;
    }

    /// A class is declared in the enclosing scope and opens a scope named after it.
    fn handle_class(&mut self, t: &SyntaxTree, n: usize)
        requires
            old(self).wf(),
            t.wf(),
            n < t.nodes@.len(),
        ensures
            final(self).grown_from(*old(self)),
            final(self).state() == after_class(*t, old(self).state(), n as int),
    {
        let name_node = t.child_by_field_name(n, "name");
        let name = match name_node {
            Some(nn) => t.text_of(nn),
            None => {
                let mut a = String::new();
                push_str(&mut a, "anonymous");
                a
            },
        };
        assert(name@ == name_or_anonymous(*t, name_node));
        let line = t.nodes[n].start_row;
        let column = t.nodes[n].start_col;
        let name_copy = name.clone();
        self.add_variable_to_current_scope(name, VariableKind::ClassDeclaration, line, column, false);
        let scope = self.create_scope(ScopeType::Class, Some(name_copy.as_str()));
        self.current = scope;
    }

    /// A `var`, `let` or `const` declaration declares the names that each of
    /// its declarators binds; any other first token declares nothing.
    fn handle_variable_declaration(&mut self, t: &SyntaxTree, n: usize)
        requires
            old(self).wf(),
            t.wf(),
            n < t.nodes@.len(),
        ensures
            final(self).grown_from(*old(self)),
            final(self).current == old(self).current,
            final(self).state() == after_var_decl(*t, old(self).state(), n as int),
    {
        proof {
            reveal_strlit("var");
            reveal_strlit("let");
            reveal_strlit("const");
        }
        let first = t.child(n, 0);
        let kind = match first {
            Some(f) => {
                if t.kind_is(f, "var") {
                    VariableKind::Var
                } else if t.kind_is(f, "let") {
                    VariableKind::Let
                } else if t.kind_is(f, "const") {
                    VariableKind::Const
                } else {
                    return;
                }
            },
            None => {
                return;
            },
        };
        self.handle_children(t, n, kind, ListMode::Declarators);
        proof {
            self.lemma_declared_state(
                *old(self),
                *t,
                children_bindings(*t, n as int, 0, ListMode::Declarators),
                kind,
                kind == VariableKind::Var,
            );
        }
    }

    /// A `for ... in` or `for ... of` loop opens a block scope holding its loop variable.
    fn handle_for_statement(&mut self, t: &SyntaxTree, n: usize)
        requires
            old(self).wf(),
            t.wf(),
            n < t.nodes@.len(),
        ensures
            final(self).grown_from(*old(self)),
            final(self).state() == after_for(*t, old(self).state(), n as int),
    {
        let scope = self.create_scope(ScopeType::Block, None);
        self.current = scope;
        match t.child_by_field_name(n, "left") {
            Some(left) => {
                self.handle_loop_variable(t, left);
            },
            None => {},
        }
    }

    fn handle_loop_variable(&mut self, t: &SyntaxTree, n: usize)
        requires
            old(self).wf(),
            t.wf(),
            n < t.nodes@.len(),
        ensures
            final(self).grown_from(*old(self)),
            final(self).current == old(self).current,
            final(self).state() == after_loop_var(*t, old(self).state(), n as int),
    {
        proof {
            reveal_strlit("variable_declaration");
            reveal_strlit("lexical_declaration");
            reveal_strlit("identifier");
        }
        if t.kind_is(n, "variable_declaration") || t.kind_is(n, "lexical_declaration") {
            self.handle_variable_declaration(t, n);
        } else if t.kind_is(n, "identifier") {
            let name = t.text_of(n);
            self.add_variable_to_current_scope(name, VariableKind::Let, t.nodes[n].start_row, t.nodes[n].start_col, false);
        }
    }

    /// A catch clause opens a block scope holding its parameter when that is an identifier.
    fn handle_catch_clause(&mut self, t: &SyntaxTree, n: usize)
        requires
            old(self).wf(),
            t.wf(),
            n < t.nodes@.len(),
        ensures
            final(self).grown_from(*old(self)),
            final(self).state() == after_catch(*t, old(self).state(), n as int),
    {
        proof {
            reveal_strlit("identifier");
        }
        let scope = self.create_scope(ScopeType::Block, None);
        self.current = scope;
        match t.child_by_field_name(n, "parameter") {
            Some(p) => {
                if t.kind_is(p, "identifier") {
                    let name = t.text_of(p);
                    self.add_variable_to_current_scope(
                        name,
                        VariableKind::Parameter,
                        t.nodes[p].start_row,
                        t.nodes[p].start_col,
                        false,
                    );
                }
            },
            None => {},
        }
    }

    /// Declares the names that an import statement's clauses bring in.
    fn handle_import_statement(&mut self, t: &SyntaxTree, n: usize)
        requires
            old(self).wf(),
            t.wf(),
            n < t.nodes@.len(),
        ensures
            final(self).grown_from(*old(self)),
            final(self).current == old(self).current,
            final(self).state() == import_from(*t, old(self).state(), n as int, 0),
    {
        proof {
            reveal_strlit("import_clause");
        }
        let count = t.child_count(n);
        let ghost start = *self;
        let mut k: usize = 0;
        while k < count
            invariant
                t.wf(),
                n < t.nodes@.len(),
                count == t.nodes@[n as int].children@.len(),
                k <= count,
                self.grown_from(start),
                self.current == start.current,
                import_from(*t, self.state(), n as int, k as int) == import_from(*t, start.state(), n as int, 0),
            decreases count - k,
        {
            let c = t.nodes[n].children[k];
            if t.kind_is(c, "import_clause") {
                self.handle_import_clause(t, c);
            }
            k = k + 1;
        }
    }

    /// Declares the default import, the namespace alias, and each named
    /// import (by its alias when it has one) as constants.
    fn handle_import_clause(&mut self, t: &SyntaxTree, n: usize)
        requires
            old(self).wf(),
            t.wf(),
            n < t.nodes@.len(),
        ensures
            final(self).grown_from(*old(self)),
            final(self).current == old(self).current,
            final(self).state() == clause_parts_from(*t, old(self).state(), n as int, 0),
    {
        proof {
            reveal_strlit("identifier");
            reveal_strlit("namespace_import");
            reveal_strlit("named_imports");
        }
        let count = t.child_count(n);
        let ghost start = *self;
        let mut k: usize = 0;
        while k < count
            invariant
                t.wf(),
                n < t.nodes@.len(),
                count == t.nodes@[n as int].children@.len(),
                k <= count,
                self.grown_from(start),
                self.current == start.current,
                clause_parts_from(*t, self.state(), n as int, k as int) == clause_parts_from(
                    *t,
                    start.state(),
                    n as int,
                    0,
                ),
            decreases count - k,
        {
            let c = t.nodes[n].children[k];
            if t.kind_is(c, "identifier") {
                let name = t.text_of(c);
                self.add_variable_to_current_scope(name, VariableKind::Const, t.nodes[c].start_row, t.nodes[c].start_col, false);
            } else if t.kind_is(c, "namespace_import") {
                match t.child_by_field_name(c, "alias") {
                    Some(a) => {
                        let name = t.text_of(a);
                        self.add_variable_to_current_scope(
                            name,
                            VariableKind::Const,
                            t.nodes[a].start_row,
                            t.nodes[a].start_col,
                            false,
                        );
                    },
                    None => {},
                }
            } else if t.kind_is(c, "named_imports") {
                self.handle_named_imports(t, c);
            }
            k = k + 1;
        }
    }

    fn handle_named_imports(&mut self, t: &SyntaxTree, n: usize)
        requires
            old(self).wf(),
            t.wf(),
            n < t.nodes@.len(),
        ensures
            final(self).grown_from(*old(self)),
            final(self).current == old(self).current,
            final(self).state() == named_imports_from(*t, old(self).state(), n as int, 0),
    {
        proof {
            reveal_strlit("import_specifier");
        }
        let count = t.child_count(n);
        let ghost start = *self;
        let mut k: usize = 0;
        while k < count
            invariant
                t.wf(),
                n < t.nodes@.len(),
                count == t.nodes@[n as int].children@.len(),
                k <= count,
                self.grown_from(start),
                self.current == start.current,
                named_imports_from(*t, self.state(), n as int, k as int) == named_imports_from(
                    *t,
                    start.state(),
                    n as int,
                    0,
                ),
            decreases count - k,
        {
            let spec_node = t.nodes[n].children[k];
            if t.kind_is(spec_node, "import_specifier") {
                let chosen = match t.child_by_field_name(spec_node, "alias") {
                    Some(a) => Some(a),
                    None => t.child_by_field_name(spec_node, "name"),
                };
                match chosen {
                    Some(x) => {
                        let name = t.text_of(x);
                        self.add_variable_to_current_scope(
                            name,
                            VariableKind::Const,
                            t.nodes[spec_node].start_row,
                            t.nodes[spec_node].start_col,
                            false,
                        );
                    },
                    None => {},
                }
            }
            k = k + 1;
        }
    }

    /// A block opens its own scope unless it is the body of a function or method.
    fn should_create_block_scope(&self, t: &SyntaxTree, n: usize) -> (r: bool)
        requires
            t.wf(),
            n < t.nodes@.len(),
        ensures
            r == match t.nodes@[n as int].parent {
                Some(p) => !(t.kind(p as int) == "function_declaration"@ || t.kind(p as int) == "function_expression"@
                    || t.kind(p as int) == "arrow_function"@ || t.kind(p as int) == "method_definition"@),
                None => true,
            },
    {
        match t.parent_of(n) {
            Some(p) => !(t.kind_is(p, "function_declaration") || t.kind_is(p, "function_expression") || t.kind_is(
                p,
                "arrow_function",
            ) || t.kind_is(p, "method_definition")),
            None => true,
        }
    }

    /// What the invariant guarantees to other modules: the global scope comes
    /// first and no two scopes share an id.
    pub proof fn lemma_wf_facts(&self)
        requires
            self.wf(),
        ensures
            self.scopes_view().len() > 0,
            self.scopes_view()[0].id@ == "global"@,
            self.scopes_view()[0].parent is None,
            forall|i: int, j: int|
                0 <= i < j < self.scopes_view().len() ==> #[trigger] self.scopes_view()[i].id@
                    != #[trigger] self.scopes_view()[j].id@,
            forall|i: int, c: int|
                0 <= i < self.scopes_view().len() && 0 <= c < self.scopes_view()[i].children@.len() ==> has_scope_id(
                    self.scopes_view(),
                    (#[trigger] self.scopes_view()[i].children@[c])@,
                ),
    {
    }

    /// The scopes form a tree rooted at the global scope: from every scope,
    /// following the parents reaches the global scope, each step going to a
    /// scope opened earlier, so no chain of parents runs in a circle.
    pub proof fn lemma_parents_reach_global(&self, i: int)
        requires
            self.wf(),
            0 <= i < self.scopes_view().len(),
        ensures
            reaches_global(self.scopes_view(), i, i as nat),
        decreases i,
    {
        if i > 0 {
            let p = self.scopes@[i].parent.unwrap();
            assert(has_parent(self.scopes@, i));
            let k0 = choose|k: int| parent_link(self.scopes@, i, k);
            assert(0 <= k0 < i && has_scope(self.scopes@, p@, k0));
            let k = parent_index(self.scopes@, i).unwrap();
            self.lemma_parents_reach_global(k);
            lemma_reaches_global_more(self.scopes@, k, k as nat, (i - 1) as nat);
        }
    }

    /// Every scope but the global one has a parent scope that was opened
    /// before it, lies one level higher and lists it among its children.
    pub proof fn lemma_parent_of(&self, i: int)
        requires
            self.wf(),
            0 < i < self.scopes_view().len(),
        ensures
            exists|k: int| parent_link(self.scopes_view(), i, k),
    {
        assert(has_parent(self.scopes@, i));
    }

    pub open spec fn find_scope_spec(&self, id: Seq<char>) -> Option<int> {
        find_scope_index(self.scopes_view(), id)
    }
}


/// The index of the scope that scope `i`'s parent names, when one stands
/// before `i`.
pub open spec fn parent_index(scopes: Seq<Scope>, i: int) -> Option<int> {
    match scopes[i].parent {
        Some(p) => if exists|k: int| 0 <= k < i && has_scope(scopes, p@, k) {
            Some(choose|k: int| 0 <= k < i && has_scope(scopes, p@, k))
        } else {
            None
        },
        None => None,
    }
}

/// Whether following parents from scope `i` of `scopes` reaches the global
/// scope, the first, in at most `steps` steps, each to a scope that stands
/// earlier.
pub open spec fn reaches_global(scopes: Seq<Scope>, i: int, steps: nat) -> bool
    decreases steps,
{
    i == 0 || (steps > 0 && 0 < i < scopes.len() && match parent_index(scopes, i) {
        Some(k) => 0 <= k < i && reaches_global(scopes, k, (steps - 1) as nat),
        None => false,
    })
}

proof fn lemma_reaches_global_more(scopes: Seq<Scope>, i: int, a: nat, b: nat)
    requires
        a <= b,
        reaches_global(scopes, i, a),
    ensures
        reaches_global(scopes, i, b),
    decreases a,
{
    if i != 0 {
        let k = parent_index(scopes, i).unwrap();
        lemma_reaches_global_more(scopes, k, (a - 1) as nat, (b - 1) as nat);
    }
}

/// Whether `after` is `before` followed by one declaration for each node of `bs`.
pub open spec fn extends_with(
    before: Seq<Variable>,
    after: Seq<Variable>,
    t: SyntaxTree,
    bs: Seq<usize>,
    kind: VariableKind,
    hoisted: bool,
) -> bool {
    &&& after.len() == before.len() + bs.len()
    &&& after.take(before.len() as int) == before
    &&& forall|k: int| 0 <= k < bs.len() ==> declares(#[trigger] after[before.len() + k], t, bs[k] as int, kind, hoisted)
}

proof fn lemma_extends_trans(
    a: Seq<Variable>,
    b: Seq<Variable>,
    c: Seq<Variable>,
    t: SyntaxTree,
    bs1: Seq<usize>,
    bs2: Seq<usize>,
    kind: VariableKind,
    hoisted: bool,
)
    requires
        extends_with(a, b, t, bs1, kind, hoisted),
        extends_with(b, c, t, bs2, kind, hoisted),
    ensures
        extends_with(a, c, t, bs1 + bs2, kind, hoisted),
{
    assert(c.take(a.len() as int) =~= a) by {
        assert forall|i: int| 0 <= i < a.len() implies c[i] == a[i] by {
            assert(c.take(b.len() as int)[i] == b[i]);
            assert(b.take(a.len() as int)[i] == a[i]);
        }
    }
    assert forall|k: int| 0 <= k < (bs1 + bs2).len() implies declares(
        #[trigger] c[a.len() + k],
        t,
        (bs1 + bs2)[k] as int,
        kind,
        hoisted,
    ) by {
        if k < bs1.len() {
            assert(c.take(b.len() as int)[a.len() + k] == b[a.len() + k]);
            assert(declares(b[a.len() + k], t, bs1[k] as int, kind, hoisted));
        } else {
            let k2 = k - bs1.len();
            assert(declares(c[b.len() + k2], t, bs2[k2] as int, kind, hoisted));
        }
    }
}

/// The id a new scope gets: `fn_<name>` for a named function, `class_<name>`
/// for a named class, `scope_<n>` otherwise.
pub open spec fn new_scope_id(scope_type: ScopeType, name: Option<Seq<char>>, counter: usize) -> Seq<char> {
    match (scope_type, name) {
        (ScopeType::Function, Some(n)) => "fn_"@ + n,
        (ScopeType::Class, Some(n)) => "class_"@ + n,
        _ => "scope_"@ + crate::text::decimal(counter as nat),
    }
}

proof fn lemma_new_id_not_global(scope_type: ScopeType, name: Option<Seq<char>>, counter: usize)
    ensures
        new_scope_id(scope_type, name, counter) != "global"@,
{
    reveal_strlit("global");
    reveal_strlit("fn_");
    reveal_strlit("class_");
    reveal_strlit("scope_");
    let id = new_scope_id(scope_type, name, counter);
    assert(id[0] != 'g');
}

/// The first index `>= k` of a variable named `name`.
pub open spec fn first_var_named(vars: Seq<Variable>, name: Seq<char>, k: int) -> Option<int>
    decreases vars.len() - k,
{
    if k < 0 || k >= vars.len() {
        None
    } else if vars[k].name@ == name {
        Some(k)
    } else {
        first_var_named(vars, name, k + 1)
    }
}

/// The first index of a scope with id `id`.
pub open spec fn find_scope_index(scopes: Seq<Scope>, id: Seq<char>) -> Option<int> {
    if exists|k: int| has_scope(scopes, id, k) {
        Some(choose|k: int| has_scope(scopes, id, k))
    } else {
        None
    }
}

/// Resolution of `name` starting at scope `k`, following at most `fuel` parents.
pub open spec fn resolve_from(scopes: Seq<Scope>, k: int, name: Seq<char>, fuel: nat) -> Option<Variable>
    decreases fuel,
{
    if fuel == 0 || !(0 <= k < scopes.len()) {
        None
    } else {
        match first_var_named(scopes[k].variables@, name, 0) {
            Some(j) => Some(scopes[k].variables@[j]),
            None => match scopes[k].parent {
                Some(p) => match find_scope_index(scopes, p@) {
                    Some(q) => resolve_from(scopes, q, name, (fuel - 1) as nat),
                    None => None,
                },
                None => None,
            },
        }
    }
}

pub proof fn lemma_find_scope_spec(scopes: Seq<Scope>, id: Seq<char>)
    requires
        forall|i: int, j: int| 0 <= i < j < scopes.len() ==> #[trigger] scopes[i].id@ != #[trigger] scopes[j].id@,
    ensures
        forall|k: int| has_scope(scopes, id, k) ==> find_scope_index(scopes, id) == Some(k),
        (forall|k: int| !has_scope(scopes, id, k)) ==> find_scope_index(scopes, id) is None,
{
    assert forall|k: int| has_scope(scopes, id, k) implies find_scope_index(scopes, id) == Some(k) by {
        let c = choose|k: int| has_scope(scopes, id, k);
        if c != k {
            if c < k {
                assert(scopes[c].id@ != scopes[k].id@);
            } else {
                assert(scopes[k].id@ != scopes[c].id@);
            }
        }
    }
}

} // verus!
