//! Programs that differ only in their names: two syntax trees of the same
//! shape whose names are renamed one-to-one are analysed alike, scope for
//! scope and declaration for declaration, and get the same canonical names.
use vstd::prelude::*;
use crate::syntax::{SyntaxTree, SyntaxNode, field_is, first_with_field, RawView, tree_from_records, record_parent, is_boundary, byte_offset};
use crate::text::utf8_width;
use crate::scope::{
    pattern_bindings, rest_bindings, child_bindings, children_bindings, rest_target, ListMode, AnalyzerView,
    ScopeView, VarView, ScopeType, VariableKind, scope_index_of, new_scope_id, with_scope, with_current, named_id, opens,
    with_var, with_vars, opened_id, opened_index, sat_inc, binding_view, bindings_view, declaration_at,
    name_or_anonymous, after_parameters, after_function, after_arrow, after_block, after_class, after_var_decl,
    after_loop_var, after_for, after_catch, after_import_specifier, named_imports_from, after_clause_part,
    clause_parts_from, import_from, opens_block, enter_node, walk, walk_children, initial_state,
};
use crate::canonicalizer::{
    key_before, ids_unique, renamed_scopes, renamed_vars, same_key_order, view_keys, injective, one_to_one,
    naming_renamed, canon_scope, initial_naming, lemma_naming_ignores_names, renamed_key,
};
use crate::text::decimal;

verus! {

/// A node's field name as plain text.
pub open spec fn field_view(f: Option<String>) -> Option<Seq<char>> {
    match f {
        Some(s) => Some(s@),
        None => None,
    }
}

/// Whether two nodes have the same kind, field, parent and children.
pub open spec fn same_node(a: SyntaxNode, b: SyntaxNode) -> bool {
    &&& a.kind@ == b.kind@
    &&& field_view(a.field) == field_view(b.field)
    &&& a.parent == b.parent
    &&& a.children@ == b.children@
}

/// Whether `t2` has the shape of `t1`: node for node the same kind, field,
/// parent and children.
pub open spec fn same_shape(t1: SyntaxTree, t2: SyntaxTree) -> bool {
    &&& t1.nodes@.len() == t2.nodes@.len()
    &&& forall|i: int| 0 <= i < t1.nodes@.len() ==> same_node(#[trigger] t1.nodes@[i], t2.nodes@[i])
}

proof fn lemma_first_with_field_same(t1: SyntaxTree, t2: SyntaxTree, cs: Seq<usize>, name: Seq<char>)
    requires
        same_shape(t1, t2),
        forall|k: int| 0 <= k < cs.len() ==> (#[trigger] cs[k]) < t1.nodes@.len(),
    ensures
        first_with_field(&t1, cs, name) == first_with_field(&t2, cs, name),
    decreases cs.len(),
{
    if cs.len() > 0 {
        assert(same_node(t1.nodes@[cs[0] as int], t2.nodes@[cs[0] as int]));
        assert(field_is(t1.nodes@[cs[0] as int].field, name) == field_is(t2.nodes@[cs[0] as int].field, name));
        assert forall|k: int| 0 <= k < cs.drop_first().len() implies (#[trigger] cs.drop_first()[k]) < t1.nodes@.len() by {
            assert(cs.drop_first()[k] == cs[k + 1]);
        }
        lemma_first_with_field_same(t1, t2, cs.drop_first(), name);
    }
}

/// Node `i` fills field `name` alike in both trees.
proof fn lemma_child_by_field_same(t1: SyntaxTree, t2: SyntaxTree, i: int, name: Seq<char>)
    requires
        same_shape(t1, t2),
        t1.wf(),
        0 <= i < t1.nodes@.len(),
    ensures
        t1.child_by_field(i, name) == t2.child_by_field(i, name),
{
    assert(same_node(t1.nodes@[i], t2.nodes@[i]));
    assert forall|k: int| 0 <= k < t1.nodes@[i].children@.len() implies (#[trigger] t1.nodes@[i].children@[k])
        < t1.nodes@.len() by {}
    lemma_first_with_field_same(t1, t2, t1.nodes@[i].children@, name);
}

proof fn lemma_pattern_bindings_same(t1: SyntaxTree, t2: SyntaxTree, n: int)
    requires
        same_shape(t1, t2),
        t1.wf(),
    ensures
        pattern_bindings(t1, n) == pattern_bindings(t2, n),
    decreases t1.nodes@.len() - n, 3int, 0int,
{
    if 0 <= n < t1.nodes@.len() {
        assert(same_node(t1.nodes@[n], t2.nodes@[n]));
        lemma_children_bindings_same(t1, t2, n, 0, ListMode::ObjectPattern);
        lemma_children_bindings_same(t1, t2, n, 0, ListMode::ArrayPattern);
        lemma_child_by_field_same(t1, t2, n, "left"@);
        match t1.child_by_field(n, "left"@) {
            Some(l) => if n < l < t1.nodes@.len() {
                lemma_pattern_bindings_same(t1, t2, l as int);
            },
            None => {},
        }
    }
}

proof fn lemma_rest_bindings_same(t1: SyntaxTree, t2: SyntaxTree, n: int, c: int)
    requires
        same_shape(t1, t2),
        t1.wf(),
        0 <= c < t1.nodes@.len(),
    ensures
        rest_bindings(t1, n, c) == rest_bindings(t2, n, c),
    decreases t1.nodes@.len() - n, 1int, 0int,
{
    assert(same_node(t1.nodes@[c], t2.nodes@[c]));
    assert(rest_target(t1, c) == rest_target(t2, c));
    match rest_target(t1, c) {
        Some(r) => if 0 <= n < r < t1.nodes@.len() {
            lemma_pattern_bindings_same(t1, t2, r as int);
        },
        None => {},
    }
}

proof fn lemma_child_bindings_same(t1: SyntaxTree, t2: SyntaxTree, n: int, c: int, mode: ListMode)
    requires
        same_shape(t1, t2),
        t1.wf(),
    ensures
        child_bindings(t1, n, c, mode) == child_bindings(t2, n, c, mode),
    decreases t1.nodes@.len() - n, 1int, 1int,
{
    if 0 <= n < c < t1.nodes@.len() {
        assert(same_node(t1.nodes@[c], t2.nodes@[c]));
        lemma_child_by_field_same(t1, t2, c, "value"@);
        lemma_child_by_field_same(t1, t2, c, "name"@);
        lemma_rest_bindings_same(t1, t2, n, c);
        lemma_pattern_bindings_same(t1, t2, c);
        match t1.child_by_field(c, "value"@) {
            Some(v) => if n < v < t1.nodes@.len() {
                lemma_pattern_bindings_same(t1, t2, v as int);
            },
            None => {},
        }
        match t1.child_by_field(c, "name"@) {
            Some(v) => if n < v < t1.nodes@.len() {
                lemma_pattern_bindings_same(t1, t2, v as int);
            },
            None => {},
        }
    }
}

proof fn lemma_children_bindings_same(t1: SyntaxTree, t2: SyntaxTree, n: int, k: int, mode: ListMode)
    requires
        same_shape(t1, t2),
        t1.wf(),
    ensures
        children_bindings(t1, n, k, mode) == children_bindings(t2, n, k, mode),
    decreases t1.nodes@.len() - n, 2int, t1.nodes@[n].children@.len() - k,
{
    if 0 <= n < t1.nodes@.len() && 0 <= k < t1.nodes@[n].children@.len() {
        assert(same_node(t1.nodes@[n], t2.nodes@[n]));
        lemma_child_bindings_same(t1, t2, n, t1.nodes@[n].children@[k] as int, mode);
        lemma_children_bindings_same(t1, t2, n, k + 1, mode);
    } else if 0 <= n < t1.nodes@.len() {
        assert(same_node(t1.nodes@[n], t2.nodes@[n]));
    }
}

/// Whether `g` renames names one-to-one and keeps the name that unnamed
/// functions get, `anonymous`.
pub open spec fn renaming_ok(g: spec_fn(Seq<char>) -> Seq<char>) -> bool {
    &&& forall|x: Seq<char>, y: Seq<char>| #[trigger] g(x) == #[trigger] g(y) ==> x == y
    &&& g("anonymous"@) == "anonymous"@
}

/// The scope id that `id` becomes when names are renamed by `g`: the id of a
/// function's or a class's scope carries its name.
pub open spec fn renamed_id(g: spec_fn(Seq<char>) -> Seq<char>, id: Seq<char>) -> Seq<char> {
    if id.len() >= 3 && id.take(3) == "fn_"@ {
        "fn_"@ + g(id.skip(3))
    } else if id.len() >= 6 && id.take(6) == "class_"@ {
        "class_"@ + g(id.skip(6))
    } else {
        id
    }
}

/// `renamed_id` as a function of the id.
pub open spec fn id_map(g: spec_fn(Seq<char>) -> Seq<char>) -> spec_fn(Seq<char>) -> Seq<char> {
    |id: Seq<char>| renamed_id(g, id)
}

/// `g` as a renaming of the names of every scope.
pub open spec fn name_map(g: spec_fn(Seq<char>) -> Seq<char>) -> spec_fn(Seq<char>, Seq<char>) -> Seq<char> {
    |s: Seq<char>, x: Seq<char>| g(x)
}

/// The position key of node `i`.
pub open spec fn pos(t: SyntaxTree, i: int) -> (usize, usize) {
    (t.nodes@[i].start_row, t.nodes@[i].start_col)
}

/// Whether declaration `v2` of the second tree is `v1` of the first renamed:
/// the same kind, the renamed name, made at the same node.
pub open spec fn var_renamed(
    t1: SyntaxTree,
    t2: SyntaxTree,
    g: spec_fn(Seq<char>) -> Seq<char>,
    v1: VarView,
    v2: VarView,
) -> bool {
    &&& v2.name == g(v1.name)
    &&& v2.kind == v1.kind
    &&& exists|n: int|
        0 <= n < t1.nodes@.len() && (v1.line, v1.column) == #[trigger] pos(t1, n) && (v2.line, v2.column) == pos(t2, n)
}

/// Whether scope `s2` is `s1` renamed: renamed id, parent and children, the
/// same depth, and its declarations renamed one for one.
pub open spec fn scope_renamed(
    t1: SyntaxTree,
    t2: SyntaxTree,
    g: spec_fn(Seq<char>) -> Seq<char>,
    s1: ScopeView,
    s2: ScopeView,
) -> bool {
    &&& s2.id == renamed_id(g, s1.id)
    &&& s2.parent == match s1.parent {
        Some(p) => Some(renamed_id(g, p)),
        None => None::<Seq<char>>,
    }
    &&& s2.depth == s1.depth
    &&& s2.children == s1.children.map_values(id_map(g))
    &&& s2.variables.len() == s1.variables.len()
    &&& forall|j: int| 0 <= j < s1.variables.len() ==> var_renamed(t1, t2, g, #[trigger] s1.variables[j], s2.variables[j])
}

/// Whether analysis state `a2` is `a1` renamed, scope for scope, with the
/// same current scope and counter; the ids of `a1` are distinct.
pub open spec fn states_renamed(
    t1: SyntaxTree,
    t2: SyntaxTree,
    g: spec_fn(Seq<char>) -> Seq<char>,
    a1: AnalyzerView,
    a2: AnalyzerView,
) -> bool {
    &&& a1.scopes.len() == a2.scopes.len()
    &&& a1.current == a2.current
    &&& a1.counter == a2.counter
    &&& 0 <= a1.current < a1.scopes.len()
    &&& ids_unique(a1.scopes)
    &&& forall|i: int| 0 <= i < a1.scopes.len() ==> scope_renamed(t1, t2, g, #[trigger] a1.scopes[i], a2.scopes[i])
}

proof fn lemma_renamed_id_injective(g: spec_fn(Seq<char>) -> Seq<char>, x: Seq<char>, y: Seq<char>)
    requires
        renaming_ok(g),
        renamed_id(g, x) == renamed_id(g, y),
    ensures
        x == y,
{
    reveal_strlit("fn_");
    reveal_strlit("class_");
    let rx = renamed_id(g, x);
    let fx = x.len() >= 3 && x.take(3) == "fn_"@;
    let fy = y.len() >= 3 && y.take(3) == "fn_"@;
    let cx = !fx && x.len() >= 6 && x.take(6) == "class_"@;
    let cy = !fy && y.len() >= 6 && y.take(6) == "class_"@;
    if fx && fy {
        assert(("fn_"@ + g(x.skip(3))).skip(3) =~= g(x.skip(3)));
        assert(("fn_"@ + g(y.skip(3))).skip(3) =~= g(y.skip(3)));
        assert(x =~= x.take(3) + x.skip(3));
        assert(y =~= y.take(3) + y.skip(3));
    } else if cx && cy {
        assert(("class_"@ + g(x.skip(6))).skip(6) =~= g(x.skip(6)));
        assert(("class_"@ + g(y.skip(6))).skip(6) =~= g(y.skip(6)));
        assert(x =~= x.take(6) + x.skip(6));
        assert(y =~= y.take(6) + y.skip(6));
    } else if fx {
        assert(rx[0] == 'f');
        if cy {
            assert(renamed_id(g, y)[0] == 'c');
        } else {
            assert(y[0] == 'f' && y[1] == 'n' && y[2] == '_' ==> y.take(3) =~= "fn_"@);
        }
    } else if fy {
        assert(renamed_id(g, y)[0] == 'f');
        if cx {
            assert(rx[0] == 'c');
        } else {
            assert(x[0] == 'f' && x[1] == 'n' && x[2] == '_' ==> x.take(3) =~= "fn_"@);
        }
    } else if cx {
        assert(rx.take(6) =~= "class_"@);
        assert(y.take(6) =~= "class_"@);
    } else if cy {
        assert(renamed_id(g, y).take(6) =~= "class_"@);
        assert(x.take(6) =~= "class_"@);
    }
}

/// The id a renamed analysis gives the scope it opens is the renamed id.
proof fn lemma_new_scope_id_renamed(
    g: spec_fn(Seq<char>) -> Seq<char>,
    ty: ScopeType,
    name: Option<Seq<char>>,
    c: usize,
)
    ensures
        renamed_id(g, new_scope_id(ty, name, c)) == new_scope_id(
            ty,
            match name {
                Some(x) => Some(g(x)),
                None => None,
            },
            c,
        ),
{
    reveal_strlit("fn_");
    reveal_strlit("class_");
    reveal_strlit("scope_");
    let id = new_scope_id(ty, name, c);
    match (ty, name) {
        (ScopeType::Function, Some(x)) => {
            assert(id.take(3) =~= "fn_"@);
            assert(id.skip(3) =~= x);
        },
        (ScopeType::Class, Some(x)) => {
            assert(id.take(3) != "fn_"@) by {
                assert(id.take(3)[0] == 'c');
            }
            assert(id.take(6) =~= "class_"@);
            assert(id.skip(6) =~= x);
        },
        _ => {
            assert(id.take(3) != "fn_"@) by {
                assert(id.take(3)[0] == 's');
            }
            assert(id.take(6) != "class_"@) by {
                assert(id.take(6)[0] == 's');
            }
        },
    }
}

proof fn lemma_index_renamed(
    t1: SyntaxTree,
    t2: SyntaxTree,
    g: spec_fn(Seq<char>) -> Seq<char>,
    a1: AnalyzerView,
    a2: AnalyzerView,
    id: Seq<char>,
)
    requires
        states_renamed(t1, t2, g, a1, a2),
        renaming_ok(g),
    ensures
        scope_index_of(a2.scopes, renamed_id(g, id)) == scope_index_of(a1.scopes, id),
{
    let s1 = a1.scopes;
    let s2 = a2.scopes;
    let rid = renamed_id(g, id);
    if exists|k: int| 0 <= k < s1.len() && s1[k].id == id {
        let k = choose|k: int| 0 <= k < s1.len() && s1[k].id == id;
        assert(scope_renamed(t1, t2, g, s1[k], s2[k]));
        assert(s2[k].id == rid);
        let k2 = choose|k: int| 0 <= k < s2.len() && s2[k].id == rid;
        assert(scope_renamed(t1, t2, g, s1[k2], s2[k2]));
        lemma_renamed_id_injective(g, s1[k2].id, id);
        if k < k2 {
            assert(s1[k].id != s1[k2].id);
        } else if k2 < k {
            assert(s1[k2].id != s1[k].id);
        }
    } else {
        assert forall|k: int| 0 <= k < s2.len() implies s2[k].id != rid by {
            assert(scope_renamed(t1, t2, g, s1[k], s2[k]));
            if s2[k].id == rid {
                lemma_renamed_id_injective(g, s1[k].id, id);
            }
        }
    }
}

proof fn lemma_with_current_renamed(
    t1: SyntaxTree,
    t2: SyntaxTree,
    g: spec_fn(Seq<char>) -> Seq<char>,
    a1: AnalyzerView,
    a2: AnalyzerView,
    k: int,
)
    requires
        states_renamed(t1, t2, g, a1, a2),
        0 <= k < a1.scopes.len(),
    ensures
        states_renamed(t1, t2, g, with_current(a1, k), with_current(a2, k)),
{
}

proof fn lemma_with_var_renamed(
    t1: SyntaxTree,
    t2: SyntaxTree,
    g: spec_fn(Seq<char>) -> Seq<char>,
    a1: AnalyzerView,
    a2: AnalyzerView,
    v1: VarView,
    v2: VarView,
)
    requires
        states_renamed(t1, t2, g, a1, a2),
        var_renamed(t1, t2, g, v1, v2),
    ensures
        states_renamed(t1, t2, g, with_var(a1, v1), with_var(a2, v2)),
{
    let b1 = with_var(a1, v1);
    let b2 = with_var(a2, v2);
    let cur = a1.current;
    assert(scope_renamed(t1, t2, g, a1.scopes[cur], a2.scopes[cur]));
    assert forall|i: int| 0 <= i < b1.scopes.len() implies scope_renamed(t1, t2, g, #[trigger] b1.scopes[i], b2.scopes[i]) by {
        assert(scope_renamed(t1, t2, g, a1.scopes[i], a2.scopes[i]));
        if i == cur {
            let c1 = a1.scopes[cur].variables;
            let c2 = a2.scopes[cur].variables;
            assert forall|j: int| 0 <= j < b1.scopes[i].variables.len() implies var_renamed(
                t1,
                t2,
                g,
                #[trigger] b1.scopes[i].variables[j],
                b2.scopes[i].variables[j],
            ) by {
                if j < c1.len() {
                    assert(var_renamed(t1, t2, g, c1[j], c2[j]));
                }
            }
        }
    }
    assert forall|i: int, j: int| 0 <= i < j < b1.scopes.len() implies (#[trigger] b1.scopes[i]).id != (
    #[trigger] b1.scopes[j]).id by {
        assert(a1.scopes[i].id != a1.scopes[j].id);
    }
}

proof fn lemma_with_vars_renamed(
    t1: SyntaxTree,
    t2: SyntaxTree,
    g: spec_fn(Seq<char>) -> Seq<char>,
    a1: AnalyzerView,
    a2: AnalyzerView,
    vs1: Seq<VarView>,
    vs2: Seq<VarView>,
)
    requires
        states_renamed(t1, t2, g, a1, a2),
        vs1.len() == vs2.len(),
        forall|j: int| 0 <= j < vs1.len() ==> var_renamed(t1, t2, g, #[trigger] vs1[j], vs2[j]),
    ensures
        states_renamed(t1, t2, g, with_vars(a1, vs1), with_vars(a2, vs2)),
{
    let b1 = with_vars(a1, vs1);
    let b2 = with_vars(a2, vs2);
    let cur = a1.current;
    assert(scope_renamed(t1, t2, g, a1.scopes[cur], a2.scopes[cur]));
    assert forall|i: int| 0 <= i < b1.scopes.len() implies scope_renamed(t1, t2, g, #[trigger] b1.scopes[i], b2.scopes[i]) by {
        assert(scope_renamed(t1, t2, g, a1.scopes[i], a2.scopes[i]));
        if i == cur {
            let c1 = a1.scopes[cur].variables;
            let c2 = a2.scopes[cur].variables;
            assert forall|j: int| 0 <= j < b1.scopes[i].variables.len() implies var_renamed(
                t1,
                t2,
                g,
                #[trigger] b1.scopes[i].variables[j],
                b2.scopes[i].variables[j],
            ) by {
                if j < c1.len() {
                    assert(var_renamed(t1, t2, g, c1[j], c2[j]));
                } else {
                    assert(var_renamed(t1, t2, g, vs1[j - c1.len()], vs2[j - c1.len()]));
                }
            }
        }
    }
    assert forall|i: int, j: int| 0 <= i < j < b1.scopes.len() implies (#[trigger] b1.scopes[i]).id != (
    #[trigger] b1.scopes[j]).id by {
        assert(a1.scopes[i].id != a1.scopes[j].id);
    }
}

/// A name renamed by `g`, if there is one.
pub open spec fn renamed_name(g: spec_fn(Seq<char>) -> Seq<char>, n: Option<Seq<char>>) -> Option<Seq<char>> {
    match n {
        Some(x) => Some(g(x)),
        None => None,
    }
}

proof fn lemma_push_map(s: Seq<Seq<char>>, x: Seq<char>, f: spec_fn(Seq<char>) -> Seq<char>)
    ensures
        s.push(x).map_values(f) == s.map_values(f).push(f(x)),
{
    assert(s.push(x).map_values(f) =~= s.map_values(f).push(f(x)));
}

#[verifier::spinoff_prover]
#[verifier::rlimit(40)]
proof fn lemma_with_scope_renamed(
    t1: SyntaxTree,
    t2: SyntaxTree,
    g: spec_fn(Seq<char>) -> Seq<char>,
    a1: AnalyzerView,
    a2: AnalyzerView,
    ty: ScopeType,
    n1: Option<Seq<char>>,
)
    requires
        states_renamed(t1, t2, g, a1, a2),
        renaming_ok(g),
    ensures
        states_renamed(t1, t2, g, with_scope(a1, ty, n1), with_scope(a2, ty, renamed_name(g, n1))),
        opened_index(a1, ty, n1) == opened_index(a2, ty, renamed_name(g, n1)),
        0 <= opened_index(a1, ty, n1) < with_scope(a1, ty, n1).scopes.len(),
        with_scope(a1, ty, n1).scopes.len() >= a1.scopes.len(),
{
    let n2 = renamed_name(g, n1);
    let c = sat_inc(a1.counter);
    lemma_new_scope_id_renamed(g, ty, n1, c);
    lemma_new_scope_id_renamed(g, ScopeType::Block, None, c);
    lemma_index_renamed(t1, t2, g, a1, a2, named_id(a1, ty, n1));
    let id1 = opened_id(a1, ty, n1);
    let id2 = opened_id(a2, ty, n2);
    assert(id2 == renamed_id(g, id1));
    lemma_index_renamed(t1, t2, g, a1, a2, id1);
    let s1 = a1.scopes;
    let s2 = a2.scopes;
    let cur = a1.current;
    let b1 = with_scope(a1, ty, n1);
    let b2 = with_scope(a2, ty, n2);
    if !opens(a1, ty, n1) {
        assert(b1.scopes == s1 && b2.scopes == s2);
        return;
    }
    assert forall|k: int| 0 <= k < s1.len() implies s1[k].id != id1 by {
        if s1[k].id == id1 {
            assert(exists|j: int| 0 <= j < s1.len() && s1[j].id == id1);
        }
    }
    let f1 = ScopeView {
        id: id1,
        scope_type: ty,
        parent: Some(s1[cur].id),
        depth: sat_inc(s1[cur].depth),
        variables: seq![],
        functions: seq![],
        children: seq![],
    };
    let f2 = ScopeView {
        id: id2,
        scope_type: ty,
        parent: Some(s2[cur].id),
        depth: sat_inc(s2[cur].depth),
        variables: seq![],
        functions: seq![],
        children: seq![],
    };
    assert(scope_renamed(t1, t2, g, f1, f2)) by {
        assert(f1.children.map_values(id_map(g)) =~= f2.children);
    }
    let p1 = s1.push(f1);
    let p2 = s2.push(f2);
    assert(p1.len() == p2.len());
    assert(ids_unique(p1)) by {
        assert forall|i: int, j: int| 0 <= i < j < p1.len() implies (#[trigger] p1[i]).id != (#[trigger] p1[j]).id by {
            if j < s1.len() {
                assert(s1[i].id != s1[j].id);
            } else {
                assert(p1[j].id == id1);
                assert(s1[i].id != id1);
            }
        }
    }
    assert forall|i: int| 0 <= i < p1.len() implies scope_renamed(t1, t2, g, #[trigger] p1[i], p2[i]) by {
        if i < s1.len() {
            assert(scope_renamed(t1, t2, g, s1[i], s2[i]));
        }
    }
    let c1 = p1[cur];
    let c2 = p2[cur];
    assert(scope_renamed(t1, t2, g, c1, c2));
    lemma_push_map(c1.children, id1, id_map(g));
    assert forall|i: int| 0 <= i < b1.scopes.len() implies scope_renamed(t1, t2, g, #[trigger] b1.scopes[i], b2.scopes[i]) by {
        assert(scope_renamed(t1, t2, g, p1[i], p2[i]));
        if i == cur {
            assert(b1.scopes[i].children.map_values(id_map(g)) == b2.scopes[i].children);
            assert forall|j: int| 0 <= j < b1.scopes[i].variables.len() implies var_renamed(
                t1,
                t2,
                g,
                #[trigger] b1.scopes[i].variables[j],
                b2.scopes[i].variables[j],
            ) by {
                assert(var_renamed(t1, t2, g, c1.variables[j], c2.variables[j]));
            }
        }
    }
    assert forall|i: int, j: int| 0 <= i < j < b1.scopes.len() implies (#[trigger] b1.scopes[i]).id != (
    #[trigger] b1.scopes[j]).id by {
        assert(p1[i].id != p1[j].id);
    }
}

/// Whether node `i` of `t` carries a name: an identifier, a shorthand
/// property of a pattern, or the name or alias of its parent.
pub open spec fn names_node(t: SyntaxTree, i: int) -> bool {
    ||| t.kind(i) == "identifier"@
    ||| t.kind(i) == "shorthand_property_identifier_pattern"@
    ||| field_is(t.nodes@[i].field, "name"@)
    ||| field_is(t.nodes@[i].field, "alias"@)
}

/// Whether `t2` is the program `t1` with its names renamed by `g`: two well
/// formed trees of the same shape, each name node's text renamed, and the
/// nodes in the same relative positions.
pub open spec fn renamed_trees(t1: SyntaxTree, t2: SyntaxTree, g: spec_fn(Seq<char>) -> Seq<char>) -> bool {
    &&& t1.wf()
    &&& t2.wf()
    &&& t1.nodes@.len() <= usize::MAX
    &&& same_shape(t1, t2)
    &&& forall|i: int| 0 <= i < t1.nodes@.len() && names_node(t1, i) ==> #[trigger] t2.text(i) == g(t1.text(i))
    &&& forall|i: int, j: int|
        0 <= i < t1.nodes@.len() && 0 <= j < t1.nodes@.len() ==> key_before(#[trigger] pos(t1, i), #[trigger] pos(t1, j))
            == key_before(pos(t2, i), pos(t2, j))
}

/// Whether every node of `bs` is a name node of `t`.
pub open spec fn all_named(t: SyntaxTree, bs: Seq<usize>) -> bool {
    forall|k: int| 0 <= k < bs.len() ==> (#[trigger] bs[k]) < t.nodes@.len() && names_node(t, bs[k] as int)
}

proof fn lemma_all_named_concat(t: SyntaxTree, a: Seq<usize>, b: Seq<usize>)
    requires
        all_named(t, a),
        all_named(t, b),
    ensures
        all_named(t, a + b),
{
    assert forall|k: int| 0 <= k < (a + b).len() implies (#[trigger] (a + b)[k]) < t.nodes@.len() && names_node(
        t,
        (a + b)[k] as int,
    ) by {
        if k < a.len() {
            assert((a + b)[k] == a[k]);
        } else {
            assert((a + b)[k] == b[k - a.len()]);
        }
    }
}

proof fn lemma_pattern_bindings_named(t: SyntaxTree, n: int)
    requires
        t.nodes@.len() <= usize::MAX,
    ensures
        all_named(t, pattern_bindings(t, n)),
    decreases t.nodes@.len() - n, 3int, 0int,
{
    if 0 <= n < t.nodes@.len() {
        if t.kind(n) == "identifier"@ {
            assert(names_node(t, n));
            assert(seq![n as usize][0] == n as usize);
        }
        lemma_children_bindings_named(t, n, 0, ListMode::ObjectPattern);
        lemma_children_bindings_named(t, n, 0, ListMode::ArrayPattern);
        match t.child_by_field(n, "left"@) {
            Some(l) => if n < l < t.nodes@.len() {
                lemma_pattern_bindings_named(t, l as int);
            },
            None => {},
        }
    }
}

proof fn lemma_rest_bindings_named(t: SyntaxTree, n: int, c: int)
    requires
        t.nodes@.len() <= usize::MAX,
    ensures
        all_named(t, rest_bindings(t, n, c)),
    decreases t.nodes@.len() - n, 1int, 0int,
{
    match rest_target(t, c) {
        Some(r) => if 0 <= n < r < t.nodes@.len() {
            lemma_pattern_bindings_named(t, r as int);
        },
        None => {},
    }
}

proof fn lemma_child_bindings_named(t: SyntaxTree, n: int, c: int, mode: ListMode)
    requires
        t.nodes@.len() <= usize::MAX,
    ensures
        all_named(t, child_bindings(t, n, c, mode)),
    decreases t.nodes@.len() - n, 1int, 1int,
{
    if 0 <= n < c < t.nodes@.len() {
        if t.kind(c) == "identifier"@ || t.kind(c) == "shorthand_property_identifier_pattern"@ {
            assert(names_node(t, c));
            assert(seq![c as usize][0] == c as usize);
        }
        lemma_rest_bindings_named(t, n, c);
        lemma_pattern_bindings_named(t, c);
        match t.child_by_field(c, "value"@) {
            Some(v) => if n < v < t.nodes@.len() {
                lemma_pattern_bindings_named(t, v as int);
            },
            None => {},
        }
        match t.child_by_field(c, "name"@) {
            Some(v) => if n < v < t.nodes@.len() {
                lemma_pattern_bindings_named(t, v as int);
            },
            None => {},
        }
    }
}

proof fn lemma_children_bindings_named(t: SyntaxTree, n: int, k: int, mode: ListMode)
    requires
        t.nodes@.len() <= usize::MAX,
    ensures
        all_named(t, children_bindings(t, n, k, mode)),
    decreases t.nodes@.len() - n, 2int, t.nodes@[n].children@.len() - k,
{
    if 0 <= n < t.nodes@.len() && 0 <= k < t.nodes@[n].children@.len() {
        lemma_child_bindings_named(t, n, t.nodes@[n].children@[k] as int, mode);
        lemma_children_bindings_named(t, n, k + 1, mode);
        lemma_all_named_concat(
            t,
            child_bindings(t, n, t.nodes@[n].children@[k] as int, mode),
            children_bindings(t, n, k + 1, mode),
        );
    }
}

/// The declarations that the same binding nodes make in both trees are
/// renamed one for one.
proof fn lemma_bindings_renamed(
    t1: SyntaxTree,
    t2: SyntaxTree,
    g: spec_fn(Seq<char>) -> Seq<char>,
    bs: Seq<usize>,
    kind: VariableKind,
    hoisted: bool,
)
    requires
        renamed_trees(t1, t2, g),
        all_named(t1, bs),
    ensures
        bindings_view(t1, bs, kind, hoisted).len() == bindings_view(t2, bs, kind, hoisted).len(),
        forall|j: int|
            0 <= j < bindings_view(t1, bs, kind, hoisted).len() ==> var_renamed(
                t1,
                t2,
                g,
                #[trigger] bindings_view(t1, bs, kind, hoisted)[j],
                bindings_view(t2, bs, kind, hoisted)[j],
            ),
{
    assert forall|j: int| 0 <= j < bindings_view(t1, bs, kind, hoisted).len() implies var_renamed(
        t1,
        t2,
        g,
        #[trigger] bindings_view(t1, bs, kind, hoisted)[j],
        bindings_view(t2, bs, kind, hoisted)[j],
    ) by {
        let b = bs[j] as int;
        assert(b < t1.nodes@.len() && names_node(t1, b));
        assert(t2.text(b) == g(t1.text(b)));
        assert(pos(t1, b) == pos(t1, b));
    }
}

/// The first child of a field that `first_with_field` finds fills it.
proof fn lemma_first_with_field_fills(t: SyntaxTree, cs: Seq<usize>, name: Seq<char>)
    ensures
        match first_with_field(&t, cs, name) {
            Some(x) => field_is(t.nodes@[x as int].field, name) && cs.contains(x),
            None => true,
        },
    decreases cs.len(),
{
    if cs.len() > 0 {
        if field_is(t.nodes@[cs[0] as int].field, name) {
            assert(cs[0] == cs[0]);
        } else {
            lemma_first_with_field_fills(t, cs.drop_first(), name);
            match first_with_field(&t, cs.drop_first(), name) {
                Some(x) => {
                    let k = choose|k: int| 0 <= k < cs.drop_first().len() && cs.drop_first()[k] == x;
                    assert(cs[k + 1] == x);
                },
                None => {},
            }
        }
    }
}

/// A child that fills field `name` of a node in range is in range and has that field.
proof fn lemma_field_child(t: SyntaxTree, i: int, name: Seq<char>)
    requires
        t.wf(),
        0 <= i < t.nodes@.len(),
    ensures
        match t.child_by_field(i, name) {
            Some(x) => x < t.nodes@.len() && field_is(t.nodes@[x as int].field, name),
            None => true,
        },
{
    lemma_first_with_field_fills(t, t.nodes@[i].children@, name);
    match t.child_by_field(i, name) {
        Some(x) => {
            let k = choose|k: int| 0 <= k < t.nodes@[i].children@.len() && t.nodes@[i].children@[k] == x;
            assert(t.nodes@[i].children@[k] < t.nodes@.len());
        },
        None => {},
    }
}

proof fn lemma_declaration_renamed(
    t1: SyntaxTree,
    t2: SyntaxTree,
    g: spec_fn(Seq<char>) -> Seq<char>,
    name1: Seq<char>,
    name2: Seq<char>,
    n: int,
    kind: VariableKind,
    hoisted: bool,
)
    requires
        name2 == g(name1),
        0 <= n < t1.nodes@.len(),
    ensures
        var_renamed(t1, t2, g, declaration_at(t1, name1, n, kind, hoisted), declaration_at(t2, name2, n, kind, hoisted)),
{
    assert(pos(t1, n) == pos(t1, n));
}

/// The name of the node that fills field `field` of node `n`, or
/// `anonymous`, is renamed.
proof fn lemma_field_name_renamed(t1: SyntaxTree, t2: SyntaxTree, g: spec_fn(Seq<char>) -> Seq<char>, n: int, field: Seq<char>)
    requires
        renamed_trees(t1, t2, g),
        renaming_ok(g),
        0 <= n < t1.nodes@.len(),
        field == "name"@ || field == "alias"@,
    ensures
        t1.child_by_field(n, field) == t2.child_by_field(n, field),
        name_or_anonymous(t2, t1.child_by_field(n, field)) == g(name_or_anonymous(t1, t1.child_by_field(n, field))),
        match t1.child_by_field(n, field) {
            Some(x) => x < t1.nodes@.len() && t2.text(x as int) == g(t1.text(x as int)),
            None => true,
        },
{
    lemma_child_by_field_same(t1, t2, n, field);
    lemma_field_child(t1, n, field);
    match t1.child_by_field(n, field) {
        Some(x) => {
            assert(names_node(t1, x as int));
        },
        None => {},
    }
}

/// The state relation and a lower bound on the number of scopes, kept by a step.
pub open spec fn step_renamed(
    t1: SyntaxTree,
    t2: SyntaxTree,
    g: spec_fn(Seq<char>) -> Seq<char>,
    a1: AnalyzerView,
    b1: AnalyzerView,
    b2: AnalyzerView,
) -> bool {
    states_renamed(t1, t2, g, b1, b2) && b1.scopes.len() >= a1.scopes.len()
}

proof fn lemma_after_parameters_renamed(
    t1: SyntaxTree,
    t2: SyntaxTree,
    g: spec_fn(Seq<char>) -> Seq<char>,
    a1: AnalyzerView,
    a2: AnalyzerView,
    n: int,
)
    requires
        renamed_trees(t1, t2, g),
        states_renamed(t1, t2, g, a1, a2),
        0 <= n < t1.nodes@.len(),
    ensures
        step_renamed(t1, t2, g, a1, after_parameters(t1, a1, n), after_parameters(t2, a2, n)),
{
    lemma_child_by_field_same(t1, t2, n, "parameters"@);
    lemma_field_child(t1, n, "parameters"@);
    match t1.child_by_field(n, "parameters"@) {
        Some(p) => {
            lemma_children_bindings_same(t1, t2, p as int, 0, ListMode::Parameters);
            lemma_children_bindings_named(t1, p as int, 0, ListMode::Parameters);
            let bs = children_bindings(t1, p as int, 0, ListMode::Parameters);
            lemma_bindings_renamed(t1, t2, g, bs, VariableKind::Parameter, false);
            lemma_with_vars_renamed(
                t1,
                t2,
                g,
                a1,
                a2,
                bindings_view(t1, bs, VariableKind::Parameter, false),
                bindings_view(t2, bs, VariableKind::Parameter, false),
            );
        },
        None => {},
    }
}

proof fn lemma_after_function_renamed(
    t1: SyntaxTree,
    t2: SyntaxTree,
    g: spec_fn(Seq<char>) -> Seq<char>,
    a1: AnalyzerView,
    a2: AnalyzerView,
    n: int,
)
    requires
        renamed_trees(t1, t2, g),
        renaming_ok(g),
        states_renamed(t1, t2, g, a1, a2),
        0 <= n < t1.nodes@.len(),
    ensures
        step_renamed(t1, t2, g, a1, after_function(t1, a1, n), after_function(t2, a2, n)),
{
    lemma_field_name_renamed(t1, t2, g, n, "name"@);
    let nn = t1.child_by_field(n, "name"@);
    let name1 = name_or_anonymous(t1, nn);
    let name2 = name_or_anonymous(t2, nn);
    lemma_with_scope_renamed(t1, t2, g, a1, a2, ScopeType::Function, Some(name1));
    assert(renamed_name(g, Some(name1)) == Some(name2));
    let b1 = with_scope(a1, ScopeType::Function, Some(name1));
    let b2 = with_scope(a2, ScopeType::Function, Some(name2));
    let c1 = match nn {
        Some(x) => with_var(b1, declaration_at(t1, name1, x as int, VariableKind::FunctionDeclaration, true)),
        None => b1,
    };
    let c2 = match nn {
        Some(x) => with_var(b2, declaration_at(t2, name2, x as int, VariableKind::FunctionDeclaration, true)),
        None => b2,
    };
    match nn {
        Some(x) => {
            lemma_declaration_renamed(t1, t2, g, name1, name2, x as int, VariableKind::FunctionDeclaration, true);
            lemma_with_var_renamed(
                t1,
                t2,
                g,
                b1,
                b2,
                declaration_at(t1, name1, x as int, VariableKind::FunctionDeclaration, true),
                declaration_at(t2, name2, x as int, VariableKind::FunctionDeclaration, true),
            );
        },
        None => {},
    }
    let k = opened_index(a1, ScopeType::Function, Some(name1));
    lemma_with_current_renamed(t1, t2, g, c1, c2, k);
    lemma_after_parameters_renamed(t1, t2, g, with_current(c1, k), with_current(c2, k), n);
}

proof fn lemma_after_arrow_renamed(
    t1: SyntaxTree,
    t2: SyntaxTree,
    g: spec_fn(Seq<char>) -> Seq<char>,
    a1: AnalyzerView,
    a2: AnalyzerView,
    n: int,
)
    requires
        renamed_trees(t1, t2, g),
        renaming_ok(g),
        states_renamed(t1, t2, g, a1, a2),
        0 <= n < t1.nodes@.len(),
    ensures
        step_renamed(t1, t2, g, a1, after_arrow(t1, a1, n), after_arrow(t2, a2, n)),
{
    lemma_with_scope_renamed(t1, t2, g, a1, a2, ScopeType::Function, None);
    let b1 = with_scope(a1, ScopeType::Function, None);
    let b2 = with_scope(a2, ScopeType::Function, None);
    let k = opened_index(a1, ScopeType::Function, None);
    lemma_with_current_renamed(t1, t2, g, b1, b2, k);
    lemma_after_parameters_renamed(t1, t2, g, with_current(b1, k), with_current(b2, k), n);
}

proof fn lemma_after_block_renamed(
    t1: SyntaxTree,
    t2: SyntaxTree,
    g: spec_fn(Seq<char>) -> Seq<char>,
    a1: AnalyzerView,
    a2: AnalyzerView,
)
    requires
        renaming_ok(g),
        states_renamed(t1, t2, g, a1, a2),
    ensures
        step_renamed(t1, t2, g, a1, after_block(a1), after_block(a2)),
{
    lemma_with_scope_renamed(t1, t2, g, a1, a2, ScopeType::Block, None);
    let k = opened_index(a1, ScopeType::Block, None);
    lemma_with_current_renamed(
        t1,
        t2,
        g,
        with_scope(a1, ScopeType::Block, None),
        with_scope(a2, ScopeType::Block, None),
        k,
    );
}

proof fn lemma_after_class_renamed(
    t1: SyntaxTree,
    t2: SyntaxTree,
    g: spec_fn(Seq<char>) -> Seq<char>,
    a1: AnalyzerView,
    a2: AnalyzerView,
    n: int,
)
    requires
        renamed_trees(t1, t2, g),
        renaming_ok(g),
        states_renamed(t1, t2, g, a1, a2),
        0 <= n < t1.nodes@.len(),
    ensures
        step_renamed(t1, t2, g, a1, after_class(t1, a1, n), after_class(t2, a2, n)),
{
    lemma_field_name_renamed(t1, t2, g, n, "name"@);
    let name1 = name_or_anonymous(t1, t1.child_by_field(n, "name"@));
    let name2 = name_or_anonymous(t2, t2.child_by_field(n, "name"@));
    lemma_declaration_renamed(t1, t2, g, name1, name2, n, VariableKind::ClassDeclaration, false);
    let d1 = declaration_at(t1, name1, n, VariableKind::ClassDeclaration, false);
    let d2 = declaration_at(t2, name2, n, VariableKind::ClassDeclaration, false);
    lemma_with_var_renamed(t1, t2, g, a1, a2, d1, d2);
    let b1 = with_var(a1, d1);
    let b2 = with_var(a2, d2);
    lemma_with_scope_renamed(t1, t2, g, b1, b2, ScopeType::Class, Some(name1));
    assert(renamed_name(g, Some(name1)) == Some(name2));
    let k = opened_index(b1, ScopeType::Class, Some(name1));
    lemma_with_current_renamed(
        t1,
        t2,
        g,
        with_scope(b1, ScopeType::Class, Some(name1)),
        with_scope(b2, ScopeType::Class, Some(name2)),
        k,
    );
}

proof fn lemma_after_var_decl_renamed(
    t1: SyntaxTree,
    t2: SyntaxTree,
    g: spec_fn(Seq<char>) -> Seq<char>,
    a1: AnalyzerView,
    a2: AnalyzerView,
    n: int,
)
    requires
        renamed_trees(t1, t2, g),
        states_renamed(t1, t2, g, a1, a2),
        0 <= n < t1.nodes@.len(),
    ensures
        step_renamed(t1, t2, g, a1, after_var_decl(t1, a1, n), after_var_decl(t2, a2, n)),
{
    assert(same_node(t1.nodes@[n], t2.nodes@[n]));
    lemma_children_bindings_same(t1, t2, n, 0, ListMode::Declarators);
    lemma_children_bindings_named(t1, n, 0, ListMode::Declarators);
    let bs = children_bindings(t1, n, 0, ListMode::Declarators);
    assert(t1.child_at(n, 0) == t2.child_at(n, 0));
    match t1.child_at(n, 0) {
        Some(f) => {
            assert(f < t1.nodes@.len());
            assert(same_node(t1.nodes@[f as int], t2.nodes@[f as int]));
            assert(t1.kind(f as int) == t2.kind(f as int));
            let kind = if t1.kind(f as int) == "var"@ {
                VariableKind::Var
            } else if t1.kind(f as int) == "let"@ {
                VariableKind::Let
            } else {
                VariableKind::Const
            };
            let hoisted = t1.kind(f as int) == "var"@;
            lemma_bindings_renamed(t1, t2, g, bs, kind, hoisted);
            lemma_with_vars_renamed(
                t1,
                t2,
                g,
                a1,
                a2,
                bindings_view(t1, bs, kind, hoisted),
                bindings_view(t2, bs, kind, hoisted),
            );
        },
        None => {},
    }
}

proof fn lemma_after_loop_var_renamed(
    t1: SyntaxTree,
    t2: SyntaxTree,
    g: spec_fn(Seq<char>) -> Seq<char>,
    a1: AnalyzerView,
    a2: AnalyzerView,
    l: int,
)
    requires
        renamed_trees(t1, t2, g),
        states_renamed(t1, t2, g, a1, a2),
        0 <= l < t1.nodes@.len(),
    ensures
        step_renamed(t1, t2, g, a1, after_loop_var(t1, a1, l), after_loop_var(t2, a2, l)),
{
    assert(same_node(t1.nodes@[l], t2.nodes@[l]));
    lemma_after_var_decl_renamed(t1, t2, g, a1, a2, l);
    if t1.kind(l) == "identifier"@ {
        assert(names_node(t1, l));
        lemma_declaration_renamed(t1, t2, g, t1.text(l), t2.text(l), l, VariableKind::Let, false);
        lemma_with_var_renamed(
            t1,
            t2,
            g,
            a1,
            a2,
            declaration_at(t1, t1.text(l), l, VariableKind::Let, false),
            declaration_at(t2, t2.text(l), l, VariableKind::Let, false),
        );
    }
}

proof fn lemma_after_for_renamed(
    t1: SyntaxTree,
    t2: SyntaxTree,
    g: spec_fn(Seq<char>) -> Seq<char>,
    a1: AnalyzerView,
    a2: AnalyzerView,
    n: int,
)
    requires
        renamed_trees(t1, t2, g),
        renaming_ok(g),
        states_renamed(t1, t2, g, a1, a2),
        0 <= n < t1.nodes@.len(),
    ensures
        step_renamed(t1, t2, g, a1, after_for(t1, a1, n), after_for(t2, a2, n)),
{
    lemma_after_block_renamed(t1, t2, g, a1, a2);
    lemma_child_by_field_same(t1, t2, n, "left"@);
    lemma_field_child(t1, n, "left"@);
    match t1.child_by_field(n, "left"@) {
        Some(l) => {
            lemma_after_loop_var_renamed(t1, t2, g, after_block(a1), after_block(a2), l as int);
        },
        None => {},
    }
}

proof fn lemma_after_catch_renamed(
    t1: SyntaxTree,
    t2: SyntaxTree,
    g: spec_fn(Seq<char>) -> Seq<char>,
    a1: AnalyzerView,
    a2: AnalyzerView,
    n: int,
)
    requires
        renamed_trees(t1, t2, g),
        renaming_ok(g),
        states_renamed(t1, t2, g, a1, a2),
        0 <= n < t1.nodes@.len(),
    ensures
        step_renamed(t1, t2, g, a1, after_catch(t1, a1, n), after_catch(t2, a2, n)),
{
    lemma_after_block_renamed(t1, t2, g, a1, a2);
    lemma_child_by_field_same(t1, t2, n, "parameter"@);
    lemma_field_child(t1, n, "parameter"@);
    let b1 = after_block(a1);
    let b2 = after_block(a2);
    match t1.child_by_field(n, "parameter"@) {
        Some(p) => {
            let p = p as int;
            assert(same_node(t1.nodes@[p], t2.nodes@[p]));
            if t1.kind(p) == "identifier"@ {
                assert(names_node(t1, p));
                lemma_declaration_renamed(t1, t2, g, t1.text(p), t2.text(p), p, VariableKind::Parameter, false);
                lemma_with_var_renamed(
                    t1,
                    t2,
                    g,
                    b1,
                    b2,
                    declaration_at(t1, t1.text(p), p, VariableKind::Parameter, false),
                    declaration_at(t2, t2.text(p), p, VariableKind::Parameter, false),
                );
            }
        },
        None => {},
    }
}

proof fn lemma_after_import_specifier_renamed(
    t1: SyntaxTree,
    t2: SyntaxTree,
    g: spec_fn(Seq<char>) -> Seq<char>,
    a1: AnalyzerView,
    a2: AnalyzerView,
    s: int,
)
    requires
        renamed_trees(t1, t2, g),
        renaming_ok(g),
        states_renamed(t1, t2, g, a1, a2),
        0 <= s < t1.nodes@.len(),
    ensures
        step_renamed(t1, t2, g, a1, after_import_specifier(t1, a1, s), after_import_specifier(t2, a2, s)),
{
    assert(same_node(t1.nodes@[s], t2.nodes@[s]));
    lemma_field_name_renamed(t1, t2, g, s, "alias"@);
    lemma_field_name_renamed(t1, t2, g, s, "name"@);
    let chosen = match t1.child_by_field(s, "alias"@) {
        Some(x) => Some(x),
        None => t1.child_by_field(s, "name"@),
    };
    match chosen {
        Some(x) => {
            let x = x as int;
            lemma_declaration_renamed(t1, t2, g, t1.text(x), t2.text(x), s, VariableKind::Const, false);
            lemma_with_var_renamed(
                t1,
                t2,
                g,
                a1,
                a2,
                declaration_at(t1, t1.text(x), s, VariableKind::Const, false),
                declaration_at(t2, t2.text(x), s, VariableKind::Const, false),
            );
        },
        None => {},
    }
}

proof fn lemma_named_imports_renamed(
    t1: SyntaxTree,
    t2: SyntaxTree,
    g: spec_fn(Seq<char>) -> Seq<char>,
    a1: AnalyzerView,
    a2: AnalyzerView,
    n: int,
    k: int,
)
    requires
        renamed_trees(t1, t2, g),
        renaming_ok(g),
        states_renamed(t1, t2, g, a1, a2),
    ensures
        step_renamed(t1, t2, g, a1, named_imports_from(t1, a1, n, k), named_imports_from(t2, a2, n, k)),
    decreases t1.nodes@[n].children@.len() - k,
{
    if 0 <= n < t1.nodes@.len() {
        assert(same_node(t1.nodes@[n], t2.nodes@[n]));
        if 0 <= k < t1.nodes@[n].children@.len() {
            let c = t1.nodes@[n].children@[k] as int;
            assert(c < t1.nodes@.len());
            lemma_after_import_specifier_renamed(t1, t2, g, a1, a2, c);
            lemma_named_imports_renamed(
                t1,
                t2,
                g,
                after_import_specifier(t1, a1, c),
                after_import_specifier(t2, a2, c),
                n,
                k + 1,
            );
        }
    }
}

proof fn lemma_after_clause_part_renamed(
    t1: SyntaxTree,
    t2: SyntaxTree,
    g: spec_fn(Seq<char>) -> Seq<char>,
    a1: AnalyzerView,
    a2: AnalyzerView,
    c: int,
)
    requires
        renamed_trees(t1, t2, g),
        renaming_ok(g),
        states_renamed(t1, t2, g, a1, a2),
        0 <= c < t1.nodes@.len(),
    ensures
        step_renamed(t1, t2, g, a1, after_clause_part(t1, a1, c), after_clause_part(t2, a2, c)),
{
    assert(same_node(t1.nodes@[c], t2.nodes@[c]));
    if t1.kind(c) == "identifier"@ {
        assert(names_node(t1, c));
        lemma_declaration_renamed(t1, t2, g, t1.text(c), t2.text(c), c, VariableKind::Const, false);
        lemma_with_var_renamed(
            t1,
            t2,
            g,
            a1,
            a2,
            declaration_at(t1, t1.text(c), c, VariableKind::Const, false),
            declaration_at(t2, t2.text(c), c, VariableKind::Const, false),
        );
    } else if t1.kind(c) == "namespace_import"@ {
        lemma_field_name_renamed(t1, t2, g, c, "alias"@);
        match t1.child_by_field(c, "alias"@) {
            Some(x) => {
                let x = x as int;
                lemma_declaration_renamed(t1, t2, g, t1.text(x), t2.text(x), x, VariableKind::Const, false);
                lemma_with_var_renamed(
                    t1,
                    t2,
                    g,
                    a1,
                    a2,
                    declaration_at(t1, t1.text(x), x, VariableKind::Const, false),
                    declaration_at(t2, t2.text(x), x, VariableKind::Const, false),
                );
            },
            None => {},
        }
    } else if t1.kind(c) == "named_imports"@ {
        lemma_named_imports_renamed(t1, t2, g, a1, a2, c, 0);
    }
}

proof fn lemma_clause_parts_renamed(
    t1: SyntaxTree,
    t2: SyntaxTree,
    g: spec_fn(Seq<char>) -> Seq<char>,
    a1: AnalyzerView,
    a2: AnalyzerView,
    n: int,
    k: int,
)
    requires
        renamed_trees(t1, t2, g),
        renaming_ok(g),
        states_renamed(t1, t2, g, a1, a2),
    ensures
        step_renamed(t1, t2, g, a1, clause_parts_from(t1, a1, n, k), clause_parts_from(t2, a2, n, k)),
    decreases t1.nodes@[n].children@.len() - k,
{
    if 0 <= n < t1.nodes@.len() {
        assert(same_node(t1.nodes@[n], t2.nodes@[n]));
        if 0 <= k < t1.nodes@[n].children@.len() {
            let c = t1.nodes@[n].children@[k] as int;
            assert(c < t1.nodes@.len());
            lemma_after_clause_part_renamed(t1, t2, g, a1, a2, c);
            lemma_clause_parts_renamed(
                t1,
                t2,
                g,
                after_clause_part(t1, a1, c),
                after_clause_part(t2, a2, c),
                n,
                k + 1,
            );
        }
    }
}

proof fn lemma_import_renamed(
    t1: SyntaxTree,
    t2: SyntaxTree,
    g: spec_fn(Seq<char>) -> Seq<char>,
    a1: AnalyzerView,
    a2: AnalyzerView,
    n: int,
    k: int,
)
    requires
        renamed_trees(t1, t2, g),
        renaming_ok(g),
        states_renamed(t1, t2, g, a1, a2),
    ensures
        step_renamed(t1, t2, g, a1, import_from(t1, a1, n, k), import_from(t2, a2, n, k)),
    decreases t1.nodes@[n].children@.len() - k,
{
    if 0 <= n < t1.nodes@.len() {
        assert(same_node(t1.nodes@[n], t2.nodes@[n]));
        if 0 <= k < t1.nodes@[n].children@.len() {
            let c = t1.nodes@[n].children@[k] as int;
            assert(c < t1.nodes@.len());
            assert(same_node(t1.nodes@[c], t2.nodes@[c]));
            let b1 = if t1.kind(c) == "import_clause"@ {
                clause_parts_from(t1, a1, c, 0)
            } else {
                a1
            };
            let b2 = if t2.kind(c) == "import_clause"@ {
                clause_parts_from(t2, a2, c, 0)
            } else {
                a2
            };
            lemma_clause_parts_renamed(t1, t2, g, a1, a2, c, 0);
            lemma_import_renamed(t1, t2, g, b1, b2, n, k + 1);
        }
    }
}

proof fn lemma_enter_node_renamed(
    t1: SyntaxTree,
    t2: SyntaxTree,
    g: spec_fn(Seq<char>) -> Seq<char>,
    a1: AnalyzerView,
    a2: AnalyzerView,
    i: int,
)
    requires
        renamed_trees(t1, t2, g),
        renaming_ok(g),
        states_renamed(t1, t2, g, a1, a2),
        0 <= i < t1.nodes@.len(),
    ensures
        step_renamed(t1, t2, g, a1, enter_node(t1, a1, i).0, enter_node(t2, a2, i).0),
        enter_node(t1, a1, i).1 == enter_node(t2, a2, i).1,
{
    assert(same_node(t1.nodes@[i], t2.nodes@[i]));
    assert(opens_block(t1, i) == opens_block(t2, i)) by {
        match t1.nodes@[i].parent {
            Some(p) => {
                if i > 0 {
                    assert(p < i);
                    assert(same_node(t1.nodes@[p as int], t2.nodes@[p as int]));
                } else {
                    assert(t1.nodes@[0].parent is None);
                }
            },
            None => {},
        }
    }
    let k = t1.kind(i);
    if k == "function_declaration"@ || k == "function_expression"@ {
        lemma_after_function_renamed(t1, t2, g, a1, a2, i);
    } else if k == "arrow_function"@ {
        lemma_after_arrow_renamed(t1, t2, g, a1, a2, i);
    } else if k == "block_statement"@ {
        lemma_after_block_renamed(t1, t2, g, a1, a2);
    } else if k == "class_declaration"@ {
        lemma_after_class_renamed(t1, t2, g, a1, a2, i);
    } else if k == "variable_declaration"@ || k == "lexical_declaration"@ {
        lemma_after_var_decl_renamed(t1, t2, g, a1, a2, i);
    } else if k == "for_in_statement"@ || k == "for_of_statement"@ {
        lemma_after_for_renamed(t1, t2, g, a1, a2, i);
    } else if k == "catch_clause"@ {
        lemma_after_catch_renamed(t1, t2, g, a1, a2, i);
    } else if k == "import_statement"@ {
        lemma_import_renamed(t1, t2, g, a1, a2, i, 0);
    }
}

proof fn lemma_walk_renamed(
    t1: SyntaxTree,
    t2: SyntaxTree,
    g: spec_fn(Seq<char>) -> Seq<char>,
    a1: AnalyzerView,
    a2: AnalyzerView,
    i: int,
)
    requires
        renamed_trees(t1, t2, g),
        renaming_ok(g),
        states_renamed(t1, t2, g, a1, a2),
    ensures
        step_renamed(t1, t2, g, a1, walk(t1, a1, i), walk(t2, a2, i)),
    decreases t1.nodes@.len() - i, 1int, 0int,
{
    if 0 <= i < t1.nodes@.len() {
        lemma_enter_node_renamed(t1, t2, g, a1, a2, i);
        let (b1, changed) = enter_node(t1, a1, i);
        let (b2, _) = enter_node(t2, a2, i);
        lemma_walk_children_renamed(t1, t2, g, b1, b2, i, 0);
        let c1 = walk_children(t1, b1, i, 0);
        let c2 = walk_children(t2, b2, i, 0);
        if changed {
            lemma_with_current_renamed(t1, t2, g, c1, c2, a1.current);
        }
    }
}

proof fn lemma_walk_children_renamed(
    t1: SyntaxTree,
    t2: SyntaxTree,
    g: spec_fn(Seq<char>) -> Seq<char>,
    a1: AnalyzerView,
    a2: AnalyzerView,
    i: int,
    k: int,
)
    requires
        renamed_trees(t1, t2, g),
        renaming_ok(g),
        states_renamed(t1, t2, g, a1, a2),
    ensures
        step_renamed(t1, t2, g, a1, walk_children(t1, a1, i, k), walk_children(t2, a2, i, k)),
    decreases t1.nodes@.len() - i, 0int, t1.nodes@[i].children@.len() - k,
{
    if 0 <= i < t1.nodes@.len() {
        assert(same_node(t1.nodes@[i], t2.nodes@[i]));
        if 0 <= k < t1.nodes@[i].children@.len() {
            let c = t1.nodes@[i].children@[k] as int;
            if i < c < t1.nodes@.len() {
                lemma_walk_renamed(t1, t2, g, a1, a2, c);
                lemma_walk_children_renamed(t1, t2, g, walk(t1, a1, c), walk(t2, a2, c), i, k + 1);
            } else {
                lemma_walk_children_renamed(t1, t2, g, a1, a2, i, k + 1);
            }
        }
    }
}

proof fn lemma_initial_renamed(t1: SyntaxTree, t2: SyntaxTree, g: spec_fn(Seq<char>) -> Seq<char>)
    ensures
        states_renamed(t1, t2, g, initial_state(), initial_state()),
{
    reveal_strlit("global");
    reveal_strlit("fn_");
    reveal_strlit("class_");
    let s = initial_state().scopes;
    assert("global"@.take(3) != "fn_"@) by {
        assert("global"@.take(3)[0] == 'g');
    }
    assert("global"@.take(6) != "class_"@) by {
        assert("global"@.take(6)[0] == 'g');
    }
    assert(s[0].children.map_values(id_map(g)) =~= s[0].children);
    assert(scope_renamed(t1, t2, g, s[0], s[0]));
}

/// A renamed analysis has renamed scopes in the sense of naming.
proof fn lemma_states_give_renamed_scopes(
    t1: SyntaxTree,
    t2: SyntaxTree,
    g: spec_fn(Seq<char>) -> Seq<char>,
    a1: AnalyzerView,
    a2: AnalyzerView,
)
    requires
        renamed_trees(t1, t2, g),
        renaming_ok(g),
        states_renamed(t1, t2, g, a1, a2),
    ensures
        renamed_scopes(a1.scopes, a2.scopes, id_map(g), name_map(g)),
        ids_unique(a1.scopes),
        injective(id_map(g)),
        one_to_one(name_map(g)),
{
    assert forall|i: int| 0 <= i < a1.scopes.len() implies (#[trigger] a2.scopes[i]).id == id_map(g)(a1.scopes[i].id)
        && a2.scopes[i].children == a1.scopes[i].children.map_values(id_map(g)) && renamed_vars(
        a1.scopes[i].variables,
        a2.scopes[i].variables,
        a1.scopes[i].id,
        name_map(g),
    ) by {
        assert(scope_renamed(t1, t2, g, a1.scopes[i], a2.scopes[i]));
        let v1 = a1.scopes[i].variables;
        let v2 = a2.scopes[i].variables;
        assert forall|j: int| 0 <= j < v1.len() implies (#[trigger] v2[j]).kind == v1[j].kind && v2[j].name == name_map(
            g,
        )(a1.scopes[i].id, v1[j].name) by {
            assert(var_renamed(t1, t2, g, v1[j], v2[j]));
        }
        let k1 = view_keys(v1);
        let k2 = view_keys(v2);
        assert forall|p: int, q: int| 0 <= p < k1.len() && 0 <= q < k1.len() implies key_before(
            #[trigger] k1[p],
            #[trigger] k1[q],
        ) == key_before(k2[p], k2[q]) by {
            assert(var_renamed(t1, t2, g, v1[p], v2[p]));
            assert(var_renamed(t1, t2, g, v1[q], v2[q]));
            let np = choose|n: int|
                0 <= n < t1.nodes@.len() && (v1[p].line, v1[p].column) == #[trigger] pos(t1, n) && (
                v2[p].line,
                v2[p].column,
            ) == pos(t2, n);
            let nq = choose|n: int|
                0 <= n < t1.nodes@.len() && (v1[q].line, v1[q].column) == #[trigger] pos(t1, n) && (
                v2[q].line,
                v2[q].column,
            ) == pos(t2, n);
            assert(key_before(pos(t1, np), pos(t1, nq)) == key_before(pos(t2, np), pos(t2, nq)));
        }
        assert(same_key_order(k1, k2));
    }
    assert forall|x: Seq<char>, y: Seq<char>| #[trigger] id_map(g)(x) == #[trigger] id_map(g)(y) implies x == y by {
        lemma_renamed_id_injective(g, x, y);
    }
    assert forall|s: Seq<char>, x: Seq<char>, y: Seq<char>| #[trigger] name_map(g)(s, x) == #[trigger] name_map(g)(
        s,
        y,
    ) implies x == y by {
        assert(g(x) == g(y));
    }
}

/// Programs that differ only in their names are analysed and named alike:
/// when `t2` is `t1` with its names renamed one-to-one by `g` (which keeps
/// `anonymous`, the name of unnamed functions), with the same shape and the
/// nodes in the same relative positions, the two analyses open as many
/// scopes, the same scopes up to the renaming of ids and names, and
/// canonical naming ends with the same counters and gives each renamed
/// declaration the canonical name that the original one got.
pub proof fn lemma_renamed_programs_named_alike(
    t1: SyntaxTree,
    t2: SyntaxTree,
    g: spec_fn(Seq<char>) -> Seq<char>,
    fuel: nat,
)
    requires
        renamed_trees(t1, t2, g),
        renaming_ok(g),
    ensures
        walk(t1, initial_state(), 0).scopes.len() == walk(t2, initial_state(), 0).scopes.len(),
        renamed_scopes(walk(t1, initial_state(), 0).scopes, walk(t2, initial_state(), 0).scopes, id_map(g), name_map(g)),
        naming_renamed(
            canon_scope(walk(t1, initial_state(), 0).scopes, initial_naming(), 0, fuel).0,
            canon_scope(walk(t2, initial_state(), 0).scopes, initial_naming(), 0, fuel).0,
            id_map(g),
            name_map(g),
        ),
        canon_scope(walk(t1, initial_state(), 0).scopes, initial_naming(), 0, fuel).1 == canon_scope(
            walk(t2, initial_state(), 0).scopes,
            initial_naming(),
            0,
            fuel,
        ).1,
{
    lemma_initial_renamed(t1, t2, g);
    lemma_walk_renamed(t1, t2, g, initial_state(), initial_state(), 0);
    let w1 = walk(t1, initial_state(), 0);
    let w2 = walk(t2, initial_state(), 0);
    lemma_states_give_renamed_scopes(t1, t2, g, w1, w2);
    lemma_naming_ignores_names(w1.scopes, w2.scopes, 0, fuel, id_map(g), name_map(g));
}

proof fn lemma_byte_offset_grows(chars: Seq<char>, a: int, b: int)
    requires
        0 <= a < b <= chars.len(),
    ensures
        byte_offset(chars, a) < byte_offset(chars, b),
    decreases b - a,
{
    assert(utf8_width(chars[b - 1]) >= 1);
    if a < b - 1 {
        lemma_byte_offset_grows(chars, a, b - 1);
    }
}

/// A byte offset falls on the boundary before at most one character.
proof fn lemma_boundary_unique(chars: Seq<char>, x: int, k1: int, k2: int)
    requires
        is_boundary(chars, x, k1),
        is_boundary(chars, x, k2),
    ensures
        k1 == k2,
{
    if k1 < k2 {
        lemma_byte_offset_grows(chars, k1, k2);
    } else if k2 < k1 {
        lemma_byte_offset_grows(chars, k2, k1);
    }
}

/// The depths give a record at most one parent.
proof fn lemma_record_parent_unique(rs: Seq<RawView>, i: int, p1: int, p2: int)
    requires
        record_parent(rs, i, p1),
        record_parent(rs, i, p2),
    ensures
        p1 == p2,
{
    if p1 < p2 {
        assert(rs[p2].2 >= rs[i].2);
    } else if p2 < p1 {
        assert(rs[p1].2 >= rs[i].2);
    }
}

/// Two increasing sequences with the same elements are equal.
proof fn lemma_increasing_same(a: Seq<usize>, b: Seq<usize>)
    requires
        forall|i: int, j: int| 0 <= i < j < a.len() ==> #[trigger] a[i] < #[trigger] a[j],
        forall|i: int, j: int| 0 <= i < j < b.len() ==> #[trigger] b[i] < #[trigger] b[j],
        forall|x: usize| a.contains(x) <==> b.contains(x),
    ensures
        a == b,
    decreases a.len(),
{
    if a.len() == 0 {
        if b.len() > 0 {
            assert(b.contains(b[0]));
        }
        assert(b =~= a);
    } else {
        assert(a.contains(a[0]));
        assert(b.len() > 0);
        assert(b.contains(b[0]));
        let ka = choose|k: int| 0 <= k < b.len() && b[k] == a[0];
        let kb = choose|k: int| 0 <= k < a.len() && a[k] == b[0];
        if ka > 0 {
            assert(b[0] < b[ka]);
        }
        if kb > 0 {
            assert(a[0] < a[kb]);
        }
        assert(a[0] == b[0]);
        let a1 = a.drop_first();
        let b1 = b.drop_first();
        assert forall|x: usize| a1.contains(x) <==> b1.contains(x) by {
            if a1.contains(x) {
                let k = choose|k: int| 0 <= k < a1.len() && a1[k] == x;
                assert(a[k + 1] == x && a[0] < a[k + 1]);
                assert(a.contains(x));
                let m = choose|m: int| 0 <= m < b.len() && b[m] == x;
                assert(m != 0);
                assert(b1[m - 1] == x);
            }
            if b1.contains(x) {
                let k = choose|k: int| 0 <= k < b1.len() && b1[k] == x;
                assert(b[k + 1] == x && b[0] < b[k + 1]);
                assert(b.contains(x));
                let m = choose|m: int| 0 <= m < a.len() && a[m] == x;
                assert(m != 0);
                assert(a1[m - 1] == x);
            }
        }
        assert forall|i: int, j: int| 0 <= i < j < a1.len() implies #[trigger] a1[i] < #[trigger] a1[j] by {
            assert(a[i + 1] < a[j + 1]);
        }
        assert forall|i: int, j: int| 0 <= i < j < b1.len() implies #[trigger] b1[i] < #[trigger] b1[j] by {
            assert(b[i + 1] < b[j + 1]);
        }
        lemma_increasing_same(a1, b1);
        assert forall|k: int| 0 <= k < a.len() implies a[k] == b[k] by {
            if k > 0 {
                assert(a[k] == a1[k - 1] && b[k] == b1[k - 1]);
            }
        }
        assert(a =~= b);
    }
}

/// In a well-formed tree, a node's children are the nodes whose parent it
/// is.
proof fn lemma_children_by_parent(t: SyntaxTree, i: int, c: usize)
    requires
        t.wf(),
        0 <= i < t.nodes@.len(),
        t.nodes@.len() <= usize::MAX,
    ensures
        t.nodes@[i].children@.contains(c) <==> (0 < c < t.nodes@.len() && t.nodes@[c as int].parent == Some(
            i as usize,
        )),
{
    if t.nodes@[i].children@.contains(c) {
        let k = choose|k: int| 0 <= k < t.nodes@[i].children@.len() && t.nodes@[i].children@[k] == c;
        assert(t.nodes@[i].children@[k] == c);
    }
    if 0 < c < t.nodes@.len() && t.nodes@[c as int].parent == Some(i as usize) {
        assert(t.nodes@[(t.nodes@[c as int]).parent->0 as int].children@.contains(c));
    }
}

/// The renaming that keeps every name.
pub open spec fn keep_names() -> spec_fn(Seq<char>) -> Seq<char> {
    |x: Seq<char>| x
}

proof fn lemma_keep_names_keeps_ids(x: Seq<char>)
    ensures
        renamed_id(keep_names(), x) == x,
{
    if x.len() >= 3 && x.take(3) == "fn_"@ {
        assert("fn_"@ + x.skip(3) =~= x);
    } else if x.len() >= 6 && x.take(6) == "class_"@ {
        assert("class_"@ + x.skip(6) =~= x);
    }
}

/// Two trees that the same records describe over the same text are analysed
/// into the same scopes: scope for scope the same id, parent and depth, and
/// the same declarations by name and position.
pub proof fn lemma_same_records_same_scopes(t1: SyntaxTree, t2: SyntaxTree, chars: Seq<char>, rs: Seq<RawView>)
    requires
        tree_from_records(t1, chars, rs),
        tree_from_records(t2, chars, rs),
        t1.nodes@.len() <= usize::MAX,
    ensures
        ({
            let s1 = walk(t1, initial_state(), 0).scopes;
            let s2 = walk(t2, initial_state(), 0).scopes;
            &&& s1.len() == s2.len()
            &&& ids_unique(s1)
            &&& forall|k: int|
                0 <= k < s1.len() ==> {
                    &&& (#[trigger] s1[k]).id == s2[k].id
                    &&& s1[k].parent == s2[k].parent
                    &&& s1[k].depth == s2[k].depth
                    &&& s1[k].variables.len() == s2[k].variables.len()
                    &&& forall|j: int|
                        0 <= j < s1[k].variables.len() ==> (#[trigger] s1[k].variables[j]).name == s2[k].variables[j].name
                            && s1[k].variables[j].line == s2[k].variables[j].line && s1[k].variables[j].column
                            == s2[k].variables[j].column
                }
        }),
{
    let g = keep_names();
    lemma_same_records_same_program(t1, t2, chars, rs);
    assert(renaming_ok(g));
    lemma_initial_renamed(t1, t2, g);
    lemma_walk_renamed(t1, t2, g, initial_state(), initial_state(), 0);
    let s1 = walk(t1, initial_state(), 0).scopes;
    let s2 = walk(t2, initial_state(), 0).scopes;
    assert forall|k: int| 0 <= k < s1.len() implies {
        &&& (#[trigger] s1[k]).id == s2[k].id
        &&& s1[k].parent == s2[k].parent
        &&& s1[k].depth == s2[k].depth
        &&& s1[k].variables.len() == s2[k].variables.len()
        &&& forall|j: int|
            0 <= j < s1[k].variables.len() ==> (#[trigger] s1[k].variables[j]).name == s2[k].variables[j].name
                && s1[k].variables[j].line == s2[k].variables[j].line && s1[k].variables[j].column
                == s2[k].variables[j].column
    } by {
        assert(scope_renamed(t1, t2, g, s1[k], s2[k]));
        lemma_keep_names_keeps_ids(s1[k].id);
        match s1[k].parent {
            Some(p) => lemma_keep_names_keeps_ids(p),
            None => {},
        }
        assert forall|j: int| 0 <= j < s1[k].variables.len() implies (#[trigger] s1[k].variables[j]).name
            == s2[k].variables[j].name && s1[k].variables[j].line == s2[k].variables[j].line
            && s1[k].variables[j].column == s2[k].variables[j].column by {
            assert(var_renamed(t1, t2, g, s1[k].variables[j], s2[k].variables[j]));
            let n = choose|n: int|
                0 <= n < t1.nodes@.len() && (s1[k].variables[j].line, s1[k].variables[j].column) == #[trigger] pos(t1, n)
                    && (s2[k].variables[j].line, s2[k].variables[j].column) == pos(t2, n);
            assert(t1.nodes@[n].start_row == rs[n].5 && t2.nodes@[n].start_row == rs[n].5);
            assert(t1.nodes@[n].start_col == rs[n].6 && t2.nodes@[n].start_col == rs[n].6);
        }
    }
}

/// Two trees that the same records describe over the same text are analysed
/// into as many scopes and named alike, to the same canonical names.
pub proof fn lemma_same_records_named_alike(t1: SyntaxTree, t2: SyntaxTree, chars: Seq<char>, rs: Seq<RawView>, fuel: nat)
    requires
        tree_from_records(t1, chars, rs),
        tree_from_records(t2, chars, rs),
        t1.nodes@.len() <= usize::MAX,
    ensures
        walk(t1, initial_state(), 0).scopes.len() == walk(t2, initial_state(), 0).scopes.len(),
        canon_scope(walk(t1, initial_state(), 0).scopes, initial_naming(), 0, fuel) == canon_scope(
            walk(t2, initial_state(), 0).scopes,
            initial_naming(),
            0,
            fuel,
        ),
{
    let g = keep_names();
    lemma_same_records_same_program(t1, t2, chars, rs);
    assert(renaming_ok(g));
    lemma_renamed_programs_named_alike(t1, t2, g, fuel);
    let c1 = canon_scope(walk(t1, initial_state(), 0).scopes, initial_naming(), 0, fuel);
    let c2 = canon_scope(walk(t2, initial_state(), 0).scopes, initial_naming(), 0, fuel);
    let m1 = c1.0.names;
    let m2 = c2.0.names;
    assert forall|k: (Seq<char>, Seq<char>)| #![auto] renamed_key(k, id_map(g), name_map(g)) == k by {
        lemma_keep_names_keeps_ids(k.0);
    }
    assert forall|k: (Seq<char>, Seq<char>)| m1.contains_key(k) implies m2.contains_key(k) && m2[k] == m1[k] by {
        assert(renamed_key(k, id_map(g), name_map(g)) == k);
    }
    assert forall|k: (Seq<char>, Seq<char>)| m2.contains_key(k) implies m1.contains_key(k) by {
        let j = choose|j: (Seq<char>, Seq<char>)| #[trigger] m1.contains_key(j) && k == renamed_key(j, id_map(g), name_map(g));
        assert(renamed_key(j, id_map(g), name_map(g)) == j);
    }
    assert(m1 =~= m2);
    assert(c1.0 == c2.0);
}

/// Two trees that the same records describe over the same text are the
/// same program up to the identity renaming: the same shape, texts and
/// positions.
pub proof fn lemma_same_records_same_program(t1: SyntaxTree, t2: SyntaxTree, chars: Seq<char>, rs: Seq<RawView>)
    requires
        tree_from_records(t1, chars, rs),
        tree_from_records(t2, chars, rs),
        t1.nodes@.len() <= usize::MAX,
    ensures
        renamed_trees(t1, t2, keep_names()),
        forall|i: int|
            0 <= i < t1.nodes@.len() ==> (#[trigger] t1.nodes@[i]).start == t2.nodes@[i].start && t1.nodes@[i].end
                == t2.nodes@[i].end,
{
    let n = t1.nodes@.len();
    assert forall|i: int| 0 <= i < n implies (#[trigger] t1.nodes@[i]).parent == t2.nodes@[i].parent by {
        if i > 0 {
            let p1 = t1.nodes@[i].parent->0 as int;
            let p2 = t2.nodes@[i].parent->0 as int;
            assert(record_parent(rs, i, p1));
            assert(record_parent(rs, i, p2));
            lemma_record_parent_unique(rs, i, p1, p2);
        }
    }
    assert forall|i: int| 0 <= i < n implies same_node(#[trigger] t1.nodes@[i], t2.nodes@[i]) by {
        let a = t1.nodes@[i].children@;
        let b = t2.nodes@[i].children@;
        assert forall|c: usize| a.contains(c) <==> b.contains(c) by {
            lemma_children_by_parent(t1, i, c);
            lemma_children_by_parent(t2, i, c);
            if 0 < c < n {
                assert(t1.nodes@[c as int].parent == t2.nodes@[c as int].parent);
            }
        }
        lemma_increasing_same(a, b);
        assert(field_view(t1.nodes@[i].field) == rs[i].1);
    }
    assert forall|i: int| 0 <= i < n implies (#[trigger] t1.nodes@[i]).start == t2.nodes@[i].start && t1.nodes@[i].end
        == t2.nodes@[i].end by {
        lemma_boundary_unique(chars, rs[i].3 as int, t1.nodes@[i].start as int, t2.nodes@[i].start as int);
        lemma_boundary_unique(chars, rs[i].4 as int, t1.nodes@[i].end as int, t2.nodes@[i].end as int);
    }
    assert forall|i: int| 0 <= i < n && names_node(t1, i) implies #[trigger] t2.text(i) == keep_names()(
        t1.text(i),
    ) by {
        assert(t1.nodes@[i].start == t2.nodes@[i].start && t1.nodes@[i].end == t2.nodes@[i].end);
    }
    assert forall|i: int, j: int| 0 <= i < n && 0 <= j < n implies key_before(#[trigger] pos(t1, i), #[trigger] pos(t1, j))
        == key_before(pos(t2, i), pos(t2, j)) by {
        assert(t1.nodes@[i].start_row == rs[i].5 && t2.nodes@[i].start_row == rs[i].5);
        assert(t1.nodes@[j].start_row == rs[j].5 && t2.nodes@[j].start_row == rs[j].5);
    }
}


} // verus!
