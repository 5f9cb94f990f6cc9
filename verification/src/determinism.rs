//! Canonical text depends on what is read, not on how it is held: two trees
//! with the same nodes and two scope lists with the same scopes, read by
//! their plain values, give the same identifier occurrences and the same
//! replacements.
use vstd::prelude::*;
use crate::syntax::{SyntaxTree, SyntaxNode, first_with_field, field_is, opt_string_view};
use crate::scope::{Scope, Variable, has_scope, find_scope_index};
use crate::canonicalizer::{
    IdView, CanonicalMapping, names_of, lookup_mapping, canonical_lookup, replacement, spans_of, collected,
    children_collected, node_action, node_ids, is_parameter, is_declaration, is_reference, position_scope,
    deepest_near, has_near, near_position, near_child_scope, first_opened_near, opened_near, sorted_by_start,
    stably_sorted, start_keys, key_before,
};

verus! {

/// Whether two nodes agree on every plain value that is read of them.
pub open spec fn same_node_values(a: SyntaxNode, b: SyntaxNode) -> bool {
    &&& a.kind@ == b.kind@
    &&& opt_string_view(a.field) == opt_string_view(b.field)
    &&& a.parent == b.parent
    &&& a.children@ == b.children@
    &&& a.start == b.start
    &&& a.end == b.end
    &&& a.start_row == b.start_row
    &&& a.start_col == b.start_col
}

/// Whether two trees have the same text and, node for node, the same
/// plain values.
pub open spec fn same_tree_values(t1: SyntaxTree, t2: SyntaxTree) -> bool {
    &&& t1.wf()
    &&& t2.wf()
    &&& t1.source@ == t2.source@
    &&& t1.nodes@.len() == t2.nodes@.len()
    &&& forall|i: int| 0 <= i < t1.nodes@.len() ==> same_node_values(#[trigger] t1.nodes@[i], t2.nodes@[i])
}

/// Whether two declarations have the same name and position.
pub open spec fn same_var_values(a: Variable, b: Variable) -> bool {
    &&& a.name@ == b.name@
    &&& a.declaration_line == b.declaration_line
    &&& a.declaration_column == b.declaration_column
}

/// Whether two scopes have the same id, parent and depth, and the same
/// declarations by name and position.
pub open spec fn same_scope_values(a: Scope, b: Scope) -> bool {
    &&& a.id@ == b.id@
    &&& opt_string_view(a.parent) == opt_string_view(b.parent)
    &&& a.depth == b.depth
    &&& a.variables@.len() == b.variables@.len()
    &&& forall|j: int| 0 <= j < a.variables@.len() ==> same_var_values(#[trigger] a.variables@[j], b.variables@[j])
}

/// Whether two scope lists agree scope for scope, with distinct ids.
pub open spec fn same_scopes(a: Seq<Scope>, b: Seq<Scope>) -> bool {
    &&& a.len() == b.len()
    &&& forall|k: int| 0 <= k < a.len() ==> same_scope_values(#[trigger] a[k], b[k])
    &&& forall|i: int, j: int| 0 <= i < j < a.len() ==> #[trigger] a[i].id@ != #[trigger] a[j].id@
}

proof fn lemma_first_with_field_values(t1: SyntaxTree, t2: SyntaxTree, cs: Seq<usize>, name: Seq<char>)
    requires
        same_tree_values(t1, t2),
        forall|k: int| 0 <= k < cs.len() ==> (#[trigger] cs[k]) < t1.nodes@.len(),
    ensures
        first_with_field(&t1, cs, name) == first_with_field(&t2, cs, name),
    decreases cs.len(),
{
    if cs.len() > 0 {
        let c = cs[0] as int;
        assert(same_node_values(t1.nodes@[c], t2.nodes@[c]));
        assert(field_is(t1.nodes@[c].field, name) == field_is(t2.nodes@[c].field, name));
        assert forall|k: int| 0 <= k < cs.drop_first().len() implies (#[trigger] cs.drop_first()[k]) < t1.nodes@.len() by {
            assert(cs.drop_first()[k] == cs[k + 1]);
        }
        lemma_first_with_field_values(t1, t2, cs.drop_first(), name);
    }
}

proof fn lemma_first_with_field_in(t: SyntaxTree, cs: Seq<usize>, name: Seq<char>)
    ensures
        first_with_field(&t, cs, name) matches Some(c) ==> cs.contains(c),
    decreases cs.len(),
{
    if cs.len() > 0 && !field_is(t.nodes@[cs[0] as int].field, name) {
        lemma_first_with_field_in(t, cs.drop_first(), name);
        if first_with_field(&t, cs.drop_first(), name) is Some {
            let c = first_with_field(&t, cs.drop_first(), name)->0;
            let k = choose|k: int| 0 <= k < cs.drop_first().len() && cs.drop_first()[k] == c;
            assert(cs[k + 1] == c);
        }
    } else if cs.len() > 0 {
        assert(cs[0] == cs[0]);
    }
}

/// A field child of a node of a well-formed tree is one of its nodes.
proof fn lemma_field_child_in(t: SyntaxTree, n: int, name: Seq<char>)
    requires
        t.wf(),
        0 <= n < t.nodes@.len(),
    ensures
        t.child_by_field(n, name) matches Some(c) ==> n < c < t.nodes@.len(),
{
    lemma_first_with_field_in(t, t.nodes@[n].children@, name);
    if t.child_by_field(n, name) is Some {
        let c = t.child_by_field(n, name)->0;
        let k = choose|k: int| 0 <= k < t.nodes@[n].children@.len() && t.nodes@[n].children@[k] == c;
        assert(t.nodes@[n].children@[k] == c);
    }
}

proof fn lemma_child_field_values(t1: SyntaxTree, t2: SyntaxTree, p: int, name: Seq<char>)
    requires
        same_tree_values(t1, t2),
        0 <= p < t1.nodes@.len(),
    ensures
        t1.child_by_field(p, name) == t2.child_by_field(p, name),
{
    assert(same_node_values(t1.nodes@[p], t2.nodes@[p]));
    assert forall|k: int| 0 <= k < t1.nodes@[p].children@.len() implies (#[trigger] t1.nodes@[p].children@[k])
        < t1.nodes@.len() by {}
    lemma_first_with_field_values(t1, t2, t1.nodes@[p].children@, name);
}

/// What is read of one node is the same in both trees.
proof fn lemma_node_reads(t1: SyntaxTree, t2: SyntaxTree, n: int)
    requires
        same_tree_values(t1, t2),
        0 <= n < t1.nodes@.len(),
    ensures
        t1.kind(n) == t2.kind(n),
        t1.text(n) == t2.text(n),
        is_parameter(t1, n) == is_parameter(t2, n),
        is_declaration(t1, n) == is_declaration(t2, n),
        is_reference(t1, n) == is_reference(t2, n),
        t1.child_by_field(n, "name"@) == t2.child_by_field(n, "name"@),
{
    assert(same_node_values(t1.nodes@[n], t2.nodes@[n]));
    lemma_child_field_values(t1, t2, n, "name"@);
    match t1.nodes@[n].parent {
        Some(p) => {
            if n > 0 {
                assert(p < n);
            } else {
                assert(t1.nodes@[0].parent is None);
            }
            let p = p as int;
            assert(same_node_values(t1.nodes@[p], t2.nodes@[p]));
            lemma_child_field_values(t1, t2, p, "name"@);
            lemma_child_field_values(t1, t2, p, "value"@);
            lemma_child_field_values(t1, t2, p, "left"@);
            lemma_child_field_values(t1, t2, p, "parameter"@);
            lemma_child_field_values(t1, t2, p, "object"@);
        },
        None => {},
    }
}

proof fn lemma_has_near_values(a: Scope, b: Scope, line: usize, column: usize)
    requires
        same_scope_values(a, b),
    ensures
        has_near(a, line, column) == has_near(b, line, column),
{
    if has_near(a, line, column) {
        let j = choose|j: int| 0 <= j < a.variables@.len() && near_position(#[trigger] a.variables@[j], line, column);
        assert(same_var_values(a.variables@[j], b.variables@[j]));
        assert(near_position(b.variables@[j], line, column));
    }
    if has_near(b, line, column) {
        let j = choose|j: int| 0 <= j < b.variables@.len() && near_position(#[trigger] b.variables@[j], line, column);
        assert(same_var_values(a.variables@[j], b.variables@[j]));
        assert(near_position(a.variables@[j], line, column));
    }
}

proof fn lemma_deepest_near_values(s1: Seq<Scope>, s2: Seq<Scope>, line: usize, column: usize, k: int)
    requires
        same_scopes(s1, s2),
    ensures
        deepest_near(s1, line, column, k) == deepest_near(s2, line, column, k),
    decreases k,
{
    if k > 0 {
        lemma_deepest_near_values(s1, s2, line, column, k - 1);
        if k - 1 < s1.len() {
            assert(same_scope_values(s1[k - 1], s2[k - 1]));
            lemma_has_near_values(s1[k - 1], s2[k - 1], line, column);
        }
    }
}

proof fn lemma_position_scope_values(s1: Seq<Scope>, s2: Seq<Scope>, line: usize, column: usize)
    requires
        same_scopes(s1, s2),
    ensures
        position_scope(s1, line, column) == position_scope(s2, line, column),
{
    lemma_deepest_near_values(s1, s2, line, column, s1.len() as int);
    let b = deepest_near(s1, line, column, s1.len() as int).0;
    if 0 <= b < s1.len() {
        assert(same_scope_values(s1[b], s2[b]));
    }
}

proof fn lemma_opened_near_values(a: Scope, b: Scope, cur: Seq<char>, row: usize)
    requires
        same_scope_values(a, b),
    ensures
        opened_near(a, cur, row) == opened_near(b, cur, row),
{
    if opened_near(a, cur, row) {
        let j = choose|j: int| 0 <= j < a.variables@.len() && -2 <= (#[trigger] a.variables@[j]).declaration_line - row <= 2;
        assert(same_var_values(a.variables@[j], b.variables@[j]));
    }
    if opened_near(b, cur, row) {
        let j = choose|j: int| 0 <= j < b.variables@.len() && -2 <= (#[trigger] b.variables@[j]).declaration_line - row <= 2;
        assert(same_var_values(a.variables@[j], b.variables@[j]));
    }
}

proof fn lemma_first_opened_near_values(s1: Seq<Scope>, s2: Seq<Scope>, cur: Seq<char>, row: usize, k: int)
    requires
        same_scopes(s1, s2),
    ensures
        first_opened_near(s1, cur, row, k) == first_opened_near(s2, cur, row, k),
    decreases s1.len() - k,
{
    if 0 <= k < s1.len() {
        assert(same_scope_values(s1[k], s2[k]));
        lemma_opened_near_values(s1[k], s2[k], cur, row);
        lemma_first_opened_near_values(s1, s2, cur, row, k + 1);
    }
}

proof fn lemma_near_child_values(s1: Seq<Scope>, s2: Seq<Scope>, cur: Seq<char>, row: usize)
    requires
        same_scopes(s1, s2),
    ensures
        near_child_scope(s1, cur, row) == near_child_scope(s2, cur, row),
{
    lemma_first_opened_near_values(s1, s2, cur, row, 0);
    match first_opened_near(s1, cur, row, 0) {
        Some(k) => {
            lemma_first_opened_near_in(s1, cur, row, 0);
            assert(same_scope_values(s1[k], s2[k]));
        },
        None => {},
    }
}

proof fn lemma_first_opened_near_in(s: Seq<Scope>, cur: Seq<char>, row: usize, k: int)
    ensures
        first_opened_near(s, cur, row, k) matches Some(j) ==> 0 <= j < s.len(),
    decreases s.len() - k,
{
    if 0 <= k < s.len() && !opened_near(s[k], cur, row) {
        lemma_first_opened_near_in(s, cur, row, k + 1);
    }
}

proof fn lemma_node_action_values(t1: SyntaxTree, t2: SyntaxTree, s1: Seq<Scope>, s2: Seq<Scope>, n: int, cur: Seq<char>)
    requires
        same_tree_values(t1, t2),
        same_scopes(s1, s2),
        0 <= n < t1.nodes@.len(),
    ensures
        node_action(t1, s1, n, cur) == node_action(t2, s2, n, cur),
        node_ids(t1, s1, n, cur) == node_ids(t2, s2, n, cur),
{
    lemma_node_reads(t1, t2, n);
    assert(same_node_values(t1.nodes@[n], t2.nodes@[n]));
    lemma_near_child_values(s1, s2, cur, t1.nodes@[n].start_row);
    lemma_position_scope_values(s1, s2, t1.nodes@[n].start_row, t1.nodes@[n].start_col);
    lemma_field_child_in(t1, n, "name"@);
    match t1.child_by_field(n, "name"@) {
        Some(c) => {
            lemma_node_reads(t1, t2, c as int);
        },
        None => {},
    }
    match t1.nodes@[n].parent {
        Some(p) => {
            if n > 0 {
                assert(p < n);
                lemma_node_reads(t1, t2, p as int);
            } else {
                assert(t1.nodes@[0].parent is None);
            }
        },
        None => {},
    }
}

proof fn lemma_collected_values(t1: SyntaxTree, t2: SyntaxTree, s1: Seq<Scope>, s2: Seq<Scope>, n: int, cur: Seq<char>)
    requires
        same_tree_values(t1, t2),
        same_scopes(s1, s2),
    ensures
        collected(t1, s1, n, cur) == collected(t2, s2, n, cur),
    decreases t1.nodes@.len() - n, 1int, 0int,
{
    if 0 <= n < t1.nodes@.len() {
        lemma_node_action_values(t1, t2, s1, s2, n, cur);
        let act = node_action(t1, s1, n, cur);
        let sc = match act.1 {
            Some(s) => s,
            None => cur,
        };
        lemma_node_action_values(t1, t2, s1, s2, n, sc);
        lemma_children_collected_values(t1, t2, s1, s2, n, 0, sc);
    }
}

proof fn lemma_children_collected_values(
    t1: SyntaxTree,
    t2: SyntaxTree,
    s1: Seq<Scope>,
    s2: Seq<Scope>,
    n: int,
    k: int,
    sc: Seq<char>,
)
    requires
        same_tree_values(t1, t2),
        same_scopes(s1, s2),
    ensures
        children_collected(t1, s1, n, k, sc) == children_collected(t2, s2, n, k, sc),
    decreases t1.nodes@.len() - n, 0int, t1.nodes@[n].children@.len() - k,
{
    if 0 <= n < t1.nodes@.len() && 0 <= k < t1.nodes@[n].children@.len() {
        assert(same_node_values(t1.nodes@[n], t2.nodes@[n]));
        let c = t1.nodes@[n].children@[k] as int;
        if n < c < t1.nodes@.len() {
            lemma_collected_values(t1, t2, s1, s2, c, sc);
        }
        lemma_children_collected_values(t1, t2, s1, s2, n, k + 1, sc);
    } else if 0 <= n < t1.nodes@.len() {
        assert(same_node_values(t1.nodes@[n], t2.nodes@[n]));
    }
}

proof fn lemma_collected_in_range(t: SyntaxTree, sc: Seq<Scope>, n: int, cur: Seq<char>)
    requires
        t.wf(),
    ensures
        forall|i: int| 0 <= i < collected(t, sc, n, cur).len() ==> (#[trigger] collected(t, sc, n, cur)[i]).0 < t.nodes@.len(),
    decreases t.nodes@.len() - n, 1int, 0int,
{
    if 0 <= n < t.nodes@.len() {
        lemma_field_child_in(t, n, "name"@);
        let act = node_action(t, sc, n, cur);
        let s2 = match act.1 {
            Some(s) => s,
            None => cur,
        };
        lemma_children_in_range(t, sc, n, 0, s2);
        let own = if act.2 {
            node_ids(t, sc, n, s2)
        } else {
            seq![]
        };
        let rest = children_collected(t, sc, n, 0, s2);
        assert(collected(t, sc, n, cur) == act.0 + own + rest);
        assert forall|i: int| 0 <= i < collected(t, sc, n, cur).len() implies (#[trigger] collected(t, sc, n, cur)[i]).0
            < t.nodes@.len() by {
            if i < act.0.len() {
            } else if i < act.0.len() + own.len() {
                assert(own[i - act.0.len()].0 == n as usize);
                if n <= usize::MAX {
                    assert(n as usize == n);
                }
            } else {
                assert(collected(t, sc, n, cur)[i] == rest[i - act.0.len() - own.len()]);
            }
        }
    }
}

proof fn lemma_children_in_range(t: SyntaxTree, sc: Seq<Scope>, n: int, k: int, s2: Seq<char>)
    requires
        t.wf(),
    ensures
        forall|i: int| 0 <= i < children_collected(t, sc, n, k, s2).len() ==> (#[trigger] children_collected(t, sc, n, k, s2)[i]).0
            < t.nodes@.len(),
    decreases t.nodes@.len() - n, 0int, t.nodes@[n].children@.len() - k,
{
    if 0 <= n < t.nodes@.len() && 0 <= k < t.nodes@[n].children@.len() {
        let c = t.nodes@[n].children@[k] as int;
        let first = if n < c < t.nodes@.len() {
            collected(t, sc, c, s2)
        } else {
            seq![]
        };
        if n < c < t.nodes@.len() {
            lemma_collected_in_range(t, sc, c, s2);
        }
        lemma_children_in_range(t, sc, n, k + 1, s2);
        let rest = children_collected(t, sc, n, k + 1, s2);
        assert(children_collected(t, sc, n, k, s2) == first + rest);
        assert forall|i: int| 0 <= i < children_collected(t, sc, n, k, s2).len() implies (#[trigger] children_collected(
            t,
            sc,
            n,
            k,
            s2,
        )[i]).0 < t.nodes@.len() by {
            if i < first.len() {
                assert(children_collected(t, sc, n, k, s2)[i] == first[i]);
            } else {
                assert(children_collected(t, sc, n, k, s2)[i] == rest[i - first.len()]);
            }
        }
    }
}

proof fn lemma_find_scope_values(s1: Seq<Scope>, s2: Seq<Scope>, id: Seq<char>)
    requires
        same_scopes(s1, s2),
    ensures
        find_scope_index(s1, id) == find_scope_index(s2, id),
{
    if exists|k: int| has_scope(s1, id, k) {
        let k1 = choose|k: int| has_scope(s1, id, k);
        assert(same_scope_values(s1[k1], s2[k1]));
        assert(has_scope(s2, id, k1));
        let k2 = choose|k: int| has_scope(s2, id, k);
        assert(same_scope_values(s1[k2], s2[k2]));
        if k1 < k2 {
            assert(s1[k1].id@ != s1[k2].id@);
        } else if k2 < k1 {
            assert(s1[k2].id@ != s1[k1].id@);
        }
    } else {
        assert forall|k: int| !has_scope(s2, id, k) by {
            if 0 <= k < s2.len() {
                assert(same_scope_values(s1[k], s2[k]));
                assert(!has_scope(s1, id, k));
            }
        }
    }
}

proof fn lemma_lookup_values(ms1: Seq<CanonicalMapping>, ms2: Seq<CanonicalMapping>, scope: Seq<char>, name: Seq<char>)
    requires
        names_of(ms1) == names_of(ms2),
    ensures
        lookup_mapping(ms1, scope, name) == lookup_mapping(ms2, scope, name),
{
    let k = (scope, name);
    assert(names_of(ms1).dom().contains(k) == (lookup_mapping(ms1, scope, name) is Some));
    assert(names_of(ms2).dom().contains(k) == (lookup_mapping(ms2, scope, name) is Some));
    if lookup_mapping(ms1, scope, name) is Some {
        assert(names_of(ms1)[k] == lookup_mapping(ms1, scope, name)->0);
        assert(names_of(ms2)[k] == lookup_mapping(ms2, scope, name)->0);
    }
}

proof fn lemma_canonical_lookup_values(
    ms1: Seq<CanonicalMapping>,
    ms2: Seq<CanonicalMapping>,
    s1: Seq<Scope>,
    s2: Seq<Scope>,
    scope: Seq<char>,
    name: Seq<char>,
    fuel: nat,
)
    requires
        names_of(ms1) == names_of(ms2),
        same_scopes(s1, s2),
    ensures
        canonical_lookup(ms1, s1, scope, name, fuel) == canonical_lookup(ms2, s2, scope, name, fuel),
    decreases fuel,
{
    if fuel > 0 {
        lemma_lookup_values(ms1, ms2, scope, name);
        lemma_find_scope_values(s1, s2, scope);
        match find_scope_index(s1, scope) {
            Some(k) => {
                assert(has_scope(s1, scope, k));
                assert(same_scope_values(s1[k], s2[k]));
                match s1[k].parent {
                    Some(p) => {
                        lemma_canonical_lookup_values(ms1, ms2, s1, s2, p@, name, (fuel - 1) as nat);
                    },
                    None => {},
                }
            },
            None => {},
        }
    }
}

/// The replacements of the same occurrences are the same.
proof fn lemma_spans_values(
    t1: SyntaxTree,
    t2: SyntaxTree,
    ms1: Seq<CanonicalMapping>,
    ms2: Seq<CanonicalMapping>,
    s1: Seq<Scope>,
    s2: Seq<Scope>,
    ids: Seq<IdView>,
)
    requires
        same_tree_values(t1, t2),
        same_scopes(s1, s2),
        names_of(ms1) == names_of(ms2),
        forall|i: int| 0 <= i < ids.len() ==> (#[trigger] ids[i]).0 < t1.nodes@.len(),
    ensures
        spans_of(t1, ms1, s1, ids) == spans_of(t2, ms2, s2, ids),
{
    assert forall|i: int| 0 <= i < ids.len() implies #[trigger] spans_of(t1, ms1, s1, ids)[i] == spans_of(
        t2,
        ms2,
        s2,
        ids,
    )[i] by {
        let x = ids[i];
        assert(same_node_values(t1.nodes@[x.0 as int], t2.nodes@[x.0 as int]));
        lemma_node_reads(t1, t2, x.0 as int);
        lemma_canonical_lookup_values(ms1, ms2, s1, s2, x.2, x.1, s1.len());
        assert(replacement(t1, ms1, s1, x) == replacement(t2, ms2, s2, x));
    }
    assert(spans_of(t1, ms1, s1, ids) =~= spans_of(t2, ms2, s2, ids));
}

/// Index `a` comes before index `b` in stable key order.
pub open spec fn stable_before(keys: Seq<(usize, usize)>, a: usize, b: usize) -> bool {
    key_before(keys[a as int], keys[b as int]) || (!key_before(keys[b as int], keys[a as int]) && a < b)
}

/// Two stable sorts of the same keys are the same order.
proof fn lemma_stable_order_unique(keys: Seq<(usize, usize)>, o1: Seq<usize>, o2: Seq<usize>)
    requires
        stably_sorted(keys, o1),
        stably_sorted(keys, o2),
    ensures
        o1 == o2,
{
    lemma_sorted_same(keys, o1, o2);
}

proof fn lemma_sorted_same(keys: Seq<(usize, usize)>, a: Seq<usize>, b: Seq<usize>)
    requires
        forall|i: int, j: int| 0 <= i < j < a.len() ==> stable_before(keys, #[trigger] a[i], #[trigger] a[j]),
        forall|i: int, j: int| 0 <= i < j < b.len() ==> stable_before(keys, #[trigger] b[i], #[trigger] b[j]),
        forall|i: int, j: int| 0 <= i < j < a.len() ==> #[trigger] a[i] != #[trigger] a[j],
        forall|i: int, j: int| 0 <= i < j < b.len() ==> #[trigger] b[i] != #[trigger] b[j],
        forall|x: usize| a.contains(x) <==> b.contains(x),
    ensures
        a == b,
    decreases a.len(),
{
    if a.len() == 0 {
        if b.len() > 0 {
            assert(b.contains(b[0]));
        }
        assert(b =~= a);
    } else {
        assert(a.contains(a[0]));
        assert(b.contains(a[0]));
        assert(b.len() > 0);
        assert(b.contains(b[0]));
        assert(a.contains(b[0]));
        let ka = choose|k: int| 0 <= k < b.len() && b[k] == a[0];
        let kb = choose|k: int| 0 <= k < a.len() && a[k] == b[0];
        if ka > 0 && kb > 0 {
            assert(stable_before(keys, b[0], b[ka]));
            assert(stable_before(keys, a[0], a[kb]));
        } else if ka > 0 {
            assert(a[0] == b[0]);
        }
        assert(a[0] == b[0]);
        let a1 = a.drop_first();
        let b1 = b.drop_first();
        assert forall|x: usize| a1.contains(x) <==> b1.contains(x) by {
            if a1.contains(x) {
                let k = choose|k: int| 0 <= k < a1.len() && a1[k] == x;
                assert(a[k + 1] == x && a[0] != a[k + 1]);
                assert(a.contains(x));
                let m = choose|m: int| 0 <= m < b.len() && b[m] == x;
                assert(m != 0);
                assert(b1[m - 1] == x);
            }
            if b1.contains(x) {
                let k = choose|k: int| 0 <= k < b1.len() && b1[k] == x;
                assert(b[k + 1] == x && b[0] != b[k + 1]);
                assert(b.contains(x));
                let m = choose|m: int| 0 <= m < a.len() && a[m] == x;
                assert(m != 0);
                assert(a1[m - 1] == x);
            }
        }
        assert forall|i: int, j: int| 0 <= i < j < a1.len() implies stable_before(keys, #[trigger] a1[i], #[trigger] a1[j]) by {
            assert(stable_before(keys, a[i + 1], a[j + 1]));
        }
        assert forall|i: int, j: int| 0 <= i < j < b1.len() implies stable_before(keys, #[trigger] b1[i], #[trigger] b1[j]) by {
            assert(stable_before(keys, b[i + 1], b[j + 1]));
        }
        assert forall|i: int, j: int| 0 <= i < j < a1.len() implies #[trigger] a1[i] != #[trigger] a1[j] by {
            assert(a[i + 1] != a[j + 1]);
        }
        assert forall|i: int, j: int| 0 <= i < j < b1.len() implies #[trigger] b1[i] != #[trigger] b1[j] by {
            assert(b[i + 1] != b[j + 1]);
        }
        lemma_sorted_same(keys, a1, b1);
        assert forall|k: int| 0 <= k < a.len() implies a[k] == b[k] by {
            if k > 0 {
                assert(a[k] == a1[k - 1] && b[k] == b1[k - 1]);
            }
        }
        assert(a =~= b);
    }
}

/// Reading the same occurrences sorted by start in the same tree gives the
/// same sequence.
proof fn lemma_sorted_by_start_unique(t1: SyntaxTree, t2: SyntaxTree, ids: Seq<IdView>, r1: Seq<IdView>, r2: Seq<IdView>)
    requires
        same_tree_values(t1, t2),
        forall|i: int| 0 <= i < ids.len() ==> (#[trigger] ids[i]).0 < t1.nodes@.len(),
        sorted_by_start(t1, ids, r1),
        sorted_by_start(t2, ids, r2),
    ensures
        r1 == r2,
{
    let k1 = start_keys(t1, ids);
    let k2 = start_keys(t2, ids);
    assert forall|i: int| 0 <= i < ids.len() implies #[trigger] k1[i] == k2[i] by {
        assert(same_node_values(t1.nodes@[ids[i].0 as int], t2.nodes@[ids[i].0 as int]));
    }
    assert(k1 =~= k2);
    let o1 = choose|order: Seq<usize>|
        stably_sorted(k1, order) && forall|i: int| 0 <= i < r1.len() ==> #[trigger] r1[i] == ids[order[i] as int];
    let o2 = choose|order: Seq<usize>|
        stably_sorted(k2, order) && forall|i: int| 0 <= i < r2.len() ==> #[trigger] r2[i] == ids[order[i] as int];
    assert forall|i: int, j: int| 0 <= i < j < o1.len() implies stable_before(k1, #[trigger] o1[i], #[trigger] o1[j]) by {}
    assert forall|i: int, j: int| 0 <= i < j < o2.len() implies stable_before(k1, #[trigger] o2[i], #[trigger] o2[j]) by {}
    assert forall|x: usize| o1.contains(x) <==> o2.contains(x) by {
        if o1.contains(x) {
            let i = choose|i: int| 0 <= i < o1.len() && o1[i] == x;
            assert(o1[i] < k1.len());
            assert(o2.contains(x));
        }
        if o2.contains(x) {
            let i = choose|i: int| 0 <= i < o2.len() && o2[i] == x;
            assert(o2[i] < k1.len());
            assert(o1.contains(x));
        }
    }
    lemma_sorted_same(k1, o1, o2);
    assert forall|i: int| 0 <= i < r1.len() implies r1[i] == r2[i] by {
        assert(r1[i] == ids[o1[i] as int]);
        assert(r2[i] == ids[o2[i] as int]);
    }
    assert(r1 =~= r2);
}

/// Two trees and two analyses that agree on every plain value that
/// canonicalization reads, with the same canonical names, give the same
/// canonical text.
pub proof fn lemma_rendering_values(
    t1: SyntaxTree,
    t2: SyntaxTree,
    ms1: Seq<CanonicalMapping>,
    ms2: Seq<CanonicalMapping>,
    s1: Seq<Scope>,
    s2: Seq<Scope>,
    ids1: Seq<IdView>,
    ids2: Seq<IdView>,
)
    requires
        same_tree_values(t1, t2),
        same_scopes(s1, s2),
        names_of(ms1) == names_of(ms2),
        sorted_by_start(t1, collected(t1, s1, 0, "global"@), ids1),
        sorted_by_start(t2, collected(t2, s2, 0, "global"@), ids2),
        forall|i: int| 0 <= i < ids1.len() ==> (#[trigger] ids1[i]).0 < t1.nodes@.len(),
    ensures
        ids1 == ids2,
        spans_of(t1, ms1, s1, ids1) == spans_of(t2, ms2, s2, ids2),
{
    lemma_collected_values(t1, t2, s1, s2, 0, "global"@);
    let coll = collected(t1, s1, 0, "global"@);
    lemma_collected_in_range(t1, s1, 0, "global"@);
    lemma_sorted_by_start_unique(t1, t2, coll, ids1, ids2);
    lemma_spans_values(t1, t2, ms1, ms2, s1, s2, ids1);
}

} // verus!
