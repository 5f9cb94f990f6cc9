//! Canonical renaming: every declared name gets a name made of its kind and
//! its rank in declaration order (`fn_1`, `param_2`, `var_3`, `class_1`).
use vstd::prelude::*;
use crate::scope::{
    ScopeAnalyzer, Scope, Variable, VariableKind, find_scope_index, lemma_find_scope_spec, ScopeView, VarView,
    var_view, scope_view, sat_inc, scope_index_of,
};
use crate::syntax::SyntaxTree;
use crate::text::{str_eq, numbered_name, decimal, push_str, push_range, string_of, occurs_at, str_starts_with};

verus! {

#[derive(Debug, Clone, Copy)]
pub struct Position {
    pub line: usize,
    pub column: usize,
}

#[derive(Debug, Clone)]
pub struct CanonicalMapping {
    pub original_name: String,
    pub canonical_name: String,
    pub scope_id: String,
    pub position: Position,
}

/// Why canonicalization stopped.
#[derive(Debug, Clone, Copy, PartialEq, Eq, Structural)]
pub enum CanonicalizeError {
    /// A scope lists a child scope id that no scope has.
    ScopeNotFound,
}

struct NameCounters {
    function_counter: usize,
    variable_counter: usize,
    parameter_counter: usize,
    class_counter: usize,
}

pub struct Canonicalizer {
    pub scope_analyzer: ScopeAnalyzer,
    canonical_mappings: Vec<CanonicalMapping>,
    counters: NameCounters,
}

/// An identifier occurrence found in the tree, with the scope it is read in.
#[derive(Debug, Clone)]
pub struct IdentifierInfo {
    pub node: usize,
    pub text: String,
    pub scope_id: String,
}

/// The prefix of canonical names for declarations of `kind`.
pub open spec fn kind_prefix(kind: VariableKind) -> Seq<char> {
    match kind {
        VariableKind::FunctionDeclaration => "fn_"@,
        VariableKind::Parameter => "param_"@,
        VariableKind::Var | VariableKind::Let | VariableKind::Const => "var_"@,
        VariableKind::ClassDeclaration => "class_"@,
    }
}

/// Whether `name` is a canonical name: a kind prefix and a positive number.
pub open spec fn is_canonical_name(name: Seq<char>) -> bool {
    exists|kind: VariableKind, n: nat| n >= 1 && name == kind_prefix(kind) + decimal(n)
}

/// Whether mapping `m` is keyed by scope `scope` and name `name`.
pub open spec fn keyed(m: CanonicalMapping, scope: Seq<char>, name: Seq<char>) -> bool {
    m.scope_id@ == scope && m.original_name@ == name
}

/// The invariant of the mapping table: one entry per (scope, name) key, and
/// every entry names a canonical name.
pub open spec fn mappings_ok(ms: Seq<CanonicalMapping>) -> bool {
    &&& forall|i: int, j: int|
        0 <= i < j < ms.len() ==> !keyed(#[trigger] ms[i], ms[j].scope_id@, (#[trigger] ms[j]).original_name@)
    &&& forall|i: int| 0 <= i < ms.len() ==> is_canonical_name((#[trigger] ms[i]).canonical_name@)
}

/// The entry for key (`scope`, `name`), if any.
pub open spec fn lookup_mapping(ms: Seq<CanonicalMapping>, scope: Seq<char>, name: Seq<char>) -> Option<
    Seq<char>,
> {
    if exists|i: int| 0 <= i < ms.len() && keyed(ms[i], scope, name) {
        let i = choose|i: int| 0 <= i < ms.len() && keyed(ms[i], scope, name);
        Some(ms[i].canonical_name@)
    } else {
        None
    }
}

/// The canonical name of `name` as seen from scope `scope`: its entry in
/// that scope, else in the parent scope, and so on outward, following at
/// most `fuel` scopes.
pub open spec fn canonical_lookup(
    ms: Seq<CanonicalMapping>,
    scopes: Seq<Scope>,
    scope: Seq<char>,
    name: Seq<char>,
    fuel: nat,
) -> Option<Seq<char>>
    decreases fuel,
{
    if fuel == 0 {
        None
    } else {
        match lookup_mapping(ms, scope, name) {
            Some(c) => Some(c),
            None => match find_scope_index(scopes, scope) {
                Some(k) => match scopes[k].parent {
                    Some(p) => canonical_lookup(ms, scopes, p@, name, (fuel - 1) as nat),
                    None => None,
                },
                None => None,
            },
        }
    }
}

/// Whether key `a` comes strictly before key `b`, comparing the first
/// component, then the second.
pub open spec fn key_before(a: (usize, usize), b: (usize, usize)) -> bool {
    a.0 < b.0 || (a.0 == b.0 && a.1 < b.1)
}

/// Whether `order` lists the indices of `keys` sorted by key, equal keys
/// keeping their original order.
pub open spec fn stably_sorted(keys: Seq<(usize, usize)>, order: Seq<usize>) -> bool {
    &&& order.len() == keys.len()
    &&& forall|i: int| 0 <= i < order.len() ==> (#[trigger] order[i]) < keys.len()
    &&& forall|i: int, j: int| 0 <= i < j < order.len() ==> #[trigger] order[i] != #[trigger] order[j]
    &&& forall|i: int, j: int|
        0 <= i < j < order.len() ==> key_before(keys[#[trigger] order[i] as int], keys[#[trigger] order[j] as int])
            || (!key_before(keys[order[j] as int], keys[order[i] as int]) && order[i] < order[j])
    &&& forall|k: usize| k < keys.len() ==> #[trigger] order.contains(k)
}

fn key_before_exec(a: (usize, usize), b: (usize, usize)) -> (r: bool)
    ensures
        r == key_before(a, b),
{
    a.0 < b.0 || (a.0 == b.0 && a.1 < b.1)
}

/// The indices of `keys` in stable sorted order (insertion sort).
pub fn stable_sort_order(keys: &Vec<(usize, usize)>) -> (order: Vec<usize>)
    ensures
        stably_sorted(keys@, order@),
        order@ == stable_order(keys@, keys@.len() as int),
{
    let n = keys.len();
    let mut order: Vec<usize> = Vec::new();
    let mut i: usize = 0;
    while i < n
        invariant
            n == keys@.len(),
            i <= n,
            order@.len() == i,
            order@ == stable_order(keys@, i as int),
            forall|k: usize| k < i ==> #[trigger] order@.contains(k),
            forall|a: int| 0 <= a < order@.len() ==> (#[trigger] order@[a]) < i,
            forall|a: int, b: int| 0 <= a < b < order@.len() ==> #[trigger] order@[a] != #[trigger] order@[b],
            forall|a: int, b: int|
                0 <= a < b < order@.len() ==> key_before(keys@[#[trigger] order@[a] as int], keys@[#[trigger] order@[b] as int])
                    || (!key_before(keys@[order@[b] as int], keys@[order@[a] as int]) && order@[a] < order@[b]),
        decreases n - i,
    {
        let mut p: usize = order.len();
        while p > 0 && key_before_exec(keys[i], keys[order[p - 1]])
            invariant
                n == keys@.len(),
                i < n,
                p <= order@.len(),
                insertion_point(keys@, order@, i as int, p as int) == insertion_point(
                    keys@,
                    order@,
                    i as int,
                    order@.len() as int,
                ),
                forall|a: int| 0 <= a < order@.len() ==> (#[trigger] order@[a]) < i,
                forall|a: int| p <= a < order@.len() ==> key_before(keys@[i as int], keys@[#[trigger] order@[a] as int]),
            decreases p,
        {
            p = p - 1;
        }
        let ghost before = order@;
        assert(insertion_point(keys@, before, i as int, p as int) == p);
        order.insert(p, i);
        proof {
            assert(stable_order(keys@, i + 1) == before.insert(p as int, i));
            before.insert_ensures(p as int, i);
            assert(order@ == before.insert(p as int, i));
            assert forall|k: usize| k < i + 1 implies #[trigger] order@.contains(k) by {
                if k == i {
                    assert(order@[p as int] == i);
                } else {
                    assert(before.contains(k));
                    let a = choose|a: int| 0 <= a < before.len() && before[a] == k;
                    if a < p {
                        assert(before.insert(p as int, i)[a] == before[a]);
                    } else {
                        assert(before.insert(p as int, i)[a + 1] == before[a]);
                    }
                }
            }
            assert forall|a: int, b: int|
                0 <= a < b < order@.len() implies key_before(keys@[#[trigger] order@[a] as int], keys@[#[trigger] order@[b] as int])
                    || (!key_before(keys@[order@[b] as int], keys@[order@[a] as int]) && order@[a] < order@[b]) by {
                if a < p && b < p {
                    assert(order@[a] == before[a] && order@[b] == before[b]);
                } else if a < p && b == p {
                    assert(order@[a] == before[a]);
                    assert(order@[b] == i);
                    assert(!key_before(keys@[i as int], keys@[before[p - 1] as int]));
                    if a < p - 1 {
                        assert(key_before(keys@[before[a] as int], keys@[before[p - 1] as int])
                            || (!key_before(keys@[before[p - 1] as int], keys@[before[a] as int]) && before[a] < before[p - 1]));
                    }
                } else if a < p && b > p {
                    assert(order@[a] == before[a] && order@[b] == before[b - 1]);
                } else if a == p {
                    assert(order@[a] == i);
                    assert(order@[b] == before[b - 1]);
                    assert(key_before(keys@[i as int], keys@[before[b - 1] as int]));
                } else {
                    assert(order@[a] == before[a - 1] && order@[b] == before[b - 1]);
                }
            }
        }
        i = i + 1;
    }
    order
}

/// The (line, column) keys of declarations.
pub open spec fn position_key(v: Variable) -> (usize, usize) {
    (v.declaration_line, v.declaration_column)
}

/// The indices of `vars` sorted by declaration position, stable.
pub fn sort_by_position(vars: &Vec<Variable>) -> (order: Vec<usize>)
    ensures
        stably_sorted(vars@.map_values(|v: Variable| position_key(v)), order@),
        order@ == stable_order(
            view_keys(vars@.map_values(|v: Variable| var_view(v))),
            vars@.len() as int,
        ),
{
    let mut keys: Vec<(usize, usize)> = Vec::new();
    let mut i: usize = 0;
    while i < vars.len()
        invariant
            i <= vars@.len(),
            keys@ == vars@.take(i as int).map_values(|v: Variable| position_key(v)),
        decreases vars@.len() - i,
    {
        keys.push((vars[i].declaration_line, vars[i].declaration_column));
        proof {
            assert(vars@.take(i + 1).drop_last() == vars@.take(i as int));
        }
        i = i + 1;
        proof {
            assert(keys@ =~= vars@.take(i as int).map_values(|v: Variable| position_key(v)));
        }
    }
    proof {
        assert(vars@.take(vars@.len() as int) == vars@);
        assert(keys@ =~= view_keys(vars@.map_values(|v: Variable| var_view(v))));
    }
    stable_sort_order(&keys)
}

/// The next canonical name for a declaration of `kind`, counting from one per kind.
fn next_name(counters: &mut NameCounters, kind: VariableKind) -> (name: String)
    ensures
        is_canonical_name(name@),
        final(counters).function_counter == if kind == VariableKind::FunctionDeclaration {
            sat_inc(old(counters).function_counter)
        } else {
            old(counters).function_counter
        },
        final(counters).variable_counter == if kind == VariableKind::Var || kind == VariableKind::Let || kind
            == VariableKind::Const {
            sat_inc(old(counters).variable_counter)
        } else {
            old(counters).variable_counter
        },
        final(counters).parameter_counter == if kind == VariableKind::Parameter {
            sat_inc(old(counters).parameter_counter)
        } else {
            old(counters).parameter_counter
        },
        final(counters).class_counter == if kind == VariableKind::ClassDeclaration {
            sat_inc(old(counters).class_counter)
        } else {
            old(counters).class_counter
        },
        name@ == kind_prefix(kind) + decimal(match kind {
            VariableKind::FunctionDeclaration => final(counters).function_counter,
            VariableKind::Parameter => final(counters).parameter_counter,
            VariableKind::Var | VariableKind::Let | VariableKind::Const => final(counters).variable_counter,
            VariableKind::ClassDeclaration => final(counters).class_counter,
        } as nat),
{
    let name = match kind {
        VariableKind::FunctionDeclaration => {
            counters.function_counter = counters.function_counter.saturating_add(1);
            numbered_name("fn_", counters.function_counter)
        },
        VariableKind::Parameter => {
            counters.parameter_counter = counters.parameter_counter.saturating_add(1);
            numbered_name("param_", counters.parameter_counter)
        },
        VariableKind::Var | VariableKind::Let | VariableKind::Const => {
            counters.variable_counter = counters.variable_counter.saturating_add(1);
            numbered_name("var_", counters.variable_counter)
        },
        VariableKind::ClassDeclaration => {
            counters.class_counter = counters.class_counter.saturating_add(1);
            numbered_name("class_", counters.class_counter)
        },
    };
    proof {
        let n: nat = match kind {
            VariableKind::FunctionDeclaration => counters.function_counter,
            VariableKind::Parameter => counters.parameter_counter,
            VariableKind::Var | VariableKind::Let | VariableKind::Const => counters.variable_counter,
            VariableKind::ClassDeclaration => counters.class_counter,
        } as nat;
        assert(n >= 1 && name@ == kind_prefix(kind) + decimal(n));
    }
    name
}

/// The index of the entry keyed (`scope`, `name`).
fn find_mapping(ms: &Vec<CanonicalMapping>, scope: &str, name: &str) -> (r: Option<usize>)
    ensures
        r matches Some(i) ==> i < ms@.len() && keyed(ms@[i as int], scope@, name@),
        r is None ==> forall|i: int| 0 <= i < ms@.len() ==> !keyed(ms@[i], scope@, name@),
{
    let mut i: usize = 0;
    while i < ms.len()
        invariant
            i <= ms@.len(),
            forall|j: int| 0 <= j < i ==> !keyed(ms@[j], scope@, name@),
        decreases ms@.len() - i,
    {
        if str_eq(ms[i].scope_id.as_str(), scope) && str_eq(ms[i].original_name.as_str(), name) {
            return Some(i);
        }
        i = i + 1;
    }
    None
}

proof fn lemma_lookup_found(ms: Seq<CanonicalMapping>, scope: Seq<char>, name: Seq<char>, i: int)
    requires
        mappings_ok(ms),
        0 <= i < ms.len(),
        keyed(ms[i], scope, name),
    ensures
        lookup_mapping(ms, scope, name) == Some(ms[i].canonical_name@),
{
    let c = choose|c: int| 0 <= c < ms.len() && keyed(ms[c], scope, name);
    if c != i {
        if c < i {
            assert(!keyed(ms[c], ms[i].scope_id@, ms[i].original_name@));
        } else {
            assert(!keyed(ms[i], ms[c].scope_id@, ms[c].original_name@));
        }
    }
}

/// Stores `m`, replacing the entry with the same key if there is one.
fn insert_mapping(ms: &mut Vec<CanonicalMapping>, m: CanonicalMapping)
    requires
        mappings_ok(old(ms)@),
        is_canonical_name(m.canonical_name@),
    ensures
        mappings_ok(final(ms)@),
        lookup_mapping(final(ms)@, m.scope_id@, m.original_name@) == Some(m.canonical_name@),
        forall|sc: Seq<char>, nm: Seq<char>|
            !(sc == m.scope_id@ && nm == m.original_name@) ==> lookup_mapping(final(ms)@, sc, nm) == lookup_mapping(
                old(ms)@,
                sc,
                nm,
            ),
{
    let ghost before = ms@;
    let ghost key_scope = m.scope_id@;
    let ghost key_name = m.original_name@;
    let ghost canon = m.canonical_name@;
    let pos = find_mapping(ms, m.scope_id.as_str(), m.original_name.as_str());
    let idx: usize = match pos {
        Some(i) => {
            ms.set(i, m);
            i
        },
        None => {
            ms.push(m);
            ms.len() - 1
        },
    };
    proof {
        let after = ms@;
        assert(keyed(after[idx as int], key_scope, key_name));
        assert forall|i: int, j: int|
            0 <= i < j < after.len() implies !keyed(#[trigger] after[i], after[j].scope_id@, (#[trigger] after[j]).original_name@) by {
            if i != idx && j != idx {
                assert(after[i] == before[i] && after[j] == before[j]);
            } else if i == idx {
                if j < before.len() {
                    assert(after[j] == before[j]);
                    if pos is Some {
                        assert(!keyed(before[idx as int], before[j].scope_id@, before[j].original_name@));
                    }
                }
            } else {
                assert(after[i] == before[i]);
                if pos is Some {
                    assert(!keyed(before[i], before[idx as int].scope_id@, before[idx as int].original_name@));
                }
            }
        }
        assert(mappings_ok(after));
        lemma_lookup_found(after, key_scope, key_name, idx as int);
        assert forall|sc: Seq<char>, nm: Seq<char>|
            !(sc == key_scope && nm == key_name) implies lookup_mapping(after, sc, nm) == lookup_mapping(before, sc, nm) by {
            if exists|i: int| 0 <= i < before.len() && keyed(before[i], sc, nm) {
                let i = choose|i: int| 0 <= i < before.len() && keyed(before[i], sc, nm);
                lemma_lookup_found(before, sc, nm, i);
                assert(i != idx);
                assert(after[i] == before[i]);
                lemma_lookup_found(after, sc, nm, i);
            } else {
                assert forall|i: int| 0 <= i < after.len() implies !keyed(after[i], sc, nm) by {
                    if i != idx {
                        assert(after[i] == before[i]);
                    }
                }
            }
        }
    }
}

/// The state of canonical naming: how many names of each kind have been
/// given (functions and classes in the whole program, parameters and
/// variables in the scope being named), and the canonical name of each
/// (scope id, name) named so far.
pub struct Naming {
    pub functions: usize,
    pub variables: usize,
    pub parameters: usize,
    pub classes: usize,
    pub names: Map<(Seq<char>, Seq<char>), Seq<char>>,
}

/// No names given yet.
pub open spec fn initial_naming() -> Naming {
    Naming { functions: 0, variables: 0, parameters: 0, classes: 0, names: Map::empty() }
}

/// The number of names given so far to declarations of `kind`'s family.
pub open spec fn given_for(n: Naming, kind: VariableKind) -> usize {
    match kind {
        VariableKind::FunctionDeclaration => n.functions,
        VariableKind::Parameter => n.parameters,
        VariableKind::Var | VariableKind::Let | VariableKind::Const => n.variables,
        VariableKind::ClassDeclaration => n.classes,
    }
}

/// The naming state after giving the declaration `v` of scope `scope` the
/// next name of its family: the family's count goes up by one (staying at
/// its largest value once there) and names `v`.
pub open spec fn name_declaration(n: Naming, scope: Seq<char>, v: VarView) -> Naming {
    let b = Naming {
        functions: if v.kind == VariableKind::FunctionDeclaration { sat_inc(n.functions) } else { n.functions },
        variables: if v.kind == VariableKind::Var || v.kind == VariableKind::Let || v.kind == VariableKind::Const {
            sat_inc(n.variables)
        } else {
            n.variables
        },
        parameters: if v.kind == VariableKind::Parameter { sat_inc(n.parameters) } else { n.parameters },
        classes: if v.kind == VariableKind::ClassDeclaration { sat_inc(n.classes) } else { n.classes },
        names: n.names,
    };
    Naming {
        functions: b.functions,
        variables: b.variables,
        parameters: b.parameters,
        classes: b.classes,
        names: n.names.insert((scope, v.name), kind_prefix(v.kind) + decimal(given_for(b, v.kind) as nat)),
    }
}

/// Where insertion sort puts element `i` among the sorted `order`: before
/// the run of elements at the end whose keys come strictly after its key.
pub open spec fn insertion_point(keys: Seq<(usize, usize)>, order: Seq<usize>, i: int, p: int) -> int
    decreases p,
{
    if p > 0 && key_before(keys[i], keys[order[p - 1] as int]) {
        insertion_point(keys, order, i, p - 1)
    } else {
        p
    }
}

/// The indices `0..i` of `keys` in stable key order.
pub open spec fn stable_order(keys: Seq<(usize, usize)>, i: int) -> Seq<usize>
    decreases i,
{
    if i <= 0 {
        seq![]
    } else {
        let o = stable_order(keys, i - 1);
        o.insert(insertion_point(keys, o, i - 1, o.len() as int), (i - 1) as usize)
    }
}

/// The (line, column) keys of declarations given as plain values.
pub open spec fn view_keys(vars: Seq<VarView>) -> Seq<(usize, usize)> {
    vars.map_values(|v: VarView| (v.line, v.column))
}

/// Naming the declarations `order[j..]` of `vars`, in scope `scope`.
pub open spec fn name_in_order(n: Naming, scope: Seq<char>, vars: Seq<VarView>, order: Seq<usize>, j: int) -> Naming
    decreases order.len() - j,
{
    if j < 0 || j >= order.len() {
        n
    } else {
        name_in_order(name_declaration(n, scope, vars[order[j] as int]), scope, vars, order, j + 1)
    }
}

/// The naming state at the start of a scope: functions and classes are
/// numbered across the whole program, parameters and variables afresh in
/// each scope.
pub open spec fn scope_start(n: Naming) -> Naming {
    Naming { functions: n.functions, variables: 0, parameters: 0, classes: n.classes, names: n.names }
}

/// Naming every declaration of scope `s` in position order, its parameters
/// and variables counted from one.
pub open spec fn name_scope_declarations(n: Naming, s: ScopeView) -> Naming {
    name_in_order(scope_start(n), s.id, s.variables, stable_order(view_keys(s.variables), s.variables.len() as int), 0)
}

/// Naming scope `idx` of `scopes`, then the scopes it opened, depth first,
/// descending at most `fuel` levels; the flag is false when a child id
/// names no scope, where naming stopped.
pub open spec fn canon_scope(scopes: Seq<ScopeView>, n: Naming, idx: int, fuel: nat) -> (Naming, bool)
    decreases fuel, 1int, 0int,
{
    if fuel == 0 || !(0 <= idx < scopes.len()) {
        (n, true)
    } else {
        canon_children(scopes, name_scope_declarations(n, scopes[idx]), idx, 0, fuel)
    }
}

/// Naming the child scopes `c..` of scope `idx`, in order.
pub open spec fn canon_children(scopes: Seq<ScopeView>, n: Naming, idx: int, c: int, fuel: nat) -> (Naming, bool)
    decreases fuel, 0int, scopes[idx].children.len() - c,
{
    if fuel == 0 || !(0 <= idx < scopes.len()) || c < 0 || c >= scopes[idx].children.len() {
        (n, true)
    } else {
        match scope_index_of(scopes, scopes[idx].children[c]) {
            Some(k) => {
                let (n2, ok) = canon_scope(scopes, n, k, (fuel - 1) as nat);
                if ok {
                    canon_children(scopes, n2, idx, c + 1, fuel)
                } else {
                    (n2, false)
                }
            },
            None => (n, false),
        }
    }
}

/// Whether two key lists have the same length and order their keys alike.
pub open spec fn same_key_order(a: Seq<(usize, usize)>, b: Seq<(usize, usize)>) -> bool {
    &&& a.len() == b.len()
    &&& forall|i: int, j: int|
        0 <= i < a.len() && 0 <= j < a.len() ==> key_before(#[trigger] a[i], #[trigger] a[j]) == key_before(
            b[i],
            b[j],
        )
}

/// Whether `rho` renames the names of each scope one-to-one.
pub open spec fn one_to_one(rho: spec_fn(Seq<char>, Seq<char>) -> Seq<char>) -> bool {
    forall|s: Seq<char>, x: Seq<char>, y: Seq<char>| #[trigger] rho(s, x) == #[trigger] rho(s, y) ==> x == y
}

/// Whether `sigma` renames scope ids one-to-one.
pub open spec fn injective(sigma: spec_fn(Seq<char>) -> Seq<char>) -> bool {
    forall|x: Seq<char>, y: Seq<char>| #[trigger] sigma(x) == #[trigger] sigma(y) ==> x == y
}

/// Whether declarations `b` of scope `s` are `a` with each name renamed by
/// `rho`: the same kinds, in the same relative positions.
pub open spec fn renamed_vars(
    a: Seq<VarView>,
    b: Seq<VarView>,
    s: Seq<char>,
    rho: spec_fn(Seq<char>, Seq<char>) -> Seq<char>,
) -> bool {
    &&& a.len() == b.len()
    &&& forall|j: int| 0 <= j < a.len() ==> (#[trigger] b[j]).kind == a[j].kind && b[j].name == rho(s, a[j].name)
    &&& same_key_order(view_keys(a), view_keys(b))
}

/// Whether scopes `b` are scopes `a` with every scope id renamed by `sigma`
/// (in the children lists too) and the declarations of each scope renamed
/// by `rho`.
pub open spec fn renamed_scopes(
    a: Seq<ScopeView>,
    b: Seq<ScopeView>,
    sigma: spec_fn(Seq<char>) -> Seq<char>,
    rho: spec_fn(Seq<char>, Seq<char>) -> Seq<char>,
) -> bool {
    &&& a.len() == b.len()
    &&& forall|i: int|
        0 <= i < a.len() ==> (#[trigger] b[i]).id == sigma(a[i].id) && b[i].children == a[i].children.map_values(
            sigma,
        ) && renamed_vars(a[i].variables, b[i].variables, a[i].id, rho)
}

/// Whether no two scopes share an id.
pub open spec fn ids_unique(a: Seq<ScopeView>) -> bool {
    forall|i: int, j: int| 0 <= i < j < a.len() ==> (#[trigger] a[i]).id != (#[trigger] a[j]).id
}

/// The key that (scope id, name) key `k` becomes under the renamings.
pub open spec fn renamed_key(
    k: (Seq<char>, Seq<char>),
    sigma: spec_fn(Seq<char>) -> Seq<char>,
    rho: spec_fn(Seq<char>, Seq<char>) -> Seq<char>,
) -> (Seq<char>, Seq<char>) {
    (sigma(k.0), rho(k.0, k.1))
}

/// Whether naming table `m2` is `m1` with each key renamed.
pub open spec fn names_renamed(
    m1: Map<(Seq<char>, Seq<char>), Seq<char>>,
    m2: Map<(Seq<char>, Seq<char>), Seq<char>>,
    sigma: spec_fn(Seq<char>) -> Seq<char>,
    rho: spec_fn(Seq<char>, Seq<char>) -> Seq<char>,
) -> bool {
    &&& forall|k: (Seq<char>, Seq<char>)|
        #[trigger] m1.contains_key(k) ==> m2.contains_key(renamed_key(k, sigma, rho)) && m2[renamed_key(k, sigma, rho)]
            == m1[k]
    &&& forall|k: (Seq<char>, Seq<char>)|
        #[trigger] m2.contains_key(k) ==> exists|j: (Seq<char>, Seq<char>)|
            #[trigger] m1.contains_key(j) && k == renamed_key(j, sigma, rho)
}

/// Whether naming state `n2` is `n1` with its keys renamed: the same
/// counters, and the same canonical name for each renamed declaration.
pub open spec fn naming_renamed(
    n1: Naming,
    n2: Naming,
    sigma: spec_fn(Seq<char>) -> Seq<char>,
    rho: spec_fn(Seq<char>, Seq<char>) -> Seq<char>,
) -> bool {
    &&& n1.functions == n2.functions
    &&& n1.variables == n2.variables
    &&& n1.parameters == n2.parameters
    &&& n1.classes == n2.classes
    &&& names_renamed(n1.names, n2.names, sigma, rho)
}

proof fn lemma_insertion_point_range(keys: Seq<(usize, usize)>, order: Seq<usize>, i: int, p: int)
    requires
        0 <= p,
    ensures
        0 <= insertion_point(keys, order, i, p) <= p,
    decreases p,
{
    if p > 0 && key_before(keys[i], keys[order[p - 1] as int]) {
        lemma_insertion_point_range(keys, order, i, p - 1);
    }
}

proof fn lemma_stable_order_range(keys: Seq<(usize, usize)>, i: int)
    requires
        0 <= i,
    ensures
        stable_order(keys, i).len() == i,
        forall|k: int| 0 <= k < i ==> (#[trigger] stable_order(keys, i)[k]) < i,
    decreases i,
{
    if i > 0 {
        lemma_stable_order_range(keys, i - 1);
        let o = stable_order(keys, i - 1);
        let p = insertion_point(keys, o, i - 1, o.len() as int);
        lemma_insertion_point_range(keys, o, i - 1, o.len() as int);
        let r = o.insert(p, (i - 1) as usize);
        assert(stable_order(keys, i) == r);
        assert forall|k: int| 0 <= k < i implies (#[trigger] stable_order(keys, i)[k]) < i by {
            if k < p {
                assert(r[k] == o[k]);
            } else if k > p {
                assert(r[k] == o[k - 1]);
            }
        }
    }
}

proof fn lemma_insertion_point_same(
    k1: Seq<(usize, usize)>,
    k2: Seq<(usize, usize)>,
    order: Seq<usize>,
    i: int,
    p: int,
)
    requires
        same_key_order(k1, k2),
        0 <= i < k1.len(),
        0 <= p <= order.len(),
        forall|a: int| 0 <= a < order.len() ==> (#[trigger] order[a]) < k1.len(),
    ensures
        insertion_point(k1, order, i, p) == insertion_point(k2, order, i, p),
    decreases p,
{
    if p > 0 {
        assert(order[p - 1] < k1.len());
        assert(key_before(k1[i], k1[order[p - 1] as int]) == key_before(k2[i], k2[order[p - 1] as int]));
        lemma_insertion_point_same(k1, k2, order, i, p - 1);
    }
}

proof fn lemma_stable_order_same(k1: Seq<(usize, usize)>, k2: Seq<(usize, usize)>, i: int)
    requires
        same_key_order(k1, k2),
        0 <= i <= k1.len(),
    ensures
        stable_order(k1, i) == stable_order(k2, i),
    decreases i,
{
    if i > 0 {
        lemma_stable_order_same(k1, k2, i - 1);
        lemma_stable_order_range(k1, i - 1);
        let o = stable_order(k1, i - 1);
        lemma_insertion_point_same(k1, k2, o, i - 1, o.len() as int);
    }
}

proof fn lemma_name_declaration_renamed(
    n1: Naming,
    n2: Naming,
    s: Seq<char>,
    v1: VarView,
    v2: VarView,
    sigma: spec_fn(Seq<char>) -> Seq<char>,
    rho: spec_fn(Seq<char>, Seq<char>) -> Seq<char>,
)
    requires
        naming_renamed(n1, n2, sigma, rho),
        one_to_one(rho),
        injective(sigma),
        v2.kind == v1.kind,
        v2.name == rho(s, v1.name),
    ensures
        naming_renamed(name_declaration(n1, s, v1), name_declaration(n2, sigma(s), v2), sigma, rho),
{
    let a = name_declaration(n1, s, v1);
    let b = name_declaration(n2, sigma(s), v2);
    let key = (s, v1.name);
    assert(renamed_key(key, sigma, rho) == (sigma(s), v2.name));
    assert forall|k: (Seq<char>, Seq<char>)| #[trigger] a.names.contains_key(k) implies b.names.contains_key(
        renamed_key(k, sigma, rho),
    ) && b.names[renamed_key(k, sigma, rho)] == a.names[k] by {
        if k != key {
            assert(n1.names.contains_key(k));
            if renamed_key(k, sigma, rho) == renamed_key(key, sigma, rho) {
                assert(sigma(k.0) == sigma(s));
                assert(k.0 == s);
                assert(rho(s, k.1) == rho(s, v1.name));
                assert(k.1 == v1.name);
            }
        }
    }
    assert forall|k: (Seq<char>, Seq<char>)| #[trigger] b.names.contains_key(k) implies exists|
        j: (Seq<char>, Seq<char>),
    | #[trigger] a.names.contains_key(j) && k == renamed_key(j, sigma, rho) by {
        if k == renamed_key(key, sigma, rho) {
            assert(a.names.contains_key(key) && k == renamed_key(key, sigma, rho));
        } else {
            assert(n2.names.contains_key(k));
            let j = choose|j: (Seq<char>, Seq<char>)| #[trigger] n1.names.contains_key(j) && k == renamed_key(j, sigma, rho);
            assert(a.names.contains_key(j) && k == renamed_key(j, sigma, rho));
        }
    }
}

proof fn lemma_name_in_order_renamed(
    n1: Naming,
    n2: Naming,
    s: Seq<char>,
    vars1: Seq<VarView>,
    vars2: Seq<VarView>,
    order: Seq<usize>,
    j: int,
    sigma: spec_fn(Seq<char>) -> Seq<char>,
    rho: spec_fn(Seq<char>, Seq<char>) -> Seq<char>,
)
    requires
        naming_renamed(n1, n2, sigma, rho),
        one_to_one(rho),
        injective(sigma),
        renamed_vars(vars1, vars2, s, rho),
        forall|k: int| 0 <= k < order.len() ==> (#[trigger] order[k]) < vars1.len(),
    ensures
        naming_renamed(
            name_in_order(n1, s, vars1, order, j),
            name_in_order(n2, sigma(s), vars2, order, j),
            sigma,
            rho,
        ),
    decreases order.len() - j,
{
    if 0 <= j < order.len() {
        let o = order[j] as int;
        assert(vars2[o].kind == vars1[o].kind && vars2[o].name == rho(s, vars1[o].name));
        lemma_name_declaration_renamed(n1, n2, s, vars1[o], vars2[o], sigma, rho);
        lemma_name_in_order_renamed(
            name_declaration(n1, s, vars1[o]),
            name_declaration(n2, sigma(s), vars2[o]),
            s,
            vars1,
            vars2,
            order,
            j + 1,
            sigma,
            rho,
        );
    }
}

proof fn lemma_index_same(
    s1: Seq<ScopeView>,
    s2: Seq<ScopeView>,
    id: Seq<char>,
    sigma: spec_fn(Seq<char>) -> Seq<char>,
    rho: spec_fn(Seq<char>, Seq<char>) -> Seq<char>,
)
    requires
        renamed_scopes(s1, s2, sigma, rho),
        ids_unique(s1),
        injective(sigma),
    ensures
        scope_index_of(s1, id) == scope_index_of(s2, sigma(id)),
{
    if exists|k: int| 0 <= k < s1.len() && s1[k].id == id {
        let k = choose|k: int| 0 <= k < s1.len() && s1[k].id == id;
        assert(s2[k].id == sigma(id));
        let k2 = choose|k: int| 0 <= k < s2.len() && s2[k].id == sigma(id);
        assert(s2[k2].id == sigma(s1[k2].id));
        assert(s1[k2].id == id);
        if k < k2 {
            assert(s1[k].id != s1[k2].id);
        } else if k2 < k {
            assert(s1[k2].id != s1[k].id);
        }
    } else {
        assert forall|k: int| 0 <= k < s2.len() implies s2[k].id != sigma(id) by {
            assert(s2[k].id == sigma(s1[k].id));
        }
    }
}

proof fn lemma_canon_scope_renamed(
    s1: Seq<ScopeView>,
    s2: Seq<ScopeView>,
    n1: Naming,
    n2: Naming,
    idx: int,
    fuel: nat,
    sigma: spec_fn(Seq<char>) -> Seq<char>,
    rho: spec_fn(Seq<char>, Seq<char>) -> Seq<char>,
)
    requires
        renamed_scopes(s1, s2, sigma, rho),
        ids_unique(s1),
        naming_renamed(n1, n2, sigma, rho),
        one_to_one(rho),
        injective(sigma),
    ensures
        naming_renamed(canon_scope(s1, n1, idx, fuel).0, canon_scope(s2, n2, idx, fuel).0, sigma, rho),
        canon_scope(s1, n1, idx, fuel).1 == canon_scope(s2, n2, idx, fuel).1,
    decreases fuel, 1int, 0int,
{
    if fuel > 0 && 0 <= idx < s1.len() {
        let v1 = s1[idx].variables;
        let v2 = s2[idx].variables;
        assert(s2[idx].id == sigma(s1[idx].id) && renamed_vars(v1, v2, s1[idx].id, rho));
        lemma_stable_order_same(view_keys(v1), view_keys(v2), v1.len() as int);
        lemma_stable_order_range(view_keys(v1), v1.len() as int);
        lemma_name_in_order_renamed(
            scope_start(n1),
            scope_start(n2),
            s1[idx].id,
            v1,
            v2,
            stable_order(view_keys(v1), v1.len() as int),
            0,
            sigma,
            rho,
        );
        lemma_canon_children_renamed(
            s1,
            s2,
            name_scope_declarations(n1, s1[idx]),
            name_scope_declarations(n2, s2[idx]),
            idx,
            0,
            fuel,
            sigma,
            rho,
        );
    }
}

proof fn lemma_canon_children_renamed(
    s1: Seq<ScopeView>,
    s2: Seq<ScopeView>,
    n1: Naming,
    n2: Naming,
    idx: int,
    c: int,
    fuel: nat,
    sigma: spec_fn(Seq<char>) -> Seq<char>,
    rho: spec_fn(Seq<char>, Seq<char>) -> Seq<char>,
)
    requires
        renamed_scopes(s1, s2, sigma, rho),
        ids_unique(s1),
        naming_renamed(n1, n2, sigma, rho),
        one_to_one(rho),
        injective(sigma),
    ensures
        naming_renamed(canon_children(s1, n1, idx, c, fuel).0, canon_children(s2, n2, idx, c, fuel).0, sigma, rho),
        canon_children(s1, n1, idx, c, fuel).1 == canon_children(s2, n2, idx, c, fuel).1,
    decreases fuel, 0int, s1[idx].children.len() - c,
{
    if fuel > 0 && 0 <= idx < s1.len() && 0 <= c < s1[idx].children.len() {
        assert(s2[idx].children == s1[idx].children.map_values(sigma));
        let id = s1[idx].children[c];
        assert(s2[idx].children[c] == sigma(id));
        lemma_index_same(s1, s2, id, sigma, rho);
        match scope_index_of(s1, id) {
            Some(k) => {
                lemma_canon_scope_renamed(s1, s2, n1, n2, k, (fuel - 1) as nat, sigma, rho);
                let (m1, ok) = canon_scope(s1, n1, k, (fuel - 1) as nat);
                let (m2, _) = canon_scope(s2, n2, k, (fuel - 1) as nat);
                if ok {
                    lemma_canon_children_renamed(s1, s2, m1, m2, idx, c + 1, fuel, sigma, rho);
                }
            },
            None => {},
        }
    }
}

/// Canonical names do not depend on the original names: when the scopes of
/// an analysis keep their structure, the kinds and relative positions of
/// their declarations, and only scope ids (one-to-one) and declaration
/// names (one-to-one within each scope) are renamed, naming from scratch
/// ends with the same counters, gives each renamed declaration the
/// canonical name that the original one got, and names nothing else.
pub proof fn lemma_naming_ignores_names(
    s1: Seq<ScopeView>,
    s2: Seq<ScopeView>,
    idx: int,
    fuel: nat,
    sigma: spec_fn(Seq<char>) -> Seq<char>,
    rho: spec_fn(Seq<char>, Seq<char>) -> Seq<char>,
)
    requires
        renamed_scopes(s1, s2, sigma, rho),
        ids_unique(s1),
        injective(sigma),
        one_to_one(rho),
    ensures
        naming_renamed(
            canon_scope(s1, initial_naming(), idx, fuel).0,
            canon_scope(s2, initial_naming(), idx, fuel).0,
            sigma,
            rho,
        ),
        canon_scope(s1, initial_naming(), idx, fuel).1 == canon_scope(s2, initial_naming(), idx, fuel).1,
{
    lemma_canon_scope_renamed(s1, s2, initial_naming(), initial_naming(), idx, fuel, sigma, rho);
}

/// The names a mapping table gives.
pub open spec fn names_of(ms: Seq<CanonicalMapping>) -> Map<(Seq<char>, Seq<char>), Seq<char>> {
    Map::new(
        |k: (Seq<char>, Seq<char>)| lookup_mapping(ms, k.0, k.1) is Some,
        |k: (Seq<char>, Seq<char>)|
            match lookup_mapping(ms, k.0, k.1) {
                Some(c) => c,
                None => Seq::empty(),
            },
    )
}

spec fn naming_of(c: NameCounters, ms: Seq<CanonicalMapping>) -> Naming {
    Naming {
        functions: c.function_counter,
        variables: c.variable_counter,
        parameters: c.parameter_counter,
        classes: c.class_counter,
        names: names_of(ms),
    }
}

/// Names every declaration of scope `idx`, in position order, then the
/// scopes it opened, depth first, descending at most `fuel` levels.
fn canonicalize_scope(
    analyzer: &ScopeAnalyzer,
    counters: &mut NameCounters,
    ms: &mut Vec<CanonicalMapping>,
    idx: usize,
    fuel: usize,
) -> (r: Result<(), CanonicalizeError>)
    requires
        analyzer.wf(),
        idx < analyzer.scopes_view().len(),
        mappings_ok(old(ms)@),
    ensures
        mappings_ok(final(ms)@),
        forall|sc: Seq<char>, nm: Seq<char>|
            lookup_mapping(old(ms)@, sc, nm) is Some ==> lookup_mapping(final(ms)@, sc, nm) is Some,
        r is Ok && fuel > 0 ==> forall|j: int|
            0 <= j < analyzer.scopes_view()[idx as int].variables@.len() ==> lookup_mapping(
                final(ms)@,
                analyzer.scopes_view()[idx as int].id@,
                (#[trigger] analyzer.scopes_view()[idx as int].variables@[j]).name@,
            ) is Some,
        ({
            let res = canon_scope(
                analyzer.state().scopes,
                naming_of(*old(counters), old(ms)@),
                idx as int,
                fuel as nat,
            );
            &&& naming_of(*final(counters), final(ms)@) == res.0
            &&& (r is Ok <==> res.1)
        }),
        r is Ok,
    decreases fuel,
{
    if fuel == 0 {
        return Ok(());
    }
    let ghost sv = analyzer.state().scopes;
    let ghost n0 = naming_of(*counters, ms@);
    proof {
        analyzer.lemma_state_scopes();
        analyzer.lemma_wf_facts();
    }
    let scopes = analyzer.get_scopes();
    let scope = &scopes[idx];
    let order = sort_by_position(&scope.variables);
    let ghost sid = scope.id@;
    let ghost vv = scope.variables@.map_values(|v: Variable| var_view(v));
    assert(sv[idx as int] == scope_view(*scope));
    counters.variable_counter = 0;
    counters.parameter_counter = 0;
    assert(naming_of(*counters, ms@) == scope_start(n0));
    let mut j: usize = 0;
    let ghost start = ms@;
    while j < order.len()
        invariant
            scopes@ == analyzer.scopes_view(),
            idx < scopes@.len(),
            *scope == scopes@[idx as int],
            stably_sorted(scope.variables@.map_values(|v: Variable| position_key(v)), order@),
            j <= order@.len(),
            mappings_ok(ms@),
            start == old(ms)@,
            forall|sc: Seq<char>, nm: Seq<char>|
                lookup_mapping(start, sc, nm) is Some ==> lookup_mapping(ms@, sc, nm) is Some,
            forall|a: int|
                0 <= a < j ==> lookup_mapping(ms@, scope.id@, scope.variables@[#[trigger] order@[a] as int].name@) is Some,
            sid == scope.id@,
            vv == scope.variables@.map_values(|v: Variable| var_view(v)),
            name_in_order(naming_of(*counters, ms@), sid, vv, order@, j as int) == name_in_order(
                scope_start(n0),
                sid,
                vv,
                order@,
                0,
            ),
        decreases order@.len() - j,
    {
        let ghost before_n = naming_of(*counters, ms@);
        let ghost before_ms = ms@;
        let v = &scope.variables[order[j]];
        let canonical_name = next_name(counters, v.kind);
        let ghost cn = canonical_name@;
        let m = CanonicalMapping {
            original_name: v.name.clone(),
            canonical_name,
            scope_id: scope.id.clone(),
            position: Position { line: v.declaration_line, column: v.declaration_column },
        };
        insert_mapping(ms, m);
        proof {
            let vw = vv[order@[j as int] as int];
            assert(vw == var_view(*v));
            let key = (sid, v.name@);
            assert(names_of(ms@) =~= names_of(before_ms).insert(key, cn)) by {
                assert forall|k: (Seq<char>, Seq<char>)| #![auto] k != key implies lookup_mapping(ms@, k.0, k.1)
                    == lookup_mapping(before_ms, k.0, k.1) by {}
            }
            assert(naming_of(*counters, ms@) == name_declaration(before_n, sid, vw));
        }
        j = j + 1;
    }
    proof {
        assert forall|k: int| 0 <= k < scope.variables@.len() implies lookup_mapping(
            ms@,
            scope.id@,
            (#[trigger] scope.variables@[k]).name@,
        ) is Some by {
            assert(order@.contains(k as usize));
            let a = choose|a: int| 0 <= a < order@.len() && order@[a] == k as usize;
            assert(lookup_mapping(ms@, scope.id@, scope.variables@[order@[a] as int].name@) is Some);
        }
    }
    let ghost after_vars = ms@;
    let ghost n1 = naming_of(*counters, ms@);
    proof {
        assert(order@ == stable_order(view_keys(vv), vv.len() as int));
        assert(n1 == name_scope_declarations(n0, sv[idx as int]));
        assert(canon_scope(sv, n0, idx as int, fuel as nat) == canon_children(sv, n1, idx as int, 0, fuel as nat));
    }
    let mut c: usize = 0;
    while c < scope.children.len()
        invariant
            analyzer.wf(),
            scopes@ == analyzer.scopes_view(),
            idx < scopes@.len(),
            *scope == scopes@[idx as int],
            sv == analyzer.state().scopes,
            sv == scopes@.map_values(|s: Scope| scope_view(s)),
            forall|i: int, j: int| 0 <= i < j < scopes@.len() ==> #[trigger] scopes@[i].id@ != #[trigger] scopes@[j].id@,
            canon_scope(sv, n0, idx as int, fuel as nat) == canon_children(sv, n1, idx as int, 0, fuel as nat),
            n0 == naming_of(*old(counters), old(ms)@),
            canon_children(sv, naming_of(*counters, ms@), idx as int, c as int, fuel as nat) == canon_children(
                sv,
                n1,
                idx as int,
                0,
                fuel as nat,
            ),
            mappings_ok(ms@),
            start == old(ms)@,
            forall|sc: Seq<char>, nm: Seq<char>|
                lookup_mapping(after_vars, sc, nm) is Some ==> lookup_mapping(ms@, sc, nm) is Some,
            forall|sc: Seq<char>, nm: Seq<char>|
                lookup_mapping(start, sc, nm) is Some ==> lookup_mapping(after_vars, sc, nm) is Some,
            forall|k: int|
                0 <= k < scope.variables@.len() ==> lookup_mapping(
                    after_vars,
                    scope.id@,
                    (#[trigger] scope.variables@[k]).name@,
                ) is Some,
            fuel > 0,
        decreases scope.children@.len() - c,
    {
        let ghost before_child = ms@;
        let ghost nb = naming_of(*counters, ms@);
        let ghost cid = scope.children@[c as int]@;
        assert(sv[idx as int].children[c as int] == cid);
        assert forall|i: int, j: int| 0 <= i < j < sv.len() implies #[trigger] sv[i].id != #[trigger] sv[j].id by {
            assert(sv[i].id == scopes@[i].id@);
            assert(sv[j].id == scopes@[j].id@);
        }
        match analyzer.find_scope(scope.children[c].as_str()) {
            Some(k) => {
                proof {
                    crate::scope::lemma_scope_index_of(sv, cid, k as int);
                }
                let res = canonicalize_scope(analyzer, counters, ms, k, fuel - 1);
                proof {
                    let rr = canon_scope(sv, nb, k as int, (fuel - 1) as nat);
                    assert(scope_index_of(sv, sv[idx as int].children[c as int]) == Some(k as int));
                    if rr.1 {
                        assert(canon_children(sv, nb, idx as int, c as int, fuel as nat) == canon_children(
                            sv,
                            rr.0,
                            idx as int,
                            c + 1,
                            fuel as nat,
                        ));
                    } else {
                        assert(canon_children(sv, nb, idx as int, c as int, fuel as nat) == (rr.0, false));
                    }
                    assert forall|sc: Seq<char>, nm: Seq<char>|
                        lookup_mapping(start, sc, nm) is Some implies lookup_mapping(ms@, sc, nm) is Some by {
                        assert(lookup_mapping(after_vars, sc, nm) is Some);
                        assert(lookup_mapping(before_child, sc, nm) is Some);
                    }
                    assert forall|sc: Seq<char>, nm: Seq<char>|
                        lookup_mapping(after_vars, sc, nm) is Some implies lookup_mapping(ms@, sc, nm) is Some by {
                        assert(lookup_mapping(before_child, sc, nm) is Some);
                    }
                }
                if res.is_err() {
                    assert(start == old(ms)@);
                    return res;
                }
            },
            None => {
                proof {
                    // Every child id names a scope, so the lookup cannot fail.
                    analyzer.lemma_wf_facts();
                    assert(crate::scope::has_scope_id(scopes@, scopes@[idx as int].children@[c as int]@));
                }
                return Err(CanonicalizeError::ScopeNotFound);
            },
        }
        c = c + 1;
    }
    Ok(())
}


/// An identifier occurrence as plain values: node, text, scope id.
pub type IdView = (usize, Seq<char>, Seq<char>);

pub open spec fn info_view(i: IdentifierInfo) -> IdView {
    (i.node, i.text@, i.scope_id@)
}

pub open spec fn info_views(s: Seq<IdentifierInfo>) -> Seq<IdView> {
    s.map_values(|i: IdentifierInfo| info_view(i))
}

proof fn lemma_views_push(s: Seq<IdentifierInfo>, x: IdentifierInfo)
    ensures
        info_views(s.push(x)) == info_views(s).push(info_view(x)),
{
    assert(info_views(s.push(x)) =~= info_views(s).push(info_view(x)));
}

/// Whether identifier node `n` reads a name, rather than declaring a
/// function or variable, naming a property or listing a parameter.
pub open spec fn is_reference(t: SyntaxTree, n: int) -> bool {
    match t.nodes@[n].parent {
        Some(p) => {
            let pk = t.kind(p as int);
            if pk == "member_expression"@ {
                t.child_by_field(p as int, "object"@) == Some(n as usize)
            } else if pk == "property_identifier"@ {
                false
            } else if pk == "function_declaration"@ || pk == "function_expression"@ || pk
                == "variable_declarator"@ {
                t.child_by_field(p as int, "name"@) != Some(n as usize)
            } else {
                pk != "formal_parameters"@
            }
        },
        None => true,
    }
}

/// Whether identifier node `n` declares a parameter (of a function or a catch clause).
pub open spec fn is_parameter(t: SyntaxTree, n: int) -> bool {
    match t.nodes@[n].parent {
        Some(p) => if t.kind(p as int) == "formal_parameters"@ {
            true
        } else if t.kind(p as int) == "catch_clause"@ {
            t.child_by_field(p as int, "parameter"@) == Some(n as usize)
        } else {
            false
        },
        None => false,
    }
}

/// Whether identifier node `n` declares a variable: a declarator's name, a
/// pair pattern's value, an array pattern element or a for-in loop variable.
pub open spec fn is_declaration(t: SyntaxTree, n: int) -> bool {
    match t.nodes@[n].parent {
        Some(p) => {
            let pk = t.kind(p as int);
            if pk == "variable_declarator"@ {
                t.child_by_field(p as int, "name"@) == Some(n as usize)
            } else if pk == "pair_pattern"@ {
                t.child_by_field(p as int, "value"@) == Some(n as usize)
            } else if pk == "array_pattern"@ {
                true
            } else if pk == "for_in_statement"@ || pk == "for_of_statement"@ {
                t.child_by_field(p as int, "left"@) == Some(n as usize)
            } else {
                false
            }
        },
        None => false,
    }
}

/// Whether `v` was declared on `line` less than fifty columns from `column`.
pub open spec fn near_position(v: Variable, line: usize, column: usize) -> bool {
    v.declaration_line == line && -50 < v.declaration_column - column < 50
}

pub open spec fn has_near(s: Scope, line: usize, column: usize) -> bool {
    exists|j: int| 0 <= j < s.variables@.len() && near_position(#[trigger] s.variables@[j], line, column)
}

/// Over the first `k` scopes: the index of the first deepest scope that
/// declares something near the position (-1 if none is deeper than the
/// global level), and its depth.
pub open spec fn deepest_near(scopes: Seq<Scope>, line: usize, column: usize, k: int) -> (int, usize)
    decreases k,
{
    if k <= 0 {
        (-1, 0)
    } else {
        let prev = deepest_near(scopes, line, column, k - 1);
        if k - 1 < scopes.len() && has_near(scopes[k - 1], line, column) && scopes[k - 1].depth > prev.1 {
            (k - 1, scopes[k - 1].depth)
        } else {
            prev
        }
    }
}

/// The scope a declaration at (`line`, `column`) is attributed to.
pub open spec fn position_scope(scopes: Seq<Scope>, line: usize, column: usize) -> Seq<char> {
    let b = deepest_near(scopes, line, column, scopes.len() as int).0;
    if 0 <= b < scopes.len() {
        scopes[b].id@
    } else {
        "global"@
    }
}

/// Whether scope `s` is a numbered scope opened in `cur` that declares
/// something within two lines of `row`.
pub open spec fn opened_near(s: Scope, cur: Seq<char>, row: usize) -> bool {
    &&& s.parent matches Some(p) && p@ == cur
    &&& occurs_at(s.id@, "scope_"@, 0)
    &&& exists|j: int| 0 <= j < s.variables@.len() && -2 <= (#[trigger] s.variables@[j]).declaration_line - row <= 2
}

pub open spec fn first_opened_near(scopes: Seq<Scope>, cur: Seq<char>, row: usize, k: int) -> Option<int>
    decreases scopes.len() - k,
{
    if k < 0 || k >= scopes.len() {
        None
    } else if opened_near(scopes[k], cur, row) {
        Some(k)
    } else {
        first_opened_near(scopes, cur, row, k + 1)
    }
}

/// The first numbered scope opened in `cur` near `row`.
pub open spec fn near_child_scope(scopes: Seq<Scope>, cur: Seq<char>, row: usize) -> Option<Seq<char>> {
    match first_opened_near(scopes, cur, row, 0) {
        Some(k) => Some(scopes[k].id@),
        None => None,
    }
}

/// What visiting node `n` in scope `cur` contributes before its children:
/// the identifiers it records itself, the scope its subtree is read in (if it
/// opens one), and whether the node itself is examined as an identifier.
pub open spec fn node_action(t: SyntaxTree, scopes: Seq<Scope>, n: int, cur: Seq<char>) -> (
    Seq<IdView>,
    Option<Seq<char>>,
    bool,
) {
    let k = t.kind(n);
    if k == "function_declaration"@ || k == "function_expression"@ {
        match t.child_by_field(n, "name"@) {
            Some(c) => (seq![(c, t.text(c as int), cur)], Some("fn_"@ + t.text(c as int)), true),
            None => (seq![], Some("fn_anonymous"@), true),
        }
    } else if k == "arrow_function"@ || k == "for_in_statement"@ || k == "for_of_statement"@ || k
        == "catch_clause"@ {
        (seq![], near_child_scope(scopes, cur, t.nodes@[n].start_row), false)
    } else if k == "block_statement"@ {
        match t.nodes@[n].parent {
            Some(p) => if t.kind(p as int) == "function_declaration"@ || t.kind(p as int)
                == "function_expression"@ || t.kind(p as int) == "arrow_function"@ {
                (seq![], None, false)
            } else {
                (seq![], near_child_scope(scopes, cur, t.nodes@[n].start_row), false)
            },
            None => (seq![], None, false),
        }
    } else {
        (seq![], None, true)
    }
}

/// The occurrence that node `n` itself records when read in scope `sc`.
pub open spec fn node_ids(t: SyntaxTree, scopes: Seq<Scope>, n: int, sc: Seq<char>) -> Seq<IdView> {
    let row = t.nodes@[n].start_row;
    let col = t.nodes@[n].start_col;
    if t.kind(n) == "identifier"@ {
        if is_parameter(t, n) || is_declaration(t, n) {
            seq![(n as usize, t.text(n), position_scope(scopes, row, col))]
        } else if is_reference(t, n) {
            seq![(n as usize, t.text(n), sc)]
        } else {
            seq![]
        }
    } else if t.kind(n) == "shorthand_property_identifier_pattern"@ {
        seq![(n as usize, t.text(n), position_scope(scopes, row, col))]
    } else {
        seq![]
    }
}

/// The identifier occurrences of the subtree at `n`, in preorder, each with
/// the scope it is read in.
pub open spec fn collected(t: SyntaxTree, scopes: Seq<Scope>, n: int, cur: Seq<char>) -> Seq<IdView>
    decreases t.nodes@.len() - n, 1int, 0int,
{
    if !(0 <= n < t.nodes@.len()) {
        seq![]
    } else {
        let act = node_action(t, scopes, n, cur);
        let sc = match act.1 {
            Some(s) => s,
            None => cur,
        };
        act.0 + (if act.2 {
            node_ids(t, scopes, n, sc)
        } else {
            seq![]
        }) + children_collected(t, scopes, n, 0, sc)
    }
}

pub open spec fn children_collected(t: SyntaxTree, scopes: Seq<Scope>, n: int, k: int, sc: Seq<char>) -> Seq<
    IdView,
>
    decreases t.nodes@.len() - n, 0int, t.nodes@[n].children@.len() - k,
{
    if !(0 <= n < t.nodes@.len()) || k < 0 || k >= t.nodes@[n].children@.len() {
        seq![]
    } else {
        let c = t.nodes@[n].children@[k] as int;
        (if n < c < t.nodes@.len() {
            collected(t, scopes, c, sc)
        } else {
            seq![]
        }) + children_collected(t, scopes, n, k + 1, sc)
    }
}

/// The sort keys of identifier occurrences: the start of their node.
pub open spec fn start_keys(t: SyntaxTree, ids: Seq<IdView>) -> Seq<(usize, usize)> {
    ids.map_values(|i: IdView| (t.nodes@[i.0 as int].start, 0usize))
}

/// Whether `r` is `ids` stably sorted by start position.
pub open spec fn sorted_by_start(t: SyntaxTree, ids: Seq<IdView>, r: Seq<IdView>) -> bool {
    &&& r.len() == ids.len()
    &&& exists|order: Seq<usize>|
        stably_sorted(start_keys(t, ids), order) && forall|i: int|
            0 <= i < r.len() ==> #[trigger] r[i] == ids[order[i] as int]
}

/// `src` from `last` on, with each span `(start, end, text)` that does not
/// begin before the end of the previous replaced span replaced by `text`.
pub open spec fn splice(src: Seq<char>, spans: Seq<(int, int, Seq<char>)>, last: int) -> Seq<char>
    decreases spans.len(),
{
    if spans.len() == 0 {
        src.subrange(last, src.len() as int)
    } else {
        let sp = spans[0];
        if sp.0 < last {
            splice(src, spans.drop_first(), last)
        } else {
            src.subrange(last, sp.0) + sp.2 + splice(src, spans.drop_first(), sp.1)
        }
    }
}

/// Splicing in, for every span, the very text it covers gives back the source.
pub proof fn lemma_splice_identity(src: Seq<char>, spans: Seq<(int, int, Seq<char>)>, last: int)
    requires
        0 <= last <= src.len(),
        forall|i: int|
            0 <= i < spans.len() ==> 0 <= (#[trigger] spans[i]).0 <= spans[i].1 <= src.len() && spans[i].2
                == src.subrange(spans[i].0, spans[i].1),
    ensures
        splice(src, spans, last) == src.subrange(last, src.len() as int),
    decreases spans.len(),
{
    if spans.len() > 0 {
        let sp = spans[0];
        assert(spans.drop_first().len() < spans.len());
        assert forall|i: int| 0 <= i < spans.drop_first().len() implies 0 <= (#[trigger] spans.drop_first()[i]).0
            <= spans.drop_first()[i].1 <= src.len() && spans.drop_first()[i].2 == src.subrange(
            spans.drop_first()[i].0,
            spans.drop_first()[i].1,
        ) by {
            assert(spans.drop_first()[i] == spans[i + 1]);
        }
        if sp.0 < last {
            lemma_splice_identity(src, spans.drop_first(), last);
        } else {
            lemma_splice_identity(src, spans.drop_first(), sp.1);
            assert(src.subrange(last, sp.0) + src.subrange(sp.0, sp.1) + src.subrange(sp.1, src.len() as int)
                =~= src.subrange(last, src.len() as int));
        }
    }
}

/// What occurrence `i` is replaced by: its canonical name as seen from its
/// scope, or its own text when it has none.
pub open spec fn replacement(t: SyntaxTree, ms: Seq<CanonicalMapping>, scopes: Seq<Scope>, i: IdView) -> Seq<char> {
    match canonical_lookup(ms, scopes, i.2, i.1, scopes.len()) {
        Some(c) => c,
        None => t.text(i.0 as int),
    }
}

pub open spec fn spans_of(t: SyntaxTree, ms: Seq<CanonicalMapping>, scopes: Seq<Scope>, ids: Seq<IdView>) -> Seq<
    (int, int, Seq<char>),
> {
    ids.map_values(
        |i: IdView|
            (t.nodes@[i.0 as int].start as int, t.nodes@[i.0 as int].end as int, replacement(t, ms, scopes, i)),
    )
}

fn var_near(v: &Variable, line: usize, column: usize) -> (r: bool)
    ensures
        r == near_position(*v, line, column),
{
    v.declaration_line == line && (if v.declaration_column >= column {
        v.declaration_column - column < 50
    } else {
        column - v.declaration_column < 50
    })
}

fn scope_has_near(s: &Scope, line: usize, column: usize) -> (r: bool)
    ensures
        r == has_near(*s, line, column),
{
    let mut j: usize = 0;
    while j < s.variables.len()
        invariant
            j <= s.variables@.len(),
            forall|a: int| 0 <= a < j ==> !near_position(#[trigger] s.variables@[a], line, column),
        decreases s.variables@.len() - j,
    {
        if var_near(&s.variables[j], line, column) {
            return true;
        }
        j = j + 1;
    }
    false
}

fn scope_opened_near(s: &Scope, cur: &str, row: usize) -> (r: bool)
    ensures
        r == opened_near(*s, cur@, row),
{
    let parent_ok = match &s.parent {
        Some(p) => str_eq(p.as_str(), cur),
        None => false,
    };
    if !parent_ok || !str_starts_with(s.id.as_str(), "scope_") {
        return false;
    }
    let mut j: usize = 0;
    while j < s.variables.len()
        invariant
            j <= s.variables@.len(),
            s.parent matches Some(p) && p@ == cur@,
            occurs_at(s.id@, "scope_"@, 0),
            forall|a: int| 0 <= a < j ==> !(-2 <= (#[trigger] s.variables@[a]).declaration_line - row <= 2),
        decreases s.variables@.len() - j,
    {
        let l = s.variables[j].declaration_line;
        if (l >= row && l - row <= 2) || (l < row && row - l <= 2) {
            assert(-2 <= (s.variables@[j as int]).declaration_line - row <= 2);
            return true;
        }
        j = j + 1;
    }
    false
}

impl Canonicalizer {
    /// The analyzer's scopes and the mapping table are well formed.
    pub closed spec fn wf(&self) -> bool {
        self.scope_analyzer.wf() && mappings_ok(self.canonical_mappings@)
    }

    /// The scope analyzer the names are drawn from.
    pub closed spec fn analyzer(&self) -> ScopeAnalyzer {
        self.scope_analyzer
    }

    /// The mapping table, one entry per (scope, name).
    pub closed spec fn mappings_view(&self) -> Seq<CanonicalMapping> {
        self.canonical_mappings@
    }

    /// The naming state: the counts of names given and the names in the table.
    pub closed spec fn naming(&self) -> Naming {
        naming_of(self.counters, self.canonical_mappings@)
    }

    /// The names of the naming state are those of the mapping table.
    pub proof fn lemma_naming_names(&self)
        ensures
            self.naming().names == names_of(self.mappings_view()),
    {
    }

    /// A canonicalizer over the scopes of `scope_analyzer`, with no mappings yet.
    pub fn new(scope_analyzer: ScopeAnalyzer) -> (r: Canonicalizer)
        ensures
            r.analyzer() == scope_analyzer,
            r.mappings_view().len() == 0,
            r.naming() == initial_naming(),
            scope_analyzer.wf() ==> r.wf(),
    {
        let r = Canonicalizer {
            scope_analyzer,
            canonical_mappings: Vec::new(),
            counters: NameCounters { function_counter: 0, variable_counter: 0, parameter_counter: 0, class_counter: 0 },
        };
        assert(names_of(r.canonical_mappings@) =~= Map::empty());
        r
    }

    /// Gives every declaration a canonical name, starting at the global
    /// scope: each scope's declarations in position order, then its child
    /// scopes in the order they were opened. Entries already present stay
    /// present.
    pub fn canonicalize(&mut self) -> (r: Result<(), CanonicalizeError>)
        requires
            old(self).wf(),
        ensures
            final(self).wf(),
            final(self).analyzer() == old(self).analyzer(),
            forall|sc: Seq<char>, nm: Seq<char>|
                lookup_mapping(old(self).mappings_view(), sc, nm) is Some ==> lookup_mapping(
                    final(self).mappings_view(),
                    sc,
                    nm,
                ) is Some,
            r is Ok ==> forall|j: int|
                0 <= j < old(self).analyzer().scopes_view()[0].variables@.len() ==> lookup_mapping(
                    final(self).mappings_view(),
                    "global"@,
                    (#[trigger] old(self).analyzer().scopes_view()[0].variables@[j]).name@,
                ) is Some,
            ({
                let res = canon_scope(
                    old(self).analyzer().state().scopes,
                    old(self).naming(),
                    0,
                    old(self).analyzer().scopes_view().len() as nat,
                );
                &&& final(self).naming() == res.0
                &&& res.1
            }),
            r is Ok,
    {
        proof {
            self.scope_analyzer.lemma_wf_facts();
        }
        let n = self.scope_analyzer.get_scopes().len();
        canonicalize_scope(&self.scope_analyzer, &mut self.counters, &mut self.canonical_mappings, 0, n)
    }

    /// The mapping table.
    pub fn get_mappings(&self) -> (r: &Vec<CanonicalMapping>)
        ensures
            r@ == self.mappings_view(),
    {
        &self.canonical_mappings
    }

    /// The canonical name of `original_name` as seen from `scope_id`: its
    /// entry in that scope, else in the enclosing scopes, outward.
    pub fn find_canonical_name(&self, original_name: &str, scope_id: &str) -> (r: Option<String>)
        requires
            self.wf(),
        ensures
            match r {
                Some(c) => canonical_lookup(
                    self.mappings_view(),
                    self.analyzer().scopes_view(),
                    scope_id@,
                    original_name@,
                    self.analyzer().scopes_view().len(),
                ) == Some(c@) && is_canonical_name(c@),
                None => canonical_lookup(
                    self.mappings_view(),
                    self.analyzer().scopes_view(),
                    scope_id@,
                    original_name@,
                    self.analyzer().scopes_view().len(),
                ) is None,
            },
    {
        let scopes = self.scope_analyzer.get_scopes();
        proof {
            self.scope_analyzer.lemma_wf_facts();
        }
        let ghost ms = self.canonical_mappings@;
        let ghost sv = scopes@;
        let mut cur = string_of(scope_id);
        let mut fuel: usize = scopes.len();
        while fuel > 0
            invariant
                mappings_ok(ms),
                ms == self.canonical_mappings@,
                sv == scopes@,
                sv == self.analyzer().scopes_view(),
                forall|i: int, j: int| 0 <= i < j < sv.len() ==> #[trigger] sv[i].id@ != #[trigger] sv[j].id@,
                canonical_lookup(ms, sv, scope_id@, original_name@, sv.len()) == canonical_lookup(
                    ms,
                    sv,
                    cur@,
                    original_name@,
                    fuel as nat,
                ),
            decreases fuel,
        {
            match find_mapping(&self.canonical_mappings, cur.as_str(), original_name) {
                Some(i) => {
                    proof {
                        lemma_lookup_found(ms, cur@, original_name@, i as int);
                    }
                    let c = self.canonical_mappings[i].canonical_name.clone();
                    return Some(c);
                },
                None => {},
            }
            proof {
                lemma_find_scope_spec(sv, cur@);
            }
            match self.scope_analyzer.find_scope(cur.as_str()) {
                Some(k) => match &scopes[k].parent {
                    Some(p) => {
                        cur = p.clone();
                        fuel = fuel - 1;
                    },
                    None => {
                        return None;
                    },
                },
                None => {
                    return None;
                },
            }
        }
        None
    }

    /// The scope a declaration at (`line`, `column`) belongs to: the deepest
    /// scope that declares something on that line within fifty columns, or
    /// the global scope.
    fn find_scope_for_position(&self, line: usize, column: usize) -> (r: String)
        ensures
            r@ == position_scope(self.analyzer().scopes_view(), line, column),
    {
        let scopes = self.scope_analyzer.get_scopes();
        let mut best: Option<usize> = None;
        let mut best_depth: usize = 0;
        let mut k: usize = 0;
        while k < scopes.len()
            invariant
                k <= scopes@.len(),
                deepest_near(scopes@, line, column, k as int) == (match best {
                    Some(b) => b as int,
                    None => -1,
                }, best_depth),
                best matches Some(b) ==> b < k,
            decreases scopes@.len() - k,
        {
            if scope_has_near(&scopes[k], line, column) && scopes[k].depth > best_depth {
                best = Some(k);
                best_depth = scopes[k].depth;
            }
            k = k + 1;
        }
        match best {
            Some(b) => scopes[b].id.clone(),
            None => string_of("global"),
        }
    }

    /// The first numbered scope opened in `cur` that declares something
    /// within two lines of `row`.
    fn find_child_scope_near(&self, cur: &str, row: usize) -> (r: Option<String>)
        ensures
            match r {
                Some(s) => near_child_scope(self.analyzer().scopes_view(), cur@, row) == Some(s@),
                None => near_child_scope(self.analyzer().scopes_view(), cur@, row) is None,
            },
    {
        let scopes = self.scope_analyzer.get_scopes();
        let mut k: usize = 0;
        while k < scopes.len()
            invariant
                k <= scopes@.len(),
                scopes@ == self.analyzer().scopes_view(),
                first_opened_near(scopes@, cur@, row, 0) == first_opened_near(scopes@, cur@, row, k as int),
            decreases scopes@.len() - k,
        {
            if scope_opened_near(&scopes[k], cur, row) {
                assert(first_opened_near(scopes@, cur@, row, k as int) == Some(k as int));
                return Some(scopes[k].id.clone());
            }
            k = k + 1;
        }
        None
    }

    fn is_identifier_reference(&self, t: &SyntaxTree, n: usize) -> (r: bool)
        requires
            t.wf(),
            n < t.nodes@.len(),
        ensures
            r == is_reference(*t, n as int),
    {
        match t.parent_of(n) {
            Some(p) => {
                if t.kind_is(p, "member_expression") {
                    t.child_by_field_name(p, "object") == Some(n)
                } else if t.kind_is(p, "property_identifier") {
                    false
                } else if t.kind_is(p, "function_declaration") || t.kind_is(p, "function_expression")
                    || t.kind_is(p, "variable_declarator") {
                    t.child_by_field_name(p, "name") != Some(n)
                } else {
                    !t.kind_is(p, "formal_parameters")
                }
            },
            None => true,
        }
    }

    fn is_parameter_declaration(&self, t: &SyntaxTree, n: usize) -> (r: bool)
        requires
            t.wf(),
            n < t.nodes@.len(),
        ensures
            r == is_parameter(*t, n as int),
    {
        match t.parent_of(n) {
            Some(p) => {
                if t.kind_is(p, "formal_parameters") {
                    true
                } else if t.kind_is(p, "catch_clause") {
                    t.child_by_field_name(p, "parameter") == Some(n)
                } else {
                    false
                }
            },
            None => false,
        }
    }

    fn is_variable_declaration(&self, t: &SyntaxTree, n: usize) -> (r: bool)
        requires
            t.wf(),
            n < t.nodes@.len(),
        ensures
            r == is_declaration(*t, n as int),
    {
        match t.parent_of(n) {
            Some(p) => {
                if t.kind_is(p, "variable_declarator") {
                    t.child_by_field_name(p, "name") == Some(n)
                } else if t.kind_is(p, "pair_pattern") {
                    t.child_by_field_name(p, "value") == Some(n)
                } else if t.kind_is(p, "array_pattern") {
                    true
                } else if t.kind_is(p, "for_in_statement") || t.kind_is(p, "for_of_statement") {
                    t.child_by_field_name(p, "left") == Some(n)
                } else {
                    false
                }
            },
            None => false,
        }
    }

    /// Records node `n` if it is an identifier occurrence, read in scope `sc`
    /// (a declaration is attributed to the scope of its position).
    fn collect_identifiers(&self, t: &SyntaxTree, n: usize, sc: &String, out: &mut Vec<IdentifierInfo>)
        requires
            t.wf(),
            n < t.nodes@.len(),
            forall|i: int| 0 <= i < old(out)@.len() ==> (#[trigger] old(out)@[i]).node < t.nodes@.len(),
        ensures
            info_views(final(out)@) == info_views(old(out)@) + node_ids(
                *t,
                self.analyzer().scopes_view(),
                n as int,
                sc@,
            ),
            forall|i: int| 0 <= i < final(out)@.len() ==> (#[trigger] final(out)@[i]).node < t.nodes@.len(),
    {
        let ghost before = out@;
        let row = t.nodes[n].start_row;
        let col = t.nodes[n].start_col;
        if t.kind_is(n, "identifier") {
            let is_param = self.is_parameter_declaration(t, n);
            let is_var = self.is_variable_declaration(t, n);
            if is_param || is_var {
                let info = IdentifierInfo {
                    node: n,
                    text: t.text_of(n),
                    scope_id: self.find_scope_for_position(row, col),
                };
                out.push(info);
                proof {
                    lemma_views_push(before, info);
                }
            } else if self.is_identifier_reference(t, n) {
                let info = IdentifierInfo { node: n, text: t.text_of(n), scope_id: sc.clone() };
                out.push(info);
                proof {
                    lemma_views_push(before, info);
                }
            } else {
                assert(info_views(out@) =~= info_views(before) + seq![]);
            }
        } else if t.kind_is(n, "shorthand_property_identifier_pattern") {
            let info = IdentifierInfo {
                node: n,
                text: t.text_of(n),
                scope_id: self.find_scope_for_position(row, col),
            };
            out.push(info);
            proof {
                lemma_views_push(before, info);
            }
        } else {
            assert(info_views(out@) =~= info_views(before) + seq![]);
        }
    }

    /// Records the identifier occurrences of the subtree at `n`, entered in
    /// scope `cur`, in preorder.
    fn collect_identifiers_with_scope(
        &self,
        t: &SyntaxTree,
        n: usize,
        cur: &String,
        out: &mut Vec<IdentifierInfo>,
    )
        requires
            t.wf(),
            n < t.nodes@.len(),
            forall|i: int| 0 <= i < old(out)@.len() ==> (#[trigger] old(out)@[i]).node < t.nodes@.len(),
        ensures
            info_views(final(out)@) == info_views(old(out)@) + collected(
                *t,
                self.analyzer().scopes_view(),
                n as int,
                cur@,
            ),
            forall|i: int| 0 <= i < final(out)@.len() ==> (#[trigger] final(out)@[i]).node < t.nodes@.len(),
        decreases t.nodes@.len() - n,
    {
        let ghost scopes = self.analyzer().scopes_view();
        let ghost start = info_views(out@);
        let ghost act = node_action(*t, scopes, n as int, cur@);
        let mut new_scope: Option<String> = None;
        let mut process = true;
        if t.kind_is(n, "function_declaration") || t.kind_is(n, "function_expression") {
            match t.child_by_field_name(n, "name") {
                Some(c) => {
                    let name = t.text_of(c);
                    let mut s = string_of("fn_");
                    push_str(&mut s, name.as_str());
                    let info = IdentifierInfo { node: c, text: name, scope_id: cur.clone() };
                    out.push(info);
                    proof {
                        lemma_views_push(old(out)@, info);
                    }
                    new_scope = Some(s);
                },
                None => {
                    new_scope = Some(string_of("fn_anonymous"));
                },
            }
        } else if t.kind_is(n, "arrow_function") || t.kind_is(n, "for_in_statement") || t.kind_is(
            n,
            "for_of_statement",
        ) || t.kind_is(n, "catch_clause") {
            new_scope = self.find_child_scope_near(cur.as_str(), t.nodes[n].start_row);
            process = false;
        } else if t.kind_is(n, "block_statement") {
            match t.parent_of(n) {
                Some(p) => {
                    if !(t.kind_is(p, "function_declaration") || t.kind_is(p, "function_expression")
                        || t.kind_is(p, "arrow_function")) {
                        new_scope = self.find_child_scope_near(cur.as_str(), t.nodes[n].start_row);
                    }
                },
                None => {},
            }
            process = false;
        }
        assert(info_views(out@) == start + act.0);
        assert(match new_scope {
            Some(s) => act.1 == Some(s@),
            None => act.1 is None,
        });
        assert(process == act.2);
        let sc: String = match new_scope {
            Some(s) => s,
            None => cur.clone(),
        };
        let ghost sc_view = match act.1 {
            Some(s) => s,
            None => cur@,
        };
        assert(sc@ == sc_view);
        let ghost mid = info_views(out@);
        if process {
            self.collect_identifiers(t, n, &sc, out);
        }
        let ghost after_node = info_views(out@);
        assert(after_node == start + act.0 + (if act.2 {
            node_ids(*t, scopes, n as int, sc_view)
        } else {
            seq![]
        })) by {
            if !process {
                assert(mid + seq![] =~= mid);
            }
        }
        let nc = t.child_count(n);
        let mut k: usize = 0;
        while k < nc
            invariant
                t.wf(),
                n < t.nodes@.len(),
                nc == t.nodes@[n as int].children@.len(),
                k <= nc,
                scopes == self.analyzer().scopes_view(),
                sc@ == sc_view,
                info_views(out@) + children_collected(*t, scopes, n as int, k as int, sc_view) == after_node
                    + children_collected(*t, scopes, n as int, 0, sc_view),
                forall|i: int| 0 <= i < out@.len() ==> (#[trigger] out@[i]).node < t.nodes@.len(),
            decreases nc - k,
        {
            let c = t.nodes[n].children[k];
            let ghost before_child = info_views(out@);
            assert(n < c < t.nodes@.len());
            self.collect_identifiers_with_scope(t, c, &sc, out);
            proof {
                assert(children_collected(*t, scopes, n as int, k as int, sc_view) == collected(
                    *t,
                    scopes,
                    c as int,
                    sc_view,
                ) + children_collected(*t, scopes, n as int, k + 1, sc_view));
                assert(info_views(out@) + children_collected(*t, scopes, n as int, k + 1, sc_view) =~= before_child
                    + children_collected(*t, scopes, n as int, k as int, sc_view));
            }
            k = k + 1;
        }
        proof {
            assert(children_collected(*t, scopes, n as int, nc as int, sc_view) == Seq::<IdView>::empty());
            assert(info_views(out@) =~= info_views(out@) + Seq::<IdView>::empty());
            assert(collected(*t, scopes, n as int, cur@) == act.0 + (if act.2 {
                node_ids(*t, scopes, n as int, sc_view)
            } else {
                seq![]
            }) + children_collected(*t, scopes, n as int, 0, sc_view));
            assert(info_views(out@) =~= start + collected(*t, scopes, n as int, cur@));
        }
    }

    /// The identifier occurrences of the subtree at `node`, entered in the
    /// global scope, sorted by position (stably).
    pub fn extract_all_identifiers(&self, t: &SyntaxTree, node: usize) -> (r: Vec<IdentifierInfo>)
        requires
            t.wf(),
            node < t.nodes@.len(),
        ensures
            sorted_by_start(
                *t,
                collected(*t, self.analyzer().scopes_view(), node as int, "global"@),
                info_views(r@),
            ),
            forall|i: int| 0 <= i < r@.len() ==> (#[trigger] r@[i]).node < t.nodes@.len(),
    {
        let mut raw: Vec<IdentifierInfo> = Vec::new();
        let global = string_of("global");
        assert(info_views(raw@) =~= Seq::<IdView>::empty());
        self.collect_identifiers_with_scope(t, node, &global, &mut raw);
        let ghost c = collected(*t, self.analyzer().scopes_view(), node as int, "global"@);
        assert(info_views(raw@) =~= c);
        let mut keys: Vec<(usize, usize)> = Vec::new();
        let mut i: usize = 0;
        while i < raw.len()
            invariant
                i <= raw@.len(),
                info_views(raw@) == c,
                forall|a: int| 0 <= a < raw@.len() ==> (#[trigger] raw@[a]).node < t.nodes@.len(),
                keys@ == start_keys(*t, c).take(i as int),
            decreases raw@.len() - i,
        {
            assert(c[i as int] == info_view(raw@[i as int]));
            keys.push((t.nodes[raw[i].node].start, 0));
            proof {
                assert(keys@ =~= start_keys(*t, c).take(i + 1));
            }
            i = i + 1;
        }
        assert(keys@ =~= start_keys(*t, c));
        let order = stable_sort_order(&keys);
        let mut r: Vec<IdentifierInfo> = Vec::new();
        let mut j: usize = 0;
        while j < order.len()
            invariant
                j <= order@.len(),
                info_views(raw@) == c,
                stably_sorted(start_keys(*t, c), order@),
                forall|a: int| 0 <= a < raw@.len() ==> (#[trigger] raw@[a]).node < t.nodes@.len(),
                forall|a: int| 0 <= a < r@.len() ==> (#[trigger] r@[a]).node < t.nodes@.len(),
                r@.len() == j,
                forall|a: int| 0 <= a < j ==> #[trigger] info_views(r@)[a] == c[order@[a] as int],
            decreases order@.len() - j,
        {
            let x = &raw[order[j]];
            let info = IdentifierInfo { node: x.node, text: x.text.clone(), scope_id: x.scope_id.clone() };
            let ghost before = r@;
            r.push(info);
            proof {
                lemma_views_push(before, info);
                assert(c[order@[j as int] as int] == info_view(raw@[order@[j as int] as int]));
                assert forall|a: int| 0 <= a < j + 1 implies #[trigger] info_views(r@)[a] == c[order@[a] as int] by {
                    if a < j {
                        assert(info_views(r@)[a] == info_views(before)[a]);
                    }
                }
            }
            j = j + 1;
        }
        proof {
            assert(forall|a: int| 0 <= a < info_views(r@).len() ==> #[trigger] info_views(r@)[a] == c[order@[a] as int]);
        }
        r
    }

    /// The source text of `t` with every identifier occurrence that has a
    /// canonical name, as seen from its scope, replaced by that name.
    pub fn apply_canonicalization(&self, t: &SyntaxTree) -> (r: String)
        requires
            self.wf(),
            t.wf(),
        ensures
            exists|ids: Seq<IdView>|
                {
                    &&& sorted_by_start(
                        *t,
                        collected(*t, self.analyzer().scopes_view(), 0, "global"@),
                        ids,
                    )
                    &&& forall|i: int| 0 <= i < ids.len() ==> (#[trigger] ids[i]).0 < t.nodes@.len()
                    &&& r@ == splice(
                        t.source@,
                        spans_of(*t, self.mappings_view(), self.analyzer().scopes_view(), ids),
                        0,
                    )
                },
    {
        let ids = self.extract_all_identifiers(t, 0);
        let ghost idv = info_views(ids@);
        let ghost spans = spans_of(*t, self.mappings_view(), self.analyzer().scopes_view(), idv);
        let mut output = String::new();
        let mut last_end: usize = 0;
        let mut i: usize = 0;
        assert(spans.skip(0) =~= spans);
        assert(output@ + splice(t.source@, spans, 0) =~= splice(t.source@, spans, 0));
        while i < ids.len()
            invariant
                self.wf(),
                t.wf(),
                idv == info_views(ids@),
                spans == spans_of(*t, self.mappings_view(), self.analyzer().scopes_view(), idv),
                forall|a: int| 0 <= a < ids@.len() ==> (#[trigger] ids@[a]).node < t.nodes@.len(),
                i <= ids@.len(),
                last_end <= t.source@.len(),
                output@ + splice(t.source@, spans.skip(i as int), last_end as int) == splice(t.source@, spans, 0),
            decreases ids@.len() - i,
        {
            let node = ids[i].node;
            let start = t.nodes[node].start;
            let end = t.nodes[node].end;
            let ghost rest = spans.skip(i as int);
            assert(rest[0] == spans[i as int]);
            assert(rest.drop_first() =~= spans.skip(i + 1));
            assert(idv[i as int] == info_view(ids@[i as int]));
            if start >= last_end {
                let ghost before = output@;
                push_range(&mut output, &t.source, last_end, start);
                match self.find_canonical_name(ids[i].text.as_str(), ids[i].scope_id.as_str()) {
                    Some(c) => {
                        push_str(&mut output, c.as_str());
                    },
                    None => {
                        push_range(&mut output, &t.source, start, end);
                    },
                }
                proof {
                    assert(output@ == before + t.source@.subrange(last_end as int, start as int) + spans[i as int].2);
                    assert(output@ + splice(t.source@, spans.skip(i + 1), end as int) =~= before + splice(
                        t.source@,
                        rest,
                        last_end as int,
                    ));
                }
                last_end = end;
            }
            i = i + 1;
        }
        let ghost before = output@;
        push_range(&mut output, &t.source, last_end, t.source.len());
        proof {
            assert(spans.skip(i as int).len() == 0);
            assert(output@ =~= before + splice(t.source@, spans.skip(i as int), last_end as int));
        }
        output
    }
}

/// A name found through a well-formed table is a canonical name.
pub proof fn lemma_lookup_canonical(
    ms: Seq<CanonicalMapping>,
    scopes: Seq<Scope>,
    scope: Seq<char>,
    name: Seq<char>,
    fuel: nat,
)
    requires
        mappings_ok(ms),
    ensures
        canonical_lookup(ms, scopes, scope, name, fuel) matches Some(x) ==> is_canonical_name(x),
    decreases fuel,
{
    if fuel > 0 {
        match lookup_mapping(ms, scope, name) {
            Some(c) => {
                let i = choose|i: int| 0 <= i < ms.len() && keyed(ms[i], scope, name);
                assert(is_canonical_name(ms[i].canonical_name@));
            },
            None => match find_scope_index(scopes, scope) {
                Some(k) => match scopes[k].parent {
                    Some(p) => {
                        lemma_lookup_canonical(ms, scopes, p@, name, (fuel - 1) as nat);
                    },
                    None => {},
                },
                None => {},
            },
        }
    }
}

/// A canonical name is a non-empty run of letters, `_` and digits ending
/// in a digit.
pub proof fn lemma_canonical_plain(name: Seq<char>)
    requires
        is_canonical_name(name),
    ensures
        crate::text::plain_word(name),
        '0' <= name.last() <= '9',
        name[0] != '#',
{
    let (kind, n) = choose|kind: VariableKind, n: nat| n >= 1 && name == kind_prefix(kind) + decimal(n);
    crate::text::lemma_decimal_digits(n);
    reveal_strlit("fn_");
    reveal_strlit("param_");
    reveal_strlit("var_");
    reveal_strlit("class_");
    let p = kind_prefix(kind);
    let d = decimal(n);
    assert forall|i: int| 0 <= i < name.len() implies !crate::text::is_ws(#[trigger] name[i]) by {
        if i < p.len() {
            assert(name[i] == p[i]);
        } else {
            assert(name[i] == d[i - p.len()]);
        }
    }
    assert(name.last() == d.last());
    assert(name[0] == p[0]);
}

/// Every entry of a well-formed canonicalizer's table maps a distinct
/// (scope, name) key to a name of the form kind prefix and number.
pub proof fn lemma_mappings_canonical(c: &Canonicalizer)
    requires
        c.wf(),
    ensures
        forall|i: int|
            0 <= i < c.mappings_view().len() ==> is_canonical_name((#[trigger] c.mappings_view()[i]).canonical_name@),
        forall|i: int, j: int|
            0 <= i < j < c.mappings_view().len() ==> !keyed(
                #[trigger] c.mappings_view()[i],
                c.mappings_view()[j].scope_id@,
                (#[trigger] c.mappings_view()[j]).original_name@,
            ),
{
}

/// Two numbers written with the same decimal digits are equal.
proof fn lemma_decimal_injective(a: nat, b: nat)
    requires
        decimal(a) == decimal(b),
    ensures
        a == b,
    decreases a,
{
    if a >= 10 && b >= 10 {
        assert(decimal(a).drop_last() =~= decimal(a / 10));
        assert(decimal(b).drop_last() =~= decimal(b / 10));
        lemma_decimal_injective(a / 10, b / 10);
        assert(decimal(a).last() == crate::text::digit_char(a % 10));
        assert(decimal(b).last() == crate::text::digit_char(b % 10));
        assert(a % 10 == b % 10);
    } else if a < 10 && b < 10 {
        assert(decimal(a)[0] == crate::text::digit_char(a));
        assert(decimal(b)[0] == crate::text::digit_char(b));
    } else if a >= 10 {
        crate::text::lemma_decimal_digits(a / 10);
        assert(decimal(a).len() >= 2);
    } else if b >= 10 {
        crate::text::lemma_decimal_digits(b / 10);
        assert(decimal(b).len() >= 2);
    }
}

/// Whether declarations of kinds `a` and `b` share one count of names:
/// `var`, `let` and `const` declarations are one family, each other kind
/// is a family of its own.
pub open spec fn same_family(a: VariableKind, b: VariableKind) -> bool {
    a == b || ((a == VariableKind::Var || a == VariableKind::Let || a == VariableKind::Const) && (b
        == VariableKind::Var || b == VariableKind::Let || b == VariableKind::Const))
}

/// A function declaration is named `fn_`, a parameter `param_`, a `var`,
/// `let` or `const` declaration `var_`, and a class `class_`, followed by
/// the count of its family's names given so far, this one included.
pub proof fn lemma_declaration_name_by_kind(n: Naming, scope: Seq<char>, v: VarView)
    ensures
        v.kind == VariableKind::FunctionDeclaration ==> name_declaration(n, scope, v).names[(scope, v.name)]
            == "fn_"@ + decimal(sat_inc(n.functions) as nat),
        v.kind == VariableKind::Parameter ==> name_declaration(n, scope, v).names[(scope, v.name)] == "param_"@
            + decimal(sat_inc(n.parameters) as nat),
        (v.kind == VariableKind::Var || v.kind == VariableKind::Let || v.kind == VariableKind::Const)
            ==> name_declaration(n, scope, v).names[(scope, v.name)] == "var_"@ + decimal(
            sat_inc(n.variables) as nat,
        ),
        v.kind == VariableKind::ClassDeclaration ==> name_declaration(n, scope, v).names[(scope, v.name)]
            == "class_"@ + decimal(sat_inc(n.classes) as nat),
{
}

/// Two declarations named one after the other never get the same
/// canonical name: declarations of different families differ in the
/// prefix, and of one family in the number, unless that family's count
/// has reached its largest value.
pub proof fn lemma_successive_names_differ(n: Naming, s1: Seq<char>, v1: VarView, s2: Seq<char>, v2: VarView)
    requires
        same_family(v1.kind, v2.kind) ==> given_for(n, v1.kind) + 1 < usize::MAX,
    ensures
        name_declaration(n, s1, v1).names[(s1, v1.name)] != name_declaration(
            name_declaration(n, s1, v1),
            s2,
            v2,
        ).names[(s2, v2.name)],
{
    let m = name_declaration(n, s1, v1);
    let m2 = name_declaration(m, s2, v2);
    let c1 = given_for(m, v1.kind) as nat;
    let c2 = given_for(m2, v2.kind) as nat;
    assert(m.names[(s1, v1.name)] == family_name(v1.kind, c1));
    assert(m2.names[(s2, v2.name)] == family_name(v2.kind, c2));
    if family_name(v1.kind, c1) == family_name(v2.kind, c2) {
        lemma_family_name_parts(v1.kind, c1, v2.kind, c2);
        assert(given_for(m, v2.kind) == given_for(m, v1.kind));
        assert(false);
    }
}

/// The canonical name of the `c`-th declaration of `kind`'s family.
pub open spec fn family_name(kind: VariableKind, c: nat) -> Seq<char> {
    kind_prefix(kind) + decimal(c)
}

/// Whether `v` is the name of a declaration of some family among those
/// counted so far in naming state `m`.
pub open spec fn given_name(m: Naming, v: Seq<char>) -> bool {
    exists|k: VariableKind, c: nat| 1 <= c <= given_for(m, k) && v == #[trigger] family_name(k, c)
}

/// A family name gives back its family and its number.
proof fn lemma_family_name_parts(k1: VariableKind, c1: nat, k2: VariableKind, c2: nat)
    requires
        family_name(k1, c1) == family_name(k2, c2),
    ensures
        same_family(k1, k2),
        c1 == c2,
{
    reveal_strlit("fn_");
    reveal_strlit("param_");
    reveal_strlit("var_");
    reveal_strlit("class_");
    let a = family_name(k1, c1);
    let p1 = kind_prefix(k1);
    let p2 = kind_prefix(k2);
    if same_family(k1, k2) {
        assert(p1 == p2);
        assert(decimal(c1) =~= a.subrange(p1.len() as int, a.len() as int));
        assert(decimal(c2) =~= a.subrange(p2.len() as int, a.len() as int));
        lemma_decimal_injective(c1, c2);
    } else {
        assert(a[0] == p1[0]);
        assert(family_name(k2, c2)[0] == p2[0]);
    }
}

/// The name of the declaration at position `p` of `order`.
pub open spec fn order_name(vars: Seq<VarView>, order: Seq<usize>, p: int) -> Seq<char> {
    vars[order[p] as int].name
}

/// After naming the declarations `order[..j]` in scope `scope`: each of
/// them has a name given so far, and those with different names have
/// different canonical names.
pub open spec fn named_apart(m: Naming, scope: Seq<char>, vars: Seq<VarView>, order: Seq<usize>, j: int) -> bool {
    &&& forall|p: int|
        0 <= p < j ==> m.names.dom().contains((scope, #[trigger] order_name(vars, order, p)))
    &&& forall|p: int|
        0 <= p < j ==> given_name(m, m.names[(scope, #[trigger] order_name(vars, order, p))])
    &&& forall|p: int, q: int|
        0 <= p < j && 0 <= q < j && order_name(vars, order, p) != order_name(vars, order, q) ==> m.names[(
            scope,
            #[trigger] order_name(vars, order, p),
        )] != m.names[(scope, #[trigger] order_name(vars, order, q))]
}

proof fn lemma_in_order_apart(m: Naming, scope: Seq<char>, vars: Seq<VarView>, order: Seq<usize>, j: int)
    requires
        0 <= j <= order.len(),
        forall|p: int| 0 <= p < order.len() ==> (#[trigger] order[p]) < vars.len(),
        named_apart(m, scope, vars, order, j),
        m.functions + (order.len() - j) < usize::MAX,
        m.classes + (order.len() - j) < usize::MAX,
        m.variables + (order.len() - j) < usize::MAX,
        m.parameters + (order.len() - j) < usize::MAX,
    ensures
        named_apart(name_in_order(m, scope, vars, order, j), scope, vars, order, order.len() as int),
    decreases order.len() - j,
{
    if j < order.len() {
        let v = vars[order[j] as int];
        let m1 = name_declaration(m, scope, v);
        let w = family_name(v.kind, given_for(m1, v.kind) as nat);
        assert(given_for(m1, v.kind) == given_for(m, v.kind) + 1);
        assert(m1.names[(scope, v.name)] == w);
        assert(order_name(vars, order, j) == v.name);
        assert forall|p: int| 0 <= p < j + 1 implies m1.names.dom().contains(
            (scope, #[trigger] order_name(vars, order, p)),
        ) by {}
        assert forall|p: int| 0 <= p < j + 1 implies given_name(
            m1,
            m1.names[(scope, #[trigger] order_name(vars, order, p))],
        ) by {
            let x = order_name(vars, order, p);
            if x == v.name {
                assert(1 <= given_for(m1, v.kind) as nat <= given_for(m1, v.kind));
                assert(m1.names[(scope, x)] == family_name(v.kind, given_for(m1, v.kind) as nat));
            } else {
                let u = m.names[(scope, x)];
                assert(given_name(m, u));
                let (k, c) = choose|k: VariableKind, c: nat| 1 <= c <= given_for(m, k) && u == #[trigger] family_name(k, c);
                assert(m1.names[(scope, x)] == u);
                assert(given_for(m, k) <= given_for(m1, k));
                assert(1 <= c <= given_for(m1, k) && u == family_name(k, c));
            }
        }
        assert forall|p: int, q: int|
            0 <= p < j + 1 && 0 <= q < j + 1 && order_name(vars, order, p) != order_name(vars, order, q) implies m1.names[(
            scope,
            #[trigger] order_name(vars, order, p),
        )] != m1.names[(scope, #[trigger] order_name(vars, order, q))] by {
            let x = order_name(vars, order, p);
            let y = order_name(vars, order, q);
            if x != v.name && y != v.name {
                assert(p < j && q < j);
                assert(m1.names[(scope, x)] == m.names[(scope, x)]);
                assert(m1.names[(scope, y)] == m.names[(scope, y)]);
            } else {
                let other = if x == v.name { y } else { x };
                let oi = if x == v.name { q } else { p };
                assert(oi < j);
                assert(order_name(vars, order, oi) == other);
                let u = m.names[(scope, other)];
                assert(given_name(m, u));
                let (k, c) = choose|k: VariableKind, c: nat| 1 <= c <= given_for(m, k) && u == #[trigger] family_name(k, c);
                assert(m1.names[(scope, other)] == u);
                if u == w {
                    lemma_family_name_parts(k, c, v.kind, given_for(m1, v.kind) as nat);
                    assert(given_for(m, k) == given_for(m, v.kind));
                    assert(false);
                }
            }
        }
        assert(named_apart(m1, scope, vars, order, j + 1));
        lemma_in_order_apart(m1, scope, vars, order, j + 1);
    }
}

/// Whether position `a` occurs in `order`.
pub open spec fn appears(order: Seq<usize>, a: int) -> bool {
    exists|p: int| 0 <= p < order.len() && order[p] == a
}

/// Every position below `i` comes up in the stable order of `i` keys.
proof fn lemma_stable_order_covers(keys: Seq<(usize, usize)>, i: int)
    requires
        0 <= i <= usize::MAX,
    ensures
        forall|a: int| 0 <= a < i ==> #[trigger] appears(stable_order(keys, i), a),
    decreases i,
{
    if i > 0 {
        lemma_stable_order_covers(keys, i - 1);
        lemma_stable_order_range(keys, i - 1);
        let o = stable_order(keys, i - 1);
        let pos = insertion_point(keys, o, i - 1, o.len() as int);
        lemma_insertion_point_range(keys, o, i - 1, o.len() as int);
        let r = o.insert(pos, (i - 1) as usize);
        assert(stable_order(keys, i) == r);
        assert forall|a: int| 0 <= a < i implies #[trigger] appears(stable_order(keys, i), a) by {
            if a == i - 1 {
                assert(r[pos] == a);
            } else {
                assert(appears(o, a));
                let p0 = choose|p: int| 0 <= p < o.len() && o[p] == a;
                if p0 < pos {
                    assert(r[p0] == o[p0]);
                } else {
                    assert(r[p0 + 1] == o[p0]);
                }
            }
        }
    }
}

/// Within one scope, declarations with different names get different
/// canonical names, as long as the program-wide counts of function and
/// class names stay below their largest value.
pub proof fn lemma_scope_names_distinct(n: Naming, s: ScopeView)
    requires
        n.functions + s.variables.len() < usize::MAX,
        n.classes + s.variables.len() < usize::MAX,
    ensures
        forall|a: int, b: int|
            0 <= a < s.variables.len() && 0 <= b < s.variables.len() && s.variables[a].name != s.variables[b].name
                ==> name_scope_declarations(n, s).names[(s.id, #[trigger] s.variables[a].name)]
                != name_scope_declarations(n, s).names[(s.id, #[trigger] s.variables[b].name)],
{
    let vars = s.variables;
    let keys = view_keys(vars);
    let order = stable_order(keys, vars.len() as int);
    lemma_stable_order_range(keys, vars.len() as int);
    lemma_stable_order_covers(keys, vars.len() as int);
    let m0 = scope_start(n);
    assert(named_apart(m0, s.id, vars, order, 0));
    lemma_in_order_apart(m0, s.id, vars, order, 0);
    let m = name_scope_declarations(n, s);
    assert(m == name_in_order(m0, s.id, vars, order, 0));
    assert forall|a: int, b: int|
        0 <= a < vars.len() && 0 <= b < vars.len() && vars[a].name != vars[b].name implies m.names[(
            s.id,
            #[trigger] vars[a].name,
        )] != m.names[(s.id, #[trigger] vars[b].name)] by {
        assert(appears(order, a));
        assert(appears(order, b));
        let pa = choose|p: int| 0 <= p < order.len() && order[p] == a;
        let pb = choose|p: int| 0 <= p < order.len() && order[p] == b;
        assert(order_name(vars, order, pa) == vars[a].name);
        assert(order_name(vars, order, pb) == vars[b].name);
    }
}

} // verus!
