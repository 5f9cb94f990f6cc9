//! Mapping files: one line per canonical name giving where it first and
//! last occurs, its kind, and a new name the user may edit; and renaming a
//! program by such a file.
use vstd::prelude::*;
use crate::canonicalizer::{
    Canonicalizer, IdentifierInfo, IdView, info_views, info_view, collected, sorted_by_start, canonical_lookup,
    stable_sort_order, stably_sorted, splice, spans_of, is_canonical_name, lemma_lookup_canonical, lemma_canonical_plain,
    lemma_mappings_canonical, mappings_ok,
};
use crate::syntax::SyntaxTree;
use crate::text::{
    decimal, push_decimal, push_str, push_range, occurs_at, str_starts_with, string_of, string_of_chars, chars_of,
    str_eq, is_ws, char_is_ws, lines_of, words_of, split_lines, split_words, plain_word, strip_cr, lemma_lines_concat,
    lemma_line_single, lemma_word_then, lemma_word_alone, lemma_decimal_digits,
};

verus! {

#[derive(Debug, Clone)]
pub struct MappingEntry {
    pub first_line: usize,
    pub first_col: usize,
    pub last_line: usize,
    pub last_col: usize,
    /// `func`, `param` or `var`.
    pub entry_type: String,
    /// The name as written in the source.
    pub original: String,
    /// The canonical name, e.g. `fn_1`.
    pub canonical: String,
    /// The name to use instead; starts out as the canonical name.
    pub new_name: String,
}

/// Writes and applies mapping files for one canonicalized program.
pub struct MappingGenerator {
    canonicalizer: Canonicalizer,
    source: String,
}

/// The fields of an entry as plain values.
pub type EntryView = (usize, usize, usize, usize, Seq<char>, Seq<char>, Seq<char>, Seq<char>);

pub open spec fn entry_view(e: MappingEntry) -> EntryView {
    (
        e.first_line,
        e.first_col,
        e.last_line,
        e.last_col,
        e.entry_type@,
        e.original@,
        e.canonical@,
        e.new_name@,
    )
}

/// The kind word of canonical name `c`.
pub open spec fn entry_type_of(c: Seq<char>) -> Seq<char> {
    if occurs_at(c, "fn_"@, 0) {
        "func"@
    } else if occurs_at(c, "param_"@, 0) {
        "param"@
    } else {
        "var"@
    }
}

/// The canonical name of occurrence `i` under canonicalizer `c`.
pub open spec fn canonical_of(c: Canonicalizer, i: IdView) -> Option<Seq<char>> {
    canonical_lookup(c.mappings_view(), c.analyzer().scopes_view(), i.2, i.1, c.analyzer().scopes_view().len())
}

/// Whether `f` is the index of the first occurrence of `c` among `cs`.
pub open spec fn first_at(cs: Seq<Option<Seq<char>>>, c: Seq<char>, f: int) -> bool {
    &&& 0 <= f < cs.len()
    &&& cs[f] == Some(c)
    &&& forall|k: int| 0 <= k < f ==> cs[k] != Some(c)
}

/// Whether `l` is the index of the last occurrence of `c` among `cs`.
pub open spec fn last_at(cs: Seq<Option<Seq<char>>>, c: Seq<char>, l: int) -> bool {
    &&& 0 <= l < cs.len()
    &&& cs[l] == Some(c)
    &&& forall|k: int| l < k < cs.len() ==> cs[k] != Some(c)
}

pub open spec fn group_ok(cs: Seq<Option<Seq<char>>>, g: (Seq<char>, int, int)) -> bool {
    g.1 <= g.2 && first_at(cs, g.0, g.1) && last_at(cs, g.0, g.2)
}

/// Whether `gs` lists, in order of first occurrence, each canonical name
/// among `cs` once, with the indices of its first and last occurrence.
pub open spec fn groups_of(cs: Seq<Option<Seq<char>>>, gs: Seq<(Seq<char>, int, int)>) -> bool {
    &&& forall|j: int| 0 <= j < gs.len() ==> group_ok(cs, #[trigger] gs[j])
    &&& forall|j1: int, j2: int| 0 <= j1 < j2 < gs.len() ==> (#[trigger] gs[j1]).1 < (#[trigger] gs[j2]).1
    &&& forall|k: int|
        0 <= k < cs.len() && cs[k] is Some ==> exists|j: int| 0 <= j < gs.len() && Some(#[trigger] gs[j].0) == cs[k]
}

/// Whether every row and column of `t` can be counted from one.
pub open spec fn positions_bounded(t: SyntaxTree) -> bool {
    forall|i: int|
        0 <= i < t.nodes@.len() ==> (#[trigger] t.nodes@[i]).start_row < usize::MAX && t.nodes@[i].start_col
            < usize::MAX
}

/// Whether every row and column of `t` can be counted from one.
pub fn positions_in_range(t: &SyntaxTree) -> (r: bool)
    ensures
        r == positions_bounded(*t),
{
    let mut i: usize = 0;
    while i < t.nodes.len()
        invariant
            i <= t.nodes@.len(),
            forall|j: int| 0 <= j < i ==> (#[trigger] t.nodes@[j]).start_row < usize::MAX && t.nodes@[j].start_col
                < usize::MAX,
        decreases t.nodes@.len() - i,
    {
        if t.nodes[i].start_row == usize::MAX || t.nodes[i].start_col == usize::MAX {
            assert(!(t.nodes@[i as int].start_row < usize::MAX && t.nodes@[i as int].start_col < usize::MAX));
            return false;
        }
        i = i + 1;
    }
    true
}

/// The entry of group `g` of occurrences `ids`: positions counted from one.
pub open spec fn entry_for(t: SyntaxTree, ids: Seq<IdView>, g: (Seq<char>, int, int)) -> EntryView {
    let f = t.nodes@[ids[g.1].0 as int];
    let l = t.nodes@[ids[g.2].0 as int];
    (
        (f.start_row + 1) as usize,
        (f.start_col + 1) as usize,
        (l.start_row + 1) as usize,
        (l.start_col + 1) as usize,
        entry_type_of(g.0),
        ids[g.1].1,
        g.0,
        g.0,
    )
}

/// One line of a mapping file.
pub open spec fn entry_line(e: EntryView) -> Seq<char> {
    decimal(e.0 as nat) + ":"@ + decimal(e.1 as nat) + " "@ + decimal(e.2 as nat) + ":"@ + decimal(e.3 as nat) + " "@
        + e.4 + " "@ + e.6 + " "@ + e.7 + "\n"@
}

pub open spec fn render_entries(es: Seq<EntryView>) -> Seq<char>
    decreases es.len(),
{
    if es.len() == 0 {
        seq![]
    } else {
        render_entries(es.drop_last()) + entry_line(es.last())
    }
}

/// Whether `out` is the mapping file of tree `t` under canonicalizer `c`:
/// `ids` are its occurrences sorted by position, `gs` their groups by
/// canonical name, and `order` sorts the groups by first position.
pub open spec fn mapping_file_from(
    t: SyntaxTree,
    c: Canonicalizer,
    ids: Seq<IdView>,
    gs: Seq<(Seq<char>, int, int)>,
    order: Seq<usize>,
    out: Seq<char>,
) -> bool {
    &&& sorted_by_start(t, collected(t, c.analyzer().scopes_view(), 0, "global"@), ids)
    &&& groups_of(ids.map_values(|i: IdView| canonical_of(c, i)), gs)
    &&& stably_sorted(
        gs.map_values(|g: (Seq<char>, int, int)| (entry_for(t, ids, g).0, entry_for(t, ids, g).1)),
        order,
    )
    &&& out == "# FIRST LAST TYPE CANONICAL NEW\n"@ + render_entries(
        order.map_values(|k: usize| entry_for(t, ids, gs[k as int])),
    )
}

/// The value stored under key `k`, if any.
pub open spec fn pair_lookup(v: Seq<(String, String)>, k: Seq<char>) -> Option<Seq<char>> {
    if exists|j: int| 0 <= j < v.len() && v[j].0@ == k {
        Some(v[choose|j: int| 0 <= j < v.len() && v[j].0@ == k].1@)
    } else {
        None
    }
}

pub open spec fn keys_unique(v: Seq<(String, String)>) -> bool {
    forall|i: int, j: int| 0 <= i < j < v.len() ==> (#[trigger] v[i]).0@ != (#[trigger] v[j]).0@
}

/// Whether every character of `l` is white space.
pub open spec fn all_ws(l: Seq<char>) -> bool {
    forall|i: int| 0 <= i < l.len() ==> is_ws(#[trigger] l[i])
}

/// Whether line `l` of a mapping file carries an entry: not a comment, not
/// blank, and at least five words.
pub open spec fn is_mapping_line(l: Seq<char>) -> bool {
    &&& !(l.len() > 0 && l[0] == '#')
    &&& !all_ws(l)
    &&& words_of(l).len() >= 5
}

/// The renaming that lines `ls` give: each entry line maps its fourth word
/// (the canonical name) to its fifth (the new name), later lines winning.
pub open spec fn parsed_pairs(ls: Seq<Seq<char>>) -> Map<Seq<char>, Seq<char>>
    decreases ls.len(),
{
    if ls.len() == 0 {
        Map::empty()
    } else {
        let m = parsed_pairs(ls.drop_last());
        let l = ls.last();
        if is_mapping_line(l) {
            m.insert(words_of(l)[3], words_of(l)[4])
        } else {
            m
        }
    }
}

pub open spec fn map_get(m: Map<Seq<char>, Seq<char>>, k: Seq<char>) -> Option<Seq<char>> {
    if m.dom().contains(k) {
        Some(m[k])
    } else {
        None
    }
}

/// What occurrence `i` is renamed to: the new name of its canonical name
/// when the renaming has one, else its canonical name, else its own text.
pub open spec fn mapped_replacement(
    t: SyntaxTree,
    c: Canonicalizer,
    mappings: Seq<(String, String)>,
    i: IdView,
) -> Seq<char> {
    match canonical_of(c, i) {
        Some(cn) => match pair_lookup(mappings, cn) {
            Some(n) => n,
            None => cn,
        },
        None => t.text(i.0 as int),
    }
}

pub open spec fn mapped_spans(t: SyntaxTree, c: Canonicalizer, mappings: Seq<(String, String)>, ids: Seq<IdView>) -> Seq<
    (int, int, Seq<char>),
> {
    ids.map_values(
        |i: IdView|
            (t.nodes@[i.0 as int].start as int, t.nodes@[i.0 as int].end as int, mapped_replacement(t, c, mappings, i)),
    )
}

fn entry_type_for(c: &str) -> (r: String)
    ensures
        r@ == entry_type_of(c@),
{
    if str_starts_with(c, "fn_") {
        string_of("func")
    } else if str_starts_with(c, "param_") {
        string_of("param")
    } else {
        string_of("var")
    }
}

proof fn lemma_pair_found(v: Seq<(String, String)>, k: Seq<char>, j: int)
    requires
        keys_unique(v),
        0 <= j < v.len(),
        v[j].0@ == k,
    ensures
        pair_lookup(v, k) == Some(v[j].1@),
{
    let c = choose|c: int| 0 <= c < v.len() && v[c].0@ == k;
    if c != j {
        if c < j {
            assert(v[c].0@ != v[j].0@);
        } else {
            assert(v[j].0@ != v[c].0@);
        }
    }
}

/// Stores `value` under `key`, replacing an earlier value.
pub fn insert_pair(v: &mut Vec<(String, String)>, key: String, value: String)
    requires
        keys_unique(old(v)@),
    ensures
        keys_unique(final(v)@),
        pair_lookup(final(v)@, key@) == Some(value@),
        forall|k: Seq<char>| k != key@ ==> pair_lookup(final(v)@, k) == pair_lookup(old(v)@, k),
{
    let ghost before = v@;
    let ghost kv = key@;
    let ghost vv = value@;
    let found = find_key(v, key.as_str());
    let idx: usize = match found {
        Some(i) => {
            v.set(i, (key, value));
            i
        },
        None => {
            v.push((key, value));
            v.len() - 1
        },
    };
    proof {
        let after = v@;
        assert(after[idx as int].0@ == kv && after[idx as int].1@ == vv);
        assert forall|a: int, b: int| 0 <= a < b < after.len() implies (#[trigger] after[a]).0@ != (
        #[trigger] after[b]).0@ by {
            if a != idx && b != idx {
                assert(after[a] == before[a] && after[b] == before[b]);
            } else if a == idx {
                if b < before.len() {
                    assert(after[b] == before[b]);
                }
            } else {
                assert(after[a] == before[a]);
            }
        }
        lemma_pair_found(after, kv, idx as int);
        assert forall|k: Seq<char>| k != kv implies pair_lookup(after, k) == pair_lookup(before, k) by {
            if exists|a: int| 0 <= a < before.len() && before[a].0@ == k {
                let a = choose|a: int| 0 <= a < before.len() && before[a].0@ == k;
                lemma_pair_found(before, k, a);
                assert(a != idx);
                assert(after[a] == before[a]);
                lemma_pair_found(after, k, a);
            } else {
                assert forall|a: int| 0 <= a < after.len() implies after[a].0@ != k by {
                    if a != idx {
                        assert(after[a] == before[a]);
                    }
                }
            }
        }
    }
}

/// The index of the pair with key `key`.
fn find_key(v: &Vec<(String, String)>, key: &str) -> (r: Option<usize>)
    ensures
        r matches Some(j) ==> j < v@.len() && v@[j as int].0@ == key@,
        r is None ==> forall|a: int| 0 <= a < v@.len() ==> v@[a].0@ != key@,
{
    let mut j: usize = 0;
    while j < v.len()
        invariant
            j <= v@.len(),
            forall|a: int| 0 <= a < j ==> v@[a].0@ != key@,
        decreases v@.len() - j,
    {
        if str_eq(v[j].0.as_str(), key) {
            return Some(j);
        }
        j = j + 1;
    }
    None
}

/// The value stored under `key`.
pub fn get_pair(v: &Vec<(String, String)>, key: &str) -> (r: Option<String>)
    requires
        keys_unique(v@),
    ensures
        match r {
            Some(s) => pair_lookup(v@, key@) == Some(s@),
            None => pair_lookup(v@, key@) is None,
        },
{
    match find_key(v, key) {
        Some(j) => {
            proof {
                lemma_pair_found(v@, key@, j as int);
            }
            Some(v[j].1.clone())
        },
        None => None,
    }
}

impl MappingGenerator {
    pub fn new(canonicalizer: Canonicalizer, source: String) -> (r: MappingGenerator)
        ensures
            r.canonicalizer() == canonicalizer,
            r.source() == source@,
    {
        MappingGenerator { canonicalizer, source }
    }

    pub closed spec fn canonicalizer(&self) -> Canonicalizer {
        self.canonicalizer
    }

    pub closed spec fn source(&self) -> Seq<char> {
        self.source@
    }

    /// The renaming that a mapping file gives: for each line that is not a
    /// comment (`#`) nor blank and has at least five words, its fourth word
    /// (the canonical name) maps to its fifth (the new name); a later line
    /// for the same canonical name wins.
    pub fn parse_mapping_file(content: &str) -> (r: Vec<(String, String)>)
        ensures
            keys_unique(r@),
            forall|k: Seq<char>| #[trigger] pair_lookup(r@, k) == map_get(parsed_pairs(lines_of(content@)), k),
    {
        let chars = chars_of(content);
        let lines = split_lines(&chars);
        let ghost ls = lines@.map_values(|l: Vec<char>| l@);
        let mut r: Vec<(String, String)> = Vec::new();
        let mut i: usize = 0;
        while i < lines.len()
            invariant
                i <= lines@.len(),
                ls == lines@.map_values(|l: Vec<char>| l@),
                ls == lines_of(content@),
                keys_unique(r@),
                forall|k: Seq<char>| #[trigger] pair_lookup(r@, k) == map_get(parsed_pairs(ls.take(i as int)), k),
            decreases lines@.len() - i,
        {
            let line = &lines[i];
            assert(ls.take(i + 1).drop_last() =~= ls.take(i as int));
            assert(ls.take(i + 1).last() == line@);
            let comment = line.len() > 0 && line[0] == '#';
            let mut blank = true;
            let mut k: usize = 0;
            while k < line.len()
                invariant
                    k <= line@.len(),
                    blank == (forall|a: int| 0 <= a < k ==> is_ws(#[trigger] line@[a])),
                decreases line@.len() - k,
            {
                if !char_is_ws(line[k]) {
                    blank = false;
                }
                k = k + 1;
            }
            assert(blank == all_ws(line@));
            if !comment && !blank {
                let words = split_words(line);
                let ghost ws = words@.map_values(|w: Vec<char>| w@);
                if words.len() >= 5 {
                    assert(ws[3] == words@[3]@ && ws[4] == words@[4]@);
                    let key = string_of_chars(&words[3]);
                    let value = string_of_chars(&words[4]);
                    let ghost before = r@;
                    insert_pair(&mut r, key, value);
                    proof {
                        assert forall|kk: Seq<char>| #[trigger] pair_lookup(r@, kk) == map_get(
                            parsed_pairs(ls.take(i + 1)),
                            kk,
                        ) by {
                            if kk != words_of(line@)[3] {
                                assert(pair_lookup(before, kk) == map_get(parsed_pairs(ls.take(i as int)), kk));
                            }
                        }
                    }
                } else {
                    proof {
                        assert forall|kk: Seq<char>| #[trigger] pair_lookup(r@, kk) == map_get(
                            parsed_pairs(ls.take(i + 1)),
                            kk,
                        ) by {
                            assert(pair_lookup(r@, kk) == map_get(parsed_pairs(ls.take(i as int)), kk));
                        }
                    }
                }
            } else {
                proof {
                    assert forall|kk: Seq<char>| #[trigger] pair_lookup(r@, kk) == map_get(
                        parsed_pairs(ls.take(i + 1)),
                        kk,
                    ) by {
                        assert(pair_lookup(r@, kk) == map_get(parsed_pairs(ls.take(i as int)), kk));
                    }
                }
            }
            i = i + 1;
        }
        assert(ls.take(i as int) =~= ls);
        r
    }
}



proof fn lemma_groups_keys_differ(cs: Seq<Option<Seq<char>>>, gs: Seq<(Seq<char>, int, int)>, a: int, b: int)
    requires
        groups_of(cs, gs),
        0 <= a < gs.len(),
        0 <= b < gs.len(),
        a != b,
    ensures
        gs[a].0 != gs[b].0,
{
    let ga = gs[a];
    let gb = gs[b];
    assert(group_ok(cs, ga) && group_ok(cs, gb));
    if ga.0 == gb.0 {
        if ga.1 < gb.1 {
            assert(cs[ga.1] != Some(gb.0));
        } else if gb.1 < ga.1 {
            assert(cs[gb.1] != Some(ga.0));
        } else if a < b {
            assert(gs[a].1 < gs[b].1);
        } else {
            assert(gs[b].1 < gs[a].1);
        }
    }
}

/// A group that does not name `x` stays a group when `x` is appended.
proof fn lemma_group_ok_push(cs: Seq<Option<Seq<char>>>, g: (Seq<char>, int, int), x: Option<Seq<char>>)
    requires
        group_ok(cs, g),
        x != Some(g.0),
    ensures
        group_ok(cs.push(x), g),
{
    let next = cs.push(x);
    assert forall|k: int| 0 <= k < g.1 implies next[k] != Some(g.0) by {
        assert(next[k] == cs[k]);
    }
    assert forall|k: int| g.2 < k < next.len() implies next[k] != Some(g.0) by {
        if k < cs.len() {
            assert(next[k] == cs[k]);
        }
    }
    assert(next[g.1] == cs[g.1]);
    assert(next[g.2] == cs[g.2]);
}

proof fn lemma_groups_none(pre: Seq<Option<Seq<char>>>, gs: Seq<(Seq<char>, int, int)>)
    requires
        groups_of(pre, gs),
    ensures
        groups_of(pre.push(None), gs),
{
    let next = pre.push(None);
    assert forall|j: int| 0 <= j < gs.len() implies group_ok(next, #[trigger] gs[j]) by {
        lemma_group_ok_push(pre, gs[j], None);
    }
    assert forall|k: int| 0 <= k < next.len() && next[k] is Some implies exists|j: int|
        0 <= j < gs.len() && Some(#[trigger] gs[j].0) == next[k] by {
        assert(next[k] == pre[k]);
    }
}

proof fn lemma_group_ok_grow(pre: Seq<Option<Seq<char>>>, g: (Seq<char>, int, int), cn: Seq<char>)
    requires
        group_ok(pre, g),
        g.0 == cn,
    ensures
        group_ok(pre.push(Some(cn)), (cn, g.1, pre.len() as int)),
{
    let next = pre.push(Some(cn));
    assert forall|k: int| 0 <= k < g.1 implies next[k] != Some(cn) by {
        assert(next[k] == pre[k]);
    }
    assert(next[g.1] == pre[g.1]);
}

#[verifier::spinoff_prover]
#[verifier::rlimit(40)]
proof fn lemma_groups_extend(pre: Seq<Option<Seq<char>>>, gs: Seq<(Seq<char>, int, int)>, cn: Seq<char>, j: int)
    requires
        groups_of(pre, gs),
        0 <= j < gs.len(),
        gs[j].0 == cn,
    ensures
        groups_of(pre.push(Some(cn)), gs.update(j, (cn, gs[j].1, pre.len() as int))),
{
    let next = pre.push(Some(cn));
    let ng = gs.update(j, (cn, gs[j].1, pre.len() as int));
    assert forall|a: int| 0 <= a < ng.len() implies group_ok(next, #[trigger] ng[a]) by {
        if a != j {
            lemma_groups_keys_differ(pre, gs, a, j);
            lemma_group_ok_push(pre, gs[a], Some(cn));
        } else {
            lemma_group_ok_grow(pre, gs[j], cn);
        }
    }
    assert forall|a: int, b: int| 0 <= a < b < ng.len() implies (#[trigger] ng[a]).1 < (#[trigger] ng[b]).1 by {
        assert(gs[a].1 < gs[b].1);
    }
    assert forall|k: int| 0 <= k < next.len() && next[k] is Some implies exists|a: int|
        0 <= a < ng.len() && Some(#[trigger] ng[a].0) == next[k] by {
        if k < pre.len() {
            assert(next[k] == pre[k]);
            let a = choose|a: int| 0 <= a < gs.len() && Some(#[trigger] gs[a].0) == pre[k];
            assert(ng[a].0 == gs[a].0);
        } else {
            assert(ng[j].0 == cn);
        }
    }
}

proof fn lemma_groups_new(pre: Seq<Option<Seq<char>>>, gs: Seq<(Seq<char>, int, int)>, cn: Seq<char>)
    requires
        groups_of(pre, gs),
        forall|j: int| 0 <= j < gs.len() ==> (#[trigger] gs[j]).0 != cn,
    ensures
        groups_of(pre.push(Some(cn)), gs.push((cn, pre.len() as int, pre.len() as int))),
{
    let next = pre.push(Some(cn));
    let i = pre.len() as int;
    let ng = gs.push((cn, i, i));
    assert forall|a: int| 0 <= a < ng.len() implies group_ok(next, #[trigger] ng[a]) by {
        if a < gs.len() {
            assert(ng[a] == gs[a]);
            lemma_group_ok_push(pre, gs[a], Some(cn));
        } else {
            assert forall|k: int| 0 <= k < i implies next[k] != Some(cn) by {
                assert(next[k] == pre[k]);
                if pre[k] == Some(cn) {
                    let b = choose|b: int| 0 <= b < gs.len() && Some(#[trigger] gs[b].0) == pre[k];
                    assert(gs[b].0 != cn);
                }
            }
        }
    }
    assert forall|a: int, b: int| 0 <= a < b < ng.len() implies (#[trigger] ng[a]).1 < (#[trigger] ng[b]).1 by {
        if b < gs.len() {
            assert(gs[a].1 < gs[b].1);
        } else {
            assert(ng[a] == gs[a]);
            assert(group_ok(pre, gs[a]));
        }
    }
    assert forall|k: int| 0 <= k < next.len() && next[k] is Some implies exists|a: int|
        0 <= a < ng.len() && Some(#[trigger] ng[a].0) == next[k] by {
        if k < pre.len() {
            assert(next[k] == pre[k]);
            let a = choose|a: int| 0 <= a < gs.len() && Some(#[trigger] gs[a].0) == pre[k];
            assert(ng[a] == gs[a]);
        } else {
            assert(ng[gs.len() as int].0 == cn);
        }
    }
}

pub open spec fn group_views(gs: Seq<(String, usize, usize)>) -> Seq<(Seq<char>, int, int)> {
    gs.map_values(|g: (String, usize, usize)| (g.0@, g.1 as int, g.2 as int))
}

impl MappingGenerator {
    /// Groups the occurrences `ids` by canonical name, in order of first
    /// occurrence, with the index of each name's first and last occurrence.
    #[verifier::spinoff_prover]
    #[verifier::rlimit(40)]
    fn group_by_canonical(&self, ids: &Vec<IdentifierInfo>) -> (gs: Vec<(String, usize, usize)>)
        requires
            self.canonicalizer.wf(),
        ensures
            groups_of(info_views(ids@).map_values(|i: IdView| canonical_of(self.canonicalizer, i)), group_views(gs@)),
    {
        let ghost c = self.canonicalizer;
        let ghost cs = info_views(ids@).map_values(|i: IdView| canonical_of(c, i));
        let mut gs: Vec<(String, usize, usize)> = Vec::new();
        let mut i: usize = 0;
        assert(groups_of(cs.take(0), group_views(gs@)));
        while i < ids.len()
            invariant
                c == self.canonicalizer,
                c.wf(),
                i <= ids@.len(),
                cs == info_views(ids@).map_values(|i: IdView| canonical_of(c, i)),
                groups_of(cs.take(i as int), group_views(gs@)),
            decreases ids@.len() - i,
        {
            let ghost gv = group_views(gs@);
            let ghost pre = cs.take(i as int);
            assert(cs.take(i + 1) =~= pre.push(cs[i as int]));
            assert(info_views(ids@)[i as int] == info_view(ids@[i as int]));
            match self.canonicalizer.find_canonical_name(ids[i].text.as_str(), ids[i].scope_id.as_str()) {
                Some(cn) => {
                    assert(cs[i as int] == Some(cn@));
                    let mut j: usize = 0;
                    let mut found: Option<usize> = None;
                    while j < gs.len()
                        invariant
                            j <= gs@.len(),
                            found matches Some(f) ==> f < gs@.len() && gs@[f as int].0@ == cn@,
                            found is None ==> forall|a: int| 0 <= a < j ==> gs@[a].0@ != cn@,
                        ensures
                            found matches Some(f) ==> f < gs@.len() && gs@[f as int].0@ == cn@,
                            found is None ==> forall|a: int| 0 <= a < gs@.len() ==> gs@[a].0@ != cn@,
                        decreases gs@.len() - j,
                    {
                        if str_eq(gs[j].0.as_str(), cn.as_str()) {
                            found = Some(j);
                            break;
                        }
                        j = j + 1;
                    }
                    match found {
                        Some(f) => {
                            let first = gs[f].1;
                            proof {
                                assert(gv[f as int].0 == cn@);
                                lemma_groups_extend(pre, gv, cn@, f as int);
                            }
                            gs.set(f, (cn, first, i));
                            proof {
                                assert(group_views(gs@) =~= gv.update(f as int, (gv[f as int].0, gv[f as int].1, i as int)));
                            }
                        },
                        None => {
                            proof {
                                assert forall|a: int| 0 <= a < gv.len() implies (#[trigger] gv[a]).0 != cn@ by {
                                    assert(gs@[a].0@ != cn@);
                                }
                                lemma_groups_new(pre, gv, cn@);
                            }
                            gs.push((cn, i, i));
                            proof {
                                assert(group_views(gs@) =~= gv.push((cn@, i as int, i as int)));
                            }
                        },
                    }
                },
                None => {
                    proof {
                        lemma_groups_none(pre, gv);
                    }
                },
            }
            i = i + 1;
        }
        assert(cs.take(ids@.len() as int) =~= cs);
        gs
    }
}


/// Appends the line of entry `e`.
fn push_entry_line(output: &mut String, e: &MappingEntry)
    ensures
        final(output)@ == old(output)@ + entry_line(entry_view(*e)),
{
    let ghost o0 = output@;
    push_decimal(output, e.first_line);
    push_str(output, ":");
    push_decimal(output, e.first_col);
    push_str(output, " ");
    push_decimal(output, e.last_line);
    push_str(output, ":");
    push_decimal(output, e.last_col);
    push_str(output, " ");
    push_str(output, e.entry_type.as_str());
    push_str(output, " ");
    push_str(output, e.canonical.as_str());
    push_str(output, " ");
    push_str(output, e.new_name.as_str());
    push_str(output, "\n");
    assert(output@ =~= o0 + entry_line(entry_view(*e)));
}

/// The entry of group `g` of occurrences `ids`.
fn entry_of_group(t: &SyntaxTree, ids: &Vec<IdentifierInfo>, g: &(String, usize, usize)) -> (e: MappingEntry)
    requires
        t.wf(),
        positions_bounded(*t),
        g.1 < ids@.len(),
        g.2 < ids@.len(),
        forall|a: int| 0 <= a < ids@.len() ==> (#[trigger] ids@[a]).node < t.nodes@.len(),
    ensures
        entry_view(e) == entry_for(*t, info_views(ids@), (g.0@, g.1 as int, g.2 as int)),
{
    let f = ids[g.1].node;
    let l = ids[g.2].node;
    assert(info_views(ids@)[g.1 as int] == info_view(ids@[g.1 as int]));
    assert(info_views(ids@)[g.2 as int] == info_view(ids@[g.2 as int]));
    MappingEntry {
        first_line: t.nodes[f].start_row + 1,
        first_col: t.nodes[f].start_col + 1,
        last_line: t.nodes[l].start_row + 1,
        last_col: t.nodes[l].start_col + 1,
        entry_type: entry_type_for(g.0.as_str()),
        original: ids[g.1].text.clone(),
        canonical: g.0.clone(),
        new_name: g.0.clone(),
    }
}

impl MappingGenerator {
    /// The mapping file of tree `t`: a header line, then one line per
    /// canonical name that occurs, `FIRST LAST TYPE CANONICAL NEW`, where
    /// FIRST and LAST are the line:column (from one) of its first and last
    /// occurrence, TYPE is `func`, `param` or `var`, and NEW starts out as the
    /// canonical name; lines are ordered by first occurrence.
    #[verifier::spinoff_prover]
    #[verifier::rlimit(40)]
    pub fn generate_mapping_file(&self, t: &SyntaxTree) -> (r: String)
        requires
            self.canonicalizer().wf(),
            t.wf(),
            positions_bounded(*t),
        ensures
            exists|ids: Seq<IdView>, gs: Seq<(Seq<char>, int, int)>, order: Seq<usize>|
                #[trigger] mapping_file_from(*t, self.canonicalizer(), ids, gs, order, r@),
    {
        let ghost c = self.canonicalizer;
        let mut output = string_of("# FIRST LAST TYPE CANONICAL NEW\n");
        let ids = self.canonicalizer.extract_all_identifiers(t, 0);
        let groups = self.group_by_canonical(&ids);
        let ghost idv = info_views(ids@);
        let ghost gv = group_views(groups@);
        let ghost cs = idv.map_values(|i: IdView| canonical_of(c, i));
        proof {
            assert forall|a: int| 0 <= a < gv.len() implies 0 <= (#[trigger] gv[a]).1 <= gv[a].2 < idv.len() by {
                assert(group_ok(cs, gv[a]));
            }
        }
        let mut entries: Vec<MappingEntry> = Vec::new();
        let mut j: usize = 0;
        while j < groups.len()
            invariant
                t.wf(),
                positions_bounded(*t),
                j <= groups@.len(),
                idv == info_views(ids@),
                gv == group_views(groups@),
                forall|a: int| 0 <= a < gv.len() ==> 0 <= (#[trigger] gv[a]).1 <= gv[a].2 < idv.len(),
                idv.len() == ids@.len(),
                forall|a: int| 0 <= a < ids@.len() ==> (#[trigger] ids@[a]).node < t.nodes@.len(),
                entries@.len() == j,
                forall|a: int| 0 <= a < j ==> entry_view(#[trigger] entries@[a]) == entry_for(*t, idv, gv[a]),
            decreases groups@.len() - j,
        {
            assert(gv[j as int] == (groups@[j as int].0@, groups@[j as int].1 as int, groups@[j as int].2 as int));
            let e = entry_of_group(t, &ids, &groups[j]);
            let ghost before = entries@;
            entries.push(e);
            proof {
                assert forall|a: int| 0 <= a < j + 1 implies entry_view(#[trigger] entries@[a]) == entry_for(
                    *t,
                    idv,
                    gv[a],
                ) by {
                    if a < j {
                        assert(entries@[a] == before[a]);
                    }
                }
            }
            j = j + 1;
        }
        let ghost keys_spec = gv.map_values(
            |g: (Seq<char>, int, int)| (entry_for(*t, idv, g).0, entry_for(*t, idv, g).1),
        );
        let mut keys: Vec<(usize, usize)> = Vec::new();
        let mut k: usize = 0;
        while k < entries.len()
            invariant
                k <= entries@.len(),
                entries@.len() == gv.len(),
                forall|a: int| 0 <= a < gv.len() ==> entry_view(#[trigger] entries@[a]) == entry_for(*t, idv, gv[a]),
                keys_spec == gv.map_values(
                    |g: (Seq<char>, int, int)| (entry_for(*t, idv, g).0, entry_for(*t, idv, g).1),
                ),
                keys@ == keys_spec.take(k as int),
            decreases entries@.len() - k,
        {
            assert(entry_view(entries@[k as int]) == entry_for(*t, idv, gv[k as int]));
            keys.push((entries[k].first_line, entries[k].first_col));
            assert(keys@ =~= keys_spec.take(k + 1));
            k = k + 1;
        }
        assert(keys@ =~= keys_spec);
        let order = stable_sort_order(&keys);
        let ghost es = order@.map_values(|x: usize| entry_for(*t, idv, gv[x as int]));
        let ghost header = output@;
        let mut m: usize = 0;
        assert(es.take(0) =~= Seq::<EntryView>::empty());
        assert(output@ =~= header + render_entries(es.take(0)));
        while m < order.len()
            invariant
                m <= order@.len(),
                stably_sorted(keys_spec, order@),
                keys_spec.len() == gv.len(),
                entries@.len() == gv.len(),
                forall|a: int| 0 <= a < gv.len() ==> entry_view(#[trigger] entries@[a]) == entry_for(*t, idv, gv[a]),
                es == order@.map_values(|x: usize| entry_for(*t, idv, gv[x as int])),
                output@ == header + render_entries(es.take(m as int)),
            decreases order@.len() - m,
        {
            let x = order[m];
            assert(x < keys_spec.len());
            push_entry_line(&mut output, &entries[x]);
            proof {
                assert(es.take(m + 1).drop_last() =~= es.take(m as int));
                assert(es.take(m + 1).last() == es[m as int]);
                assert(entry_view(entries@[x as int]) == es[m as int]);
            }
            m = m + 1;
        }
        assert(es.take(m as int) =~= es);
        proof {
            reveal_strlit("# FIRST LAST TYPE CANONICAL NEW\n");
            assert(header == "# FIRST LAST TYPE CANONICAL NEW\n"@);
            assert(mapping_file_from(*t, c, idv, gv, order@, output@));
        }
        output
    }

    /// The source text of `t` with every identifier occurrence that has a
    /// canonical name replaced by that name's new name in `mappings`, or by
    /// the canonical name when `mappings` has none for it.
    pub fn apply_mappings(&self, t: &SyntaxTree, mappings: &Vec<(String, String)>) -> (r: String)
        requires
            self.canonicalizer().wf(),
            t.wf(),
            keys_unique(mappings@),
        ensures
            exists|ids: Seq<IdView>|
                {
                    &&& sorted_by_start(
                        *t,
                        collected(*t, self.canonicalizer().analyzer().scopes_view(), 0, "global"@),
                        ids,
                    )
                    &&& forall|i: int| 0 <= i < ids.len() ==> (#[trigger] ids[i]).0 < t.nodes@.len()
                    &&& r@ == splice(t.source@, mapped_spans(*t, self.canonicalizer(), mappings@, ids), 0)
                },
    {
        let ghost c = self.canonicalizer;
        let ids = self.canonicalizer.extract_all_identifiers(t, 0);
        let ghost idv = info_views(ids@);
        let ghost spans = mapped_spans(*t, c, mappings@, idv);
        let mut output = String::new();
        let mut last_end: usize = 0;
        let mut i: usize = 0;
        assert(spans.skip(0) =~= spans);
        assert(output@ + splice(t.source@, spans, 0) =~= splice(t.source@, spans, 0));
        while i < ids.len()
            invariant
                c == self.canonicalizer,
                c.wf(),
                t.wf(),
                keys_unique(mappings@),
                idv == info_views(ids@),
                spans == mapped_spans(*t, c, mappings@, idv),
                forall|a: int| 0 <= a < ids@.len() ==> (#[trigger] ids@[a]).node < t.nodes@.len(),
                i <= ids@.len(),
                last_end <= t.source@.len(),
                output@ + splice(t.source@, spans.skip(i as int), last_end as int) == splice(t.source@, spans, 0),
            decreases ids@.len() - i,
        {
            let node = ids[i].node;
            let start = t.nodes[node].start;
            let end = t.nodes[node].end;
            let ghost rest = spans.skip(i as int);
            assert(rest[0] == spans[i as int]);
            assert(rest.drop_first() =~= spans.skip(i + 1));
            assert(idv[i as int] == info_view(ids@[i as int]));
            if start >= last_end {
                let ghost before = output@;
                push_range(&mut output, &t.source, last_end, start);
                match self.canonicalizer.find_canonical_name(ids[i].text.as_str(), ids[i].scope_id.as_str()) {
                    Some(cn) => match get_pair(mappings, cn.as_str()) {
                        Some(new_name) => push_str(&mut output, new_name.as_str()),
                        None => push_str(&mut output, cn.as_str()),
                    },
                    None => {
                        push_range(&mut output, &t.source, start, end);
                    },
                }
                proof {
                    assert(output@ == before + t.source@.subrange(last_end as int, start as int) + spans[i as int].2);
                    assert(output@ + splice(t.source@, spans.skip(i + 1), end as int) =~= before + splice(
                        t.source@,
                        rest,
                        last_end as int,
                    ));
                }
                last_end = end;
            }
            i = i + 1;
        }
        let ghost before = output@;
        push_range(&mut output, &t.source, last_end, t.source.len());
        proof {
            assert(spans.skip(i as int).len() == 0);
            assert(output@ =~= before + splice(t.source@, spans.skip(i as int), last_end as int));
        }
        output
    }
}


/// The kind word that occurrence `i` gets from its position: `var` for a
/// declarator's name, `param` for a parameter, `func` for a function's name,
/// otherwise the kind of its canonical name (`var` when it has none).
pub open spec fn position_entry_type(t: SyntaxTree, c: Canonicalizer, i: IdView) -> Seq<char> {
    match t.nodes@[i.0 as int].parent {
        Some(p) => {
            let pk = t.kind(p as int);
            if pk == "variable_declarator"@ {
                "var"@
            } else if pk == "formal_parameters"@ {
                "param"@
            } else if pk == "function_declaration"@ || pk == "function_expression"@ {
                if t.child_by_field(p as int, "name"@) == Some(i.0) {
                    "func"@
                } else {
                    "var"@
                }
            } else {
                match canonical_of(c, i) {
                    Some(cn) => if occurs_at(cn, "param_"@, 0) {
                        "param"@
                    } else if occurs_at(cn, "fn_"@, 0) {
                        "func"@
                    } else {
                        "var"@
                    },
                    None => "var"@,
                }
            }
        },
        None => "var"@,
    }
}

impl MappingGenerator {
    #[allow(dead_code)]
    fn determine_entry_type(&self, t: &SyntaxTree, identifier: &IdentifierInfo) -> (r: String)
        requires
            self.canonicalizer().wf(),
            t.wf(),
            identifier.node < t.nodes@.len(),
        ensures
            r@ == position_entry_type(*t, self.canonicalizer(), info_view(*identifier)),
    {
        match t.parent_of(identifier.node) {
            Some(p) => {
                if t.kind_is(p, "variable_declarator") {
                    string_of("var")
                } else if t.kind_is(p, "formal_parameters") {
                    string_of("param")
                } else if t.kind_is(p, "function_declaration") || t.kind_is(p, "function_expression") {
                    if t.child_by_field_name(p, "name") == Some(identifier.node) {
                        string_of("func")
                    } else {
                        string_of("var")
                    }
                } else {
                    match self.canonicalizer.find_canonical_name(
                        identifier.text.as_str(),
                        identifier.scope_id.as_str(),
                    ) {
                        Some(cn) => {
                            if str_starts_with(cn.as_str(), "param_") {
                                string_of("param")
                            } else if str_starts_with(cn.as_str(), "fn_") {
                                string_of("func")
                            } else {
                                string_of("var")
                            }
                        },
                        None => string_of("var"),
                    }
                }
            },
            None => string_of("var"),
        }
    }
}

/// An entry line without its newline.
pub open spec fn entry_text(e: EntryView) -> Seq<char> {
    decimal(e.0 as nat) + ":"@ + decimal(e.1 as nat) + " "@ + decimal(e.2 as nat) + ":"@ + decimal(e.3 as nat) + " "@
        + e.4 + " "@ + e.6 + " "@ + e.7
}

/// Whether entry `e` is as a template writes it: its type a single word and
/// its new name its canonical name.
pub open spec fn template_entry(e: EntryView) -> bool {
    &&& is_canonical_name(e.6)
    &&& e.7 == e.6
    &&& plain_word(e.4)
}

spec fn no_newline(s: Seq<char>) -> bool {
    forall|i: int| 0 <= i < s.len() ==> s[i] != '\n'
}

proof fn lemma_no_newline_concat(a: Seq<char>, b: Seq<char>)
    requires
        no_newline(a),
        no_newline(b),
    ensures
        no_newline(a + b),
{
    assert forall|i: int| 0 <= i < (a + b).len() implies (a + b)[i] != '\n' by {
        if i < a.len() {
            assert((a + b)[i] == a[i]);
        } else {
            assert((a + b)[i] == b[i - a.len()]);
        }
    }
}

proof fn lemma_plain_no_newline(w: Seq<char>)
    requires
        plain_word(w),
    ensures
        no_newline(w),
{
    assert forall|i: int| 0 <= i < w.len() implies w[i] != '\n' by {
        assert(!is_ws(w[i]));
    }
}

/// A position `a:b` is a single word.
proof fn lemma_position_word(a: nat, b: nat)
    ensures
        plain_word(decimal(a) + ":"@ + decimal(b)),
        '0' <= (decimal(a) + ":"@ + decimal(b))[0] <= '9',
{
    reveal_strlit(":");
    lemma_decimal_digits(a);
    lemma_decimal_digits(b);
    let w = decimal(a) + ":"@ + decimal(b);
    assert forall|i: int| 0 <= i < w.len() implies !is_ws(#[trigger] w[i]) by {
        if i < decimal(a).len() {
            assert(w[i] == decimal(a)[i]);
        } else if i == decimal(a).len() {
            assert(w[i] == ':');
        } else {
            assert(w[i] == decimal(b)[i - decimal(a).len() - 1]);
        }
    }
    assert(w[0] == decimal(a)[0]);
}

/// A template entry's line is one mapping line whose fourth and fifth
/// words are its canonical and new names.
proof fn lemma_entry_lines(e: EntryView)
    requires
        template_entry(e),
    ensures
        lines_of(entry_line(e)) == seq![entry_text(e)],
        is_mapping_line(entry_text(e)),
        words_of(entry_text(e))[3] == e.6,
        words_of(entry_text(e))[4] == e.7,
{
    reveal_strlit(" ");
    reveal_strlit("\n");
    let w0 = decimal(e.0 as nat) + ":"@ + decimal(e.1 as nat);
    let w1 = decimal(e.2 as nat) + ":"@ + decimal(e.3 as nat);
    lemma_position_word(e.0 as nat, e.1 as nat);
    lemma_position_word(e.2 as nat, e.3 as nat);
    lemma_canonical_plain(e.6);
    let r3 = e.6 + " "@ + e.7;
    let r2 = e.4 + " "@ + r3;
    let r1 = w1 + " "@ + r2;
    let x = w0 + " "@ + r1;
    assert(entry_text(e) =~= x);
    assert(entry_line(e) =~= x + "\n"@);
    lemma_word_alone(e.7);
    lemma_word_then(e.6, e.7);
    lemma_word_then(e.4, r3);
    lemma_word_then(w1, r2);
    lemma_word_then(w0, r1);
    assert(words_of(x) =~= seq![w0, w1, e.4, e.6, e.7]);
    let sp: Seq<char> = " "@;
    assert(no_newline(sp)) by {
        assert forall|i: int| 0 <= i < sp.len() implies sp[i] != '\n' by {
            assert(sp[i] == ' ');
        }
    }
    lemma_plain_no_newline(w0);
    lemma_plain_no_newline(w1);
    lemma_plain_no_newline(e.4);
    lemma_plain_no_newline(e.6);
    lemma_plain_no_newline(e.7);
    lemma_no_newline_concat(e.6, sp);
    lemma_no_newline_concat(e.6 + sp, e.7);
    lemma_no_newline_concat(e.4, sp);
    lemma_no_newline_concat(e.4 + sp, r3);
    lemma_no_newline_concat(w1, sp);
    lemma_no_newline_concat(w1 + sp, r2);
    lemma_no_newline_concat(w0, sp);
    lemma_no_newline_concat(w0 + sp, r1);
    lemma_line_single(x);
    assert(x.last() == e.7.last());
    assert(strip_cr(x) == x);
    assert(x[0] == w0[0]);
    assert(!is_ws(x[0]));
}

/// The lines of rendered template entries are the entries' texts.
proof fn lemma_render_lines(es: Seq<EntryView>)
    requires
        forall|i: int| 0 <= i < es.len() ==> template_entry(#[trigger] es[i]),
    ensures
        lines_of(render_entries(es)) == es.map_values(|e: EntryView| entry_text(e)),
        render_entries(es).len() == 0 || render_entries(es).last() == '\n',
    decreases es.len(),
{
    reveal_strlit("\n");
    if es.len() > 0 {
        let init = es.drop_last();
        lemma_render_lines(init);
        lemma_entry_lines(es.last());
        lemma_lines_concat(render_entries(init), entry_line(es.last()));
        assert(es.map_values(|e: EntryView| entry_text(e)) =~= init.map_values(|e: EntryView| entry_text(e)).push(
            entry_text(es.last()),
        ));
        assert(entry_line(es.last()).last() == '\n');
    } else {
        assert(lines_of(render_entries(es)) =~= Seq::<Seq<char>>::empty());
    }
}

/// A renaming read from lines whose entries each map a name to itself maps
/// every name to itself.
proof fn lemma_parsed_identity(ls: Seq<Seq<char>>)
    requires
        forall|i: int| 0 <= i < ls.len() && is_mapping_line(#[trigger] ls[i]) ==> words_of(ls[i])[3] == words_of(
            ls[i],
        )[4],
    ensures
        forall|k: Seq<char>| #[trigger] map_get(parsed_pairs(ls), k) matches Some(v) ==> v == k,
    decreases ls.len(),
{
    if ls.len() > 0 {
        let init = ls.drop_last();
        assert forall|i: int| 0 <= i < init.len() && is_mapping_line(#[trigger] init[i]) implies words_of(init[i])[3]
            == words_of(init[i])[4] by {
            assert(init[i] == ls[i]);
        }
        lemma_parsed_identity(init);
        let m = parsed_pairs(init);
        let l = ls[ls.len() - 1];
        assert(l == ls.last());
        assert forall|k: Seq<char>| (#[trigger] map_get(parsed_pairs(ls), k) matches Some(v) ==> v == k) by {
            if is_mapping_line(l) {
                assert(words_of(l)[3] == words_of(l)[4]);
                if k != words_of(l)[3] {
                    assert(map_get(parsed_pairs(ls), k) == map_get(m, k));
                }
            } else {
                assert(map_get(parsed_pairs(ls), k) == map_get(m, k));
            }
        }
    }
}

/// The entries of groups `gs` in the order `order`.
pub open spec fn entries_in_order(
    t: SyntaxTree,
    ids: Seq<IdView>,
    gs: Seq<(Seq<char>, int, int)>,
    order: Seq<usize>,
) -> Seq<EntryView> {
    order.map_values(|k: usize| entry_for(t, ids, gs[k as int]))
}

/// The type word of an entry is a single word.
proof fn lemma_entry_type_plain(x: Seq<char>)
    ensures
        plain_word(entry_type_of(x)),
{
    reveal_strlit("func");
    reveal_strlit("param");
    reveal_strlit("var");
    let ty = entry_type_of(x);
    assert forall|j: int| 0 <= j < ty.len() implies !is_ws(#[trigger] ty[j]) by {}
}

/// The entry of a group of a well-formed canonicalizer's occurrences is a
/// template entry.
proof fn lemma_group_entry(t: SyntaxTree, c: Canonicalizer, ids: Seq<IdView>, g: (Seq<char>, int, int))
    requires
        c.wf(),
        group_ok(ids.map_values(|i: IdView| canonical_of(c, i)), g),
    ensures
        template_entry(entry_for(t, ids, g)),
{
    let cs = ids.map_values(|i: IdView| canonical_of(c, i));
    assert(cs[g.1] == Some(g.0));
    assert(canonical_of(c, ids[g.1]) == Some(g.0));
    lemma_mappings_canonical(&c);
    lemma_lookup_canonical(
        c.mappings_view(),
        c.analyzer().scopes_view(),
        ids[g.1].2,
        ids[g.1].1,
        c.analyzer().scopes_view().len(),
    );
    lemma_entry_type_plain(g.0);
}

/// Reading back the template text of template entries maps every name it
/// lists to itself.
proof fn lemma_template_lines(es: Seq<EntryView>, out: Seq<char>)
    requires
        forall|i: int| 0 <= i < es.len() ==> template_entry(#[trigger] es[i]),
        out == "# FIRST LAST TYPE CANONICAL NEW\n"@ + render_entries(es),
    ensures
        forall|k: Seq<char>| #[trigger] map_get(parsed_pairs(lines_of(out)), k) matches Some(v) ==> v == k,
{
    reveal_strlit("# FIRST LAST TYPE CANONICAL NEW\n");
    reveal_strlit("# FIRST LAST TYPE CANONICAL NEW");
    reveal_strlit("\n");
    lemma_render_lines(es);
    let header: Seq<char> = "# FIRST LAST TYPE CANONICAL NEW\n"@;
    let head_line: Seq<char> = "# FIRST LAST TYPE CANONICAL NEW"@;
    assert(header =~= head_line + "\n"@);
    assert(forall|i: int| 0 <= i < head_line.len() ==> head_line[i] != '\n');
    lemma_line_single(head_line);
    assert(strip_cr(head_line) == head_line);
    lemma_lines_concat(header, render_entries(es));
    let ls = lines_of(out);
    assert(ls =~= seq![head_line] + es.map_values(|e: EntryView| entry_text(e)));
    assert forall|i: int| 0 <= i < ls.len() && is_mapping_line(#[trigger] ls[i]) implies words_of(ls[i])[3]
        == words_of(ls[i])[4] by {
        if i > 0 {
            assert(ls[i] == entry_text(es[i - 1]));
            lemma_entry_lines(es[i - 1]);
        } else {
            assert(ls[0] == head_line);
            assert(head_line[0] == '#');
        }
    }
    lemma_parsed_identity(ls);
}

/// An unedited mapping template renames nothing: reading it back maps every
/// canonical name it lists to itself.
pub proof fn lemma_template_is_identity(
    t: SyntaxTree,
    c: Canonicalizer,
    ids: Seq<IdView>,
    gs: Seq<(Seq<char>, int, int)>,
    order: Seq<usize>,
    out: Seq<char>,
)
    requires
        c.wf(),
        mapping_file_from(t, c, ids, gs, order, out),
    ensures
        forall|k: Seq<char>| #[trigger] map_get(parsed_pairs(lines_of(out)), k) matches Some(v) ==> v == k,
{
    let cs = ids.map_values(|i: IdView| canonical_of(c, i));
    let es = entries_in_order(t, ids, gs, order);
    assert(groups_of(cs, gs));
    assert forall|i: int| 0 <= i < es.len() implies template_entry(#[trigger] es[i]) by {
        let k = order[i];
        assert(k < gs.len());
        assert(group_ok(cs, gs[k as int]));
        lemma_group_entry(t, c, ids, gs[k as int]);
    }
    assert(out == "# FIRST LAST TYPE CANONICAL NEW\n"@ + render_entries(es));
    lemma_template_lines(es, out);
}

/// The names that lines `ls` give new names to: the fourth words of their
/// entry lines.
proof fn lemma_parsed_keys(ls: Seq<Seq<char>>)
    ensures
        forall|k: Seq<char>|
            #[trigger] parsed_pairs(ls).dom().contains(k) <==> exists|i: int|
                0 <= i < ls.len() && is_mapping_line(#[trigger] ls[i]) && words_of(ls[i])[3] == k,
    decreases ls.len(),
{
    if ls.len() > 0 {
        let init = ls.drop_last();
        lemma_parsed_keys(init);
        let l = ls.last();
        assert forall|k: Seq<char>| #[trigger] parsed_pairs(ls).dom().contains(k) <==> exists|i: int|
            0 <= i < ls.len() && is_mapping_line(#[trigger] ls[i]) && words_of(ls[i])[3] == k by {
            if parsed_pairs(ls).dom().contains(k) {
                if is_mapping_line(l) && k == words_of(l)[3] {
                    assert(ls[ls.len() - 1] == l);
                } else {
                    assert(parsed_pairs(init).dom().contains(k));
                    let i = choose|i: int| 0 <= i < init.len() && is_mapping_line(#[trigger] init[i]) && words_of(init[i])[3] == k;
                    assert(ls[i] == init[i]);
                }
            }
            if exists|i: int| 0 <= i < ls.len() && is_mapping_line(#[trigger] ls[i]) && words_of(ls[i])[3] == k {
                let i = choose|i: int| 0 <= i < ls.len() && is_mapping_line(#[trigger] ls[i]) && words_of(ls[i])[3] == k;
                if i < init.len() {
                    assert(init[i] == ls[i]);
                    assert(parsed_pairs(init).dom().contains(k));
                } else {
                    assert(ls[i] == l);
                }
            }
        }
    }
}

proof fn lemma_template_line_keys(es: Seq<EntryView>, out: Seq<char>)
    requires
        forall|i: int| 0 <= i < es.len() ==> template_entry(#[trigger] es[i]),
        out == "# FIRST LAST TYPE CANONICAL NEW\n"@ + render_entries(es),
    ensures
        forall|k: Seq<char>|
            #[trigger] map_get(parsed_pairs(lines_of(out)), k) is Some <==> exists|i: int| 0 <= i < es.len() && (#[trigger] es[i]).6 == k,
{
    reveal_strlit("# FIRST LAST TYPE CANONICAL NEW\n");
    reveal_strlit("# FIRST LAST TYPE CANONICAL NEW");
    reveal_strlit("\n");
    lemma_render_lines(es);
    let header: Seq<char> = "# FIRST LAST TYPE CANONICAL NEW\n"@;
    let head_line: Seq<char> = "# FIRST LAST TYPE CANONICAL NEW"@;
    assert(header =~= head_line + "\n"@);
    assert(forall|i: int| 0 <= i < head_line.len() ==> head_line[i] != '\n');
    lemma_line_single(head_line);
    assert(strip_cr(head_line) == head_line);
    lemma_lines_concat(header, render_entries(es));
    let ls = lines_of(out);
    assert(ls =~= seq![head_line] + es.map_values(|e: EntryView| entry_text(e)));
    lemma_parsed_keys(ls);
    assert forall|k: Seq<char>| #[trigger] map_get(parsed_pairs(ls), k) is Some <==> exists|i: int|
        0 <= i < es.len() && (#[trigger] es[i]).6 == k by {
        if map_get(parsed_pairs(ls), k) is Some {
            assert(parsed_pairs(ls).dom().contains(k));
            let i = choose|i: int| 0 <= i < ls.len() && is_mapping_line(#[trigger] ls[i]) && words_of(ls[i])[3] == k;
            if i == 0 {
                assert(ls[0] == head_line);
                assert(head_line[0] == '#');
            } else {
                assert(ls[i] == entry_text(es[i - 1]));
                lemma_entry_lines(es[i - 1]);
                assert(es[i - 1].6 == k);
            }
        }
        if exists|i: int| 0 <= i < es.len() && (#[trigger] es[i]).6 == k {
            let i = choose|i: int| 0 <= i < es.len() && (#[trigger] es[i]).6 == k;
            lemma_entry_lines(es[i]);
            assert(ls[i + 1] == entry_text(es[i]));
            assert(is_mapping_line(ls[i + 1]) && words_of(ls[i + 1])[3] == k);
            assert(parsed_pairs(ls).dom().contains(k));
        }
    }
}

/// Reading back an unedited mapping template gives new names to exactly the
/// canonical names that its entries list, each to itself.
pub proof fn lemma_template_keys(
    t: SyntaxTree,
    c: Canonicalizer,
    ids: Seq<IdView>,
    gs: Seq<(Seq<char>, int, int)>,
    order: Seq<usize>,
    out: Seq<char>,
)
    requires
        c.wf(),
        mapping_file_from(t, c, ids, gs, order, out),
    ensures
        forall|k: Seq<char>|
            #[trigger] map_get(parsed_pairs(lines_of(out)), k) is Some <==> exists|i: int|
                0 <= i < entries_in_order(t, ids, gs, order).len() && (#[trigger] entries_in_order(
                    t,
                    ids,
                    gs,
                    order,
                )[i]).6 == k,
        forall|k: Seq<char>| #[trigger] map_get(parsed_pairs(lines_of(out)), k) matches Some(v) ==> v == k,
{
    let cs = ids.map_values(|i: IdView| canonical_of(c, i));
    let es = entries_in_order(t, ids, gs, order);
    assert(groups_of(cs, gs));
    assert forall|i: int| 0 <= i < es.len() implies template_entry(#[trigger] es[i]) by {
        let k = order[i];
        assert(k < gs.len());
        assert(group_ok(cs, gs[k as int]));
        lemma_group_entry(t, c, ids, gs[k as int]);
    }
    assert(out == "# FIRST LAST TYPE CANONICAL NEW\n"@ + render_entries(es));
    lemma_template_line_keys(es, out);
    lemma_template_lines(es, out);
}

/// Renaming by a mapping that gives each canonical name itself (or none,
/// as the empty mapping) yields the canonical names: the same spans as
/// canonicalization.
pub proof fn lemma_identity_mapping_is_canonicalization(
    t: SyntaxTree,
    c: Canonicalizer,
    mappings: Seq<(String, String)>,
    ids: Seq<IdView>,
)
    requires
        forall|k: Seq<char>| #[trigger] pair_lookup(mappings, k) matches Some(v) ==> v == k,
    ensures
        mapped_spans(t, c, mappings, ids) == spans_of(t, c.mappings_view(), c.analyzer().scopes_view(), ids),
{
    let a = mapped_spans(t, c, mappings, ids);
    let b = spans_of(t, c.mappings_view(), c.analyzer().scopes_view(), ids);
    assert forall|i: int| 0 <= i < ids.len() implies a[i] == b[i] by {
        match canonical_of(c, ids[i]) {
            Some(cn) => {
                assert(pair_lookup(mappings, cn) matches Some(v) ==> v == cn);
            },
            None => {},
        }
    }
    assert(a =~= b);
}

} // verus!
