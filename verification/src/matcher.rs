//! Choosing which declarations of two programs correspond: candidate pairs
//! by kind and size, a MinHash pre-filter, and a greedy one-to-one choice
//! from the best-scored pair down, with the renames that the choice implies.
//! The scores themselves are floating point and are computed by the caller,
//! which hands over the candidates ranked best first.
use vstd::prelude::*;
use crate::diff::{DeclarationData, DeclarationKind, Location};
use crate::mapping::{keys_unique, pair_lookup, insert_pair};
use crate::text::{str_eq, trimmed, trim_chars, lines_of, split_lines, chars_of};

verus! {

/// Whether some pair of `m` takes declaration `i` of the first program.
pub open spec fn takes_left(m: Seq<(usize, usize)>, i: int) -> bool {
    exists|k: int| 0 <= k < m.len() && (#[trigger] m[k]).0 == i
}

/// Whether some pair of `m` takes declaration `i` of the second program.
pub open spec fn takes_right(m: Seq<(usize, usize)>, i: int) -> bool {
    exists|k: int| 0 <= k < m.len() && (#[trigger] m[k]).1 == i
}

/// The pairs that one pass over `ranked`, best first, keeps: each pair whose
/// two declarations are both still free when it comes.
pub open spec fn greedy(ranked: Seq<(usize, usize)>) -> Seq<(usize, usize)>
    decreases ranked.len(),
{
    if ranked.len() == 0 {
        seq![]
    } else {
        let prev = greedy(ranked.drop_last());
        let p = ranked.last();
        if takes_left(prev, p.0 as int) || takes_right(prev, p.1 as int) {
            prev
        } else {
            prev.push(p)
        }
    }
}

/// The old name that the matches `m` give to the new name `id`: the first
/// program's name in the last match whose second declaration is called `id`
/// and whose two names differ.
pub open spec fn renamed_from(
    m: Seq<(usize, usize)>,
    d1: Seq<DeclarationData>,
    d2: Seq<DeclarationData>,
    id: Seq<char>,
) -> Option<Seq<char>>
    decreases m.len(),
{
    if m.len() == 0 {
        None
    } else {
        let p = m.last();
        if d2[p.1 as int].name@ == id && d1[p.0 as int].name@ != id {
            Some(d1[p.0 as int].name@)
        } else {
            renamed_from(m.drop_last(), d1, d2, id)
        }
    }
}

/// Whether every pair of `ranked` names a declaration of each program.
pub open spec fn pairs_in_range(ranked: Seq<(usize, usize)>, n1: nat, n2: nat) -> bool {
    forall|k: int| 0 <= k < ranked.len() ==> (#[trigger] ranked[k]).0 < n1 && ranked[k].1 < n2
}

pub(crate) proof fn lemma_takes_push(m: Seq<(usize, usize)>, p: (usize, usize), i: int)
    ensures
        takes_left(m.push(p), i) == (takes_left(m, i) || p.0 == i),
        takes_right(m.push(p), i) == (takes_right(m, i) || p.1 == i),
{
    let mp = m.push(p);
    if takes_left(m, i) {
        let k = choose|k: int| 0 <= k < m.len() && (#[trigger] m[k]).0 == i;
        assert(mp[k] == m[k]);
    }
    if p.0 == i {
        assert(mp[m.len() as int] == p);
    }
    if takes_left(mp, i) {
        let k = choose|k: int| 0 <= k < mp.len() && (#[trigger] mp[k]).0 == i;
        if k < m.len() {
            assert(mp[k] == m[k]);
        }
    }
    if takes_right(m, i) {
        let k = choose|k: int| 0 <= k < m.len() && (#[trigger] m[k]).1 == i;
        assert(mp[k] == m[k]);
    }
    if p.1 == i {
        assert(mp[m.len() as int] == p);
    }
    if takes_right(mp, i) {
        let k = choose|k: int| 0 <= k < mp.len() && (#[trigger] mp[k]).1 == i;
        if k < m.len() {
            assert(mp[k] == m[k]);
        }
    }
}

/// The greedy choice is a one-to-one matching drawn from the candidates: no
/// declaration of either program is in two chosen pairs, every candidate left
/// out shares a declaration with a chosen pair, and the best-ranked candidate
/// is always chosen.
pub proof fn lemma_greedy_is_matching(ranked: Seq<(usize, usize)>)
    ensures
        forall|a: int, b: int|
            0 <= a < b < greedy(ranked).len() ==> (#[trigger] greedy(ranked)[a]).0 != (
            #[trigger] greedy(ranked)[b]).0 && greedy(ranked)[a].1 != greedy(ranked)[b].1,
        forall|a: int| 0 <= a < greedy(ranked).len() ==> ranked.contains(#[trigger] greedy(ranked)[a]),
        forall|j: int|
            0 <= j < ranked.len() ==> takes_left(greedy(ranked), (#[trigger] ranked[j]).0 as int) || takes_right(
                greedy(ranked),
                ranked[j].1 as int,
            ),
        ranked.len() > 0 ==> greedy(ranked).len() > 0 && greedy(ranked)[0] == ranked[0],
    decreases ranked.len(),
{
    if ranked.len() > 0 {
        let rest = ranked.drop_last();
        let prev = greedy(rest);
        let p = ranked.last();
        let g = greedy(ranked);
        lemma_greedy_is_matching(rest);
        assert forall|a: int| 0 <= a < prev.len() implies ranked.contains(#[trigger] prev[a]) by {
            let j = choose|j: int| 0 <= j < rest.len() && rest[j] == prev[a];
            assert(ranked[j] == rest[j]);
        }
        assert(ranked[ranked.len() - 1] == p);
        if takes_left(prev, p.0 as int) || takes_right(prev, p.1 as int) {
            assert(g == prev);
            assert forall|j: int| 0 <= j < ranked.len() implies takes_left(g, (#[trigger] ranked[j]).0 as int)
                || takes_right(g, ranked[j].1 as int) by {
                if j < rest.len() {
                    assert(rest[j] == ranked[j]);
                }
            }
        } else {
            assert(g == prev.push(p));
            assert forall|a: int, b: int| 0 <= a < b < g.len() implies (#[trigger] g[a]).0 != (
            #[trigger] g[b]).0 && g[a].1 != g[b].1 by {
                if b == prev.len() {
                    assert(g[a] == prev[a]);
                    assert(g[b] == p);
                    if prev[a].0 == p.0 {
                        assert(takes_left(prev, p.0 as int));
                    }
                    if prev[a].1 == p.1 {
                        assert(takes_right(prev, p.1 as int));
                    }
                } else {
                    assert(g[a] == prev[a]);
                    assert(g[b] == prev[b]);
                }
            }
            assert forall|a: int| 0 <= a < g.len() implies ranked.contains(#[trigger] g[a]) by {
                if a < prev.len() {
                    assert(g[a] == prev[a]);
                } else {
                    assert(g[a] == p);
                }
            }
            assert forall|j: int| 0 <= j < ranked.len() implies takes_left(g, (#[trigger] ranked[j]).0 as int)
                || takes_right(g, ranked[j].1 as int) by {
                lemma_takes_push(prev, p, ranked[j].0 as int);
                lemma_takes_push(prev, p, ranked[j].1 as int);
                if j < rest.len() {
                    assert(rest[j] == ranked[j]);
                }
            }
            if rest.len() == 0 {
                assert(prev.len() == 0);
                assert(g[0] == p);
            } else {
                assert(rest[0] == ranked[0]);
                assert(g[0] == prev[0]);
            }
        }
    }
}

/// The smallest size that a declaration of size `s` is compared with: half
/// of it, and at least one.
pub open spec fn window_low(s: usize) -> int {
    if s / 2 >= 1 {
        (s / 2) as int
    } else {
        1
    }
}

/// The largest size that a declaration of size `s` is compared with: one
/// and a half times it.
pub open spec fn window_high(s: usize) -> int {
    s + s / 2
}

/// Whether declaration `i1` of the first program and `i2` of the second are
/// worth scoring: the same kind, and sizes within the window of the first.
pub open spec fn is_candidate(d1: Seq<DeclarationData>, d2: Seq<DeclarationData>, i1: int, i2: int) -> bool {
    &&& 0 <= i1 < d1.len()
    &&& 0 <= i2 < d2.len()
    &&& d1[i1].kind == d2[i2].kind
    &&& window_low(d1[i1].size) <= d2[i2].size <= window_high(d1[i1].size)
}

/// Whether declaration `a` comes before `b` by size, ties by position.
pub open spec fn size_before(d: Seq<DeclarationData>, a: int, b: int) -> bool {
    d[a].size < d[b].size || (d[a].size == d[b].size && a < b)
}

/// Whether pair `p` comes before `q`: by the first declaration, then by the
/// second's size and position.
pub open spec fn pair_before(d2: Seq<DeclarationData>, p: (usize, usize), q: (usize, usize)) -> bool {
    p.0 < q.0 || (p.0 == q.0 && size_before(d2, p.1 as int, q.1 as int))
}

/// Whether `o` lists positions of `d` in order of size, ties by position.
pub open spec fn by_size(d: Seq<DeclarationData>, o: Seq<usize>) -> bool {
    &&& forall|k: int| 0 <= k < o.len() ==> (#[trigger] o[k] as int) < d.len()
    &&& forall|a: int, b: int| 0 <= a < b < o.len() ==> size_before(d, #[trigger] o[a] as int, #[trigger] o[b] as int)
}

proof fn lemma_push_contains<A>(s: Seq<A>, x: A)
    ensures
        s.push(x).contains(x),
        forall|y: A| s.contains(y) ==> s.push(x).contains(y),
{
    assert(s.push(x)[s.len() as int] == x);
    assert forall|y: A| s.contains(y) implies s.push(x).contains(y) by {
        let k = choose|k: int| 0 <= k < s.len() && s[k] == y;
        assert(s.push(x)[k] == y);
    }
}

/// The first position of `o` whose declaration is larger than `bound`.
fn first_larger(o: &Vec<usize>, d: &Vec<DeclarationData>, bound: usize) -> (p: usize)
    requires
        by_size(d@, o@),
    ensures
        p <= o@.len(),
        forall|k: int| 0 <= k < p ==> d@[#[trigger] o@[k] as int].size <= bound,
        forall|k: int| p <= k < o@.len() ==> d@[#[trigger] o@[k] as int].size > bound,
{
    let mut lo: usize = 0;
    let mut hi: usize = o.len();
    while lo < hi
        invariant
            by_size(d@, o@),
            lo <= hi <= o@.len(),
            forall|k: int| 0 <= k < lo ==> d@[#[trigger] o@[k] as int].size <= bound,
            forall|k: int| hi <= k < o@.len() ==> d@[#[trigger] o@[k] as int].size > bound,
        decreases hi - lo,
    {
        let mid = lo + (hi - lo) / 2;
        let i = o[mid];
        if d[i].size <= bound {
            assert forall|k: int| 0 <= k < mid + 1 implies d@[#[trigger] o@[k] as int].size <= bound by {
                if k < mid {
                    assert(size_before(d@, o@[k] as int, o@[mid as int] as int));
                }
            }
            lo = mid + 1;
        } else {
            assert forall|k: int| mid <= k < o@.len() implies d@[#[trigger] o@[k] as int].size > bound by {
                if k > mid {
                    assert(size_before(d@, o@[mid as int] as int, o@[k] as int));
                }
            }
            hi = mid;
        }
    }
    lo
}

/// The positions of `d` in order of size, ties by position.
fn size_order(d: &Vec<DeclarationData>) -> (o: Vec<usize>)
    ensures
        o@.len() == d@.len(),
        by_size(d@, o@),
        forall|j: usize| j < d@.len() ==> #[trigger] o@.contains(j),
{
    let mut o: Vec<usize> = Vec::new();
    let mut i: usize = 0;
    while i < d.len()
        invariant
            i <= d@.len(),
            o@.len() == i,
            by_size(d@, o@),
            forall|k: int| 0 <= k < o@.len() ==> (#[trigger] o@[k]) < i,
            forall|j: usize| j < i ==> #[trigger] o@.contains(j),
        decreases d@.len() - i,
    {
        let p = first_larger(&o, d, d[i].size);
        let ghost before = o@;
        o.insert(p, i);
        proof {
            assert(o@ == before.insert(p as int, i));
            assert forall|k: int| 0 <= k < o@.len() implies (#[trigger] o@[k] as int) < d@.len() && o@[k] < i + 1 by {
                if k < p {
                    assert(o@[k] == before[k]);
                } else if k > p {
                    assert(o@[k] == before[k - 1]);
                }
            }
            assert forall|a: int, b: int| 0 <= a < b < o@.len() implies size_before(
                d@,
                #[trigger] o@[a] as int,
                #[trigger] o@[b] as int,
            ) by {
                if b < p {
                    assert(o@[a] == before[a] && o@[b] == before[b]);
                } else if b == p {
                    assert(o@[a] == before[a]);
                    assert(before[a] < i);
                } else if a < p {
                    assert(o@[a] == before[a] && o@[b] == before[b - 1]);
                    assert(size_before(d@, before[a] as int, before[b - 1] as int));
                } else if a == p {
                    assert(o@[b] == before[b - 1]);
                } else {
                    assert(o@[a] == before[a - 1] && o@[b] == before[b - 1]);
                    assert(size_before(d@, before[a - 1] as int, before[b - 1] as int));
                }
            }
            assert forall|j: usize| j < i + 1 implies #[trigger] o@.contains(j) by {
                if j == i {
                    assert(o@[p as int] == i);
                } else {
                    assert(before.contains(j));
                    let k = choose|k: int| 0 <= k < before.len() && before[k] == j;
                    if k < p {
                        assert(o@[k] == before[k]);
                    } else {
                        assert(o@[k + 1] == before[k]);
                    }
                }
            }
        }
        i = i + 1;
    }
    o
}

/// How many of the first `n` positions two signatures agree at.
pub open spec fn agreements(s1: Seq<u64>, s2: Seq<u64>, n: int) -> nat
    decreases n,
{
    if n <= 0 {
        0
    } else {
        agreements(s1, s2, n - 1) + if s1[n - 1] == s2[n - 1] {
            1nat
        } else {
            0nat
        }
    }
}

/// Whether MinHash signature `s2` agrees with `s1` at three tenths or more
/// of the positions of `s1` (positions that `s2` lacks do not agree).
pub open spec fn lsh_close(s1: Seq<u64>, s2: Seq<u64>) -> bool {
    let n = if s1.len() <= s2.len() {
        s1.len()
    } else {
        s2.len()
    };
    s1.len() > 0 && 10 * agreements(s1, s2, n as int) >= 3 * s1.len()
}

/// The candidates that survive the MinHash filter, in order: a pair whose
/// names agree is kept and marked, any other pair is kept when its
/// signatures are close.
pub open spec fn lsh_kept(pairs: Seq<(usize, usize)>, d1: Seq<DeclarationData>, d2: Seq<DeclarationData>) -> Seq<
    (usize, usize, bool),
>
    decreases pairs.len(),
{
    if pairs.len() == 0 {
        seq![]
    } else {
        let prev = lsh_kept(pairs.drop_last(), d1, d2);
        let p = pairs.last();
        if d1[p.0 as int].name@ == d2[p.1 as int].name@ {
            prev.push((p.0, p.1, true))
        } else if lsh_close(d1[p.0 as int].minhash_signature@, d2[p.1 as int].minhash_signature@) {
            prev.push((p.0, p.1, false))
        } else {
            prev
        }
    }
}

/// Whether two MinHash signatures are close in the sense of `lsh_close`.
pub fn signatures_close(s1: &Vec<u64>, s2: &Vec<u64>) -> (r: bool)
    ensures
        r == lsh_close(s1@, s2@),
{
    let n = if s1.len() <= s2.len() {
        s1.len()
    } else {
        s2.len()
    };
    let mut count: usize = 0;
    let mut k: usize = 0;
    while k < n
        invariant
            n <= s1@.len(),
            n <= s2@.len(),
            k <= n,
            count == agreements(s1@, s2@, k as int),
            count <= k,
        decreases n - k,
    {
        if s1[k] == s2[k] {
            count = count + 1;
        }
        k = k + 1;
    }
    s1.len() > 0 && (count as u128) * 10 >= (s1.len() as u128) * 3
}

/// The trimmed text of line `line`, counted from one, of `lines`; nothing
/// when there is no such line.
pub open spec fn snippet_at(lines: Seq<Seq<char>>, line: usize) -> Seq<char> {
    if 1 <= line <= lines.len() {
        trimmed(lines[line - 1])
    } else {
        seq![]
    }
}

/// Where declaration `decl` stands in a program whose lines are `lines`: its
/// first line, column zero, that line trimmed, and its last line.
pub fn create_location_with_lines(decl: &DeclarationData, lines: &Vec<Vec<char>>) -> (r: Location)
    ensures
        r.line == decl.line,
        r.column == 0,
        r.code_snippet@ == snippet_at(lines@.map_values(|l: Vec<char>| l@), decl.line),
        r.end_line == Some(decl.end_line),
{
    let snippet = if decl.line >= 1 && decl.line <= lines.len() {
        trim_chars(&lines[decl.line - 1])
    } else {
        String::new()
    };
    Location { line: decl.line, column: 0, code_snippet: snippet, end_line: Some(decl.end_line) }
}

/// Where declaration `decl` stands in the program `source`, as
/// `create_location_with_lines` gives it for the lines of `source`.
pub fn create_location_stub(decl: &DeclarationData, source: &str) -> (r: Location)
    ensures
        r.line == decl.line,
        r.column == 0,
        r.code_snippet@ == snippet_at(lines_of(source@), decl.line),
        r.end_line == Some(decl.end_line),
{
    let lines = split_lines(&chars_of(source));
    create_location_with_lines(decl, &lines)
}

/// A vector of `n` times `false`.
pub(crate) fn all_false(n: usize) -> (r: Vec<bool>)
    ensures
        r@.len() == n,
        forall|i: int| 0 <= i < n ==> !(#[trigger] r@[i]),
{
    let mut r: Vec<bool> = Vec::new();
    let mut k: usize = 0;
    while k < n
        invariant
            k <= n,
            r@.len() == k,
            forall|i: int| 0 <= i < k ==> !(#[trigger] r@[i]),
        decreases n - k,
    {
        r.push(false);
        k = k + 1;
    }
    r
}

/// Matches declarations of two programs in parallel batches.
pub struct ParallelMatcherV2 {
    use_fingerprints: bool,
    batch_size: usize,
}

impl ParallelMatcherV2 {
    /// Whether scores take function fingerprints into account.
    pub closed spec fn fingerprints_on(&self) -> bool {
        self.use_fingerprints
    }

    /// How many pairs a parallel batch holds.
    pub closed spec fn batch(&self) -> usize {
        self.batch_size
    }

    /// A matcher that works in batches of a thousand pairs.
    pub fn new(use_fingerprints: bool) -> (r: ParallelMatcherV2)
        ensures
            r.fingerprints_on() == use_fingerprints,
            r.batch() == 1000,
    {
        ParallelMatcherV2 { use_fingerprints, batch_size: 1000 }
    }

    /// Whether scores take function fingerprints into account.
    pub fn uses_fingerprints(&self) -> (r: bool)
        ensures
            r == self.fingerprints_on(),
    {
        self.use_fingerprints
    }

    /// How many pairs a parallel batch holds.
    pub fn batch_size(&self) -> (r: usize)
        ensures
            r == self.batch(),
    {
        self.batch_size
    }

    /// The pairs worth scoring: for each declaration of the first program in
    /// turn, the declarations of the second program of the same kind whose
    /// size lies between half its size (at least one) and one and a half
    /// times it, in order of size, ties by position.
    pub fn build_candidate_pairs(&self, decls1: &Vec<DeclarationData>, decls2: &Vec<DeclarationData>) -> (r: Vec<
        (usize, usize),
    >)
        ensures
            forall|k: int|
                0 <= k < r@.len() ==> is_candidate(decls1@, decls2@, (#[trigger] r@[k]).0 as int, r@[k].1 as int),
            forall|i1: usize, i2: usize|
                is_candidate(decls1@, decls2@, i1 as int, i2 as int) ==> #[trigger] r@.contains((i1, i2)),
            forall|a: int, b: int| 0 <= a < b < r@.len() ==> pair_before(decls2@, #[trigger] r@[a], #[trigger] r@[b]),
    {
        let order = size_order(decls2);
        let mut pairs: Vec<(usize, usize)> = Vec::new();
        let mut i1: usize = 0;
        while i1 < decls1.len()
            invariant
                i1 <= decls1@.len(),
                order@.len() == decls2@.len(),
                by_size(decls2@, order@),
                forall|j: usize| j < decls2@.len() ==> #[trigger] order@.contains(j),
                forall|k: int|
                    0 <= k < pairs@.len() ==> is_candidate(decls1@, decls2@, (#[trigger] pairs@[k]).0 as int, pairs@[k].1 as int)
                        && pairs@[k].0 < i1,
                forall|x: usize, y: usize|
                    x < i1 && is_candidate(decls1@, decls2@, x as int, y as int) ==> #[trigger] pairs@.contains((x, y)),
                forall|a: int, b: int|
                    0 <= a < b < pairs@.len() ==> pair_before(decls2@, #[trigger] pairs@[a], #[trigger] pairs@[b]),
            decreases decls1@.len() - i1,
        {
            let s = decls1[i1].size;
            let low: usize = if s / 2 >= 1 {
                s / 2
            } else {
                1
            };
            let start = first_larger(&order, decls2, low - 1);
            let end = if s > usize::MAX - s / 2 {
                order.len()
            } else {
                first_larger(&order, decls2, s + s / 2)
            };
            assert(low == window_low(s));
            assert(forall|k: int| 0 <= k < end ==> decls2@[#[trigger] order@[k] as int].size <= window_high(s));
            let mut idx = start;
            while idx < end
                invariant
                    i1 < decls1@.len(),
                    s == decls1@[i1 as int].size,
                    low == window_low(s),
                    order@.len() == decls2@.len(),
                    by_size(decls2@, order@),
                    start <= idx,
                    idx <= end || idx == start,
                    end <= order@.len(),
                    forall|k: int| 0 <= k < start ==> decls2@[#[trigger] order@[k] as int].size <= low - 1,
                    forall|k: int| start <= k < order@.len() ==> decls2@[#[trigger] order@[k] as int].size > low - 1,
                    forall|k: int| 0 <= k < end ==> decls2@[#[trigger] order@[k] as int].size <= window_high(s),
                    forall|k: int|
                        0 <= k < pairs@.len() ==> is_candidate(decls1@, decls2@, (#[trigger] pairs@[k]).0 as int, pairs@[k].1 as int)
                            && pairs@[k].0 <= i1,
                    forall|k: int|
                        0 <= k < pairs@.len() ==> (#[trigger] pairs@[k]).0 < i1 || (pairs@[k].0 == i1 && forall|q: int|
                            idx <= q < order@.len() ==> size_before(decls2@, pairs@[k].1 as int, #[trigger] order@[q] as int)),
                    forall|x: usize, y: usize|
                        x < i1 && is_candidate(decls1@, decls2@, x as int, y as int) ==> #[trigger] pairs@.contains((x, y)),
                    forall|q: int|
                        start <= q < idx && decls1@[i1 as int].kind == decls2@[#[trigger] order@[q] as int].kind
                            ==> pairs@.contains((i1, order@[q])),
                    forall|a: int, b: int|
                        0 <= a < b < pairs@.len() ==> pair_before(decls2@, #[trigger] pairs@[a], #[trigger] pairs@[b]),
                decreases end - idx,
            {
                let i2 = order[idx];
                if decls1[i1].kind == decls2[i2].kind {
                    let ghost before = pairs@;
                    pairs.push((i1, i2));
                    proof {
                        lemma_push_contains(before, (i1, i2));
                        assert(pairs@ == before.push((i1, i2)));
                        assert forall|x: usize, y: usize|
                            x < i1 && is_candidate(decls1@, decls2@, x as int, y as int) implies #[trigger] pairs@.contains(
                            (x, y),
                        ) by {
                            assert(before.contains((x, y)));
                        }
                        assert forall|a: int, b: int| 0 <= a < b < pairs@.len() implies pair_before(
                            decls2@,
                            #[trigger] pairs@[a],
                            #[trigger] pairs@[b],
                        ) by {
                            if b == before.len() {
                                assert(pairs@[a] == before[a]);
                                assert(pairs@[b] == (i1, i2));
                            } else {
                                assert(pairs@[a] == before[a] && pairs@[b] == before[b]);
                            }
                        }
                        assert forall|k: int| 0 <= k < pairs@.len() implies (#[trigger] pairs@[k]).0 < i1 || (pairs@[k].0
                            == i1 && forall|q: int|
                            idx + 1 <= q < order@.len() ==> size_before(
                                decls2@,
                                pairs@[k].1 as int,
                                #[trigger] order@[q] as int,
                            )) by {
                            if k == before.len() {
                                assert(pairs@[k] == (i1, i2));
                            } else {
                                assert(pairs@[k] == before[k]);
                            }
                        }
                        assert forall|k: int| 0 <= k < pairs@.len() implies is_candidate(
                            decls1@,
                            decls2@,
                            (#[trigger] pairs@[k]).0 as int,
                            pairs@[k].1 as int,
                        ) && pairs@[k].0 <= i1 by {
                            if k == before.len() {
                                assert(pairs@[k] == (i1, i2));
                            } else {
                                assert(pairs@[k] == before[k]);
                            }
                        }
                    }
                }
                idx = idx + 1;
            }
            proof {
                assert forall|x: usize, y: usize|
                    x < i1 + 1 && is_candidate(decls1@, decls2@, x as int, y as int) implies #[trigger] pairs@.contains(
                    (x, y),
                ) by {
                    if x == i1 {
                        assert(order@.contains(y));
                        let q = choose|q: int| 0 <= q < order@.len() && order@[q] == y;
                        assert(decls2@[order@[q] as int].size >= low);
                        if q >= end {
                            assert(end < order@.len());
                        }
                    }
                }
            }
            i1 = i1 + 1;
        }
        pairs
    }

    /// The candidates of `pairs` that are worth a full score, in order, each
    /// marked whether its two names agree: pairs with the same name always,
    /// others when their MinHash signatures agree at three tenths or more of
    /// the positions.
    pub fn parallel_lsh_filter(
        &self,
        pairs: &Vec<(usize, usize)>,
        decls1: &Vec<DeclarationData>,
        decls2: &Vec<DeclarationData>,
    ) -> (r: Vec<(usize, usize, bool)>)
        requires
            pairs_in_range(pairs@, decls1@.len(), decls2@.len()),
        ensures
            r@ == lsh_kept(pairs@, decls1@, decls2@),
    {
        let mut kept: Vec<(usize, usize, bool)> = Vec::new();
        let mut k: usize = 0;
        while k < pairs.len()
            invariant
                k <= pairs@.len(),
                pairs_in_range(pairs@, decls1@.len(), decls2@.len()),
                kept@ == lsh_kept(pairs@.take(k as int), decls1@, decls2@),
            decreases pairs@.len() - k,
        {
            let (i1, i2) = pairs[k];
            proof {
                assert(pairs@.take(k + 1).drop_last() =~= pairs@.take(k as int));
                assert(pairs@.take(k + 1).last() == pairs@[k as int]);
                assert(pairs@[k as int].0 < decls1@.len() && pairs@[k as int].1 < decls2@.len());
            }
            if str_eq(decls1[i1].name.as_str(), decls2[i2].name.as_str()) {
                kept.push((i1, i2, true));
            } else if signatures_close(&decls1[i1].minhash_signature, &decls2[i2].minhash_signature) {
                kept.push((i1, i2, false));
            }
            k = k + 1;
        }
        proof {
            assert(pairs@.take(k as int) =~= pairs@);
        }
        kept
    }

    /// Chooses matches from the candidate pairs `ranked`, best first: a pair
    /// is taken when neither of its declarations has been taken yet. Also
    /// returns, for each taken pair whose names differ, the new name mapped
    /// to the old one (a later pair overriding an earlier one with the same
    /// new name).
    pub fn resolve_best_matches(
        &self,
        ranked: &Vec<(usize, usize)>,
        decls1: &Vec<DeclarationData>,
        decls2: &Vec<DeclarationData>,
    ) -> (r: (Vec<(usize, usize)>, Vec<(String, String)>))
        requires
            pairs_in_range(ranked@, decls1@.len(), decls2@.len()),
        ensures
            r.0@ == greedy(ranked@),
            keys_unique(r.1@),
            forall|id: Seq<char>| pair_lookup(r.1@, id) == renamed_from(r.0@, decls1@, decls2@, id),
    {
        let mut matched1 = all_false(decls1.len());
        let mut matched2 = all_false(decls2.len());
        let mut matches: Vec<(usize, usize)> = Vec::new();
        let mut renames: Vec<(String, String)> = Vec::new();
        let mut k: usize = 0;
        proof {
            assert(ranked@.take(0) =~= Seq::<(usize, usize)>::empty());
            assert forall|i: int| 0 <= i < matched1@.len() implies matched1@[i] == takes_left(
                matches@,
                i,
            ) by {}
            assert forall|i: int| 0 <= i < matched2@.len() implies matched2@[i] == takes_right(
                matches@,
                i,
            ) by {}
        }
        while k < ranked.len()
            invariant
                k <= ranked@.len(),
                pairs_in_range(ranked@, decls1@.len(), decls2@.len()),
                matched1@.len() == decls1@.len(),
                matched2@.len() == decls2@.len(),
                matches@ == greedy(ranked@.take(k as int)),
                forall|i: int| 0 <= i < matched1@.len() ==> matched1@[i] == takes_left(matches@, i),
                forall|i: int| 0 <= i < matched2@.len() ==> matched2@[i] == takes_right(matches@, i),
                keys_unique(renames@),
                forall|id: Seq<char>| pair_lookup(renames@, id) == renamed_from(matches@, decls1@, decls2@, id),
            decreases ranked@.len() - k,
        {
            let (i1, i2) = ranked[k];
            let ghost before = matches@;
            proof {
                assert(ranked@.take(k + 1).drop_last() =~= ranked@.take(k as int));
                assert(ranked@.take(k + 1).last() == ranked@[k as int]);
                assert(ranked@[k as int].0 < decls1@.len() && ranked@[k as int].1 < decls2@.len());
            }
            if !matched1[i1] && !matched2[i2] {
                let ghost m1 = matched1@;
                let ghost m2 = matched2@;
                matched1.set(i1, true);
                matched2.set(i2, true);
                matches.push((i1, i2));
                proof {
                    assert(matches@.drop_last() =~= before);
                    assert(matches@ == before.push((i1, i2)));
                    assert forall|j: int| #[trigger] takes_left(matches@, j) == (takes_left(before, j) || i1 == j)
                        && takes_right(matches@, j) == (takes_right(before, j) || i2 == j) by {
                        lemma_takes_push(before, (i1, i2), j);
                    }
                    assert(forall|i: int| 0 <= i < m1.len() ==> m1[i] == takes_left(before, i));
                    assert(forall|i: int| 0 <= i < m2.len() ==> m2[i] == takes_right(before, i));
                    assert(forall|i: int| 0 <= i < m1.len() ==> matched1@[i] == (m1[i] || i == i1));
                    assert(forall|i: int| 0 <= i < m2.len() ==> matched2@[i] == (m2[i] || i == i2));
                }
                if !str_eq(decls1[i1].name.as_str(), decls2[i2].name.as_str()) {
                    let new_name = decls2[i2].name.clone();
                    let old_name = decls1[i1].name.clone();
                    insert_pair(&mut renames, new_name, old_name);
                }
                proof {
                    assert forall|id: Seq<char>| pair_lookup(renames@, id) == renamed_from(
                        matches@,
                        decls1@,
                        decls2@,
                        id,
                    ) by {}
                }
            } else {
                proof {
                    assert(takes_left(before, i1 as int) || takes_right(before, i2 as int));
                }
            }
            k = k + 1;
        }
        proof {
            assert(ranked@.take(k as int) =~= ranked@);
        }
        (matches, renames)
    }
}

/// Whether `v` holds the word `x`.
fn word_in(v: &Vec<u64>, x: u64) -> (r: bool)
    ensures
        r == v@.contains(x),
{
    let mut j: usize = 0;
    while j < v.len()
        invariant
            j <= v@.len(),
            forall|i: int| 0 <= i < j ==> v@[i] != x,
        decreases v@.len() - j,
    {
        if v[j] == x {
            assert(v@[j as int] == x);
            return true;
        }
        j = j + 1;
    }
    false
}

/// Appends to `acc` the words of `v` that it lacks, so that it holds each
/// word of both once.
fn add_new_words(acc: &mut Vec<u64>, v: &Vec<u64>)
    requires
        old(acc)@.no_duplicates(),
    ensures
        final(acc)@.no_duplicates(),
        final(acc)@.to_set() == old(acc)@.to_set().union(v@.to_set()),
{
    let ghost a0 = acc@;
    let mut k: usize = 0;
    assert(v@.take(0).to_set() =~= Set::<u64>::empty());
    assert(a0.to_set().union(v@.take(0).to_set()) =~= a0.to_set());
    while k < v.len()
        invariant
            k <= v@.len(),
            acc@.no_duplicates(),
            acc@.to_set() == a0.to_set().union(v@.take(k as int).to_set()),
        decreases v@.len() - k,
    {
        let x = v[k];
        let ghost b = acc@;
        if !word_in(acc, x) {
            acc.push(x);
            proof {
                assert forall|i: int, j: int| 0 <= i < acc@.len() && 0 <= j < acc@.len() && i != j implies acc@[i]
                    != acc@[j] by {
                    if i < b.len() && j < b.len() {
                        assert(acc@[i] == b[i] && acc@[j] == b[j]);
                    } else if i < b.len() {
                        assert(acc@[i] == b[i]);
                    } else if j < b.len() {
                        assert(acc@[j] == b[j]);
                    }
                }
            }
        }
        proof {
            assert(v@.take(k + 1) =~= v@.take(k as int).push(x));
            v@.take(k as int).lemma_push_to_set_commute(x);
            b.lemma_push_to_set_commute(x);
            assert(acc@.to_set() =~= a0.to_set().union(v@.take(k + 1).to_set()));
        }
        k = k + 1;
    }
    assert(v@.take(v@.len() as int) =~= v@);
}

/// The words of `a` (which holds each once) that `v` holds too.
fn common_words(a: &Vec<u64>, v: &Vec<u64>) -> (r: Vec<u64>)
    requires
        a@.no_duplicates(),
    ensures
        r@.no_duplicates(),
        r@.to_set() == a@.to_set().intersect(v@.to_set()),
{
    let mut r: Vec<u64> = Vec::new();
    let mut k: usize = 0;
    assert(r@.to_set() =~= a@.take(0).to_set().intersect(v@.to_set()));
    while k < a.len()
        invariant
            k <= a@.len(),
            a@.no_duplicates(),
            r@.no_duplicates(),
            forall|y: u64| r@.contains(y) ==> a@.take(k as int).contains(y),
            r@.to_set() == a@.take(k as int).to_set().intersect(v@.to_set()),
        decreases a@.len() - k,
    {
        let x = a[k];
        let ghost b = r@;
        if word_in(v, x) {
            r.push(x);
            proof {
                assert(!b.contains(x)) by {
                    if b.contains(x) {
                        assert(a@.take(k as int).contains(x));
                        let i = choose|i: int| 0 <= i < k && a@.take(k as int)[i] == x;
                        assert(a@[i] == a@[k as int]);
                    }
                }
                assert forall|i: int, j: int| 0 <= i < r@.len() && 0 <= j < r@.len() && i != j implies r@[i]
                    != r@[j] by {
                    if i < b.len() && j < b.len() {
                        assert(r@[i] == b[i] && r@[j] == b[j]);
                    } else if i < b.len() {
                        assert(r@[i] == b[i]);
                    } else if j < b.len() {
                        assert(r@[j] == b[j]);
                    }
                }
                b.lemma_push_to_set_commute(x);
            }
        }
        proof {
            assert(a@.take(k + 1) =~= a@.take(k as int).push(x));
            a@.take(k as int).lemma_push_to_set_commute(x);
            assert forall|y: u64| r@.contains(y) implies a@.take(k + 1).contains(y) by {
                if b.contains(y) {
                    let i = choose|i: int| 0 <= i < k && a@.take(k as int)[i] == y;
                    assert(a@.take(k + 1)[i] == y);
                } else {
                    assert(y == x);
                    assert(a@.take(k + 1)[k as int] == x);
                }
            }
            assert(r@.to_set() =~= a@.take(k + 1).to_set().intersect(v@.to_set()));
        }
        k = k + 1;
    }
    assert(a@.take(a@.len() as int) =~= a@);
    r
}

/// How many distinct structural hashes two declarations share, and how many
/// distinct hashes they have together: the sizes of the intersection and of
/// the union of their hash sets.
pub fn hash_overlap(h1: &Vec<u64>, h2: &Vec<u64>) -> (r: (usize, usize))
    ensures
        r.0 == h1@.to_set().intersect(h2@.to_set()).len(),
        r.1 == h1@.to_set().union(h2@.to_set()).len(),
{
    let mut seen: Vec<u64> = Vec::new();
    assert(seen@.to_set() =~= Set::<u64>::empty());
    add_new_words(&mut seen, h1);
    assert(seen@.to_set() =~= h1@.to_set());
    let common = common_words(&seen, h2);
    add_new_words(&mut seen, h2);
    proof {
        common@.unique_seq_to_set();
        seen@.unique_seq_to_set();
    }
    (common.len(), seen.len())
}

} // verus!
