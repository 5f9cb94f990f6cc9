//! The changes that a matching of two programs' declarations shows: what
//! changed in each matched pair, and which declarations were removed or added.
use vstd::prelude::*;
use crate::diff::{Change, ChangeType, DeclarationData, Location, kind_word, join_lines};
use crate::fingerprint::{
    compute_string_diff, normalize_minified_identifiers, normalize_string_with_renames, map_identifiers,
    blank_minified, rename_by, string_views, string_changes, change_views, ChangeSpec, StringDiff, kind_counts,
    important_of,
};
use crate::mapping::keys_unique;
use crate::matcher::{create_location_with_lines, snippet_at, takes_left, takes_right, pairs_in_range, all_false, lemma_takes_push};
use crate::text::{push_str, push_char, push_range, str_eq, string_of};

verus! {

/// A location by its plain values: line, column, snippet and last line.
pub type LocationView = (usize, usize, Seq<char>, Option<usize>);

pub open spec fn location_view(l: Location) -> LocationView {
    (l.line, l.column, l.code_snippet@, l.end_line)
}

pub open spec fn opt_location_view(l: Option<Location>) -> Option<LocationView> {
    match l {
        Some(x) => Some(location_view(x)),
        None => None,
    }
}

/// A string diff by its plain values: its changes, its important changes,
/// and its counts of added, removed and modified strings.
pub type DiffView = (Seq<ChangeSpec>, Seq<ChangeSpec>, nat, nat, nat);

pub open spec fn diff_view(d: StringDiff) -> DiffView {
    (
        change_views(d.changes@),
        change_views(d.important_changes@),
        d.added_count as nat,
        d.removed_count as nat,
        d.modified_count as nat,
    )
}

pub open spec fn opt_diff_view(d: Option<StringDiff>) -> Option<DiffView> {
    match d {
        Some(x) => Some(diff_view(x)),
        None => None,
    }
}

/// The string diff that the string changes `cs` make: the changes, those of
/// them that are important, and how many strings were added, removed and
/// modified.
pub open spec fn diff_of_changes(cs: Seq<ChangeSpec>) -> DiffView {
    let k = kind_counts(cs);
    (cs, important_of(cs), k.0, k.1, k.2)
}

/// A change by its plain values: its type, where it stands in each program,
/// its description, its path and the string constant changes it carries.
pub type ChangeRecord = (
    ChangeType,
    Option<LocationView>,
    Option<LocationView>,
    Seq<char>,
    Seq<char>,
    Option<DiffView>,
);

pub open spec fn change_record(c: Change) -> ChangeRecord {
    (
        c.change_type,
        opt_location_view(c.location1),
        opt_location_view(c.location2),
        c.description@,
        c.structural_path@,
        opt_diff_view(c.string_diff),
    )
}

pub open spec fn change_records(cs: Seq<Change>) -> Seq<ChangeRecord> {
    cs.map_values(|c: Change| change_record(c))
}

/// Where declaration `d` stands in a program whose lines are `lines`.
pub open spec fn location_at(lines: Seq<Seq<char>>, d: DeclarationData) -> LocationView {
    (d.line, 0usize, snippet_at(lines, d.line), Some(d.end_line))
}

/// The lines of `d`, from its first line to its last (kept within the
/// program and not before the first), joined with newlines; nothing when the
/// first line is not in the program.
pub open spec fn decl_source(lines: Seq<Seq<char>>, d: DeclarationData) -> Seq<char> {
    if d.line == 0 || d.line > lines.len() {
        seq![]
    } else {
        let last = if d.end_line > lines.len() {
            lines.len() as int
        } else if d.end_line < d.line {
            d.line as int
        } else {
            d.end_line as int
        };
        join_lines(lines.subrange(d.line - 1, last))
    }
}

/// The string constant changes between two matched declarations, when both
/// have a fingerprint and some string changed.
pub open spec fn pair_string_changes(a: DeclarationData, b: DeclarationData) -> Option<DiffView> {
    match a.fingerprint {
        Some(f1) => match b.fingerprint {
            Some(f2) => {
                let cs = string_changes(string_views(f1.strings@), string_views(f2.strings@));
                if cs.len() == 0 {
                    None
                } else {
                    Some(diff_of_changes(cs))
                }
            },
            None => None,
        },
        None => None,
    }
}

/// The change that the matched pair `a`, `b` shows, if any. Their sources
/// are compared with minified-looking identifiers blanked, and, in the second
/// program, the renames undone first; equal sources show no change, and
/// neither does a pair with the same name, structure and strings. Otherwise
/// the change says that the structure changed (with the pair's similarity
/// `percent`), that text constants changed, or that the declaration was
/// renamed.
pub open spec fn pair_change(
    lines1: Seq<Seq<char>>,
    lines2: Seq<Seq<char>>,
    renames: Seq<(String, String)>,
    a: DeclarationData,
    b: DeclarationData,
    percent: Seq<char>,
) -> Option<ChangeRecord> {
    let renamed = a.name@ != b.name@;
    let text1 = map_identifiers(decl_source(lines1, a), 0, seq![], blank_minified());
    let text2 = map_identifiers(
        map_identifiers(decl_source(lines2, b), 0, seq![], rename_by(renames)),
        0,
        seq![],
        blank_minified(),
    );
    let same = a.structural_hashes@ == b.structural_hashes@ && a.signature@ == b.signature@;
    let sd = pair_string_changes(a, b);
    if text1 == text2 || (same && sd is None && !renamed) {
        None
    } else {
        let kind = kind_word(a.kind);
        let description = if !same {
            kind + " '"@ + b.name@ + "' structure changed ("@ + percent + "% similar)"@
        } else if sd is Some {
            kind + " '"@ + b.name@ + "' has text constant changes"@
        } else {
            kind + " '"@ + b.name@ + "' matched with '"@ + a.name@ + "' (was '"@ + a.name@ + "')"@
        };
        let path = if renamed {
            "global."@ + a.name@ + "->"@ + b.name@
        } else {
            "global."@ + a.name@
        };
        Some((ChangeType::Modification, Some(location_at(lines1, a)), Some(location_at(lines2, b)), description, path, sd))
    }
}

/// The changes of the first `k` matched pairs, in the order of the matches.
pub open spec fn modifications(
    d1: Seq<DeclarationData>,
    d2: Seq<DeclarationData>,
    m: Seq<(usize, usize)>,
    renames: Seq<(String, String)>,
    lines1: Seq<Seq<char>>,
    lines2: Seq<Seq<char>>,
    percents: Seq<Seq<char>>,
    k: int,
) -> Seq<ChangeRecord>
    decreases k,
{
    if k <= 0 {
        seq![]
    } else {
        modifications(d1, d2, m, renames, lines1, lines2, percents, k - 1) + match pair_change(
            lines1,
            lines2,
            renames,
            d1[m[k - 1].0 as int],
            d2[m[k - 1].1 as int],
            percents[k - 1],
        ) {
            Some(c) => seq![c],
            None => seq![],
        }
    }
}

/// The removal of declaration `d` of the first program.
pub open spec fn removal(lines1: Seq<Seq<char>>, d: DeclarationData) -> ChangeRecord {
    (
        ChangeType::Deletion,
        Some(location_at(lines1, d)),
        None,
        "Removed "@ + kind_word(d.kind) + " '"@ + d.name@ + "'"@,
        "global."@ + d.name@,
        None,
    )
}

/// The addition of declaration `d` of the second program.
pub open spec fn addition(lines2: Seq<Seq<char>>, d: DeclarationData) -> ChangeRecord {
    (
        ChangeType::Addition,
        None,
        Some(location_at(lines2, d)),
        "Added "@ + kind_word(d.kind) + " '"@ + d.name@ + "'"@,
        "global."@ + d.name@,
        None,
    )
}

/// One removal for each of the first `k` declarations of the first program
/// that no match takes, in order.
pub open spec fn removals(d1: Seq<DeclarationData>, m: Seq<(usize, usize)>, lines1: Seq<Seq<char>>, k: int) -> Seq<
    ChangeRecord,
>
    decreases k,
{
    if k <= 0 {
        seq![]
    } else {
        removals(d1, m, lines1, k - 1) + if takes_left(m, k - 1) {
            seq![]
        } else {
            seq![removal(lines1, d1[k - 1])]
        }
    }
}

/// One addition for each of the first `k` declarations of the second program
/// that no match takes, in order.
pub open spec fn additions(d2: Seq<DeclarationData>, m: Seq<(usize, usize)>, lines2: Seq<Seq<char>>, k: int) -> Seq<
    ChangeRecord,
>
    decreases k,
{
    if k <= 0 {
        seq![]
    } else {
        additions(d2, m, lines2, k - 1) + if takes_right(m, k - 1) {
            seq![]
        } else {
            seq![addition(lines2, d2[k - 1])]
        }
    }
}

/// All changes: those of the matched pairs, then the removals, then the
/// additions.
pub open spec fn changes_spec(
    d1: Seq<DeclarationData>,
    d2: Seq<DeclarationData>,
    m: Seq<(usize, usize)>,
    renames: Seq<(String, String)>,
    lines1: Seq<Seq<char>>,
    lines2: Seq<Seq<char>>,
    percents: Seq<Seq<char>>,
) -> Seq<ChangeRecord> {
    modifications(d1, d2, m, renames, lines1, lines2, percents, m.len() as int) + removals(
        d1,
        m,
        lines1,
        d1.len() as int,
    ) + additions(d2, m, lines2, d2.len() as int)
}

/// How many of the indices below `k` some pair of `m` takes on the left
/// (`left`) or on the right.
pub open spec fn taken_below(m: Seq<(usize, usize)>, k: int, left: bool) -> nat
    decreases k,
{
    if k <= 0 {
        0
    } else {
        taken_below(m, k - 1, left) + if (if left { takes_left(m, k - 1) } else { takes_right(m, k - 1) }) {
            1nat
        } else {
            0nat
        }
    }
}

proof fn lemma_removals_len(d1: Seq<DeclarationData>, m: Seq<(usize, usize)>, lines1: Seq<Seq<char>>, k: int)
    requires
        0 <= k,
    ensures
        removals(d1, m, lines1, k).len() == k - taken_below(m, k, true),
    decreases k,
{
    if k > 0 {
        lemma_removals_len(d1, m, lines1, k - 1);
    }
}

proof fn lemma_additions_len(d2: Seq<DeclarationData>, m: Seq<(usize, usize)>, lines2: Seq<Seq<char>>, k: int)
    requires
        0 <= k,
    ensures
        additions(d2, m, lines2, k).len() == k - taken_below(m, k, false),
    decreases k,
{
    if k > 0 {
        lemma_additions_len(d2, m, lines2, k - 1);
    }
}

/// Adding a pair whose index `x` no earlier pair takes raises the count
/// below `k` by one when `x < k`.
proof fn lemma_taken_push(m: Seq<(usize, usize)>, p: (usize, usize), k: int, left: bool)
    requires
        0 <= k,
        left ==> !takes_left(m, p.0 as int),
        !left ==> !takes_right(m, p.1 as int),
    ensures
        taken_below(m.push(p), k, left) == taken_below(m, k, left) + if (if left { (p.0 as int) < k } else { (p.1 as int) < k }) {
            1nat
        } else {
            0nat
        },
    decreases k,
{
    if k > 0 {
        lemma_taken_push(m, p, k - 1, left);
        lemma_takes_push(m, p, k - 1);
    }
}

/// With pairs that take distinct indices below `n` on the chosen side, `n`
/// indices of which are taken exactly as many as there are pairs.
proof fn lemma_taken_all(m: Seq<(usize, usize)>, n: int, left: bool)
    requires
        0 <= n,
        forall|a: int| 0 <= a < m.len() ==> (if left { (#[trigger] m[a]).0 < n } else { m[a].1 < n }),
        forall|a: int, b: int|
            0 <= a < b < m.len() ==> (if left { (#[trigger] m[a]).0 != (#[trigger] m[b]).0 } else { m[a].1 != m[b].1 }),
    ensures
        taken_below(m, n, left) == m.len(),
    decreases m.len(),
{
    if m.len() == 0 {
        lemma_taken_none(m, n, left);
    } else {
        let r = m.drop_last();
        let p = m.last();
        assert(m == r.push(p));
        assert forall|a: int| 0 <= a < r.len() implies (if left { (#[trigger] r[a]).0 < n } else { r[a].1 < n }) by {
            assert(r[a] == m[a]);
        }
        assert forall|a: int, b: int| 0 <= a < b < r.len() implies (if left { (#[trigger] r[a]).0 != (#[trigger] r[b]).0 } else {
            r[a].1 != r[b].1
        }) by {
            assert(r[a] == m[a] && r[b] == m[b]);
        }
        lemma_taken_all(r, n, left);
        if left {
            if takes_left(r, p.0 as int) {
                let a = choose|a: int| 0 <= a < r.len() && (#[trigger] r[a]).0 == p.0 as int;
                assert(m[a] == r[a] && m[m.len() - 1] == p);
            }
        } else {
            if takes_right(r, p.1 as int) {
                let a = choose|a: int| 0 <= a < r.len() && (#[trigger] r[a]).1 == p.1 as int;
                assert(m[a] == r[a] && m[m.len() - 1] == p);
            }
        }
        assert(m[m.len() - 1] == p);
        lemma_taken_push(r, p, n, left);
    }
}

proof fn lemma_taken_none(m: Seq<(usize, usize)>, k: int, left: bool)
    requires
        m.len() == 0,
    ensures
        taken_below(m, k, left) == 0,
    decreases k,
{
    if k > 0 {
        lemma_taken_none(m, k - 1, left);
    }
}

/// When the matches are one to one and name declarations of the two
/// programs, the changes hold one removal for each declaration of the first
/// program left unmatched and one addition for each of the second: as many
/// removals as the first program has declarations beyond the matches, and as
/// many additions as the second has.
pub proof fn lemma_removals_and_additions_count(
    d1: Seq<DeclarationData>,
    d2: Seq<DeclarationData>,
    m: Seq<(usize, usize)>,
    lines1: Seq<Seq<char>>,
    lines2: Seq<Seq<char>>,
)
    requires
        pairs_in_range(m, d1.len(), d2.len()),
        forall|a: int, b: int|
            0 <= a < b < m.len() ==> (#[trigger] m[a]).0 != (#[trigger] m[b]).0 && m[a].1 != m[b].1,
    ensures
        removals(d1, m, lines1, d1.len() as int).len() == d1.len() - m.len(),
        additions(d2, m, lines2, d2.len() as int).len() == d2.len() - m.len(),
{
    lemma_removals_len(d1, m, lines1, d1.len() as int);
    lemma_additions_len(d2, m, lines2, d2.len() as int);
    lemma_taken_all(m, d1.len() as int, true);
    lemma_taken_all(m, d2.len() as int, false);
}

/// The lines `a..b` of `lines` joined with newlines.
fn join_range(lines: &Vec<Vec<char>>, a: usize, b: usize) -> (r: String)
    requires
        a < b <= lines@.len(),
    ensures
        r@ == join_lines(lines@.map_values(|l: Vec<char>| l@).subrange(a as int, b as int)),
{
    let ghost ls = lines@.map_values(|l: Vec<char>| l@);
    let mut r = String::new();
    let mut k: usize = a;
    while k < b
        invariant
            a <= k <= b,
            b <= lines@.len(),
            ls == lines@.map_values(|l: Vec<char>| l@),
            k == a ==> r@ == Seq::<char>::empty(),
            k > a ==> r@ == join_lines(ls.subrange(a as int, k as int)),
        decreases b - k,
    {
        let ghost prev = r@;
        if k > a {
            push_char(&mut r, '\n');
        }
        let ghost before = r@;
        push_range(&mut r, &lines[k], 0, lines[k].len());
        proof {
            assert(lines@[k as int]@.subrange(0, lines@[k as int]@.len() as int) =~= ls[k as int]);
            let sub = ls.subrange(a as int, k + 1);
            if k > a {
                reveal_strlit("\n");
                assert(sub.drop_last() =~= ls.subrange(a as int, k as int));
                assert(sub.last() == ls[k as int]);
                assert(r@ =~= join_lines(sub.drop_last()) + "\n"@ + sub.last());
            } else {
                assert(sub =~= seq![ls[k as int]]);
                assert(r@ =~= ls[k as int]);
            }
        }
        k = k + 1;
    }
    r
}

/// The source of declaration `d` in a program whose lines are `lines`.
fn source_of(lines: &Vec<Vec<char>>, d: &DeclarationData) -> (r: String)
    ensures
        r@ == decl_source(lines@.map_values(|l: Vec<char>| l@), *d),
{
    if d.line == 0 || d.line > lines.len() {
        return String::new();
    }
    let last = if d.end_line > lines.len() {
        lines.len()
    } else if d.end_line < d.line {
        d.line
    } else {
        d.end_line
    };
    join_range(lines, d.line - 1, last)
}

/// Whether `a` and `b` hold the same words.
fn same_words(a: &Vec<u64>, b: &Vec<u64>) -> (r: bool)
    ensures
        r == (a@ == b@),
{
    if a.len() != b.len() {
        return false;
    }
    let mut k: usize = 0;
    while k < a.len()
        invariant
            k <= a@.len(),
            a@.len() == b@.len(),
            forall|i: int| 0 <= i < k ==> a@[i] == b@[i],
        decreases a@.len() - k,
    {
        if a[k] != b[k] {
            return false;
        }
        k = k + 1;
    }
    assert(a@ =~= b@);
    true
}

/// The string diff of a matched pair, when both have a fingerprint and some
/// string changed.
fn pair_string_diff(a: &DeclarationData, b: &DeclarationData) -> (r: Option<StringDiff>)
    ensures
        opt_diff_view(r) == pair_string_changes(*a, *b),
{
    match &a.fingerprint {
        Some(f1) => match &b.fingerprint {
            Some(f2) => {
                let d = compute_string_diff(f1, f2);
                if d.is_empty() {
                    None
                } else {
                    Some(d)
                }
            },
            None => None,
        },
        None => None,
    }
}

/// The change that the matched pair `a`, `b` shows, if any; `percent` is
/// their similarity as text.
fn change_of_pair(
    lines1: &Vec<Vec<char>>,
    lines2: &Vec<Vec<char>>,
    renames: &Vec<(String, String)>,
    a: &DeclarationData,
    b: &DeclarationData,
    percent: &String,
) -> (r: Option<Change>)
    requires
        keys_unique(renames@),
    ensures
        match r {
            Some(c) => pair_change(
                lines1@.map_values(|l: Vec<char>| l@),
                lines2@.map_values(|l: Vec<char>| l@),
                renames@,
                *a,
                *b,
                percent@,
            ) == Some(change_record(c)),
            None => pair_change(
                lines1@.map_values(|l: Vec<char>| l@),
                lines2@.map_values(|l: Vec<char>| l@),
                renames@,
                *a,
                *b,
                percent@,
            ) is None,
        },
{
    let renamed = !str_eq(a.name.as_str(), b.name.as_str());
    let src1 = source_of(lines1, a);
    let src2 = source_of(lines2, b);
    let text1 = normalize_minified_identifiers(src1.as_str());
    let undone = normalize_string_with_renames(src2.as_str(), renames);
    let text2 = normalize_minified_identifiers(undone.as_str());
    let same = same_words(&a.structural_hashes, &b.structural_hashes) && str_eq(
        a.signature.as_str(),
        b.signature.as_str(),
    );
    let sd = pair_string_diff(a, b);
    if str_eq(text1.as_str(), text2.as_str()) || (same && sd.is_none() && !renamed) {
        return None;
    }
    let mut description = a.kind.to_word();
    push_str(&mut description, " '");
    push_str(&mut description, b.name.as_str());
    if !same {
        push_str(&mut description, "' structure changed (");
        push_str(&mut description, percent.as_str());
        push_str(&mut description, "% similar)");
    } else if sd.is_some() {
        push_str(&mut description, "' has text constant changes");
    } else {
        push_str(&mut description, "' matched with '");
        push_str(&mut description, a.name.as_str());
        push_str(&mut description, "' (was '");
        push_str(&mut description, a.name.as_str());
        push_str(&mut description, "')");
    }
    let mut path = string_of("global.");
    push_str(&mut path, a.name.as_str());
    if renamed {
        push_str(&mut path, "->");
        push_str(&mut path, b.name.as_str());
    }
    Some(
        Change {
            change_type: ChangeType::Modification,
            location1: Some(create_location_with_lines(a, lines1)),
            location2: Some(create_location_with_lines(b, lines2)),
            description,
            structural_path: path,
            string_diff: sd,
        },
    )
}

/// For each index below `n`, whether some pair of `m` takes it on the left
/// side (`left`) or on the right side.
fn taken_flags(n: usize, m: &Vec<(usize, usize)>, left: bool) -> (r: Vec<bool>)
    requires
        forall|k: int| 0 <= k < m@.len() ==> (if left { (#[trigger] m@[k]).0 < n } else { m@[k].1 < n }),
    ensures
        r@.len() == n,
        forall|i: int|
            0 <= i < n ==> #[trigger] r@[i] == (if left {
                takes_left(m@, i)
            } else {
                takes_right(m@, i)
            }),
{
    let mut r = all_false(n);
    let mut j: usize = 0;
    assert(m@.take(0) =~= Seq::<(usize, usize)>::empty());
    while j < m.len()
        invariant
            j <= m@.len(),
            r@.len() == n,
            forall|k: int| 0 <= k < m@.len() ==> (if left { (#[trigger] m@[k]).0 < n } else { m@[k].1 < n }),
            forall|i: int|
                0 <= i < n ==> #[trigger] r@[i] == (if left {
                    takes_left(m@.take(j as int), i)
                } else {
                    takes_right(m@.take(j as int), i)
                }),
        decreases m@.len() - j,
    {
        let p = m[j];
        assert(m@[j as int] == p);
        let idx = if left {
            p.0
        } else {
            p.1
        };
        r.set(idx, true);
        proof {
            assert(m@.take(j + 1) =~= m@.take(j as int).push(p));
            assert forall|i: int| 0 <= i < n implies #[trigger] r@[i] == (if left {
                takes_left(m@.take(j + 1), i)
            } else {
                takes_right(m@.take(j + 1), i)
            }) by {
                lemma_takes_push(m@.take(j as int), p, i);
            }
        }
        j = j + 1;
    }
    assert(m@.take(m@.len() as int) =~= m@);
    r
}

/// The removal of declaration `d` of the first program.
fn removal_of(lines1: &Vec<Vec<char>>, d: &DeclarationData) -> (r: Change)
    ensures
        change_record(r) == removal(lines1@.map_values(|l: Vec<char>| l@), *d),
{
    let mut description = string_of("Removed ");
    let w = d.kind.to_word();
    push_str(&mut description, w.as_str());
    push_str(&mut description, " '");
    push_str(&mut description, d.name.as_str());
    push_str(&mut description, "'");
    let mut path = string_of("global.");
    push_str(&mut path, d.name.as_str());
    Change {
        change_type: ChangeType::Deletion,
        location1: Some(create_location_with_lines(d, lines1)),
        location2: None,
        description,
        structural_path: path,
        string_diff: None,
    }
}

/// The addition of declaration `d` of the second program.
fn addition_of(lines2: &Vec<Vec<char>>, d: &DeclarationData) -> (r: Change)
    ensures
        change_record(r) == addition(lines2@.map_values(|l: Vec<char>| l@), *d),
{
    let mut description = string_of("Added ");
    let w = d.kind.to_word();
    push_str(&mut description, w.as_str());
    push_str(&mut description, " '");
    push_str(&mut description, d.name.as_str());
    push_str(&mut description, "'");
    let mut path = string_of("global.");
    push_str(&mut path, d.name.as_str());
    Change {
        change_type: ChangeType::Addition,
        location1: None,
        location2: Some(create_location_with_lines(d, lines2)),
        description,
        structural_path: path,
        string_diff: None,
    }
}

/// The changes that the matches `matches` of the declarations `decls1` of
/// one program to the declarations `decls2` of another show: for each
/// matched pair in turn the change it shows, if any (see `pair_change`; the
/// renames, new name to old, are undone in the second program's text, and
/// `percents` gives each match's similarity as text); then one removal for
/// each declaration of the first program that no match takes, and one
/// addition for each of the second, in order. `lines1` and `lines2` are the
/// programs' lines.
pub fn match_changes(
    decls1: &Vec<DeclarationData>,
    decls2: &Vec<DeclarationData>,
    matches: &Vec<(usize, usize)>,
    renames: &Vec<(String, String)>,
    lines1: &Vec<Vec<char>>,
    lines2: &Vec<Vec<char>>,
    percents: &Vec<String>,
) -> (r: Vec<Change>)
    requires
        pairs_in_range(matches@, decls1@.len(), decls2@.len()),
        keys_unique(renames@),
        percents@.len() == matches@.len(),
    ensures
        change_records(r@) == changes_spec(
            decls1@,
            decls2@,
            matches@,
            renames@,
            lines1@.map_values(|l: Vec<char>| l@),
            lines2@.map_values(|l: Vec<char>| l@),
            percents@.map_values(|s: String| s@),
        ),
{
    let ghost l1 = lines1@.map_values(|l: Vec<char>| l@);
    let ghost l2 = lines2@.map_values(|l: Vec<char>| l@);
    let ghost ps = percents@.map_values(|s: String| s@);
    let mut out: Vec<Change> = Vec::new();
    let mut k: usize = 0;
    assert(change_records(out@) =~= Seq::<ChangeRecord>::empty());
    while k < matches.len()
        invariant
            k <= matches@.len(),
            pairs_in_range(matches@, decls1@.len(), decls2@.len()),
            keys_unique(renames@),
            percents@.len() == matches@.len(),
            l1 == lines1@.map_values(|l: Vec<char>| l@),
            l2 == lines2@.map_values(|l: Vec<char>| l@),
            ps == percents@.map_values(|s: String| s@),
            change_records(out@) == modifications(decls1@, decls2@, matches@, renames@, l1, l2, ps, k as int),
        decreases matches@.len() - k,
    {
        let (i1, i2) = matches[k];
        assert(matches@[k as int] == (i1, i2));
        let ghost before = out@;
        match change_of_pair(lines1, lines2, renames, &decls1[i1], &decls2[i2], &percents[k]) {
            Some(c) => {
                out.push(c);
                proof {
                    assert(change_records(out@) =~= change_records(before).push(change_record(c)));
                }
            },
            None => {},
        }
        proof {
            assert(ps[k as int] == percents@[k as int]@);
            let tail = match pair_change(l1, l2, renames@, decls1@[i1 as int], decls2@[i2 as int], ps[k as int]) {
                Some(c) => seq![c],
                None => Seq::<ChangeRecord>::empty(),
            };
            assert(change_records(out@) =~= change_records(before) + tail);
        }
        k = k + 1;
    }
    let ghost mods = change_records(out@);
    let flags1 = taken_flags(decls1.len(), matches, true);
    let mut i: usize = 0;
    while i < decls1.len()
        invariant
            i <= decls1@.len(),
            flags1@.len() == decls1@.len(),
            forall|j: int| 0 <= j < decls1@.len() ==> #[trigger] flags1@[j] == takes_left(matches@, j),
            l1 == lines1@.map_values(|l: Vec<char>| l@),
            change_records(out@) == mods + removals(decls1@, matches@, l1, i as int),
        decreases decls1@.len() - i,
    {
        let ghost before = out@;
        assert(flags1@[i as int] == takes_left(matches@, i as int));
        if !flags1[i] {
            let c = removal_of(lines1, &decls1[i]);
            out.push(c);
            assert(change_records(out@) =~= change_records(before).push(change_record(c)));
        }
        assert(change_records(out@) =~= mods + removals(decls1@, matches@, l1, i + 1));
        i = i + 1;
    }
    let ghost rems = change_records(out@);
    let flags2 = taken_flags(decls2.len(), matches, false);
    let mut i: usize = 0;
    while i < decls2.len()
        invariant
            i <= decls2@.len(),
            flags2@.len() == decls2@.len(),
            forall|j: int| 0 <= j < decls2@.len() ==> #[trigger] flags2@[j] == takes_right(matches@, j),
            l2 == lines2@.map_values(|l: Vec<char>| l@),
            change_records(out@) == rems + additions(decls2@, matches@, l2, i as int),
        decreases decls2@.len() - i,
    {
        let ghost before = out@;
        assert(flags2@[i as int] == takes_right(matches@, i as int));
        if !flags2[i] {
            let c = addition_of(lines2, &decls2[i]);
            out.push(c);
            assert(change_records(out@) =~= change_records(before).push(change_record(c)));
        }
        assert(change_records(out@) =~= rems + additions(decls2@, matches@, l2, i + 1));
        i = i + 1;
    }
    out
}

} // verus!
