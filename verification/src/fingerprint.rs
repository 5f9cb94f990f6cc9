//! Fingerprints of functions: the string constants, notable numbers,
//! regular expressions and API calls inside them, and how the strings of two
//! versions differ.
use vstd::prelude::*;
use crate::syntax::SyntaxTree;
use crate::mapping::{pair_lookup, keys_unique, get_pair, all_ws};
use crate::text::{
    utf8_len, byte_len, replace_all, replace_chars, parse_i64, str_parse_i64, ident_start, ident_continue,
    is_ident_start, is_ident_continue, push_char, push_str, string_of, string_of_chars, chars_of, str_eq, is_ws,
    char_is_ws, contains_seq, occurs_at, str_contains, str_starts_with, str_ends_with, count_char, count_char_in,
    parses_as_float, parses_as_float_exec, string_of_range,
};

verus! {

#[derive(Debug, Clone)]
pub struct StringFingerprint {
    pub value: String,
    pub context: StringContext,
}

/// What a string constant looks like it is.
#[derive(Debug, Clone, Copy, PartialEq, Eq, Structural)]
pub enum StringContext {
    ErrorMessage,
    ConfigKey,
    ApiEndpoint,
    FilePath,
    CommandName,
    Regular,
}

#[derive(Debug, Clone)]
pub enum ConstantValue {
    Number(i64),
    /// A number that is not an integer, as written.
    Float(String),
    Regex(String),
    /// A common timer value.
    Duration(u64),
}

#[derive(Debug, Clone)]
pub struct ConstantFingerprint {
    pub value: ConstantValue,
}

#[derive(Debug, Clone)]
pub struct ApiCallFingerprint {
    pub object: Option<String>,
    pub method: String,
    pub first_arg: Option<String>,
}

#[derive(Debug, Clone)]
pub struct FunctionFingerprint {
    pub strings: Vec<StringFingerprint>,
    pub constants: Vec<ConstantFingerprint>,
    pub api_calls: Vec<ApiCallFingerprint>,
    pub size: usize,
}

/// How much a string matters, by its length in characters.
#[derive(Debug, Clone, Copy, PartialEq, Eq, Structural)]
pub enum StringImportance {
    /// Over 500 characters.
    SystemPrompt,
    /// 100 to 500 characters.
    LongText,
    /// 20 to 99 characters.
    Medium,
    /// Under 20 characters.
    Short,
}

/// A constant as plain values.
pub enum ConstSpec {
    Number(i64),
    Float(Seq<char>),
    Regex(Seq<char>),
    Duration(u64),
}

pub open spec fn const_view(c: ConstantValue) -> ConstSpec {
    match c {
        ConstantValue::Number(n) => ConstSpec::Number(n),
        ConstantValue::Float(s) => ConstSpec::Float(s@),
        ConstantValue::Regex(s) => ConstSpec::Regex(s@),
        ConstantValue::Duration(d) => ConstSpec::Duration(d),
    }
}

/// An API call as plain values: object path, method, literal first argument.
pub type ApiView = (Option<Seq<char>>, Seq<char>, Option<Seq<char>>);

pub open spec fn opt_view(o: Option<String>) -> Option<Seq<char>> {
    match o {
        Some(s) => Some(s@),
        None => None,
    }
}

pub open spec fn api_view(a: ApiCallFingerprint) -> ApiView {
    (opt_view(a.object), a.method@, opt_view(a.first_arg))
}

/// The lower-case form of `s`, as `str::to_lowercase` gives it.
pub uninterp spec fn lowercase(s: Seq<char>) -> Seq<char>;

/// Whether `c` is alphanumeric, as `char::is_alphanumeric` says.
pub uninterp spec fn alphanumeric(c: char) -> bool;

/// `str::to_lowercase`: the Unicode lower-case mapping of `s`, named
/// `lowercase` and not spelled out.
#[verifier::external_body]
fn to_lowercase(s: &str) -> (r: String)
    ensures
        r@ == lowercase(s@),
{
    s.to_lowercase()
}

/// `char::is_alphanumeric`: the Unicode Alphabetic or Numeric property,
/// named `alphanumeric` and not spelled out.
#[verifier::external_body]
fn is_alphanumeric(c: char) -> (r: bool)
    ensures
        r == alphanumeric(c),
{
    c.is_alphanumeric()
}

/// The importance of a string of `n` characters: Short under 20, Medium
/// under 100, LongText up to 500, SystemPrompt over 500.
pub open spec fn importance_of(n: nat) -> StringImportance {
    if n < 20 {
        StringImportance::Short
    } else if n < 100 {
        StringImportance::Medium
    } else if n <= 500 {
        StringImportance::LongText
    } else {
        StringImportance::SystemPrompt
    }
}

impl StringFingerprint {
    /// How important the string is, by its length in characters.
    pub fn importance(&self) -> (r: StringImportance)
        ensures
            r == importance_of(self.value@.len()),
    {
        let n = chars_of(self.value.as_str()).len();
        if n < 20 {
            StringImportance::Short
        } else if n < 100 {
            StringImportance::Medium
        } else if n <= 500 {
            StringImportance::LongText
        } else {
            StringImportance::SystemPrompt
        }
    }
}

/// The identifier `cur` as `f` rewrites it (nothing when it is empty).
pub open spec fn flush_ident(cur: Seq<char>, f: spec_fn(Seq<char>) -> Seq<char>) -> Seq<char> {
    if cur.len() > 0 {
        f(cur)
    } else {
        seq![]
    }
}

/// `s` from position `k` on, `cur` being the identifier read so far, with
/// every identifier (an ASCII letter, `_` or `$`, then also digits) replaced
/// by `f` of it and every other character kept.
pub open spec fn map_identifiers(s: Seq<char>, k: int, cur: Seq<char>, f: spec_fn(Seq<char>) -> Seq<char>) -> Seq<
    char,
>
    decreases s.len() - k,
{
    if k < 0 || k >= s.len() {
        flush_ident(cur, f)
    } else if cur.len() > 0 && ident_continue(s[k]) {
        map_identifiers(s, k + 1, cur.push(s[k]), f)
    } else if ident_start(s[k]) {
        flush_ident(cur, f) + map_identifiers(s, k + 1, seq![s[k]], f)
    } else {
        flush_ident(cur, f) + seq![s[k]] + map_identifiers(s, k + 1, seq![], f)
    }
}

/// Renames an identifier by `rename_map`, keeping it when the map has no entry.
pub open spec fn rename_by(rename_map: Seq<(String, String)>) -> spec_fn(Seq<char>) -> Seq<char> {
    |id: Seq<char>|
        match pair_lookup(rename_map, id) {
            Some(v) => v,
            None => id,
        }
}

/// Whether identifier `s` looks minified: at most four bytes.
pub open spec fn is_minified(s: Seq<char>) -> bool {
    utf8_len(s) <= 4
}

/// Replaces a minified-looking identifier by `_`.
pub open spec fn blank_minified() -> spec_fn(Seq<char>) -> Seq<char> {
    |id: Seq<char>|
        if is_minified(id) {
            seq!['_']
        } else {
            id
        }
}

/// `s` with every identifier renamed by `rename_map` (new name to old).
pub fn normalize_string_with_renames(s: &str, rename_map: &Vec<(String, String)>) -> (r: String)
    requires
        keys_unique(rename_map@),
    ensures
        r@ == map_identifiers(s@, 0, seq![], rename_by(rename_map@)),
{
    let ghost f = rename_by(rename_map@);
    let v = chars_of(s);
    let mut out = String::new();
    let mut cur: Vec<char> = Vec::new();
    let mut k: usize = 0;
    assert(out@ + map_identifiers(s@, 0, seq![], f) =~= map_identifiers(s@, 0, seq![], f));
    while k < v.len()
        invariant
            k <= v@.len(),
            v@ == s@,
            keys_unique(rename_map@),
            f == rename_by(rename_map@),
            out@ + map_identifiers(s@, k as int, cur@, f) == map_identifiers(s@, 0, seq![], f),
        decreases v@.len() - k,
    {
        let c = v[k];
        let ghost before = out@;
        let ghost cur0 = cur@;
        if cur.len() > 0 && is_ident_continue(c) {
            cur.push(c);
        } else {
            if cur.len() > 0 {
                let id = string_of_chars(&cur);
                match get_pair(rename_map, id.as_str()) {
                    Some(old_name) => push_str(&mut out, old_name.as_str()),
                    None => push_str(&mut out, id.as_str()),
                }
            }
            assert(out@ == before + flush_ident(cur0, f));
            cur = Vec::new();
            if is_ident_start(c) {
                cur.push(c);
                assert(cur@ =~= seq![c]);
            } else {
                push_char(&mut out, c);
            }
        }
        assert(out@ + map_identifiers(s@, k + 1, cur@, f) =~= before + map_identifiers(s@, k as int, cur0, f));
        k = k + 1;
    }
    let ghost before = out@;
    if cur.len() > 0 {
        let id = string_of_chars(&cur);
        match get_pair(rename_map, id.as_str()) {
            Some(old_name) => push_str(&mut out, old_name.as_str()),
            None => push_str(&mut out, id.as_str()),
        }
    }
    assert(out@ =~= before + map_identifiers(s@, k as int, cur@, f));
    out
}

/// `s` with every identifier of at most four bytes replaced by `_`.
pub open spec fn blank_identifiers(s: Seq<char>) -> Seq<char> {
    map_identifiers(s, 0, seq![], blank_minified())
}

/// Whether `g` is one whole identifier: an ASCII letter, `_` or `$`, then
/// also digits.
pub open spec fn ident_shaped(g: Seq<char>) -> bool {
    &&& g.len() > 0
    &&& ident_start(g[0])
    &&& forall|i: int| 1 <= i < g.len() ==> ident_continue(#[trigger] g[i])
}

/// Where the identifier run of `s` that reaches position `i` ends.
pub open spec fn ident_end(s: Seq<char>, i: int) -> int
    decreases s.len() - i,
{
    if i >= s.len() || !ident_continue(s[i]) {
        i
    } else {
        ident_end(s, i + 1)
    }
}

proof fn lemma_ident_end(s: Seq<char>, i: int)
    requires
        0 <= i <= s.len(),
    ensures
        i <= ident_end(s, i) <= s.len(),
        forall|m: int| i <= m < ident_end(s, i) ==> ident_continue(#[trigger] s[m]),
        ident_end(s, i) < s.len() ==> !ident_continue(s[ident_end(s, i)]),
    decreases s.len() - i,
{
    if i < s.len() && ident_continue(s[i]) {
        lemma_ident_end(s, i + 1);
    }
}

/// Reading `a + b` from inside `b` is reading `b`.
proof fn lemma_map_shift(a: Seq<char>, b: Seq<char>, k: int, cur: Seq<char>, f: spec_fn(Seq<char>) -> Seq<char>)
    requires
        0 <= k,
    ensures
        map_identifiers(a + b, a.len() + k, cur, f) == map_identifiers(b, k, cur, f),
    decreases b.len() - k,
{
    if k < b.len() {
        assert((a + b)[a.len() + k] == b[k]);
        lemma_map_shift(a, b, k + 1, cur.push(b[k]), f);
        lemma_map_shift(a, b, k + 1, seq![b[k]], f);
        lemma_map_shift(a, b, k + 1, seq![], f);
    }
}

/// A text that starts with a character that starts no identifier keeps it
/// and goes on with the rest.
proof fn lemma_plain_first(x: Seq<char>, f: spec_fn(Seq<char>) -> Seq<char>)
    requires
        x.len() > 0,
        !ident_start(x[0]),
    ensures
        map_identifiers(x, 0, seq![], f) == seq![x[0]] + map_identifiers(x.skip(1), 0, seq![], f),
{
    assert(x =~= seq![x[0]] + x.skip(1));
    lemma_map_shift(seq![x[0]], x.skip(1), 0, seq![], f);
    assert(flush_ident(seq![], f) =~= Seq::<char>::empty());
    assert(map_identifiers(x, 0, seq![], f) =~= seq![x[0]] + map_identifiers(x, 1, seq![], f));
}

/// The identifier `g` read up to position `i`, then on to its end.
proof fn lemma_ident_run(g: Seq<char>, y: Seq<char>, i: int, f: spec_fn(Seq<char>) -> Seq<char>)
    requires
        ident_shaped(g),
        1 <= i <= g.len(),
    ensures
        map_identifiers(g + y, i, g.take(i), f) == map_identifiers(g + y, g.len() as int, g, f),
    decreases g.len() - i,
{
    if i < g.len() {
        assert((g + y)[i] == g[i]);
        assert(ident_continue(g[i]));
        assert(g.take(i).push(g[i]) =~= g.take(i + 1));
        lemma_ident_run(g, y, i + 1, f);
    } else {
        assert(g.take(i) =~= g);
    }
}

/// A text that starts with the whole identifier `g` gives `f(g)`, then the
/// rest read afresh.
proof fn lemma_ident_first(g: Seq<char>, y: Seq<char>, f: spec_fn(Seq<char>) -> Seq<char>)
    requires
        ident_shaped(g),
        y.len() > 0 ==> !ident_continue(y[0]),
    ensures
        map_identifiers(g + y, 0, seq![], f) == f(g) + map_identifiers(y, 0, seq![], f),
{
    let x = g + y;
    assert(x[0] == g[0]);
    assert(seq![g[0]] =~= g.take(1));
    assert(flush_ident(seq![], f) =~= Seq::<char>::empty());
    assert(map_identifiers(x, 0, seq![], f) =~= map_identifiers(x, 1, g.take(1), f));
    lemma_ident_run(g, y, 1, f);
    if y.len() == 0 {
        assert(x =~= g);
        assert(map_identifiers(y, 0, seq![], f) =~= Seq::<char>::empty());
        assert(f(g) + Seq::<char>::empty() =~= f(g));
    } else {
        assert(x[g.len() as int] == y[0]);
        lemma_map_shift(g, y, 1, seq![], f);
        lemma_plain_first(y, f);
        lemma_map_shift(seq![y[0]], y.skip(1), 0, seq![], f);
        assert(y =~= seq![y[0]] + y.skip(1));
        assert(map_identifiers(x, g.len() as int, g, f) =~= f(g) + seq![y[0]] + map_identifiers(x, g.len() + 1int, seq![], f));
        assert(map_identifiers(y, 1, seq![], f) == map_identifiers(y.skip(1), 0, seq![], f)) by {
            lemma_map_shift(seq![y[0]], y.skip(1), 0, seq![], f);
        }
        assert(f(g) + seq![y[0]] + map_identifiers(y.skip(1), 0, seq![], f) =~= f(g) + (seq![y[0]]
            + map_identifiers(y.skip(1), 0, seq![], f)));
    }
}

/// Blanking minified identifiers is idempotent and never lengthens the
/// text: blanking the result again changes nothing, and the result has at
/// most as many characters as the text.
pub proof fn lemma_minified_idempotent(s: Seq<char>)
    ensures
        blank_identifiers(blank_identifiers(s)) == blank_identifiers(s),
        blank_identifiers(s).len() <= s.len(),
    decreases s.len(),
{
    let f = blank_minified();
    if s.len() == 0 {
        assert(blank_identifiers(s) =~= Seq::<char>::empty());
    } else if !ident_start(s[0]) {
        lemma_plain_first(s, f);
        lemma_minified_idempotent(s.skip(1));
        let t = blank_identifiers(s.skip(1));
        let x = seq![s[0]] + t;
        assert(x[0] == s[0]);
        assert(x.skip(1) =~= t);
        lemma_plain_first(x, f);
    } else {
        lemma_ident_end(s, 1);
        let j = ident_end(s, 1);
        let g = s.take(j);
        let y = s.skip(j);
        assert(s =~= g + y);
        assert(ident_shaped(g)) by {
            assert forall|i: int| 1 <= i < g.len() implies ident_continue(#[trigger] g[i]) by {
                assert(g[i] == s[i]);
            }
        }
        assert(y.len() > 0 ==> !ident_continue(y[0])) by {
            if y.len() > 0 {
                assert(y[0] == s[j]);
            }
        }
        lemma_ident_first(g, y, f);
        lemma_minified_idempotent(y);
        let h = f(g);
        let ty = blank_identifiers(y);
        reveal_with_fuel(utf8_len, 2);
        assert(utf8_len(seq!['_']) == 1) by {
            assert(seq!['_'].drop_last() =~= Seq::<char>::empty());
        }
        assert(ident_shaped(h));
        assert(f(h) == h);
        if y.len() > 0 {
            assert(!ident_start(y[0]));
            lemma_plain_first(y, f);
        }
        assert(ty.len() > 0 ==> !ident_continue(ty[0]));
        lemma_ident_first(h, ty, f);
    }
}

/// Whether identifier `s` looks minified: at most four bytes long.
fn looks_minified(s: &str) -> (r: bool)
    ensures
        r == is_minified(s@),
{
    byte_len(s) <= 4
}

/// `s` with every identifier of at most four bytes replaced by `_`.
pub fn normalize_minified_identifiers(s: &str) -> (r: String)
    ensures
        r@ == map_identifiers(s@, 0, seq![], blank_minified()),
{
    let ghost f = blank_minified();
    let v = chars_of(s);
    let mut out = String::new();
    let mut cur: Vec<char> = Vec::new();
    let mut k: usize = 0;
    assert(out@ + map_identifiers(s@, 0, seq![], f) =~= map_identifiers(s@, 0, seq![], f));
    while k < v.len()
        invariant
            k <= v@.len(),
            v@ == s@,
            f == blank_minified(),
            out@ + map_identifiers(s@, k as int, cur@, f) == map_identifiers(s@, 0, seq![], f),
        decreases v@.len() - k,
    {
        let c = v[k];
        let ghost before = out@;
        let ghost cur0 = cur@;
        if cur.len() > 0 && is_ident_continue(c) {
            cur.push(c);
        } else {
            if cur.len() > 0 {
                let id = string_of_chars(&cur);
                if looks_minified(id.as_str()) {
                    push_char(&mut out, '_');
                } else {
                    push_str(&mut out, id.as_str());
                }
            }
            assert(out@ == before + flush_ident(cur0, f));
            cur = Vec::new();
            if is_ident_start(c) {
                cur.push(c);
                assert(cur@ =~= seq![c]);
            } else {
                push_char(&mut out, c);
            }
        }
        assert(out@ + map_identifiers(s@, k + 1, cur@, f) =~= before + map_identifiers(s@, k as int, cur0, f));
        k = k + 1;
    }
    let ghost before = out@;
    if cur.len() > 0 {
        let id = string_of_chars(&cur);
        if looks_minified(id.as_str()) {
            push_char(&mut out, '_');
        } else {
            push_str(&mut out, id.as_str());
        }
    }
    assert(out@ =~= before + map_identifiers(s@, k as int, cur@, f));
    out
}


/// Whether every character of `s` is alphanumeric or `extra`.
pub open spec fn all_alnum_or(s: Seq<char>, extra: char) -> bool {
    forall|i: int| 0 <= i < s.len() ==> alphanumeric(#[trigger] s[i]) || s[i] == extra
}

pub open spec fn ends_with(s: Seq<char>, t: Seq<char>) -> bool {
    t.len() <= s.len() && occurs_at(s, t, s.len() - t.len())
}

/// What string `s` looks like: an error message if its lower-case form
/// mentions an error, failure, exception, invalidity or inability; else a file
/// path; else an API endpoint (`/` first, with `/api` or another `/`); else a
/// kebab-case command name; else a configuration key (alphanumeric and `_`,
/// over five bytes); else a regular string.
pub open spec fn classify(s: Seq<char>) -> StringContext {
    let lower = lowercase(s);
    if contains_seq(lower, "error"@) || contains_seq(lower, "fail"@) || contains_seq(lower, "exception"@)
        || contains_seq(lower, "invalid"@) || contains_seq(lower, "unable"@) {
        StringContext::ErrorMessage
    } else if contains_seq(s, "~/"@) || contains_seq(s, "/."@) || contains_seq(s, "\\"@) || ends_with(s, ".js"@)
        || ends_with(s, ".json"@) || ends_with(s, ".md"@) {
        StringContext::FilePath
    } else if occurs_at(s, "/"@, 0) && (contains_seq(s, "/api"@) || count_char(s, '/') > 1) {
        StringContext::ApiEndpoint
    } else if contains_seq(s, "-"@) && all_alnum_or(s, '-') {
        StringContext::CommandName
    } else if all_alnum_or(s, '_') && utf8_len(s) > 5 {
        StringContext::ConfigKey
    } else {
        StringContext::Regular
    }
}

/// The common escapes `\"`, `\'` and `\\` undone, in that order.
pub open spec fn unescape(x: Seq<char>) -> Seq<char> {
    replace_all(replace_all(replace_all(x, "\\\""@, "\""@), "\\'"@, "'"@), "\\\\"@, "\\"@)
}

/// The value of a string literal node: its text without the first and last
/// character (the quotes), with common escapes undone.
pub open spec fn string_value(t: SyntaxTree, n: int) -> Option<Seq<char>> {
    let x = t.text(n);
    if x.len() >= 2 {
        Some(unescape(x.subrange(1, x.len() - 1)))
    } else {
        None
    }
}

/// The text of an optional node, as a one-element list.
pub open spec fn opt_part(t: SyntaxTree, c: Option<usize>) -> Seq<Seq<char>> {
    match c {
        Some(c) => seq![t.text(c as int)],
        None => seq![],
    }
}

/// The parts of a member expression's path, outermost object first.
pub open spec fn member_parts(t: SyntaxTree, n: int) -> Seq<Seq<char>>
    decreases t.nodes@.len() - n,
{
    if !(0 <= n < t.nodes@.len()) {
        seq![]
    } else if t.kind(n) == "member_expression"@ {
        let props = opt_part(t, t.child_by_field(n, "property"@));
        match t.child_by_field(n, "object"@) {
            Some(o) => if n < o < t.nodes@.len() && t.kind(o as int) == "member_expression"@ {
                member_parts(t, o as int) + props
            } else {
                seq![t.text(o as int)] + props
            },
            None => props,
        }
    } else {
        seq![t.text(n)]
    }
}

/// `parts` joined by `.`.
pub open spec fn join_dot(parts: Seq<Seq<char>>) -> Seq<char>
    decreases parts.len(),
{
    if parts.len() == 0 {
        seq![]
    } else if parts.len() == 1 {
        parts[0]
    } else {
        join_dot(parts.drop_last()) + "."@ + parts.last()
    }
}

/// The first literal among the children `k..` of an argument list: a
/// string's value or a number's text; `None` when another kind of argument
/// comes first or there is none.
pub open spec fn first_literal(t: SyntaxTree, a: int, k: int) -> Option<Seq<char>>
    decreases t.nodes@[a].children@.len() - k,
{
    if k < 0 || k >= t.nodes@[a].children@.len() {
        None
    } else {
        let c = t.nodes@[a].children@[k] as int;
        if t.kind(c) == "string"@ {
            string_value(t, c)
        } else if t.kind(c) == "number"@ {
            Some(t.text(c))
        } else if t.kind(c) == ","@ || t.kind(c) == "("@ || t.kind(c) == ")"@ {
            first_literal(t, a, k + 1)
        } else {
            None
        }
    }
}

/// The object path and method that call node `n` calls, if it calls a
/// member or a plain name.
pub open spec fn callee(t: SyntaxTree, n: int) -> Option<(Option<Seq<char>>, Seq<char>)> {
    match t.child_by_field(n, "function"@) {
        None => None,
        Some(f) => if t.kind(f as int) == "member_expression"@ {
            match (t.child_by_field(f as int, "object"@), t.child_by_field(f as int, "property"@)) {
                (Some(o), Some(p)) => Some(
                    (
                        Some(
                            if t.kind(o as int) == "member_expression"@ {
                                join_dot(member_parts(t, o as int))
                            } else {
                                t.text(o as int)
                            },
                        ),
                        t.text(p as int),
                    ),
                ),
                _ => None,
            }
        } else if t.kind(f as int) == "identifier"@ {
            Some((None, t.text(f as int)))
        } else {
            None
        },
    }
}

/// The API call at call node `n`, unless its method name is two bytes or
/// shorter (other than `fs` and `os`).
pub open spec fn api_call(t: SyntaxTree, n: int) -> Option<ApiView> {
    match callee(t, n) {
        None => None,
        Some(om) => if utf8_len(om.1) <= 2 && om.1 != "fs"@ && om.1 != "os"@ {
            None
        } else {
            Some(
                (
                    om.0,
                    om.1,
                    match t.child_by_field(n, "arguments"@) {
                        Some(a) => first_literal(t, a as int, 0),
                        None => None,
                    },
                ),
            )
        },
    }
}

pub type StringView = (Seq<char>, StringContext);

pub open spec fn string_fp_view(s: StringFingerprint) -> StringView {
    (s.value@, s.context)
}

/// The string constant node `n` contributes: a string or template literal
/// whose value is over two bytes and not all white space.
pub open spec fn node_strings(t: SyntaxTree, n: int) -> Seq<StringView> {
    if t.kind(n) == "string"@ || t.kind(n) == "template_string"@ {
        match string_value(t, n) {
            Some(v) => if utf8_len(v) > 2 && !all_ws(v) {
                seq![(v, classify(v))]
            } else {
                seq![]
            },
            None => seq![],
        }
    } else {
        seq![]
    }
}

/// Whether `n` is a common timer value.
pub open spec fn is_timer_value(n: i64) -> bool {
    n == 100 || n == 200 || n == 500 || n == 1000 || n == 2000 || n == 5000
}

/// The constant node `n` contributes: a timer value, an integer beyond
/// ±100, a non-integer number as written, or a regular expression.
pub open spec fn node_constants(t: SyntaxTree, n: int) -> Seq<ConstSpec> {
    let text = t.text(n);
    if t.kind(n) == "number"@ {
        match parse_i64(text) {
            Some(num) => if is_timer_value(num) {
                seq![ConstSpec::Duration(num as u64)]
            } else if num > 100 || num < -100 {
                seq![ConstSpec::Number(num)]
            } else {
                seq![]
            },
            None => if parses_as_float(text) {
                seq![ConstSpec::Float(text)]
            } else {
                seq![]
            },
        }
    } else if t.kind(n) == "regex"@ {
        seq![ConstSpec::Regex(text)]
    } else {
        seq![]
    }
}

/// The API call node `n` contributes.
pub open spec fn node_apis(t: SyntaxTree, n: int) -> Seq<ApiView> {
    if t.kind(n) == "call_expression"@ {
        match api_call(t, n) {
            Some(a) => seq![a],
            None => seq![],
        }
    } else {
        seq![]
    }
}

/// What `f` gives for each node of the subtree at `n`, in preorder, leaving
/// out comment subtrees below `n`.
pub open spec fn gather<T>(t: SyntaxTree, n: int, f: spec_fn(int) -> Seq<T>) -> Seq<T>
    decreases t.nodes@.len() - n, 1int, 0int,
{
    if !(0 <= n < t.nodes@.len()) {
        seq![]
    } else {
        f(n) + gather_children(t, n, 0, f)
    }
}

pub open spec fn gather_children<T>(t: SyntaxTree, n: int, k: int, f: spec_fn(int) -> Seq<T>) -> Seq<T>
    decreases t.nodes@.len() - n, 0int, t.nodes@[n].children@.len() - k,
{
    if !(0 <= n < t.nodes@.len()) || k < 0 || k >= t.nodes@[n].children@.len() {
        seq![]
    } else {
        let c = t.nodes@[n].children@[k] as int;
        (if n < c < t.nodes@.len() && t.kind(c) != "comment"@ {
            gather(t, c, f)
        } else {
            seq![]
        }) + gather_children(t, n, k + 1, f)
    }
}

pub open spec fn strings_of(t: SyntaxTree) -> spec_fn(int) -> Seq<StringView> {
    |n: int| node_strings(t, n)
}

pub open spec fn constants_of(t: SyntaxTree) -> spec_fn(int) -> Seq<ConstSpec> {
    |n: int| node_constants(t, n)
}

pub open spec fn apis_of(t: SyntaxTree) -> spec_fn(int) -> Seq<ApiView> {
    |n: int| node_apis(t, n)
}

pub open spec fn one_each() -> spec_fn(int) -> Seq<u8> {
    |n: int| seq![0u8]
}

/// The number of nodes visited from `n`, capped at `usize::MAX`.
pub open spec fn capped(x: int) -> usize {
    if x <= usize::MAX {
        x as usize
    } else {
        usize::MAX
    }
}

/// Finds the fingerprint of a function in its syntax tree.
pub struct FingerprintExtractor<'a> {
    source: &'a str,
}

impl<'a> FingerprintExtractor<'a> {
    pub fn new(source: &'a str) -> (r: FingerprintExtractor<'a>)
        ensures
            r.source() == source@,
    {
        FingerprintExtractor { source }
    }

    pub closed spec fn source(&self) -> Seq<char> {
        self.source@
    }

    fn classify_string(&self, s: &str) -> (r: StringContext)
        ensures
            r == classify(s@),
    {
        let lower = to_lowercase(s);
        if str_contains(lower.as_str(), "error") || str_contains(lower.as_str(), "fail") || str_contains(
            lower.as_str(),
            "exception",
        ) || str_contains(lower.as_str(), "invalid") || str_contains(lower.as_str(), "unable") {
            return StringContext::ErrorMessage;
        }
        if str_contains(s, "~/") || str_contains(s, "/.") || str_contains(s, "\\") || str_ends_with(s, ".js")
            || str_ends_with(s, ".json") || str_ends_with(s, ".md") {
            return StringContext::FilePath;
        }
        let v = chars_of(s);
        if str_starts_with(s, "/") && (str_contains(s, "/api") || count_char_in(&v, '/') > 1) {
            return StringContext::ApiEndpoint;
        }
        let mut kebab = true;
        let mut snake = true;
        let mut i: usize = 0;
        while i < v.len()
            invariant
                i <= v@.len(),
                v@ == s@,
                kebab == (forall|j: int| 0 <= j < i ==> alphanumeric(#[trigger] v@[j]) || v@[j] == '-'),
                snake == (forall|j: int| 0 <= j < i ==> alphanumeric(#[trigger] v@[j]) || v@[j] == '_'),
            decreases v@.len() - i,
        {
            let a = is_alphanumeric(v[i]);
            if !(a || v[i] == '-') {
                kebab = false;
            }
            if !(a || v[i] == '_') {
                snake = false;
            }
            i = i + 1;
        }
        if str_contains(s, "-") && kebab {
            return StringContext::CommandName;
        }
        if snake && byte_len(s) > 5 {
            return StringContext::ConfigKey;
        }
        StringContext::Regular
    }

    fn extract_string_value(&self, t: &SyntaxTree, n: usize) -> (r: Option<String>)
        requires
            t.wf(),
            n < t.nodes@.len(),
        ensures
            opt_view(r) == string_value(*t, n as int),
    {
        let start = t.nodes[n].start;
        let end = t.nodes[n].end;
        if end - start >= 2 {
            let inner = string_of_range(&t.source, start + 1, end - 1);
            let iv = chars_of(inner.as_str());
            proof {
                reveal_strlit("\\\"");
                reveal_strlit("\\'");
                reveal_strlit("\\\\");
            }
            let a = replace_chars(&iv, "\\\"", "\"");
            let b = replace_chars(&a, "\\'", "'");
            let c = replace_chars(&b, "\\\\", "\\");
            proof {
                let x = t.text(n as int);
                assert(x.subrange(1, x.len() - 1) =~= t.source@.subrange(start + 1, end - 1));
            }
            Some(string_of_chars(&c))
        } else {
            None
        }
    }
}



pub open spec fn string_views(s: Seq<StringFingerprint>) -> Seq<StringView> {
    s.map_values(|x: StringFingerprint| string_fp_view(x))
}

pub open spec fn constant_views(s: Seq<ConstantFingerprint>) -> Seq<ConstSpec> {
    s.map_values(|x: ConstantFingerprint| const_view(x.value))
}

pub open spec fn api_views(s: Seq<ApiCallFingerprint>) -> Seq<ApiView> {
    s.map_values(|x: ApiCallFingerprint| api_view(x))
}

/// The fingerprint of the subtree at `n` as plain values.
pub open spec fn fingerprint_matches(t: SyntaxTree, n: int, fp: FunctionFingerprint) -> bool {
    &&& string_views(fp.strings@) == gather(t, n, strings_of(t))
    &&& constant_views(fp.constants@) == gather(t, n, constants_of(t))
    &&& api_views(fp.api_calls@) == gather(t, n, apis_of(t))
    &&& fp.size == capped(gather(t, n, one_each()).len() as int)
}

/// Whether two fingerprints hold the same strings, constants, API calls and size.
pub open spec fn same_fingerprint(a: FunctionFingerprint, b: FunctionFingerprint) -> bool {
    &&& string_views(a.strings@) == string_views(b.strings@)
    &&& constant_views(a.constants@) == constant_views(b.constants@)
    &&& api_views(a.api_calls@) == api_views(b.api_calls@)
    &&& a.size == b.size
}

/// Whether two optional fingerprints are both absent or hold the same one.
pub open spec fn same_optional_fingerprint(a: Option<FunctionFingerprint>, b: Option<FunctionFingerprint>) -> bool {
    match (a, b) {
        (Some(x), Some(y)) => same_fingerprint(x, y),
        (None, None) => true,
        _ => false,
    }
}

impl FunctionFingerprint {
    /// A copy holding the same strings, constants, API calls and size.
    pub fn duplicate(&self) -> (r: FunctionFingerprint)
        ensures
            same_fingerprint(r, *self),
    {
        let mut strings: Vec<StringFingerprint> = Vec::new();
        let mut i: usize = 0;
        while i < self.strings.len()
            invariant
                i <= self.strings@.len(),
                strings@.len() == i,
                string_views(strings@) == string_views(self.strings@.take(i as int)),
            decreases self.strings@.len() - i,
        {
            let x = &self.strings[i];
            let ghost before = strings@;
            strings.push(StringFingerprint { value: x.value.clone(), context: x.context });
            proof {
                let t = self.strings@.take(i + 1);
                assert forall|q: int| 0 <= q < i + 1 implies string_views(strings@)[q] == string_views(t)[q] by {
                    if q < i {
                        assert(strings@[q] == before[q]);
                        assert(string_views(before)[q] == string_views(self.strings@.take(i as int))[q]);
                        assert(t[q] == self.strings@.take(i as int)[q]);
                    }
                }
                assert(string_views(strings@) =~= string_views(t));
            }
            i = i + 1;
        }
        let mut constants: Vec<ConstantFingerprint> = Vec::new();
        let mut j: usize = 0;
        while j < self.constants.len()
            invariant
                j <= self.constants@.len(),
                constants@.len() == j,
                constant_views(constants@) == constant_views(self.constants@.take(j as int)),
            decreases self.constants@.len() - j,
        {
            let ghost before = constants@;
            constants.push(ConstantFingerprint { value: copy_constant(&self.constants[j].value) });
            proof {
                let t = self.constants@.take(j + 1);
                assert forall|q: int| 0 <= q < j + 1 implies constant_views(constants@)[q] == constant_views(t)[q] by {
                    if q < j {
                        assert(constants@[q] == before[q]);
                        assert(constant_views(before)[q] == constant_views(self.constants@.take(j as int))[q]);
                        assert(t[q] == self.constants@.take(j as int)[q]);
                    }
                }
                assert(constant_views(constants@) =~= constant_views(t));
            }
            j = j + 1;
        }
        let mut api_calls: Vec<ApiCallFingerprint> = Vec::new();
        let mut k: usize = 0;
        while k < self.api_calls.len()
            invariant
                k <= self.api_calls@.len(),
                api_calls@.len() == k,
                api_views(api_calls@) == api_views(self.api_calls@.take(k as int)),
            decreases self.api_calls@.len() - k,
        {
            let a = &self.api_calls[k];
            let ghost before = api_calls@;
            api_calls.push(
                ApiCallFingerprint {
                    object: copy_opt_string(&a.object),
                    method: a.method.clone(),
                    first_arg: copy_opt_string(&a.first_arg),
                },
            );
            proof {
                let t = self.api_calls@.take(k + 1);
                assert forall|q: int| 0 <= q < k + 1 implies api_views(api_calls@)[q] == api_views(t)[q] by {
                    if q < k {
                        assert(api_calls@[q] == before[q]);
                        assert(api_views(before)[q] == api_views(self.api_calls@.take(k as int))[q]);
                        assert(t[q] == self.api_calls@.take(k as int)[q]);
                    }
                }
                assert(api_views(api_calls@) =~= api_views(t));
            }
            k = k + 1;
        }
        assert(self.strings@.take(i as int) =~= self.strings@);
        assert(self.constants@.take(j as int) =~= self.constants@);
        assert(self.api_calls@.take(k as int) =~= self.api_calls@);
        FunctionFingerprint { strings, constants, api_calls, size: self.size }
    }
}

/// A copy of an optional fingerprint.
pub fn duplicate_optional(f: &Option<FunctionFingerprint>) -> (r: Option<FunctionFingerprint>)
    ensures
        same_optional_fingerprint(r, *f),
{
    match f {
        Some(x) => Some(x.duplicate()),
        None => None,
    }
}

pub open spec fn capped_nat(x: nat) -> usize {
    capped(x as int)
}

proof fn lemma_capped_add(a: int, b: int)
    requires
        a >= 0,
        b >= 0,
    ensures
        capped(capped(a) + b) == capped(a + b),
{
}

impl<'a> FingerprintExtractor<'a> {
    fn member_parts_exec(&self, t: &SyntaxTree, n: usize) -> (r: Vec<String>)
        requires
            t.wf(),
            n < t.nodes@.len(),
        ensures
            r@.map_values(|x: String| x@) == member_parts(*t, n as int),
        decreases t.nodes@.len() - n,
    {
        if t.kind_is(n, "member_expression") {
            let prop = t.child_by_field_name(n, "property");
            let mut parts: Vec<String> = match t.child_by_field_name(n, "object") {
                Some(o) => {
                    if t.kind_is(o, "member_expression") {
                        self.member_parts_exec(t, o)
                    } else {
                        let mut v: Vec<String> = Vec::new();
                        v.push(t.text_of(o));
                        assert(v@.map_values(|x: String| x@) =~= seq![t.text(o as int)]);
                        v
                    }
                },
                None => {
                    let v: Vec<String> = Vec::new();
                    assert(v@.map_values(|x: String| x@) =~= Seq::<Seq<char>>::empty());
                    v
                },
            };
            let ghost before = parts@.map_values(|x: String| x@);
            match prop {
                Some(p) => {
                    parts.push(t.text_of(p));
                    assert(parts@.map_values(|x: String| x@) =~= before + opt_part(*t, prop));
                },
                None => {
                    assert(parts@.map_values(|x: String| x@) =~= before + opt_part(*t, prop));
                },
            }
            parts
        } else {
            let mut v: Vec<String> = Vec::new();
            v.push(t.text_of(n));
            assert(v@.map_values(|x: String| x@) =~= seq![t.text(n as int)]);
            v
        }
    }

    /// The dotted path of member expression `n`, e.g. `process.env.HOME`.
    fn get_full_member_path(&self, t: &SyntaxTree, n: usize) -> (r: String)
        requires
            t.wf(),
            n < t.nodes@.len(),
        ensures
            r@ == join_dot(member_parts(*t, n as int)),
    {
        let parts = self.member_parts_exec(t, n);
        let ghost ps = parts@.map_values(|x: String| x@);
        let mut out = String::new();
        let mut i: usize = 0;
        assert(ps.take(0) =~= Seq::<Seq<char>>::empty());
        assert(out@ =~= join_dot(ps.take(0)));
        while i < parts.len()
            invariant
                i <= parts@.len(),
                ps == parts@.map_values(|x: String| x@),
                out@ == join_dot(ps.take(i as int)),
            decreases parts@.len() - i,
        {
            assert(ps.take(i + 1).drop_last() =~= ps.take(i as int));
            assert(ps.take(i + 1).last() == parts@[i as int]@);
            if i > 0 {
                push_str(&mut out, ".");
            }
            push_str(&mut out, parts[i].as_str());
            proof {
                if i == 0 {
                    assert(ps.take(1) =~= seq![parts@[0]@]);
                    assert(out@ =~= parts@[0]@);
                }
            }
            i = i + 1;
        }
        assert(ps.take(i as int) =~= ps);
        out
    }

    fn first_literal_arg(&self, t: &SyntaxTree, a: usize) -> (r: Option<String>)
        requires
            t.wf(),
            a < t.nodes@.len(),
        ensures
            opt_view(r) == first_literal(*t, a as int, 0),
    {
        let nc = t.child_count(a);
        let mut k: usize = 0;
        while k < nc
            invariant
                t.wf(),
                a < t.nodes@.len(),
                nc == t.nodes@[a as int].children@.len(),
                k <= nc,
                first_literal(*t, a as int, 0) == first_literal(*t, a as int, k as int),
            decreases nc - k,
        {
            let c = t.nodes[a].children[k];
            if t.kind_is(c, "string") {
                return self.extract_string_value(t, c);
            } else if t.kind_is(c, "number") {
                return Some(t.text_of(c));
            } else if !(t.kind_is(c, ",") || t.kind_is(c, "(") || t.kind_is(c, ")")) {
                return None;
            }
            k = k + 1;
        }
        None
    }

    /// The API call made at call node `n`.
    fn extract_api_call(&self, t: &SyntaxTree, n: usize) -> (r: Option<ApiCallFingerprint>)
        requires
            t.wf(),
            n < t.nodes@.len(),
        ensures
            match r {
                Some(a) => api_call(*t, n as int) == Some(api_view(a)),
                None => api_call(*t, n as int) is None,
            },
    {
        let f = match t.child_by_field_name(n, "function") {
            Some(f) => f,
            None => {
                return None;
            },
        };
        let (object, method): (Option<String>, String) = if t.kind_is(f, "member_expression") {
            let obj = match t.child_by_field_name(f, "object") {
                Some(o) => o,
                None => {
                    return None;
                },
            };
            let prop = match t.child_by_field_name(f, "property") {
                Some(p) => p,
                None => {
                    return None;
                },
            };
            let full_obj = if t.kind_is(obj, "member_expression") {
                self.get_full_member_path(t, obj)
            } else {
                t.text_of(obj)
            };
            (Some(full_obj), t.text_of(prop))
        } else if t.kind_is(f, "identifier") {
            (None, t.text_of(f))
        } else {
            return None;
        };
        assert(callee(*t, n as int) == Some((opt_view(object), method@)));
        if byte_len(method.as_str()) <= 2 && !str_eq(method.as_str(), "fs") && !str_eq(method.as_str(), "os") {
            return None;
        }
        let first_arg = match t.child_by_field_name(n, "arguments") {
            Some(a) => self.first_literal_arg(t, a),
            None => None,
        };
        Some(ApiCallFingerprint { object, method, first_arg })
    }

    fn node_string(&self, t: &SyntaxTree, n: usize) -> (r: Option<StringFingerprint>)
        requires
            t.wf(),
            n < t.nodes@.len(),
        ensures
            node_strings(*t, n as int) == match r {
                Some(x) => seq![string_fp_view(x)],
                None => Seq::<StringView>::empty(),
            },
    {
        if t.kind_is(n, "string") || t.kind_is(n, "template_string") {
            match self.extract_string_value(t, n) {
                Some(value) => {
                    let v = chars_of(value.as_str());
                    let mut blank = true;
                    let mut k: usize = 0;
                    while k < v.len()
                        invariant
                            k <= v@.len(),
                            blank == (forall|a: int| 0 <= a < k ==> is_ws(#[trigger] v@[a])),
                        decreases v@.len() - k,
                    {
                        if !char_is_ws(v[k]) {
                            blank = false;
                        }
                        k = k + 1;
                    }
                    if byte_len(value.as_str()) > 2 && !blank {
                        let context = self.classify_string(value.as_str());
                        Some(StringFingerprint { value, context })
                    } else {
                        None
                    }
                },
                None => None,
            }
        } else {
            None
        }
    }

    fn node_constant(&self, t: &SyntaxTree, n: usize) -> (r: Option<ConstantFingerprint>)
        requires
            t.wf(),
            n < t.nodes@.len(),
        ensures
            node_constants(*t, n as int) == match r {
                Some(x) => seq![const_view(x.value)],
                None => Seq::<ConstSpec>::empty(),
            },
    {
        if t.kind_is(n, "number") {
            let text = t.text_of(n);
            match str_parse_i64(text.as_str()) {
                Some(num) => {
                    if num == 100 || num == 200 || num == 500 || num == 1000 || num == 2000 || num == 5000 {
                        Some(ConstantFingerprint { value: ConstantValue::Duration(num as u64) })
                    } else if num > 100 || num < -100 {
                        Some(ConstantFingerprint { value: ConstantValue::Number(num) })
                    } else {
                        None
                    }
                },
                None => {
                    if parses_as_float_exec(text.as_str()) {
                        Some(ConstantFingerprint { value: ConstantValue::Float(text) })
                    } else {
                        None
                    }
                },
            }
        } else if t.kind_is(n, "regex") {
            Some(ConstantFingerprint { value: ConstantValue::Regex(t.text_of(n)) })
        } else {
            None
        }
    }

    fn node_api(&self, t: &SyntaxTree, n: usize) -> (r: Option<ApiCallFingerprint>)
        requires
            t.wf(),
            n < t.nodes@.len(),
        ensures
            node_apis(*t, n as int) == match r {
                Some(x) => seq![api_view(x)],
                None => Seq::<ApiView>::empty(),
            },
    {
        if t.kind_is(n, "call_expression") {
            self.extract_api_call(t, n)
        } else {
            None
        }
    }
}



impl<'a> FingerprintExtractor<'a> {
    fn extract_fingerprints_recursive(
        &self,
        t: &SyntaxTree,
        n: usize,
        strings: &mut Vec<StringFingerprint>,
        constants: &mut Vec<ConstantFingerprint>,
        api_calls: &mut Vec<ApiCallFingerprint>,
        node_count: &mut usize,
    )
        requires
            t.wf(),
            n < t.nodes@.len(),
        ensures
            string_views(final(strings)@) == string_views(old(strings)@) + gather(*t, n as int, strings_of(*t)),
            constant_views(final(constants)@) == constant_views(old(constants)@) + gather(
                *t,
                n as int,
                constants_of(*t),
            ),
            api_views(final(api_calls)@) == api_views(old(api_calls)@) + gather(*t, n as int, apis_of(*t)),
            *final(node_count) == capped(*old(node_count) + gather(*t, n as int, one_each()).len()),
        decreases t.nodes@.len() - n,
    {
        let ghost s0 = string_views(strings@);
        let ghost c0 = constant_views(constants@);
        let ghost a0 = api_views(api_calls@);
        let ghost n0 = *node_count as int;
        let ghost fs = strings_of(*t);
        let ghost fc = constants_of(*t);
        let ghost fa = apis_of(*t);
        let ghost fo = one_each();
        *node_count = node_count.saturating_add(1);
        match self.node_string(t, n) {
            Some(x) => {
                strings.push(x);
                assert(string_views(strings@) =~= s0 + fs(n as int));
            },
            None => {
                assert(string_views(strings@) =~= s0 + fs(n as int));
            },
        }
        match self.node_constant(t, n) {
            Some(x) => {
                constants.push(x);
                assert(constant_views(constants@) =~= c0 + fc(n as int));
            },
            None => {
                assert(constant_views(constants@) =~= c0 + fc(n as int));
            },
        }
        match self.node_api(t, n) {
            Some(x) => {
                api_calls.push(x);
                assert(api_views(api_calls@) =~= a0 + fa(n as int));
            },
            None => {
                assert(api_views(api_calls@) =~= a0 + fa(n as int));
            },
        }
        let ghost s1 = string_views(strings@);
        let ghost c1 = constant_views(constants@);
        let ghost a1 = api_views(api_calls@);
        let nc = t.child_count(n);
        let mut k: usize = 0;
        while k < nc
            invariant
                t.wf(),
                n < t.nodes@.len(),
                nc == t.nodes@[n as int].children@.len(),
                k <= nc,
                fs == strings_of(*t),
                fc == constants_of(*t),
                fa == apis_of(*t),
                fo == one_each(),
                string_views(strings@) + gather_children(*t, n as int, k as int, fs) == s1 + gather_children(
                    *t,
                    n as int,
                    0,
                    fs,
                ),
                constant_views(constants@) + gather_children(*t, n as int, k as int, fc) == c1 + gather_children(
                    *t,
                    n as int,
                    0,
                    fc,
                ),
                api_views(api_calls@) + gather_children(*t, n as int, k as int, fa) == a1 + gather_children(
                    *t,
                    n as int,
                    0,
                    fa,
                ),
                n0 >= 0,
                *node_count == capped(
                    n0 + 1 + gather_children(*t, n as int, 0, fo).len() - gather_children(
                        *t,
                        n as int,
                        k as int,
                        fo,
                    ).len(),
                ),
                gather_children(*t, n as int, 0, fo).len() >= gather_children(*t, n as int, k as int, fo).len(),
            decreases nc - k,
        {
            let c = t.nodes[n].children[k];
            let ghost bs = string_views(strings@);
            let ghost bc = constant_views(constants@);
            let ghost ba = api_views(api_calls@);
            let ghost bn = *node_count as int;
            if !t.kind_is(c, "comment") {
                self.extract_fingerprints_recursive(t, c, strings, constants, api_calls, node_count);
                proof {
                    lemma_capped_add(
                        n0 + 1 + gather_children(*t, n as int, 0, fo).len() - gather_children(
                            *t,
                            n as int,
                            k as int,
                            fo,
                        ).len(),
                        gather(*t, c as int, fo).len() as int,
                    );
                }
            }
            proof {
                assert(n < c < t.nodes@.len());
                assert(gather_children(*t, n as int, k as int, fs) == (if t.kind(c as int) != "comment"@ {
                    gather(*t, c as int, fs)
                } else {
                    seq![]
                }) + gather_children(*t, n as int, k + 1, fs));
                assert(gather_children(*t, n as int, k as int, fc) == (if t.kind(c as int) != "comment"@ {
                    gather(*t, c as int, fc)
                } else {
                    seq![]
                }) + gather_children(*t, n as int, k + 1, fc));
                assert(gather_children(*t, n as int, k as int, fa) == (if t.kind(c as int) != "comment"@ {
                    gather(*t, c as int, fa)
                } else {
                    seq![]
                }) + gather_children(*t, n as int, k + 1, fa));
                assert(gather_children(*t, n as int, k as int, fo) == (if t.kind(c as int) != "comment"@ {
                    gather(*t, c as int, fo)
                } else {
                    seq![]
                }) + gather_children(*t, n as int, k + 1, fo));
                assert(string_views(strings@) + gather_children(*t, n as int, k + 1, fs) =~= bs + gather_children(
                    *t,
                    n as int,
                    k as int,
                    fs,
                ));
                assert(constant_views(constants@) + gather_children(*t, n as int, k + 1, fc) =~= bc
                    + gather_children(*t, n as int, k as int, fc));
                assert(api_views(api_calls@) + gather_children(*t, n as int, k + 1, fa) =~= ba + gather_children(
                    *t,
                    n as int,
                    k as int,
                    fa,
                ));
            }
            k = k + 1;
        }
        proof {
            assert(gather_children(*t, n as int, k as int, fs).len() == 0);
            assert(gather_children(*t, n as int, k as int, fc).len() == 0);
            assert(gather_children(*t, n as int, k as int, fa).len() == 0);
            assert(gather_children(*t, n as int, k as int, fo).len() == 0);
            assert(string_views(strings@) =~= s0 + gather(*t, n as int, fs));
            assert(constant_views(constants@) =~= c0 + gather(*t, n as int, fc));
            assert(api_views(api_calls@) =~= a0 + gather(*t, n as int, fa));
            assert(gather(*t, n as int, fo).len() == 1 + gather_children(*t, n as int, 0, fo).len());
        }
    }

    /// The fingerprint of the subtree at `node`: its string constants,
    /// notable numbers and regular expressions, and API calls, in preorder
    /// (leaving out comments), and the number of nodes visited.
    pub fn extract_function_fingerprint(&self, t: &SyntaxTree, node: usize) -> (r: FunctionFingerprint)
        requires
            t.wf(),
            self.source() == t.source@,
            node < t.nodes@.len(),
        ensures
            fingerprint_matches(*t, node as int, r),
    {
        let mut strings: Vec<StringFingerprint> = Vec::new();
        let mut constants: Vec<ConstantFingerprint> = Vec::new();
        let mut api_calls: Vec<ApiCallFingerprint> = Vec::new();
        let mut node_count: usize = 0;
        assert(string_views(strings@) =~= Seq::<StringView>::empty());
        assert(constant_views(constants@) =~= Seq::<ConstSpec>::empty());
        assert(api_views(api_calls@) =~= Seq::<ApiView>::empty());
        self.extract_fingerprints_recursive(t, node, &mut strings, &mut constants, &mut api_calls, &mut node_count);
        assert(string_views(strings@) =~= gather(*t, node as int, strings_of(*t)));
        assert(constant_views(constants@) =~= gather(*t, node as int, constants_of(*t)));
        assert(api_views(api_calls@) =~= gather(*t, node as int, apis_of(*t)));
        FunctionFingerprint { strings, constants, api_calls, size: node_count }
    }
}



/// The number of times `k` occurs in `s`.
pub open spec fn occurrences<V>(s: Seq<V>, k: V) -> nat
    decreases s.len(),
{
    if s.len() == 0 {
        0
    } else {
        occurrences(s.drop_last(), k) + if s.last() == k {
            1nat
        } else {
            0nat
        }
    }
}

/// The count stored under key `k` (0 when absent).
pub open spec fn count_under<V>(keys: Seq<V>, counts: Seq<usize>, k: V) -> nat {
    if exists|j: int| 0 <= j < keys.len() && keys[j] == k {
        counts[choose|j: int| 0 <= j < keys.len() && keys[j] == k] as nat
    } else {
        0
    }
}

pub open spec fn distinct<V>(keys: Seq<V>) -> bool {
    forall|i: int, j: int| 0 <= i < j < keys.len() ==> keys[i] != keys[j]
}

proof fn lemma_count_found<V>(keys: Seq<V>, counts: Seq<usize>, k: V, j: int)
    requires
        distinct(keys),
        0 <= j < keys.len(),
        keys[j] == k,
    ensures
        count_under(keys, counts, k) == counts[j] as nat,
{
    let c = choose|c: int| 0 <= c < keys.len() && keys[c] == k;
    if c != j {
        if c < j {
            assert(keys[c] != keys[j]);
        } else {
            assert(keys[j] != keys[c]);
        }
    }
}

/// After counting key `k0` once more (index `idx`, new or found).
proof fn lemma_bump<V>(
    keys0: Seq<V>,
    counts0: Seq<usize>,
    keys1: Seq<V>,
    counts1: Seq<usize>,
    k0: V,
    idx: int,
)
    requires
        distinct(keys0),
        keys0.len() == counts0.len(),
        keys1.len() == counts1.len(),
        0 <= idx < keys1.len(),
        keys1[idx] == k0,
        keys1.len() == keys0.len() || keys1.len() == keys0.len() + 1,
        keys1.len() == keys0.len() + 1 ==> idx == keys0.len() && (forall|j: int| 0 <= j < keys0.len() ==> keys0[j] != k0)
            && counts1[idx] == 1,
        keys1.len() == keys0.len() ==> keys0[idx] == k0 && counts1[idx] == capped(counts0[idx] + 1),
        forall|j: int| 0 <= j < keys0.len() && j != idx ==> #[trigger] keys1[j] == keys0[j] && counts1[j] == counts0[j],
    ensures
        distinct(keys1),
        count_under(keys1, counts1, k0) == capped((count_under(keys0, counts0, k0) + 1) as int),
        forall|k: V| k != k0 ==> count_under(keys1, counts1, k) == count_under(keys0, counts0, k),
{
    if keys1.len() == keys0.len() {
        assert forall|j: int| 0 <= j < keys1.len() implies keys1[j] == keys0[j] by {
            if j != idx {
                assert(keys1[j] == keys0[j]);
            }
        }
        assert(keys1 =~= keys0);
    } else {
        assert forall|j: int| 0 <= j < keys1.len() implies keys1[j] == keys0.push(k0)[j] by {
            if j != idx {
                assert(keys1[j] == keys0[j]);
            }
        }
        assert(keys1 =~= keys0.push(k0));
        assert forall|i: int, j: int| 0 <= i < j < keys1.len() implies keys1[i] != keys1[j] by {
            if j < keys0.len() {
                assert(keys0[i] != keys0[j]);
            } else {
                assert(keys0[i] != k0);
            }
        }
    }
    lemma_count_found(keys1, counts1, k0, idx);
    if keys1.len() == keys0.len() {
        lemma_count_found(keys0, counts0, k0, idx);
    } else {
        assert(!(exists|j: int| 0 <= j < keys0.len() && keys0[j] == k0));
    }
    assert forall|k: V| k != k0 implies count_under(keys1, counts1, k) == count_under(keys0, counts0, k) by {
        if exists|j: int| 0 <= j < keys0.len() && keys0[j] == k {
            let j = choose|j: int| 0 <= j < keys0.len() && keys0[j] == k;
            lemma_count_found(keys0, counts0, k, j);
            assert(j != idx);
            assert(keys1[j] == keys0[j] && counts1[j] == counts0[j]);
            lemma_count_found(keys1, counts1, k, j);
        } else {
            assert forall|j: int| 0 <= j < keys1.len() implies keys1[j] != k by {
                if j != idx {
                    assert(keys1[j] == keys0[j]);
                }
            }
            assert(!(exists|j: int| 0 <= j < keys1.len() && keys1[j] == k));
        }
    }
}

/// How often strings, constants and API calls occur across fingerprints.
#[derive(Debug)]
pub struct RarityScorer {
    string_counts: Vec<(String, usize)>,
    constant_counts: Vec<(ConstantValue, usize)>,
    api_counts: Vec<((Option<String>, String), usize)>,
}

fn same_constant(a: &ConstantValue, b: &ConstantValue) -> (r: bool)
    ensures
        r == (const_view(*a) == const_view(*b)),
{
    match (a, b) {
        (ConstantValue::Number(x), ConstantValue::Number(y)) => *x == *y,
        (ConstantValue::Float(x), ConstantValue::Float(y)) => str_eq(x.as_str(), y.as_str()),
        (ConstantValue::Regex(x), ConstantValue::Regex(y)) => str_eq(x.as_str(), y.as_str()),
        (ConstantValue::Duration(x), ConstantValue::Duration(y)) => *x == *y,
        _ => false,
    }
}

fn same_opt_string(a: &Option<String>, b: &Option<String>) -> (r: bool)
    ensures
        r == (opt_view(*a) == opt_view(*b)),
{
    match (a, b) {
        (Some(x), Some(y)) => str_eq(x.as_str(), y.as_str()),
        (None, None) => true,
        _ => false,
    }
}

fn copy_constant(c: &ConstantValue) -> (r: ConstantValue)
    ensures
        const_view(r) == const_view(*c),
{
    match c {
        ConstantValue::Number(x) => ConstantValue::Number(*x),
        ConstantValue::Float(x) => ConstantValue::Float(x.clone()),
        ConstantValue::Regex(x) => ConstantValue::Regex(x.clone()),
        ConstantValue::Duration(x) => ConstantValue::Duration(*x),
    }
}

fn copy_opt_string(o: &Option<String>) -> (r: Option<String>)
    ensures
        opt_view(r) == opt_view(*o),
{
    match o {
        Some(x) => Some(x.clone()),
        None => None,
    }
}

pub open spec fn api_key_view(k: (Option<String>, String)) -> (Option<Seq<char>>, Seq<char>) {
    (opt_view(k.0), k.1@)
}

impl RarityScorer {
    pub closed spec fn string_keys(&self) -> Seq<Seq<char>> {
        self.string_counts@.map_values(|e: (String, usize)| e.0@)
    }

    pub closed spec fn string_values(&self) -> Seq<usize> {
        self.string_counts@.map_values(|e: (String, usize)| e.1)
    }

    pub closed spec fn constant_keys(&self) -> Seq<ConstSpec> {
        self.constant_counts@.map_values(|e: (ConstantValue, usize)| const_view(e.0))
    }

    pub closed spec fn constant_values(&self) -> Seq<usize> {
        self.constant_counts@.map_values(|e: (ConstantValue, usize)| e.1)
    }

    pub closed spec fn api_keys(&self) -> Seq<(Option<Seq<char>>, Seq<char>)> {
        self.api_counts@.map_values(|e: ((Option<String>, String), usize)| api_key_view(e.0))
    }

    pub closed spec fn api_values(&self) -> Seq<usize> {
        self.api_counts@.map_values(|e: ((Option<String>, String), usize)| e.1)
    }

    /// Each table holds one count per key.
    pub closed spec fn wf(&self) -> bool {
        distinct(self.string_keys()) && distinct(self.constant_keys()) && distinct(self.api_keys())
    }

    /// How many times string `k` was seen.
    pub open spec fn string_count(&self, k: Seq<char>) -> nat {
        count_under(self.string_keys(), self.string_values(), k)
    }

    pub open spec fn constant_count(&self, k: ConstSpec) -> nat {
        count_under(self.constant_keys(), self.constant_values(), k)
    }

    /// How many times a call of `method` on `object` was seen.
    pub open spec fn api_count(&self, k: (Option<Seq<char>>, Seq<char>)) -> nat {
        count_under(self.api_keys(), self.api_values(), k)
    }

    /// A scorer that has seen nothing.
    pub fn new() -> (r: RarityScorer)
        ensures
            r.wf(),
            forall|k: Seq<char>| r.string_count(k) == 0,
            forall|k: ConstSpec| r.constant_count(k) == 0,
            forall|k: (Option<Seq<char>>, Seq<char>)| r.api_count(k) == 0,
    {
        let r = RarityScorer { string_counts: Vec::new(), constant_counts: Vec::new(), api_counts: Vec::new() };
        assert(r.string_keys().len() == 0);
        assert(r.constant_keys().len() == 0);
        assert(r.api_keys().len() == 0);
        r
    }

    fn bump_string(&mut self, k: &String)
        requires
            old(self).wf(),
        ensures
            final(self).wf(),
            final(self).string_count(k@) == capped((old(self).string_count(k@) + 1) as int),
            forall|x: Seq<char>| x != k@ ==> final(self).string_count(x) == old(self).string_count(x),
            final(self).constant_keys() == old(self).constant_keys(),
            final(self).constant_values() == old(self).constant_values(),
            final(self).api_keys() == old(self).api_keys(),
            final(self).api_values() == old(self).api_values(),
    {
        let ghost k0 = old(self).string_keys();
        let ghost c0 = old(self).string_values();
        let mut j: usize = 0;
        while j < self.string_counts.len()
            invariant
                j <= self.string_counts@.len(),
                self.string_counts@ == old(self).string_counts@,
                self.constant_counts@ == old(self).constant_counts@,
                self.api_counts@ == old(self).api_counts@,
                old(self).wf(),
                k0 == old(self).string_keys(),
                c0 == old(self).string_values(),
                forall|a: int| 0 <= a < j ==> self.string_counts@[a].0@ != k@,
            decreases self.string_counts@.len() - j,
        {
            if str_eq(self.string_counts[j].0.as_str(), k.as_str()) {
                let c = self.string_counts[j].1;
                let key = self.string_counts[j].0.clone();
                self.string_counts.set(j, (key, c.saturating_add(1)));
                proof {
                    lemma_bump(k0, c0, self.string_keys(), self.string_values(), k@, j as int);
                }
                return;
            }
            j = j + 1;
        }
        self.string_counts.push((k.clone(), 1));
        proof {
            lemma_bump(k0, c0, self.string_keys(), self.string_values(), k@, j as int);
        }
    }

    fn bump_constant(&mut self, k: &ConstantValue)
        requires
            old(self).wf(),
        ensures
            final(self).wf(),
            final(self).constant_count(const_view(*k)) == capped((old(self).constant_count(const_view(*k)) + 1) as int),
            forall|x: ConstSpec| x != const_view(*k) ==> final(self).constant_count(x) == old(self).constant_count(x),
            final(self).string_keys() == old(self).string_keys(),
            final(self).string_values() == old(self).string_values(),
            final(self).api_keys() == old(self).api_keys(),
            final(self).api_values() == old(self).api_values(),
    {
        let ghost k0 = old(self).constant_keys();
        let ghost c0 = old(self).constant_values();
        let mut j: usize = 0;
        while j < self.constant_counts.len()
            invariant
                j <= self.constant_counts@.len(),
                self.string_counts@ == old(self).string_counts@,
                self.constant_counts@ == old(self).constant_counts@,
                self.api_counts@ == old(self).api_counts@,
                old(self).wf(),
                k0 == old(self).constant_keys(),
                c0 == old(self).constant_values(),
                forall|a: int| 0 <= a < j ==> const_view(self.constant_counts@[a].0) != const_view(*k),
            decreases self.constant_counts@.len() - j,
        {
            if same_constant(&self.constant_counts[j].0, k) {
                let c = self.constant_counts[j].1;
                let key = copy_constant(&self.constant_counts[j].0);
                self.constant_counts.set(j, (key, c.saturating_add(1)));
                proof {
                    lemma_bump(k0, c0, self.constant_keys(), self.constant_values(), const_view(*k), j as int);
                }
                return;
            }
            j = j + 1;
        }
        self.constant_counts.push((copy_constant(k), 1));
        proof {
            lemma_bump(k0, c0, self.constant_keys(), self.constant_values(), const_view(*k), j as int);
        }
    }

    fn bump_api(&mut self, object: &Option<String>, method: &String)
        requires
            old(self).wf(),
        ensures
            final(self).wf(),
            final(self).api_count((opt_view(*object), method@)) == capped(
                (old(self).api_count((opt_view(*object), method@)) + 1) as int,
            ),
            forall|x: (Option<Seq<char>>, Seq<char>)|
                x != (opt_view(*object), method@) ==> final(self).api_count(x) == old(self).api_count(x),
            final(self).string_keys() == old(self).string_keys(),
            final(self).string_values() == old(self).string_values(),
            final(self).constant_keys() == old(self).constant_keys(),
            final(self).constant_values() == old(self).constant_values(),
    {
        let ghost k0 = old(self).api_keys();
        let ghost c0 = old(self).api_values();
        let ghost kv = (opt_view(*object), method@);
        let mut j: usize = 0;
        while j < self.api_counts.len()
            invariant
                j <= self.api_counts@.len(),
                self.string_counts@ == old(self).string_counts@,
                self.constant_counts@ == old(self).constant_counts@,
                self.api_counts@ == old(self).api_counts@,
                old(self).wf(),
                k0 == old(self).api_keys(),
                c0 == old(self).api_values(),
                kv == (opt_view(*object), method@),
                forall|a: int| 0 <= a < j ==> api_key_view(self.api_counts@[a].0) != kv,
            decreases self.api_counts@.len() - j,
        {
            if same_opt_string(&self.api_counts[j].0.0, object) && str_eq(
                self.api_counts[j].0.1.as_str(),
                method.as_str(),
            ) {
                let c = self.api_counts[j].1;
                let key = (copy_opt_string(&self.api_counts[j].0.0), self.api_counts[j].0.1.clone());
                self.api_counts.set(j, (key, c.saturating_add(1)));
                proof {
                    lemma_bump(k0, c0, self.api_keys(), self.api_values(), kv, j as int);
                }
                return;
            }
            j = j + 1;
        }
        self.api_counts.push(((copy_opt_string(object), method.clone()), 1));
        proof {
            lemma_bump(k0, c0, self.api_keys(), self.api_values(), kv, j as int);
        }
    }
}



pub open spec fn fp_string_values(fp: FunctionFingerprint) -> Seq<Seq<char>> {
    fp.strings@.map_values(|x: StringFingerprint| x.value@)
}

pub open spec fn fp_api_keys(fp: FunctionFingerprint) -> Seq<(Option<Seq<char>>, Seq<char>)> {
    fp.api_calls@.map_values(|a: ApiCallFingerprint| (opt_view(a.object), a.method@))
}

proof fn lemma_occurrences_step<V>(s: Seq<V>, i: int, k: V)
    requires
        0 <= i < s.len(),
    ensures
        occurrences(s.take(i + 1), k) == occurrences(s.take(i), k) + if s[i] == k {
            1nat
        } else {
            0nat
        },
{
    assert(s.take(i + 1).drop_last() =~= s.take(i));
}

impl RarityScorer {
    /// Counts every string, constant and API call (by object and method) of `fp`.
    pub fn add_fingerprint(&mut self, fp: &FunctionFingerprint)
        requires
            old(self).wf(),
        ensures
            final(self).wf(),
            forall|k: Seq<char>|
                #[trigger] final(self).string_count(k) == capped_nat(
                    old(self).string_count(k) + occurrences(fp_string_values(*fp), k),
                ),
            forall|k: ConstSpec|
                #[trigger] final(self).constant_count(k) == capped_nat(
                    old(self).constant_count(k) + occurrences(constant_views(fp.constants@), k),
                ),
            forall|k: (Option<Seq<char>>, Seq<char>)|
                #[trigger] final(self).api_count(k) == capped_nat(
                    old(self).api_count(k) + occurrences(fp_api_keys(*fp), k),
                ),
    {
        let ghost sv = fp_string_values(*fp);
        let ghost cv = constant_views(fp.constants@);
        let ghost av = fp_api_keys(*fp);
        let mut i: usize = 0;
        while i < fp.strings.len()
            invariant
                self.wf(),
                i <= fp.strings@.len(),
                sv == fp_string_values(*fp),
                self.constant_keys() == old(self).constant_keys(),
                self.constant_values() == old(self).constant_values(),
                self.api_keys() == old(self).api_keys(),
                self.api_values() == old(self).api_values(),
                forall|k: Seq<char>|
                    #[trigger] self.string_count(k) == capped_nat(old(self).string_count(k) + occurrences(sv.take(i as int), k)),
            decreases fp.strings@.len() - i,
        {
            self.bump_string(&fp.strings[i].value);
            proof {
                assert forall|k: Seq<char>| #[trigger] self.string_count(k) == capped_nat(
                    old(self).string_count(k) + occurrences(sv.take(i + 1), k),
                ) by {
                    lemma_occurrences_step(sv, i as int, k);
                    lemma_capped_add((old(self).string_count(k) + occurrences(sv.take(i as int), k)) as int, 1);
                }
            }
            i = i + 1;
        }
        assert(sv.take(sv.len() as int) =~= sv);
        let mut i: usize = 0;
        while i < fp.constants.len()
            invariant
                self.wf(),
                i <= fp.constants@.len(),
                sv == fp_string_values(*fp),
                cv == constant_views(fp.constants@),
                self.api_keys() == old(self).api_keys(),
                self.api_values() == old(self).api_values(),
                forall|k: Seq<char>|
                    #[trigger] self.string_count(k) == capped_nat(old(self).string_count(k) + occurrences(sv, k)),
                forall|k: ConstSpec|
                    #[trigger] self.constant_count(k) == capped_nat(
                        old(self).constant_count(k) + occurrences(cv.take(i as int), k),
                    ),
            decreases fp.constants@.len() - i,
        {
            let ghost before = *self;
            self.bump_constant(&fp.constants[i].value);
            proof {
                assert forall|k: Seq<char>| #[trigger] self.string_count(k) == capped_nat(
                    old(self).string_count(k) + occurrences(sv, k),
                ) by {
                    assert(before.string_count(k) == self.string_count(k));
                }
                assert forall|k: ConstSpec| #[trigger] self.constant_count(k) == capped_nat(
                    old(self).constant_count(k) + occurrences(cv.take(i + 1), k),
                ) by {
                    lemma_occurrences_step(cv, i as int, k);
                    lemma_capped_add((old(self).constant_count(k) + occurrences(cv.take(i as int), k)) as int, 1);
                }
            }
            i = i + 1;
        }
        assert(cv.take(cv.len() as int) =~= cv);
        let mut i: usize = 0;
        while i < fp.api_calls.len()
            invariant
                self.wf(),
                i <= fp.api_calls@.len(),
                sv == fp_string_values(*fp),
                cv == constant_views(fp.constants@),
                av == fp_api_keys(*fp),
                forall|k: Seq<char>|
                    #[trigger] self.string_count(k) == capped_nat(old(self).string_count(k) + occurrences(sv, k)),
                forall|k: ConstSpec|
                    #[trigger] self.constant_count(k) == capped_nat(old(self).constant_count(k) + occurrences(cv, k)),
                forall|k: (Option<Seq<char>>, Seq<char>)|
                    #[trigger] self.api_count(k) == capped_nat(old(self).api_count(k) + occurrences(av.take(i as int), k)),
            decreases fp.api_calls@.len() - i,
        {
            let a = &fp.api_calls[i];
            let ghost before = *self;
            self.bump_api(&a.object, &a.method);
            proof {
                assert forall|k: Seq<char>| #[trigger] self.string_count(k) == capped_nat(
                    old(self).string_count(k) + occurrences(sv, k),
                ) by {
                    assert(before.string_count(k) == self.string_count(k));
                }
                assert forall|k: ConstSpec| #[trigger] self.constant_count(k) == capped_nat(
                    old(self).constant_count(k) + occurrences(cv, k),
                ) by {
                    assert(before.constant_count(k) == self.constant_count(k));
                }
                assert forall|k: (Option<Seq<char>>, Seq<char>)| #[trigger] self.api_count(k) == capped_nat(
                    old(self).api_count(k) + occurrences(av.take(i + 1), k),
                ) by {
                    lemma_occurrences_step(av, i as int, k);
                    lemma_capped_add((old(self).api_count(k) + occurrences(av.take(i as int), k)) as int, 1);
                }
            }
            i = i + 1;
        }
        proof {
            assert(sv.take(sv.len() as int) =~= sv);
            assert(cv.take(cv.len() as int) =~= cv);
            assert(av.take(av.len() as int) =~= av);
        }
    }

    /// How many times string `s` was seen.
    pub fn count_string(&self, s: &str) -> (r: usize)
        requires
            self.wf(),
        ensures
            r == self.string_count(s@),
    {
        let mut j: usize = 0;
        while j < self.string_counts.len()
            invariant
                self.wf(),
                j <= self.string_counts@.len(),
                forall|a: int| 0 <= a < j ==> self.string_keys()[a] != s@,
            decreases self.string_counts@.len() - j,
        {
            if str_eq(self.string_counts[j].0.as_str(), s) {
                proof {
                    lemma_count_found(self.string_keys(), self.string_values(), s@, j as int);
                }
                return self.string_counts[j].1;
            }
            j = j + 1;
        }
        0
    }

    /// How many times constant `c` was seen.
    pub fn count_constant(&self, c: &ConstantValue) -> (r: usize)
        requires
            self.wf(),
        ensures
            r == self.constant_count(const_view(*c)),
    {
        let mut j: usize = 0;
        while j < self.constant_counts.len()
            invariant
                self.wf(),
                j <= self.constant_counts@.len(),
                forall|a: int| 0 <= a < j ==> self.constant_keys()[a] != const_view(*c),
            decreases self.constant_counts@.len() - j,
        {
            if same_constant(&self.constant_counts[j].0, c) {
                proof {
                    lemma_count_found(self.constant_keys(), self.constant_values(), const_view(*c), j as int);
                }
                return self.constant_counts[j].1;
            }
            j = j + 1;
        }
        0
    }

    /// How many times a call of the same method on the same object as `api` was seen.
    pub fn count_api_call(&self, api: &ApiCallFingerprint) -> (r: usize)
        requires
            self.wf(),
        ensures
            r == self.api_count((opt_view(api.object), api.method@)),
    {
        let ghost kv = (opt_view(api.object), api.method@);
        let mut j: usize = 0;
        while j < self.api_counts.len()
            invariant
                self.wf(),
                j <= self.api_counts@.len(),
                kv == (opt_view(api.object), api.method@),
                forall|a: int| 0 <= a < j ==> self.api_keys()[a] != kv,
            decreases self.api_counts@.len() - j,
        {
            if same_opt_string(&self.api_counts[j].0.0, &api.object) && str_eq(
                self.api_counts[j].0.1.as_str(),
                api.method.as_str(),
            ) {
                proof {
                    lemma_count_found(self.api_keys(), self.api_values(), kv, j as int);
                }
                return self.api_counts[j].1;
            }
            j = j + 1;
        }
        0
    }
}



/// The least number of single-character insertions, deletions and
/// substitutions that turn `a` into `b`.
pub open spec fn edit_distance(a: Seq<char>, b: Seq<char>) -> nat
    decreases a.len() + b.len(),
{
    if a.len() == 0 {
        b.len()
    } else if b.len() == 0 {
        a.len()
    } else {
        let del = edit_distance(a.drop_first(), b) + 1;
        let ins = edit_distance(a, b.drop_first()) + 1;
        let sub = edit_distance(a.drop_first(), b.drop_first()) + if a[0] == b[0] {
            0nat
        } else {
            1nat
        };
        if del <= ins && del <= sub {
            del
        } else if ins <= sub {
            ins
        } else {
            sub
        }
    }
}

/// `strsim::levenshtein`: the edit distance between the characters of `a`
/// and `b`, as the crate documents it (insertions, deletions and
/// substitutions).
#[verifier::external_body]
fn levenshtein(a: &str, b: &str) -> (d: usize)
    ensures
        d == edit_distance(a@, b@),
{
    strsim::levenshtein(a, b)
}

/// A string is at distance zero from itself.
pub proof fn lemma_edit_distance_self(a: Seq<char>)
    ensures
        edit_distance(a, a) == 0,
    decreases a.len(),
{
    if a.len() > 0 {
        lemma_edit_distance_self(a.drop_first());
    }
}

/// A change to the string constants between two versions of a function.
/// A modification keeps the edit distance between the two values and the
/// longer value's length in characters: their similarity is one minus the
/// ratio (one when both are empty).
#[derive(Debug, Clone)]
pub enum StringChange {
    Added(StringFingerprint),
    Removed(StringFingerprint),
    Modified { old: StringFingerprint, new: StringFingerprint, distance: usize, max_len: usize },
}

#[derive(Debug, Clone)]
pub struct StringDiff {
    pub changes: Vec<StringChange>,
    /// The changes that involve a string of more than 100 characters.
    pub important_changes: Vec<StringChange>,
    pub added_count: usize,
    pub removed_count: usize,
    pub modified_count: usize,
}

/// A change as plain values.
pub enum ChangeSpec {
    Added(StringView),
    Removed(StringView),
    Modified(StringView, StringView, nat, nat),
}

pub open spec fn change_view(c: StringChange) -> ChangeSpec {
    match c {
        StringChange::Added(s) => ChangeSpec::Added(string_fp_view(s)),
        StringChange::Removed(s) => ChangeSpec::Removed(string_fp_view(s)),
        StringChange::Modified { old, new, distance, max_len } => ChangeSpec::Modified(
            string_fp_view(old),
            string_fp_view(new),
            distance as nat,
            max_len as nat,
        ),
    }
}

pub open spec fn change_views(s: Seq<StringChange>) -> Seq<ChangeSpec> {
    s.map_values(|c: StringChange| change_view(c))
}

/// Whether some string of `v` has value `s`.
pub open spec fn in_values(v: Seq<StringView>, s: Seq<char>) -> bool {
    exists|j: int| 0 <= j < v.len() && (#[trigger] v[j]).0 == s
}

/// The length in characters of the longer of `a` and `b`.
pub open spec fn char_max(a: Seq<char>, b: Seq<char>) -> nat {
    if a.len() >= b.len() {
        a.len()
    } else {
        b.len()
    }
}

/// Whether the byte lengths of `a` and `b` are within a factor of two
/// (the shorter counted as at least one).
pub open spec fn lengths_close(a: Seq<char>, b: Seq<char>) -> bool {
    let x = capped_nat(utf8_len(a)) as int;
    let y = capped_nat(utf8_len(b)) as int;
    let hi = if x >= y {
        x
    } else {
        y
    };
    let lo = if x <= y {
        x
    } else {
        y
    };
    let lo1 = if lo >= 1 {
        lo
    } else {
        1
    };
    hi < 2 * lo1
}

/// Whether the similarity of `a` and `b` (one minus edit distance over the
/// longer length) exceeds 60%.
pub open spec fn similar_enough(a: Seq<char>, b: Seq<char>) -> bool {
    let m = char_max(a, b);
    m == 0 || 5 * edit_distance(a, b) < 2 * m
}

/// Edit distance over longer length, with two empty strings at 0/1.
pub open spec fn dist_ratio(a: Seq<char>, b: Seq<char>) -> (nat, nat) {
    let m = char_max(a, b);
    if m == 0 {
        (0, 1)
    } else {
        (edit_distance(a, b), m)
    }
}

/// Whether `x` is at least as similar to `a` as `y` is.
pub open spec fn at_least_as_similar(a: Seq<char>, x: Seq<char>, y: Seq<char>) -> bool {
    let rx = dist_ratio(a, x);
    let ry = dist_ratio(a, y);
    rx.0 * ry.1 <= ry.0 * rx.1
}

/// Whether string `j` of `v2` may stand for `s1` changed: not taken yet, not
/// an exact match of a string of `v1`, of similar length, and over 60% similar.
pub open spec fn candidate(v1: Seq<StringView>, v2: Seq<StringView>, s1: Seq<char>, used: Set<int>, j: int) -> bool {
    &&& !used.contains(j)
    &&& !in_values(v1, v2[j].0)
    &&& lengths_close(s1, v2[j].0)
    &&& similar_enough(s1, v2[j].0)
}

/// Among the first `n` strings of `v2`, the last of the most similar candidates for `s1`.
pub open spec fn best_candidate(v1: Seq<StringView>, v2: Seq<StringView>, s1: Seq<char>, used: Set<int>, n: int) -> Option<
    int,
>
    decreases n,
{
    if n <= 0 {
        None
    } else {
        let b = best_candidate(v1, v2, s1, used, n - 1);
        if candidate(v1, v2, s1, used, n - 1) && (match b {
            Some(bb) => at_least_as_similar(s1, v2[n - 1].0, v2[bb].0),
            None => true,
        }) {
            Some(n - 1)
        } else {
            b
        }
    }
}

/// The changes for the first `i` strings of `v1` and the strings of `v2`
/// they took: a string with no exact match is modified into its best
/// candidate, or removed.
pub open spec fn pair_phase(v1: Seq<StringView>, v2: Seq<StringView>, i: int) -> (Seq<ChangeSpec>, Set<int>)
    decreases i,
{
    if i <= 0 {
        (seq![], Set::empty())
    } else {
        let prev = pair_phase(v1, v2, i - 1);
        let s1 = v1[i - 1];
        if in_values(v2, s1.0) {
            prev
        } else {
            match best_candidate(v1, v2, s1.0, prev.1, v2.len() as int) {
                Some(j) => (
                    prev.0.push(
                        ChangeSpec::Modified(s1, v2[j], edit_distance(s1.0, v2[j].0), char_max(s1.0, v2[j].0)),
                    ),
                    prev.1.insert(j),
                ),
                None => (prev.0.push(ChangeSpec::Removed(s1)), prev.1),
            }
        }
    }
}

/// The strings among the first `j` of `v2` that are neither exact matches
/// nor taken: added.
pub open spec fn additions(v1: Seq<StringView>, v2: Seq<StringView>, used: Set<int>, j: int) -> Seq<ChangeSpec>
    decreases j,
{
    if j <= 0 {
        seq![]
    } else {
        additions(v1, v2, used, j - 1) + if !in_values(v1, v2[j - 1].0) && !used.contains(j - 1) {
            seq![ChangeSpec::Added(v2[j - 1])]
        } else {
            seq![]
        }
    }
}

/// All string changes from `v1` to `v2`: modifications and removals in the
/// order of `v1`, then additions in the order of `v2`.
pub open spec fn string_changes(v1: Seq<StringView>, v2: Seq<StringView>) -> Seq<ChangeSpec> {
    let p = pair_phase(v1, v2, v1.len() as int);
    p.0 + additions(v1, v2, p.1, v2.len() as int)
}

/// Whether `b` is strictly closer to `a` than `c` is, by edit distance over
/// the longer length.
pub open spec fn strictly_closer(a: Seq<char>, b: Seq<char>, c: Seq<char>) -> bool {
    dist_ratio(a, b).0 * dist_ratio(a, c).1 < dist_ratio(a, c).0 * dist_ratio(a, b).1
}

proof fn lemma_ratio_order_transitive(x0: nat, x1: nat, y0: nat, y1: nat, z0: nat, z1: nat)
    by (nonlinear_arith)
    requires
        x1 > 0,
        y1 > 0,
        z1 > 0,
        x0 * y1 <= y0 * x1,
        y0 * z1 <= z0 * y1,
    ensures
        x0 * z1 <= z0 * x1,
{
    assert(x0 * y1 * z1 <= y0 * x1 * z1);
    assert(y0 * z1 * x1 <= z0 * y1 * x1);
}

/// The best candidate among the first `n` strings is a candidate, and no
/// candidate among them is strictly closer; with none found, there is no
/// candidate among them.
proof fn lemma_best_candidate_is_closest(
    v1: Seq<StringView>,
    v2: Seq<StringView>,
    s1: Seq<char>,
    used: Set<int>,
    n: int,
)
    requires
        n <= v2.len(),
    ensures
        match best_candidate(v1, v2, s1, used, n) {
            Some(b) => {
                &&& 0 <= b < n
                &&& candidate(v1, v2, s1, used, b)
                &&& forall|j: int|
                    0 <= j < n && candidate(v1, v2, s1, used, j) ==> !strictly_closer(
                        s1,
                        #[trigger] v2[j].0,
                        v2[b].0,
                    )
                &&& forall|j: int|
                    b < j < n && candidate(v1, v2, s1, used, j) ==> strictly_closer(s1, v2[b].0, #[trigger] v2[j].0)
            },
            None => forall|j: int| 0 <= j < n ==> !candidate(v1, v2, s1, used, j),
        },
    decreases n,
{
    if n > 0 {
        lemma_best_candidate_is_closest(v1, v2, s1, used, n - 1);
        let b = best_candidate(v1, v2, s1, used, n - 1);
        let x = v2[n - 1].0;
        if let Some(bb) = b {
            let y = v2[bb].0;
            let rx = dist_ratio(s1, x);
            let ry = dist_ratio(s1, y);
            if candidate(v1, v2, s1, used, n - 1) && at_least_as_similar(s1, x, y) {
                assert forall|j: int| 0 <= j < n && candidate(v1, v2, s1, used, j) implies !strictly_closer(
                    s1,
                    #[trigger] v2[j].0,
                    x,
                ) by {
                    if j < n - 1 {
                        let rz = dist_ratio(s1, v2[j].0);
                        assert(!strictly_closer(s1, v2[j].0, y));
                        lemma_ratio_order_transitive(rx.0, rx.1, ry.0, ry.1, rz.0, rz.1);
                    }
                }
            } else if candidate(v1, v2, s1, used, n - 1) {
                assert(!strictly_closer(s1, x, y));
            }
        }
    }
}

/// When the `i`-th string of the first list has no exact match and is
/// paired as modified, it is paired with a string of the second list that
/// was still free and a candidate for it (not an exact match of the first
/// list, under twice the other's length in UTF-8 bytes each way, the
/// shorter counted as at least one, and with five times the edit distance
/// under twice the longer length in characters, that is over 60% similar),
/// which is then taken; no candidate is strictly closer to it, and every
/// candidate after the one taken is strictly farther (of equally close
/// candidates the last is taken). When it is removed, there was no
/// candidate, and nothing is taken.
pub proof fn lemma_paired_string_is_closest(v1: Seq<StringView>, v2: Seq<StringView>, i: int)
    requires
        0 <= i < v1.len(),
        !in_values(v2, v1[i].0),
    ensures
        pair_phase(v1, v2, i + 1).0.len() == pair_phase(v1, v2, i).0.len() + 1,
        pair_phase(v1, v2, i + 1).0.last() matches ChangeSpec::Modified(old_s, new_s, _, _) ==> {
            &&& old_s == v1[i]
            &&& !in_values(v1, new_s.0)
            &&& (capped_nat(utf8_len(new_s.0)) as int) < 2 * (if capped_nat(utf8_len(v1[i].0)) >= 1 {
                capped_nat(utf8_len(v1[i].0)) as int
            } else {
                1
            })
            &&& (capped_nat(utf8_len(v1[i].0)) as int) < 2 * (if capped_nat(utf8_len(new_s.0)) >= 1 {
                capped_nat(utf8_len(new_s.0)) as int
            } else {
                1
            })
            &&& char_max(v1[i].0, new_s.0) == 0 || 5 * edit_distance(v1[i].0, new_s.0) < 2 * char_max(v1[i].0, new_s.0)
            &&& exists|k: int|
                {
                    &&& 0 <= k < v2.len()
                    &&& v2[k] == new_s
                    &&& candidate(v1, v2, v1[i].0, pair_phase(v1, v2, i).1, k)
                    &&& pair_phase(v1, v2, i + 1).1 == pair_phase(v1, v2, i).1.insert(k)
                    &&& forall|j: int|
                        k < j < v2.len() && candidate(v1, v2, v1[i].0, pair_phase(v1, v2, i).1, j)
                            ==> strictly_closer(v1[i].0, new_s.0, #[trigger] v2[j].0)
                }
            &&& forall|j: int|
                0 <= j < v2.len() && candidate(v1, v2, v1[i].0, pair_phase(v1, v2, i).1, j) ==> !strictly_closer(
                    v1[i].0,
                    #[trigger] v2[j].0,
                    new_s.0,
                )
        },
        pair_phase(v1, v2, i + 1).0.last() matches ChangeSpec::Removed(old_s) ==> {
            &&& old_s == v1[i]
            &&& pair_phase(v1, v2, i + 1).1 == pair_phase(v1, v2, i).1
            &&& forall|j: int| 0 <= j < v2.len() ==> !candidate(v1, v2, v1[i].0, pair_phase(v1, v2, i).1, j)
        },
{
    lemma_best_candidate_is_closest(v1, v2, v1[i].0, pair_phase(v1, v2, i).1, v2.len() as int);
}

/// Whether a change involves a string of more than 100 characters.
pub open spec fn is_important(c: ChangeSpec) -> bool {
    match c {
        ChangeSpec::Added(s) => s.0.len() > 100,
        ChangeSpec::Removed(s) => s.0.len() > 100,
        ChangeSpec::Modified(o, n, _, _) => o.0.len() > 100 || n.0.len() > 100,
    }
}

pub open spec fn important_of(cs: Seq<ChangeSpec>) -> Seq<ChangeSpec>
    decreases cs.len(),
{
    if cs.len() == 0 {
        seq![]
    } else {
        important_of(cs.drop_last()) + if is_important(cs.last()) {
            seq![cs.last()]
        } else {
            seq![]
        }
    }
}

/// The number of changes of each kind: added, removed, modified.
pub open spec fn kind_counts(cs: Seq<ChangeSpec>) -> (nat, nat, nat)
    decreases cs.len(),
{
    if cs.len() == 0 {
        (0, 0, 0)
    } else {
        let p = kind_counts(cs.drop_last());
        match cs.last() {
            ChangeSpec::Added(_) => (p.0 + 1, p.1, p.2),
            ChangeSpec::Removed(_) => (p.0, p.1 + 1, p.2),
            ChangeSpec::Modified(..) => (p.0, p.1, p.2 + 1),
        }
    }
}

/// Whether `d` is the string diff from `fp1` to `fp2`.
pub open spec fn is_string_diff(fp1: FunctionFingerprint, fp2: FunctionFingerprint, d: StringDiff) -> bool {
    let cs = string_changes(string_views(fp1.strings@), string_views(fp2.strings@));
    let k = kind_counts(cs);
    &&& change_views(d.changes@) == cs
    &&& change_views(d.important_changes@) == important_of(cs)
    &&& d.added_count == k.0
    &&& d.removed_count == k.1
    &&& d.modified_count == k.2
}

fn copy_fp(s: &StringFingerprint) -> (r: StringFingerprint)
    ensures
        string_fp_view(r) == string_fp_view(*s),
{
    StringFingerprint { value: s.value.clone(), context: s.context }
}

fn copy_change(c: &StringChange) -> (r: StringChange)
    ensures
        change_view(r) == change_view(*c),
{
    match c {
        StringChange::Added(s) => StringChange::Added(copy_fp(s)),
        StringChange::Removed(s) => StringChange::Removed(copy_fp(s)),
        StringChange::Modified { old, new, distance, max_len } => StringChange::Modified {
            old: copy_fp(old),
            new: copy_fp(new),
            distance: *distance,
            max_len: *max_len,
        },
    }
}

/// Whether some string of `v` has the value `s`.
fn has_value(v: &Vec<StringFingerprint>, s: &str) -> (r: bool)
    ensures
        r == in_values(string_views(v@), s@),
{
    let ghost sv = string_views(v@);
    let mut j: usize = 0;
    while j < v.len()
        invariant
            j <= v@.len(),
            sv == string_views(v@),
            forall|a: int| 0 <= a < j ==> sv[a].0 != s@,
        decreases v@.len() - j,
    {
        assert(sv[j as int] == string_fp_view(v@[j as int]));
        if str_eq(v[j].value.as_str(), s) {
            return true;
        }
        j = j + 1;
    }
    false
}

fn lengths_close_exec(a: &str, b: &str) -> (r: bool)
    ensures
        r == lengths_close(a@, b@),
{
    let x = byte_len(a);
    let y = byte_len(b);
    let hi = if x >= y {
        x
    } else {
        y
    };
    let lo = if x <= y {
        x
    } else {
        y
    };
    let lo1 = if lo >= 1 {
        lo
    } else {
        1
    };
    hi < lo1 || hi - lo1 < lo1
}



/// Whether `a * b <= c * d`.
fn products_le(a: usize, b: usize, c: usize, d: usize) -> (r: bool)
    ensures
        r == (a * b <= c * d),
{
    proof {
        lemma_products_fit(a, b);
        lemma_products_fit(c, d);
    }
    let x = (a as u128) * (b as u128);
    let y = (c as u128) * (d as u128);
    x <= y
}

proof fn lemma_products_fit(a: usize, b: usize)
    ensures
        (a as u128) * (b as u128) <= u128::MAX,
{
    assert((a as int) * (b as int) <= (usize::MAX as int) * (usize::MAX as int)) by (nonlinear_arith);
    assert((usize::MAX as int) * (usize::MAX as int) <= u128::MAX) by (nonlinear_arith);
}

/// The best candidate in `fp2` for the string `s1` of `fp1`: its index, edit
/// distance and longer length.
fn find_best(
    fp1: &FunctionFingerprint,
    fp2: &FunctionFingerprint,
    exact2: &Vec<bool>,
    used: &Vec<bool>,
    s1: &String,
    Ghost(u): Ghost<Set<int>>,
) -> (r: Option<(usize, usize, usize)>)
    requires
        exact2@.len() == fp2.strings@.len(),
        used@.len() == fp2.strings@.len(),
        forall|j: int|
            0 <= j < fp2.strings@.len() ==> #[trigger] exact2@[j] == in_values(
                string_views(fp1.strings@),
                fp2.strings@[j].value@,
            ),
        forall|j: int| 0 <= j < fp2.strings@.len() ==> #[trigger] used@[j] == u.contains(j),
    ensures
        match r {
            Some((j, d, m)) => best_candidate(
                string_views(fp1.strings@),
                string_views(fp2.strings@),
                s1@,
                u,
                fp2.strings@.len() as int,
            ) == Some(j as int) && j < fp2.strings@.len() && d == edit_distance(s1@, fp2.strings@[j as int].value@)
                && m == char_max(s1@, fp2.strings@[j as int].value@),
            None => best_candidate(
                string_views(fp1.strings@),
                string_views(fp2.strings@),
                s1@,
                u,
                fp2.strings@.len() as int,
            ) is None,
        },
{
    let ghost v1 = string_views(fp1.strings@);
    let ghost v2 = string_views(fp2.strings@);
    let n1 = chars_of(s1.as_str()).len();
    let mut best: Option<(usize, usize, usize)> = None;
    let mut j: usize = 0;
    while j < fp2.strings.len()
        invariant
            j <= fp2.strings@.len(),
            v1 == string_views(fp1.strings@),
            v2 == string_views(fp2.strings@),
            n1 == s1@.len(),
            exact2@.len() == fp2.strings@.len(),
            used@.len() == fp2.strings@.len(),
            forall|a: int| 0 <= a < fp2.strings@.len() ==> #[trigger] exact2@[a] == in_values(v1, fp2.strings@[a].value@),
            forall|a: int| 0 <= a < fp2.strings@.len() ==> #[trigger] used@[a] == u.contains(a),
            match best {
                Some((b, d, m)) => best_candidate(v1, v2, s1@, u, j as int) == Some(b as int) && b < j && d
                    == edit_distance(s1@, fp2.strings@[b as int].value@) && m == char_max(s1@, fp2.strings@[b as int].value@),
                None => best_candidate(v1, v2, s1@, u, j as int) is None,
            },
        decreases fp2.strings@.len() - j,
    {
        let s2 = &fp2.strings[j];
        assert(v2[j as int] == string_fp_view(fp2.strings@[j as int]));
        if !used[j] && !exact2[j] && lengths_close_exec(s1.as_str(), s2.value.as_str()) {
            let n2 = chars_of(s2.value.as_str()).len();
            let m = if n1 >= n2 {
                n1
            } else {
                n2
            };
            let d = levenshtein(s1.as_str(), s2.value.as_str());
            let similar = m == 0 || (d as u128) * 5 < (m as u128) * 2;
            if similar {
                let better = match best {
                    Some((_, bd, bm)) => {
                        let (dj, mj) = if m == 0 {
                            (0, 1)
                        } else {
                            (d, m)
                        };
                        let (db, mb) = if bm == 0 {
                            (0, 1)
                        } else {
                            (bd, bm)
                        };
                        products_le(dj, mb, db, mj)
                    },
                    None => true,
                };
                if better {
                    best = Some((j, d, m));
                }
            }
        }
        j = j + 1;
    }
    best
}

/// The changes to string constants from `fp1` to `fp2`. Strings found in
/// both are unchanged. Each other string of `fp1`, in order, is modified into
/// the most similar string of `fp2` not yet taken (within twice the length
/// and over 60% similar by edit distance; the last of equally similar ones),
/// or removed when there is none; the strings of `fp2` left over are added.
pub fn compute_string_diff(fp1: &FunctionFingerprint, fp2: &FunctionFingerprint) -> (r: StringDiff)
    ensures
        is_string_diff(*fp1, *fp2, r),
{
    let ghost v1 = string_views(fp1.strings@);
    let ghost v2 = string_views(fp2.strings@);
    let n2 = fp2.strings.len();
    let mut exact2: Vec<bool> = Vec::new();
    let mut used: Vec<bool> = Vec::new();
    let mut j: usize = 0;
    while j < n2
        invariant
            n2 == fp2.strings@.len(),
            j <= n2,
            v1 == string_views(fp1.strings@),
            exact2@.len() == j,
            used@.len() == j,
            forall|a: int| 0 <= a < j ==> #[trigger] exact2@[a] == in_values(v1, fp2.strings@[a].value@),
            forall|a: int| 0 <= a < j ==> !(#[trigger] used@[a]),
        decreases n2 - j,
    {
        let e = has_value(&fp1.strings, fp2.strings[j].value.as_str());
        exact2.push(e);
        used.push(false);
        j = j + 1;
    }
    let mut changes: Vec<StringChange> = Vec::new();
    let mut i: usize = 0;
    assert(change_views(changes@) =~= pair_phase(v1, v2, 0).0);
    while i < fp1.strings.len()
        invariant
            n2 == fp2.strings@.len(),
            i <= fp1.strings@.len(),
            v1 == string_views(fp1.strings@),
            v2 == string_views(fp2.strings@),
            exact2@.len() == n2,
            used@.len() == n2,
            forall|a: int| 0 <= a < n2 ==> #[trigger] exact2@[a] == in_values(v1, fp2.strings@[a].value@),
            forall|a: int| 0 <= a < n2 ==> #[trigger] used@[a] == pair_phase(v1, v2, i as int).1.contains(a),
            change_views(changes@) == pair_phase(v1, v2, i as int).0,
        decreases fp1.strings@.len() - i,
    {
        let ghost prev = pair_phase(v1, v2, i as int);
        let s1 = &fp1.strings[i];
        assert(v1[i as int] == string_fp_view(fp1.strings@[i as int]));
        let ghost before = changes@;
        if !has_value(&fp2.strings, s1.value.as_str()) {
            match find_best(fp1, fp2, &exact2, &used, &s1.value, Ghost(prev.1)) {
                Some((b, d, m)) => {
                    assert(v2[b as int] == string_fp_view(fp2.strings@[b as int]));
                    changes.push(
                        StringChange::Modified {
                            old: copy_fp(s1),
                            new: copy_fp(&fp2.strings[b]),
                            distance: d,
                            max_len: m,
                        },
                    );
                    used.set(b, true);
                    proof {
                        assert(change_views(changes@) =~= change_views(before).push(change_view(changes@.last())));
                    }
                },
                None => {
                    changes.push(StringChange::Removed(copy_fp(s1)));
                    proof {
                        assert(change_views(changes@) =~= change_views(before).push(change_view(changes@.last())));
                    }
                },
            }
        }
        i = i + 1;
    }
    let ghost p = pair_phase(v1, v2, fp1.strings@.len() as int);
    let ghost head = change_views(changes@);
    let mut j: usize = 0;
    assert(change_views(changes@) =~= p.0 + additions(v1, v2, p.1, 0));
    while j < n2
        invariant
            n2 == fp2.strings@.len(),
            j <= n2,
            v1 == string_views(fp1.strings@),
            v2 == string_views(fp2.strings@),
            exact2@.len() == n2,
            used@.len() == n2,
            forall|a: int| 0 <= a < n2 ==> #[trigger] exact2@[a] == in_values(v1, fp2.strings@[a].value@),
            forall|a: int| 0 <= a < n2 ==> #[trigger] used@[a] == p.1.contains(a),
            change_views(changes@) == p.0 + additions(v1, v2, p.1, j as int),
        decreases n2 - j,
    {
        let ghost before = changes@;
        assert(v2[j as int] == string_fp_view(fp2.strings@[j as int]));
        if !exact2[j] && !used[j] {
            changes.push(StringChange::Added(copy_fp(&fp2.strings[j])));
            assert(change_views(changes@) =~= change_views(before).push(change_view(changes@.last())));
        }
        assert(change_views(changes@) =~= p.0 + additions(v1, v2, p.1, j + 1));
        j = j + 1;
    }
    let ghost cs = change_views(changes@);
    let mut important: Vec<StringChange> = Vec::new();
    let mut added_count: usize = 0;
    let mut removed_count: usize = 0;
    let mut modified_count: usize = 0;
    let mut k: usize = 0;
    assert(change_views(important@) =~= important_of(cs.take(0)));
    while k < changes.len()
        invariant
            k <= changes@.len(),
            cs == change_views(changes@),
            change_views(important@) == important_of(cs.take(k as int)),
            (added_count as nat, removed_count as nat, modified_count as nat) == kind_counts(cs.take(k as int)),
            added_count + removed_count + modified_count == k,
        decreases changes@.len() - k,
    {
        let ghost before = important@;
        assert(cs.take(k + 1).drop_last() =~= cs.take(k as int));
        assert(cs.take(k + 1).last() == change_view(changes@[k as int]));
        let c = &changes[k];
        let imp = match c {
            StringChange::Added(s) => chars_of(s.value.as_str()).len() > 100,
            StringChange::Removed(s) => chars_of(s.value.as_str()).len() > 100,
            StringChange::Modified { old, new, .. } => chars_of(old.value.as_str()).len() > 100
                || chars_of(new.value.as_str()).len() > 100,
        };
        if imp {
            important.push(copy_change(c));
            assert(change_views(important@) =~= change_views(before).push(change_view(important@.last())));
        }
        match c {
            StringChange::Added(_) => {
                added_count = added_count + 1;
            },
            StringChange::Removed(_) => {
                removed_count = removed_count + 1;
            },
            StringChange::Modified { .. } => {
                modified_count = modified_count + 1;
            },
        }
        k = k + 1;
    }
    assert(cs.take(k as int) =~= cs);
    StringDiff { changes, important_changes: important, added_count, removed_count, modified_count }
}

impl StringDiff {
    pub fn is_empty(&self) -> (r: bool)
        ensures
            r == (self.changes@.len() == 0),
    {
        self.changes.len() == 0
    }

    pub fn has_important_changes(&self) -> (r: bool)
        ensures
            r == (self.important_changes@.len() > 0),
    {
        self.important_changes.len() > 0
    }
}

/// Like `compute_string_diff`, after renaming the identifiers inside
/// `fp2`'s strings by `rename_map` (new name to old), when it is not empty.
pub fn compute_string_diff_normalized(
    fp1: &FunctionFingerprint,
    fp2: &FunctionFingerprint,
    rename_map: &Vec<(String, String)>,
) -> (r: StringDiff)
    requires
        keys_unique(rename_map@),
    ensures
        rename_map@.len() == 0 ==> is_string_diff(*fp1, *fp2, r),
        rename_map@.len() > 0 ==> exists|fp: FunctionFingerprint| #[trigger] renamed_fingerprint(*fp2, rename_map@, fp)
            && is_string_diff(*fp1, fp, r),
{
    if rename_map.len() == 0 {
        return compute_string_diff(fp1, fp2);
    }
    let mut strings: Vec<StringFingerprint> = Vec::new();
    let mut i: usize = 0;
    while i < fp2.strings.len()
        invariant
            i <= fp2.strings@.len(),
            keys_unique(rename_map@),
            strings@.len() == i,
            forall|a: int|
                0 <= a < i ==> (#[trigger] strings@[a]).value@ == map_identifiers(
                    fp2.strings@[a].value@,
                    0,
                    seq![],
                    rename_by(rename_map@),
                ) && strings@[a].context == fp2.strings@[a].context,
        decreases fp2.strings@.len() - i,
    {
        let value = normalize_string_with_renames(fp2.strings[i].value.as_str(), rename_map);
        strings.push(StringFingerprint { value, context: fp2.strings[i].context });
        i = i + 1;
    }
    let normalized = FunctionFingerprint {
        strings,
        constants: fp2.constants.clone(),
        api_calls: fp2.api_calls.clone(),
        size: fp2.size,
    };
    let r = compute_string_diff(fp1, &normalized);
    assert(renamed_fingerprint(*fp2, rename_map@, normalized));
    r
}

/// Whether `fp`'s strings are those of `fp2` with their identifiers renamed
/// by `rename_map`, in the same order and with the same contexts.
pub open spec fn renamed_fingerprint(fp2: FunctionFingerprint, rename_map: Seq<(String, String)>, fp: FunctionFingerprint) -> bool {
    &&& fp.strings@.len() == fp2.strings@.len()
    &&& forall|a: int|
        0 <= a < fp.strings@.len() ==> (#[trigger] fp.strings@[a]).value@ == map_identifiers(
            fp2.strings@[a].value@,
            0,
            seq![],
            rename_by(rename_map),
        ) && fp.strings@[a].context == fp2.strings@[a].context
}



/// Comparing a fingerprint's strings with themselves finds no change.
pub proof fn lemma_string_diff_self(v: Seq<StringView>)
    ensures
        string_changes(v, v) == Seq::<ChangeSpec>::empty(),
{
    lemma_pair_phase_self(v, v.len() as int);
    lemma_additions_self(v, Set::empty(), v.len() as int);
}

proof fn lemma_pair_phase_self(v: Seq<StringView>, i: int)
    requires
        0 <= i <= v.len(),
    ensures
        pair_phase(v, v, i) == (Seq::<ChangeSpec>::empty(), Set::<int>::empty()),
    decreases i,
{
    if i > 0 {
        lemma_pair_phase_self(v, i - 1);
        assert(in_values(v, v[i - 1].0));
    }
}

proof fn lemma_additions_self(v: Seq<StringView>, used: Set<int>, j: int)
    requires
        0 <= j <= v.len(),
    ensures
        additions(v, v, used, j) == Seq::<ChangeSpec>::empty(),
    decreases j,
{
    if j > 0 {
        lemma_additions_self(v, used, j - 1);
        assert(in_values(v, v[j - 1].0));
        assert(additions(v, v, used, j) =~= Seq::<ChangeSpec>::empty());
    }
}


/// Whether some string of `ss` has the characters `v`.
pub open spec fn has_string_value(ss: Seq<StringFingerprint>, v: Seq<char>) -> bool {
    exists|j: int| 0 <= j < ss.len() && (#[trigger] ss[j]).value@ == v
}

/// Whether some constant of `cs` has the value `c`.
pub open spec fn has_constant_value(cs: Seq<ConstantFingerprint>, c: ConstSpec) -> bool {
    exists|j: int| 0 <= j < cs.len() && const_view((#[trigger] cs[j]).value) == c
}

/// Whether some call of `calls` has the object `o` and the method `m`.
pub open spec fn has_call(calls: Seq<ApiCallFingerprint>, o: Option<Seq<char>>, m: Seq<char>) -> bool {
    exists|j: int| 0 <= j < calls.len() && opt_view((#[trigger] calls[j]).object) == o && calls[j].method@ == m
}

/// The indices below `k` of the strings of `ss` whose value `other` has
/// (`present`) or lacks.
pub open spec fn string_indices(ss: Seq<StringFingerprint>, other: Seq<StringFingerprint>, k: int, present: bool) -> Seq<
    usize,
>
    decreases k,
{
    if k <= 0 {
        seq![]
    } else {
        string_indices(ss, other, k - 1, present) + if has_string_value(other, ss[k - 1].value@) == present {
            seq![(k - 1) as usize]
        } else {
            seq![]
        }
    }
}

/// The indices below `k` of the constants of `cs` whose value `other` has.
pub open spec fn constant_indices(cs: Seq<ConstantFingerprint>, other: Seq<ConstantFingerprint>, k: int) -> Seq<usize>
    decreases k,
{
    if k <= 0 {
        seq![]
    } else {
        constant_indices(cs, other, k - 1) + if has_constant_value(other, const_view(cs[k - 1].value)) {
            seq![(k - 1) as usize]
        } else {
            seq![]
        }
    }
}

/// The indices below `k` of the calls of `calls` whose object and method
/// `other` also has.
pub open spec fn call_indices(calls: Seq<ApiCallFingerprint>, other: Seq<ApiCallFingerprint>, k: int) -> Seq<usize>
    decreases k,
{
    if k <= 0 {
        seq![]
    } else {
        call_indices(calls, other, k - 1) + if has_call(other, opt_view(calls[k - 1].object), calls[k - 1].method@) {
            seq![(k - 1) as usize]
        } else {
            seq![]
        }
    }
}

fn string_value_in(ss: &Vec<StringFingerprint>, v: &str) -> (r: bool)
    ensures
        r == has_string_value(ss@, v@),
{
    let mut j: usize = 0;
    while j < ss.len()
        invariant
            j <= ss@.len(),
            forall|i: int| 0 <= i < j ==> (#[trigger] ss@[i]).value@ != v@,
        decreases ss@.len() - j,
    {
        if str_eq(ss[j].value.as_str(), v) {
            return true;
        }
        j = j + 1;
    }
    false
}

fn constant_value_in(cs: &Vec<ConstantFingerprint>, c: &ConstantValue) -> (r: bool)
    ensures
        r == has_constant_value(cs@, const_view(*c)),
{
    let mut j: usize = 0;
    while j < cs.len()
        invariant
            j <= cs@.len(),
            forall|i: int| 0 <= i < j ==> const_view((#[trigger] cs@[i]).value) != const_view(*c),
        decreases cs@.len() - j,
    {
        if same_constant(&cs[j].value, c) {
            return true;
        }
        j = j + 1;
    }
    false
}

fn call_in(calls: &Vec<ApiCallFingerprint>, a: &ApiCallFingerprint) -> (r: bool)
    ensures
        r == has_call(calls@, opt_view(a.object), a.method@),
{
    let mut j: usize = 0;
    while j < calls.len()
        invariant
            j <= calls@.len(),
            forall|i: int|
                0 <= i < j ==> !(opt_view((#[trigger] calls@[i]).object) == opt_view(a.object) && calls@[i].method@
                    == a.method@),
        decreases calls@.len() - j,
    {
        if same_opt_string(&calls[j].object, &a.object) && str_eq(calls[j].method.as_str(), a.method.as_str()) {
            return true;
        }
        j = j + 1;
    }
    false
}

fn strings_by_presence(ss: &Vec<StringFingerprint>, other: &Vec<StringFingerprint>, present: bool) -> (r: Vec<usize>)
    ensures
        r@ == string_indices(ss@, other@, ss@.len() as int, present),
{
    let mut r: Vec<usize> = Vec::new();
    let mut k: usize = 0;
    while k < ss.len()
        invariant
            k <= ss@.len(),
            r@ == string_indices(ss@, other@, k as int, present),
        decreases ss@.len() - k,
    {
        if string_value_in(other, ss[k].value.as_str()) == present {
            r.push(k);
        }
        k = k + 1;
    }
    r
}

/// The evidence that two functions share: the indices of `fp1`'s strings
/// whose value `fp2` has too, of its constants whose value `fp2` has, and of
/// its API calls whose object and method `fp2` makes; then the indices of
/// `fp1`'s strings whose value `fp2` lacks, and of `fp2`'s strings whose
/// value `fp1` lacks.
pub fn shared_evidence(fp1: &FunctionFingerprint, fp2: &FunctionFingerprint) -> (r: (
    Vec<usize>,
    Vec<usize>,
    Vec<usize>,
    Vec<usize>,
    Vec<usize>,
))
    ensures
        r.0@ == string_indices(fp1.strings@, fp2.strings@, fp1.strings@.len() as int, true),
        r.1@ == constant_indices(fp1.constants@, fp2.constants@, fp1.constants@.len() as int),
        r.2@ == call_indices(fp1.api_calls@, fp2.api_calls@, fp1.api_calls@.len() as int),
        r.3@ == string_indices(fp1.strings@, fp2.strings@, fp1.strings@.len() as int, false),
        r.4@ == string_indices(fp2.strings@, fp1.strings@, fp2.strings@.len() as int, false),
{
    let shared_strings = strings_by_presence(&fp1.strings, &fp2.strings, true);
    let mut constants: Vec<usize> = Vec::new();
    let mut k: usize = 0;
    while k < fp1.constants.len()
        invariant
            k <= fp1.constants@.len(),
            constants@ == constant_indices(fp1.constants@, fp2.constants@, k as int),
        decreases fp1.constants@.len() - k,
    {
        if constant_value_in(&fp2.constants, &fp1.constants[k].value) {
            constants.push(k);
        }
        k = k + 1;
    }
    let mut calls: Vec<usize> = Vec::new();
    let mut k: usize = 0;
    while k < fp1.api_calls.len()
        invariant
            k <= fp1.api_calls@.len(),
            calls@ == call_indices(fp1.api_calls@, fp2.api_calls@, k as int),
        decreases fp1.api_calls@.len() - k,
    {
        if call_in(&fp2.api_calls, &fp1.api_calls[k]) {
            calls.push(k);
        }
        k = k + 1;
    }
    let only1 = strings_by_presence(&fp1.strings, &fp2.strings, false);
    let only2 = strings_by_presence(&fp2.strings, &fp1.strings, false);
    (shared_strings, constants, calls, only1, only2)
}

} // verus!
