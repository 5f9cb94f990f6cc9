//! Character-level helpers shared by every module: building strings,
//! comparing them, and rendering numbers in decimal.
use vstd::prelude::*;

verus! {

/// Appends one character (std `String::push`).
#[verifier::external_body]
pub(crate) fn push_char(s: &mut String, c: char)
    ensures
        final(s)@ == old(s)@.push(c),
{
    s.push(c);
}

/// Appends a string slice (std `String::push_str`).
#[verifier::external_body]
pub(crate) fn push_str(s: &mut String, t: &str)
    ensures
        final(s)@ == old(s)@ + t@,
{
    s.push_str(t);
}

/// Equality of two string slices (std `<str as PartialEq>::eq`): true exactly
/// when they hold the same characters.
#[verifier::external_body]
pub(crate) fn str_eq(a: &str, b: &str) -> (r: bool)
    ensures
        r == (a@ == b@),
{
    a == b
}

/// The characters of a string slice, in order.
pub fn chars_of(s: &str) -> (v: Vec<char>)
    ensures
        v@ == s@,
{
    let mut v: Vec<char> = Vec::new();
    for c in it: s.chars()
        invariant
            v@ == it.seq().take(it.index() as int),
    {
        v.push(c);
    }
    v
}

/// Number of UTF-8 bytes that encode `c`.
pub open spec fn utf8_width(c: char) -> nat {
    if (c as u32) < 0x80 {
        1
    } else if (c as u32) < 0x800 {
        2
    } else if (c as u32) < 0x10000 {
        3
    } else {
        4
    }
}

pub fn char_utf8_width(c: char) -> (w: usize)
    ensures
        w == utf8_width(c),
        1 <= w <= 4,
{
    let v = c as u32;
    if v < 0x80 {
        1
    } else if v < 0x800 {
        2
    } else if v < 0x10000 {
        3
    } else {
        4
    }
}

/// The decimal digit character for `d < 10`.
pub open spec fn digit_char(d: nat) -> char {
    if d == 0 {
        '0'
    } else if d == 1 {
        '1'
    } else if d == 2 {
        '2'
    } else if d == 3 {
        '3'
    } else if d == 4 {
        '4'
    } else if d == 5 {
        '5'
    } else if d == 6 {
        '6'
    } else if d == 7 {
        '7'
    } else if d == 8 {
        '8'
    } else {
        '9'
    }
}

/// The decimal rendering of `n`, without leading zeros ("0" for zero).
pub open spec fn decimal(n: nat) -> Seq<char>
    decreases n,
{
    if n < 10 {
        seq![digit_char(n)]
    } else {
        decimal(n / 10).push(digit_char(n % 10))
    }
}

fn digit_of(d: usize) -> (c: char)
    requires
        d < 10,
    ensures
        c == digit_char(d as nat),
{
    if d == 0 {
        '0'
    } else if d == 1 {
        '1'
    } else if d == 2 {
        '2'
    } else if d == 3 {
        '3'
    } else if d == 4 {
        '4'
    } else if d == 5 {
        '5'
    } else if d == 6 {
        '6'
    } else if d == 7 {
        '7'
    } else if d == 8 {
        '8'
    } else {
        '9'
    }
}

/// Appends the decimal rendering of `n` to `out`.
pub fn push_decimal(out: &mut String, n: usize)
    ensures
        final(out)@ == old(out)@ + decimal(n as nat),
    decreases n,
{
    if n < 10 {
        push_char(out, digit_of(n));
    } else {
        push_decimal(out, n / 10);
        push_char(out, digit_of(n % 10));
    }
}

/// `prefix` followed by the decimal rendering of `n`, e.g. `fn_3`.
pub fn numbered_name(prefix: &str, n: usize) -> (s: String)
    ensures
        s@ == prefix@ + decimal(n as nat),
{
    let mut s = String::new();
    push_str(&mut s, prefix);
    push_decimal(&mut s, n);
    s
}

/// The characters `v[start..end]` as a string.
pub fn string_of_range(v: &Vec<char>, start: usize, end: usize) -> (s: String)
    requires
        start <= end <= v@.len(),
    ensures
        s@ == v@.subrange(start as int, end as int),
{
    let mut s = String::new();
    let mut i = start;
    while i < end
        invariant
            start <= i <= end <= v@.len(),
            s@ == v@.subrange(start as int, i as int),
        decreases end - i,
    {
        push_char(&mut s, v[i]);
        i = i + 1;
    }
    s
}

/// Whether `t` occurs in `s` at character position `at`.
pub open spec fn occurs_at(s: Seq<char>, t: Seq<char>, at: int) -> bool {
    0 <= at && at + t.len() <= s.len() && s.subrange(at, at + t.len()) == t
}

/// Whether `t` occurs anywhere in `s`.
pub open spec fn contains_seq(s: Seq<char>, t: Seq<char>) -> bool {
    exists|at: int| occurs_at(s, t, at)
}

/// Whether `v[at..]` starts with `t`.
pub fn matches_at(v: &Vec<char>, t: &Vec<char>, at: usize) -> (r: bool)
    ensures
        r == occurs_at(v@, t@, at as int),
{
    let n = v.len();
    if at > n || t.len() > n - at {
        return false;
    }
    let mut k: usize = 0;
    while k < t.len()
        invariant
            n == v@.len(),
            at + t@.len() <= v@.len(),
            k <= t@.len(),
            forall|j: int| 0 <= j < k ==> v@[at + j] == t@[j],
        decreases t.len() - k,
    {
        assert(at + k < v@.len());
        if v[at + k] != t[k] {
            assert(v@.subrange(at as int, at + t@.len())[k as int] != t@[k as int]);
            return false;
        }
        k = k + 1;
    }
    assert(v@.subrange(at as int, at + t@.len()) =~= t@);
    true
}

/// Whether `t` occurs anywhere in `v`.
pub fn contains_chars(v: &Vec<char>, t: &Vec<char>) -> (r: bool)
    ensures
        r == contains_seq(v@, t@),
{
    if t.len() > v.len() {
        assert forall|at: int| !occurs_at(v@, t@, at) by {}
        return false;
    }
    let n = v.len();
    if t.len() == 0 {
        assert(v@.subrange(0, 0) =~= t@);
        assert(occurs_at(v@, t@, 0));
        return true;
    }
    let mut at: usize = 0;
    while at <= n - t.len()
        invariant
            n == v@.len(),
            0 < t@.len() <= v@.len(),
            at <= v@.len() - t@.len() + 1,
            forall|j: int| 0 <= j < at ==> !occurs_at(v@, t@, j),
        decreases n - t.len() + 1 - at,
    {
        if matches_at(v, t, at) {
            return true;
        }
        at = at + 1;
    }
    assert forall|j: int| !occurs_at(v@, t@, j) by {
        if 0 <= j && j + t@.len() <= v@.len() {
            assert(j < at);
        }
    }
    false
}

/// Whether string `s` contains string `t`.
pub fn str_contains(s: &str, t: &str) -> (r: bool)
    ensures
        r == contains_seq(s@, t@),
{
    let sv = chars_of(s);
    let tv = chars_of(t);
    contains_chars(&sv, &tv)
}

/// Whether `t` is a prefix of `s`.
pub fn str_starts_with(s: &str, t: &str) -> (r: bool)
    ensures
        r == occurs_at(s@, t@, 0),
{
    let sv = chars_of(s);
    let tv = chars_of(t);
    matches_at(&sv, &tv, 0)
}

/// Whether `t` is a suffix of `s`.
pub fn str_ends_with(s: &str, t: &str) -> (r: bool)
    ensures
        r == (t@.len() <= s@.len() && occurs_at(s@, t@, s@.len() - t@.len())),
{
    let sv = chars_of(s);
    let tv = chars_of(t);
    if tv.len() > sv.len() {
        return false;
    }
    matches_at(&sv, &tv, sv.len() - tv.len())
}


/// Appends the characters `v[start..end]` to `out`.
pub fn push_range(out: &mut String, v: &Vec<char>, start: usize, end: usize)
    requires
        start <= end <= v@.len(),
    ensures
        final(out)@ == old(out)@ + v@.subrange(start as int, end as int),
{
    let ghost before = out@;
    let mut i = start;
    while i < end
        invariant
            start <= i <= end <= v@.len(),
            out@ == before + v@.subrange(start as int, i as int),
        decreases end - i,
    {
        push_char(out, v[i]);
        proof {
            assert(v@.subrange(start as int, i + 1) =~= v@.subrange(start as int, i as int).push(v@[i as int]));
        }
        i = i + 1;
    }
}

/// A new string holding the characters of `t`.
pub fn string_of(t: &str) -> (s: String)
    ensures
        s@ == t@,
{
    let mut s = String::new();
    push_str(&mut s, t);
    proof {
        assert(s@ =~= t@);
    }
    s
}


/// Unicode white space, as `char::is_whitespace` defines it (the
/// `White_Space` property).
pub open spec fn is_ws(c: char) -> bool {
    ||| '\t' <= c <= '\r'
    ||| c == ' '
    ||| c == '\u{85}'
    ||| c == '\u{a0}'
    ||| c == '\u{1680}'
    ||| '\u{2000}' <= c <= '\u{200a}'
    ||| c == '\u{2028}'
    ||| c == '\u{2029}'
    ||| c == '\u{202f}'
    ||| c == '\u{205f}'
    ||| c == '\u{3000}'
}

pub fn char_is_ws(c: char) -> (r: bool)
    ensures
        r == is_ws(c),
{
    ('\t' <= c && c <= '\r') || c == ' ' || c == '\u{85}' || c == '\u{a0}' || c == '\u{1680}' || ('\u{2000}' <= c
        && c <= '\u{200a}') || c == '\u{2028}' || c == '\u{2029}' || c == '\u{202f}' || c == '\u{205f}' || c
        == '\u{3000}'
}

/// The index of the first character at or after `k` that is not white space.
pub open spec fn lead_ws(s: Seq<char>, k: int) -> int
    decreases s.len() - k,
{
    if 0 <= k < s.len() && is_ws(s[k]) {
        lead_ws(s, k + 1)
    } else {
        k
    }
}

/// The end of `s[..k]` without its trailing white space.
pub open spec fn trail_end(s: Seq<char>, k: int) -> int
    decreases k,
{
    if 0 < k <= s.len() && is_ws(s[k - 1]) {
        trail_end(s, k - 1)
    } else {
        k
    }
}

/// Whether `s` with its leading white space removed starts with `w`.
pub open spec fn starts_after_ws(s: Seq<char>, w: Seq<char>) -> bool {
    occurs_at(s, w, lead_ws(s, 0))
}

/// Whether `s` with its white space trimmed ends with `c`.
pub open spec fn ends_before_ws(s: Seq<char>, c: char) -> bool {
    let b = trail_end(s, s.len() as int);
    b > 0 && s[b - 1] == c
}

/// `s` without its leading and trailing white space, as `str::trim` gives it.
pub open spec fn trimmed(s: Seq<char>) -> Seq<char> {
    let a = lead_ws(s, 0);
    let b = trail_end(s, s.len() as int);
    if a < b {
        s.subrange(a, b)
    } else {
        seq![]
    }
}

/// `v` without its leading and trailing white space.
pub fn trim_chars(v: &Vec<char>) -> (r: String)
    ensures
        r@ == trimmed(v@),
{
    let mut a: usize = 0;
    while a < v.len() && char_is_ws(v[a])
        invariant
            a <= v@.len(),
            lead_ws(v@, a as int) == lead_ws(v@, 0),
        decreases v@.len() - a,
    {
        a = a + 1;
    }
    let mut b: usize = v.len();
    while b > 0 && char_is_ws(v[b - 1])
        invariant
            b <= v@.len(),
            trail_end(v@, b as int) == trail_end(v@, v@.len() as int),
        decreases b,
    {
        b = b - 1;
    }
    if a < b {
        string_of_range(v, a, b)
    } else {
        String::new()
    }
}

/// Whether `v`, its leading white space removed, starts with `w`.
pub fn starts_after_ws_exec(v: &Vec<char>, w: &str) -> (r: bool)
    ensures
        r == starts_after_ws(v@, w@),
{
    let mut k: usize = 0;
    while k < v.len() && char_is_ws(v[k])
        invariant
            k <= v@.len(),
            lead_ws(v@, k as int) == lead_ws(v@, 0),
        decreases v@.len() - k,
    {
        k = k + 1;
    }
    let wv = chars_of(w);
    matches_at(v, &wv, k)
}

/// Whether `v`, its white space trimmed, ends with `c`.
pub fn ends_before_ws_exec(v: &Vec<char>, c: char) -> (r: bool)
    ensures
        r == ends_before_ws(v@, c),
{
    let mut b: usize = v.len();
    while b > 0 && char_is_ws(v[b - 1])
        invariant
            b <= v@.len(),
            trail_end(v@, b as int) == trail_end(v@, v@.len() as int),
        decreases b,
    {
        b = b - 1;
    }
    b > 0 && v[b - 1] == c
}

/// `line` without one trailing carriage return.
pub open spec fn strip_cr(line: Seq<char>) -> Seq<char> {
    if line.len() > 0 && line.last() == '\r' {
        line.drop_last()
    } else {
        line
    }
}

/// The lines of `s` from position `k` on, `cur` being the part of the
/// current line already read: lines end at `\n` (a `\r` before it is
/// dropped), and a last line with no `\n` counts when it is not empty.
pub open spec fn lines_from(s: Seq<char>, k: int, cur: Seq<char>) -> Seq<Seq<char>>
    decreases s.len() - k,
{
    if k < 0 || k >= s.len() {
        if cur.len() > 0 {
            seq![cur]
        } else {
            seq![]
        }
    } else if s[k] == '\n' {
        seq![strip_cr(cur)] + lines_from(s, k + 1, seq![])
    } else {
        lines_from(s, k + 1, cur.push(s[k]))
    }
}

/// The lines of `s`, as `str::lines` splits them.
pub open spec fn lines_of(s: Seq<char>) -> Seq<Seq<char>> {
    lines_from(s, 0, seq![])
}

/// The white-space separated words of `s` from position `k` on, `cur`
/// being the part of the current word already read.
pub open spec fn words_from(s: Seq<char>, k: int, cur: Seq<char>) -> Seq<Seq<char>>
    decreases s.len() - k,
{
    if k < 0 || k >= s.len() {
        if cur.len() > 0 {
            seq![cur]
        } else {
            seq![]
        }
    } else if is_ws(s[k]) {
        (if cur.len() > 0 {
            seq![cur]
        } else {
            seq![]
        }) + words_from(s, k + 1, seq![])
    } else {
        words_from(s, k + 1, cur.push(s[k]))
    }
}

/// The words of `s`, as `str::split_whitespace` yields them.
pub open spec fn words_of(s: Seq<char>) -> Seq<Seq<char>> {
    words_from(s, 0, seq![])
}

/// Whether `w` is a non-empty run of characters none of which is white space.
pub open spec fn plain_word(w: Seq<char>) -> bool {
    w.len() > 0 && forall|i: int| 0 <= i < w.len() ==> !is_ws(#[trigger] w[i])
}

proof fn lemma_lines_shift(a: Seq<char>, y: Seq<char>, i: int, cur: Seq<char>)
    requires
        0 <= i,
    ensures
        lines_from(a + y, a.len() + i, cur) == lines_from(y, i, cur),
    decreases y.len() - i,
{
    if i < y.len() {
        assert((a + y)[a.len() + i] == y[i]);
        if y[i] == '\n' {
            lemma_lines_shift(a, y, i + 1, seq![]);
        } else {
            lemma_lines_shift(a, y, i + 1, cur.push(y[i]));
        }
    }
}

proof fn lemma_lines_concat_from(a: Seq<char>, y: Seq<char>, k: int, cur: Seq<char>)
    requires
        0 <= k <= a.len(),
        k == a.len() ==> cur.len() == 0,
        a.len() == 0 || a.last() == '\n',
    ensures
        lines_from(a + y, k, cur) == lines_from(a, k, cur) + lines_of(y),
    decreases a.len() - k,
{
    if k == a.len() {
        assert(cur =~= Seq::<char>::empty());
        lemma_lines_shift(a, y, 0, cur);
        assert(lines_from(a, k, cur) =~= Seq::<Seq<char>>::empty());
        assert(lines_from(a + y, k, cur) =~= lines_from(a, k, cur) + lines_of(y));
    } else {
        assert((a + y)[k] == a[k]);
        if a[k] == '\n' {
            lemma_lines_concat_from(a, y, k + 1, seq![]);
            assert(lines_from(a + y, k, cur) =~= lines_from(a, k, cur) + lines_of(y));
        } else {
            lemma_lines_concat_from(a, y, k + 1, cur.push(a[k]));
        }
    }
}

/// The lines of text made of complete lines and more text are the lines of each.
pub proof fn lemma_lines_concat(a: Seq<char>, y: Seq<char>)
    requires
        a.len() == 0 || a.last() == '\n',
    ensures
        lines_of(a + y) == lines_of(a) + lines_of(y),
{
    lemma_lines_concat_from(a, y, 0, seq![]);
}

proof fn lemma_line_single_from(x: Seq<char>, k: int, cur: Seq<char>)
    requires
        0 <= k <= x.len(),
        forall|i: int| 0 <= i < x.len() ==> x[i] != '\n',
    ensures
        lines_from(x + "\n"@, k, cur) == seq![strip_cr(cur + x.subrange(k, x.len() as int))],
    decreases x.len() - k,
{
    reveal_strlit("\n");
    let s = x + "\n"@;
    if k == x.len() {
        assert(s[k] == '\n');
        assert(lines_from(s, k + 1, seq![]) =~= Seq::<Seq<char>>::empty());
        assert(cur + x.subrange(k, x.len() as int) =~= cur);
    } else {
        assert(s[k] == x[k]);
        lemma_line_single_from(x, k + 1, cur.push(x[k]));
        assert(cur.push(x[k]) + x.subrange(k + 1, x.len() as int) =~= cur + x.subrange(k, x.len() as int));
    }
}

/// A text of one line ended by a newline has that line alone.
pub proof fn lemma_line_single(x: Seq<char>)
    requires
        forall|i: int| 0 <= i < x.len() ==> x[i] != '\n',
    ensures
        lines_of(x + "\n"@) == seq![strip_cr(x)],
{
    lemma_line_single_from(x, 0, seq![]);
    assert(Seq::<char>::empty() + x.subrange(0, x.len() as int) =~= x);
}

proof fn lemma_words_shift(a: Seq<char>, y: Seq<char>, i: int, cur: Seq<char>)
    requires
        0 <= i,
    ensures
        words_from(a + y, a.len() + i, cur) == words_from(y, i, cur),
    decreases y.len() - i,
{
    if i < y.len() {
        assert((a + y)[a.len() + i] == y[i]);
        if is_ws(y[i]) {
            lemma_words_shift(a, y, i + 1, seq![]);
        } else {
            lemma_words_shift(a, y, i + 1, cur.push(y[i]));
        }
    }
}

proof fn lemma_word_then_from(w: Seq<char>, rest: Seq<char>, k: int, cur: Seq<char>)
    requires
        0 <= k <= w.len(),
        forall|i: int| 0 <= i < w.len() ==> !is_ws(#[trigger] w[i]),
        (cur + w.subrange(k, w.len() as int)).len() > 0,
    ensures
        words_from(w + " "@ + rest, k, cur) == seq![cur + w.subrange(k, w.len() as int)] + words_of(rest),
    decreases w.len() - k,
{
    reveal_strlit(" ");
    let s = w + " "@ + rest;
    if k == w.len() {
        assert(s[k] == ' ');
        assert(is_ws(' '));
        lemma_words_shift(w + " "@, rest, 0, seq![]);
        assert(s == (w + " "@) + rest);
        assert(cur + w.subrange(k, w.len() as int) =~= cur);
    } else {
        assert(s[k] == w[k]);
        lemma_word_then_from(w, rest, k + 1, cur.push(w[k]));
        assert(cur.push(w[k]) + w.subrange(k + 1, w.len() as int) =~= cur + w.subrange(k, w.len() as int));
    }
}

/// A word followed by a space begins the words of a text.
pub proof fn lemma_word_then(w: Seq<char>, rest: Seq<char>)
    requires
        plain_word(w),
    ensures
        words_of(w + " "@ + rest) == seq![w] + words_of(rest),
{
    lemma_word_then_from(w, rest, 0, seq![]);
    assert(Seq::<char>::empty() + w.subrange(0, w.len() as int) =~= w);
}

proof fn lemma_word_alone_from(w: Seq<char>, k: int, cur: Seq<char>)
    requires
        0 <= k <= w.len(),
        forall|i: int| 0 <= i < w.len() ==> !is_ws(#[trigger] w[i]),
        (cur + w.subrange(k, w.len() as int)).len() > 0,
    ensures
        words_from(w, k, cur) == seq![cur + w.subrange(k, w.len() as int)],
    decreases w.len() - k,
{
    if k == w.len() {
        assert(cur + w.subrange(k, w.len() as int) =~= cur);
    } else {
        lemma_word_alone_from(w, k + 1, cur.push(w[k]));
        assert(cur.push(w[k]) + w.subrange(k + 1, w.len() as int) =~= cur + w.subrange(k, w.len() as int));
    }
}

/// A word alone is the only word of its text.
pub proof fn lemma_word_alone(w: Seq<char>)
    requires
        plain_word(w),
    ensures
        words_of(w) == seq![w],
{
    lemma_word_alone_from(w, 0, seq![]);
    assert(Seq::<char>::empty() + w.subrange(0, w.len() as int) =~= w);
}

/// Decimal renderings are non-empty runs of digits.
pub proof fn lemma_decimal_digits(n: nat)
    ensures
        decimal(n).len() > 0,
        forall|i: int| 0 <= i < decimal(n).len() ==> '0' <= #[trigger] decimal(n)[i] <= '9',
    decreases n,
{
    if n >= 10 {
        lemma_decimal_digits(n / 10);
    }
}

/// The lines of `s`.
pub fn split_lines(s: &Vec<char>) -> (r: Vec<Vec<char>>)
    ensures
        r@.map_values(|l: Vec<char>| l@) == lines_of(s@),
{
    let mut r: Vec<Vec<char>> = Vec::new();
    let mut cur: Vec<char> = Vec::new();
    let mut k: usize = 0;
    while k < s.len()
        invariant
            k <= s@.len(),
            r@.map_values(|l: Vec<char>| l@) + lines_from(s@, k as int, cur@) == lines_of(s@),
        decreases s@.len() - k,
    {
        let ghost before = r@.map_values(|l: Vec<char>| l@);
        if s[k] == '\n' {
            let ghost line = cur@;
            if cur.len() > 0 && cur[cur.len() - 1] == '\r' {
                cur.pop();
            }
            assert(cur@ == strip_cr(line));
            r.push(cur);
            cur = Vec::new();
            proof {
                assert(r@.map_values(|l: Vec<char>| l@) =~= before.push(strip_cr(line)));
                assert(r@.map_values(|l: Vec<char>| l@) + lines_from(s@, k + 1, cur@) =~= before + lines_from(
                    s@,
                    k as int,
                    line,
                ));
            }
        } else {
            cur.push(s[k]);
        }
        k = k + 1;
    }
    let ghost before = r@.map_values(|l: Vec<char>| l@);
    if cur.len() > 0 {
        r.push(cur);
        assert(r@.map_values(|l: Vec<char>| l@) =~= before.push(lines_from(s@, k as int, cur@)[0]));
    }
    assert(r@.map_values(|l: Vec<char>| l@) =~= before + lines_from(s@, k as int, cur@));
    r
}

/// The words of `s`.
pub fn split_words(s: &Vec<char>) -> (r: Vec<Vec<char>>)
    ensures
        r@.map_values(|w: Vec<char>| w@) == words_of(s@),
{
    let mut r: Vec<Vec<char>> = Vec::new();
    let mut cur: Vec<char> = Vec::new();
    let mut k: usize = 0;
    while k < s.len()
        invariant
            k <= s@.len(),
            r@.map_values(|w: Vec<char>| w@) + words_from(s@, k as int, cur@) == words_of(s@),
        decreases s@.len() - k,
    {
        let ghost before = r@.map_values(|w: Vec<char>| w@);
        if char_is_ws(s[k]) {
            let ghost word = cur@;
            if cur.len() > 0 {
                r.push(cur);
                cur = Vec::new();
                assert(r@.map_values(|w: Vec<char>| w@) =~= before + seq![word]);
            } else {
                assert(r@.map_values(|w: Vec<char>| w@) =~= before + Seq::<Seq<char>>::empty());
            }
            proof {
                assert(r@.map_values(|w: Vec<char>| w@) + words_from(s@, k + 1, seq![]) =~= before + words_from(
                    s@,
                    k as int,
                    word,
                ));
            }
            cur = Vec::new();
        } else {
            cur.push(s[k]);
        }
        k = k + 1;
    }
    let ghost before = r@.map_values(|w: Vec<char>| w@);
    if cur.len() > 0 {
        r.push(cur);
        assert(r@.map_values(|w: Vec<char>| w@) =~= before.push(words_from(s@, k as int, cur@)[0]));
    }
    assert(r@.map_values(|w: Vec<char>| w@) =~= before + words_from(s@, k as int, cur@));
    r
}

/// A string holding the characters of `v`.
pub fn string_of_chars(v: &Vec<char>) -> (s: String)
    ensures
        s@ == v@,
{
    let s = string_of_range(v, 0, v.len());
    assert(v@.subrange(0, v@.len() as int) =~= v@);
    s
}


/// The number of bytes of the UTF-8 encoding of `s`.
pub open spec fn utf8_len(s: Seq<char>) -> nat
    decreases s.len(),
{
    if s.len() == 0 {
        0
    } else {
        utf8_len(s.drop_last()) + utf8_width(s.last())
    }
}

/// The UTF-8 length of `s` in bytes (std `str::len`), saturating at `usize::MAX`.
pub fn byte_len(s: &str) -> (n: usize)
    ensures
        n == if utf8_len(s@) <= usize::MAX {
            utf8_len(s@)
        } else {
            usize::MAX as nat
        },
{
    let v = chars_of(s);
    let mut n: usize = 0;
    let mut i: usize = 0;
    while i < v.len()
        invariant
            i <= v@.len(),
            v@ == s@,
            n == if utf8_len(v@.take(i as int)) <= usize::MAX {
                utf8_len(v@.take(i as int))
            } else {
                usize::MAX as nat
            },
        decreases v@.len() - i,
    {
        assert(v@.take(i + 1).drop_last() =~= v@.take(i as int));
        let w = char_utf8_width(v[i]);
        n = n.saturating_add(w);
        i = i + 1;
    }
    assert(v@.take(i as int) =~= v@);
    n
}

/// `s` with every occurrence of `from` (non-empty), scanning left to right
/// from position `k` without overlaps, replaced by `to` (std `str::replace`).
pub open spec fn replace_from(s: Seq<char>, from: Seq<char>, to: Seq<char>, k: int) -> Seq<char>
    decreases s.len() - k,
{
    if k < 0 || k >= s.len() {
        seq![]
    } else if from.len() > 0 && occurs_at(s, from, k) {
        to + replace_from(s, from, to, k + from.len())
    } else {
        seq![s[k]] + replace_from(s, from, to, k + 1)
    }
}

pub open spec fn replace_all(s: Seq<char>, from: Seq<char>, to: Seq<char>) -> Seq<char> {
    replace_from(s, from, to, 0)
}

/// `s` with every occurrence of the non-empty `from` replaced by `to`.
pub fn replace_chars(s: &Vec<char>, from: &str, to: &str) -> (r: Vec<char>)
    requires
        from@.len() > 0,
    ensures
        r@ == replace_all(s@, from@, to@),
{
    let fv = chars_of(from);
    let tv = chars_of(to);
    let mut r: Vec<char> = Vec::new();
    let mut k: usize = 0;
    while k < s.len()
        invariant
            k <= s@.len(),
            fv@ == from@,
            tv@ == to@,
            fv@.len() > 0,
            r@ + replace_from(s@, fv@, tv@, k as int) == replace_all(s@, fv@, tv@),
        decreases s@.len() - k,
    {
        let ghost before = r@;
        if matches_at(s, &fv, k) {
            let mut j: usize = 0;
            while j < tv.len()
                invariant
                    j <= tv@.len(),
                    r@ == before + tv@.take(j as int),
                decreases tv@.len() - j,
            {
                r.push(tv[j]);
                assert(tv@.take(j + 1) =~= tv@.take(j as int).push(tv@[j as int]));
                j = j + 1;
            }
            assert(tv@.take(tv@.len() as int) =~= tv@);
            assert(r@ + replace_from(s@, fv@, tv@, k + fv@.len()) =~= before + replace_from(s@, fv@, tv@, k as int));
            k = k + fv.len();
        } else {
            r.push(s[k]);
            assert(r@ + replace_from(s@, fv@, tv@, k + 1) =~= before + replace_from(s@, fv@, tv@, k as int));
            k = k + 1;
        }
    }
    assert(r@ =~= r@ + replace_from(s@, fv@, tv@, k as int));
    r
}

/// The pieces of `s[k..]` between the occurrences of the non-empty `sep`,
/// found left to right without overlaps, `cur` being the piece read so far
/// (std `str::split` with a string pattern).
pub open spec fn split_from(s: Seq<char>, sep: Seq<char>, k: int, cur: Seq<char>) -> Seq<Seq<char>>
    decreases s.len() - k,
{
    if k < 0 || k >= s.len() {
        seq![cur]
    } else if sep.len() > 0 && occurs_at(s, sep, k) {
        seq![cur] + split_from(s, sep, k + sep.len(), seq![])
    } else {
        split_from(s, sep, k + 1, cur.push(s[k]))
    }
}

/// Splitting always gives at least one piece.
pub proof fn lemma_split_nonempty(s: Seq<char>, sep: Seq<char>, k: int, cur: Seq<char>)
    ensures
        split_from(s, sep, k, cur).len() >= 1,
    decreases s.len() - k,
{
    if k < 0 || k >= s.len() {
    } else if sep.len() > 0 && occurs_at(s, sep, k) {
    } else {
        lemma_split_nonempty(s, sep, k + 1, cur.push(s[k]));
    }
}

/// The pieces of `s` between the occurrences of `sep`.
pub open spec fn split_on(s: Seq<char>, sep: Seq<char>) -> Seq<Seq<char>> {
    split_from(s, sep, 0, seq![])
}

/// The pieces of `s` between the occurrences of the non-empty `sep`.
pub fn split_chars(s: &Vec<char>, sep: &str) -> (r: Vec<Vec<char>>)
    requires
        sep@.len() > 0,
    ensures
        r@.map_values(|p: Vec<char>| p@) == split_on(s@, sep@),
{
    let sv = chars_of(sep);
    let mut r: Vec<Vec<char>> = Vec::new();
    let mut cur: Vec<char> = Vec::new();
    let mut k: usize = 0;
    while k < s.len()
        invariant
            k <= s@.len(),
            sv@ == sep@,
            sv@.len() > 0,
            r@.map_values(|p: Vec<char>| p@) + split_from(s@, sv@, k as int, cur@) == split_on(s@, sep@),
        decreases s@.len() - k,
    {
        let ghost before = r@.map_values(|p: Vec<char>| p@);
        if matches_at(s, &sv, k) {
            let ghost piece = cur@;
            r.push(cur);
            cur = Vec::new();
            proof {
                assert(r@.map_values(|p: Vec<char>| p@) =~= before.push(piece));
                assert(r@.map_values(|p: Vec<char>| p@) + split_from(s@, sv@, k + sv@.len(), cur@) =~= before
                    + split_from(s@, sv@, k as int, piece));
            }
            k = k + sv.len();
        } else {
            cur.push(s[k]);
            k = k + 1;
        }
    }
    let ghost before = r@.map_values(|p: Vec<char>| p@);
    let ghost last = cur@;
    r.push(cur);
    assert(r@.map_values(|p: Vec<char>| p@) =~= before + split_from(s@, sv@, k as int, last));
    r
}

/// `s` without the prefix `p`, if it starts with it.
pub open spec fn without_prefix(s: Seq<char>, p: Seq<char>) -> Option<Seq<char>> {
    if occurs_at(s, p, 0) {
        Some(s.skip(p.len() as int))
    } else {
        None
    }
}

/// `s` without the suffix `p`, if it ends with it.
pub open spec fn without_suffix(s: Seq<char>, p: Seq<char>) -> Option<Seq<char>> {
    if p.len() <= s.len() && occurs_at(s, p, s.len() - p.len()) {
        Some(s.take(s.len() - p.len()))
    } else {
        None
    }
}

/// `v` without the prefix `p`, if it starts with it.
pub fn strip_prefix_chars(v: &Vec<char>, p: &str) -> (r: Option<Vec<char>>)
    ensures
        match r {
            Some(w) => without_prefix(v@, p@) == Some(w@),
            None => without_prefix(v@, p@) is None,
        },
{
    let pv = chars_of(p);
    if !matches_at(v, &pv, 0) {
        return None;
    }
    let mut w: Vec<char> = Vec::new();
    let mut i: usize = pv.len();
    while i < v.len()
        invariant
            pv@.len() <= i <= v@.len(),
            w@ == v@.subrange(pv@.len() as int, i as int),
        decreases v@.len() - i,
    {
        w.push(v[i]);
        proof {
            assert(v@.subrange(pv@.len() as int, i + 1) =~= v@.subrange(pv@.len() as int, i as int).push(v@[i as int]));
        }
        i = i + 1;
    }
    assert(w@ =~= v@.skip(pv@.len() as int));
    Some(w)
}

/// `v` without the suffix `p`, if it ends with it.
pub fn strip_suffix_chars(v: &Vec<char>, p: &str) -> (r: Option<Vec<char>>)
    ensures
        match r {
            Some(w) => without_suffix(v@, p@) == Some(w@),
            None => without_suffix(v@, p@) is None,
        },
{
    let pv = chars_of(p);
    if pv.len() > v.len() || !matches_at(v, &pv, v.len() - pv.len()) {
        return None;
    }
    let end = v.len() - pv.len();
    let mut w: Vec<char> = Vec::new();
    let mut i: usize = 0;
    while i < end
        invariant
            end <= v@.len(),
            i <= end,
            w@ == v@.take(i as int),
        decreases end - i,
    {
        w.push(v[i]);
        proof {
            assert(v@.take(i + 1) =~= v@.take(i as int).push(v@[i as int]));
        }
        i = i + 1;
    }
    Some(w)
}

/// The value of the decimal digits `d`.
pub open spec fn digits_value(d: Seq<char>) -> int
    decreases d.len(),
{
    if d.len() == 0 {
        0
    } else {
        digits_value(d.drop_last()) * 10 + (d.last() as int - '0' as int)
    }
}

pub open spec fn all_digits(d: Seq<char>) -> bool {
    forall|i: int| 0 <= i < d.len() ==> '0' <= #[trigger] d[i] <= '9'
}

/// What `str::parse::<i64>` gives: an optional `+` or `-`, then one or more
/// ASCII digits, whose value fits in an `i64`.
pub open spec fn parse_i64(s: Seq<char>) -> Option<i64> {
    let neg = s.len() > 0 && s[0] == '-';
    let signed = s.len() > 0 && (s[0] == '-' || s[0] == '+');
    let d = if signed {
        s.drop_first()
    } else {
        s
    };
    let v = if neg {
        -digits_value(d)
    } else {
        digits_value(d)
    };
    if d.len() > 0 && all_digits(d) && i64::MIN <= v <= i64::MAX {
        Some(v as i64)
    } else {
        None
    }
}

proof fn lemma_digits_value_nonneg(d: Seq<char>)
    requires
        all_digits(d),
    ensures
        digits_value(d) >= 0,
    decreases d.len(),
{
    if d.len() > 0 {
        assert(all_digits(d.drop_last())) by {
            assert forall|i: int| 0 <= i < d.drop_last().len() implies '0' <= #[trigger] d.drop_last()[i] <= '9' by {
                assert(d.drop_last()[i] == d[i]);
            }
        }
        lemma_digits_value_nonneg(d.drop_last());
        assert('0' <= d[d.len() - 1] <= '9');
    }
}

/// `s` parsed as an `i64`.
pub fn str_parse_i64(s: &str) -> (r: Option<i64>)
    ensures
        r == parse_i64(s@),
{
    let v = chars_of(s);
    let n = v.len();
    if n == 0 {
        return None;
    }
    let neg = v[0] == '-';
    let start: usize = if v[0] == '-' || v[0] == '+' {
        1
    } else {
        0
    };
    let ghost d = if start == 1 {
        s@.drop_first()
    } else {
        s@
    };
    assert(d =~= v@.subrange(start as int, n as int));
    if start == n {
        return None;
    }
    let limit: u64 = 9223372036854775808;
    let mut acc: u64 = 0;
    let mut big = false;
    let mut i: usize = start;
    while i < n
        invariant
            start <= i <= n,
            n == v@.len(),
            v@ == s@,
            d == v@.subrange(start as int, n as int),
            d == (if s@.len() > 0 && (s@[0] == '-' || s@[0] == '+') {
                s@.drop_first()
            } else {
                s@
            }),
            limit == 9223372036854775808u64,
            all_digits(v@.subrange(start as int, i as int)),
            !big ==> acc == digits_value(v@.subrange(start as int, i as int)) && acc <= limit,
            big ==> digits_value(v@.subrange(start as int, i as int)) > limit,
        decreases n - i,
    {
        let c = v[i];
        if !('0' <= c && c <= '9') {
            assert(d[i - start] == c);
            assert(!('0' <= d[i - start] <= '9'));
            assert(!all_digits(d));
            return None;
        }
        let ghost pre = v@.subrange(start as int, i as int);
        let ghost post = v@.subrange(start as int, i + 1);
        assert(post.drop_last() =~= pre);
        assert(post.last() == c);
        assert(all_digits(post)) by {
            assert forall|j: int| 0 <= j < post.len() implies '0' <= #[trigger] post[j] <= '9' by {
                if j < pre.len() {
                    assert(post[j] == pre[j]);
                }
            }
        }
        let digit = (c as u32 - '0' as u32) as u64;
        assert(digit == c as int - '0' as int);
        if !big {
            if acc > (limit - digit) / 10 {
                big = true;
                assert(digits_value(post) == acc * 10 + digit);
                assert(acc * 10 + digit > limit) by (nonlinear_arith)
                    requires
                        acc > (limit - digit) / 10,
                        digit <= 9,
                        limit == 9223372036854775808u64,
                ;
            } else {
                assert(acc * 10 + digit <= limit) by (nonlinear_arith)
                    requires
                        acc <= (limit - digit) / 10,
                        digit <= 9,
                        limit == 9223372036854775808u64,
                ;
                acc = acc * 10 + digit;
            }
        } else {
            proof {
                lemma_digits_value_nonneg(pre);
                assert(digits_value(post) == digits_value(pre) * 10 + digit);
                assert(digits_value(pre) * 10 + digit > limit) by (nonlinear_arith)
                    requires
                        digits_value(pre) > limit,
                        digit >= 0,
                ;
            }
        }
        i = i + 1;
    }
    assert(v@.subrange(start as int, i as int) == d);
    if big {
        return None;
    }
    if neg {
        if acc == limit {
            Some(-9223372036854775807i64 - 1)
        } else {
            Some(-(acc as i64))
        }
    } else {
        if acc == limit {
            None
        } else {
            Some(acc as i64)
        }
    }
}

/// Whether `c` may start an identifier: an ASCII letter, `_` or `$`.
pub open spec fn ident_start(c: char) -> bool {
    ('a' <= c <= 'z') || ('A' <= c <= 'Z') || c == '_' || c == '$'
}

/// Whether `c` may continue an identifier: also an ASCII digit.
pub open spec fn ident_continue(c: char) -> bool {
    ident_start(c) || ('0' <= c <= '9')
}

pub fn is_ident_start(c: char) -> (r: bool)
    ensures
        r == ident_start(c),
{
    ('a' <= c && c <= 'z') || ('A' <= c && c <= 'Z') || c == '_' || c == '$'
}

pub fn is_ident_continue(c: char) -> (r: bool)
    ensures
        r == ident_continue(c),
{
    is_ident_start(c) || ('0' <= c && c <= '9')
}


/// The number of occurrences of `c` in `s`.
pub open spec fn count_char(s: Seq<char>, c: char) -> nat
    decreases s.len(),
{
    if s.len() == 0 {
        0
    } else {
        count_char(s.drop_last(), c) + if s.last() == c {
            1nat
        } else {
            0nat
        }
    }
}

pub fn count_char_in(s: &Vec<char>, c: char) -> (n: usize)
    ensures
        n == count_char(s@, c),
{
    let mut n: usize = 0;
    let mut i: usize = 0;
    while i < s.len()
        invariant
            i <= s@.len(),
            n == count_char(s@.take(i as int), c),
            n <= i,
        decreases s@.len() - i,
    {
        assert(s@.take(i + 1).drop_last() =~= s@.take(i as int));
        if s[i] == c {
            n = n + 1;
        }
        i = i + 1;
    }
    assert(s@.take(i as int) =~= s@);
    n
}

/// Whether `c` is `w` or its ASCII capital.
pub open spec fn same_ignoring_case(c: char, w: char) -> bool {
    c == w || ('A' <= c <= 'Z' && (c as u32) + 32 == (w as u32))
}

/// Whether `s` equals the lower-case ASCII word `w` ignoring ASCII case.
pub open spec fn eq_ignore_ascii_case(s: Seq<char>, w: Seq<char>) -> bool {
    s.len() == w.len() && forall|i: int| 0 <= i < s.len() ==> same_ignoring_case(#[trigger] s[i], w[i])
}

/// The digits-and-point part of a decimal number: digits with at most one
/// `.`, and at least one digit.
pub open spec fn mantissa_ok(m: Seq<char>) -> bool {
    &&& forall|i: int| 0 <= i < m.len() ==> ('0' <= #[trigger] m[i] <= '9' || m[i] == '.')
    &&& count_char(m, '.') <= 1
    &&& exists|i: int| 0 <= i < m.len() && '0' <= #[trigger] m[i] <= '9'
}

/// An exponent after `e`: an optional sign and one or more digits.
pub open spec fn exponent_ok(x: Seq<char>) -> bool {
    let y = if x.len() > 0 && (x[0] == '+' || x[0] == '-') {
        x.drop_first()
    } else {
        x
    };
    y.len() > 0 && all_digits(y)
}

/// The index of the first `e` or `E` in `s` from `k` on.
pub open spec fn first_exp_mark(s: Seq<char>, k: int) -> Option<int>
    decreases s.len() - k,
{
    if k < 0 || k >= s.len() {
        None
    } else if s[k] == 'e' || s[k] == 'E' {
        Some(k)
    } else {
        first_exp_mark(s, k + 1)
    }
}

/// What `str::parse::<f64>` accepts, by the grammar its documentation
/// gives: an optional sign, then `inf`, `infinity` or `nan` in any ASCII
/// case, or a decimal number with an optional exponent.
pub open spec fn parses_as_float(s: Seq<char>) -> bool {
    let d = if s.len() > 0 && (s[0] == '+' || s[0] == '-') {
        s.drop_first()
    } else {
        s
    };
    ||| eq_ignore_ascii_case(d, "inf"@)
    ||| eq_ignore_ascii_case(d, "infinity"@)
    ||| eq_ignore_ascii_case(d, "nan"@)
    ||| match first_exp_mark(d, 0) {
        Some(e) => mantissa_ok(d.take(e)) && exponent_ok(d.skip(e + 1)),
        None => mantissa_ok(d),
    }
}

fn eq_ignore_case_exec(s: &Vec<char>, w: &str) -> (r: bool)
    ensures
        r == eq_ignore_ascii_case(s@, w@),
{
    let wv = chars_of(w);
    if s.len() != wv.len() {
        return false;
    }
    let mut i: usize = 0;
    while i < s.len()
        invariant
            i <= s@.len(),
            s@.len() == wv@.len(),
            wv@ == w@,
            forall|j: int| 0 <= j < i ==> same_ignoring_case(#[trigger] s@[j], wv@[j]),
        decreases s@.len() - i,
    {
        let c = s[i];
        let w = wv[i];
        if !(c == w || ('A' <= c && c <= 'Z' && (c as u32) + 32 == (w as u32))) {
            return false;
        }
        i = i + 1;
    }
    true
}

fn mantissa_ok_exec(m: &Vec<char>) -> (r: bool)
    ensures
        r == mantissa_ok(m@),
{
    let mut digit_seen = false;
    let mut i: usize = 0;
    while i < m.len()
        invariant
            i <= m@.len(),
            forall|j: int| 0 <= j < i ==> ('0' <= #[trigger] m@[j] <= '9' || m@[j] == '.'),
            digit_seen == exists|j: int| 0 <= j < i && '0' <= #[trigger] m@[j] <= '9',
        decreases m@.len() - i,
    {
        let c = m[i];
        if '0' <= c && c <= '9' {
            digit_seen = true;
        } else if c != '.' {
            return false;
        }
        i = i + 1;
    }
    digit_seen && count_char_in(m, '.') <= 1
}

fn digits_exec(v: &Vec<char>, from: usize) -> (r: bool)
    requires
        from <= v@.len(),
    ensures
        r == (from < v@.len() && all_digits(v@.skip(from as int))),
{
    if from >= v.len() {
        return false;
    }
    let mut i = from;
    while i < v.len()
        invariant
            from <= i <= v@.len(),
            forall|j: int| from <= j < i ==> '0' <= #[trigger] v@[j] <= '9',
        decreases v@.len() - i,
    {
        if !('0' <= v[i] && v[i] <= '9') {
            assert(v@.skip(from as int)[i - from] == v@[i as int]);
            return false;
        }
        i = i + 1;
    }
    assert forall|j: int| 0 <= j < v@.skip(from as int).len() implies '0' <= #[trigger] v@.skip(from as int)[j]
        <= '9' by {
        assert(v@.skip(from as int)[j] == v@[from + j]);
    }
    true
}

/// Whether `str::parse::<f64>` would accept `s`.
pub fn parses_as_float_exec(s: &str) -> (r: bool)
    ensures
        r == parses_as_float(s@),
{
    let v = chars_of(s);
    let start: usize = if v.len() > 0 && (v[0] == '+' || v[0] == '-') {
        1
    } else {
        0
    };
    let mut d: Vec<char> = Vec::new();
    let mut i = start;
    while i < v.len()
        invariant
            start <= i <= v@.len(),
            d@ == v@.subrange(start as int, i as int),
        decreases v@.len() - i,
    {
        d.push(v[i]);
        assert(v@.subrange(start as int, i + 1) =~= v@.subrange(start as int, i as int).push(v@[i as int]));
        i = i + 1;
    }
    let ghost dd = if s@.len() > 0 && (s@[0] == '+' || s@[0] == '-') {
        s@.drop_first()
    } else {
        s@
    };
    assert(d@ =~= dd);
    if eq_ignore_case_exec(&d, "inf") || eq_ignore_case_exec(&d, "infinity") || eq_ignore_case_exec(&d, "nan") {
        return true;
    }
    let mut e: usize = 0;
    while e < d.len()
        invariant
            e <= d@.len(),
            first_exp_mark(d@, 0) == first_exp_mark(d@, e as int),
        ensures
            e <= d@.len(),
            first_exp_mark(d@, 0) == first_exp_mark(d@, e as int),
            e < d@.len() ==> (d@[e as int] == 'e' || d@[e as int] == 'E'),
        decreases d@.len() - e,
    {
        if d[e] == 'e' || d[e] == 'E' {
            break;
        }
        e = e + 1;
    }
    if e < d.len() {
        assert(first_exp_mark(d@, e as int) == Some(e as int));
        let mut m: Vec<char> = Vec::new();
        let mut j: usize = 0;
        while j < e
            invariant
                j <= e < d@.len(),
                m@ == d@.take(j as int),
            decreases e - j,
        {
            m.push(d[j]);
            assert(d@.take(j + 1) =~= d@.take(j as int).push(d@[j as int]));
            j = j + 1;
        }
        if !mantissa_ok_exec(&m) {
            return false;
        }
        let x = e + 1;
        let ghost xs = d@.skip(x as int);
        let from: usize = if x < d.len() && (d[x] == '+' || d[x] == '-') {
            x + 1
        } else {
            x
        };
        let ok = digits_exec(&d, from);
        proof {
            let y = if xs.len() > 0 && (xs[0] == '+' || xs[0] == '-') {
                xs.drop_first()
            } else {
                xs
            };
            assert(y =~= d@.skip(from as int));
        }
        ok
    } else {
        assert(first_exp_mark(d@, e as int) is None);
        mantissa_ok_exec(&d)
    }
}

} // verus!
